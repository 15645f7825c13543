use cdcl_sat::stats::Stats;

#[test]
fn new_stats_are_zero() {
    let stats = Stats::new();
    assert_eq!(stats.get_clauses_learned(), 0);
    assert_eq!(stats.get_clauses_forgotten(), 0);
    assert_eq!(stats.virtual_memory_bytes(), 0);
    assert_eq!(stats.physical_memory_bytes(), 0);
}

#[test]
fn counters_add_up() {
    let mut stats = Stats::new();
    stats.increase_learned();
    stats.increase_learned();
    stats.increase_forgotten(3);
    stats.increase_forgotten(0);
    assert_eq!(stats.get_clauses_learned(), 2);
    assert_eq!(stats.get_clauses_forgotten(), 3);
}

#[test]
fn a_sample_replaces_both_memory_figures() {
    let mut stats = Stats::new();
    stats.record_memory(Some((10240, 10000)));
    assert_eq!(stats.virtual_memory_bytes(), 10240);
    assert_eq!(stats.physical_memory_bytes(), 10000);
    stats.record_memory(None);
    assert_eq!(stats.virtual_memory_bytes(), 10240);
    assert_eq!(stats.physical_memory_bytes(), 10000);
}

#[test]
fn memory_is_written_with_its_exact_unit() {
    let mut stats = Stats::new();
    stats.record_memory(Some((10240, 10000)));
    assert_eq!(stats.get_virtual_memory(), "10 KiB");
    assert_eq!(stats.get_physical_memory(), "10 KB");
    stats.record_memory(Some((3211776, 7)));
    assert_eq!(stats.get_virtual_memory(), "3136.5 KiB");
    assert_eq!(stats.get_physical_memory(), "7 B");
}

#[test]
fn update_leaves_the_counters_alone() {
    let mut stats = Stats::new();
    stats.increase_learned();
    stats.increase_forgotten(5);
    stats.update();
    assert_eq!(stats.get_clauses_learned(), 1);
    assert_eq!(stats.get_clauses_forgotten(), 5);
}
