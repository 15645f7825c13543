use cdcl_sat::decision::{trail_names, Decision};

#[test]
fn new_decision_has_nothing_propagated() {
    let decision = Decision::new(-4);
    assert_eq!(decision.get_decided_literal(), -4);
    assert!(decision.get_propagated_literals().is_empty());
}

#[test]
fn propagated_literals_keep_their_order_and_reasons() {
    let mut decision = Decision::new(1);
    decision.add_propagated_literal(-2, 7);
    decision.add_propagated_literal(3, 0);
    assert_eq!(decision.get_propagated_literals(), &vec![(-2, 7), (3, 0)]);
    decision.clear_propagated_literals();
    assert!(decision.get_propagated_literals().is_empty());
    assert_eq!(decision.get_decided_literal(), 1);
}

#[test]
fn equality_is_a_trail_lookup() {
    let mut level = Decision::new(1);
    level.add_propagated_literal(-2, 0);
    level.add_propagated_literal(3, 1);
    assert!(level == Decision::new(1));
    assert!(level == Decision::new(-2));
    assert!(level == Decision::new(3));
    assert!(level != Decision::new(2));
    assert!(level != Decision::new(-1));
    assert!(Decision::new(-2) != level);
}

#[test]
fn trail_names_looks_at_every_level() {
    let mut ground = Decision::new(0);
    ground.add_propagated_literal(5, 2);
    let trail = vec![ground, Decision::new(-1)];
    assert!(trail_names(&trail, 5));
    assert!(trail_names(&trail, -1));
    assert!(!trail_names(&trail, 1));
    assert!(!trail_names(&trail, -5));
    assert!(!trail_names(&Vec::new(), 1));
}
