use cdcl_sat::model::Model;
use cdcl_sat::sat::SAT;

#[test]
fn new_model_has_nothing_assigned() {
    let model = Model::new(Some(3));
    assert_eq!(model.len(), 3);
    for v in 1..=3usize {
        assert!(!model.has_abs(v));
    }
    assert_eq!(model.to_literals(), Vec::<isize>::new());
    assert_eq!(Model::new(None).len(), 0);
}

#[test]
fn add_sets_the_polarity_of_the_literal() {
    let mut model = Model::new(Some(3));
    model.add(2);
    model.add(-3);
    assert!(model.has(2));
    assert!(!model.has(-2));
    assert!(model.has(-3));
    assert!(!model.has(3));
    assert!(!model.has(1));
    assert!(!model.has(-1));
    assert!(model.has_abs(2));
    assert!(model.has_abs(3));
    assert!(!model.has_abs(1));
}

#[test]
fn satisfies_is_three_valued() {
    let mut model = Model::new(Some(2));
    model.add(-1);
    assert_eq!(model.satisfies(-1), SAT::Satisfiable);
    assert_eq!(model.satisfies(1), SAT::Unsatisfiable);
    assert_eq!(model.satisfies(2), SAT::Unknown);
    assert_eq!(model.satisfies(-2), SAT::Unknown);
}

#[test]
fn add_overwrites_and_remove_ignores_the_sign() {
    let mut model = Model::new(Some(1));
    model.add(1);
    model.add(-1);
    assert!(model.has(-1));
    assert!(!model.has(1));
    model.remove(1);
    assert!(!model.has_abs(1));
    assert_eq!(model.satisfies(-1), SAT::Unknown);
}

#[test]
fn a_model_never_holds_both_polarities() {
    let mut model = Model::new(Some(4));
    for literal in [1isize, -2, 3, -3, 2, -1, 4] {
        model.add(literal);
        for v in 1..=4isize {
            assert!(!(model.has(v) && model.has(-v)));
        }
    }
}

#[test]
fn resize_keeps_what_fits_and_adds_unassigned_variables() {
    let mut model = Model::new(Some(2));
    model.add(1);
    model.add(-2);
    model.resize(4);
    assert_eq!(model.len(), 4);
    assert_eq!(model.to_literals(), vec![1, -2]);
    model.resize(1);
    assert_eq!(model.to_literals(), vec![1]);
}

#[test]
fn to_literals_lists_assigned_variables_in_ascending_order() {
    let mut model = Model::new(Some(5));
    model.add(-4);
    model.add(2);
    model.add(5);
    assert_eq!(model.to_literals(), vec![2, -4, 5]);
}

#[test]
fn an_instance_is_a_model() {
    let mut instance = cdcl_sat::instance::Instance::new(Some(2));
    instance.resize(3);
    instance.add(-3);
    assert!(instance.has(-3));
    assert!(instance.has_abs(3));
    assert_eq!(instance.satisfies(3), SAT::Unsatisfiable);
    instance.remove(3);
    assert!(!instance.has_abs(3));
}
