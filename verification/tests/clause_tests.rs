use cdcl_sat::clause::Clause;
use cdcl_sat::decision::Decision;
use cdcl_sat::model::Model;
use cdcl_sat::sat::SAT;

fn clause_of(literals: &[isize]) -> Clause {
    let mut clause = Clause::new();
    clause.load_vec(literals.to_vec());
    clause
}

fn model_of(size: usize, literals: &[isize]) -> Model {
    let mut model = Model::new(Some(size));
    for literal in literals {
        model.add(*literal);
    }
    model
}

#[test]
fn new_clause_is_empty() {
    let clause = Clause::new();
    assert_eq!(clause.get_id(), 0);
    assert_eq!(clause.literals_len(), 0);
    assert!(!clause.is_satisfied());
    assert!(!clause.is_tautology());
    assert!(clause.is_unit_clause());
    assert!(!clause.learned_clause_is_used_somewhere);
}

#[test]
fn load_vec_orders_by_variable_and_drops_duplicates() {
    let clause = clause_of(&[3, -1, 2, -1, 1, 3]);
    assert_eq!(clause.iter_literals(), &vec![-1, 1, 2, 3]);
    assert!(clause.is_tautology());
    assert!(clause.is_satisfied());
    assert_eq!(clause.watched_positions(), (0, 1));
    assert_eq!(clause.get_watched_literals(), (-1, 1));
}

#[test]
fn a_literal_and_its_complement_keep_their_first_order() {
    assert_eq!(clause_of(&[2, -2, 1]).iter_literals(), &vec![1, 2, -2]);
    assert_eq!(clause_of(&[-2, 2, 2, -2, 1]).iter_literals(), &vec![1, -2, 2]);
}

#[test]
fn a_singleton_has_both_watches_on_its_literal() {
    let clause = clause_of(&[-7]);
    assert_eq!(clause.watched_positions(), (0, 0));
    assert!(clause.is_unit_clause());
    assert_eq!(clause.get_watched_literals(), (-7, -7));
    assert!(!clause.is_tautology());
}

#[test]
fn set_id_changes_only_the_identifier() {
    let mut clause = clause_of(&[1, 2]);
    clause.set_id(9);
    assert_eq!(clause.get_id(), 9);
    assert_eq!(clause.iter_literals(), &vec![1, 2]);
}

#[test]
fn load_string_reads_nonzero_integers() {
    let mut clause = Clause::new();
    assert_eq!(clause.load_string("1 -2 3 0".to_string()), Ok(()));
    assert_eq!(clause.iter_literals(), &vec![1, -2, 3]);
    assert_eq!(clause.load_string("  -5\t+4 x 0 7y 2 ".to_string()), Ok(()));
    assert_eq!(clause.iter_literals(), &vec![2, 4, -5]);
}

#[test]
fn load_string_drops_tokens_that_are_no_integers() {
    let mut clause = Clause::new();
    assert_eq!(clause.load_string("- 5".to_string()), Ok(()));
    assert_eq!(clause.iter_literals(), &vec![5]);
    assert_eq!(clause.load_string("1 99999999999999999999999999 2".to_string()), Ok(()));
    assert_eq!(clause.iter_literals(), &vec![1, 2]);
    assert_eq!(clause.load_string("-- ++ -".to_string()), Ok(()));
    assert_eq!(clause.literals_len(), 0);
}

#[test]
fn load_string_refuses_lines_that_are_no_clauses() {
    for line in ["", "   ", "\t\n", "0", "  0 ", "%", " % ", "c a comment", "p cnf 1 1", "x1 2", "é 1"] {
        let mut clause = clause_of(&[4, 5]);
        assert_eq!(clause.load_string(line.to_string()), Err(()), "line {:?}", line);
        assert_eq!(clause.iter_literals(), &vec![4, 5]);
    }
}

#[test]
fn load_string_accepts_lines_led_by_a_digit_or_a_sign() {
    for line in ["1", "-1 0", "00", "0 0", "% 1", "1 c"] {
        let mut clause = Clause::new();
        assert_eq!(clause.load_string(line.to_string()), Ok(()), "line {:?}", line);
    }
}

#[test]
fn add_and_remove_literal_keep_the_normal_form() {
    let mut clause = clause_of(&[1, 4]);
    clause.add_literal(-3);
    assert_eq!(clause.iter_literals(), &vec![1, -3, 4]);
    clause.add_literal(4);
    assert_eq!(clause.iter_literals(), &vec![1, -3, 4]);
    clause.add_literal(3);
    assert_eq!(clause.iter_literals(), &vec![1, -3, 3, 4]);
    assert!(clause.is_tautology());
    clause.remove_literal(-3);
    assert_eq!(clause.iter_literals(), &vec![1, 3, 4]);
    assert!(!clause.is_tautology());
    clause.remove_literal(9);
    assert_eq!(clause.iter_literals(), &vec![1, 3, 4]);
    assert_eq!(clause.literals_len(), 3);
    assert_eq!(clause.get_literal(1), 3);
    assert!(clause.contains_literal(4));
    assert!(!clause.contains_literal(-4));
}

#[test]
fn check_literals_is_the_identity_on_a_loaded_clause() {
    let mut clause = clause_of(&[5, -2, 2]);
    let before = clause.iter_literals().clone();
    clause.check_literals();
    assert_eq!(clause.iter_literals(), &before);
}

#[test]
fn unit_clause_evaluates_to_the_value_of_its_literal() {
    let mut clause = clause_of(&[2]);
    assert_eq!(clause.is_satisfied_by_model(&model_of(2, &[]), 0), SAT::Unknown);
    assert_eq!(clause.satisfied_level(), None);
    assert_eq!(clause.is_satisfied_by_model(&model_of(2, &[-2]), 0), SAT::Unsatisfiable);
    assert_eq!(clause.satisfied_level(), None);
    assert_eq!(clause.is_satisfied_by_model(&model_of(2, &[2]), 3), SAT::Satisfiable);
    assert_eq!(clause.satisfied_level(), Some(3));
    assert_eq!(clause.watched_positions(), (0, 0));
}

#[test]
fn two_unassigned_watches_give_unknown_and_stay() {
    let mut clause = clause_of(&[1, 2, 3]);
    assert_eq!(clause.is_satisfied_by_model(&model_of(3, &[-3]), 0), SAT::Unknown);
    assert_eq!(clause.watched_positions(), (0, 1));
}

#[test]
fn a_falsified_watch_moves_behind_the_larger_watch() {
    let mut clause = clause_of(&[1, 2, 3, 4]);
    assert_eq!(clause.is_satisfied_by_model(&model_of(4, &[-1]), 0), SAT::Unknown);
    assert_eq!(clause.watched_positions(), (1, 2));
    assert_eq!(clause.is_satisfied_by_model(&model_of(4, &[-1, -3]), 0), SAT::Unknown);
    assert_eq!(clause.watched_positions(), (1, 3));
}

#[test]
fn watches_meet_on_the_last_literal_left() {
    let mut clause = clause_of(&[1, 2, 3]);
    assert_eq!(clause.is_satisfied_by_model(&model_of(3, &[-1, -2]), 0), SAT::Unknown);
    assert!(clause.is_unit_clause());
    assert_eq!(clause.get_watched_literals(), (3, 3));
    let mut other = clause_of(&[1, 2, 3]);
    assert_eq!(other.is_satisfied_by_model(&model_of(3, &[-2, -3]), 0), SAT::Unknown);
    assert!(other.is_unit_clause());
    assert_eq!(other.get_watched_literals(), (1, 1));
}

#[test]
fn a_clause_with_no_literal_left_is_falsified() {
    let mut clause = clause_of(&[1, -2, 3]);
    assert_eq!(clause.is_satisfied_by_model(&model_of(3, &[-1, 2, -3]), 1), SAT::Unsatisfiable);
    assert!(clause.is_unit_clause());
    assert!(!clause.is_satisfied());
}

#[test]
fn a_satisfied_watch_marks_the_clause_at_the_level() {
    let mut clause = clause_of(&[1, 2, 3]);
    assert_eq!(clause.is_satisfied_by_model(&model_of(3, &[-1, -2, 3]), 2), SAT::Satisfiable);
    assert_eq!(clause.satisfied_level(), Some(2));
    assert!(clause.is_satisfied());
    assert_eq!(clause.is_satisfied_by_model(&model_of(3, &[-1, -2, -3]), 5), SAT::Satisfiable);
    assert_eq!(clause.satisfied_level(), Some(2));
}

#[test]
fn a_tautology_is_always_satisfied_and_never_marked_at_a_level() {
    let mut clause = clause_of(&[1, -1]);
    assert_eq!(clause.is_satisfied_by_model(&model_of(1, &[]), 0), SAT::Satisfiable);
    assert_eq!(clause.satisfied_level(), None);
}

#[test]
fn reset_satisfied_restarts_the_watches_and_clears_marks_at_or_above_the_level() {
    let mut clause = clause_of(&[1, 2, 3]);
    assert_eq!(clause.is_satisfied_by_model(&model_of(3, &[-1, 2]), 2), SAT::Satisfiable);
    assert_eq!(clause.watched_positions(), (1, 2));
    assert!(!clause.reset_satisfied(3));
    assert_eq!(clause.satisfied_level(), Some(2));
    assert!(clause.is_satisfied());
    assert_eq!(clause.watched_positions(), (0, 1));
    assert_eq!(clause.get_watched_literals(), (1, 2));
    assert!(clause.reset_satisfied(2));
    assert_eq!(clause.satisfied_level(), None);
    assert_eq!(clause.watched_positions(), (0, 1));
}

#[test]
fn reset_satisfied_restarts_the_watches_of_an_unmarked_clause() {
    let mut clause = clause_of(&[1, 2, 3]);
    assert_eq!(clause.is_satisfied_by_model(&model_of(3, &[-1, -2]), 1), SAT::Unknown);
    assert_eq!(clause.watched_positions(), (2, 2));
    assert!(!clause.reset_satisfied(0));
    assert_eq!(clause.watched_positions(), (0, 1));
    let mut single = clause_of(&[4]);
    assert!(!single.reset_satisfied(0));
    assert_eq!(single.watched_positions(), (0, 0));
}

#[test]
fn sum_is_the_normal_form_of_both_literal_lists() {
    let mut a = clause_of(&[1, -3]);
    a.set_id(4);
    a.mark_used();
    let b = clause_of(&[3, 2, 1]);
    let sum = a.sum(&b);
    assert_eq!(sum.iter_literals(), &vec![1, 2, -3, 3]);
    assert_eq!(sum.get_id(), 0);
    assert!(sum.is_tautology());
    assert!(!sum.learned_clause_is_used_somewhere);
    let plus = a + b;
    assert_eq!(plus.iter_literals(), &vec![1, 2, -3, 3]);
}

#[test]
fn clauses_are_equal_when_their_literals_are() {
    let mut a = clause_of(&[2, 1]);
    a.set_id(1);
    let mut b = clause_of(&[1, 2, 2]);
    b.set_id(2);
    assert!(a == b);
    assert!(a != clause_of(&[1, -2]));
    assert!(a != clause_of(&[1, 2, 3]));
    let copy = a.clone();
    assert_eq!(copy.get_id(), 1);
    assert!(copy == a);
}

#[test]
fn common_literals_come_in_the_order_of_the_first_clause() {
    let a = clause_of(&[1, -2, 3, 4]);
    let b = clause_of(&[4, 2, 1, -3]);
    assert_eq!(a.get_common_literals(&b), vec![1, 4]);
    assert_eq!(b.get_common_literals(&a), vec![1, 4]);
    assert_eq!(a.get_common_literals(&clause_of(&[7])), Vec::<isize>::new());
}

#[test]
fn assertion_clause_needs_every_variable_on_the_trail() {
    let mut ground = Decision::new(0);
    ground.add_propagated_literal(-1, 0);
    let mut first = Decision::new(2);
    first.add_propagated_literal(3, 1);
    let trail = vec![ground, first];
    assert!(clause_of(&[1, -2]).is_assertion_clause(&trail));
    assert!(clause_of(&[-3, 2, -1]).is_assertion_clause(&trail));
    assert!(!clause_of(&[1, 4]).is_assertion_clause(&trail));
    assert!(Clause::new().is_assertion_clause(&trail));
}

#[test]
fn a_kept_mark_still_restarts_the_watches() {
    let mut clause = clause_of(&[1, 2, 3]);
    let model = model_of(3, &[-1, 2]);
    assert_eq!(clause.is_satisfied_by_model(&model, 0), SAT::Satisfiable);
    assert_eq!(clause.get_watched_literals(), (2, 3));
    assert!(!clause.reset_satisfied(1));
    assert!(clause.is_satisfied());
    assert_eq!(clause.satisfied_level(), Some(0));
    assert_eq!(clause.get_watched_literals(), (1, 2));
}
