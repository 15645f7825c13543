use cdcl_sat::clause_tools::{clauses_are_satisfied, get_next_unit_clause_literal};
use cdcl_sat::formula::Formula;
use cdcl_sat::model::Model;
use cdcl_sat::sat::SAT;

fn literals(formula: &Formula) -> Vec<Vec<isize>> {
    formula.get_clauses().iter().map(|c| c.iter_literals().clone()).collect()
}

fn model_of(size: usize, assigned: &[isize]) -> Model {
    let mut model = Model::new(Some(size));
    for literal in assigned {
        model.add(*literal);
    }
    model
}

#[test]
fn new_formula_is_empty() {
    let formula = Formula::new();
    assert_eq!(formula.clauses_len(), 0);
    assert_eq!(formula.get_num_variables(), 0);
    assert_eq!(formula.get_num_clauses(), 0);
}

#[test]
fn load_dimacs_reads_header_and_clauses() {
    let mut formula = Formula::new();
    formula.load_dimacs("c example\np cnf 3 2\n1 -3 0\n2 3 -1 0\n".to_string());
    assert_eq!(formula.get_num_variables(), 3);
    assert_eq!(formula.get_num_clauses(), 2);
    assert_eq!(literals(&formula), vec![vec![1, -3], vec![-1, 2, 3]]);
    assert_eq!(formula.get_clause(0).get_id(), 1);
    assert_eq!(formula.get_clause(1).get_id(), 2);
}

#[test]
fn load_dimacs_skips_what_is_no_clause() {
    let mut formula = Formula::new();
    formula.load_dimacs("p cnf 2 2\n\n%\n0\n  \nxyz\n1 2 0\r\n% 3\n-2 0".to_string());
    assert_eq!(literals(&formula), vec![vec![1, 2], vec![3], vec![-2]]);
    assert_eq!(formula.get_clause(2).get_id(), 3);
}

#[test]
fn a_later_header_replaces_the_counts() {
    let mut formula = Formula::new();
    formula.load_dimacs("p cnf 2 1\n1 0\np cnf 7 9 extra\n".to_string());
    assert_eq!(formula.get_num_variables(), 7);
    assert_eq!(formula.get_num_clauses(), 9);
    assert_eq!(formula.clauses_len(), 1);
}

#[test]
fn headers_are_checked_before_loading() {
    assert!(Formula::dimacs_headers_ok("c x\np cnf 3 2\n1 0\n"));
    assert!(Formula::dimacs_headers_ok("1 2 0\n"));
    assert!(Formula::dimacs_headers_ok("p x +3 2"));
    assert!(!Formula::dimacs_headers_ok("p cnf 3\n"));
    assert!(!Formula::dimacs_headers_ok("p cnf x 2\n"));
    assert!(!Formula::dimacs_headers_ok("p cnf 3 -2\n"));
    assert!(!Formula::dimacs_headers_ok("1 0\np\n"));
    assert!(!Formula::dimacs_headers_ok("p cnf 99999999999999999999999 1\n"));
}

#[test]
fn add_clause_by_string_issues_the_next_identifier() {
    let mut formula = Formula::new();
    assert_eq!(formula.add_clause_by_string("2 1".to_string()), Ok(()));
    assert_eq!(formula.add_clause_by_string("oops".to_string()), Err(()));
    assert_eq!(formula.add_clause_by_string("0".to_string()), Err(()));
    assert_eq!(formula.add_clause_by_string("-3 0".to_string()), Ok(()));
    assert_eq!(literals(&formula), vec![vec![1, 2], vec![-3]]);
    assert_eq!(formula.get_clause(1).get_id(), 2);
    assert_eq!(formula.get_num_clauses(), 0);
}

#[test]
fn calculate_stats_counts_distinct_variables_and_clauses() {
    let mut formula = Formula::new();
    formula.load_dimacs("1 -5 0\n5 -1 9 0\n-9 0\n".to_string());
    formula.calculate_stats();
    assert_eq!(formula.get_num_variables(), 3);
    assert_eq!(formula.get_num_clauses(), 3);
}

#[test]
fn get_mut_clause_reaches_the_clause_in_place() {
    let mut formula = Formula::new();
    formula.load_dimacs("1 2 0\n3 0\n".to_string());
    formula.get_mut_clause(1).set_id(40);
    assert_eq!(formula.get_clause(1).get_id(), 40);
    formula.get_mut_clauses()[0].add_literal(-4);
    assert_eq!(literals(&formula), vec![vec![1, 2, -4], vec![3]]);
}

#[test]
fn watched_literals_of_unmarked_clauses_are_collected() {
    let mut formula = Formula::new();
    formula.load_dimacs("p cnf 4 4\n1 2 3 0\n-4 0\n2 -2 0\n3 4 0\n".to_string());
    assert_eq!(formula.get_all_watched_literals(), vec![1, 2, -4, 3, 4]);
    let model = model_of(4, &[3]);
    assert_eq!(formula.is_satisfied(&model, 0), (SAT::Unknown, 0));
    assert_eq!(formula.get_all_watched_literals(), vec![1, 2, -4]);
}

#[test]
fn is_satisfied_stops_at_the_first_falsified_clause() {
    let mut formula = Formula::new();
    formula.load_dimacs("p cnf 3 4\n1 0\n-2 0\n2 3 0\n-3 0\n".to_string());
    let model = model_of(3, &[1, 2, 3]);
    assert_eq!(formula.is_satisfied(&model, 1), (SAT::Unsatisfiable, 1));
    assert_eq!(formula.get_clause(0).satisfied_level(), Some(1));
    assert_eq!(formula.get_clause(2).satisfied_level(), None);
    assert_eq!(formula.get_clause(3).satisfied_level(), None);
    let all = model_of(3, &[1, -2, 3]);
    assert_eq!(formula.is_satisfied(&all, 2), (SAT::Unsatisfiable, 3));
    assert_eq!(formula.get_clause(2).satisfied_level(), Some(2));
    let good = model_of(3, &[1, -2, -3]);
    formula.reset_all(0);
    assert_eq!(formula.is_satisfied(&good, 0), (SAT::Unsatisfiable, 2));
}

#[test]
fn is_satisfied_reports_satisfied_only_when_every_clause_is() {
    let mut formula = Formula::new();
    formula.load_dimacs("p cnf 2 2\n1 2 0\n-1 -2 0\n".to_string());
    assert_eq!(formula.is_satisfied(&model_of(2, &[1]), 0), (SAT::Unknown, 0));
    assert_eq!(formula.is_satisfied(&model_of(2, &[1, -2]), 0), (SAT::Satisfiable, 0));
}

#[test]
fn next_unit_clause_is_the_first_that_propagates() {
    let mut formula = Formula::new();
    formula.load_dimacs("p cnf 3 3\n1 2 0\n-2 0\n3 0\n".to_string());
    let empty = model_of(3, &[]);
    assert_eq!(formula.get_next_unit_clause_literal(&empty), Some((-2, 1)));
    let model = model_of(3, &[-2]);
    assert_eq!(formula.is_satisfied(&model, 0), (SAT::Unknown, 0));
    assert_eq!(formula.get_next_unit_clause_literal(&model), Some((1, 0)));
    let more = model_of(3, &[-2, 1]);
    assert_eq!(formula.is_satisfied(&more, 0), (SAT::Unknown, 0));
    assert_eq!(formula.get_next_unit_clause_literal(&more), Some((3, 2)));
    let all = model_of(3, &[-2, 1, 3]);
    assert_eq!(formula.is_satisfied(&all, 0), (SAT::Satisfiable, 0));
    assert_eq!(formula.get_next_unit_clause_literal(&all), None);
}

#[test]
fn a_falsified_unit_clause_still_offers_its_literal() {
    let mut formula = Formula::new();
    formula.load_dimacs("p cnf 1 1\n1 0\n".to_string());
    let model = model_of(1, &[-1]);
    assert_eq!(formula.get_next_unit_clause_literal(&model), Some((1, 0)));
}

#[test]
fn reset_all_resets_every_clause() {
    let mut formula = Formula::new();
    formula.load_dimacs("p cnf 3 2\n1 2 3 0\n-1 2 0\n".to_string());
    assert_eq!(formula.is_satisfied(&model_of(3, &[-1]), 1), (SAT::Unknown, 0));
    assert_eq!(formula.get_clause(0).watched_positions(), (1, 2));
    assert_eq!(formula.get_clause(1).satisfied_level(), Some(1));
    formula.reset_all(2);
    assert_eq!(formula.get_clause(0).watched_positions(), (0, 1));
    assert_eq!(formula.get_clause(1).satisfied_level(), Some(1));
    formula.reset_all(1);
    assert_eq!(formula.get_clause(1).satisfied_level(), None);
}

#[test]
fn clause_tools_shift_the_index_of_the_falsified_clause() {
    let mut formula = Formula::new();
    formula.load_dimacs("p cnf 2 3\n1 0\n2 0\n-2 0\n".to_string());
    let model = model_of(2, &[1, 2]);
    let clauses = formula.get_mut_clauses();
    assert_eq!(get_next_unit_clause_literal(clauses, &model), Some((-2, 2)));
    assert_eq!(clauses_are_satisfied(clauses, &model, 0, Some(10)), (SAT::Unsatisfiable, 12));
    assert_eq!(get_next_unit_clause_literal(clauses, &model), Some((-2, 2)));
    let other = model_of(2, &[1, -2]);
    formula.reset_all(0);
    assert_eq!(
        clauses_are_satisfied(formula.get_mut_clauses(), &other, 0, None),
        (SAT::Unsatisfiable, 1)
    );
}

fn tokens(words: &[&str]) -> Vec<Vec<char>> {
    words.iter().map(|word| word.chars().collect()).collect()
}

#[test]
fn a_line_is_rejected_by_its_tokens_and_its_leading_letter() {
    assert!(cdcl_sat::text::rejects(&tokens(&[]), false));
    assert!(cdcl_sat::text::rejects(&tokens(&["0"]), false));
    assert!(cdcl_sat::text::rejects(&tokens(&["%"]), false));
    assert!(cdcl_sat::text::rejects(&tokens(&["x1", "2"]), true));
    assert!(!cdcl_sat::text::rejects(&tokens(&["1", "0"]), false));
    assert!(!cdcl_sat::text::rejects(&tokens(&["0", "0"]), false));
    assert!(!cdcl_sat::text::rejects(&tokens(&["00"]), false));
    assert!(!cdcl_sat::text::rejects(&tokens(&["%", "1"]), false));
    assert!(cdcl_sat::text::is_rejected(&tokens(&["p", "cnf"])));
    assert!(!cdcl_sat::text::is_rejected(&tokens(&["1", "0"])));
}

#[test]
fn loaded_clauses_bear_the_identifiers_one_to_their_number() {
    let mut formula = Formula::new();
    formula.load_dimacs("p cnf 3 3\n1 2 0\nc between\n-3 0\n2 3 0\n".to_string());
    let ids: Vec<usize> = formula.get_clauses().iter().map(|c| c.get_id()).collect();
    assert_eq!(ids, vec![1, 2, 3]);
}
