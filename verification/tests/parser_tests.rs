use std::collections::HashMap;

use cdcl_sat::cnf::{
    clear_parenthesis, cnf_converter, distributivity_solver, if_solver, iff_solver, not_solver,
};
use cdcl_sat::formula_node::{FormulaNode, NodeFunction, NodeRewrite, NodeSearch};
use cdcl_sat::parser::{
    check_syntax, cleaner, is_well_bracketed, merge_literals, parse, parse_syntax,
    parse_variables, ParseError,
};
use cdcl_sat::sat_results::SatResultz;
use cdcl_sat::tools::subtract_from_all_keys;

fn words(tokens: &[&str]) -> Vec<String> {
    tokens.iter().map(|token| token.to_string()).collect()
}

fn tree(tokens: &[&str]) -> FormulaNode {
    let tokens = words(tokens);
    let (pairs, _) = check_syntax(&tokens).unwrap();
    assert!(is_well_bracketed(&tokens, &pairs));
    FormulaNode::new(tokens, pairs, false)
}

#[test]
fn cleaner_trims_tokens_and_drops_empty_ones() {
    assert_eq!(cleaner(words(&[" a ", "", "  ", "\tb\n", "∧"])), Ok(words(&["a", "b", "∧"])));
    assert_eq!(cleaner(words(&["", "   "])), Err(ParseError::EmptyFormula));
    assert_eq!(cleaner(Vec::new()), Err(ParseError::EmptyFormula));
}

#[test]
fn merge_literals_joins_variable_tokens_but_never_into_the_first_token() {
    assert_eq!(merge_literals(words(&["a", "b", "∧", "c", "d", "e"])), words(&["a", "b", "∧", "cde"]));
    assert_eq!(merge_literals(words(&["(", "x", "1", ")", "∨", "y"])), words(&["(", "x1", ")", "∨", "y"]));
    assert_eq!(merge_literals(words(&["-", "p", "q"])), words(&["-", "pq"]));
    assert_eq!(merge_literals(Vec::new()), Vec::<String>::new());
}

#[test]
fn check_syntax_pairs_brackets_and_orders_the_variables() {
    let (pairs, variables) =
        check_syntax(&words(&["(", "b", "∧", "-", "(", "a", "∨", "b", ")", ")", "→", "c"])).unwrap();
    let mut expected = HashMap::new();
    expected.insert(0, 9);
    expected.insert(4, 8);
    assert_eq!(pairs, expected);
    assert_eq!(variables, words(&["a", "b", "c"]));
    let (_, variables) = check_syntax(&words(&["zb", "∨", "Z", "∨", "z", "∨", "zb"])).unwrap();
    assert_eq!(variables, words(&["Z", "z", "zb"]));
    assert!(check_syntax(&words(&["a", "←", "→", "b"])).is_ok());
}

#[test]
fn check_syntax_refuses_tokens_out_of_place() {
    for tokens in [
        vec![")", "a"],
        vec!["(", ")"],
        vec!["a", "b"],
        vec!["a", "("],
        vec!["∧", "a"],
        vec!["a", "∧", "∨", "b"],
        vec!["a", "-", "b"],
        vec!["→", "a"],
        vec!["a", "→", "→", "b"],
        vec!["a", "←", "←", "b"],
        vec!["a", "←", "∧", "b"],
        vec!["(", "a", "∧", ")"],
    ] {
        assert_eq!(check_syntax(&words(&tokens)).err(), Some(ParseError::SyntaxError), "{:?}", tokens);
    }
    assert_eq!(check_syntax(&words(&["(", "a"])).err(), Some(ParseError::ParenthesisError));
    assert_eq!(check_syntax(&words(&["a", ")"])).err(), Some(ParseError::ParenthesisError));
    assert_eq!(check_syntax(&words(&["-"])).err(), Some(ParseError::EmptyFormula));
    assert_eq!(check_syntax(&Vec::new()).err(), Some(ParseError::EmptyFormula));
}

#[test]
fn parse_variables_numbers_the_variables_by_their_place_among_the_names() {
    assert_eq!(
        parse_variables(words(&["(", "b", "∧", "a", ")", "→", "-", "b"]), words(&["a", "b"])),
        Ok((words(&["(", "2", "∧", "1", ")", "→", "-", "2"]), words(&["a", "b"])))
    );
    assert_eq!(
        parse_variables(words(&["a", "∨", "c"]), words(&["a", "b"])),
        Err(ParseError::LiteralNotFound)
    );
}

#[test]
fn a_tree_is_built_from_tokens_and_written_back() {
    let node = tree(&["-", "(", "1", "∨", "2", ")", "∧", "3"]);
    assert_eq!(node.children_len(), 3);
    assert_eq!(node.to_text(), "(-(1∨2)∧3)");
    let first = node.get_child(0).unwrap();
    assert!(first.is_negated());
    assert!(!first.is_literal());
    assert!(!first.is_operator());
    assert_eq!(first.children_len(), 3);
    let second = node.get_child(1).unwrap();
    assert!(second.is_operator());
    assert_eq!(second.get_operator(), "∧");
    let third = node.get_child(2).unwrap();
    assert!(third.is_literal());
    assert_eq!(third.get_literal(), 3);
    assert!(node.get_child(3).is_err());
    assert_eq!(tree(&["7"]).to_text(), "7");
    assert_eq!(tree(&["-", "7"]).to_text(), "(-7)");
    assert_eq!(tree(&["(", "(", "4", ")", ")"]).to_text(), "((4))");
}

#[test]
fn nodes_are_made_and_changed_part_by_part() {
    let mut node = FormulaNode::new_by_children(
        vec![FormulaNode::new_by_literal(1, false), FormulaNode::new_by_operator("∧".to_string())],
        false,
    );
    node.append_child(FormulaNode::new_by_literal(2, true));
    assert_eq!(node.to_text(), "(1∧-2)");
    assert_eq!(node.get_children(Some(1), None).len(), 2);
    assert_eq!(node.get_children(None, Some(1))[0].to_text(), "1");
    assert_eq!(node.get_children(Some(1), Some(1))[0].to_text(), "∧");
    node.set_child(FormulaNode::new_by_literal(5, false), 0);
    node.set_child(FormulaNode::new_by_literal(6, false), 9);
    assert_eq!(node.to_text(), "(5∧-2)");
    node.remove_child(9);
    node.remove_child(0);
    assert_eq!(node.to_text(), "(∧-2)");
    node.set_negated(true);
    assert_eq!(node.to_text(), "-(∧-2)");
    node.set_children(Vec::new());
    assert_eq!(node.children_len(), 0);
    let mut leaf = FormulaNode::new_by_operator("∧".to_string());
    leaf.toggle_negated();
    assert_eq!(leaf.get_operator(), "∨");
    leaf.toggle_negated();
    assert_eq!(leaf.get_operator(), "∧");
    leaf.set_operator("→".to_string());
    leaf.toggle_negated();
    assert_eq!(leaf.get_operator(), "→");
    assert!(!leaf.is_negated());
    let mut variable = FormulaNode::new_by_literal(3, false);
    variable.toggle_negated();
    assert!(variable.is_negated());
    assert_eq!(variable.clone().to_text(), "-3");
    assert_eq!(variable.tree_height(), 1);
}

#[test]
fn negations_are_handed_down() {
    let mut node = tree(&["-", "(", "1", "∨", "-", "2", ")", "∧", "3"]);
    not_solver(&mut node);
    assert_eq!(node.to_text(), "((-1∧2)∧3)");
    let mut shallow = tree(&["1", "∧", "2"]);
    shallow.iter_child(NodeFunction::Toggle, false);
    assert_eq!(shallow.to_text(), "(-1∨-2)");
}

#[test]
fn implications_and_equivalences_are_rewritten() {
    let mut implication = tree(&["1", "→", "2"]);
    if_solver(&mut implication);
    assert_eq!(implication.to_text(), "((-(1)∨(2)))");
    let mut equivalence = parse_syntax(words(&["1", "←", "→", "2"]), HashMap::new()).unwrap();
    assert_eq!(equivalence.to_text(), "(1↔2)");
    iff_solver(&mut equivalence);
    assert_eq!(equivalence.to_text(), "(((1)∨-(2))∧(-(1)∨(2)))");
    let mut inner = tree(&["3", "∧", "(", "1", "→", "2", ")"]);
    inner.find_node_with_child(NodeSearch::IsIf, NodeRewrite::If, false);
    assert_eq!(inner.to_text(), "(3∧(1→2))");
    inner.find_node_with_child(NodeSearch::IsIf, NodeRewrite::If, true);
    assert_eq!(inner.to_text(), "(3∧((-(1)∨(2))))");
}

#[test]
fn idle_brackets_are_removed() {
    let mut node = tree(&["(", "(", "1", "∧", "2", ")", ")"]);
    assert_eq!(node.to_text(), "(((1∧2)))");
    clear_parenthesis(&mut node);
    assert_eq!(node.to_text(), "(1∧2)");
    let mut single = tree(&["(", "1", ")", "∧", "2"]);
    assert_eq!(single.to_text(), "(1∧2)");
    clear_parenthesis(&mut single);
    assert_eq!(single.to_text(), "(1∧2)");
    let mut kept = FormulaNode::new_by_children(
        vec![
            FormulaNode::new_by_children(vec![FormulaNode::new_by_literal(1, false)], false),
            FormulaNode::new_by_operator("∧".to_string()),
            FormulaNode::new_by_literal(2, false),
        ],
        false,
    );
    clear_parenthesis(&mut kept);
    assert_eq!(kept.to_text(), "((1)∧2)");
}

#[test]
fn a_formula_is_parsed_from_its_tokens() {
    let (formula, names) = parse(words(&[" b", "→", "a "])).unwrap();
    assert_eq!(names, words(&["a", "b"]));
    assert_eq!(formula.to_text(), "((-2)∨(1))");
    let mut again = tree(&["2", "→", "1"]);
    cnf_converter(&mut again);
    assert_eq!(again.to_text(), formula.to_text());
    assert_eq!(parse(words(&[" ", ""])).err(), Some(ParseError::EmptyFormula));
    assert_eq!(parse(words(&["(", "a"])).err(), Some(ParseError::ParenthesisError));
    assert_eq!(parse(words(&["a", "∧"])).map(|r| r.0.to_text()), Ok("(1∧)".to_string()));
    assert_eq!(parse(words(&["∧", "a"])).err(), Some(ParseError::SyntaxError));
}

#[test]
fn answers_with_a_model_have_their_names() {
    assert_eq!(SatResultz::Satisfiable(vec![1, -2]).name(), "SAT");
    assert_eq!(SatResultz::Unsatisfiable.name(), "UNSAT");
    assert_eq!(SatResultz::Unknown.name(), "Unknown");
}

#[test]
fn a_differing_connective_is_distributed_over_what_stands_before_it() {
    let mut node = tree(&["1", "∧", "2", "∨", "3"]);
    let distributed = distributivity_solver(&mut node);
    assert_eq!(distributed.to_text(), "((1∨3)∧(2∨3))");
    assert_eq!(node.to_text(), "(1∧2∨3)");
    let mut twice = tree(&["1", "∧", "2", "∨", "3", "∧", "4", "∨", "5"]);
    assert_eq!(distributivity_solver(&mut twice).to_text(), "(((1∨3)∨5)∧((2∨3)∨5)∧(4∨5))");
    let mut uniform = tree(&["1", "∧", "2", "∧", "3"]);
    assert_eq!(distributivity_solver(&mut uniform).to_text(), "(1∧2∧3)");
    let mut leaf = tree(&["1"]);
    assert_eq!(distributivity_solver(&mut leaf).to_text(), "1");
    let mut adjacent = FormulaNode::new_by_children(
        vec![
            FormulaNode::new_by_literal(1, false),
            FormulaNode::new_by_operator("∧".to_string()),
            FormulaNode::new_by_operator("∨".to_string()),
            FormulaNode::new_by_literal(2, true),
        ],
        true,
    );
    assert_eq!(distributivity_solver(&mut adjacent).to_text(), "-((1∨-2)∧)");
}

#[test]
fn a_part_is_changed_in_place() {
    let mut node = tree(&["1", "∧", "2"]);
    node.get_mut_child(2).unwrap().set_negated(true);
    node.get_mut_child(1).unwrap().toggle_negated();
    assert_eq!(node.to_text(), "(1∨-2)");
    assert!(node.get_mut_child(3).is_err());
    assert!(FormulaNode::new_by_literal(1, false).get_mut_child(0).is_err());
}

#[test]
fn every_value_of_a_map_is_lowered_by_one_less_than_the_number() {
    let mut map = HashMap::new();
    map.insert(0, 4);
    map.insert(2, 3);
    map.insert(7, 2);
    let mut expected = HashMap::new();
    expected.insert(0, 2);
    expected.insert(2, 1);
    expected.insert(7, 0);
    assert_eq!(subtract_from_all_keys(map.clone(), 3), expected);
    assert_eq!(subtract_from_all_keys(map.clone(), 1), map);
    assert_eq!(subtract_from_all_keys(HashMap::new(), 5), HashMap::new());
}

#[test]
fn a_deep_visit_reaches_the_innermost_brackets() {
    let mut node = tree(&[
        "-", "(", "1", "∧", "-", "(", "2", "∨", "-", "(", "3", "∧", "4", ")", ")", ")", "∨", "5",
    ]);
    assert_eq!(node.tree_height(), 5);
    assert_eq!(node.to_text(), "(-(1∧-(2∨-(3∧4)))∨5)");
    not_solver(&mut node);
    assert_eq!(node.to_text(), "((-1∨(2∨(-3∨-4)))∨5)");
    let mut inner = tree(&["1", "∧", "(", "2", "∧", "(", "3", "→", "4", ")", ")"]);
    if_solver(&mut inner);
    assert_eq!(inner.to_text(), "(1∧(2∧((-(3)∨(4)))))");
}
