use cdcl_sat::model::Model;
use cdcl_sat::vsids::{bump, pick, pick_by_majority, EPSILON, ONE};

#[test]
fn bump_credits_each_literal_on_the_side_of_its_sign() {
    let mut scores = vec![(0, 0), (0, 0), (0, 0)];
    bump(&mut scores, &vec![1, -3]);
    assert_eq!(scores, vec![(ONE, 0), (0, 0), (0, ONE)]);
}

#[test]
fn bump_halves_before_it_credits() {
    let mut scores = vec![(ONE, 0), (0, ONE)];
    bump(&mut scores, &vec![1]);
    assert_eq!(scores, vec![(ONE / 2 + ONE, 0), (0, ONE / 2)]);
    bump(&mut scores, &vec![-1, 2]);
    assert_eq!(scores, vec![(ONE / 4 + ONE / 2, ONE), (ONE, ONE / 4)]);
}

#[test]
fn scores_below_epsilon_are_cleared() {
    let mut scores = vec![(ONE, 0), (0, 0)];
    for _ in 0..23 {
        bump(&mut scores, &vec![2]);
    }
    assert_eq!(scores[0], (EPSILON, 0));
    bump(&mut scores, &vec![2]);
    assert_eq!(scores[0], (0, 0));
    let mut pair = vec![(EPSILON, EPSILON)];
    bump(&mut pair, &vec![]);
    assert_eq!(pair, vec![(EPSILON / 2, EPSILON / 2)]);
    bump(&mut pair, &vec![]);
    assert_eq!(pair, vec![(0, 0)]);
}

#[test]
fn scores_never_exceed_two() {
    let mut scores = vec![(0, 0)];
    for _ in 0..100 {
        bump(&mut scores, &vec![1]);
        assert!(scores[0].0 <= 2 * ONE);
    }
    assert_eq!(scores[0].0, 2 * ONE - 1);
}

#[test]
fn pick_takes_the_most_active_unassigned_variable() {
    let scores = vec![(ONE, 0), (ONE, ONE), (0, 3), (0, 0)];
    let mut model = Model::new(Some(4));
    assert_eq!(pick(&scores, &model), 2);
    model.add(-2);
    assert_eq!(pick(&scores, &model), 1);
    model.add(1);
    assert_eq!(pick(&scores, &model), -3);
    model.add(3);
    assert_eq!(pick(&scores, &model), 0);
}

#[test]
fn pick_breaks_ties_by_the_smaller_variable_and_signs_by_the_larger_score() {
    let scores = vec![(0, 0), (1, 2), (2, 1), (3, 0)];
    let model = Model::new(Some(4));
    assert_eq!(pick(&scores, &model), -2);
    let even = vec![(5, 5)];
    assert_eq!(pick(&even, &Model::new(Some(1))), 1);
}

#[test]
fn majority_picks_the_variable_with_most_occurrences() {
    assert_eq!(pick_by_majority(&vec![]), 0);
    assert_eq!(pick_by_majority(&vec![3]), 3);
    assert_eq!(pick_by_majority(&vec![-3]), -3);
    assert_eq!(pick_by_majority(&vec![1, 2, -2, 3]), 2);
    assert_eq!(pick_by_majority(&vec![1, -2, -2, 2, 3]), -2);
    assert_eq!(pick_by_majority(&vec![5, 4, -5, -4]), 4);
    assert_eq!(pick_by_majority(&vec![1, 2, 1, 2, -1, -2, -1, -2]), 1);
    assert_eq!(pick_by_majority(&vec![1, -1, -1]), -1);
    assert_eq!(pick_by_majority(&vec![-1, 1, 1, -1, -1]), -1);
}
