use cdcl_sat::clause::Clause;
use cdcl_sat::formula::Formula;
use cdcl_sat::proof_log::ProofEvent;
use cdcl_sat::sat::SAT;
use cdcl_sat::solver::Solver;

fn solver_with(text: &str) -> Solver {
    let mut solver = Solver::new();
    assert!(Formula::dimacs_headers_ok(text));
    solver.formula.load_dimacs(text.to_string());
    assert!(solver.is_solvable());
    solver
}

fn clause_of(literals: &[isize]) -> Clause {
    let mut clause = Clause::new();
    clause.load_vec(literals.to_vec());
    clause
}

#[test]
fn new_solver_has_no_formula_and_no_sink() {
    let solver = Solver::new();
    assert!(!solver.is_formula_loaded());
    assert!(!solver.is_dot_proof_enabled());
    assert!(!solver.is_txt_proof_enabled());
    assert!(!solver.is_tex_proof_enabled());
    assert_eq!(solver.get_decision_level(), 0);
    assert!(solver.get_learned_clauses().is_empty());
    assert!(solver.get_events().is_empty());
    assert!(!solver.has_overwritten());
}

#[test]
fn solve_without_a_formula_is_an_error() {
    let mut solver = Solver::new();
    assert_eq!(solver.solve(), Err(()));
    let mut only_header = solver_with("p cnf 3 0\n");
    assert_eq!(only_header.solve(), Err(()));
}

#[test]
fn the_formula_is_loaded_when_it_holds_a_clause() {
    let solver = solver_with("p cnf 1 1\n1 0\n");
    assert!(solver.is_formula_loaded());
    let mut no_header = Solver::new();
    no_header.formula.load_dimacs("1 0\n".to_string());
    assert!(no_header.is_formula_loaded());
    assert!(!no_header.is_solvable());
    no_header.formula.calculate_stats();
    assert!(no_header.is_solvable());
    assert_eq!(no_header.solve(), Ok(SAT::Satisfiable));
}

#[test]
fn a_formula_with_an_empty_clause_or_a_literal_out_of_range_is_not_solvable() {
    let mut empty_clause = Solver::new();
    empty_clause.formula.load_dimacs("p cnf 2 2\n1 2 0\n- 0\n".to_string());
    assert!(!empty_clause.is_solvable());
    let mut out_of_range = Solver::new();
    out_of_range.formula.load_dimacs("p cnf 2 1\n1 -3 0\n".to_string());
    assert!(!out_of_range.is_solvable());
}

#[test]
fn sink_switches_are_independent() {
    let mut solver = Solver::new();
    solver.set_dot_proof_enabled(true);
    assert!(solver.is_dot_proof_enabled());
    assert!(!solver.is_txt_proof_enabled());
    solver.set_tex_proof_enabled(true);
    solver.set_dot_proof_enabled(false);
    assert!(!solver.is_dot_proof_enabled());
    assert!(solver.is_tex_proof_enabled());
    solver.set_txt_proof_enabled(true);
    assert!(solver.is_txt_proof_enabled());
}

#[test]
fn a_learned_clause_is_added_once() {
    let mut solver = solver_with("p cnf 3 2\n1 2 0\n-1 3 0\n");
    assert_eq!(solver.add_learned_clause(clause_of(&[2, 3])), 2);
    assert_eq!(solver.add_learned_clause(clause_of(&[-2])), 3);
    assert_eq!(solver.add_learned_clause(clause_of(&[3, 2, 2])), 0);
    assert_eq!(solver.add_learned_clause(clause_of(&[2, 1])), 0);
    assert_eq!(solver.get_learned_clauses().len(), 2);
}

#[test]
fn reset_gives_back_a_fresh_solver_but_for_the_switches() {
    let mut solver = solver_with("p cnf 2 2\n1 2 0\n-1 0\n");
    solver.set_txt_proof_enabled(true);
    assert_eq!(solver.solve(), Ok(SAT::Satisfiable));
    solver.reset();
    assert!(!solver.is_formula_loaded());
    assert!(solver.is_txt_proof_enabled());
    assert_eq!(solver.get_model().len(), 0);
    assert!(solver.get_events().is_empty());
    assert!(solver.get_decisions().is_empty());
    assert_eq!(solver.get_stats().get_clauses_learned(), 0);
    assert_eq!(solver.solve(), Err(()));
}

#[test]
fn reset_then_load_solves_like_a_fresh_solver() {
    let text = "p cnf 3 4\n1 2 0\n-1 3 0\n-2 -3 0\n-1 -3 0\n";
    let mut fresh = solver_with(text);
    let mut reused = solver_with("p cnf 2 3\n1 0\n-1 2 0\n-2 0\n");
    assert_eq!(reused.solve(), Ok(SAT::Unsatisfiable));
    reused.reset();
    reused.formula.load_dimacs(text.to_string());
    let expected = fresh.solve();
    assert_eq!(reused.solve(), expected);
    assert_eq!(reused.get_model().to_literals(), fresh.get_model().to_literals());
    assert_eq!(
        reused.get_stats().get_clauses_learned(),
        fresh.get_stats().get_clauses_learned()
    );
}

#[test]
fn reset_solve_keeps_the_formula_and_solves_again() {
    let mut solver = solver_with("p cnf 3 3\n1 2 0\n-2 3 0\n-1 -3 0\n");
    let first = solver.solve();
    let model = solver.get_model().to_literals();
    solver.reset_solve();
    assert!(solver.is_formula_loaded());
    assert_eq!(solver.get_model().len(), 0);
    assert!(solver.get_learned_clauses().is_empty());
    for clause in solver.formula.get_clauses() {
        assert_eq!(clause.satisfied_level(), None);
    }
    assert_eq!(solver.solve(), first);
    assert_eq!(solver.get_model().to_literals(), model);
}

#[test]
fn unit_clauses_are_propagated_at_the_ground_level() {
    let mut solver = solver_with("p cnf 3 3\n1 0\n-1 2 0\n-2 -3 0\n");
    assert_eq!(solver.solve(), Ok(SAT::Satisfiable));
    assert_eq!(solver.get_model().to_literals(), vec![1, 2, -3]);
    assert_eq!(solver.get_decision_level(), 0);
    assert_eq!(solver.get_decisions().len(), 1);
    assert_eq!(solver.get_decisions()[0].get_decided_literal(), 0);
    assert_eq!(solver.get_decisions()[0].get_propagated_literals(), &vec![(1, 0), (2, 1), (-3, 2)]);
    assert!(solver.model_satisfies_formula());
}

#[test]
fn the_first_decision_takes_the_most_watched_variable() {
    let mut solver = solver_with("p cnf 3 3\n1 2 0\n-2 3 0\n-1 -3 0\n");
    assert_eq!(solver.solve(), Ok(SAT::Satisfiable));
    assert_eq!(solver.get_decisions()[1].get_decided_literal(), 1);
    assert_eq!(solver.get_model().to_literals(), vec![1, -2, -3]);
    assert!(solver.model_satisfies_formula());
    assert!(!solver.has_overwritten());
}

#[test]
fn every_clause_is_marked_when_the_answer_is_satisfiable() {
    let mut solver = solver_with("p cnf 4 4\n1 2 0\n-1 3 0\n-3 4 0\n2 -4 0\n");
    assert_eq!(solver.solve(), Ok(SAT::Satisfiable));
    let level = solver.get_decision_level();
    for clause in solver.formula.get_clauses() {
        assert!(clause.is_satisfied());
        assert!(clause.satisfied_level().unwrap() <= level);
    }
    assert!(solver.model_satisfies_formula());
}

#[test]
fn a_conflict_is_recorded_learned_and_backjumped() {
    let mut solver = solver_with("p cnf 2 4\n1 2 0\n-1 2 0\n1 -2 0\n-1 -2 0\n");
    solver.set_dot_proof_enabled(true);
    assert_eq!(solver.solve(), Ok(SAT::Unsatisfiable));
    assert_eq!(solver.get_stats().get_clauses_learned(), 2);
    let learned: Vec<Vec<isize>> =
        solver.get_learned_clauses().iter().map(|c| c.iter_literals().clone()).collect();
    assert_eq!(learned, vec![vec![-1], vec![1]]);
    assert_eq!(solver.get_learned_clauses()[0].get_id(), 5);
    assert_eq!(solver.get_learned_clauses()[1].get_id(), 6);
    let kinds: Vec<&str> = solver
        .get_events()
        .iter()
        .map(|record| match &record.event {
            ProofEvent::Propagate { .. } => "propagate",
            ProofEvent::Decide { .. } => "decide",
            ProofEvent::Conflict { .. } => "conflict",
            ProofEvent::Explain { .. } => "explain",
            ProofEvent::Fail { .. } => "fail",
            ProofEvent::Learn { .. } => "learn",
            ProofEvent::Forget { .. } => "forget",
            ProofEvent::Backjump => "backjump",
        })
        .collect();
    assert_eq!(
        kinds,
        vec![
            "decide", "propagate", "conflict", "explain", "learn", "backjump", "propagate",
            "propagate", "conflict", "explain", "learn", "backjump", "propagate", "conflict",
            "fail"
        ]
    );
}

#[test]
fn resolution_steps_resolve_what_they_list() {
    let mut solver = solver_with("p cnf 2 4\n1 2 0\n-1 2 0\n1 -2 0\n-1 -2 0\n");
    solver.set_txt_proof_enabled(true);
    assert_eq!(solver.solve(), Ok(SAT::Unsatisfiable));
    let mut steps = 0;
    for record in solver.get_events() {
        let step = match &record.event {
            ProofEvent::Explain { step } => step,
            ProofEvent::Fail { step } => step,
            _ => continue,
        };
        steps += 1;
        assert!(step.reason.contains(&step.pivot));
        assert!(step.conflict.contains(&-step.pivot));
        let mut expected = Clause::new();
        let mut all = step.reason.clone();
        all.extend(step.conflict.iter());
        expected.load_vec(all);
        expected.remove_literal(step.pivot);
        expected.remove_literal(-step.pivot);
        assert_eq!(&step.resolvent, expected.iter_literals());
    }
    assert_eq!(steps, 3);
    match solver.get_events().first().map(|record| &record.event) {
        Some(ProofEvent::Decide { literal }) => assert_eq!(*literal, 1),
        _ => panic!("the search did not start with a decision"),
    }
    match &solver.get_events()[3].event {
        ProofEvent::Explain { step } => {
            assert_eq!(step.reason_id, 2);
            assert_eq!(step.conflict_id, 4);
            assert!(step.reason_is_original && step.conflict_is_original);
            assert_eq!(step.pivot, 2);
            assert_eq!(step.resolvent_id, 5);
            assert_eq!(step.resolvent, vec![-1]);
        },
        _ => panic!("the fourth event is no derivation"),
    }
}

#[test]
fn nothing_is_recorded_without_a_sink() {
    let mut solver = solver_with("p cnf 1 2\n1 0\n-1 0\n");
    assert_eq!(solver.solve(), Ok(SAT::Unsatisfiable));
    assert!(solver.get_events().is_empty());
}

#[test]
fn duplicate_original_clauses_are_kept() {
    let mut solver = solver_with("p cnf 2 3\n1 2 0\n2 1 0\n-1 0\n");
    assert_eq!(solver.formula.clauses_len(), 3);
    assert_eq!(solver.solve(), Ok(SAT::Satisfiable));
    assert_eq!(solver.get_model().to_literals(), vec![-1, 2]);
}

fn exhaustive(variables: usize, clauses: &Vec<Vec<isize>>) -> bool {
    (0..(1u32 << variables)).any(|bits| {
        clauses.iter().all(|clause| {
            clause.iter().any(|&literal| {
                let value = (bits >> (literal.unsigned_abs() - 1)) & 1 == 1;
                (literal > 0) == value
            })
        })
    })
}

fn random_formulas(seed: u64, count: usize, max_variables: usize, max_clauses: usize) {
    let mut state = seed;
    let mut next = move || {
        state = state.wrapping_mul(6364136223846793005).wrapping_add(1442695040888963407);
        (state >> 33) as usize
    };
    for _ in 0..count {
        let variables = 1 + next() % max_variables;
        let mut clauses: Vec<Vec<isize>> = Vec::new();
        let mut text = format!("p cnf {} {}\n", variables, 1 + next() % max_clauses);
        for _ in 0..(1 + next() % max_clauses) {
            let mut clause: Vec<isize> = Vec::new();
            for _ in 0..(1 + next() % 3) {
                let variable = (1 + next() % variables) as isize;
                clause.push(if next() % 2 == 0 { variable } else { -variable });
            }
            for literal in &clause {
                text.push_str(&format!("{} ", literal));
            }
            text.push_str("0\n");
            clauses.push(clause);
        }
        let mut solver = Solver::new();
        solver.set_txt_proof_enabled(true);
        solver.formula.load_dimacs(text.clone());
        assert!(solver.is_solvable());
        let answer = solver.solve();
        assert!(!solver.has_overwritten(), "overwrote on\n{}", text);
        if exhaustive(variables, &clauses) {
            assert_eq!(answer, Ok(SAT::Satisfiable), "on\n{}", text);
            assert!(solver.model_satisfies_formula(), "on\n{}", text);
        } else {
            assert_eq!(answer, Ok(SAT::Unsatisfiable), "on\n{}", text);
            assert!(matches!(
                solver.get_events().last().map(|record| &record.event),
                Some(ProofEvent::Fail { .. })
            ));
        }
        let mut held: Vec<Vec<isize>> = Vec::new();
        for clause in solver.formula.get_clauses() {
            held.push(clause.iter_literals().clone());
        }
        for clause in solver.get_learned_clauses() {
            assert!(!held.contains(clause.iter_literals()), "repeated clause on\n{}", text);
            held.push(clause.iter_literals().clone());
        }
    }
}

#[test]
fn answers_agree_with_exhaustive_search_on_small_formulas() {
    random_formulas(20240229, 4000, 5, 12);
}

#[test]
fn answers_agree_with_exhaustive_search_on_larger_formulas() {
    random_formulas(977, 1500, 10, 45);
}

#[test]
fn forgetting_counts_what_it_drops() {
    let mut state: u64 = 31;
    let mut next = move || {
        state = state.wrapping_mul(6364136223846793005).wrapping_add(1442695040888963407);
        (state >> 33) as usize
    };
    let mut seen_forget = 0;
    let mut most_learned = 0;
    for round in 0..300 {
        let variables = 8 + round % 8;
        let clauses = 3 * variables + next() % (2 * variables);
        let mut text = format!("p cnf {} {}\n", variables, clauses);
        for _ in 0..clauses {
            for _ in 0..3 {
                let variable = (1 + next() % variables) as isize;
                text.push_str(&format!("{} ", if next() % 2 == 0 { variable } else { -variable }));
            }
            text.push_str("0\n");
        }
        let mut solver = Solver::new();
        solver.set_tex_proof_enabled(true);
        solver.formula.load_dimacs(text);
        assert!(solver.is_solvable());
        let _ = solver.solve();
        let mut dropped = 0;
        for record in solver.get_events() {
            if let ProofEvent::Forget { clause_ids } = &record.event {
                seen_forget += 1;
                dropped += clause_ids.len();
            }
        }
        most_learned = most_learned.max(solver.get_stats().get_clauses_learned());
        assert_eq!(solver.get_stats().get_clauses_forgotten(), dropped);
        assert!(
            solver.get_learned_clauses().len() + dropped
                <= solver.get_stats().get_clauses_learned()
        );
    }
    assert!(seen_forget > 0, "no forget seen; most learned {}", most_learned);
}

const SAMPLES: [&str; 5] = [
    "p cnf 3 3\n1 2 0\n-2 3 0\n-1 -3 0\n",
    "p cnf 4 6\n1 2 0\n-1 3 0\n-3 4 0\n2 -4 0\n-2 -3 0\n1 4 0\n",
    "p cnf 5 7\n1 -2 3 0\n-1 2 0\n-3 4 5 0\n-4 -5 0\n2 5 0\n-2 -5 1 0\n3 -1 0\n",
    "p cnf 3 4\n1 2 3 0\n-1 -2 0\n-2 -3 0\n-1 -3 0\n",
    "p cnf 2 4\n1 2 0\n-1 2 0\n1 -2 0\n-1 -2 0\n",
];

#[test]
fn watches_stay_ordered_and_inside_their_clause() {
    for text in SAMPLES {
        let mut solver = solver_with(text);
        let _ = solver.solve();
        let learned = solver.get_learned_clauses();
        for clause in solver.formula.get_clauses().iter().chain(learned.iter()) {
            let (first, second) = clause.watched_positions();
            assert!(first <= second && second < clause.literals_len());
            if !clause.is_unit_clause() {
                assert!(first < second);
                let (a, b) = clause.get_watched_literals();
                assert!(a != b);
            }
        }
    }
}

#[test]
fn the_trail_lists_the_assigned_literals_once_each() {
    for text in SAMPLES {
        let mut solver = solver_with(text);
        let answer = solver.solve();
        assert!(!solver.has_overwritten());
        let mut trail: Vec<isize> = Vec::new();
        for level in solver.get_decisions() {
            if level.get_decided_literal() != 0 {
                trail.push(level.get_decided_literal());
            }
            for (literal, _) in level.get_propagated_literals() {
                trail.push(*literal);
            }
        }
        assert_eq!(solver.get_decisions().len(), solver.get_decision_level() + 1);
        assert_eq!(solver.get_decisions()[0].get_decided_literal(), 0);
        if answer == Ok(SAT::Unsatisfiable) {
            assert!(trail.is_empty());
        }
        let mut variables: Vec<usize> = trail.iter().map(|l| l.unsigned_abs()).collect();
        variables.sort();
        variables.dedup();
        assert_eq!(variables.len(), trail.len());
        let mut sorted = trail.clone();
        sorted.sort_by_key(|l| l.unsigned_abs());
        assert_eq!(solver.get_model().to_literals(), sorted);
    }
}

#[test]
fn a_search_run_again_takes_the_same_path() {
    for text in SAMPLES {
        let mut solver = solver_with(text);
        solver.set_tex_proof_enabled(true);
        let first = solver.solve();
        let path = cdcl_sat::render::tex_proof(solver.get_events(), "");
        solver.reset_solve();
        assert_eq!(solver.solve(), first);
        assert_eq!(cdcl_sat::render::tex_proof(solver.get_events(), ""), path);
        let mut quiet = solver_with(text);
        assert_eq!(quiet.solve(), first);
        assert_eq!(quiet.get_model().to_literals(), solver.get_model().to_literals());
    }
}

#[test]
fn a_backjump_leaves_no_mark_above_the_level() {
    for text in SAMPLES {
        let mut solver = solver_with(text);
        let _ = solver.solve();
        let level = solver.get_decision_level();
        let learned = solver.get_learned_clauses();
        for clause in solver.formula.get_clauses().iter().chain(learned.iter()) {
            if let Some(mark) = clause.satisfied_level() {
                assert!(mark <= level);
            }
        }
    }
}

fn compact_log(solver: &Solver) -> String {
    let mut log: Vec<String> = Vec::new();
    for record in solver.get_events() {
        log.push(match &record.event {
            ProofEvent::Propagate { literal, reason } => format!("P{}@{}", literal, reason),
            ProofEvent::Decide { literal } => format!("D{}", literal),
            ProofEvent::Conflict { clause_id, .. } => format!("C#{}", clause_id),
            ProofEvent::Explain { step } => format!("E{:?}", step.resolvent),
            ProofEvent::Fail { .. } => "F".to_string(),
            ProofEvent::Learn { clause_id, .. } => format!("L#{}", clause_id),
            ProofEvent::Forget { clause_ids } => format!("G{:?}", clause_ids),
            ProofEvent::Backjump => format!("B{}", record.trail.len() - 1),
        });
    }
    log.join(" ")
}

#[test]
fn a_clause_learned_below_its_level_is_falsified_after_the_backjump_and_learned_again() {
    let mut text = String::from("p cnf 40 22\n1 4 5 0\n1 4 -5 0\n1 -4 6 0\n1 -4 -6 0\n");
    for variable in 10..15 {
        text.push_str(&format!("-1 {} 0\n", variable));
    }
    for variable in 20..26 {
        text.push_str(&format!("2 {} 0\n", variable));
    }
    for variable in 30..36 {
        text.push_str(&format!("3 {} 0\n", variable));
    }
    text.push_str("-4 9 0\n");
    let mut solver = solver_with(&text);
    solver.set_tex_proof_enabled(true);
    assert_eq!(solver.solve(), Ok(SAT::Satisfiable));
    assert_eq!(
        compact_log(&solver),
        "D-1 D2 D3 D-4 P5@0 C#2 E[1, 4] L#23 B3 P4@22 P6@2 C#4 E[1, -4] L#24 B2 P4@22 C#24 \
         E[1] L#25 B1 P4@22 C#24 E[1] L#26 B0 P1@24 P10@4 P11@5 P12@6 P13@7 P14@8 D-4 D-6 D-5 \
         D2 D3"
    );
    assert!(!solver.has_overwritten());
    assert!(solver.model_satisfies_formula());
    assert_eq!(solver.get_stats().get_clauses_learned(), 4);
    assert_eq!(solver.get_learned_clauses().len(), 3);
}

#[test]
fn forget_drops_long_clauses_of_the_lower_half_and_raises_the_limit() {
    let mut solver = solver_with("p cnf 10 4\n1 2 0\n-1 2 0\n1 -2 0\n-1 -2 0\n");
    solver.set_tex_proof_enabled(true);
    let mut id = 100;
    for literals in [vec![5, 6, 7], vec![6, 7, 8], vec![7, 8, 9, 10], vec![5, 9]] {
        let mut clause = clause_of(&literals);
        clause.set_id(id);
        id += 1;
        assert!(solver.add_learned_clause(clause) > 0);
    }
    assert!(solver.is_solvable());
    assert_eq!(solver.solve(), Ok(SAT::Unsatisfiable));
    let log = compact_log(&solver);
    assert_eq!(
        log,
        "D1 P2@1 C#4 E[-1] L#104 G[100, 101] B0 P-1@6 P2@0 C#3 E[1] L#105 B0 P-1@6 C#105 F"
    );
    assert_eq!(solver.get_stats().get_clauses_forgotten(), 2);
    assert_eq!(solver.get_max_learned_clauses(), 6);
    let kept: Vec<usize> = solver.get_learned_clauses().iter().map(|c| c.get_id()).collect();
    assert_eq!(kept, vec![102, 103, 104, 105]);
}

#[test]
fn the_limit_on_learned_clauses_starts_at_the_number_of_original_clauses() {
    let mut solver = solver_with("p cnf 2 3\n1 2 0\n-1 0\n2 -1 0\n");
    assert_eq!(solver.get_max_learned_clauses(), 0);
    assert_eq!(solver.solve(), Ok(SAT::Satisfiable));
    assert_eq!(solver.get_max_learned_clauses(), 3);
}

#[test]
fn a_solver_loads_its_formula_itself() {
    let mut solver = Solver::new();
    solver.load_dimacs("p cnf 2 2\n1 2 0\n-1 0\n".to_string());
    assert_eq!(solver.get_formula().clauses_len(), 2);
    assert_eq!(solver.add_clause_by_string("c no clause".to_string()), Err(()));
    assert_eq!(solver.add_clause_by_string("-2 3".to_string()), Ok(()));
    assert_eq!(solver.get_formula().clauses_len(), 3);
    assert!(!solver.is_solvable());
    solver.calculate_stats();
    assert_eq!(solver.get_formula().get_num_variables(), 3);
    assert_eq!(solver.get_formula().get_num_clauses(), 3);
    assert!(solver.is_solvable());
    assert_eq!(solver.solve(), Ok(SAT::Satisfiable));
    assert_eq!(solver.get_model().to_literals(), vec![-1, 2, 3]);
}

#[test]
fn a_solver_made_with_a_formula_solves_it() {
    let mut formula = Formula::new();
    formula.load_dimacs("p cnf 1 2\n1 0\n-1 0\n".to_string());
    let mut solver = Solver::with_formula(formula);
    assert!(solver.is_solvable());
    assert!(!solver.is_txt_proof_enabled());
    assert_eq!(solver.solve(), Ok(SAT::Unsatisfiable));
}

#[test]
fn derived_clauses_get_identifiers_that_no_stored_clause_bears() {
    let mut solver = solver_with("p cnf 10 4\n1 2 0\n-1 2 0\n1 -2 0\n-1 -2 0\n");
    solver.set_txt_proof_enabled(true);
    let mut stored = clause_of(&[5, 6]);
    stored.set_id(9);
    assert!(solver.add_learned_clause(stored) > 0);
    assert_eq!(solver.solve(), Ok(SAT::Unsatisfiable));
    let mut seen: Vec<usize> = vec![1, 2, 3, 4, 9];
    for record in solver.get_events() {
        let step = match &record.event {
            ProofEvent::Explain { step } => step,
            ProofEvent::Fail { step } => step,
            _ => continue,
        };
        assert!(!seen.contains(&step.resolvent_id));
        seen.push(step.resolvent_id);
    }
    assert_eq!(seen, vec![1, 2, 3, 4, 9, 10, 11, 12]);
}
