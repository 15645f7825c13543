use cdcl_sat::sat::SAT;
use cdcl_sat::solver::Solver;

fn solver_for(text: &str) -> Solver {
    let mut solver = Solver::new();
    assert!(cdcl_sat::formula::Formula::dimacs_headers_ok(text));
    solver.formula.load_dimacs(text.to_string());
    assert!(solver.is_solvable());
    solver
}

fn satisfies(model: &[isize], clauses: &[&[isize]]) -> bool {
    clauses.iter().all(|clause| clause.iter().any(|literal| model.contains(literal)))
}

#[test]
fn single_unit_clause_is_satisfiable() {
    let mut solver = solver_for("p cnf 1 1\n1 0\n");
    assert_eq!(solver.solve(), Ok(SAT::Satisfiable));
    assert_eq!(solver.get_model().to_literals(), vec![1]);
}

#[test]
fn direct_contradiction_is_unsatisfiable() {
    let mut solver = solver_for("p cnf 1 2\n1 0\n-1 0\n");
    assert_eq!(solver.solve(), Ok(SAT::Unsatisfiable));
}

#[test]
fn classical_two_sat_is_unsatisfiable() {
    let mut solver = solver_for("p cnf 2 4\n1 2 0\n-1 2 0\n1 -2 0\n-1 -2 0\n");
    assert_eq!(solver.solve(), Ok(SAT::Unsatisfiable));
}

#[test]
fn satisfiable_with_choice_returns_a_model() {
    let mut solver = solver_for("p cnf 3 3\n1 2 0\n-2 3 0\n-1 -3 0\n");
    assert_eq!(solver.solve(), Ok(SAT::Satisfiable));
    let model = solver.get_model().to_literals();
    assert!(satisfies(&model, &[&[1, 2], &[-2, 3], &[-1, -3]]));
}

#[test]
fn tautology_only_clause_is_satisfiable() {
    let mut solver = solver_for("p cnf 1 1\n1 -1 0\n");
    assert_eq!(solver.solve(), Ok(SAT::Satisfiable));
}

#[test]
fn pigeonhole_two_into_one_is_refuted_by_unit_resolutions() {
    let mut solver = solver_for("p cnf 2 3\n1 2 0\n-1 -2 0\n-1 0\n-2 0\n");
    solver.set_txt_proof_enabled(true);
    assert_eq!(solver.solve(), Ok(SAT::Unsatisfiable));
    let events = solver.get_events();
    let mut unit_resolutions = 0;
    for record in events {
        match &record.event {
            cdcl_sat::proof_log::ProofEvent::Explain { step } => {
                assert!(step.reason.len() == 1 || step.conflict.len() == 1);
                unit_resolutions += 1;
            },
            cdcl_sat::proof_log::ProofEvent::Fail { step } => {
                assert!(step.reason.len() == 1 && step.conflict.len() == 1);
                unit_resolutions += 1;
            },
            _ => {},
        }
    }
    assert_eq!(unit_resolutions, 2);
    match events.last().map(|record| &record.event) {
        Some(cdcl_sat::proof_log::ProofEvent::Fail { step }) => {
            assert!(step.resolvent.is_empty());
        },
        _ => panic!("the log does not end with the empty clause"),
    }
}
