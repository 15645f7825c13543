use cdcl_sat::formula::Formula;
use cdcl_sat::model::Model;
use cdcl_sat::render::{
    clause_to_string, dot_proof, formula_to_cnf, formula_to_dimacs, model_to_string,
    stats_to_string, tex_proof, txt_proof,
};
use cdcl_sat::sat::SAT;
use cdcl_sat::solver::Solver;
use cdcl_sat::stats::Stats;

fn refuted(text: &str, dot: bool, txt: bool, tex: bool) -> Solver {
    let mut solver = Solver::new();
    solver.formula.load_dimacs(text.to_string());
    solver.set_dot_proof_enabled(dot);
    solver.set_txt_proof_enabled(txt);
    solver.set_tex_proof_enabled(tex);
    assert!(solver.is_solvable());
    assert_eq!(solver.solve(), Ok(SAT::Unsatisfiable));
    solver
}

const TWO_SAT: &str = "p cnf 2 4\n1 2 0\n-1 2 0\n1 -2 0\n-1 -2 0\n";

#[test]
fn a_clause_is_written_as_a_disjunction() {
    assert_eq!(clause_to_string(&vec![1, -2, 30]), "1 ∨ -2 ∨ 30");
    assert_eq!(clause_to_string(&vec![-105]), "-105");
    assert_eq!(clause_to_string(&vec![]), "");
    assert_eq!(clause_to_string(&vec![isize::MIN, isize::MAX, 0]),
        format!("{} ∨ {} ∨ 0", isize::MIN, isize::MAX));
}

#[test]
fn the_plain_text_proof_has_a_line_for_each_resolution() {
    let solver = refuted(TWO_SAT, false, true, false);
    assert_eq!(
        txt_proof(solver.get_events()),
        "(2) -1 ∨ 2 - (4) -1 ∨ -2 => (5) -1\n\
         (1) 1 ∨ 2 - (3) 1 ∨ -2 => (6) 1\n\
         (5) -1 - (6) 1 => □\n"
    );
}

#[test]
fn the_proof_graph_shows_original_antecedents_and_every_resolvent() {
    let solver = refuted(TWO_SAT, true, false, false);
    assert_eq!(
        dot_proof(solver.get_events()),
        "digraph {\n\
         2 [label=<<FONT POINT-SIZE='8.0'>(2)  </FONT>-1 ∨ 2>]\n\
         4 [label=<<FONT POINT-SIZE='8.0'>(4)  </FONT>-1 ∨ -2>]\n\
         5 [label=<<FONT POINT-SIZE='8.0'>(5)  </FONT>-1>]\n\
         2 -> 5\n\
         4 -> 5\n\
         1 [label=<<FONT POINT-SIZE='8.0'>(1)  </FONT>1 ∨ 2>]\n\
         3 [label=<<FONT POINT-SIZE='8.0'>(3)  </FONT>1 ∨ -2>]\n\
         6 [label=<<FONT POINT-SIZE='8.0'>(6)  </FONT>1>]\n\
         1 -> 6\n\
         3 -> 6\n\
         □\n\
         5 -> □\n\
         6 -> □\n\
         }\n"
    );
}

#[test]
fn the_pigeonhole_refutation_ends_with_the_box() {
    let solver = refuted("p cnf 2 3\n1 2 0\n-1 -2 0\n-1 0\n-2 0\n", false, true, false);
    let text = txt_proof(solver.get_events());
    let last = text.lines().last().unwrap();
    assert!(last.ends_with("=> □"), "last line {:?}", last);
    assert_eq!(text, "(1) 1 ∨ 2 - (4) -2 => (5) 1\n(5) 1 - (3) -1 => □\n");
}

#[test]
fn the_typeset_proof_shows_the_trail_at_each_event() {
    let solver = refuted("p cnf 1 2\n1 0\n-1 0\n", false, false, true);
    let head = "\\documentclass{article}\n\
                \\usepackage{seqsplit}\\usepackage{mathtools}\\usepackage{amssymb}\n\
                \\newcommand{\\overflow}[1]{ \\texttt{\\ttfamily\\seqsplit{$#1$}} }\n\
                \\begin{document}\n\
                \\title{Proof of unsatisfiability}\n\
                \\author{generated by SAT solver}\n\
                \\date{2024 February 29 12:00:00}\n\
                \\maketitle\n\
                \\overflow{\\emptyset||F} ";
    let body = "\n\n$\\xRightarrow[\\text{Propagation}]{}$ \\overflow{1{_{1}}\n||F\n} \
                \n\n$\\xRightarrow[\\text{Conflict}]{}$ \\overflow{1{_{1}}\n||F\n||2: \\neg1} \
                \n\n$\\xRightarrow[\\text{Fail}]{}$ $\\square$\n";
    assert_eq!(
        tex_proof(solver.get_events(), "2024 February 29 12:00:00"),
        format!("{}{}\\end{{document}}\n", head, body)
    );
}

#[test]
fn the_typeset_proof_marks_decisions_and_lists_learned_clauses() {
    let solver = refuted(TWO_SAT, false, false, true);
    let text = tex_proof(solver.get_events(), "");
    let blocks: Vec<&str> = text.split("\n\n$\\xRightarrow").collect();
    assert_eq!(blocks.len(), 16);
    assert_eq!(blocks[1], "[\\text{Decision}]{}$ \\overflow{1{^d} \n||F\n} ");
    assert_eq!(blocks[2], "[\\text{Propagation}]{}$ \\overflow{1{^d} 2{_{2}}\n||F\n} ");
    assert_eq!(
        blocks[3],
        "[\\text{Conflict}]{}$ \\overflow{1{^d} 2{_{2}}\n||F\n||4: \\neg1 \\lor \\neg2} "
    );
    assert_eq!(blocks[4], "[\\text{Explain}]{}$ \\overflow{1{^d} \n||F\n||5: \\neg1} ");
    assert_eq!(blocks[5], "[\\text{Learn}]{}$ \\overflow{1{^d} \n||F\\cup\\{5\\}\n||5: \\neg1} ");
    assert_eq!(blocks[6], "[\\text{Backjump}]{}$ \\overflow{\\emptyset\n||F\\cup\\{5\\}\n} ");
    assert_eq!(
        blocks[7],
        "[\\text{Propagation}]{}$ \\overflow{\\neg1{_{5}}\n||F\\cup\\{5\\}\n} "
    );
    assert_eq!(
        blocks[12],
        "[\\text{Backjump}]{}$ \\overflow{\\emptyset\n||F\\cup\\{5, 6\\}\n} "
    );
    assert_eq!(blocks[15], "[\\text{Fail}]{}$ $\\square$\n\\end{document}\n");
}

#[test]
fn a_model_is_written_in_ascending_order_of_its_variables() {
    let mut model = Model::new(Some(12));
    model.add(-11);
    model.add(3);
    model.add(-1);
    assert_eq!(model_to_string(&model), "-1 3 -11 \n");
    assert_eq!(model_to_string(&Model::new(Some(2))), "\n");
}

#[test]
fn a_formula_is_written_as_a_conjunction_and_as_a_problem() {
    let mut formula = Formula::new();
    formula.load_dimacs("p cnf 3 2\n1 -3 0\n2 0\n-1 2 3 0\n".to_string());
    assert_eq!(formula_to_cnf(&formula), "(1∨-3)∧(2)∧(-1∨2∨3)\n\n");
    assert_eq!(formula_to_dimacs(&formula), "p cnf 3 2\n1 -3 0\n2 0\n-1 2 3 0\n\n\n");
    assert_eq!(formula_to_cnf(&Formula::new()), "\n\n");
    assert_eq!(formula_to_dimacs(&Formula::new()), "p cnf 0 0\n\n\n");
}

#[test]
fn a_written_problem_reads_back_as_the_same_formula() {
    let mut formula = Formula::new();
    formula.load_dimacs("p cnf 40 3\n-7 12 40 0\n1 0\n-1 -12 33 7 0\n".to_string());
    let text = formula_to_dimacs(&formula);
    let mut again = Formula::new();
    assert!(Formula::dimacs_headers_ok(&text));
    again.load_dimacs(text.clone());
    assert_eq!(formula_to_dimacs(&again), text);
    assert_eq!(again.get_num_variables(), 40);
    assert_eq!(again.clauses_len(), 3);
}

#[test]
fn the_counters_are_written_one_to_a_line() {
    let mut stats = Stats::new();
    stats.increase_learned();
    stats.increase_forgotten(12);
    stats.record_memory(Some((2048, 1000000)));
    assert_eq!(
        stats_to_string(&stats),
        "Clauses learned: 1\nClauses forgotten: 12\nMax virtual memory: 2 KiB\nMax physical memory: 1 MB\n"
    );
}
