use vstd::prelude::*;
use crate::clause::{Clause, ClauseView};
use crate::clause_tools::{evaluable, views};
use crate::formula::{clause_vars, headers_ok, lemma_with_lines_adds_fresh};
use crate::normal::normalize;
use crate::text::{line_literals, lines, rejected_line};
use crate::decision::{trail_view, Decision, DecisionView};
use crate::formula::{reset_each, Formula, FormulaView};
use crate::justification::unsatisfiable;
use crate::literal::{lit_in_range, lits_in_range, magnitude};
use crate::model::{lit_value, Model, ModelValue};
use crate::proof_log::{ends_in_failure, event_views, Record, RecordView};
use crate::sat::SAT;
use crate::stats::Stats;
use crate::vsids::bounded;
use crate::state::{
    ids_below, top_id,Phase, SolverView, all_marked, fresh_solver, holds_clause, same_clauses};
use crate::invariants::{lemma_rested_sound, lemma_same_problem, lemma_sound_model};

mod search;

verus! {

/// A CDCL search over a formula, with its trail, its learned clauses and its heuristic.
pub struct Solver {
    pub formula: Formula,
    learned_clauses: Vec<Clause>,
    current_learned_clause_id: usize,
    max_learned_clauses: usize,
    model: Model,
    decision_level: usize,
    decisions: Vec<Decision>,
    vsids: Vec<(u64, u64)>,
    stats: Stats,
    print_dot_proof: bool,
    print_txt_proof: bool,
    print_tex_proof: bool,
    events: Vec<Record>,
    overwrote: bool,
}

impl View for Solver {
    type V = SolverView;

    closed spec fn view(&self) -> SolverView {
        SolverView {
            formula: self.formula@,
            learned: views(self.learned_clauses@),
            last_learned_id: self.current_learned_clause_id,
            max_learned: self.max_learned_clauses,
            model: self.model@,
            level: self.decision_level,
            trail: trail_view(self.decisions@),
            scores: self.vsids@,
            stats: self.stats@.counters(),
            dot: self.print_dot_proof,
            txt: self.print_txt_proof,
            tex: self.print_tex_proof,
            events: event_views(self.events@),
            overwrote: self.overwrote,
        }
    }
}

impl Solver {
    /// A solver with no formula and every sink disabled.
    pub fn new() -> (r: Solver)
        ensures
            r@ == fresh_solver(false, false, false),
            r@.wf(),
    {
        let r = Solver {
            formula: Formula::new(),
            learned_clauses: Vec::new(),
            current_learned_clause_id: 0,
            max_learned_clauses: 0,
            model: Model::new(None),
            decision_level: 0,
            decisions: Vec::new(),
            vsids: Vec::new(),
            stats: Stats::new(),
            print_dot_proof: false,
            print_txt_proof: false,
            print_tex_proof: false,
            events: Vec::new(),
            overwrote: false,
        };
        assert(r@.learned =~= Seq::<ClauseView>::empty());
        assert(r@.trail =~= Seq::<DecisionView>::empty());
        assert(r@.events =~= Seq::<RecordView>::empty());
        assert(r@.model =~= Seq::<ModelValue>::empty());
        r
    }

    /// A solver for `formula`, with every sink disabled and nothing left of a search.
    pub fn with_formula(formula: Formula) -> (r: Solver)
        requires
            formula@.wf(),
        ensures
            r@ == (SolverView { formula: formula@, ..fresh_solver(false, false, false) }),
            r@.wf(),
    {
        let mut r = Solver::new();
        r.formula = formula;
        r
    }

    /// The formula of the solver.
    pub fn get_formula(&self) -> (r: &Formula)
        ensures
            r@ == self@.formula,
    {
        &self.formula
    }

    /// Reads a problem in DIMACS form into the formula of the solver, after what the
    /// formula holds.
    pub fn load_dimacs(&mut self, formula_string: String)
        requires
            old(self)@.formula.wf(),
            headers_ok(formula_string@),
        ensures
            final(self)@ == (SolverView {
                formula: old(self)@.formula.with_lines(lines(formula_string@)),
                ..old(self)@
            }),
            final(self)@.formula.wf(),
            old(self)@.wf() && old(self)@.learned.len() == 0 ==> final(self)@.wf(),
            old(self)@.rested() ==> final(self)@.rested(),
    {
        proof {
            lemma_with_lines_adds_fresh(self@.formula, lines(formula_string@));
        }
        self.formula.load_dimacs(formula_string);
        proof {
            let before = old(self)@;
            let after = self@;
            if before.rested() {
                assert forall|i: int| 0 <= i < after.formula.clauses.len() implies (
                #[trigger] after.formula.clauses[i]).satisfied is None && (!after.formula.clauses[i].marked()
                    ==> after.formula.clauses[i].watches == crate::clause::fresh_watches(
                    after.formula.clauses[i].literals.len(),
                )) by {
                    if i < before.formula.clauses.len() {
                        assert(after.formula.clauses[i] == before.formula.clauses[i]);
                    }
                }
            }
        }
    }

    /// Adds the clause that the line `clause_string` writes to the formula of the solver.
    /// A line that is no clause is refused and changes nothing.
    pub fn add_clause_by_string(&mut self, clause_string: String) -> (r: Result<(), ()>)
        requires
            old(self)@.formula.wf(),
        ensures
            r is Err <==> rejected_line(clause_string@),
            r is Err ==> final(self)@ == old(self)@,
            r is Ok ==> final(self)@ == (SolverView {
                formula: old(self)@.formula.with_clause(normalize(line_literals(clause_string@))),
                ..old(self)@
            }),
            final(self)@.formula.wf(),
            old(self)@.wf() && old(self)@.learned.len() == 0 ==> final(self)@.wf(),
            old(self)@.rested() ==> final(self)@.rested(),
    {
        let r = self.formula.add_clause_by_string(clause_string);
        proof {
            let before = old(self)@;
            let after = self@;
            if before.rested() && r is Ok {
                assert forall|i: int| 0 <= i < after.formula.clauses.len() implies (
                #[trigger] after.formula.clauses[i]).satisfied is None && (!after.formula.clauses[i].marked()
                    ==> after.formula.clauses[i].watches == crate::clause::fresh_watches(
                    after.formula.clauses[i].literals.len(),
                )) by {
                    if i < before.formula.clauses.len() {
                        assert(after.formula.clauses[i] == before.formula.clauses[i]);
                    }
                }
            }
        }
        r
    }

    /// Sets the declared counts of the formula to what its clauses hold: the number of
    /// distinct variables and the number of clauses.
    pub fn calculate_stats(&mut self)
        ensures
            final(self)@ == (SolverView {
                formula: FormulaView {
                    num_variables: clause_vars(old(self)@.formula.clauses).len() as usize,
                    num_clauses: old(self)@.formula.clauses.len() as usize,
                    ..old(self)@.formula
                },
                ..old(self)@
            }),
            old(self)@.wf() ==> final(self)@.wf(),
            old(self)@.rested() ==> final(self)@.rested(),
    {
        self.formula.calculate_stats();
    }

    /// Back to a solver with no formula; the sink switches stay.
    pub fn reset(&mut self)
        ensures
            final(self)@ == fresh_solver(old(self)@.dot, old(self)@.txt, old(self)@.tex),
            final(self)@.wf(),
    {
        self.formula = Formula::new();
        self.current_learned_clause_id = 0;
        self.model = Model::new(None);
        self.learned_clauses = Vec::new();
        self.decision_level = 0;
        self.decisions = Vec::new();
        self.vsids = Vec::new();
        self.stats = Stats::new();
        self.max_learned_clauses = 0;
        self.events = Vec::new();
        self.overwrote = false;
        assert(self@.learned =~= Seq::<ClauseView>::empty());
        assert(self@.trail =~= Seq::<DecisionView>::empty());
        assert(self@.events =~= Seq::<RecordView>::empty());
        assert(self@.model =~= Seq::<ModelValue>::empty());
    }

    /// Back to the state before a search; the formula and the sink switches stay, every
    /// clause loses what a search at any level did to it.
    pub fn reset_solve(&mut self)
        requires
            old(self)@.formula.wf(),
        ensures
            final(self)@ == (SolverView {
                formula: FormulaView {
                    clauses: reset_each(old(self)@.formula.clauses, 0),
                    ..old(self)@.formula
                },
                last_learned_id: old(self)@.last_learned_id,
                ..fresh_solver(old(self)@.dot, old(self)@.txt, old(self)@.tex)
            }),
            final(self)@.formula.wf(),
    {
        self.model = Model::new(None);
        self.learned_clauses = Vec::new();
        self.decision_level = 0;
        self.decisions = Vec::new();
        self.vsids = Vec::new();
        self.stats = Stats::new();
        self.max_learned_clauses = 0;
        self.events = Vec::new();
        self.overwrote = false;
        self.formula.reset_all(self.decision_level);
        assert(self@.learned =~= Seq::<ClauseView>::empty());
        assert(self@.trail =~= Seq::<DecisionView>::empty());
        assert(self@.events =~= Seq::<RecordView>::empty());
        assert(self@.model =~= Seq::<ModelValue>::empty());
    }

    /// Whether the formula holds a clause.
    pub fn is_formula_loaded(&self) -> (r: bool)
        ensures
            r == (self@.formula.clauses.len() != 0),
    {
        self.formula.clauses_len() != 0
    }

    pub fn is_dot_proof_enabled(&self) -> (r: bool)
        ensures
            r == self@.dot,
    {
        self.print_dot_proof
    }

    pub fn is_txt_proof_enabled(&self) -> (r: bool)
        ensures
            r == self@.txt,
    {
        self.print_txt_proof
    }

    pub fn is_tex_proof_enabled(&self) -> (r: bool)
        ensures
            r == self@.tex,
    {
        self.print_tex_proof
    }

    pub fn set_dot_proof_enabled(&mut self, enable: bool)
        ensures
            final(self)@ == (SolverView { dot: enable, ..old(self)@ }),
    {
        self.print_dot_proof = enable;
    }

    pub fn set_txt_proof_enabled(&mut self, enable: bool)
        ensures
            final(self)@ == (SolverView { txt: enable, ..old(self)@ }),
    {
        self.print_txt_proof = enable;
    }

    pub fn set_tex_proof_enabled(&mut self, enable: bool)
        ensures
            final(self)@ == (SolverView { tex: enable, ..old(self)@ }),
    {
        self.print_tex_proof = enable;
    }

    /// The partial assignment; after a search that ended satisfiable, the model found.
    pub fn get_model(&self) -> (r: &Model)
        ensures
            r@ == self@.model,
    {
        &self.model
    }

    /// The counters of the search.
    pub fn get_stats(&self) -> (r: &Stats)
        ensures
            r@.counters() == self@.stats,
    {
        &self.stats
    }

    /// The learned clauses.
    pub fn get_learned_clauses(&self) -> (r: &Vec<Clause>)
        ensures
            views(r@) == self@.learned,
    {
        &self.learned_clauses
    }

    /// The number of learned clauses beyond which clauses are forgotten.
    pub fn get_max_learned_clauses(&self) -> (r: usize)
        ensures
            r == self@.max_learned,
    {
        self.max_learned_clauses
    }

    /// The trail, ground level first.
    pub fn get_decisions(&self) -> (r: &Vec<Decision>)
        ensures
            trail_view(r@) == self@.trail,
    {
        &self.decisions
    }

    /// The current decision level.
    pub fn get_decision_level(&self) -> (r: usize)
        ensures
            r == self@.level,
    {
        self.decision_level
    }

    /// The events recorded for the proof sinks, oldest first.
    pub fn get_events(&self) -> (r: &Vec<Record>)
        ensures
            event_views(r@) == self@.events,
    {
        &self.events
    }

    /// Whether the search assigned a variable that already had a value.
    pub fn has_overwritten(&self) -> (r: bool)
        ensures
            r == self@.overwrote,
    {
        self.overwrote
    }

    /// Whether the assignment makes a literal true in every original clause that is no
    /// tautology.
    pub fn model_satisfies_formula(&self) -> (r: bool)
        requires
            self@.solvable(),
            self@.model.len() == self@.size(),
        ensures
            r == self@.satisfies_formula(),
    {
        let clauses = self.formula.get_clauses();
        let mut i: usize = 0;
        while i < clauses.len()
            invariant
                0 <= i <= clauses@.len(),
                views(clauses@) == self@.formula.clauses,
                self@.solvable(),
                self@.model.len() == self@.size(),
                forall|k: int|
                    0 <= k < i && !(#[trigger] self@.formula.clauses[k]).tautology
                        ==> crate::justification::holds(
                        self@.formula.clauses[k].literals,
                        self@.model,
                    ),
            decreases clauses@.len() - i,
        {
            let clause = &clauses[i];
            assert(clause@ == self@.formula.clauses[i as int]);
            if !clause.is_tautology() {
                let literals = clause.iter_literals();
                let mut found = false;
                let mut j: usize = 0;
                while j < literals.len() && !found
                    invariant
                        0 <= j <= literals@.len(),
                        literals@ == self@.formula.clauses[i as int].literals,
                        0 <= i < self@.formula.clauses.len(),
                        self@.solvable(),
                        self@.model.len() == self@.size(),
                        found ==> crate::justification::holds(literals@, self@.model),
                        !found ==> forall|k: int|
                            0 <= k < j ==> lit_value(self@.model, #[trigger] literals@[k])
                                != SAT::Satisfiable,
                    decreases literals@.len() - j + if found { 0int } else { 1int },
                {
                    assert(lit_in_range(literals@[j as int], self@.size()));
                    if self.model.has(literals[j]) {
                        found = true;
                    } else {
                        j += 1;
                    }
                }
                if !found {
                    assert(!crate::justification::holds(literals@, self@.model));
                    return false;
                }
            }
            i += 1;
        }
        true
    }

    /// Whether the solver can search its formula.
    pub fn is_solvable(&self) -> (r: bool)
        requires
            self@.wf(),
        ensures
            r == self@.solvable(),
    {
        let size = self.formula.get_num_variables();
        size <= isize::MAX as usize && can_evaluate(self.formula.get_clauses(), size)
            && can_evaluate(&self.learned_clauses, size) && self.formula.clauses_len()
            <= usize::MAX - self.learned_clauses.len()
    }

    /// Hands `clause` to the learned clauses unless a clause with the same literals is
    /// already held, original or learned. Returns the index of the clause added, or 0
    /// when nothing was added.
    pub fn add_learned_clause(&mut self, clause: Clause) -> (r: usize)
        requires
            old(self)@.wf(),
            clause@.wf(),
            old(self)@.formula.clauses.len() + old(self)@.learned.len() < usize::MAX,
        ensures
            final(self)@ == (SolverView {
                learned: if holds_clause(old(self)@.all_clauses(), clause@.literals) {
                    old(self)@.learned
                } else {
                    old(self)@.learned.push(clause@)
                },
                ..old(self)@
            }),
            r == if holds_clause(old(self)@.all_clauses(), clause@.literals) {
                0
            } else {
                old(self)@.formula.clauses.len() + old(self)@.learned.len()
            },
            final(self)@.wf(),
    {
        let ghost before = self@;
        let ghost all = self@.all_clauses();
        let in_originals = contains_clause(self.formula.get_clauses(), &clause);
        let in_learned = contains_clause(&self.learned_clauses, &clause);
        proof {
            if holds_clause(all, clause@.literals) {
                let i = choose|i: int| 0 <= i < all.len() && (#[trigger] all[i]).literals == clause@.literals;
                if i < before.formula.clauses.len() {
                    assert(before.formula.clauses[i].literals == clause@.literals);
                } else {
                    assert(before.learned[i - before.formula.clauses.len()].literals
                        == clause@.literals);
                }
            }
            if in_originals {
                let i = choose|i: int|
                    0 <= i < before.formula.clauses.len() && (
                    #[trigger] before.formula.clauses[i]).literals == clause@.literals;
                assert(all[i].literals == clause@.literals);
            }
            if in_learned {
                let i = choose|i: int|
                    0 <= i < before.learned.len() && (#[trigger] before.learned[i]).literals
                        == clause@.literals;
                assert(all[i + before.formula.clauses.len()].literals == clause@.literals);
            }
        }
        if !in_originals && !in_learned {
            self.learned_clauses.push(clause);
            assert(self@.learned =~= before.learned.push(clause@));
            return self.formula.clauses_len() + self.learned_clauses.len() - 1;
        }
        0
    }

    /// Searches for an assignment that satisfies every clause of the formula.
    ///
    /// Fails when the formula holds no clause. Otherwise the search starts at the ground
    /// level with an empty trail and the scores at zero, and takes the steps of
    /// `SolverView::run`. It ends satisfiable when every clause is marked satisfied, which
    /// is also the case when nothing is left to decide; unsatisfiable when the empty clause
    /// is derived; and unknown when the step count of the machine is used up.
    ///
    /// If nothing was left of an earlier search, and if the search never assigned a
    /// variable that already had a value, then a satisfiable answer comes with an
    /// assignment that satisfies the formula, and an unsatisfiable answer means that no
    /// assignment does.
    pub fn solve(&mut self) -> (r: Result<SAT, ()>)
        requires
            old(self)@.wf(),
            old(self)@.solvable(),
        ensures
            (final(self)@, r) == old(self)@.solved(),
            r is Err <==> old(self)@.formula.clauses.len() == 0,
            r is Err ==> final(self)@ == old(self)@,
            r is Ok ==> final(self)@.searching(),
            final(self)@.same_problem(old(self)@),
            r == Ok::<SAT, ()>(SAT::Satisfiable) ==> final(self)@.all_marked(),
            r == Ok::<SAT, ()>(SAT::Unsatisfiable) && final(self)@.recording() ==> ends_in_failure(
                final(self)@.events,
            ),
            r is Ok && old(self)@.rested() ==> final(self)@.marks_in_step(),
            r is Ok && old(self)@.rested() ==> final(self)@.trusted(),
            r == Ok::<SAT, ()>(SAT::Satisfiable) && old(self)@.rested() && !final(self)@.overwrote
                ==> final(self)@.satisfies_formula(),
            r == Ok::<SAT, ()>(SAT::Unsatisfiable) && old(self)@.rested() && !final(self)@.overwrote
                ==> final(self)@.refuted(),
    {
        let ghost before = self@;
        if !self.is_formula_loaded() {
            proof {
                assert(same_clauses(before.formula.clauses, before.formula.clauses));
            }
            return Err(());
        }
        let size = self.formula.get_num_variables();
        let total = self.formula.clauses_len();
        self.decision_level = 0;
        self.decisions = Vec::new();
        self.decisions.push(Decision::new(0));
        self.model.resize(size);
        let ghost resized = self@.model;
        self.vsids = Vec::new();
        while self.vsids.len() < size
            invariant
                self@.model == resized,
                self.vsids@.len() <= size,
                bounded(self.vsids@),
                forall|i: int| 0 <= i < self.vsids@.len() ==> #[trigger] self.vsids@[i] == (0u64, 0u64),
                self@ == (SolverView {
                    scores: self@.scores,
                    model: self@.model,
                    level: 0,
                    trail: self@.trail,
                    ..before
                }),
                self@.model.len() == size,
                self@.trail =~= seq![DecisionView { decided: 0, propagated: Seq::empty() }],
            decreases size - self.vsids@.len(),
        {
            self.vsids.push((0, 0));
        }
        let mut top: usize = total;
        let mut seen: usize = 0;
        while seen < self.learned_clauses.len()
            invariant
                0 <= seen <= self.learned_clauses@.len(),
                top == top_id(views(self.learned_clauses@), seen as int, total),
                forall|k: int| 0 <= k < seen ==> (#[trigger] views(self.learned_clauses@)[k]).id <= top,
                top >= total,
            decreases self.learned_clauses@.len() - seen,
        {
            let id = self.learned_clauses[seen].get_id();
            if id > top {
                top = id;
            }
            seen += 1;
        }
        self.current_learned_clause_id = top;
        self.max_learned_clauses = total;
        self.events = Vec::new();
        self.overwrote = false;
        assert(self@.events =~= Seq::<RecordView>::empty());
        let used: usize = {
            let learned = self.learned_clauses.len();
            let a = if total > usize::MAX - learned {
                usize::MAX
            } else {
                total + learned
            };
            let b = self.stats.get_clauses_learned();
            let c = if self.stats.get_clauses_forgotten() > usize::MAX - learned {
                usize::MAX
            } else {
                self.stats.get_clauses_forgotten() + learned
            };
            let ab = if a > b {
                a
            } else {
                b
            };
            let abc = if ab > c {
                ab
            } else {
                c
            };
            if abc > top {
                abc
            } else {
                top
            }
        };
        let mut fuel: usize = usize::MAX - used;
        let mut phase = Phase::Learned;
        let mut model_changed = false;
        let ghost start = self@;
        proof {
            assert(same_clauses(before.formula.clauses, self@.formula.clauses));
            assert(start.model =~= before.started().model);
            assert(start.scores =~= before.started().scores);
            assert(start == before.started());
            assert(fuel == before.budget());
            if before.rested() {
                assert forall|v: int| 0 <= v < resized.len() implies #[trigger] resized[v]
                    == ModelValue::Unknown by {
                    if v < before.model.len() {
                        assert(before.model[v] == ModelValue::Unknown);
                    }
                }
                lemma_rested_sound(self@);
            }
        }
        let answer = self.search(fuel);
        proof {
            lemma_same_problem(before, start, self@);
            if answer == SAT::Satisfiable {
                lemma_sound_model(self@);
            }
        }
        Ok(answer)
    }
}

/// Whether some clause of `clauses` holds exactly the literals of `clause`.
pub fn contains_clause(clauses: &Vec<Clause>, clause: &Clause) -> (r: bool)
    ensures
        r == holds_clause(views(clauses@), clause@.literals),
{
    let mut i: usize = 0;
    while i < clauses.len()
        invariant
            0 <= i <= clauses@.len(),
            forall|k: int| 0 <= k < i ==> (#[trigger] views(clauses@)[k]).literals != clause@.literals,
        decreases clauses@.len() - i,
    {
        if clauses[i].eq(clause) {
            assert(views(clauses@)[i as int].literals == clause@.literals);
            return true;
        }
        assert(views(clauses@)[i as int].literals != clause@.literals);
        i += 1;
    }
    false
}

/// Whether every clause of `clauses` can be evaluated over `size` variables.
pub fn can_evaluate(clauses: &Vec<Clause>, size: usize) -> (r: bool)
    requires
        forall|i: int| 0 <= i < clauses@.len() ==> (#[trigger] views(clauses@)[i]).wf(),
    ensures
        r == evaluable(views(clauses@), size as int),
{
    let mut i: usize = 0;
    while i < clauses.len()
        invariant
            0 <= i <= clauses@.len(),
            forall|k: int| 0 <= k < clauses@.len() ==> (#[trigger] views(clauses@)[k]).wf(),
            forall|k: int|
                0 <= k < i ==> (#[trigger] views(clauses@)[k]).literals.len() > 0 && lits_in_range(
                    views(clauses@)[k].literals,
                    size as int,
                ),
        decreases clauses@.len() - i,
    {
        let literals = clauses[i].iter_literals();
        assert(literals@ == views(clauses@)[i as int].literals);
        if literals.len() == 0 {
            return false;
        }
        let mut j: usize = 0;
        while j < literals.len()
            invariant
                0 <= j <= literals@.len(),
                literals@ == views(clauses@)[i as int].literals,
                0 <= i < clauses@.len(),
                forall|k: int| 0 <= k < j ==> lit_in_range(#[trigger] literals@[k], size as int),
            decreases literals@.len() - j,
        {
            if literals[j] == 0 || magnitude(literals[j]) > size {
                assert(!lit_in_range(literals@[j as int], size as int));
                return false;
            }
            j += 1;
        }
        i += 1;
    }
    true
}

} // verus!
