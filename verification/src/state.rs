use vstd::prelude::*;
use crate::clause::ClauseView;
use crate::clause_tools::{evaluable, next_unit, pass, pass_verdict, propagates};
use crate::decision::DecisionView;
use crate::formula::{reset_each, watched_literals, FormulaView};
use crate::justification::{all_fresh, models, models_all, satisfies_each, sound, unsatisfiable};
use crate::literal::{lit_in_range, lit_var};
use crate::model::{lit_value, polarity_of, ModelValue};
use crate::proof_log::{log_valid, resolvent_of, ProofEventView, RecordView, ResolutionStepView};
use crate::sat::SAT;
use crate::stats::StatsView;
use crate::vsids::{bounded, bump, bumped, majority, pick, picked, picks};

verus! {

/// What a solver stands for.
pub struct SolverView {
    /// The original clauses.
    pub formula: FormulaView,
    /// The learned clauses; the clause at position `i` has index `N + i`, where `N` is the
    /// number of original clauses.
    pub learned: Seq<ClauseView>,
    /// The identifier issued last to a derived clause.
    pub last_learned_id: usize,
    /// The number of learned clauses beyond which clauses are forgotten.
    pub max_learned: usize,
    /// The partial assignment.
    pub model: Seq<ModelValue>,
    /// The current decision level.
    pub level: usize,
    /// The trail, ground level first.
    pub trail: Seq<DecisionView>,
    /// The activity scores, one pair per variable.
    pub scores: Seq<(u64, u64)>,
    /// The counters. The memory figures are sampled from the machine and are no part of
    /// what a solver stands for: here they read 0.
    pub stats: StatsView,
    /// Whether the graph sink is enabled.
    pub dot: bool,
    /// Whether the plain-text sink is enabled.
    pub txt: bool,
    /// Whether the typeset sink is enabled.
    pub tex: bool,
    /// The events recorded for the sinks.
    pub events: Seq<RecordView>,
    /// Whether the search assigned a variable that already had a value.
    pub overwrote: bool,
}

/// The identifiers of the clauses `cs`.
pub open spec fn clause_ids(cs: Seq<ClauseView>) -> Seq<usize> {
    cs.map_values(|c: ClauseView| c.id)
}

/// Where a search stands between two steps.
#[derive(Clone, Copy, PartialEq, Eq, Structural)]
pub enum Phase {
    /// Propagating, with the learned clauses to look at next.
    Learned,
    /// Propagating, with the original clauses to look at next.
    Originals,
    /// At a fixpoint of propagation, with a decision due.
    Deciding,
}

/// No clause of `cs` bears an identifier above `bound`.
pub open spec fn ids_below(cs: Seq<ClauseView>, bound: usize) -> bool {
    forall|i: int| 0 <= i < cs.len() ==> (#[trigger] cs[i]).id <= bound
}

/// The largest of `base` and the identifiers of the first `n` clauses of `cs`.
pub open spec fn top_id(cs: Seq<ClauseView>, n: int, base: usize) -> usize
    decreases n,
{
    if n <= 0 {
        base
    } else {
        let rest = top_id(cs, n - 1, base);
        if cs[n - 1].id > rest {
            cs[n - 1].id
        } else {
            rest
        }
    }
}

/// No learned clause repeats the literals of another learned clause or of an original
/// clause.
pub open spec fn no_repeats(originals: Seq<ClauseView>, learned: Seq<ClauseView>) -> bool {
    &&& forall|i: int, j: int|
        0 <= i < j < learned.len() ==> (#[trigger] learned[i]).literals != (
        #[trigger] learned[j]).literals
    &&& forall|i: int, k: int|
        0 <= i < learned.len() && 0 <= k < originals.len() ==> (#[trigger] learned[i]).literals != (
        #[trigger] originals[k]).literals
}

/// Whether some clause of `cs` holds exactly the literals `lits`.
pub open spec fn holds_clause(cs: Seq<ClauseView>, lits: Seq<isize>) -> bool {
    exists|i: int| 0 <= i < cs.len() && (#[trigger] cs[i]).literals == lits
}

/// Every literal that the trail holds names a variable among the first `size`; the
/// decided literal of the ground level is the placeholder and is exempt.
pub open spec fn trail_in_range(trail: Seq<DecisionView>, size: int) -> bool {
    &&& forall|d: int, i: int|
        0 <= d < trail.len() && 0 <= i < trail[d].propagated.len() ==> lit_in_range(
            (#[trigger] trail[d].propagated[i]).0,
            size,
        )
    &&& forall|d: int| 1 <= d < trail.len() ==> lit_in_range((#[trigger] trail[d]).decided, size)
}

/// No clause of `cs` is marked satisfied at a level above `level`.
pub open spec fn marks_below(cs: Seq<ClauseView>, level: usize) -> bool {
    forall|i: int|
        0 <= i < cs.len() && (#[trigger] cs[i]).satisfied is Some ==> cs[i].satisfied->0 <= level
}

/// Every clause of `cs` is marked satisfied.
pub open spec fn all_marked(cs: Seq<ClauseView>) -> bool {
    forall|i: int| 0 <= i < cs.len() ==> (#[trigger] cs[i]).marked()
}

/// The assignment `m` with the variable of every literal of `lits` cleared.
pub open spec fn cleared(m: Seq<ModelValue>, lits: Seq<(isize, usize)>) -> Seq<ModelValue>
    decreases lits.len(),
{
    if lits.len() == 0 {
        m
    } else {
        cleared(m, lits.drop_last()).update(lit_var(lits.last().0) - 1, ModelValue::Unknown)
    }
}

/// The clauses `cs` that a forget keeps: all but those in the lower half of the list
/// that are longer than the mean length.
pub open spec fn kept(cs: Seq<ClauseView>, half: int, mean: int, n: int) -> Seq<ClauseView>
    decreases n,
{
    if n <= 0 {
        Seq::empty()
    } else {
        let init = kept(cs, half, mean, n - 1);
        if n - 1 < half && cs[n - 1].literals.len() > mean {
            init
        } else {
            init.push(cs[n - 1])
        }
    }
}

/// The identifiers of the clauses among the first `n` of `cs` that a forget drops.
pub open spec fn dropped_ids(cs: Seq<ClauseView>, half: int, mean: int, n: int) -> Seq<usize>
    decreases n,
{
    if n <= 0 {
        Seq::empty()
    } else {
        let init = dropped_ids(cs, half, mean, n - 1);
        if n - 1 < half && cs[n - 1].literals.len() > mean {
            init.push(cs[n - 1].id)
        } else {
            init
        }
    }
}

/// The sum of the lengths of the first `n` clauses of `cs`.
pub open spec fn total_length(cs: Seq<ClauseView>, n: int) -> int
    decreases n,
{
    if n <= 0 {
        0
    } else {
        total_length(cs, n - 1) + cs[n - 1].literals.len()
    }
}

/// The mean length of the clauses `cs`, rounded down.
pub open spec fn mean_length(cs: Seq<ClauseView>) -> int {
    if cs.len() == 0 {
        0
    } else {
        total_length(cs, cs.len() as int) / (cs.len() as int)
    }
}

/// The limit on learned clauses after a forget: one and a half times `limit`, halves
/// rounded up, and no more than the machine can count.
pub open spec fn grown_limit(limit: usize) -> usize {
    let g = limit + (limit + 1) / 2;
    if g > usize::MAX {
        usize::MAX
    } else {
        g as usize
    }
}

impl SolverView {
    /// Number of variables that the search runs over.
    pub open spec fn size(self) -> int {
        self.formula.num_variables as int
    }

    /// Original clauses first, then the learned ones: the clause list that indices
    /// refer to.
    pub open spec fn all_clauses(self) -> Seq<ClauseView> {
        self.formula.clauses + self.learned
    }

    /// Some proof sink is enabled, so events are recorded.
    pub open spec fn recording(self) -> bool {
        self.dot || self.txt || self.tex
    }

    /// What holds of a solver whatever it is doing: clauses well formed, and no learned
    /// clause twice or beside an original clause with the same literals.
    pub open spec fn wf(self) -> bool {
        &&& self.formula.wf()
        &&& forall|i: int| 0 <= i < self.learned.len() ==> (#[trigger] self.learned[i]).wf()
        &&& no_repeats(self.formula.clauses, self.learned)
        &&& log_valid(self.events)
    }

    /// The solver can search its formula: there are no more variables than positive
    /// literals, and every clause, original or learned, can be evaluated over them.
    pub open spec fn solvable(self) -> bool {
        &&& self.size() <= isize::MAX
        &&& evaluable(self.formula.clauses, self.size())
        &&& evaluable(self.learned, self.size())
        &&& self.formula.clauses.len() + self.learned.len() <= usize::MAX
    }

    /// What holds between the steps of a search.
    pub open spec fn searching(self) -> bool {
        &&& self.wf()
        &&& self.solvable()
        &&& self.model.len() == self.size()
        &&& self.scores.len() == self.size()
        &&& bounded(self.scores)
        &&& self.trail.len() == self.level + 1
        &&& self.trail[0].decided == 0
        &&& trail_in_range(self.trail, self.size())
        &&& self.formula.last_id <= self.last_learned_id
        &&& ids_below(self.learned, self.last_learned_id)
    }

    /// The identifier `id` is borne by no clause, original or learned.
    pub open spec fn unused_id(self, id: usize) -> bool {
        forall|i: int| 0 <= i < self.all_clauses().len() ==> (#[trigger] self.all_clauses()[i]).id != id
    }

    /// Room for `fuel` more steps: no counter can overflow within them.
    pub open spec fn headroom(self, fuel: int) -> bool {
        &&& fuel >= 0
        &&& fuel > 0 ==> {
            &&& self.level + fuel <= usize::MAX
            &&& self.last_learned_id + fuel <= usize::MAX
            &&& self.stats.clauses_learned + fuel <= usize::MAX
            &&& self.stats.clauses_forgotten + self.learned.len() + fuel <= usize::MAX
            &&& self.formula.clauses.len() + self.learned.len() + fuel <= usize::MAX
        }
    }

    /// The solver with `event` recorded, if events are recorded.
    pub open spec fn logged(self, event: ProofEventView) -> SolverView {
        if self.recording() {
            SolverView {
                events: self.events.push(
                    RecordView {
                        event: event,
                        trail: if self.tex {
                            self.trail
                        } else {
                            Seq::empty()
                        },
                        learned_ids: if self.tex {
                            clause_ids(self.learned)
                        } else {
                            Seq::empty()
                        },
                    },
                ),
                ..self
            }
        } else {
            self
        }
    }

    /// The solver after a full evaluation: a pass over the original clauses and a pass
    /// over the learned ones, both under the current assignment at the current level.
    pub open spec fn checked(self) -> SolverView {
        SolverView {
            formula: FormulaView {
                clauses: pass(self.formula.clauses, self.model, self.level),
                ..self.formula
            },
            learned: pass(self.learned, self.model, self.level),
            ..self
        }
    }

    /// The verdict of a full evaluation: a falsified original clause with its index, else
    /// a falsified learned clause with its index, else the sum of the two verdicts with
    /// index 0.
    pub open spec fn check_verdict(self) -> (SAT, int) {
        let originals = pass_verdict(self.formula.clauses, self.model, 0);
        let learned = pass_verdict(self.learned, self.model, self.formula.clauses.len() as int);
        if originals.0 == SAT::Unsatisfiable {
            originals
        } else if learned.0 == SAT::Unsatisfiable {
            learned
        } else {
            (originals.0.spec_add(learned.0), 0)
        }
    }

    /// The solver after undoing the propagations of the current level: their variables
    /// are cleared, the list is emptied, and every clause gets the satisfaction reset at
    /// the current level.
    pub open spec fn unwound(self) -> SolverView {
        SolverView {
            formula: FormulaView {
                clauses: reset_each(self.formula.clauses, self.level),
                ..self.formula
            },
            learned: reset_each(self.learned, self.level),
            model: cleared(self.model, self.trail[self.level as int].propagated),
            trail: self.trail.update(
                self.level as int,
                DecisionView {
                    decided: self.trail[self.level as int].decided,
                    propagated: Seq::empty(),
                },
            ),
            ..self
        }
    }

    /// The solver after removing the top level of the trail: above the ground level the
    /// decided literal is cleared and the level goes; the ground level is replaced by an
    /// empty one.
    pub open spec fn popped(self) -> SolverView {
        if self.level > 0 {
            SolverView {
                model: self.model.update(
                    lit_var(self.trail[self.level as int].decided) - 1,
                    ModelValue::Unknown,
                ),
                level: (self.level - 1) as usize,
                trail: self.trail.drop_last(),
                ..self
            }
        } else {
            SolverView {
                trail: seq![DecisionView { decided: 0, propagated: Seq::empty() }],
                ..self
            }
        }
    }

    /// The solver after a backjump by one level.
    pub open spec fn backjumped(self) -> SolverView {
        self.unwound().popped().logged(ProofEventView::Backjump).checked()
    }

    /// The solver after a bump of the scores on the clause at `conflict_idx`.
    pub open spec fn bumped_on(self, conflict_idx: int) -> SolverView {
        SolverView {
            scores: bumped(self.scores, self.all_clauses()[conflict_idx].literals),
            ..self
        }
    }

    /// The solver with `c` in place of the clause at `idx`.
    pub open spec fn with_clause(self, idx: int, c: ClauseView) -> SolverView {
        let n = self.formula.clauses.len() as int;
        if idx < n {
            SolverView {
                formula: FormulaView { clauses: self.formula.clauses.update(idx, c), ..self.formula },
                ..self
            }
        } else {
            SolverView { learned: self.learned.update(idx - n, c), ..self }
        }
    }

    /// The solver with the clause at `idx` marked as used.
    pub open spec fn with_used(self, idx: int) -> SolverView {
        self.with_clause(idx, ClauseView { used: true, ..self.all_clauses()[idx] })
    }

    /// The resolution step on `pivot` between the clauses at `reason_idx` and at
    /// `conflict_idx`, whose resolvent gets the next identifier.
    pub open spec fn step(self, pivot: isize, reason_idx: int, conflict_idx: int) -> ResolutionStepView {
        let reason = self.all_clauses()[reason_idx];
        let conflict = self.all_clauses()[conflict_idx];
        ResolutionStepView {
            reason_id: reason.id,
            reason: reason.literals,
            reason_is_original: reason_idx < self.formula.clauses.len(),
            conflict_id: conflict.id,
            conflict: conflict.literals,
            conflict_is_original: conflict_idx < self.formula.clauses.len(),
            pivot: pivot,
            resolvent_id: (self.last_learned_id + 1) as usize,
            resolvent: resolvent_of(reason.literals, conflict.literals, pivot),
        }
    }

    /// The solver after conflict analysis: the propagations of the level are undone, the
    /// step is recorded as a failure if its resolvent is empty and as a derivation
    /// otherwise, both antecedents are marked used, and the identifier is issued.
    pub open spec fn explained(self, pivot: isize, reason_idx: int, conflict_idx: int) -> SolverView {
        let step = self.step(pivot, reason_idx, conflict_idx);
        let event = if step.resolvent.len() == 0 {
            ProofEventView::Fail { step: step }
        } else {
            ProofEventView::Explain { step: step }
        };
        let marked = self.unwound().logged(event).with_used(reason_idx).with_used(conflict_idx);
        SolverView { last_learned_id: (self.last_learned_id + 1) as usize, ..marked }
    }

    /// The solver after a forget.
    pub open spec fn forgotten(self) -> SolverView {
        let n = self.learned.len() as int;
        let half = n / 2;
        let mean = mean_length(self.learned);
        let rest = kept(self.learned, half, mean, n);
        SolverView {
            learned: rest,
            max_learned: grown_limit(self.max_learned),
            stats: StatsView {
                clauses_forgotten: (self.stats.clauses_forgotten + (n - rest.len())) as usize,
                ..self.stats
            },
            ..self
        }.logged(ProofEventView::Forget { clause_ids: dropped_ids(self.learned, half, mean, n) })
    }

    /// The literals that the fallback of the decision counts: the watched literals of
    /// the clauses not marked satisfied, original clauses first.
    pub open spec fn open_watches(self) -> Seq<isize> {
        watched_literals(self.formula.clauses) + watched_literals(self.learned)
    }

    /// The literal to decide next: the one that the scores pick, or, when they pick none,
    /// the one that the open watches pick by majority; `0` when neither picks any.
    pub open spec fn decision(self) -> isize {
        if picked(self.scores, self.model) != 0 {
            picked(self.scores, self.model)
        } else {
            majority(self.open_watches())
        }
    }

    /// The clause that conflict analysis derives on `pivot` from the clauses at
    /// `reason_idx` and at `conflict_idx`: their resolvent, under the next identifier.
    pub open spec fn resolvent_clause(self, pivot: isize, reason_idx: int, conflict_idx: int) -> ClauseView {
        let lits = self.step(pivot, reason_idx, conflict_idx).resolvent;
        ClauseView {
            id: (self.last_learned_id + 1) as usize,
            literals: lits,
            satisfied: None,
            tautology: crate::normal::has_complements(lits),
            watches: crate::clause::fresh_watches(lits.len()),
            used: false,
        }
    }

    /// The solver after the first half of handling a conflict on the clause at
    /// `conflict_idx`: the scores are bumped, the conflict is recorded, and the conflict
    /// is analysed.
    pub open spec fn analyzed(self, pivot: isize, reason_idx: int, conflict_idx: int) -> SolverView {
        self.bumped_on(conflict_idx).logged(
            ProofEventView::Conflict {
                clause_id: self.all_clauses()[conflict_idx].id,
                literals: self.all_clauses()[conflict_idx].literals,
            },
        ).explained(pivot, reason_idx, conflict_idx)
    }

    /// The solver after learning the clause `c`: `c` joins the learned clauses unless a
    /// clause with its literals is held already, the event is recorded, and the clause is
    /// counted.
    pub open spec fn learned_with(self, c: ClauseView) -> SolverView {
        let added = SolverView {
            learned: if holds_clause(self.all_clauses(), c.literals) {
                self.learned
            } else {
                self.learned.push(c)
            },
            ..self
        };
        let recorded = added.logged(
            ProofEventView::Learn { clause_id: c.id, literals: c.literals },
        );
        SolverView {
            stats: StatsView {
                clauses_learned: (self.stats.clauses_learned + 1) as usize,
                ..self.stats
            },
            ..recorded
        }
    }

    /// The solver after a forget, if it holds more learned clauses than its limit allows.
    pub open spec fn trimmed(self) -> SolverView {
        if self.learned.len() > self.max_learned {
            self.forgotten()
        } else {
            self
        }
    }

    /// The solver after a conflict that does not refute the formula: the conflict is
    /// analysed, the derived clause is learned, clauses are forgotten if there are too
    /// many, and the search backjumps.
    pub open spec fn resolved(self, pivot: isize, reason_idx: int, conflict_idx: int) -> SolverView {
        self.analyzed(pivot, reason_idx, conflict_idx).learned_with(
            self.resolvent_clause(pivot, reason_idx, conflict_idx),
        ).trimmed().backjumped()
    }

    /// The solver at the start of a search: at the ground level with an empty trail, the
    /// assignment sized to the declared number of variables, the scores at zero, the
    /// limit on learned clauses at the number of original clauses, the identifiers of
    /// derived clauses starting behind that number and behind every identifier that a
    /// learned clause bears, and nothing recorded.
    pub open spec fn started(self) -> SolverView {
        SolverView {
            level: 0,
            trail: seq![DecisionView { decided: 0, propagated: Seq::empty() }],
            model: Seq::new(
                self.size() as nat,
                |i: int|
                    if i < self.model.len() {
                        self.model[i]
                    } else {
                        ModelValue::Unknown
                    },
            ),
            scores: Seq::new(self.size() as nat, |i: int| (0u64, 0u64)),
            last_learned_id: top_id(
                self.learned,
                self.learned.len() as int,
                self.formula.clauses.len() as usize,
            ),
            max_learned: self.formula.clauses.len() as usize,
            events: Seq::empty(),
            overwrote: false,
            ..self
        }
    }

    /// The number of steps that a search may take: as many as every counter of the
    /// solver can still count.
    pub open spec fn budget(self) -> nat {
        let held = self.formula.clauses.len() + self.learned.len();
        let dropped = self.stats.clauses_forgotten + self.learned.len();
        let a = if held > usize::MAX {
            usize::MAX as int
        } else {
            held as int
        };
        let c = if dropped > usize::MAX {
            usize::MAX as int
        } else {
            dropped as int
        };
        let ab = if a > self.stats.clauses_learned {
            a
        } else {
            self.stats.clauses_learned as int
        };
        let abc = if ab > c {
            ab
        } else {
            c
        };
        let top = top_id(
            self.learned,
            self.learned.len() as int,
            self.formula.clauses.len() as usize,
        );
        let used = if abc > top {
            abc
        } else {
            top as int
        };
        (usize::MAX - used) as nat
    }

    /// One step of a search that is due a decision: nothing left to decide ends the search
    /// satisfiable; any other decision opens a level, and the search looks at the learned
    /// clauses next unless every clause is then satisfied.
    pub open spec fn decided(self) -> (SolverView, Phase, bool, Option<SAT>) {
        let literal = self.decision();
        if literal == 0 {
            (self, Phase::Deciding, false, Some(SAT::Satisfiable))
        } else if self.opened(literal).check_verdict().0 == SAT::Satisfiable {
            (self.opened(literal).checked(), Phase::Learned, false, Some(SAT::Satisfiable))
        } else {
            (self.opened(literal).checked(), Phase::Learned, false, None)
        }
    }

    /// One step of a search that propagates `literal` by the clause at `idx`: the literal
    /// is assigned and every clause is evaluated. All satisfied ends the search
    /// satisfiable; a falsified clause is a conflict, which ends the search unsatisfiable
    /// if its analysis derives the empty clause, and else is resolved, after which the
    /// search looks at the learned clauses next; otherwise the search goes on in the same
    /// population.
    pub open spec fn propagated(self, phase: Phase, literal: isize, idx: int) -> (
        SolverView,
        Phase,
        bool,
        Option<SAT>,
    ) {
        let verdict = self.extended(literal, idx as usize).check_verdict();
        let after = self.extended(literal, idx as usize).checked();
        if verdict.0 == SAT::Satisfiable {
            (after, phase, true, Some(SAT::Satisfiable))
        } else if verdict.0 == SAT::Unknown {
            (after, phase, true, None)
        } else if after.step(literal, idx, verdict.1).resolvent.len() == 0 {
            (after.analyzed(literal, idx, verdict.1), phase, true, Some(SAT::Unsatisfiable))
        } else {
            (after.resolved(literal, idx, verdict.1), Phase::Learned, false, None)
        }
    }

    /// The clause that propagates next in the population that `phase` names, with its
    /// literal.
    pub open spec fn next(self, phase: Phase) -> Option<(isize, int)> {
        if phase == Phase::Learned {
            next_unit(self.learned, self.model, self.formula.clauses.len() as int)
        } else {
            next_unit(self.formula.clauses, self.model, 0)
        }
    }

    /// One step of a search: the state it leads to, where the search stands then,
    /// whether a literal was assigned since the search last turned to the learned
    /// clauses, and the answer if the step ends the search.
    ///
    /// A search that is propagating looks at one population of clauses for the first
    /// clause that propagates. If there is none, it turns from the learned clauses to the
    /// original ones, from the original ones back to the learned ones if a literal was
    /// assigned since it last turned to them, and to a decision otherwise.
    pub open spec fn advanced(self, phase: Phase, changed: bool) -> (
        SolverView,
        Phase,
        bool,
        Option<SAT>,
    ) {
        if phase == Phase::Deciding {
            self.decided()
        } else {
            match self.next(phase) {
                Some((literal, idx)) => self.propagated(phase, literal, idx),
                None => if phase == Phase::Learned {
                    (self, Phase::Originals, changed, None)
                } else if changed {
                    (self, Phase::Learned, false, None)
                } else {
                    (self, Phase::Deciding, changed, None)
                },
            }
        }
    }

    /// The search from this state on, for at most `fuel` steps: the state it ends in and
    /// its answer, which is unknown when the steps run out.
    pub open spec fn run(self, phase: Phase, changed: bool, fuel: nat) -> (SolverView, SAT)
        decreases fuel,
    {
        if fuel == 0 {
            (self, SAT::Unknown)
        } else {
            let step = self.advanced(phase, changed);
            match step.3 {
                Some(answer) => (step.0, answer),
                None => step.0.run(step.1, step.2, (fuel - 1) as nat),
            }
        }
    }

    /// What `solve` answers and the state it leaves: an error and no change when the
    /// formula holds no clause, and else what the search from the start gives within its
    /// budget.
    pub open spec fn solved(self) -> (SolverView, Result<SAT, ()>) {
        if self.formula.clauses.len() == 0 {
            (self, Err(()))
        } else {
            let end = self.started().run(Phase::Learned, false, self.budget());
            (end.0, Ok(end.1))
        }
    }

    /// The solver after assigning `literal` at the current level as propagated by the
    /// clause at `reason`, before the evaluation that follows.
    pub open spec fn extended(self, literal: isize, reason: usize) -> SolverView {
        SolverView {
            model: self.model.update(lit_var(literal) - 1, polarity_of(literal)),
            trail: self.trail.update(
                self.level as int,
                DecisionView {
                    decided: self.trail[self.level as int].decided,
                    propagated: self.trail[self.level as int].propagated.push((literal, reason)),
                },
            ),
            overwrote: self.overwrote || self.model[lit_var(literal) - 1] != ModelValue::Unknown,
            ..self
        }.logged(ProofEventView::Propagate { literal: literal, reason: reason })
    }

    /// The solver after deciding `literal`, which opens a level, before the evaluation
    /// that follows.
    pub open spec fn opened(self, literal: isize) -> SolverView {
        SolverView {
            model: self.model.update(lit_var(literal) - 1, polarity_of(literal)),
            level: (self.level + 1) as usize,
            trail: self.trail.push(DecisionView { decided: literal, propagated: Seq::empty() }),
            overwrote: self.overwrote || self.model[lit_var(literal) - 1] != ModelValue::Unknown,
            ..self
        }.logged(ProofEventView::Decide { literal: literal })
    }

    /// The sink switches and the formula's counts and literals are those of `other`.
    pub open spec fn same_problem(self, other: SolverView) -> bool {
        &&& self.dot == other.dot
        &&& self.txt == other.txt
        &&& self.tex == other.tex
        &&& self.formula.num_variables == other.formula.num_variables
        &&& self.formula.num_clauses == other.formula.num_clauses
        &&& self.formula.last_id == other.formula.last_id
        &&& same_clauses(other.formula.clauses, self.formula.clauses)
    }

    /// Every mark is justified: the assignment holds what the trail names, no literal
    /// stands on the trail twice, and every clause marked satisfied at a level holds a
    /// literal that the trail names at that level or below.
    pub open spec fn sound(self) -> bool {
        sound(self.formula.clauses, self.learned, self.model, self.level, self.trail)
    }

    /// Every mark is justified, unless the search assigned a variable that already had a
    /// value.
    pub open spec fn trusted(self) -> bool {
        self.overwrote || self.sound()
    }

    /// Nothing is left of an earlier search: no variable is assigned, no clause is
    /// learned, and no original clause is marked satisfied at a level or has moved its
    /// watches.
    pub open spec fn rested(self) -> bool {
        &&& forall|v: int| 0 <= v < self.model.len() ==> #[trigger] self.model[v] == ModelValue::Unknown
        &&& forall|i: int|
            0 <= i < self.formula.clauses.len() ==> (#[trigger] self.formula.clauses[i]).satisfied is None
        &&& all_fresh(self.formula.clauses)
        &&& self.learned.len() == 0
    }

    /// Every total assignment that satisfies the original clauses makes a literal of
    /// `lits` true.
    pub open spec fn yields(self, lits: Seq<isize>) -> bool {
        forall|a: Seq<bool>|
            a.len() == self.size() && #[trigger] models_all(a, self.formula.clauses) ==> models(
                a,
                lits,
            )
    }

    /// The clause at `idx` is found falsified: it is not marked satisfied, its watches have
    /// met, and the assignment falsifies its watched literal.
    pub open spec fn conflicting(self, idx: int) -> bool {
        let c = self.all_clauses()[idx];
        &&& 0 <= idx < self.all_clauses().len()
        &&& !c.marked()
        &&& c.unit()
        &&& lit_value(self.model, c.literals[c.watches.0 as int]) == SAT::Unsatisfiable
    }

    /// No total assignment satisfies the original clauses.
    pub open spec fn refuted(self) -> bool {
        unsatisfiable(self.formula.clauses, self.size())
    }

    /// The assignment makes a literal true in every original clause that is no tautology.
    pub open spec fn satisfies_formula(self) -> bool {
        satisfies_each(self.formula.clauses, self.model)
    }

    /// Every clause, original or learned, is marked satisfied.
    pub open spec fn all_marked(self) -> bool {
        all_marked(self.formula.clauses) && all_marked(self.learned)
    }

    /// No clause is marked satisfied at a level above the current one.
    pub open spec fn marks_in_step(self) -> bool {
        marks_below(self.formula.clauses, self.level) && marks_below(self.learned, self.level)
    }
}

/// The solver that nothing has been done with, but for the three sink switches.
pub open spec fn fresh_solver(dot: bool, txt: bool, tex: bool) -> SolverView {
    SolverView {
        formula: FormulaView {
            clauses: Seq::empty(),
            num_variables: 0,
            num_clauses: 0,
            last_id: 0,
        },
        learned: Seq::empty(),
        last_learned_id: 0,
        max_learned: 0,
        model: Seq::empty(),
        level: 0,
        trail: Seq::empty(),
        scores: Seq::empty(),
        stats: StatsView {
            clauses_learned: 0,
            clauses_forgotten: 0,
            virtual_memory: 0,
            physical_memory: 0,
        },
        dot: dot,
        txt: txt,
        tex: tex,
        events: Seq::empty(),
        overwrote: false,
    }
}

/// Two clause lists of one length whose clauses agree, place by place, in literals and
/// identifier.
pub open spec fn same_clauses(a: Seq<ClauseView>, b: Seq<ClauseView>) -> bool {
    &&& a.len() == b.len()
    &&& forall|i: int|
        0 <= i < a.len() ==> (#[trigger] a[i]).literals == b[i].literals && a[i].id == b[i].id
            && a[i].tautology == b[i].tautology
}

} // verus!
