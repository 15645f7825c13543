use vstd::prelude::*;
use crate::clause::{Clause, ClauseView};
use crate::clause_tools::{clauses_are_satisfied, get_next_unit_clause_literal, propagates, views};
use crate::decision::{Decision, DecisionView};
use crate::formula::{collect_watched_literals, reset_clauses};
use crate::justification::{
    lemma_entails_same, lemma_extended_agrees, lemma_grow_watched, lemma_justified_carries,
    lemma_kept_entailed, lemma_kept_justified, lemma_kept_watched, lemma_opened_agrees,
    lemma_pass_justified, lemma_pass_watched, models, models_all, sound,
};
use crate::literal::{lit_in_range, lit_var, lits_in_range, magnitude};
use crate::model::lit_value;
use crate::proof_log::{
    copy_trail, ends_in_failure, log_valid, ProofEvent, ProofEventView, Record, RecordView,
    ResolutionStep,
};
use crate::sat::SAT;
use crate::vsids::{bump, bumped, pick, pick_by_majority};
use crate::watch::passed_falsified;
use crate::state::{
    ids_below, top_id,
    Phase, SolverView, all_marked, clause_ids, cleared, dropped_ids, grown_limit, holds_clause,
    kept, marks_below, mean_length, same_clauses, total_length, trail_in_range,
};
use crate::invariants::{
    lemma_next_id_unused,
    lemma_all_same, lemma_clause_at, lemma_cleared_len, lemma_conflict_falsified,
    lemma_explained_same, lemma_kept, lemma_kept_marks, lemma_no_watch_all_marked,
    lemma_pass_conflict, lemma_pass_marked, lemma_pass_same, lemma_popped_sound, lemma_reset_same,
    lemma_resolvent_in_range, lemma_resolvent_yielded, lemma_same_clauses, lemma_same_problem,
    lemma_trail_emptied, lemma_trail_extended, lemma_trail_opened, lemma_unwound_sound,
    lemma_unwound_step, lemma_watched_in_range, lemma_with_used_len, lemma_yields_nothing,
    lemma_yields_same,
};
use super::Solver;

verus! {

impl Solver {
    /// Whether events are recorded.
    pub(super) fn is_recording(&self) -> (r: bool)
        ensures
            r == self@.recording(),
    {
        self.print_dot_proof || self.print_txt_proof || self.print_tex_proof
    }

    /// Records `event`, with the trail and the learned identifiers beside it when the
    /// typeset sink is enabled.
    pub(super) fn log(&mut self, event: ProofEvent)
        requires
            event@.valid(),
        ensures
            final(self)@ == (SolverView {
                events: old(self)@.events.push(
                    RecordView {
                        event: event@,
                        trail: if old(self)@.tex {
                            old(self)@.trail
                        } else {
                            Seq::empty()
                        },
                        learned_ids: if old(self)@.tex {
                            clause_ids(old(self)@.learned)
                        } else {
                            Seq::empty()
                        },
                    },
                ),
                ..old(self)@
            }),
            log_valid(old(self)@.events) ==> log_valid(final(self)@.events),
    {
        let ghost before = self@.events;
        let mut trail: Vec<crate::proof_log::TrailLevel> = Vec::new();
        let mut learned_ids: Vec<usize> = Vec::new();
        if self.print_tex_proof {
            trail = copy_trail(&self.decisions);
            let mut i: usize = 0;
            while i < self.learned_clauses.len()
                invariant
                    0 <= i <= self.learned_clauses@.len(),
                    learned_ids@ == clause_ids(views(self.learned_clauses@)).take(i as int),
                decreases self.learned_clauses@.len() - i,
            {
                learned_ids.push(self.learned_clauses[i].get_id());
                assert(clause_ids(views(self.learned_clauses@)).take(i + 1) =~= clause_ids(
                    views(self.learned_clauses@),
                ).take(i as int).push(views(self.learned_clauses@)[i as int].id));
                i += 1;
            }
            assert(clause_ids(views(self.learned_clauses@)).take(self.learned_clauses@.len() as int)
                =~= clause_ids(views(self.learned_clauses@)));
        } else {
            assert(crate::proof_log::level_views(trail@) =~= Seq::<DecisionView>::empty());
        }
        let record = Record { event: event, trail: trail, learned_ids: learned_ids };
        self.events.push(record);
        assert(self@.events =~= before.push(record@));
    }

    /// The clause at `idx`, original or learned.
    pub(super) fn get_clause(&self, idx: usize) -> (r: &Clause)
        requires
            idx < self@.all_clauses().len(),
        ensures
            r@ == self@.all_clauses()[idx as int],
    {
        if idx < self.formula.clauses_len() {
            self.formula.get_clause(idx)
        } else {
            let r = &self.learned_clauses[idx - self.formula.clauses_len()];
            assert(r@ == self@.learned[idx - self@.formula.clauses.len()]);
            r
        }
    }

    /// Evaluates every clause, original then learned, under the current assignment.
    pub(super) fn check_if_satisfied(&mut self) -> (r: (SAT, usize))
        requires
            old(self)@.searching(),
        ensures
            final(self)@ == old(self)@.checked(),
            (r.0, r.1 as int) == old(self)@.check_verdict(),
            final(self)@.searching(),
            old(self)@.marks_in_step() ==> final(self)@.marks_in_step(),
            old(self)@.trusted() ==> final(self)@.trusted(),
            r.0 == SAT::Satisfiable ==> final(self)@.all_marked(),
            r.0 == SAT::Unsatisfiable ==> r.1 < final(self)@.all_clauses().len()
                && !final(self)@.all_clauses()[r.1 as int].tautology,
            r.0 == SAT::Unsatisfiable ==> final(self)@.conflicting(r.1 as int),
    {
        let ghost before = self@;
        let level = self.decision_level;
        let total = self.formula.clauses_len();
        let (satisfied, conflict_clause) = clauses_are_satisfied(
            self.formula.get_mut_clauses(),
            &self.model,
            level,
            None,
        );
        let (satisfied2, conflict_clause2) = clauses_are_satisfied(
            &mut self.learned_clauses,
            &self.model,
            level,
            Some(total),
        );
        proof {
            let m = before.model;
            lemma_pass_same(before.formula.clauses, m, level);
            lemma_pass_same(before.learned, m, level);
            lemma_same_clauses(
                before.formula.clauses,
                before.learned,
                self@.formula.clauses,
                self@.learned,
                before.size(),
            );
            crate::clause_tools::lemma_first_falsified(before.formula.clauses, m);
            crate::clause_tools::lemma_first_falsified(before.learned, m);
            lemma_pass_marked(before.formula.clauses, m, level);
            lemma_pass_marked(before.learned, m, level);
            if before.sound() {
                lemma_pass_justified(before.formula.clauses, m, level, before.trail);
                lemma_pass_justified(before.learned, m, level, before.trail);
                lemma_pass_watched(before.formula.clauses, m, level);
                lemma_pass_watched(before.learned, m, level);
                lemma_entails_same(
                    before.formula.clauses,
                    before.learned,
                    self@.formula.clauses,
                    self@.learned,
                    before.size(),
                );
            }
            lemma_pass_conflict(before.formula.clauses, m, level);
            lemma_pass_conflict(before.learned, m, level);
        }
        if satisfied == SAT::Unsatisfiable {
            proof {
                lemma_clause_at(self@, conflict_clause as int);
            }
            return (satisfied, conflict_clause);
        }
        if satisfied2 == SAT::Unsatisfiable {
            proof {
                lemma_clause_at(self@, conflict_clause2 as int);
            }
            return (satisfied2, conflict_clause2);
        }
        (satisfied + satisfied2, 0)
    }

    /// Undoes the propagations of the current level.
    pub(super) fn remove_latest_propagated_literals(&mut self)
        requires
            old(self)@.searching(),
        ensures
            final(self)@ == old(self)@.unwound(),
            final(self)@.searching(),
            old(self)@.marks_in_step() ==> final(self)@.marks_in_step(),
            old(self)@.trusted() ==> final(self)@.trusted(),
    {
        let ghost before = self@;
        let level = self.decision_level;
        let ghost props = before.trail[level as int].propagated;
        let count = self.decisions[level].get_propagated_literals().len();
        let mut i: usize = 0;
        assert(props.take(0) =~= Seq::<(isize, usize)>::empty());
        while i < count
            invariant
                0 <= i <= count,
                level == before.level,
                before.searching(),
                count == props.len(),
                props == before.trail[level as int].propagated,
                self@ == (SolverView { model: self@.model, ..before }),
                self@.model == cleared(before.model, props.take(i as int)),
                self@.model.len() == before.model.len(),
            decreases count - i,
        {
            let literal = self.decisions[level].get_propagated_literals()[i].0;
            proof {
                assert(props.take(i + 1).drop_last() =~= props.take(i as int));
                assert(lit_in_range(before.trail[level as int].propagated[i as int].0, before.size()));
            }
            self.model.remove(literal);
            i += 1;
        }
        assert(props.take(count as int) =~= props);
        let ghost trail = self@.trail;
        self.decisions[level].clear_propagated_literals();
        assert(self@.trail =~= trail.update(
            level as int,
            DecisionView { decided: trail[level as int].decided, propagated: Seq::empty() },
        ));
        assert(self@.trail[0].decided == 0);
        proof {
            lemma_trail_emptied(trail, level as int, before.size());
        }
        reset_clauses(self.formula.get_mut_clauses(), level);
        reset_clauses(&mut self.learned_clauses, level);
        proof {
            lemma_reset_same(before.formula.clauses, level);
            lemma_reset_same(before.learned, level);
            lemma_same_clauses(
                before.formula.clauses,
                before.learned,
                self@.formula.clauses,
                self@.learned,
                before.size(),
            );
            if before.sound() {
                lemma_unwound_sound(before);
            }
        }
    }

    /// Bumps the scores on the clause at `conflict_clause_idx`.
    pub(super) fn update_vsids(&mut self, conflict_clause_idx: usize)
        requires
            old(self)@.searching(),
            conflict_clause_idx < old(self)@.all_clauses().len(),
        ensures
            final(self)@ == old(self)@.bumped_on(conflict_clause_idx as int),
            final(self)@.searching(),
            old(self)@.trusted() ==> final(self)@.trusted(),
    {
        let ghost all = self@.all_clauses();
        proof {
            let c = all[conflict_clause_idx as int];
            if conflict_clause_idx < self@.formula.clauses.len() {
                assert(c == self@.formula.clauses[conflict_clause_idx as int]);
            } else {
                assert(c == self@.learned[conflict_clause_idx - self@.formula.clauses.len()]);
            }
            assert(c.wf() && lits_in_range(c.literals, self@.size()));
        }
        if conflict_clause_idx < self.formula.clauses_len() {
            let literals = self.formula.get_clause(conflict_clause_idx).iter_literals();
            bump(&mut self.vsids, literals);
        } else {
            let position = conflict_clause_idx - self.formula.clauses_len();
            let literals = self.learned_clauses[position].iter_literals();
            assert(literals@ == self@.learned[position as int].literals);
            bump(&mut self.vsids, literals);
        }
        proof {
            crate::vsids::lemma_bumped_bounded(old(self)@.scores, all[conflict_clause_idx as int].literals);
        }
    }
}

impl Solver {
    /// The clause at `idx`, original or learned, to be changed in place.
    pub(super) fn get_mut_clause(&mut self, idx: usize) -> (r: &mut Clause)
        requires
            idx < old(self)@.all_clauses().len(),
        ensures
            r@ == old(self)@.all_clauses()[idx as int],
            final(self)@ == old(self)@.with_clause(idx as int, final(r)@),
    {
        let total = self.formula.clauses_len();
        if idx < total {
            self.formula.get_mut_clause(idx)
        } else {
            let ghost before = views(self.learned_clauses@);
            let r = &mut self.learned_clauses[idx - total];
            proof {
                assert(views(after_borrow(self.learned_clauses)@) =~= before.update(
                    idx - total,
                    final(r)@,
                ));
            }
            r
        }
    }

    /// Marks the clause at `idx` as used.
    pub(super) fn mark_used(&mut self, idx: usize)
        requires
            old(self)@.searching(),
            idx < old(self)@.all_clauses().len(),
        ensures
            final(self)@ == old(self)@.with_used(idx as int),
            final(self)@.searching(),
            old(self)@.marks_in_step() ==> final(self)@.marks_in_step(),
            old(self)@.trusted() ==> final(self)@.trusted(),
            final(self)@.overwrote == old(self)@.overwrote,
    {
        let ghost before = self@;
        proof {
            lemma_clause_at(before, idx as int);
        }
        self.get_mut_clause(idx).mark_used();
        proof {
            assert(same_clauses(before.formula.clauses, self@.formula.clauses));
            assert(same_clauses(before.learned, self@.learned));
            assert forall|i: int| 0 <= i < self@.formula.clauses.len() implies (
            #[trigger] self@.formula.clauses[i]).wf() by {
                assert(before.formula.clauses[i].wf());
            }
            assert forall|i: int| 0 <= i < self@.learned.len() implies (#[trigger] self@.learned[i]).wf() by {
                assert(before.learned[i].wf());
            }
            lemma_same_clauses(
                before.formula.clauses,
                before.learned,
                self@.formula.clauses,
                self@.learned,
                before.size(),
            );
            if before.marks_in_step() {
                assert forall|i: int|
                    0 <= i < self@.formula.clauses.len() && (
                    #[trigger] self@.formula.clauses[i]).satisfied is Some implies self@.formula.clauses[i].satisfied->0
                    <= self@.level by {
                    assert(before.formula.clauses[i].satisfied == self@.formula.clauses[i].satisfied);
                }
                assert forall|i: int|
                    0 <= i < self@.learned.len() && (#[trigger] self@.learned[i]).satisfied is Some implies self@.learned[i].satisfied->0
                    <= self@.level by {
                    assert(before.learned[i].satisfied == self@.learned[i].satisfied);
                }
            }
            if before.sound() {
                assert forall|i: int| 0 <= i < before.formula.clauses.len() implies (
                #[trigger] self@.formula.clauses[i]).satisfied
                    == before.formula.clauses[i].satisfied by {}
                assert forall|i: int| 0 <= i < before.learned.len() implies (
                #[trigger] self@.learned[i]).satisfied == before.learned[i].satisfied by {}
                lemma_justified_carries(
                    before.formula.clauses,
                    self@.formula.clauses,
                    before.trail,
                    before.trail,
                );
                lemma_justified_carries(before.learned, self@.learned, before.trail, before.trail);
                lemma_entails_same(
                    before.formula.clauses,
                    before.learned,
                    self@.formula.clauses,
                    self@.learned,
                    before.size(),
                );
                assert forall|i: int|
                    0 <= i < self@.formula.clauses.len() && !(
                    #[trigger] self@.formula.clauses[i]).marked() implies passed_falsified(
                    self@.formula.clauses[i].literals,
                    self@.model,
                    self@.formula.clauses[i].watches.0 as int,
                    self@.formula.clauses[i].watches.1 as int,
                ) by {
                    assert(!before.formula.clauses[i].marked());
                }
                assert forall|i: int|
                    0 <= i < self@.learned.len() && !(#[trigger] self@.learned[i]).marked() implies passed_falsified(
                    self@.learned[i].literals,
                    self@.model,
                    self@.learned[i].watches.0 as int,
                    self@.learned[i].watches.1 as int,
                ) by {
                    assert(!before.learned[i].marked());
                }
            }
        }
    }

    /// The resolvent on `pivot` of the clauses at `clause_idx` and `conflict_clause_idx`,
    /// under the next identifier.
    pub(super) fn resolve(&self, pivot: isize, clause_idx: usize, conflict_clause_idx: usize) -> (r: Clause)
        requires
            self@.searching(),
            clause_idx < self@.all_clauses().len(),
            conflict_clause_idx < self@.all_clauses().len(),
            lit_in_range(pivot, self@.size()),
            self@.last_learned_id < usize::MAX,
        ensures
            r@.wf(),
            r@.literals == self@.step(pivot, clause_idx as int, conflict_clause_idx as int).resolvent,
            r@.id == self@.last_learned_id + 1,
            r@.satisfied is None,
            r@.watches == crate::clause::fresh_watches(r@.literals.len()),
            r@ == self@.resolvent_clause(pivot, clause_idx as int, conflict_clause_idx as int),
            self@.unused_id(r@.id),
            lits_in_range(r@.literals, self@.size()),
    {
        proof {
            lemma_next_id_unused(self@);
        }
        let clause = self.get_clause(clause_idx);
        let conflict_clause = self.get_clause(conflict_clause_idx);
        proof {
            lemma_clause_at(self@, clause_idx as int);
            lemma_clause_at(self@, conflict_clause_idx as int);
            lemma_resolvent_in_range(
                clause@.literals,
                conflict_clause@.literals,
                pivot,
                self@.size(),
            );
        }
        let mut learned_clause = clause.sum(conflict_clause);
        learned_clause.remove_literal(pivot);
        learned_clause.remove_literal(-pivot);
        learned_clause.set_id(self.current_learned_clause_id + 1);
        learned_clause
    }

    /// Records the resolution step that gave `resolvent`, if events are recorded.
    pub(super) fn record_step(
        &mut self,
        pivot: isize,
        clause_idx: usize,
        conflict_clause_idx: usize,
        resolvent: &Clause,
    )
        requires
            old(self)@.searching(),
            clause_idx < old(self)@.all_clauses().len(),
            conflict_clause_idx < old(self)@.all_clauses().len(),
            old(self)@.all_clauses()[clause_idx as int].literals.contains(pivot),
            resolvent@.literals == old(self)@.step(
                pivot,
                clause_idx as int,
                conflict_clause_idx as int,
            ).resolvent,
            resolvent@.id == old(self)@.last_learned_id + 1,
        ensures
            final(self)@ == old(self)@.logged(
                if resolvent@.literals.len() == 0 {
                    ProofEventView::Fail {
                        step: old(self)@.step(pivot, clause_idx as int, conflict_clause_idx as int),
                    }
                } else {
                    ProofEventView::Explain {
                        step: old(self)@.step(pivot, clause_idx as int, conflict_clause_idx as int),
                    }
                },
            ),
            final(self)@.searching(),
            old(self)@.trusted() ==> final(self)@.trusted(),
            final(self)@.recording() && resolvent@.literals.len() == 0 ==> ends_in_failure(
                final(self)@.events,
            ),
    {
        if self.is_recording() {
            let ghost step = self@.step(pivot, clause_idx as int, conflict_clause_idx as int);
            let total = self.formula.clauses_len();
            let record = {
                let clause = self.get_clause(clause_idx);
                let conflict_clause = self.get_clause(conflict_clause_idx);
                ResolutionStep {
                    reason_id: clause.get_id(),
                    reason: clause.iter_literals().clone(),
                    reason_is_original: clause_idx < total,
                    conflict_id: conflict_clause.get_id(),
                    conflict: conflict_clause.iter_literals().clone(),
                    conflict_is_original: conflict_clause_idx < total,
                    pivot: pivot,
                    resolvent_id: resolvent.get_id(),
                    resolvent: resolvent.iter_literals().clone(),
                }
            };
            assert(record@ == step);
            if resolvent.literals_len() == 0 {
                self.log(ProofEvent::Fail { step: record });
            } else {
                self.log(ProofEvent::Explain { step: record });
            }
        }
    }

    /// Conflict analysis: undoes the propagations of the level and resolves the clause
    /// that propagated `conflict_literal` with the clause that the propagation falsified.
    pub(super) fn explain(&mut self, conflict_literal: isize, clause_idx: usize, conflict_clause_idx: usize) -> (r:
        Clause)
        requires
            old(self)@.searching(),
            clause_idx < old(self)@.all_clauses().len(),
            conflict_clause_idx < old(self)@.all_clauses().len(),
            lit_in_range(conflict_literal, old(self)@.size()),
            old(self)@.all_clauses()[clause_idx as int].literals.contains(conflict_literal),
            old(self)@.last_learned_id < usize::MAX,
        ensures
            final(self)@ == old(self)@.explained(
                conflict_literal,
                clause_idx as int,
                conflict_clause_idx as int,
            ),
            r@.wf(),
            r@.literals == old(self)@.step(
                conflict_literal,
                clause_idx as int,
                conflict_clause_idx as int,
            ).resolvent,
            r@.id == old(self)@.last_learned_id + 1,
            old(self)@.unused_id(r@.id),
            final(self)@.unused_id(r@.id),
            r@.satisfied is None,
            r@.watches == crate::clause::fresh_watches(r@.literals.len()),
            r@ == old(self)@.resolvent_clause(
                conflict_literal,
                clause_idx as int,
                conflict_clause_idx as int,
            ),
            lits_in_range(r@.literals, old(self)@.size()),
            final(self)@.searching(),
            old(self)@.marks_in_step() ==> final(self)@.marks_in_step(),
            old(self)@.trusted() ==> final(self)@.trusted(),
            final(self)@.overwrote == old(self)@.overwrote,
            final(self)@.recording() && r@.literals.len() == 0 ==> ends_in_failure(final(self)@.events),
    {
        let ghost before = self@;
        self.remove_latest_propagated_literals();
        proof {
            lemma_unwound_step(before, conflict_literal, clause_idx as int, conflict_clause_idx as int);
        }
        let learned_clause = self.resolve(conflict_literal, clause_idx, conflict_clause_idx);
        self.record_step(conflict_literal, clause_idx, conflict_clause_idx, &learned_clause);
        let ghost logged = self@;
        self.mark_used(clause_idx);
        proof {
            lemma_with_used_len(logged, clause_idx as int);
        }
        self.mark_used(conflict_clause_idx);
        self.current_learned_clause_id = self.current_learned_clause_id + 1;
        learned_clause
    }

    /// Drops the learned clauses in the lower half of the list that are longer than the
    /// mean, and raises the limit on learned clauses.
    pub(super) fn forget(&mut self)
        requires
            old(self)@.searching(),
            old(self)@.learned.len() > 0,
            old(self)@.stats.clauses_forgotten + old(self)@.learned.len() <= usize::MAX,
        ensures
            final(self)@ == old(self)@.forgotten(),
            final(self)@.searching(),
            final(self)@.learned.len() <= old(self)@.learned.len(),
            final(self)@.stats.clauses_forgotten + final(self)@.learned.len() == old(
                self,
            )@.stats.clauses_forgotten + old(self)@.learned.len(),
            old(self)@.marks_in_step() ==> final(self)@.marks_in_step(),
            old(self)@.trusted() ==> final(self)@.trusted(),
            final(self)@.overwrote == old(self)@.overwrote,
    {
        let ghost before = self@;
        let ghost cs = before.learned;
        let count = self.learned_clauses.len();
        let mut total: u128 = 0;
        let mut i: usize = 0;
        while i < count
            invariant
                0 <= i <= count,
                count == cs.len(),
                cs == views(self.learned_clauses@),
                total == total_length(cs, i as int),
                total <= i * usize::MAX,
                forall|k: int| 0 <= k < cs.len() ==> (#[trigger] cs[k]).wf(),
            decreases count - i,
        {
            let len = self.learned_clauses[i].literals_len();
            assert(len == cs[i as int].literals.len());
            assert((i + 1) * usize::MAX == i * usize::MAX + usize::MAX) by (nonlinear_arith);
            assert(i * usize::MAX + usize::MAX <= 0xffff_ffff_ffff_ffff * 0xffff_ffff_ffff_ffff
                + 0xffff_ffff_ffff_ffff) by (nonlinear_arith)
                requires
                    0 <= i <= 0xffff_ffff_ffff_ffff,
                    0 <= usize::MAX <= 0xffff_ffff_ffff_ffff,
            ;
            total = total + len as u128;
            i += 1;
        }
        let mean_wide: u128 = total / (count as u128);
        assert(mean_wide <= usize::MAX) by (nonlinear_arith)
            requires
                mean_wide == total / (count as u128),
                total <= count * usize::MAX,
                count > 0,
        ;
        let avg_clause_len: usize = mean_wide as usize;
        let clauses_to_forget_target = count / 2;
        let mut rest: Vec<Clause> = Vec::new();
        let mut forgotten_ids: Vec<usize> = Vec::new();
        let mut j: usize = 0;
        let ghost half = clauses_to_forget_target as int;
        let ghost mean = avg_clause_len as int;
        assert(mean == mean_length(cs));
        assert(views(rest@) =~= kept(cs, half, mean, 0));
        while j < count
            invariant
                0 <= j <= count,
                count == cs.len(),
                cs == views(self.learned_clauses@),
                self@ == before,
                half == clauses_to_forget_target,
                mean == avg_clause_len,
                views(rest@) == kept(cs, half, mean, j as int),
                forgotten_ids@ == dropped_ids(cs, half, mean, j as int),
                rest@.len() + forgotten_ids@.len() == j,
            decreases count - j,
        {
            let clause = &self.learned_clauses[j];
            assert(clause@ == cs[j as int]);
            let ghost prior = views(rest@);
            if j < clauses_to_forget_target && clause.literals_len() > avg_clause_len {
                forgotten_ids.push(clause.get_id());
            } else {
                rest.push(clause.clone());
                assert(views(rest@) =~= prior.push(cs[j as int]));
            }
            j += 1;
        }
        let clauses_forgotten = forgotten_ids.len();
        proof {
            lemma_kept(before.formula.clauses, cs, half, mean, count as int, before.size());
            if before.marks_in_step() {
                lemma_kept_marks(cs, half, mean, count as int, before.level);
            }
            if before.sound() {
                lemma_kept_justified(cs, half, mean, count as int, before.trail);
                lemma_kept_watched(cs, half, mean, count as int, before.model);
                lemma_kept_entailed(
                    before.formula.clauses,
                    cs,
                    half,
                    mean,
                    count as int,
                    before.size(),
                );
            }
        }
        self.learned_clauses = rest;
        self.stats.increase_forgotten(clauses_forgotten);
        let limit = self.max_learned_clauses;
        let half_up = limit / 2 + limit % 2;
        self.max_learned_clauses = if limit > usize::MAX - half_up {
            usize::MAX
        } else {
            limit + half_up
        };
        assert(self.max_learned_clauses == grown_limit(limit)) by {
            assert((limit + 1) / 2 == limit / 2 + limit % 2);
        }
        if self.is_recording() {
            self.log(ProofEvent::Forget { clause_ids: forgotten_ids });
        }
    }

    /// Removes the top level of the trail and evaluates every clause at the level that
    /// is then current.
    pub(super) fn backjump(&mut self)
        requires
            old(self)@.searching(),
        ensures
            final(self)@ == old(self)@.backjumped(),
            final(self)@.searching(),
            final(self)@.level <= old(self)@.level,
            old(self)@.marks_in_step() ==> final(self)@.marks_in_step(),
            old(self)@.trusted() ==> final(self)@.trusted(),
            final(self)@.overwrote == old(self)@.overwrote,
            same_clauses(old(self)@.formula.clauses, final(self)@.formula.clauses),
            same_clauses(old(self)@.learned, final(self)@.learned),
    {
        let ghost before = self@;
        self.remove_latest_propagated_literals();
        let ghost mid = self@;
        proof {
            lemma_reset_same(before.formula.clauses, before.level);
            lemma_reset_same(before.learned, before.level);
            lemma_cleared_len(before.model, before.trail[before.level as int].propagated);
        }
        if self.decision_level > 0 {
            let decided = self.decisions[self.decision_level].get_decided_literal();
            assert(decided == mid.trail[mid.level as int].decided);
            self.model.remove(decided);
            self.decision_level -= 1;
        }
        let _ = self.decisions.pop();
        if self.decisions.len() == 0 {
            self.decisions.push(Decision::new(0));
        }
        proof {
            if mid.level > 0 {
                assert(self@.trail =~= mid.trail.drop_last());
            } else {
                assert(self@.trail =~= seq![DecisionView { decided: 0, propagated: Seq::empty() }]);
            }
            assert(self@ == mid.popped());
            assert(self@.trail[0].decided == 0);
            assert(trail_in_range(self@.trail, before.size())) by {
                let t2 = self@.trail;
                assert forall|d: int, i: int|
                    0 <= d < t2.len() && 0 <= i < t2[d].propagated.len() implies lit_in_range(
                    (#[trigger] t2[d].propagated[i]).0,
                    before.size(),
                ) by {
                    if mid.level > 0 {
                        assert(t2[d].propagated[i] == mid.trail[d].propagated[i]);
                    }
                }
                assert forall|d: int| 1 <= d < t2.len() implies lit_in_range(
                    (#[trigger] t2[d]).decided,
                    before.size(),
                ) by {
                    assert(t2[d].decided == mid.trail[d].decided);
                }
            }
            if before.marks_in_step() {
                assert(marks_below(self@.formula.clauses, self@.level));
                assert(marks_below(self@.learned, self@.level));
            }
            if before.sound() {
                lemma_unwound_sound(before);
                lemma_popped_sound(before);
            }
        }
        if self.is_recording() {
            self.log(ProofEvent::Backjump);
        }
        let ghost popped = self@;
        let _ = self.check_if_satisfied();
        proof {
            lemma_pass_same(popped.formula.clauses, popped.model, popped.level);
            lemma_pass_same(popped.learned, popped.model, popped.level);
        }
    }

    /// The literal to decide next.
    pub(super) fn decision(&self) -> (r: isize)
        requires
            self@.searching(),
        ensures
            r == self@.decision(),
            r == 0 ==> self@.open_watches().len() == 0,
            r != 0 ==> lit_in_range(r, self@.size()),
    {
        let by_score = pick(&self.vsids, &self.model);
        if by_score != 0 {
            return by_score;
        }
        let mut literals = self.formula.get_all_watched_literals();
        collect_watched_literals(&self.learned_clauses, &mut literals);
        proof {
            lemma_watched_in_range(self@.formula.clauses, self@.size());
            lemma_watched_in_range(self@.learned, self@.size());
        }
        let r = pick_by_majority(&literals);
        proof {
            if r != 0 {
                let i = choose|i: int|
                    0 <= i < literals@.len() && lit_var(#[trigger] literals@[i]) == lit_var(r);
                assert(lit_in_range(literals@[i], self@.size()));
            }
        }
        r
    }
}


impl Solver {
    /// Assigns `literal`, records it as propagated by the clause at `clause_idx`, and
    /// evaluates every clause.
    pub(super) fn propagate(&mut self, literal: isize, clause_idx: usize) -> (r: (SAT, usize))
        requires
            old(self)@.searching(),
            lit_in_range(literal, old(self)@.size()),
        ensures
            final(self)@ == old(self)@.extended(literal, clause_idx).checked(),
            (r.0, r.1 as int) == old(self)@.extended(literal, clause_idx).check_verdict(),
            final(self)@.searching(),
            final(self)@.same_problem(old(self)@),
            same_clauses(old(self)@.learned, final(self)@.learned),
            final(self)@.level == old(self)@.level,
            final(self)@.last_learned_id == old(self)@.last_learned_id,
            final(self)@.stats == old(self)@.stats,
            old(self)@.marks_in_step() ==> final(self)@.marks_in_step(),
            old(self)@.trusted() ==> final(self)@.trusted(),
            r.0 == SAT::Satisfiable ==> final(self)@.all_marked(),
            r.0 == SAT::Unsatisfiable ==> r.1 < final(self)@.all_clauses().len(),
            r.0 == SAT::Unsatisfiable ==> final(self)@.conflicting(r.1 as int),
            lit_value(final(self)@.model, literal) == SAT::Satisfiable,
    {
        let ghost before = self@;
        if self.model.has_abs(magnitude(literal)) {
            self.overwrote = true;
        }
        self.model.add(literal);
        let level = self.decision_level;
        let ghost trail = self@.trail;
        self.decisions[level].add_propagated_literal(literal, clause_idx);
        assert(self@.trail =~= trail.update(
            level as int,
            DecisionView {
                decided: trail[level as int].decided,
                propagated: trail[level as int].propagated.push((literal, clause_idx)),
            },
        ));
        if self.is_recording() {
            self.log(ProofEvent::Propagate { literal: literal, reason: clause_idx });
        }
        let ghost mid = self@;
        assert(mid == before.extended(literal, clause_idx));
        assert(mid.trail[0].decided == 0);
        proof {
            lemma_trail_extended(before.trail, literal, clause_idx, before.size());
            if before.sound() && !mid.overwrote {
                lemma_extended_agrees(before.model, before.trail, literal, clause_idx);
                lemma_justified_carries(
                    before.formula.clauses,
                    mid.formula.clauses,
                    before.trail,
                    mid.trail,
                );
                lemma_justified_carries(before.learned, mid.learned, before.trail, mid.trail);
                lemma_grow_watched(before.formula.clauses, before.model, literal);
                lemma_grow_watched(before.learned, before.model, literal);
            }
        }
        let r = self.check_if_satisfied();
        proof {
            lemma_pass_same(mid.formula.clauses, mid.model, mid.level);
            lemma_pass_same(mid.learned, mid.model, mid.level);
        }
        r
    }

    /// Assigns the decided literal on a new level and evaluates every clause.
    pub(super) fn decide(&mut self, decided_literal: isize) -> (r: (SAT, usize))
        requires
            old(self)@.searching(),
            lit_in_range(decided_literal, old(self)@.size()),
            old(self)@.level < usize::MAX,
        ensures
            final(self)@ == old(self)@.opened(decided_literal).checked(),
            (r.0, r.1 as int) == old(self)@.opened(decided_literal).check_verdict(),
            final(self)@.searching(),
            final(self)@.same_problem(old(self)@),
            same_clauses(old(self)@.learned, final(self)@.learned),
            final(self)@.level == old(self)@.level + 1,
            final(self)@.last_learned_id == old(self)@.last_learned_id,
            final(self)@.stats.clauses_learned == old(self)@.stats.clauses_learned,
            final(self)@.stats.clauses_forgotten == old(self)@.stats.clauses_forgotten,
            old(self)@.marks_in_step() ==> final(self)@.marks_in_step(),
            old(self)@.trusted() ==> final(self)@.trusted(),
            r.0 == SAT::Satisfiable ==> final(self)@.all_marked(),
    {
        let ghost before = self@;
        if self.model.has_abs(magnitude(decided_literal)) {
            self.overwrote = true;
        }
        self.model.add(decided_literal);
        self.decision_level += 1;
        let ghost trail = self@.trail;
        self.decisions.push(Decision::new(decided_literal));
        assert(self@.trail =~= trail.push(
            DecisionView { decided: decided_literal, propagated: Seq::empty() },
        ));
        if self.is_recording() {
            self.log(ProofEvent::Decide { literal: decided_literal });
        }
        self.stats.update();
        let ghost mid = self@;
        assert(mid == before.opened(decided_literal));
        assert(mid.trail[0].decided == 0);
        proof {
            lemma_trail_opened(before.trail, decided_literal, before.size());
            if before.sound() && !mid.overwrote {
                lemma_opened_agrees(before.model, before.trail, decided_literal);
                lemma_justified_carries(
                    before.formula.clauses,
                    mid.formula.clauses,
                    before.trail,
                    mid.trail,
                );
                lemma_justified_carries(before.learned, mid.learned, before.trail, mid.trail);
                lemma_grow_watched(before.formula.clauses, before.model, decided_literal);
                lemma_grow_watched(before.learned, before.model, decided_literal);
            }
        }
        let r = self.check_if_satisfied();
        proof {
            lemma_pass_same(mid.formula.clauses, mid.model, mid.level);
            lemma_pass_same(mid.learned, mid.model, mid.level);
        }
        r
    }

    /// Hands a derived clause to the learned clauses and counts it.
    pub(super) fn learn(&mut self, new_clause: Clause, Ghost(fuel): Ghost<int>, Ghost(entailed): Ghost<bool>)
        requires
            old(self)@.searching(),
            new_clause@.wf(),
            new_clause@.literals.len() > 0,
            new_clause@.satisfied is None,
            new_clause@.watches == crate::clause::fresh_watches(new_clause@.literals.len()),
            new_clause@.id <= old(self)@.last_learned_id,
            lits_in_range(new_clause@.literals, old(self)@.size()),
            entailed ==> old(self)@.yields(new_clause@.literals),
            old(self)@.stats.clauses_learned + fuel <= usize::MAX,
            old(self)@.stats.clauses_forgotten + old(self)@.learned.len() + fuel <= usize::MAX,
            old(self)@.formula.clauses.len() + old(self)@.learned.len() + fuel <= usize::MAX,
            fuel >= 1,
        ensures
            final(self)@ == old(self)@.learned_with(new_clause@),
            final(self)@.searching(),
            final(self)@.same_problem(old(self)@),
            final(self)@.formula == old(self)@.formula,
            final(self)@.level == old(self)@.level,
            final(self)@.last_learned_id == old(self)@.last_learned_id,
            final(self)@.learned == if holds_clause(old(self)@.all_clauses(), new_clause@.literals) {
                old(self)@.learned
            } else {
                old(self)@.learned.push(new_clause@)
            },
            final(self)@.stats.clauses_learned == old(self)@.stats.clauses_learned + 1,
            final(self)@.stats.clauses_forgotten == old(self)@.stats.clauses_forgotten,
            old(self)@.marks_in_step() ==> final(self)@.marks_in_step(),
            old(self)@.trusted() && (entailed || old(self)@.overwrote) ==> final(self)@.trusted(),
            final(self)@.overwrote == old(self)@.overwrote,
    {
        let ghost before = self@;
        let ghost candidate = new_clause@;
        let record = if self.is_recording() {
            Some(ProofEvent::Learn {
                clause_id: new_clause.get_id(),
                literals: new_clause.iter_literals().clone(),
            })
        } else {
            None
        };
        let _ = self.add_learned_clause(new_clause);
        proof {
            assert(same_clauses(before.formula.clauses, self@.formula.clauses));
            assert forall|i: int| 0 <= i < self@.learned.len() implies (#[trigger] self@.learned[i]).wf()
                && self@.learned[i].literals.len() > 0 && lits_in_range(
                self@.learned[i].literals,
                before.size(),
            ) by {
                if i < before.learned.len() {
                    assert(before.learned[i].wf());
                }
            }
            if before.marks_in_step() {
                assert forall|i: int|
                    0 <= i < self@.learned.len() && (#[trigger] self@.learned[i]).satisfied is Some implies self@.learned[i].satisfied->0
                    <= self@.level by {
                    if i < before.learned.len() {
                        assert(before.learned[i].satisfied is Some ==> before.learned[i].satisfied->0
                            <= before.level);
                    }
                }
            }
            if before.sound() && entailed {
                assert forall|i: int|
                    0 <= i < self@.learned.len() && (#[trigger] self@.learned[i]).satisfied is Some implies crate::justification::witnessed(
                    self@.learned[i].literals,
                    self@.trail,
                    self@.learned[i].satisfied->0 as int,
                ) && self@.learned[i].satisfied->0 <= self@.level by {
                    if i < before.learned.len() {
                        assert(before.learned[i].satisfied is Some);
                    }
                }
                assert forall|i: int|
                    0 <= i < self@.learned.len() && !(#[trigger] self@.learned[i]).marked() implies passed_falsified(
                    self@.learned[i].literals,
                    self@.model,
                    self@.learned[i].watches.0 as int,
                    self@.learned[i].watches.1 as int,
                ) by {
                    if i < before.learned.len() {
                        assert(!before.learned[i].marked());
                    }
                }
                assert forall|a: Seq<bool>|
                    a.len() == before.size() && #[trigger] models_all(
                        a,
                        self@.formula.clauses,
                    ) implies models_all(a, self@.learned) by {
                    assert(models_all(a, before.learned));
                    assert forall|i: int| 0 <= i < self@.learned.len() implies models(
                        a,
                        (#[trigger] self@.learned[i]).literals,
                    ) by {
                        if i < before.learned.len() {
                            assert(models(a, before.learned[i].literals));
                        } else {
                            assert(models(a, candidate.literals));
                        }
                    }
                }
            }
        }
        match record {
            Some(event) => {
                self.log(event);
            },
            None => {},
        }
        self.stats.increase_learned();
        self.stats.update();
    }

    /// The first half of handling a conflict: bumps the scores on the falsified clause
    /// and derives a clause from it and from the clause that propagated
    /// `conflict_literal`.
    pub(super) fn analyze(&mut self, conflict_literal: isize, clause_idx: usize, conflict_clause_idx: usize) -> (r:
        Clause)
        requires
            old(self)@.searching(),
            clause_idx < old(self)@.all_clauses().len(),
            old(self)@.conflicting(conflict_clause_idx as int),
            lit_in_range(conflict_literal, old(self)@.size()),
            old(self)@.all_clauses()[clause_idx as int].literals.contains(conflict_literal),
            !old(self)@.all_clauses()[clause_idx as int].tautology,
            lit_value(old(self)@.model, conflict_literal) == SAT::Satisfiable,
            old(self)@.last_learned_id < usize::MAX,
        ensures
            final(self)@ == old(self)@.analyzed(
                conflict_literal,
                clause_idx as int,
                conflict_clause_idx as int,
            ),
            r@ == old(self)@.resolvent_clause(
                conflict_literal,
                clause_idx as int,
                conflict_clause_idx as int,
            ),
            r@.wf(),
            r@.literals == old(self)@.step(
                conflict_literal,
                clause_idx as int,
                conflict_clause_idx as int,
            ).resolvent,
            r@.id == old(self)@.last_learned_id + 1,
            old(self)@.unused_id(r@.id),
            final(self)@.unused_id(r@.id),
            r@.satisfied is None,
            r@.watches == crate::clause::fresh_watches(r@.literals.len()),
            lits_in_range(r@.literals, old(self)@.size()),
            final(self)@.searching(),
            final(self)@.same_problem(old(self)@),
            final(self)@.level == old(self)@.level,
            final(self)@.last_learned_id == old(self)@.last_learned_id + 1,
            final(self)@.stats == old(self)@.stats,
            final(self)@.learned.len() == old(self)@.learned.len(),
            old(self)@.marks_in_step() ==> final(self)@.marks_in_step(),
            old(self)@.trusted() ==> final(self)@.trusted(),
            final(self)@.overwrote == old(self)@.overwrote,
            old(self)@.sound() && !old(self)@.overwrote ==> final(self)@.yields(r@.literals),
            final(self)@.recording() && r@.literals.len() == 0 ==> ends_in_failure(final(self)@.events),
    {
        let ghost before = self@;
        proof {
            if before.sound() && !before.overwrote {
                lemma_conflict_falsified(before, conflict_clause_idx as int);
                lemma_resolvent_yielded(
                    before,
                    conflict_literal,
                    clause_idx as int,
                    conflict_clause_idx as int,
                );
            }
        }
        self.update_vsids(conflict_clause_idx);
        if self.is_recording() {
            let record = {
                let conflict_clause = self.get_clause(conflict_clause_idx);
                ProofEvent::Conflict {
                    clause_id: conflict_clause.get_id(),
                    literals: conflict_clause.iter_literals().clone(),
                }
            };
            self.log(record);
        }
        let ghost bumped = self@;
        assert(bumped.all_clauses() == before.all_clauses());
        let new_clause = self.explain(conflict_literal, clause_idx, conflict_clause_idx);
        proof {
            lemma_explained_same(bumped, conflict_literal, clause_idx as int, conflict_clause_idx as int);
            if before.sound() && !before.overwrote {
                lemma_yields_same(before, self@, new_clause@.literals);
            }
        }
        new_clause
    }

    /// Handles a conflict: bumps the scores on the falsified clause, derives a clause
    /// from it and from the clause that propagated `conflict_literal`, learns it, forgets
    /// clauses if there are too many, and backjumps. Returns `false` when the clause
    /// derived is the empty one, which refutes the formula.
    pub(super) fn conflict_solver(
        &mut self,
        conflict_literal: isize,
        clause_idx: usize,
        conflict_clause_idx: usize,
        Ghost(fuel): Ghost<int>,
    ) -> (r: bool)
        requires
            old(self)@.searching(),
            clause_idx < old(self)@.all_clauses().len(),
            old(self)@.conflicting(conflict_clause_idx as int),
            lit_in_range(conflict_literal, old(self)@.size()),
            old(self)@.all_clauses()[clause_idx as int].literals.contains(conflict_literal),
            !old(self)@.all_clauses()[clause_idx as int].tautology,
            lit_value(old(self)@.model, conflict_literal) == SAT::Satisfiable,
            old(self)@.headroom(fuel),
            fuel >= 1,
        ensures
            final(self)@.searching(),
            final(self)@.headroom(fuel - 1),
            final(self)@.overwrote == old(self)@.overwrote,
            final(self)@.same_problem(old(self)@),
            !r <==> old(self)@.step(
                conflict_literal,
                clause_idx as int,
                conflict_clause_idx as int,
            ).resolvent.len() == 0,
            !r ==> final(self)@ == old(self)@.analyzed(
                conflict_literal,
                clause_idx as int,
                conflict_clause_idx as int,
            ),
            r ==> final(self)@ == old(self)@.resolved(
                conflict_literal,
                clause_idx as int,
                conflict_clause_idx as int,
            ),
            !r && final(self)@.recording() ==> ends_in_failure(final(self)@.events),
            !r && old(self)@.sound() && !old(self)@.overwrote ==> final(self)@.refuted(),
            old(self)@.marks_in_step() ==> final(self)@.marks_in_step(),
            old(self)@.trusted() ==> final(self)@.trusted(),
    {
        let ghost before = self@;
        let new_clause = self.analyze(conflict_literal, clause_idx, conflict_clause_idx);
        if new_clause.literals_len() == 0 {
            proof {
                if old(self)@.sound() && !old(self)@.overwrote {
                    lemma_yields_nothing(self@, new_clause@.literals);
                }
            }
            return false;
        }
        let ghost entailed = before.sound() && !before.overwrote;
        self.learn(new_clause, Ghost(fuel), Ghost(entailed));
        if self.learned_clauses.len() > self.max_learned_clauses {
            self.forget();
        }
        self.backjump();
        true
    }

    /// Runs a search for at most `fuel` steps.
    pub(super) fn search(&mut self, fuel: usize) -> (r: SAT)
        requires
            old(self)@.searching(),
            old(self)@.headroom(fuel as int),
        ensures
            (final(self)@, r) == old(self)@.run(Phase::Learned, false, fuel as nat),
            final(self)@.searching(),
            final(self)@.same_problem(old(self)@),
            old(self)@.marks_in_step() ==> final(self)@.marks_in_step(),
            old(self)@.trusted() ==> final(self)@.trusted(),
            r == SAT::Satisfiable ==> final(self)@.all_marked(),
            r == SAT::Unsatisfiable && final(self)@.recording() ==> ends_in_failure(
                final(self)@.events,
            ),
            r == SAT::Unsatisfiable && old(self)@.trusted() && !final(self)@.overwrote
                ==> final(self)@.refuted(),
    {
        let ghost before = self@;
        let mut left: usize = fuel;
        let mut phase = Phase::Learned;
        let mut model_changed = false;
        proof {
            assert(same_clauses(before.formula.clauses, self@.formula.clauses));
        }
        while left > 0
            invariant
                self@.searching(),
                self@.headroom(left as int),
                self@.same_problem(before),
                before == old(self)@,
                before.trusted() ==> self@.trusted(),
                before.marks_in_step() ==> self@.marks_in_step(),
                self@.run(phase, model_changed, left as nat) == before.run(
                    Phase::Learned,
                    false,
                    fuel as nat,
                ),
            decreases left,
        {
            let ghost here = self@;
            let ghost goal = here.run(phase, model_changed, left as nat);
            left -= 1;
            let step = self.advance(phase, model_changed, Ghost(left as int + 1));
            proof {
                lemma_same_problem(before, here, self@);
            }
            match step.2 {
                Some(answer) => {
                    assert(goal == (self@, answer));
                    return answer;
                },
                None => {
                    assert(goal == self@.run(step.0, step.1, left as nat));
                    phase = step.0;
                    model_changed = step.1;
                },
            }
        }
        SAT::Unknown
    }

    /// One step of a search that is due a decision.
    pub(super) fn advance_decision(&mut self) -> (r: (Phase, bool, Option<SAT>))
        requires
            old(self)@.searching(),
            old(self)@.level < usize::MAX,
        ensures
            (final(self)@, r.0, r.1, r.2) == old(self)@.decided(),
            final(self)@.searching(),
            final(self)@.same_problem(old(self)@),
            final(self)@.level <= old(self)@.level + 1,
            final(self)@.last_learned_id == old(self)@.last_learned_id,
            final(self)@.stats == old(self)@.stats,
            final(self)@.learned.len() == old(self)@.learned.len(),
            old(self)@.marks_in_step() ==> final(self)@.marks_in_step(),
            old(self)@.trusted() ==> final(self)@.trusted(),
            r.2 == Some(SAT::Satisfiable) ==> final(self)@.all_marked(),
            r.2 is Some ==> r.2 == Some(SAT::Satisfiable),
    {
        let decided_literal = self.decision();
        if decided_literal == 0 {
            proof {
                lemma_no_watch_all_marked(self@.formula.clauses);
                lemma_no_watch_all_marked(self@.learned);
                assert(same_clauses(self@.formula.clauses, self@.formula.clauses));
            }
            return (Phase::Deciding, false, Some(SAT::Satisfiable));
        }
        let (satisfied, _) = self.decide(decided_literal);
        match satisfied {
            SAT::Satisfiable => (Phase::Learned, false, Some(SAT::Satisfiable)),
            _ => (Phase::Learned, false, None),
        }
    }

    /// One step of a search that propagates `literal` by the clause at `clause_idx`.
    pub(super) fn advance_propagation(
        &mut self,
        phase: Phase,
        literal: isize,
        clause_idx: usize,
        Ghost(fuel): Ghost<int>,
    ) -> (r: (Phase, bool, Option<SAT>))
        requires
            old(self)@.searching(),
            old(self)@.headroom(fuel),
            fuel >= 1,
            clause_idx < old(self)@.all_clauses().len(),
            lit_in_range(literal, old(self)@.size()),
            old(self)@.all_clauses()[clause_idx as int].literals.contains(literal),
            !old(self)@.all_clauses()[clause_idx as int].tautology,
        ensures
            (final(self)@, r.0, r.1, r.2) == old(self)@.propagated(phase, literal, clause_idx as int),
            final(self)@.searching(),
            final(self)@.headroom(fuel - 1),
            final(self)@.same_problem(old(self)@),
            old(self)@.marks_in_step() ==> final(self)@.marks_in_step(),
            old(self)@.trusted() ==> final(self)@.trusted(),
            r.2 == Some(SAT::Satisfiable) ==> final(self)@.all_marked(),
            r.2 == Some(SAT::Unsatisfiable) && final(self)@.recording() ==> ends_in_failure(
                final(self)@.events,
            ),
            r.2 == Some(SAT::Unsatisfiable) && old(self)@.trusted() && !final(self)@.overwrote
                ==> final(self)@.refuted(),
            r.2 != Some(SAT::Unknown),
    {
        let ghost before = self@;
        let (satisfied, conflict_clause_idx) = self.propagate(literal, clause_idx);
        proof {
            lemma_all_same(before, self@);
        }
        match satisfied {
            SAT::Satisfiable => (phase, true, Some(SAT::Satisfiable)),
            SAT::Unknown => (phase, true, None),
            SAT::Unsatisfiable => {
                let solved = self.conflict_solver(
                    literal,
                    clause_idx,
                    conflict_clause_idx,
                    Ghost(fuel),
                );
                if !solved {
                    (phase, true, Some(SAT::Unsatisfiable))
                } else {
                    (Phase::Learned, false, None)
                }
            },
        }
    }

    /// One step of a search.
    pub(super) fn advance(&mut self, phase: Phase, changed: bool, Ghost(fuel): Ghost<int>) -> (r: (
        Phase,
        bool,
        Option<SAT>,
    ))
        requires
            old(self)@.searching(),
            old(self)@.headroom(fuel),
            fuel >= 1,
        ensures
            (final(self)@, r.0, r.1, r.2) == old(self)@.advanced(phase, changed),
            final(self)@.searching(),
            final(self)@.headroom(fuel - 1),
            final(self)@.same_problem(old(self)@),
            old(self)@.marks_in_step() ==> final(self)@.marks_in_step(),
            old(self)@.trusted() ==> final(self)@.trusted(),
            r.2 == Some(SAT::Satisfiable) ==> final(self)@.all_marked(),
            r.2 == Some(SAT::Unsatisfiable) && final(self)@.recording() ==> ends_in_failure(
                final(self)@.events,
            ),
            r.2 == Some(SAT::Unsatisfiable) && old(self)@.trusted() && !final(self)@.overwrote
                ==> final(self)@.refuted(),
            r.2 != Some(SAT::Unknown),
    {
        let total = self.formula.clauses_len();
        if phase == Phase::Deciding {
            return self.advance_decision();
        }
        let next = if phase == Phase::Learned {
            match get_next_unit_clause_literal(&self.learned_clauses, &self.model) {
                Some((literal, idx)) => {
                    assert(self@.all_clauses()[idx + total] == self@.learned[idx as int]);
                    Some((literal, idx + total))
                },
                None => None,
            }
        } else {
            match get_next_unit_clause_literal(self.formula.get_clauses(), &self.model) {
                Some((literal, idx)) => {
                    assert(self@.all_clauses()[idx as int] == self@.formula.clauses[idx as int]);
                    Some((literal, idx))
                },
                None => None,
            }
        };
        match next {
            Some((literal, clause_idx)) => {
                let ghost reason = self@.all_clauses()[clause_idx as int];
                assert(reason.wf() && lits_in_range(reason.literals, self@.size()));
                assert(reason.literals.contains(literal));
                assert(!reason.tautology);
                self.advance_propagation(phase, literal, clause_idx, Ghost(fuel))
            },
            None => {
                proof {
                    assert(same_clauses(self@.formula.clauses, self@.formula.clauses));
                }
                if phase == Phase::Learned {
                    (Phase::Originals, changed, None)
                } else if changed {
                    (Phase::Learned, false, None)
                } else {
                    (Phase::Deciding, changed, None)
                }
            },
        }
    }
}

} // verus!
