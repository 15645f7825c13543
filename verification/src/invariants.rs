use vstd::prelude::*;
use crate::clause::{without, Clause, ClauseView};
use crate::clause_tools::{evaluable, pass, pass_verdict, propagates};
use crate::decision::DecisionView;
use crate::formula::ids_within;
use crate::formula::{reset_each, watched_literals};
use crate::justification::{
    all_fresh, lemma_entails_same, lemma_fresh_watched, lemma_justified_carries,
    lemma_marked_holds, lemma_no_complement, lemma_popped_agrees, lemma_reset_fresh,
    lemma_resolution, lemma_unwound_agrees, models, models_all, sound, unsatisfiable,
};
use crate::literal::{lit_in_range, lit_var, lits_in_range};
use crate::model::{lit_value, ModelValue};
use crate::normal::normalized;
use crate::proof_log::resolvent_of;
use crate::sat::SAT;
use crate::watch::{all_falsified, passed_falsified};
use crate::state::{
    ids_below, top_id,
    SolverView, all_marked, cleared, dropped_ids, kept, marks_below, no_repeats, same_clauses,
    trail_in_range,
};

verus! {

/// An evaluation pass changes no literal and no identifier, and keeps the clauses well
/// formed.
pub proof fn lemma_pass_same(cs: Seq<ClauseView>, m: Seq<ModelValue>, level: usize)
    requires
        forall|i: int| 0 <= i < cs.len() ==> (#[trigger] cs[i]).wf() && cs[i].literals.len() > 0,
    ensures
        same_clauses(cs, pass(cs, m, level)),
        forall|i: int| 0 <= i < cs.len() ==> (#[trigger] pass(cs, m, level)[i]).wf(),
        marks_below(cs, level) ==> marks_below(pass(cs, m, level), level),
{
    assert forall|i: int| 0 <= i < cs.len() implies (#[trigger] cs[i]).literals == pass(
        cs,
        m,
        level,
    )[i].literals && cs[i].id == pass(cs, m, level)[i].id && cs[i].tautology == pass(
        cs,
        m,
        level,
    )[i].tautology && pass(cs, m, level)[i].wf() by {
        crate::clause_tools::lemma_evaluated_wf(cs[i], m, level);
    }
    if marks_below(cs, level) {
        assert forall|i: int|
            0 <= i < cs.len() && (#[trigger] pass(cs, m, level)[i]).satisfied is Some implies pass(
            cs,
            m,
            level,
        )[i].satisfied->0 <= level by {
            assert(cs[i].satisfied is Some ==> cs[i].satisfied->0 <= level);
        }
    }
}

/// The satisfaction reset changes no literal and no identifier, keeps the clauses well
/// formed, and leaves no mark at `level` or above.
pub proof fn lemma_reset_same(cs: Seq<ClauseView>, level: usize)
    requires
        forall|i: int| 0 <= i < cs.len() ==> (#[trigger] cs[i]).wf(),
    ensures
        same_clauses(cs, reset_each(cs, level)),
        forall|i: int| 0 <= i < cs.len() ==> (#[trigger] reset_each(cs, level)[i]).wf(),
        forall|i: int|
            0 <= i < cs.len() && (#[trigger] reset_each(cs, level)[i]).satisfied is Some
                ==> reset_each(cs, level)[i].satisfied->0 < level && reset_each(
                cs,
                level,
            )[i].satisfied == cs[i].satisfied,
{
    assert forall|i: int| 0 <= i < cs.len() implies (#[trigger] reset_each(cs, level)[i]).wf() by {
        assert(cs[i].wf());
    }
}

/// Clause lists that agree in their literals agree on what can be evaluated and on what
/// repeats.
pub proof fn lemma_same_clauses(
    o1: Seq<ClauseView>,
    l1: Seq<ClauseView>,
    o2: Seq<ClauseView>,
    l2: Seq<ClauseView>,
    size: int,
)
    requires
        same_clauses(o1, o2),
        same_clauses(l1, l2),
        forall|i: int| 0 <= i < o2.len() ==> (#[trigger] o2[i]).wf(),
        forall|i: int| 0 <= i < l2.len() ==> (#[trigger] l2[i]).wf(),
    ensures
        no_repeats(o1, l1) ==> no_repeats(o2, l2),
        evaluable(o1, size) ==> evaluable(o2, size),
        evaluable(l1, size) ==> evaluable(l2, size),
        forall|bound: usize| ids_below(l1, bound) ==> #[trigger] ids_below(l2, bound),
        forall|bound: usize| ids_within(o1, bound) ==> #[trigger] ids_within(o2, bound),
{
    assert forall|bound: usize| ids_below(l1, bound) implies #[trigger] ids_below(l2, bound) by {
        assert forall|i: int| 0 <= i < l2.len() implies (#[trigger] l2[i]).id <= bound by {
            assert(l1[i].id == l2[i].id);
        }
    }
    assert forall|bound: usize| ids_within(o1, bound) implies #[trigger] ids_within(o2, bound) by {
        assert forall|i: int| 0 <= i < o2.len() implies 1 <= (#[trigger] o2[i]).id <= bound by {
            assert(o1[i].id == o2[i].id);
        }
    }
    if no_repeats(o1, l1) {
        assert forall|i: int, j: int| 0 <= i < j < l2.len() implies (#[trigger] l2[i]).literals != (
        #[trigger] l2[j]).literals by {
            assert(l1[i].literals == l2[i].literals && l1[j].literals == l2[j].literals);
        }
        assert forall|i: int, k: int| 0 <= i < l2.len() && 0 <= k < o2.len() implies (
        #[trigger] l2[i]).literals != (#[trigger] o2[k]).literals by {
            assert(l1[i].literals == l2[i].literals && o1[k].literals == o2[k].literals);
        }
    }
    if evaluable(o1, size) {
        assert forall|i: int| 0 <= i < o2.len() implies (#[trigger] o2[i]).wf() && o2[i].literals.len()
            > 0 && lits_in_range(o2[i].literals, size) by {
            assert(o1[i].literals == o2[i].literals);
        }
    }
    if evaluable(l1, size) {
        assert forall|i: int| 0 <= i < l2.len() implies (#[trigger] l2[i]).wf() && l2[i].literals.len()
            > 0 && lits_in_range(l2[i].literals, size) by {
            assert(l1[i].literals == l2[i].literals);
        }
    }
}

/// Clearing variables keeps the length of the assignment.
pub proof fn lemma_cleared_len(m: Seq<ModelValue>, lits: Seq<(isize, usize)>)
    requires
        forall|i: int| 0 <= i < lits.len() ==> lit_in_range((#[trigger] lits[i]).0, m.len() as int),
    ensures
        cleared(m, lits).len() == m.len(),
    decreases lits.len(),
{
    if lits.len() > 0 {
        let t = lits.drop_last();
        assert forall|i: int| 0 <= i < t.len() implies lit_in_range((#[trigger] t[i]).0, m.len() as int) by {
            assert(t[i] == lits[i]);
        }
        lemma_cleared_len(m, t);
    }
}

/// Keeping the problem is transitive.
pub proof fn lemma_same_problem(a: SolverView, b: SolverView, c: SolverView)
    requires
        b.same_problem(a),
        c.same_problem(b),
    ensures
        c.same_problem(a),
{
    assert forall|i: int| 0 <= i < a.formula.clauses.len() implies (#[trigger] a.formula.clauses[i]).literals
        == c.formula.clauses[i].literals && a.formula.clauses[i].id == c.formula.clauses[i].id
        && a.formula.clauses[i].tautology == c.formula.clauses[i].tautology by {
        assert(a.formula.clauses[i].literals == b.formula.clauses[i].literals);
        assert(b.formula.clauses[i].literals == c.formula.clauses[i].literals);
    }
}

/// Conflict analysis changes no literal of any clause.
pub proof fn lemma_explained_same(s: SolverView, pivot: isize, reason_idx: int, conflict_idx: int)
    requires
        s.searching(),
        0 <= reason_idx < s.all_clauses().len(),
        0 <= conflict_idx < s.all_clauses().len(),
    ensures
        same_clauses(s.formula.clauses, s.explained(pivot, reason_idx, conflict_idx).formula.clauses),
        same_clauses(s.learned, s.explained(pivot, reason_idx, conflict_idx).learned),
{
    lemma_reset_same(s.formula.clauses, s.level);
    lemma_reset_same(s.learned, s.level);
}

/// Solvers whose clause lists agree in their literals agree on the literals of the
/// clause at each index.
pub proof fn lemma_all_same(a: SolverView, b: SolverView)
    requires
        same_clauses(a.formula.clauses, b.formula.clauses),
        same_clauses(a.learned, b.learned),
    ensures
        same_clauses(a.all_clauses(), b.all_clauses()),
{
    assert forall|i: int| 0 <= i < a.all_clauses().len() implies (#[trigger] a.all_clauses()[i]).literals
        == b.all_clauses()[i].literals && a.all_clauses()[i].id == b.all_clauses()[i].id
        && a.all_clauses()[i].tautology == b.all_clauses()[i].tautology by {
        if i < a.formula.clauses.len() {
            assert(a.formula.clauses[i].literals == b.formula.clauses[i].literals);
        } else {
            let k = i - a.formula.clauses.len();
            assert(a.learned[k].literals == b.learned[k].literals);
        }
    }
}

/// Between the steps of a search no clause, original or learned, bears an identifier
/// above the one issued last: the next identifier is new.
pub proof fn lemma_next_id_unused(s: SolverView)
    requires
        s.searching(),
        s.last_learned_id < usize::MAX,
    ensures
        s.unused_id((s.last_learned_id + 1) as usize),
        forall|i: int|
            0 <= i < s.all_clauses().len() ==> (#[trigger] s.all_clauses()[i]).id
                <= s.last_learned_id,
{
    assert forall|i: int| 0 <= i < s.all_clauses().len() implies (#[trigger] s.all_clauses()[i]).id
        <= s.last_learned_id by {
        if i < s.formula.clauses.len() {
            assert(s.all_clauses()[i] == s.formula.clauses[i]);
            assert(s.formula.clauses[i].id <= s.formula.last_id);
        } else {
            assert(s.all_clauses()[i] == s.learned[i - s.formula.clauses.len()]);
        }
    }
}

/// The clause at an index is an original clause or a learned one, and can be evaluated.
pub proof fn lemma_clause_at(s: SolverView, idx: int)
    requires
        0 <= idx < s.all_clauses().len(),
    ensures
        idx < s.formula.clauses.len() ==> s.all_clauses()[idx] == s.formula.clauses[idx],
        idx >= s.formula.clauses.len() ==> s.all_clauses()[idx] == s.learned[idx
            - s.formula.clauses.len()],
        s.solvable() ==> s.all_clauses()[idx].wf() && s.all_clauses()[idx].literals.len() > 0
            && lits_in_range(s.all_clauses()[idx].literals, s.size()),
{
}

/// Undoing the propagations of the level changes no resolution step.
pub proof fn lemma_unwound_step(s: SolverView, pivot: isize, reason_idx: int, conflict_idx: int)
    requires
        s.wf(),
        0 <= reason_idx < s.all_clauses().len(),
        0 <= conflict_idx < s.all_clauses().len(),
    ensures
        s.unwound().step(pivot, reason_idx, conflict_idx) == s.step(pivot, reason_idx, conflict_idx),
        s.unwound().all_clauses().len() == s.all_clauses().len(),
        s.unwound().all_clauses()[reason_idx].literals == s.all_clauses()[reason_idx].literals,
{
    lemma_reset_same(s.formula.clauses, s.level);
    lemma_reset_same(s.learned, s.level);
    lemma_clause_at(s, reason_idx);
    lemma_clause_at(s, conflict_idx);
    lemma_clause_at(s.unwound(), reason_idx);
    lemma_clause_at(s.unwound(), conflict_idx);
}

/// Marking a clause used keeps the number of clauses.
pub proof fn lemma_with_used_len(s: SolverView, idx: int)
    requires
        0 <= idx < s.all_clauses().len(),
    ensures
        s.with_used(idx).all_clauses().len() == s.all_clauses().len(),
{
}

/// A trail within range stays within range when a literal within range is propagated on
/// its top level.
pub proof fn lemma_trail_extended(trail: Seq<DecisionView>, x: isize, reason: usize, size: int)
    requires
        trail.len() > 0,
        trail_in_range(trail, size),
        lit_in_range(x, size),
    ensures
        trail_in_range(
            trail.update(
                trail.len() - 1,
                DecisionView {
                    decided: trail.last().decided,
                    propagated: trail.last().propagated.push((x, reason)),
                },
            ),
            size,
        ),
{
    let top = trail.len() - 1;
    let t2 = trail.update(
        top,
        DecisionView {
            decided: trail.last().decided,
            propagated: trail.last().propagated.push((x, reason)),
        },
    );
    assert forall|d: int, i: int|
        0 <= d < t2.len() && 0 <= i < t2[d].propagated.len() implies lit_in_range(
        (#[trigger] t2[d].propagated[i]).0,
        size,
    ) by {
        if d == top && i == trail[top].propagated.len() {
        } else {
            assert(t2[d].propagated[i] == trail[d].propagated[i]);
        }
    }
    assert forall|d: int| 1 <= d < t2.len() implies lit_in_range((#[trigger] t2[d]).decided, size) by {
        assert(t2[d].decided == trail[d].decided);
    }
}

/// A trail within range stays within range when a literal within range opens a level.
pub proof fn lemma_trail_opened(trail: Seq<DecisionView>, x: isize, size: int)
    requires
        trail.len() > 0,
        trail_in_range(trail, size),
        lit_in_range(x, size),
    ensures
        trail_in_range(trail.push(DecisionView { decided: x, propagated: Seq::empty() }), size),
{
    let t2 = trail.push(DecisionView { decided: x, propagated: Seq::empty() });
    assert forall|d: int, i: int|
        0 <= d < t2.len() && 0 <= i < t2[d].propagated.len() implies lit_in_range(
        (#[trigger] t2[d].propagated[i]).0,
        size,
    ) by {
        assert(d < trail.len());
        assert(t2[d].propagated[i] == trail[d].propagated[i]);
    }
    assert forall|d: int| 1 <= d < t2.len() implies lit_in_range((#[trigger] t2[d]).decided, size) by {
        if d < trail.len() {
            assert(t2[d].decided == trail[d].decided);
        }
    }
}

/// A trail within range stays within range when the propagations of a level go.
pub proof fn lemma_trail_emptied(trail: Seq<DecisionView>, level: int, size: int)
    requires
        0 <= level < trail.len(),
        trail_in_range(trail, size),
    ensures
        trail_in_range(
            trail.update(
                level,
                DecisionView { decided: trail[level].decided, propagated: Seq::empty() },
            ),
            size,
        ),
{
    let t2 = trail.update(
        level,
        DecisionView { decided: trail[level].decided, propagated: Seq::empty() },
    );
    assert forall|d: int, i: int|
        0 <= d < t2.len() && 0 <= i < t2[d].propagated.len() implies lit_in_range(
        (#[trigger] t2[d].propagated[i]).0,
        size,
    ) by {
        assert(d != level);
        assert(t2[d].propagated[i] == trail[d].propagated[i]);
    }
    assert forall|d: int| 1 <= d < t2.len() implies lit_in_range((#[trigger] t2[d]).decided, size) by {
        assert(t2[d].decided == trail[d].decided);
    }
}

/// In a search whose marks are justified, the resolvent of the clause that propagated a
/// literal and of a clause that the literal falsified follows from the original clauses.
pub proof fn lemma_resolvent_yielded(s: SolverView, pivot: isize, reason_idx: int, conflict_idx: int)
    requires
        s.searching(),
        s.sound(),
        0 <= reason_idx < s.all_clauses().len(),
        0 <= conflict_idx < s.all_clauses().len(),
        lit_in_range(pivot, s.size()),
        s.all_clauses()[reason_idx].literals.contains(pivot),
        !s.all_clauses()[reason_idx].tautology,
        all_falsified(s.all_clauses()[conflict_idx].literals, s.model),
        lit_value(s.model, pivot) == SAT::Satisfiable,
    ensures
        s.yields(s.step(pivot, reason_idx, conflict_idx).resolvent),
{
    let reason = s.all_clauses()[reason_idx];
    let conflict = s.all_clauses()[conflict_idx];
    lemma_clause_at(s, reason_idx);
    lemma_clause_at(s, conflict_idx);
    lemma_no_complement(reason.literals, pivot);
    assert(!conflict.literals.contains(pivot)) by {
        if conflict.literals.contains(pivot) {
            let j = choose|j: int| 0 <= j < conflict.literals.len() && conflict.literals[j] == pivot;
            assert(lit_value(s.model, conflict.literals[j]) == SAT::Unsatisfiable);
        }
    }
    assert forall|a: Seq<bool>|
        a.len() == s.size() && #[trigger] models_all(a, s.formula.clauses) implies models(
        a,
        s.step(pivot, reason_idx, conflict_idx).resolvent,
    ) by {
        assert(models_all(a, s.learned));
        assert(models(a, reason.literals)) by {
            if reason_idx < s.formula.clauses.len() {
                assert(models(a, s.formula.clauses[reason_idx].literals));
            } else {
                assert(models(a, s.learned[reason_idx - s.formula.clauses.len()].literals));
            }
        }
        assert(models(a, conflict.literals)) by {
            if conflict_idx < s.formula.clauses.len() {
                assert(models(a, s.formula.clauses[conflict_idx].literals));
            } else {
                assert(models(a, s.learned[conflict_idx - s.formula.clauses.len()].literals));
            }
        }
        lemma_resolution(a, reason.literals, conflict.literals, pivot);
    }
}

/// In a search whose marks are justified, a clause found falsified has no literal that
/// is true or unassigned.
pub proof fn lemma_conflict_falsified(s: SolverView, idx: int)
    requires
        s.sound(),
        s.conflicting(idx),
    ensures
        all_falsified(s.all_clauses()[idx].literals, s.model),
{
    let c = s.all_clauses()[idx];
    lemma_clause_at(s, idx);
    assert(passed_falsified(c.literals, s.model, c.watches.0 as int, c.watches.1 as int)) by {
        if idx < s.formula.clauses.len() {
            assert(!s.formula.clauses[idx].marked());
        } else {
            assert(!s.learned[idx - s.formula.clauses.len()].marked());
        }
    }
    assert forall|k: int| 0 <= k < c.literals.len() implies lit_value(s.model, #[trigger] c.literals[k])
        == SAT::Unsatisfiable by {}
}

/// If the empty clause follows from the original clauses, nothing satisfies them.
pub proof fn lemma_yields_nothing(s: SolverView, lits: Seq<isize>)
    requires
        s.yields(lits),
        lits.len() == 0,
    ensures
        s.refuted(),
{
    assert forall|a: Seq<bool>| a.len() == s.size() implies !#[trigger] models_all(
        a,
        s.formula.clauses,
    ) by {
        if models_all(a, s.formula.clauses) {
            assert(models(a, lits));
        }
    }
}

/// The clause that an evaluation pass finds falsified is left unmarked, its watches met
/// on a falsified literal.
pub proof fn lemma_pass_conflict(cs: Seq<ClauseView>, m: Seq<ModelValue>, level: usize)
    requires
        forall|i: int| 0 <= i < cs.len() ==> (#[trigger] cs[i]).wf() && cs[i].literals.len() > 0,
    ensures
        crate::clause_tools::first_falsified(cs, m) < cs.len() ==> ({
            let c = pass(cs, m, level)[crate::clause_tools::first_falsified(cs, m)];
            !c.marked() && c.unit() && lit_value(m, c.literals[c.watches.0 as int])
                == SAT::Unsatisfiable
        }),
{
    crate::clause_tools::lemma_first_falsified(cs, m);
    let k = crate::clause_tools::first_falsified(cs, m);
    if k < cs.len() {
        let c = cs[k];
        crate::watch::lemma_scan(c.literals, m, c.watches.0 as int, c.watches.1 as int);
    }
}

/// What follows from the original clauses of a solver follows from those of a solver
/// with the same literals.
pub proof fn lemma_yields_same(a: SolverView, b: SolverView, lits: Seq<isize>)
    requires
        a.yields(lits),
        a.size() == b.size(),
        same_clauses(a.formula.clauses, b.formula.clauses),
    ensures
        b.yields(lits),
{
    assert forall|t: Seq<bool>|
        t.len() == b.size() && #[trigger] models_all(t, b.formula.clauses) implies models(t, lits) by {
        assert forall|i: int| 0 <= i < a.formula.clauses.len() implies models(
            t,
            (#[trigger] a.formula.clauses[i]).literals,
        ) by {
            assert(models(t, b.formula.clauses[i].literals));
        }
        assert(models_all(t, a.formula.clauses));
    }
}

/// Undoing the propagations of the level keeps every mark justified.
pub proof fn lemma_unwound_sound(s: SolverView)
    requires
        s.searching(),
        s.sound(),
    ensures
        s.unwound().sound(),
{
    let u = s.unwound();
    lemma_unwound_agrees(s.model, s.trail);
    assert(u.trail =~= crate::justification::emptied(s.trail));
    assert(s.trail.last() == s.trail[s.level as int]);
    lemma_reset_same(s.formula.clauses, s.level);
    lemma_reset_same(s.learned, s.level);
    lemma_justified_carries(s.formula.clauses, u.formula.clauses, s.trail, u.trail);
    lemma_justified_carries(s.learned, u.learned, s.trail, u.trail);
    lemma_reset_fresh(s.formula.clauses, s.level);
    lemma_reset_fresh(s.learned, s.level);
    lemma_fresh_watched(u.formula.clauses, u.model);
    lemma_fresh_watched(u.learned, u.model);
    lemma_cleared_len(s.model, s.trail[s.level as int].propagated);
    lemma_entails_same(s.formula.clauses, s.learned, u.formula.clauses, u.learned, s.size());
}

/// Removing the top level, once its propagations are undone, keeps every mark
/// justified.
pub proof fn lemma_popped_sound(s: SolverView)
    requires
        s.searching(),
        s.sound(),
    ensures
        s.unwound().popped().sound(),
{
    lemma_unwound_sound(s);
    let u = s.unwound();
    let p = u.popped();
    lemma_reset_same(s.formula.clauses, s.level);
    lemma_reset_same(s.learned, s.level);
    lemma_cleared_len(s.model, s.trail[s.level as int].propagated);
    lemma_reset_fresh(s.formula.clauses, s.level);
    lemma_reset_fresh(s.learned, s.level);
    lemma_fresh_watched(p.formula.clauses, p.model);
    lemma_fresh_watched(p.learned, p.model);
    if s.level > 0 {
        assert(u.trail.last() == u.trail[s.level as int]);
        assert(trail_in_range(u.trail, u.model.len() as int)) by {
            assert forall|d: int, i: int|
                0 <= d < u.trail.len() && 0 <= i < u.trail[d].propagated.len() implies lit_in_range(
                (#[trigger] u.trail[d].propagated[i]).0,
                u.model.len() as int,
            ) by {
                assert(lit_in_range(s.trail[d].propagated[i].0, s.size()));
            }
            assert forall|d: int| 1 <= d < u.trail.len() implies lit_in_range(
                (#[trigger] u.trail[d]).decided,
                u.model.len() as int,
            ) by {
                assert(lit_in_range(s.trail[d].decided, s.size()));
            }
        }
        lemma_popped_agrees(u.model, u.trail);
        lemma_justified_carries(u.formula.clauses, p.formula.clauses, u.trail, p.trail);
        lemma_justified_carries(u.learned, p.learned, u.trail, p.trail);
    } else {
        assert(p.trail =~= u.trail);
    }
}

/// At the start of a search on a rested solver every mark is justified: there is none.
pub proof fn lemma_rested_sound(s: SolverView)
    requires
        s.searching(),
        s.level == 0,
        s.trail =~= seq![DecisionView { decided: 0, propagated: Seq::empty() }],
        forall|v: int| 0 <= v < s.model.len() ==> #[trigger] s.model[v] == ModelValue::Unknown,
        forall|i: int|
            0 <= i < s.formula.clauses.len() ==> (#[trigger] s.formula.clauses[i]).satisfied is None,
        all_fresh(s.formula.clauses),
        s.learned.len() == 0,
    ensures
        s.sound(),
{
    lemma_fresh_watched(s.formula.clauses, s.model);
    assert forall|x: isize| lit_in_range(x, s.model.len() as int) implies ((#[trigger] lit_value(
        s.model,
        x,
    )) == SAT::Satisfiable <==> crate::justification::named_by(s.trail, s.trail.len() - 1, x)) by {
        assert(s.model[lit_var(x) - 1] == ModelValue::Unknown);
        if crate::justification::named_by(s.trail, s.trail.len() - 1, x) {
            let d = choose|d: int|
                0 <= d <= s.trail.len() - 1 && #[trigger] crate::justification::named_at(
                    s.trail,
                    d,
                    x,
                );
            assert(!s.trail[0].propagates(x));
        }
    }
    assert forall|d1: int, d2: int, x: isize|
        #[trigger] crate::justification::named_at(s.trail, d1, x)
            && #[trigger] crate::justification::named_at(s.trail, d2, x) implies d1 == d2 by {}
}

/// In a search whose marks are justified, a state with every clause marked satisfied
/// has an assignment that satisfies the formula.
pub proof fn lemma_sound_model(s: SolverView)
    requires
        s.searching(),
        s.all_marked(),
    ensures
        s.trusted() && !s.overwrote ==> s.satisfies_formula(),
{
    if s.sound() {
        lemma_marked_holds(s.formula.clauses, s.model, s.level, s.trail);
        assert forall|i: int|
            0 <= i < s.formula.clauses.len() && !(#[trigger] s.formula.clauses[i]).tautology implies crate::justification::holds(
            s.formula.clauses[i].literals,
            s.model,
        ) by {
            assert(s.formula.clauses[i].marked());
        }
    }
}

/// Clauses none of which has a watched literal to offer are all marked satisfied.
pub proof fn lemma_no_watch_all_marked(cs: Seq<ClauseView>)
    ensures
        watched_literals(cs).len() == 0 ==> all_marked(cs),
    decreases cs.len(),
{
    if cs.len() > 0 {
        let t = cs.drop_last();
        lemma_no_watch_all_marked(t);
        if watched_literals(cs).len() == 0 {
            assert forall|i: int| 0 <= i < cs.len() implies (#[trigger] cs[i]).marked() by {
                if i < t.len() {
                    assert(t[i].marked());
                }
            }
        }
    }
}

/// The resolvent of two clauses within range is within range.
pub proof fn lemma_resolvent_in_range(reason: Seq<isize>, conflict: Seq<isize>, pivot: isize, size: int)
    requires
        lits_in_range(reason, size),
        lits_in_range(conflict, size),
    ensures
        lits_in_range(resolvent_of(reason, conflict, pivot), size),
        normalized(resolvent_of(reason, conflict, pivot)),
{
    let both = reason + conflict;
    crate::normal::lemma_normalize(both);
    let n = crate::normal::normalize(both);
    crate::clause::lemma_without_normalized(n, pivot);
    let a = without(n, pivot);
    if pivot != isize::MIN {
        crate::clause::lemma_without_normalized(a, (-pivot) as isize);
    }
    let r = resolvent_of(reason, conflict, pivot);
    assert forall|i: int| 0 <= i < r.len() implies lit_in_range(#[trigger] r[i], size) by {
        assert(r.contains(r[i]));
        assert(a.contains(r[i]));
        assert(n.contains(r[i]));
        assert(both.contains(r[i]));
        let k = choose|k: int| 0 <= k < both.len() && both[k] == r[i];
        if k < reason.len() {
            assert(reason[k] == r[i]);
        } else {
            assert(conflict[k - reason.len()] == r[i]);
        }
    }
}

/// What a forget keeps is taken from the learned clauses without a repeat.
pub proof fn lemma_kept(
    originals: Seq<ClauseView>,
    cs: Seq<ClauseView>,
    half: int,
    mean: int,
    n: int,
    size: int,
)
    requires
        0 <= n <= cs.len(),
    ensures
        kept(cs, half, mean, n).len() + dropped_ids(cs, half, mean, n).len() == n,
        forall|j: int|
            0 <= j < kept(cs, half, mean, n).len() ==> exists|i: int|
                0 <= i < n && cs[i] == #[trigger] kept(cs, half, mean, n)[j],
        no_repeats(originals, cs) ==> no_repeats(originals, kept(cs, half, mean, n)),
        evaluable(cs, size) ==> evaluable(kept(cs, half, mean, n), size),
        (forall|i: int| 0 <= i < cs.len() ==> (#[trigger] cs[i]).wf()) ==> (forall|j: int|
            0 <= j < kept(cs, half, mean, n).len() ==> (#[trigger] kept(cs, half, mean, n)[j]).wf()),
    decreases n,
{
    if n > 0 {
        lemma_kept(originals, cs, half, mean, n - 1, size);
        let init = kept(cs, half, mean, n - 1);
        let r = kept(cs, half, mean, n);
        assert forall|j: int| 0 <= j < r.len() implies exists|i: int|
            0 <= i < n && cs[i] == #[trigger] r[j] by {
            if j < init.len() {
                let i = choose|i: int| 0 <= i < n - 1 && cs[i] == init[j];
                assert(cs[i] == r[j]);
            } else {
                assert(cs[n - 1] == r[j]);
            }
        }
        if no_repeats(originals, cs) && r.len() > init.len() {
            assert forall|i: int, j: int| 0 <= i < j < r.len() implies (#[trigger] r[i]).literals != (
            #[trigger] r[j]).literals by {
                if j == r.len() - 1 {
                    let a = choose|a: int| 0 <= a < n - 1 && cs[a] == init[i];
                    assert(cs[a].literals != cs[n - 1].literals);
                } else {
                    assert(init[i].literals != init[j].literals);
                }
            }
            assert forall|i: int, k: int| 0 <= i < r.len() && 0 <= k < originals.len() implies (
            #[trigger] r[i]).literals != (#[trigger] originals[k]).literals by {
                if i == r.len() - 1 {
                    assert(cs[n - 1].literals != originals[k].literals);
                } else {
                    assert(init[i].literals != originals[k].literals);
                }
            }
        }
        if evaluable(cs, size) {
            assert forall|j: int| 0 <= j < r.len() implies (#[trigger] r[j]).wf() && r[j].literals.len()
                > 0 && lits_in_range(r[j].literals, size) by {
                if j < init.len() {
                    assert(init[j].wf());
                } else {
                    assert(cs[n - 1].wf());
                }
            }
        }
        if forall|i: int| 0 <= i < cs.len() ==> (#[trigger] cs[i]).wf() {
            assert forall|j: int| 0 <= j < r.len() implies (#[trigger] r[j]).wf() by {
                if j < init.len() {
                    assert(init[j].wf());
                } else {
                    assert(cs[n - 1].wf());
                }
            }
        }
    }
}

/// What a forget keeps bears no mark above `level` if the learned clauses bore none.
pub proof fn lemma_kept_marks(cs: Seq<ClauseView>, half: int, mean: int, n: int, level: usize)
    requires
        0 <= n <= cs.len(),
        marks_below(cs, level),
    ensures
        marks_below(kept(cs, half, mean, n), level),
    decreases n,
{
    if n > 0 {
        lemma_kept_marks(cs, half, mean, n - 1, level);
        let init = kept(cs, half, mean, n - 1);
        let r = kept(cs, half, mean, n);
        assert forall|i: int| 0 <= i < r.len() && (#[trigger] r[i]).satisfied is Some implies r[i].satisfied->0
            <= level by {
            if i < init.len() {
                assert(init[i].satisfied is Some ==> init[i].satisfied->0 <= level);
            } else {
                assert(cs[n - 1].satisfied is Some ==> cs[n - 1].satisfied->0 <= level);
            }
        }
    }
}

/// The watched literals of clauses that can be evaluated are within range.
pub proof fn lemma_watched_in_range(cs: Seq<ClauseView>, size: int)
    requires
        evaluable(cs, size),
        size <= isize::MAX,
    ensures
        lits_in_range(watched_literals(cs), size),
        forall|i: int|
            0 <= i < watched_literals(cs).len() ==> (#[trigger] watched_literals(cs)[i]) != 0
                && watched_literals(cs)[i] != isize::MIN,
    decreases cs.len(),
{
    if cs.len() > 0 {
        let t = cs.drop_last();
        assert forall|i: int| 0 <= i < t.len() implies (#[trigger] t[i]).wf() && t[i].literals.len()
            > 0 && lits_in_range(t[i].literals, size) by {
            assert(t[i] == cs[i]);
        }
        lemma_watched_in_range(t, size);
        let c = cs.last();
        assert(c == cs[cs.len() - 1]);
        assert(c.wf() && lits_in_range(c.literals, size));
        let w = watched_literals(cs);
        let init = watched_literals(t);
        assert forall|i: int| 0 <= i < w.len() implies lit_in_range(#[trigger] w[i], size) by {
            if i < init.len() {
                assert(w[i] == init[i]);
            } else {
                assert(w[i] == c.literals[c.watches.0 as int] || w[i] == c.literals[c.watches.1 as int]);
            }
        }
    }
}

/// After an evaluation pass, a clause not marked satisfied had a verdict other than
/// satisfied; if no clause was falsified and none unknown, all are marked.
pub proof fn lemma_pass_marked(cs: Seq<ClauseView>, m: Seq<ModelValue>, level: usize)
    requires
        forall|i: int| 0 <= i < cs.len() ==> (#[trigger] cs[i]).wf() && cs[i].literals.len() > 0,
    ensures
        pass_verdict(cs, m, 0).0 == SAT::Satisfiable ==> all_marked(pass(cs, m, level)),
        forall|shift: int| (#[trigger] pass_verdict(cs, m, shift)).0 == pass_verdict(cs, m, 0).0,
        pass_verdict(cs, m, 0).0 == SAT::Unsatisfiable ==> pass_verdict(cs, m, 0).1 < cs.len()
            && !cs[pass_verdict(cs, m, 0).1].tautology,
{
    crate::clause_tools::lemma_first_falsified(cs, m);
    if pass_verdict(cs, m, 0).0 == SAT::Satisfiable {
        assert forall|i: int| 0 <= i < cs.len() implies (#[trigger] pass(cs, m, level)[i]).marked() by {
            assert(cs[i].verdict(m) != SAT::Unsatisfiable);
            if cs[i].verdict(m) == SAT::Unknown {
                assert(crate::clause_tools::some_unknown(cs, m, cs.len() as int));
            }
        }
    }
}

} // verus!
