use vstd::prelude::*;
use crate::clause::{Clause, ClauseView};
use crate::literal::lits_in_range;
use crate::model::{lit_value, Model, ModelValue};
use crate::sat::SAT;

verus! {

/// The views of a clause list.
pub open spec fn views(cs: Seq<Clause>) -> Seq<ClauseView> {
    cs.map_values(|c: Clause| c@)
}

/// Clauses that can be evaluated under an assignment over `size` variables: well formed,
/// not empty, every literal within range.
pub open spec fn evaluable(cs: Seq<ClauseView>, size: int) -> bool {
    forall|i: int|
        0 <= i < cs.len() ==> (#[trigger] cs[i]).wf() && cs[i].literals.len() > 0 && lits_in_range(
            cs[i].literals,
            size,
        )
}

/// A clause that propagation picks up: its watches have met, it is not marked satisfied,
/// and the assignment does not hold its watched literal.
pub open spec fn propagates(c: ClauseView, m: Seq<ModelValue>) -> bool {
    c.unit() && !c.marked() && lit_value(m, c.literals[c.watches.0 as int]) != SAT::Satisfiable
}

/// Index of the first clause that propagates, or the number of clauses if none does.
pub open spec fn first_propagating(cs: Seq<ClauseView>, m: Seq<ModelValue>) -> int
    decreases cs.len(),
{
    if cs.len() == 0 {
        0
    } else {
        let k = first_propagating(cs.drop_last(), m);
        if k < cs.len() - 1 {
            k
        } else if propagates(cs.last(), m) {
            cs.len() - 1
        } else {
            cs.len() as int
        }
    }
}

/// The first clause that propagates, as its index moved up by `shift` and its watched
/// literal.
pub open spec fn next_unit(cs: Seq<ClauseView>, m: Seq<ModelValue>, shift: int) -> Option<
    (isize, int),
> {
    let k = first_propagating(cs, m);
    if k < cs.len() {
        Some((cs[k].literals[cs[k].watches.0 as int], k + shift))
    } else {
        None
    }
}

/// The first propagating clause propagates, and none before it does.
pub proof fn lemma_first_propagating(cs: Seq<ClauseView>, m: Seq<ModelValue>)
    ensures
        0 <= first_propagating(cs, m) <= cs.len(),
        first_propagating(cs, m) < cs.len() ==> propagates(cs[first_propagating(cs, m)], m),
        forall|j: int| 0 <= j < first_propagating(cs, m) ==> !propagates(#[trigger] cs[j], m),
    decreases cs.len(),
{
    if cs.len() > 0 {
        let t = cs.drop_last();
        lemma_first_propagating(t, m);
        assert forall|j: int| 0 <= j < first_propagating(cs, m) implies !propagates(
            #[trigger] cs[j],
            m,
        ) by {
            if j < t.len() {
                assert(t[j] == cs[j]);
            }
        }
        if first_propagating(t, m) < t.len() {
            assert(t[first_propagating(t, m)] == cs[first_propagating(t, m)]);
        }
    }
}

/// An index with a propagating clause and none before it is the first propagating one.
pub proof fn lemma_first_propagating_is(cs: Seq<ClauseView>, m: Seq<ModelValue>, k: int)
    requires
        0 <= k <= cs.len(),
        k < cs.len() ==> propagates(cs[k], m),
        forall|j: int| 0 <= j < k ==> !propagates(#[trigger] cs[j], m),
    ensures
        first_propagating(cs, m) == k,
{
    lemma_first_propagating(cs, m);
    let f = first_propagating(cs, m);
    if f < k {
        assert(propagates(cs[f], m));
    }
}

/// Index of the first clause with verdict falsified, or the number of clauses if none has.
pub open spec fn first_falsified(cs: Seq<ClauseView>, m: Seq<ModelValue>) -> int
    decreases cs.len(),
{
    if cs.len() == 0 {
        0
    } else {
        let k = first_falsified(cs.drop_last(), m);
        if k < cs.len() - 1 {
            k
        } else if cs.last().verdict(m) == SAT::Unsatisfiable {
            cs.len() - 1
        } else {
            cs.len() as int
        }
    }
}

/// Whether some clause among the first `n` has verdict unknown.
pub open spec fn some_unknown(cs: Seq<ClauseView>, m: Seq<ModelValue>, n: int) -> bool {
    exists|i: int| 0 <= i < n && i < cs.len() && (#[trigger] cs[i]).verdict(m) == SAT::Unknown
}

/// The clauses after an evaluation pass under `m` at `level`: every clause up to and
/// including the first falsified one is evaluated, the others are left alone.
pub open spec fn pass(cs: Seq<ClauseView>, m: Seq<ModelValue>, level: usize) -> Seq<ClauseView> {
    Seq::new(
        cs.len(),
        |i: int|
            if i <= first_falsified(cs, m) {
                cs[i].evaluated(m, level)
            } else {
                cs[i]
            },
    )
}

/// The verdict of an evaluation pass: falsified with the index of the first falsified
/// clause moved up by `shift`; else unknown if some clause is; else satisfied. In the
/// last two cases the index is 0.
pub open spec fn pass_verdict(cs: Seq<ClauseView>, m: Seq<ModelValue>, shift: int) -> (SAT, int) {
    let k = first_falsified(cs, m);
    if k < cs.len() {
        (SAT::Unsatisfiable, k + shift)
    } else if some_unknown(cs, m, cs.len() as int) {
        (SAT::Unknown, 0)
    } else {
        (SAT::Satisfiable, 0)
    }
}

/// The first falsified clause is falsified, and none before it is.
pub proof fn lemma_first_falsified(cs: Seq<ClauseView>, m: Seq<ModelValue>)
    ensures
        0 <= first_falsified(cs, m) <= cs.len(),
        first_falsified(cs, m) < cs.len() ==> cs[first_falsified(cs, m)].verdict(m)
            == SAT::Unsatisfiable,
        forall|j: int|
            0 <= j < first_falsified(cs, m) ==> (#[trigger] cs[j]).verdict(m)
                != SAT::Unsatisfiable,
    decreases cs.len(),
{
    if cs.len() > 0 {
        let t = cs.drop_last();
        lemma_first_falsified(t, m);
        assert forall|j: int| 0 <= j < first_falsified(cs, m) implies (#[trigger] cs[j]).verdict(
            m,
        ) != SAT::Unsatisfiable by {
            if j < t.len() {
                assert(t[j] == cs[j]);
            }
        }
        if first_falsified(t, m) < t.len() {
            assert(t[first_falsified(t, m)] == cs[first_falsified(t, m)]);
        }
    }
}

/// An index with a falsified clause and none before it is the first falsified one.
pub proof fn lemma_first_falsified_is(cs: Seq<ClauseView>, m: Seq<ModelValue>, k: int)
    requires
        0 <= k <= cs.len(),
        k < cs.len() ==> cs[k].verdict(m) == SAT::Unsatisfiable,
        forall|j: int| 0 <= j < k ==> (#[trigger] cs[j]).verdict(m) != SAT::Unsatisfiable,
    ensures
        first_falsified(cs, m) == k,
{
    lemma_first_falsified(cs, m);
    let f = first_falsified(cs, m);
    if f < k {
        assert(cs[f].verdict(m) == SAT::Unsatisfiable);
    }
}

/// The first clause of `clauses` that propagation picks up under `model`, as its watched
/// literal and its index.
pub fn get_next_unit_clause_literal(clauses: &Vec<Clause>, model: &Model) -> (r: Option<
    (isize, usize),
>)
    requires
        evaluable(views(clauses@), model@.len() as int),
    ensures
        match r {
            Some((literal, idx)) => next_unit(views(clauses@), model@, 0) == Some(
                (literal, idx as int),
            ) && idx < clauses@.len(),
            None => next_unit(views(clauses@), model@, 0) is None,
        },
        match r {
            Some((literal, idx)) => {
                &&& idx < clauses@.len()
                &&& propagates(views(clauses@)[idx as int], model@)
                &&& literal == views(clauses@)[idx as int].literals[views(
                    clauses@,
                )[idx as int].watches.0 as int]
                &&& forall|j: int| 0 <= j < idx ==> !propagates(#[trigger] views(clauses@)[j], model@)
            },
            None => forall|j: int|
                0 <= j < clauses@.len() ==> !propagates(#[trigger] views(clauses@)[j], model@),
        },
{
    let mut clause_idx: usize = 0;
    while clause_idx < clauses.len()
        invariant
            0 <= clause_idx <= clauses@.len(),
            evaluable(views(clauses@), model@.len() as int),
            forall|j: int|
                0 <= j < clause_idx ==> !propagates(#[trigger] views(clauses@)[j], model@),
        decreases clauses@.len() - clause_idx,
    {
        let clause = &clauses[clause_idx];
        assert(clause@ == views(clauses@)[clause_idx as int]);
        if clause.is_unit_clause() && !clause.is_satisfied() {
            let literal = clause.get_watched_literals().0;
            if !model.has(literal) {
                proof {
                    lemma_first_propagating_is(views(clauses@), model@, clause_idx as int);
                }
                return Some((literal, clause_idx));
            }
        }
        clause_idx += 1;
    }
    proof {
        lemma_first_propagating_is(views(clauses@), model@, clauses@.len() as int);
    }
    None
}

/// Evaluates the clauses in order under `model` at `decision_level`, stopping at the
/// first falsified one.
pub fn clauses_are_satisfied(
    clauses: &mut Vec<Clause>,
    model: &Model,
    decision_level: usize,
    increase_idx: Option<usize>,
) -> (r: (SAT, usize))
    requires
        evaluable(views(old(clauses)@), model@.len() as int),
        increase_idx is Some ==> increase_idx->0 + old(clauses)@.len() <= usize::MAX,
    ensures
        views(final(clauses)@) == pass(views(old(clauses)@), model@, decision_level),
        (r.0, r.1 as int) == pass_verdict(
            views(old(clauses)@),
            model@,
            match increase_idx {
                Some(n) => n as int,
                None => 0,
            },
        ),
        evaluable(views(final(clauses)@), model@.len() as int),
{
    let mut satisfied = SAT::Satisfiable;
    let shift = increase_idx.unwrap_or(0);
    let ghost before = views(clauses@);
    let mut idx: usize = 0;
    let count = clauses.len();
    while idx < count
        invariant
            0 <= idx <= clauses@.len(),
            count == clauses@.len(),
            before == views(old(clauses)@),
            clauses@.len() == before.len(),
            evaluable(before, model@.len() as int),
            shift + before.len() <= usize::MAX,
            shift == match increase_idx {
                Some(n) => n,
                None => 0,
            },
            forall|j: int| 0 <= j < idx ==> (#[trigger] before[j]).verdict(model@) != SAT::Unsatisfiable,
            forall|j: int|
                0 <= j < idx ==> (#[trigger] views(clauses@)[j]) == before[j].evaluated(
                    model@,
                    decision_level,
                ),
            forall|j: int| idx <= j < before.len() ==> (#[trigger] views(clauses@)[j]) == before[j],
            satisfied == SAT::Unknown <==> some_unknown(before, model@, idx as int),
            satisfied == SAT::Satisfiable || satisfied == SAT::Unknown,
        decreases before.len() - idx,
    {
        assert(views(clauses@)[idx as int] == before[idx as int]);
        let ghost prior = clauses@;
        let verdict = clauses[idx].is_satisfied_by_model(model, decision_level);
        assert forall|j: int| 0 <= j < before.len() implies #[trigger] views(clauses@)[j] == (if j
            == idx {
            before[j].evaluated(model@, decision_level)
        } else {
            views(prior)[j]
        }) by {}
        match verdict {
            SAT::Satisfiable => {},
            SAT::Unknown => {
                satisfied = SAT::Unknown;
            },
            SAT::Unsatisfiable => {
                proof {
                    lemma_first_falsified_is(before, model@, idx as int);
                    lemma_pass_evaluable(before, model@, decision_level, model@.len() as int);
                    assert(views(clauses@) =~= pass(before, model@, decision_level));
                }
                return (SAT::Unsatisfiable, idx + shift);
            },
        }
        idx += 1;
    }
    proof {
        lemma_first_falsified_is(before, model@, before.len() as int);
        lemma_pass_evaluable(before, model@, decision_level, model@.len() as int);
        assert(views(clauses@) =~= pass(before, model@, decision_level));
    }
    (satisfied, 0)
}

/// Evaluation keeps a clause well formed and its literals as they were.
pub proof fn lemma_evaluated_wf(c: ClauseView, m: Seq<ModelValue>, level: usize)
    requires
        c.wf(),
        c.literals.len() > 0,
    ensures
        c.evaluated(m, level).wf(),
        c.evaluated(m, level).literals == c.literals,
        c.evaluated(m, level).id == c.id,
        c.evaluated(m, level).tautology == c.tautology,
        c.evaluated(m, level).used == c.used,
{
    crate::watch::lemma_scan(c.literals, m, c.watches.0 as int, c.watches.1 as int);
}

/// An evaluation pass keeps the clauses evaluable.
pub proof fn lemma_pass_evaluable(cs: Seq<ClauseView>, m: Seq<ModelValue>, level: usize, size: int)
    requires
        evaluable(cs, size),
    ensures
        evaluable(pass(cs, m, level), size),
        pass(cs, m, level).len() == cs.len(),
{
    assert forall|i: int| 0 <= i < cs.len() implies (#[trigger] pass(cs, m, level)[i]).wf() && pass(
        cs,
        m,
        level,
    )[i].literals.len() > 0 && lits_in_range(pass(cs, m, level)[i].literals, size) by {
        lemma_evaluated_wf(cs[i], m, level);
    }
}

} // verus!
