use vstd::prelude::*;
use crate::clause::ClauseView;
use crate::clause_tools::{first_falsified, pass};
use crate::decision::DecisionView;
use crate::formula::reset_each;
use crate::literal::{lit_in_range, lit_var};
use crate::model::{lit_value, polarity_of, ModelValue};
use crate::sat::SAT;
use crate::state::{cleared, kept, marks_below, trail_in_range};
use crate::clause::{fresh_watches, without};
use crate::normal::{has_complements, lemma_normalize, normalize};
use crate::proof_log::resolvent_of;
use crate::watch::{all_falsified, lemma_scan, lemma_scan_sound, passed_falsified, scan};

verus! {

/// Level `d` of the trail names the literal `x`.
pub open spec fn named_at(trail: Seq<DecisionView>, d: int, x: isize) -> bool {
    0 <= d < trail.len() && x != 0 && trail[d].names(x)
}

/// Some level of the trail up to level `k` names the literal `x`.
pub open spec fn named_by(trail: Seq<DecisionView>, k: int, x: isize) -> bool {
    exists|d: int| 0 <= d <= k && #[trigger] named_at(trail, d, x)
}

/// The assignment holds exactly the literals that the trail names.
pub open spec fn agrees(m: Seq<ModelValue>, trail: Seq<DecisionView>) -> bool {
    forall|x: isize|
        lit_in_range(x, m.len() as int) ==> ((#[trigger] lit_value(m, x)) == SAT::Satisfiable
            <==> named_by(trail, trail.len() - 1, x))
}

/// No literal stands on the trail twice: not at two levels, and not as the decided
/// literal of a level and among its propagated ones.
pub open spec fn once(trail: Seq<DecisionView>) -> bool {
    &&& forall|d1: int, d2: int, x: isize|
        #[trigger] named_at(trail, d1, x) && #[trigger] named_at(trail, d2, x) ==> d1 == d2
    &&& forall|d: int|
        0 <= d < trail.len() && (#[trigger] trail[d]).decided != 0 ==> !trail[d].propagates(
            trail[d].decided,
        )
}

/// Whether the trail, up to level `k`, names a literal of `lits`.
pub open spec fn witnessed(lits: Seq<isize>, trail: Seq<DecisionView>, k: int) -> bool {
    exists|j: int| 0 <= j < lits.len() && named_by(trail, k, #[trigger] lits[j])
}

/// Every clause of `cs` that is marked satisfied at a level holds a literal that the
/// trail names at that level or below.
pub open spec fn justified(cs: Seq<ClauseView>, trail: Seq<DecisionView>) -> bool {
    forall|i: int|
        0 <= i < cs.len() && (#[trigger] cs[i]).satisfied is Some ==> witnessed(
            cs[i].literals,
            trail,
            cs[i].satisfied->0 as int,
        )
}

/// The state of a search in which every mark is justified: the assignment and the trail
/// agree, no literal stands on the trail twice, no clause is marked above the current
/// level, and every marked clause has its witness on the trail.
pub open spec fn sound(
    originals: Seq<ClauseView>,
    learned: Seq<ClauseView>,
    m: Seq<ModelValue>,
    level: usize,
    trail: Seq<DecisionView>,
) -> bool {
    &&& trail.len() == level + 1
    &&& agrees(m, trail)
    &&& once(trail)
    &&& marks_below(originals, level)
    &&& marks_below(learned, level)
    &&& justified(originals, trail)
    &&& justified(learned, trail)
    &&& watched_ok(originals, m)
    &&& watched_ok(learned, m)
    &&& entails(originals, learned, m.len() as int)
}

/// Every clause of `cs` that is not marked satisfied has left only falsified literals
/// behind its watches.
pub open spec fn watched_ok(cs: Seq<ClauseView>, m: Seq<ModelValue>) -> bool {
    forall|i: int|
        0 <= i < cs.len() && !(#[trigger] cs[i]).marked() ==> passed_falsified(
            cs[i].literals,
            m,
            cs[i].watches.0 as int,
            cs[i].watches.1 as int,
        )
}

/// Every clause of `cs` that is not marked satisfied has its watches at their start.
pub open spec fn all_fresh(cs: Seq<ClauseView>) -> bool {
    forall|i: int|
        0 <= i < cs.len() && !(#[trigger] cs[i]).marked() ==> cs[i].watches == fresh_watches(
            cs[i].literals.len(),
        )
}

/// Whether the literal `x` is true under the total assignment `a`, which gives the
/// variable `v` the value `a[v - 1]`.
pub open spec fn lit_true(a: Seq<bool>, x: isize) -> bool {
    if x > 0 {
        a[lit_var(x) - 1]
    } else {
        !a[lit_var(x) - 1]
    }
}

/// Whether the total assignment `a` makes some literal of `lits` true.
pub open spec fn models(a: Seq<bool>, lits: Seq<isize>) -> bool {
    exists|j: int| 0 <= j < lits.len() && lit_true(a, #[trigger] lits[j])
}

/// Whether the total assignment `a` satisfies every clause of `cs`.
pub open spec fn models_all(a: Seq<bool>, cs: Seq<ClauseView>) -> bool {
    forall|i: int| 0 <= i < cs.len() ==> models(a, (#[trigger] cs[i]).literals)
}

/// Every total assignment over `size` variables that satisfies the clauses `premises`
/// satisfies the clauses `conclusions`.
pub open spec fn entails(premises: Seq<ClauseView>, conclusions: Seq<ClauseView>, size: int) -> bool {
    forall|a: Seq<bool>|
        a.len() == size && #[trigger] models_all(a, premises) ==> models_all(a, conclusions)
}

/// No total assignment over `size` variables satisfies every clause of `cs`.
pub open spec fn unsatisfiable(cs: Seq<ClauseView>, size: int) -> bool {
    forall|a: Seq<bool>| a.len() == size ==> !#[trigger] models_all(a, cs)
}

/// Resolution is sound: an assignment that satisfies two clauses satisfies their
/// resolvent on a pivot, when the first clause lacks the complement of the pivot and the
/// second lacks the pivot.
pub proof fn lemma_resolution(a: Seq<bool>, reason: Seq<isize>, conflict: Seq<isize>, pivot: isize)
    requires
        pivot != 0,
        pivot != isize::MIN,
        !reason.contains((-pivot) as isize),
        !conflict.contains(pivot),
        models(a, reason),
        models(a, conflict),
    ensures
        models(a, resolvent_of(reason, conflict, pivot)),
{
    let both = reason + conflict;
    lemma_normalize(both);
    let n = normalize(both);
    crate::clause::lemma_without_normalized(n, pivot);
    let w = without(n, pivot);
    crate::clause::lemma_without_normalized(w, (-pivot) as isize);
    let r = resolvent_of(reason, conflict, pivot);
    let i = choose|i: int| 0 <= i < reason.len() && lit_true(a, #[trigger] reason[i]);
    let j = choose|j: int| 0 <= j < conflict.len() && lit_true(a, #[trigger] conflict[j]);
    let x = reason[i];
    let y = conflict[j];
    assert(reason.contains(x));
    assert(conflict.contains(y));
    assert(both[i] == x);
    assert(both[reason.len() + j] == y);
    assert(both.contains(x) && both.contains(y));
    assert(n.contains(x) && n.contains(y));
    assert(x != (-pivot) as isize);
    assert(y != pivot);
    if x != pivot {
        assert(w.contains(x));
        assert(r.contains(x));
        let k = choose|k: int| 0 <= k < r.len() && r[k] == x;
        assert(lit_true(a, r[k]));
    } else {
        assert(lit_true(a, pivot));
        assert(y != (-pivot) as isize) by {
            if y == (-pivot) as isize {
                assert(lit_var(y) == lit_var(pivot));
            }
        }
        assert(w.contains(y));
        assert(r.contains(y));
        let k = choose|k: int| 0 <= k < r.len() && r[k] == y;
        assert(lit_true(a, r[k]));
    }
}

/// A clause that is no tautology and holds a literal lacks the complement of it.
pub proof fn lemma_no_complement(lits: Seq<isize>, x: isize)
    requires
        !has_complements(lits),
        lits.contains(x),
        x != 0,
        x != isize::MIN,
    ensures
        !lits.contains((-x) as isize),
{
    if lits.contains((-x) as isize) {
        let i = choose|i: int| 0 <= i < lits.len() && lits[i] == x;
        let j = choose|j: int| 0 <= j < lits.len() && lits[j] == (-x) as isize;
        assert(lits[i] as int + lits[j] as int == 0 && lits[i] != 0);
    }
}

/// Watches at their start have left nothing behind.
pub proof fn lemma_fresh_watched(cs: Seq<ClauseView>, m: Seq<ModelValue>)
    requires
        all_fresh(cs),
    ensures
        watched_ok(cs, m),
{
    assert forall|i: int| 0 <= i < cs.len() && !(#[trigger] cs[i]).marked() implies passed_falsified(
        cs[i].literals,
        m,
        cs[i].watches.0 as int,
        cs[i].watches.1 as int,
    ) by {
        assert(cs[i].watches == fresh_watches(cs[i].literals.len()));
    }
}

/// After the satisfaction reset every clause not marked satisfied has its watches at
/// their start.
pub proof fn lemma_reset_fresh(cs: Seq<ClauseView>, level: usize)
    requires
        forall|i: int| 0 <= i < cs.len() ==> (#[trigger] cs[i]).wf(),
    ensures
        all_fresh(reset_each(cs, level)),
{
    assert forall|i: int|
        0 <= i < cs.len() && !(#[trigger] reset_each(cs, level)[i]).marked() implies reset_each(
        cs,
        level,
    )[i].watches == fresh_watches(reset_each(cs, level)[i].literals.len()) by {
        assert(cs[i].wf());
    }
}

/// An evaluation pass leaves only falsified literals behind the watches, and a clause
/// that it finds falsified has no literal left that is true or unassigned.
pub proof fn lemma_pass_watched(cs: Seq<ClauseView>, m: Seq<ModelValue>, level: usize)
    requires
        watched_ok(cs, m),
        forall|i: int| 0 <= i < cs.len() ==> (#[trigger] cs[i]).wf() && cs[i].literals.len() > 0,
    ensures
        watched_ok(pass(cs, m, level), m),
        first_falsified(cs, m) < cs.len() ==> all_falsified(cs[first_falsified(cs, m)].literals, m),
{
    let after = pass(cs, m, level);
    crate::clause_tools::lemma_first_falsified(cs, m);
    assert forall|i: int| 0 <= i < after.len() && !(#[trigger] after[i]).marked() implies passed_falsified(
        after[i].literals,
        m,
        after[i].watches.0 as int,
        after[i].watches.1 as int,
    ) by {
        let c = cs[i];
        if after[i] == c {
            assert(!c.marked());
        } else {
            assert(!c.marked());
            lemma_scan(c.literals, m, c.watches.0 as int, c.watches.1 as int);
            lemma_scan_sound(c.literals, m, c.watches.0 as int, c.watches.1 as int);
        }
    }
    let k = first_falsified(cs, m);
    if k < cs.len() {
        let c = cs[k];
        assert(c.verdict(m) == SAT::Unsatisfiable);
        assert(!c.marked());
        lemma_scan_sound(c.literals, m, c.watches.0 as int, c.watches.1 as int);
    }
}

/// Giving a value to an unassigned variable keeps what lies behind the watches
/// falsified.
pub proof fn lemma_grow_watched(cs: Seq<ClauseView>, m: Seq<ModelValue>, x: isize)
    requires
        watched_ok(cs, m),
        lit_in_range(x, m.len() as int),
        m[lit_var(x) - 1] == ModelValue::Unknown,
        forall|i: int|
            0 <= i < cs.len() ==> crate::literal::lits_in_range((#[trigger] cs[i]).literals, m.len() as int),
    ensures
        watched_ok(cs, m.update(lit_var(x) - 1, polarity_of(x))),
{
    let m2 = m.update(lit_var(x) - 1, polarity_of(x));
    assert forall|i: int| 0 <= i < cs.len() && !(#[trigger] cs[i]).marked() implies passed_falsified(
        cs[i].literals,
        m2,
        cs[i].watches.0 as int,
        cs[i].watches.1 as int,
    ) by {
        let c = cs[i];
        assert(passed_falsified(c.literals, m, c.watches.0 as int, c.watches.1 as int));
        assert forall|k: int|
            0 <= k < c.literals.len() && k != c.watches.0 && k != c.watches.1 && (k < c.watches.1
                || c.watches.0 == c.watches.1) implies lit_value(m2, #[trigger] c.literals[k])
            == SAT::Unsatisfiable by {
            assert(lit_value(m, c.literals[k]) == SAT::Unsatisfiable);
            assert(lit_in_range(c.literals[k], m.len() as int));
        }
    }
}

/// Clause lists that agree in their literals entail, and are entailed by, the same.
pub proof fn lemma_entails_same(
    o1: Seq<ClauseView>,
    l1: Seq<ClauseView>,
    o2: Seq<ClauseView>,
    l2: Seq<ClauseView>,
    size: int,
)
    requires
        entails(o1, l1, size),
        o1.len() == o2.len(),
        l1.len() == l2.len(),
        forall|i: int| 0 <= i < o1.len() ==> (#[trigger] o1[i]).literals == o2[i].literals,
        forall|i: int| 0 <= i < l1.len() ==> (#[trigger] l1[i]).literals == l2[i].literals,
    ensures
        entails(o2, l2, size),
{
    assert forall|a: Seq<bool>| a.len() == size && #[trigger] models_all(a, o2) implies models_all(
        a,
        l2,
    ) by {
        assert forall|i: int| 0 <= i < o1.len() implies models(a, (#[trigger] o1[i]).literals) by {
            assert(models(a, o2[i].literals));
        }
        assert(models_all(a, o1));
        assert(models_all(a, l1));
        assert forall|i: int| 0 <= i < l2.len() implies models(a, (#[trigger] l2[i]).literals) by {
            assert(models(a, l1[i].literals));
        }
    }
}

/// What a forget keeps is still entailed.
pub proof fn lemma_kept_entailed(
    originals: Seq<ClauseView>,
    cs: Seq<ClauseView>,
    half: int,
    mean: int,
    n: int,
    size: int,
)
    requires
        0 <= n <= cs.len(),
        entails(originals, cs, size),
    ensures
        entails(originals, kept(cs, half, mean, n), size),
    decreases n,
{
    if n > 0 {
        lemma_kept_entailed(originals, cs, half, mean, n - 1, size);
    }
    let r = kept(cs, half, mean, n);
    assert forall|a: Seq<bool>| a.len() == size && #[trigger] models_all(a, originals) implies models_all(
        a,
        r,
    ) by {
        assert(models_all(a, cs));
        if n > 0 {
            let init = kept(cs, half, mean, n - 1);
            assert(models_all(a, init));
            assert forall|i: int| 0 <= i < r.len() implies models(a, (#[trigger] r[i]).literals) by {
                if i < init.len() {
                    assert(models(a, init[i].literals));
                } else {
                    assert(models(a, cs[n - 1].literals));
                }
            }
        }
    }
}

/// What a forget keeps has left only falsified literals behind its watches.
pub proof fn lemma_kept_watched(cs: Seq<ClauseView>, half: int, mean: int, n: int, m: Seq<ModelValue>)
    requires
        0 <= n <= cs.len(),
        watched_ok(cs, m),
    ensures
        watched_ok(kept(cs, half, mean, n), m),
    decreases n,
{
    if n > 0 {
        lemma_kept_watched(cs, half, mean, n - 1, m);
        let init = kept(cs, half, mean, n - 1);
        let r = kept(cs, half, mean, n);
        assert forall|i: int| 0 <= i < r.len() && !(#[trigger] r[i]).marked() implies passed_falsified(
            r[i].literals,
            m,
            r[i].watches.0 as int,
            r[i].watches.1 as int,
        ) by {
            if i < init.len() {
                assert(!init[i].marked());
            } else {
                assert(!cs[n - 1].marked());
            }
        }
    }
}

/// Some literal of `lits` is true under `m`.
pub open spec fn holds(lits: Seq<isize>, m: Seq<ModelValue>) -> bool {
    exists|j: int| 0 <= j < lits.len() && lit_value(m, #[trigger] lits[j]) == SAT::Satisfiable
}

/// Every clause of `cs` that is no tautology holds a literal that is true under `m`.
pub open spec fn satisfies_each(cs: Seq<ClauseView>, m: Seq<ModelValue>) -> bool {
    forall|i: int| 0 <= i < cs.len() && !(#[trigger] cs[i]).tautology ==> holds(cs[i].literals, m)
}

/// No assignment makes a literal and its complement true.
pub proof fn lemma_model_consistent(m: Seq<ModelValue>, x: isize, y: isize)
    requires
        lit_var(x) == lit_var(y),
        x != y,
    ensures
        !(lit_value(m, x) == SAT::Satisfiable && lit_value(m, y) == SAT::Satisfiable),
{
}

/// In a state in which every mark is justified, a clause marked satisfied holds a
/// literal that the assignment makes true.
pub proof fn lemma_marked_holds(cs: Seq<ClauseView>, m: Seq<ModelValue>, level: usize, trail: Seq<DecisionView>)
    requires
        trail.len() == level + 1,
        agrees(m, trail),
        marks_below(cs, level),
        justified(cs, trail),
        forall|i: int|
            0 <= i < cs.len() ==> crate::literal::lits_in_range((#[trigger] cs[i]).literals, m.len() as int),
    ensures
        forall|i: int|
            0 <= i < cs.len() && (#[trigger] cs[i]).satisfied is Some ==> holds(cs[i].literals, m),
{
    assert forall|i: int| 0 <= i < cs.len() && (#[trigger] cs[i]).satisfied is Some implies holds(
        cs[i].literals,
        m,
    ) by {
        let lits = cs[i].literals;
        let k = cs[i].satisfied->0 as int;
        let j = choose|j: int| 0 <= j < lits.len() && named_by(trail, k, #[trigger] lits[j]);
        let d = choose|d: int| 0 <= d <= k && #[trigger] named_at(trail, d, lits[j]);
        assert(named_at(trail, d, lits[j]));
        assert(named_by(trail, trail.len() - 1, lits[j]));
        assert(lit_in_range(lits[j], m.len() as int));
        assert(lit_value(m, lits[j]) == SAT::Satisfiable);
    }
}

/// An evaluation pass keeps every mark justified: a clause is marked only on a literal
/// that the assignment makes true, and the trail names that literal.
pub proof fn lemma_pass_justified(cs: Seq<ClauseView>, m: Seq<ModelValue>, level: usize, trail: Seq<DecisionView>)
    requires
        trail.len() == level + 1,
        agrees(m, trail),
        justified(cs, trail),
        forall|i: int|
            0 <= i < cs.len() ==> (#[trigger] cs[i]).wf() && cs[i].literals.len() > 0
                && crate::literal::lits_in_range(cs[i].literals, m.len() as int),
    ensures
        justified(pass(cs, m, level), trail),
{
    let after = pass(cs, m, level);
    assert forall|i: int| 0 <= i < after.len() && (#[trigger] after[i]).satisfied is Some implies witnessed(
        after[i].literals,
        trail,
        after[i].satisfied->0 as int,
    ) by {
        let c = cs[i];
        if after[i] == c {
            assert(c.satisfied is Some);
        } else if c.marked() {
        } else {
            lemma_scan(c.literals, m, c.watches.0 as int, c.watches.1 as int);
            let end = crate::watch::scan(c.literals, m, c.watches.0 as int, c.watches.1 as int);
            assert(end.2 == SAT::Satisfiable);
            let w = if lit_value(m, c.literals[end.0]) == SAT::Satisfiable {
                end.0
            } else {
                end.1
            };
            let x = c.literals[w];
            assert(lit_in_range(x, m.len() as int));
            assert(lit_value(m, x) == SAT::Satisfiable);
            assert(named_by(trail, trail.len() - 1, x));
            assert(after[i].literals[w] == x);
            assert(after[i].satisfied->0 == level);
        }
    }
}

/// What clearing variables leaves of an assignment.
pub proof fn lemma_cleared(m: Seq<ModelValue>, lits: Seq<(isize, usize)>)
    requires
        forall|i: int| 0 <= i < lits.len() ==> lit_in_range((#[trigger] lits[i]).0, m.len() as int),
    ensures
        cleared(m, lits).len() == m.len(),
        forall|v: int|
            0 <= v < m.len() ==> #[trigger] cleared(m, lits)[v] == if exists|i: int|
                0 <= i < lits.len() && lit_var((#[trigger] lits[i]).0) - 1 == v {
                ModelValue::Unknown
            } else {
                m[v]
            },
    decreases lits.len(),
{
    if lits.len() > 0 {
        let t = lits.drop_last();
        assert forall|i: int| 0 <= i < t.len() implies lit_in_range((#[trigger] t[i]).0, m.len() as int) by {
            assert(t[i] == lits[i]);
        }
        lemma_cleared(m, t);
        assert forall|v: int| 0 <= v < m.len() implies #[trigger] cleared(m, lits)[v] == if exists|
            i: int,
        |
            0 <= i < lits.len() && lit_var((#[trigger] lits[i]).0) - 1 == v {
            ModelValue::Unknown
        } else {
            m[v]
        } by {
            let last = lits[lits.len() - 1];
            if lit_var(last.0) - 1 == v {
            } else {
                if exists|i: int| 0 <= i < t.len() && lit_var((#[trigger] t[i]).0) - 1 == v {
                    let i = choose|i: int| 0 <= i < t.len() && lit_var((#[trigger] t[i]).0) - 1 == v;
                    assert(lits[i] == t[i]);
                }
                if exists|i: int| 0 <= i < lits.len() && lit_var((#[trigger] lits[i]).0) - 1 == v {
                    let i = choose|i: int|
                        0 <= i < lits.len() && lit_var((#[trigger] lits[i]).0) - 1 == v;
                    assert(t[i] == lits[i]);
                }
            }
        }
    }
}

/// The trail with the propagated literals of its top level removed.
pub open spec fn emptied(trail: Seq<DecisionView>) -> Seq<DecisionView> {
    trail.update(
        trail.len() - 1,
        DecisionView { decided: trail.last().decided, propagated: Seq::empty() },
    )
}

/// Undoing the propagations of the top level keeps the assignment and the trail in
/// agreement.
pub proof fn lemma_unwound_agrees(m: Seq<ModelValue>, trail: Seq<DecisionView>)
    requires
        trail.len() > 0,
        agrees(m, trail),
        once(trail),
        trail_in_range(trail, m.len() as int),
    ensures
        agrees(cleared(m, trail.last().propagated), emptied(trail)),
        once(emptied(trail)),
        forall|d: int, x: isize|
            0 <= d < trail.len() - 1 ==> (named_at(emptied(trail), d, x) <==> #[trigger] named_at(
                trail,
                d,
                x,
            )),
{
    let top = trail.len() - 1;
    let props = trail.last().propagated;
    let m2 = cleared(m, props);
    let t2 = emptied(trail);
    assert forall|i: int| 0 <= i < props.len() implies lit_in_range((#[trigger] props[i]).0, m.len() as int) by {
        assert(lit_in_range(trail[top].propagated[i].0, m.len() as int));
    }
    lemma_cleared(m, props);
    assert forall|d: int, x: isize| named_at(t2, d, x) implies named_at(trail, d, x) by {
        if d == top {
            assert(!t2[d].propagates(x));
        }
    }
    assert forall|x: isize| lit_in_range(x, m2.len() as int) implies ((#[trigger] lit_value(m2, x))
        == SAT::Satisfiable <==> named_by(t2, t2.len() - 1, x)) by {
        let v = lit_var(x) - 1;
        let hit = exists|i: int| 0 <= i < props.len() && lit_var((#[trigger] props[i]).0) - 1 == v;
        assert(lit_value(m, x) == SAT::Satisfiable <==> named_by(trail, trail.len() - 1, x));
        if named_by(t2, t2.len() - 1, x) {
            let d = choose|d: int| 0 <= d <= t2.len() - 1 && #[trigger] named_at(t2, d, x);
            assert(named_at(trail, d, x));
            assert(named_by(trail, trail.len() - 1, x));
            if hit {
                let i = choose|i: int| 0 <= i < props.len() && lit_var((#[trigger] props[i]).0) - 1 == v;
                let p = props[i].0;
                assert(trail[top].propagated[i].0 == p);
                assert(trail[top].propagates(p));
                assert(named_at(trail, top, p));
                assert(named_by(trail, trail.len() - 1, p));
                assert(lit_in_range(p, m.len() as int));
                assert(lit_value(m, p) == SAT::Satisfiable);
                lemma_model_consistent(m, x, p);
                assert(x == p);
                assert(named_at(trail, top, x));
                assert(d == top);
                assert(t2[top].decided == x);
                assert(trail[top].decided == x);
            }
        }
        if lit_value(m2, x) == SAT::Satisfiable {
            assert(!hit);
            let d = choose|d: int| 0 <= d <= trail.len() - 1 && #[trigger] named_at(trail, d, x);
            if d == top {
                if trail[top].propagates(x) {
                    let i = choose|i: int|
                        0 <= i < trail[top].propagated.len() && (#[trigger] trail[top].propagated[i]).0
                            == x;
                    assert(lit_var(props[i].0) - 1 == v);
                }
                assert(t2[top].names(x));
            }
            assert(named_at(t2, d, x));
        }
    }
    assert forall|d1: int, d2: int, x: isize|
        #[trigger] named_at(t2, d1, x) && #[trigger] named_at(t2, d2, x) implies d1 == d2 by {
        assert(named_at(trail, d1, x) && named_at(trail, d2, x));
    }
    assert forall|d: int| 0 <= d < t2.len() && (#[trigger] t2[d]).decided != 0 implies !t2[d].propagates(
        t2[d].decided,
    ) by {
        if d != top {
            assert(trail[d].decided != 0);
        }
    }
}

/// Removing the emptied top level above the ground keeps the assignment and the trail
/// in agreement.
pub proof fn lemma_popped_agrees(m: Seq<ModelValue>, trail: Seq<DecisionView>)
    requires
        trail.len() > 1,
        trail.last().propagated.len() == 0,
        agrees(m, trail),
        once(trail),
        trail_in_range(trail, m.len() as int),
    ensures
        agrees(m.update(lit_var(trail.last().decided) - 1, ModelValue::Unknown), trail.drop_last()),
        once(trail.drop_last()),
{
    let top = trail.len() - 1;
    let dec = trail.last().decided;
    let m2 = m.update(lit_var(dec) - 1, ModelValue::Unknown);
    let t2 = trail.drop_last();
    assert(lit_in_range(trail[top].decided, m.len() as int));
    assert(named_at(trail, top, dec));
    assert forall|x: isize| lit_in_range(x, m2.len() as int) implies ((#[trigger] lit_value(m2, x))
        == SAT::Satisfiable <==> named_by(t2, t2.len() - 1, x)) by {
        assert(lit_value(m, x) == SAT::Satisfiable <==> named_by(trail, trail.len() - 1, x));
        if named_by(t2, t2.len() - 1, x) {
            let d = choose|d: int| 0 <= d <= t2.len() - 1 && #[trigger] named_at(t2, d, x);
            assert(named_at(trail, d, x));
            assert(named_by(trail, trail.len() - 1, x));
            if lit_var(x) == lit_var(dec) {
                assert(named_by(trail, trail.len() - 1, dec));
                assert(lit_value(m, dec) == SAT::Satisfiable);
                lemma_model_consistent(m, x, dec);
                assert(x == dec);
                assert(d == top);
            }
        }
        if lit_value(m2, x) == SAT::Satisfiable {
            let d = choose|d: int| 0 <= d <= trail.len() - 1 && #[trigger] named_at(trail, d, x);
            if d == top {
                assert(!trail[top].propagates(x));
                assert(x == dec);
            }
            assert(named_at(t2, d, x));
        }
    }
    assert forall|d1: int, d2: int, x: isize|
        #[trigger] named_at(t2, d1, x) && #[trigger] named_at(t2, d2, x) implies d1 == d2 by {
        assert(named_at(trail, d1, x) && named_at(trail, d2, x));
    }
    assert forall|d: int| 0 <= d < t2.len() && (#[trigger] t2[d]).decided != 0 implies !t2[d].propagates(
        t2[d].decided,
    ) by {
        assert(trail[d].decided != 0);
    }
}

/// Naming an unassigned literal on the top level, as propagated, keeps the assignment
/// and the trail in agreement.
pub proof fn lemma_extended_agrees(m: Seq<ModelValue>, trail: Seq<DecisionView>, x: isize, reason: usize)
    requires
        trail.len() > 0,
        agrees(m, trail),
        once(trail),
        lit_in_range(x, m.len() as int),
        m[lit_var(x) - 1] == ModelValue::Unknown,
    ensures
        ({
            let t2 = trail.update(
                trail.len() - 1,
                DecisionView {
                    decided: trail.last().decided,
                    propagated: trail.last().propagated.push((x, reason)),
                },
            );
            &&& agrees(m.update(lit_var(x) - 1, polarity_of(x)), t2)
            &&& once(t2)
            &&& forall|d: int, y: isize| named_at(trail, d, y) ==> #[trigger] named_at(t2, d, y)
        }),
{
    let top = trail.len() - 1;
    let props = trail.last().propagated;
    let t2 = trail.update(
        top,
        DecisionView { decided: trail.last().decided, propagated: props.push((x, reason)) },
    );
    let m2 = m.update(lit_var(x) - 1, polarity_of(x));
    assert(t2[top].propagated[props.len() as int].0 == x);
    assert(t2[top].propagates(x));
    assert(named_at(t2, top, x));
    assert forall|d: int, y: isize| named_at(trail, d, y) implies #[trigger] named_at(t2, d, y) by {
        if d == top && trail[d].propagates(y) {
            let i = choose|i: int| 0 <= i < props.len() && (#[trigger] props[i]).0 == y;
            assert(t2[top].propagated[i].0 == y);
        }
    }
    assert forall|d: int, y: isize| named_at(t2, d, y) && y != x implies #[trigger] named_at(
        trail,
        d,
        y,
    ) by {
        if d == top && t2[d].propagates(y) {
            let i = choose|i: int| 0 <= i < t2[top].propagated.len() && (#[trigger] t2[top].propagated[i]).0
                == y;
            assert(i < props.len());
            assert(props[i].0 == y);
        }
    }
    assert(lit_value(m, x) != SAT::Satisfiable);
    assert(!named_by(trail, trail.len() - 1, x));
    assert forall|d: int| !named_at(trail, d, x) by {
        if named_at(trail, d, x) {
            assert(named_by(trail, trail.len() - 1, x));
        }
    }
    assert forall|y: isize| lit_in_range(y, m2.len() as int) implies ((#[trigger] lit_value(m2, y))
        == SAT::Satisfiable <==> named_by(t2, t2.len() - 1, y)) by {
        assert(lit_value(m, y) == SAT::Satisfiable <==> named_by(trail, trail.len() - 1, y));
        if y == x {
            assert(named_at(t2, top, x));
        } else {
            if named_by(t2, t2.len() - 1, y) {
                let d = choose|d: int| 0 <= d <= t2.len() - 1 && #[trigger] named_at(t2, d, y);
                assert(named_at(trail, d, y));
            }
            if named_by(trail, trail.len() - 1, y) {
                let d = choose|d: int| 0 <= d <= trail.len() - 1 && #[trigger] named_at(trail, d, y);
                assert(named_at(t2, d, y));
            }
            if lit_var(y) == lit_var(x) {
                assert(lit_value(m, y) != SAT::Satisfiable);
            }
        }
    }
    assert forall|d1: int, d2: int, y: isize|
        #[trigger] named_at(t2, d1, y) && #[trigger] named_at(t2, d2, y) implies d1 == d2 by {
        if y == x {
            if d1 != top {
                assert(t2[d1] == trail[d1]);
                assert(named_at(trail, d1, x));
            }
            if d2 != top {
                assert(t2[d2] == trail[d2]);
                assert(named_at(trail, d2, x));
            }
        } else {
            assert(named_at(trail, d1, y) && named_at(trail, d2, y));
        }
    }
    assert forall|d: int| 0 <= d < t2.len() && (#[trigger] t2[d]).decided != 0 implies !t2[d].propagates(
        t2[d].decided,
    ) by {
        let dec = t2[d].decided;
        assert(trail[d].decided != 0);
        if d == top && t2[d].propagates(dec) {
            let i = choose|i: int| 0 <= i < t2[top].propagated.len() && (#[trigger] t2[top].propagated[i]).0
                == dec;
            if i < props.len() {
                assert(props[i].0 == dec);
            } else {
                assert(dec == x);
                assert(named_at(trail, top, x));
            }
        }
    }
}

/// Deciding an unassigned literal on a new level keeps the assignment and the trail in
/// agreement.
pub proof fn lemma_opened_agrees(m: Seq<ModelValue>, trail: Seq<DecisionView>, x: isize)
    requires
        trail.len() > 0,
        agrees(m, trail),
        once(trail),
        lit_in_range(x, m.len() as int),
        m[lit_var(x) - 1] == ModelValue::Unknown,
    ensures
        ({
            let t2 = trail.push(DecisionView { decided: x, propagated: Seq::empty() });
            &&& agrees(m.update(lit_var(x) - 1, polarity_of(x)), t2)
            &&& once(t2)
            &&& forall|d: int, y: isize| named_at(trail, d, y) ==> #[trigger] named_at(t2, d, y)
        }),
{
    let top = trail.len() as int;
    let t2 = trail.push(DecisionView { decided: x, propagated: Seq::empty() });
    let m2 = m.update(lit_var(x) - 1, polarity_of(x));
    assert(named_at(t2, top, x));
    assert(lit_value(m, x) != SAT::Satisfiable);
    assert forall|d: int| !named_at(trail, d, x) by {
        if named_at(trail, d, x) {
            assert(named_by(trail, trail.len() - 1, x));
        }
    }
    assert forall|d: int, y: isize| named_at(trail, d, y) implies #[trigger] named_at(t2, d, y) by {
        assert(t2[d] == trail[d]);
    }
    assert forall|d: int, y: isize| named_at(t2, d, y) && y != x implies #[trigger] named_at(
        trail,
        d,
        y,
    ) by {
        if d == top {
            assert(!t2[d].propagates(y));
        } else {
            assert(t2[d] == trail[d]);
        }
    }
    assert forall|y: isize| lit_in_range(y, m2.len() as int) implies ((#[trigger] lit_value(m2, y))
        == SAT::Satisfiable <==> named_by(t2, t2.len() - 1, y)) by {
        assert(lit_value(m, y) == SAT::Satisfiable <==> named_by(trail, trail.len() - 1, y));
        if y == x {
            assert(named_at(t2, top, x));
        } else {
            if named_by(t2, t2.len() - 1, y) {
                let d = choose|d: int| 0 <= d <= t2.len() - 1 && #[trigger] named_at(t2, d, y);
                assert(named_at(trail, d, y));
            }
            if named_by(trail, trail.len() - 1, y) {
                let d = choose|d: int| 0 <= d <= trail.len() - 1 && #[trigger] named_at(trail, d, y);
                assert(named_at(t2, d, y));
            }
            if lit_var(y) == lit_var(x) {
                assert(lit_value(m, y) != SAT::Satisfiable);
            }
        }
    }
    assert forall|d1: int, d2: int, y: isize|
        #[trigger] named_at(t2, d1, y) && #[trigger] named_at(t2, d2, y) implies d1 == d2 by {
        if y == x {
            if d1 != top {
                assert(t2[d1] == trail[d1]);
                assert(named_at(trail, d1, x));
            }
            if d2 != top {
                assert(t2[d2] == trail[d2]);
                assert(named_at(trail, d2, x));
            }
        } else {
            assert(named_at(trail, d1, y) && named_at(trail, d2, y));
        }
    }
    assert forall|d: int| 0 <= d < t2.len() && (#[trigger] t2[d]).decided != 0 implies !t2[d].propagates(
        t2[d].decided,
    ) by {
        if d == top {
            assert(!t2[d].propagates(x));
        } else {
            assert(t2[d] == trail[d]);
        }
    }
}

/// Marks stay justified on a trail that names, level by level, at least what the old
/// trail named up to the level of each mark.
pub proof fn lemma_justified_carries(
    cs: Seq<ClauseView>,
    ds: Seq<ClauseView>,
    trail: Seq<DecisionView>,
    t2: Seq<DecisionView>,
)
    requires
        justified(cs, trail),
        ds.len() == cs.len(),
        forall|i: int|
            0 <= i < cs.len() && (#[trigger] ds[i]).satisfied is Some ==> ds[i].satisfied
                == cs[i].satisfied && ds[i].literals == cs[i].literals,
        forall|i: int, d: int, y: isize|
            0 <= i < cs.len() && (#[trigger] ds[i]).satisfied is Some && d <= ds[i].satisfied->0
                && #[trigger] named_at(trail, d, y) ==> named_at(t2, d, y),
    ensures
        justified(ds, t2),
{
    assert forall|i: int| 0 <= i < ds.len() && (#[trigger] ds[i]).satisfied is Some implies witnessed(
        ds[i].literals,
        t2,
        ds[i].satisfied->0 as int,
    ) by {
        let lits = cs[i].literals;
        let k = cs[i].satisfied->0 as int;
        assert(cs[i].satisfied is Some);
        let j = choose|j: int| 0 <= j < lits.len() && named_by(trail, k, #[trigger] lits[j]);
        let d = choose|d: int| 0 <= d <= k && #[trigger] named_at(trail, d, lits[j]);
        assert(named_at(t2, d, lits[j]));
        assert(named_by(t2, k, ds[i].literals[j]));
    }
}

/// What a forget keeps stays justified.
pub proof fn lemma_kept_justified(cs: Seq<ClauseView>, half: int, mean: int, n: int, trail: Seq<DecisionView>)
    requires
        0 <= n <= cs.len(),
        justified(cs, trail),
    ensures
        justified(kept(cs, half, mean, n), trail),
    decreases n,
{
    if n > 0 {
        lemma_kept_justified(cs, half, mean, n - 1, trail);
        let init = kept(cs, half, mean, n - 1);
        let r = kept(cs, half, mean, n);
        assert forall|i: int| 0 <= i < r.len() && (#[trigger] r[i]).satisfied is Some implies witnessed(
            r[i].literals,
            trail,
            r[i].satisfied->0 as int,
        ) by {
            if i < init.len() {
                assert(init[i].satisfied is Some);
            } else {
                assert(cs[n - 1].satisfied is Some);
            }
        }
    }
}

} // verus!
