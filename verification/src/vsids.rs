use vstd::prelude::*;
use crate::literal::{lit_in_range, lit_var, lits_in_range, magnitude, var_index};
use crate::model::{Model, ModelValue};

verus! {

/// The score that one bump adds. Scores are fixed-point numbers with 32 fractional bits.
pub const ONE: u64 = 0x1_0000_0000;

/// A pair of scores whose halves sum to less than this is cleared.
pub const EPSILON: u64 = 0x200;

/// The pair `(positive, negative)` after one decay: both halved, and both cleared when
/// the halves together fall below `EPSILON`.
pub open spec fn decayed(s: (u64, u64)) -> (u64, u64) {
    let p = s.0 / 2;
    let n = s.1 / 2;
    if p + n < EPSILON {
        (0u64, 0u64)
    } else {
        (p, n)
    }
}

/// The scores after a decay of every pair.
pub open spec fn decayed_all(scores: Seq<(u64, u64)>) -> Seq<(u64, u64)> {
    scores.map_values(|s: (u64, u64)| decayed(s))
}

/// The scores after crediting one occurrence of `l`: `ONE` more on the side of its sign.
pub open spec fn credited(scores: Seq<(u64, u64)>, l: isize) -> Seq<(u64, u64)> {
    let v = lit_var(l) - 1;
    if l > 0 {
        scores.update(v, ((scores[v].0 + ONE) as u64, scores[v].1))
    } else {
        scores.update(v, (scores[v].0, (scores[v].1 + ONE) as u64))
    }
}

/// The scores after crediting each literal of `lits`.
pub open spec fn credited_all(scores: Seq<(u64, u64)>, lits: Seq<isize>) -> Seq<(u64, u64)>
    decreases lits.len(),
{
    if lits.len() == 0 {
        scores
    } else {
        credited(credited_all(scores, lits.drop_last()), lits.last())
    }
}

/// The scores after a conflict on a clause with literals `lits`: every pair decays, then
/// each literal of the clause is credited.
pub open spec fn bumped(scores: Seq<(u64, u64)>, lits: Seq<isize>) -> Seq<(u64, u64)> {
    credited_all(decayed_all(scores), lits)
}

/// No score exceeds what one bump after another can reach.
pub open spec fn bounded(scores: Seq<(u64, u64)>) -> bool {
    forall|i: int| 0 <= i < scores.len() ==> (#[trigger] scores[i]).0 <= 2 * ONE && scores[i].1 <= 2 * ONE
}

/// The activity of the variable at position `i`: the sum of its two scores.
pub open spec fn activity(scores: Seq<(u64, u64)>, i: int) -> int {
    scores[i].0 + scores[i].1
}

/// Whether the variable at position `i` can be picked: active and unassigned.
pub open spec fn pickable(scores: Seq<(u64, u64)>, m: Seq<ModelValue>, i: int) -> bool {
    0 <= i < scores.len() && activity(scores, i) > 0 && m[i] == ModelValue::Unknown
}

/// Whether `r` is the literal that the scores pick: the unassigned active variable of the
/// highest activity, the smallest such variable where several tie, positive unless its
/// negative score is the larger one; `0` when no variable is both active and unassigned.
pub open spec fn picks(scores: Seq<(u64, u64)>, m: Seq<ModelValue>, r: isize) -> bool {
    if r == 0 {
        forall|i: int| !pickable(scores, m, i)
    } else {
        let v = lit_var(r) - 1;
        &&& pickable(scores, m, v)
        &&& forall|i: int| pickable(scores, m, i) ==> activity(scores, i) <= activity(scores, v)
        &&& forall|i: int| pickable(scores, m, i) && i < v ==> activity(scores, i) < activity(scores, v)
        &&& (r > 0 <==> scores[v].0 >= scores[v].1)
    }
}

/// The literal that the scores pick.
pub open spec fn picked(scores: Seq<(u64, u64)>, m: Seq<ModelValue>) -> isize {
    choose|r: isize| picks(scores, m, r)
}

/// The scores pick one literal only.
pub proof fn lemma_picks_unique(scores: Seq<(u64, u64)>, m: Seq<ModelValue>, r1: isize, r2: isize)
    requires
        picks(scores, m, r1),
        picks(scores, m, r2),
    ensures
        r1 == r2,
{
    if r1 != 0 && r2 != 0 {
        let v1 = lit_var(r1) - 1;
        let v2 = lit_var(r2) - 1;
        assert(pickable(scores, m, v1) && pickable(scores, m, v2));
        assert(activity(scores, v1) == activity(scores, v2));
        assert(v1 == v2);
    } else if r1 != 0 {
        assert(pickable(scores, m, lit_var(r1) - 1));
    } else if r2 != 0 {
        assert(pickable(scores, m, lit_var(r2) - 1));
    }
}

/// A literal that the scores pick is the literal that they pick.
pub proof fn lemma_picked(scores: Seq<(u64, u64)>, m: Seq<ModelValue>, r: isize)
    requires
        picks(scores, m, r),
    ensures
        picked(scores, m) == r,
{
    lemma_picks_unique(scores, m, picked(scores, m), r);
}

/// Number of literals of `lits` on the variable `v`.
pub open spec fn count_var(lits: Seq<isize>, v: int) -> nat
    decreases lits.len(),
{
    if lits.len() == 0 {
        0
    } else {
        count_var(lits.drop_last(), v) + if lit_var(lits.last()) == v {
            1nat
        } else {
            0nat
        }
    }
}

/// Number of occurrences of the literal `x` in `lits`.
pub open spec fn count_lit(lits: Seq<isize>, x: int) -> nat
    decreases lits.len(),
{
    if lits.len() == 0 {
        0
    } else {
        count_lit(lits.drop_last(), x) + if lits.last() as int == x {
            1nat
        } else {
            0nat
        }
    }
}

/// Whether `r` is the literal that the occurrences `lits` pick: the variable that most
/// literals are on, the smallest such variable where several tie, negative when its
/// negative occurrences outnumber half of all its occurrences; `0` when `lits` is empty.
pub open spec fn majority_picks(lits: Seq<isize>, r: isize) -> bool {
    if lits.len() == 0 {
        r == 0
    } else {
        let v = lit_var(r);
        &&& r != 0
        &&& count_var(lits, v) > 0
        &&& forall|u: int| count_var(lits, u) <= count_var(lits, v)
        &&& forall|u: int| 0 <= u < v ==> count_var(lits, u) < count_var(lits, v)
        &&& (r < 0 <==> count_lit(lits, -v) > count_var(lits, v) / 2)
    }
}

/// The literal that the occurrences `lits` pick by majority.
pub open spec fn majority(lits: Seq<isize>) -> isize {
    choose|r: isize| majority_picks(lits, r)
}

/// The occurrences pick one literal only.
pub proof fn lemma_majority_unique(lits: Seq<isize>, r1: isize, r2: isize)
    requires
        majority_picks(lits, r1),
        majority_picks(lits, r2),
    ensures
        r1 == r2,
{
    if lits.len() > 0 {
        let v1 = lit_var(r1);
        let v2 = lit_var(r2);
        assert(count_var(lits, v1) <= count_var(lits, v2));
        assert(count_var(lits, v2) <= count_var(lits, v1));
        assert(v1 == v2);
    }
}

/// A literal that the occurrences pick is the literal that they pick.
pub proof fn lemma_majority(lits: Seq<isize>, r: isize)
    requires
        majority_picks(lits, r),
    ensures
        majority(lits) == r,
{
    lemma_majority_unique(lits, majority(lits), r);
}

/// Crediting distinct literals touches each score at most once.
proof fn lemma_credited_all(scores: Seq<(u64, u64)>, lits: Seq<isize>)
    requires
        lits_in_range(lits, scores.len() as int),
        lits.no_duplicates(),
        forall|i: int| 0 <= i < scores.len() ==> (#[trigger] scores[i]).0 <= ONE && scores[i].1 <= ONE,
    ensures
        credited_all(scores, lits).len() == scores.len(),
        forall|i: int|
            0 <= i < scores.len() ==> {
                let r = #[trigger] credited_all(scores, lits)[i];
                &&& r.0 == scores[i].0 + if lits.contains((i + 1) as isize) && i + 1 <= isize::MAX {
                    ONE as int
                } else {
                    0
                }
                &&& r.1 == scores[i].1 + if lits.contains((-(i + 1)) as isize) && i + 1 <= isize::MAX + 1 {
                    ONE as int
                } else {
                    0
                }
            },
    decreases lits.len(),
{
    if lits.len() > 0 {
        let t = lits.drop_last();
        let x = lits.last();
        assert(lit_in_range(lits[lits.len() - 1], scores.len() as int));
        assert forall|k: int| 0 <= k < t.len() implies lit_in_range(#[trigger] t[k], scores.len() as int) by {
            assert(t[k] == lits[k]);
        }
        lemma_credited_all(scores, t);
        let mid = credited_all(scores, t);
        assert(!t.contains(x)) by {
            if t.contains(x) {
                let k = choose|k: int| 0 <= k < t.len() && t[k] == x;
                assert(lits[k] == lits[lits.len() - 1]);
            }
        }
        assert forall|y: isize| lits.contains(y) <==> (t.contains(y) || y == x) by {
            if lits.contains(y) {
                let k = choose|k: int| 0 <= k < lits.len() && lits[k] == y;
                if k < t.len() {
                    assert(t[k] == y);
                }
            }
            if t.contains(y) {
                let k = choose|k: int| 0 <= k < t.len() && t[k] == y;
                assert(lits[k] == y);
            }
            if y == x {
                assert(lits[lits.len() - 1] == y);
            }
        }
        let v = lit_var(x) - 1;
        assert forall|i: int| 0 <= i < scores.len() implies ({
            let r = #[trigger] credited_all(scores, lits)[i];
            &&& r.0 == scores[i].0 + if lits.contains((i + 1) as isize) && i + 1 <= isize::MAX {
                ONE as int
            } else {
                0
            }
            &&& r.1 == scores[i].1 + if lits.contains((-(i + 1)) as isize) && i + 1 <= isize::MAX + 1 {
                ONE as int
            } else {
                0
            }
        }) by {
            let m = mid[i];
            if i == v {
                if x > 0 {
                    assert((i + 1) as isize == x);
                    assert((-(i + 1)) as isize != x);
                } else {
                    assert((-(i + 1)) as isize == x);
                    assert((i + 1) as isize != x || i + 1 > isize::MAX);
                }
            } else {
                assert((i + 1) as isize != x || i + 1 > isize::MAX);
                assert((-(i + 1)) as isize != x || i + 1 > isize::MAX + 1);
            }
        }
    }
}

/// A bump keeps the scores bounded.
pub proof fn lemma_bumped_bounded(scores: Seq<(u64, u64)>, lits: Seq<isize>)
    requires
        lits_in_range(lits, scores.len() as int),
        lits.no_duplicates(),
        bounded(scores),
    ensures
        bounded(bumped(scores, lits)),
        bumped(scores, lits).len() == scores.len(),
{
    let d = decayed_all(scores);
    assert forall|i: int| 0 <= i < d.len() implies (#[trigger] d[i]).0 <= ONE && d[i].1 <= ONE by {
        assert(scores[i].0 <= 2 * ONE);
    }
    lemma_credited_all(d, lits);
    assert forall|i: int| 0 <= i < scores.len() implies (#[trigger] bumped(scores, lits)[i]).0 <= 2
        * ONE && bumped(scores, lits)[i].1 <= 2 * ONE by {
        assert(d[i].0 <= ONE);
    }
}

/// Decays every score pair, then credits each literal of the conflict clause.
pub fn bump(scores: &mut Vec<(u64, u64)>, literals: &Vec<isize>)
    requires
        lits_in_range(literals@, old(scores)@.len() as int),
        literals@.no_duplicates(),
        bounded(old(scores)@),
    ensures
        final(scores)@ == bumped(old(scores)@, literals@),
        bounded(final(scores)@),
{
    let ghost before = scores@;
    let count = scores.len();
    let mut i: usize = 0;
    while i < count
        invariant
            0 <= i <= count,
            count == scores@.len(),
            before.len() == count,
            bounded(before),
            forall|k: int| 0 <= k < i ==> (#[trigger] scores@[k]) == decayed(before[k]),
            forall|k: int| i <= k < count ==> (#[trigger] scores@[k]) == before[k],
        decreases count - i,
    {
        let s = scores[i];
        assert(s.0 <= 2 * ONE && s.1 <= 2 * ONE);
        let p = s.0 / 2;
        let n = s.1 / 2;
        if p + n < EPSILON {
            scores[i] = (0, 0);
        } else {
            scores[i] = (p, n);
        }
        i += 1;
    }
    assert(scores@ =~= decayed_all(before));
    let ghost base = scores@;
    proof {
        lemma_bumped_bounded(before, literals@);
    }
    let mut j: usize = 0;
    assert(literals@.take(0) =~= Seq::<isize>::empty());
    while j < literals.len()
        invariant
            0 <= j <= literals@.len(),
            count == scores@.len(),
            base.len() == count,
            lits_in_range(literals@, count as int),
            literals@.no_duplicates(),
            forall|i: int| 0 <= i < base.len() ==> (#[trigger] base[i]).0 <= ONE && base[i].1 <= ONE,
            scores@ == credited_all(base, literals@.take(j as int)),
        decreases literals@.len() - j,
    {
        let l = literals[j];
        proof {
            let t = literals@.take(j + 1);
            assert(t.drop_last() =~= literals@.take(j as int));
            assert(t.last() == l);
            assert forall|k: int| 0 <= k < t.len() implies lit_in_range(#[trigger] t[k], count as int) by {
                assert(t[k] == literals@[k]);
            }
            assert(t.no_duplicates());
            lemma_credited_all(base, t);
            assert(lit_in_range(literals@[j as int], count as int));
            let u = literals@.take(j as int);
            assert forall|k: int| 0 <= k < u.len() implies lit_in_range(#[trigger] u[k], count as int) by {
                assert(u[k] == literals@[k]);
            }
            lemma_credited_all(base, u);
            let w = lit_var(l) - 1;
            assert(base[w].0 <= ONE && base[w].1 <= ONE);
            assert(scores@[w].0 <= 2 * ONE && scores@[w].1 <= 2 * ONE);
        }
        let v = var_index(l);
        let s = scores[v];
        if l > 0 {
            scores[v] = (s.0 + ONE, s.1);
        } else {
            scores[v] = (s.0, s.1 + ONE);
        }
        j += 1;
    }
    assert(literals@.take(literals@.len() as int) =~= literals@);
    proof {
        assert forall|i: int| 0 <= i < base.len() implies (#[trigger] base[i]).0 <= ONE && base[i].1
            <= ONE by {
            assert(before[i].0 <= 2 * ONE);
        }
    }
}

/// The literal that the scores pick among the variables that `model` leaves unassigned.
pub fn pick(scores: &Vec<(u64, u64)>, model: &Model) -> (r: isize)
    requires
        scores@.len() == model@.len(),
        scores@.len() <= isize::MAX,
        bounded(scores@),
    ensures
        r == picked(scores@, model@),
        picks(scores@, model@, r),
        r != 0 ==> lit_in_range(r, scores@.len() as int),
{
    let mut best: usize = 0;
    let mut found = false;
    let mut i: usize = 0;
    while i < scores.len()
        invariant
            0 <= i <= scores@.len(),
            scores@.len() == model@.len(),
            scores@.len() <= isize::MAX,
            bounded(scores@),
            found ==> best < i && pickable(scores@, model@, best as int),
            found ==> forall|k: int|
                0 <= k < i && pickable(scores@, model@, k) ==> activity(scores@, k) <= activity(
                    scores@,
                    best as int,
                ),
            found ==> forall|k: int|
                0 <= k < best && pickable(scores@, model@, k) ==> activity(scores@, k) < activity(
                    scores@,
                    best as int,
                ),
            !found ==> forall|k: int| 0 <= k < i ==> !pickable(scores@, model@, k),
        decreases scores@.len() - i,
    {
        let s = scores[i];
        assert(s.0 <= 2 * ONE && s.1 <= 2 * ONE);
        if s.0 + s.1 > 0 && !model.has_abs(i + 1) {
            if !found {
                found = true;
                best = i;
            } else {
                let b = scores[best];
                assert(b.0 <= 2 * ONE && b.1 <= 2 * ONE);
                if s.0 + s.1 > b.0 + b.1 {
                    best = i;
                }
            }
        }
        i += 1;
    }
    if !found {
        proof {
            lemma_picked(scores@, model@, 0);
        }
        return 0;
    }
    let s = scores[best];
    let r = if s.0 < s.1 {
        -((best + 1) as isize)
    } else {
        (best + 1) as isize
    };
    proof {
        lemma_picked(scores@, model@, r);
    }
    r
}

/// Number of literals of `lits` on the variable `v`.
fn count_on_variable(lits: &Vec<isize>, v: usize) -> (r: usize)
    ensures
        r == count_var(lits@, v as int),
{
    let mut r: usize = 0;
    let mut i: usize = 0;
    assert(lits@.take(0) =~= Seq::<isize>::empty());
    while i < lits.len()
        invariant
            0 <= i <= lits@.len(),
            r == count_var(lits@.take(i as int), v as int),
            r <= i,
        decreases lits@.len() - i,
    {
        assert(lits@.take(i + 1).drop_last() =~= lits@.take(i as int));
        if magnitude(lits[i]) == v {
            r += 1;
        }
        i += 1;
    }
    assert(lits@.take(lits@.len() as int) =~= lits@);
    r
}

/// Number of occurrences of `x` in `lits`.
fn count_of_literal(lits: &Vec<isize>, x: isize) -> (r: usize)
    ensures
        r == count_lit(lits@, x as int),
{
    let mut r: usize = 0;
    let mut i: usize = 0;
    assert(lits@.take(0) =~= Seq::<isize>::empty());
    while i < lits.len()
        invariant
            0 <= i <= lits@.len(),
            r == count_lit(lits@.take(i as int), x as int),
            r <= i,
        decreases lits@.len() - i,
    {
        assert(lits@.take(i + 1).drop_last() =~= lits@.take(i as int));
        if lits[i] == x {
            r += 1;
        }
        i += 1;
    }
    assert(lits@.take(lits@.len() as int) =~= lits@);
    r
}

/// A variable that no literal of `lits` is on counts zero; one that a literal is on
/// counts at least one.
pub proof fn lemma_count_var(lits: Seq<isize>, v: int)
    ensures
        count_var(lits, v) > 0 <==> exists|i: int| 0 <= i < lits.len() && lit_var(#[trigger] lits[i]) == v,
    decreases lits.len(),
{
    if lits.len() > 0 {
        let t = lits.drop_last();
        lemma_count_var(t, v);
        if count_var(lits, v) > 0 {
            if lit_var(lits.last()) == v {
                assert(lit_var(lits[lits.len() - 1]) == v);
            } else {
                let i = choose|i: int| 0 <= i < t.len() && lit_var(#[trigger] t[i]) == v;
                assert(lit_var(lits[i]) == v);
            }
        }
        if exists|i: int| 0 <= i < lits.len() && lit_var(#[trigger] lits[i]) == v {
            let i = choose|i: int| 0 <= i < lits.len() && lit_var(#[trigger] lits[i]) == v;
            if i < t.len() {
                assert(lit_var(t[i]) == v);
            }
        }
    }
}

/// The literal that the occurrences `lits` pick by majority.
pub fn pick_by_majority(lits: &Vec<isize>) -> (r: isize)
    requires
        forall|i: int| 0 <= i < lits@.len() ==> (#[trigger] lits@[i]) != 0 && lits@[i] != isize::MIN,
    ensures
        r == majority(lits@),
        majority_picks(lits@, r),
        r != 0 ==> exists|i: int| 0 <= i < lits@.len() && lit_var(#[trigger] lits@[i]) == lit_var(r),
{
    if lits.len() == 0 {
        proof {
            lemma_majority(lits@, 0);
        }
        return 0;
    }
    let mut best: usize = magnitude(lits[0]);
    let mut best_count: usize = count_on_variable(lits, best);
    proof {
        lemma_count_var(lits@, best as int);
    }
    let mut i: usize = 1;
    while i < lits.len()
        invariant
            1 <= i <= lits@.len(),
            forall|k: int| 0 <= k < lits@.len() ==> (#[trigger] lits@[k]) != 0 && lits@[k] != isize::MIN,
            best_count == count_var(lits@, best as int),
            best_count > 0,
            1 <= best <= isize::MAX,
            forall|k: int|
                0 <= k < i ==> count_var(lits@, lit_var(#[trigger] lits@[k])) <= best_count,
            forall|k: int|
                0 <= k < i && lit_var(#[trigger] lits@[k]) < best ==> count_var(
                    lits@,
                    lit_var(lits@[k]),
                ) < best_count,
        decreases lits@.len() - i,
    {
        let v = magnitude(lits[i]);
        let c = count_on_variable(lits, v);
        if c > best_count || (c == best_count && v < best) {
            proof {
                lemma_count_var(lits@, v as int);
            }
            best = v;
            best_count = c;
        }
        i += 1;
    }
    proof {
        assert forall|u: int| count_var(lits@, u) <= count_var(lits@, best as int) by {
            lemma_count_var(lits@, u);
            if count_var(lits@, u) > 0 {
                let k = choose|k: int| 0 <= k < lits@.len() && lit_var(#[trigger] lits@[k]) == u;
            }
        }
        assert forall|u: int| 0 <= u < best implies count_var(lits@, u) < count_var(
            lits@,
            best as int,
        ) by {
            lemma_count_var(lits@, u);
            if count_var(lits@, u) > 0 {
                let k = choose|k: int| 0 <= k < lits@.len() && lit_var(#[trigger] lits@[k]) == u;
            }
        }
        lemma_count_var(lits@, best as int);
    }
    let negative = -(best as isize);
    let r = if best_count / 2 < count_of_literal(lits, negative) {
        negative
    } else {
        best as isize
    };
    proof {
        lemma_majority(lits@, r);
    }
    r
}

} // verus!
