use vstd::prelude::*;
use crate::literal::{lit_var, magnitude};

verus! {

/// Literals in non-decreasing order of their variables.
pub open spec fn var_sorted(s: Seq<isize>) -> bool {
    forall|i: int, j: int| 0 <= i < j < s.len() ==> lit_var(s[i]) <= lit_var(s[j])
}

/// The shape every clause keeps its literals in: ordered by variable, nothing twice.
pub open spec fn normalized(s: Seq<isize>) -> bool {
    var_sorted(s) && s.no_duplicates()
}

/// `s` with `x` placed behind the last literal whose variable is not larger.
pub open spec fn insert_lit(s: Seq<isize>, x: isize) -> Seq<isize>
    decreases s.len(),
{
    if s.len() == 0 {
        seq![x]
    } else if lit_var(s.last()) <= lit_var(x) {
        s.push(x)
    } else {
        insert_lit(s.drop_last(), x).push(s.last())
    }
}

/// `s` extended by `x` unless `x` already occurs.
pub open spec fn add_lit(s: Seq<isize>, x: isize) -> Seq<isize> {
    if s.contains(x) {
        s
    } else {
        insert_lit(s, x)
    }
}

/// The normal form of `a`: its distinct literals ordered by variable; a literal and its
/// complement keep the order of their first occurrences in `a`.
pub open spec fn normalize(a: Seq<isize>) -> Seq<isize>
    decreases a.len(),
{
    if a.len() == 0 {
        Seq::empty()
    } else {
        add_lit(normalize(a.drop_last()), a.last())
    }
}

/// Whether some literal of `s` stands beside its own complement.
pub open spec fn has_complements(s: Seq<isize>) -> bool {
    exists|i: int, j: int|
        0 <= i < s.len() && 0 <= j < s.len() && s[i] as int + s[j] as int == 0 && s[i] != 0
}

/// `insert_lit` is a single insertion at the position where the larger variables begin.
pub proof fn lemma_insert_lit_at(s: Seq<isize>, x: isize, k: int)
    requires
        0 <= k <= s.len(),
        forall|j: int| k <= j < s.len() ==> lit_var(s[j]) > lit_var(x),
        k > 0 ==> lit_var(s[k - 1]) <= lit_var(x),
    ensures
        insert_lit(s, x) == s.insert(k, x),
    decreases s.len(),
{
    if s.len() == 0 {
        assert(seq![x] =~= s.insert(k, x));
    } else if k == s.len() {
        assert(s.push(x) =~= s.insert(k, x));
    } else {
        lemma_insert_lit_at(s.drop_last(), x, k);
        assert(s.drop_last().insert(k, x).push(s.last()) =~= s.insert(k, x));
    }
}

/// Position at which `insert_lit` places `x` in a variable-sorted sequence.
pub open spec fn insert_pos(s: Seq<isize>, x: isize) -> int
    decreases s.len(),
{
    if s.len() == 0 {
        0
    } else if lit_var(s.last()) <= lit_var(x) {
        s.len() as int
    } else {
        insert_pos(s.drop_last(), x)
    }
}

pub proof fn lemma_insert_pos(s: Seq<isize>, x: isize)
    ensures
        0 <= insert_pos(s, x) <= s.len(),
        insert_lit(s, x) == s.insert(insert_pos(s, x), x),
        forall|j: int| insert_pos(s, x) <= j < s.len() ==> lit_var(s[j]) > lit_var(x),
        insert_pos(s, x) > 0 ==> lit_var(s[insert_pos(s, x) - 1]) <= lit_var(x),
    decreases s.len(),
{
    if s.len() == 0 {
    } else if lit_var(s.last()) <= lit_var(x) {
    } else {
        let t = s.drop_last();
        lemma_insert_pos(t, x);
        assert forall|j: int| insert_pos(s, x) <= j < s.len() implies lit_var(s[j]) > lit_var(
            x,
        ) by {
            if j < t.len() {
                assert(t[j] == s[j]);
            }
        }
        if insert_pos(s, x) > 0 {
            assert(t[insert_pos(s, x) - 1] == s[insert_pos(s, x) - 1]);
        }
    }
    lemma_insert_lit_at(s, x, insert_pos(s, x));
}

/// Adding a literal keeps the normal form and adds exactly that literal.
pub proof fn lemma_add_lit(s: Seq<isize>, x: isize)
    requires
        normalized(s),
    ensures
        normalized(add_lit(s, x)),
        forall|y: isize| add_lit(s, x).contains(y) <==> (s.contains(y) || y == x),
        s.contains(x) ==> add_lit(s, x) == s,
        !s.contains(x) ==> add_lit(s, x).len() == s.len() + 1,
{
    if !s.contains(x) {
        lemma_insert_pos(s, x);
        let k = insert_pos(s, x);
        let r = s.insert(k, x);
        assert forall|i: int, j: int| 0 <= i < j < r.len() implies lit_var(r[i]) <= lit_var(
            r[j],
        ) by {
            if j < k {
            } else if j == k {
                if i < k {
                    assert(lit_var(s[i]) <= lit_var(s[k - 1]) || i == k - 1);
                }
            } else {
                if i < k {
                    assert(r[j] == s[j - 1]);
                } else if i == k {
                    assert(r[j] == s[j - 1]);
                } else {
                    assert(r[i] == s[i - 1] && r[j] == s[j - 1]);
                }
            }
        }
        assert forall|i: int, j: int| 0 <= i < r.len() && 0 <= j < r.len() && i != j implies r[i]
            != r[j] by {
            let a = if i < k { i } else { i - 1 };
            let b = if j < k { j } else { j - 1 };
            if i == k {
                assert(r[j] == s[b]);
                assert(s.contains(s[b]));
            } else if j == k {
                assert(r[i] == s[a]);
                assert(s.contains(s[a]));
            } else {
                assert(r[i] == s[a] && r[j] == s[b]);
            }
        }
        assert forall|y: isize| r.contains(y) <==> (s.contains(y) || y == x) by {
            if r.contains(y) {
                let i = choose|i: int| 0 <= i < r.len() && r[i] == y;
                if i < k {
                    assert(s[i] == y);
                } else if i > k {
                    assert(s[i - 1] == y);
                }
            }
            if s.contains(y) {
                let i = choose|i: int| 0 <= i < s.len() && s[i] == y;
                if i < k {
                    assert(r[i] == y);
                } else {
                    assert(r[i + 1] == y);
                }
            }
            if y == x {
                assert(r[k] == x);
            }
        }
    }
}

/// The normal form is normalized and holds exactly the literals of its argument.
pub proof fn lemma_normalize(a: Seq<isize>)
    ensures
        normalized(normalize(a)),
        forall|y: isize| normalize(a).contains(y) <==> a.contains(y),
        normalize(a).len() <= a.len(),
    decreases a.len(),
{
    if a.len() > 0 {
        lemma_normalize(a.drop_last());
        lemma_add_lit(normalize(a.drop_last()), a.last());
        assert forall|y: isize| normalize(a).contains(y) <==> a.contains(y) by {
            if a.contains(y) {
                let i = choose|i: int| 0 <= i < a.len() && a[i] == y;
                if i < a.len() - 1 {
                    assert(a.drop_last()[i] == y);
                }
            }
            if a.drop_last().contains(y) {
                let i = choose|i: int| 0 <= i < a.drop_last().len() && a.drop_last()[i] == y;
                assert(a[i] == y);
            }
            if y == a.last() {
                assert(a[a.len() - 1] == y);
            }
        }
    }
}

/// A sequence already in normal form is its own normal form.
pub proof fn lemma_normalize_fixed(s: Seq<isize>)
    requires
        normalized(s),
    ensures
        normalize(s) == s,
    decreases s.len(),
{
    if s.len() > 0 {
        let t = s.drop_last();
        lemma_normalize_fixed(t);
        if t.contains(s.last()) {
            let i = choose|i: int| 0 <= i < t.len() && t[i] == s.last();
            assert(s[i] == s[s.len() - 1]);
        }
        if t.len() > 0 {
            assert(lit_var(t.last()) == lit_var(s[s.len() - 2]));
        }
        assert(t.push(s.last()) =~= s);
    }
}

/// Adds `x` to the normalized `r` in place.
pub fn add_lit_exec(r: &mut Vec<isize>, x: isize)
    requires
        normalized(old(r)@),
    ensures
        final(r)@ == add_lit(old(r)@, x),
        normalized(final(r)@),
{
    proof {
        lemma_add_lit(r@, x);
    }
    if contains_lit(r, x) {
        return ;
    }
    let key = magnitude(x);
    let mut k: usize = r.len();
    while k > 0 && magnitude(r[k - 1]) > key
        invariant
            0 <= k <= r@.len(),
            key as int == lit_var(x),
            forall|j: int| k <= j < r@.len() ==> lit_var(r@[j]) > lit_var(x),
        decreases k,
    {
        k -= 1;
    }
    proof {
        lemma_insert_lit_at(r@, x, k as int);
    }
    r.insert(k, x);
}

/// Whether `x` occurs in `v`.
pub fn contains_lit(v: &Vec<isize>, x: isize) -> (r: bool)
    ensures
        r == v@.contains(x),
{
    let mut i: usize = 0;
    while i < v.len()
        invariant
            0 <= i <= v@.len(),
            forall|j: int| 0 <= j < i ==> v@[j] != x,
        decreases v@.len() - i,
    {
        if v[i] == x {
            return true;
        }
        i += 1;
    }
    false
}

/// The normal form of `v`.
pub fn normalize_vec(v: &Vec<isize>) -> (r: Vec<isize>)
    ensures
        r@ == normalize(v@),
        normalized(r@),
{
    let mut r: Vec<isize> = Vec::new();
    let mut i: usize = 0;
    assert(v@.take(0) =~= Seq::<isize>::empty());
    while i < v.len()
        invariant
            0 <= i <= v@.len(),
            r@ == normalize(v@.take(i as int)),
            normalized(r@),
        decreases v@.len() - i,
    {
        assert(v@.take(i + 1).drop_last() =~= v@.take(i as int));
        add_lit_exec(&mut r, v[i]);
        i += 1;
    }
    assert(v@.take(v@.len() as int) =~= v@);
    r
}

/// Whether `v` holds a literal together with its complement.
pub fn has_complements_exec(v: &Vec<isize>) -> (r: bool)
    ensures
        r == has_complements(v@),
{
    let mut i: usize = 0;
    while i < v.len()
        invariant
            0 <= i <= v@.len(),
            forall|a: int, b: int|
                0 <= a < i && 0 <= b < v@.len() ==> !(v@[a] as int + v@[b] as int == 0 && v@[a]
                    != 0),
        decreases v@.len() - i,
    {
        let x = v[i];
        let mut j: usize = 0;
        while j < v.len()
            invariant
                0 <= j <= v@.len(),
                0 <= i < v@.len(),
                x == v@[i as int],
                forall|b: int| 0 <= b < j ==> !(x as int + v@[b] as int == 0 && x != 0),
            decreases v@.len() - j,
        {
            if x != 0 && v[j] != isize::MIN && x == -v[j] {
                return true;
            }
            j += 1;
        }
        i += 1;
    }
    false
}

} // verus!
