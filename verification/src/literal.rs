use vstd::prelude::*;

verus! {

/// The variable named by a literal: its magnitude.
pub open spec fn lit_var(l: isize) -> int {
    if l < 0 {
        -(l as int)
    } else {
        l as int
    }
}

/// A literal that can be looked up in an assignment over `size` variables.
pub open spec fn lit_in_range(l: isize, size: int) -> bool {
    l != 0 && lit_var(l) <= size
}

/// Every literal of `s` names a variable among the first `size`.
pub open spec fn lits_in_range(s: Seq<isize>, size: int) -> bool {
    forall|i: int| 0 <= i < s.len() ==> lit_in_range(#[trigger] s[i], size)
}

/// Position of a literal's variable in a dense per-variable table.
pub fn var_index(l: isize) -> (r: usize)
    requires
        l != 0,
    ensures
        r as int == lit_var(l) - 1,
{
    if l > 0 {
        (l - 1) as usize
    } else {
        (-(l + 1)) as usize
    }
}

/// The variable of a literal as a machine integer.
pub fn magnitude(l: isize) -> (r: usize)
    ensures
        r as int == lit_var(l),
{
    if l >= 0 {
        l as usize
    } else {
        (-(l + 1)) as usize + 1
    }
}

} // verus!
