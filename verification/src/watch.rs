use vstd::prelude::*;
use crate::model::{lit_value, ModelValue};
use crate::sat::SAT;

verus! {

/// Outcome of moving the two watches `(w0, w1)` of a clause over the assignment `m`:
/// the watches where the search stops, and the verdict reached there.
///
/// A satisfied watch stops the search. A falsified watch moves behind the larger watch;
/// when the larger watch already stands on the last literal, the falsified watch is laid
/// on the other one, which leaves a single watched literal. Two unassigned watches, or a
/// single unassigned one, stop the search with no verdict.
pub open spec fn scan(lits: Seq<isize>, m: Seq<ModelValue>, w0: int, w1: int) -> (int, int, SAT)
    decreases
        (if w0 == w1 {
            0
        } else {
            1 + 2 * lits.len() - w0 - w1
        }),
    when 0 <= w0 <= w1 < lits.len()
{
    let v0 = lit_value(m, lits[w0]);
    let v1 = lit_value(m, lits[w1]);
    if v0 == SAT::Satisfiable {
        (w0, w1, SAT::Satisfiable)
    } else if v0 == SAT::Unsatisfiable {
        if w0 == w1 {
            (w0, w1, SAT::Unsatisfiable)
        } else if w1 == lits.len() - 1 {
            scan(lits, m, w1, w1)
        } else {
            scan(lits, m, w1, w1 + 1)
        }
    } else if v1 == SAT::Satisfiable {
        (w0, w1, SAT::Satisfiable)
    } else if v1 == SAT::Unsatisfiable {
        if w1 == lits.len() - 1 {
            scan(lits, m, w0, w0)
        } else {
            scan(lits, m, w0, w1 + 1)
        }
    } else {
        (w0, w1, SAT::Unknown)
    }
}

/// Every literal of `lits` that the watches `(w0, w1)` have left behind (all before the
/// larger watch but the two watched ones; all but the watched one once the watches have
/// met) is falsified by `m`.
pub open spec fn passed_falsified(lits: Seq<isize>, m: Seq<ModelValue>, w0: int, w1: int) -> bool {
    forall|k: int|
        0 <= k < lits.len() && k != w0 && k != w1 && (k < w1 || w0 == w1) ==> lit_value(
            m,
            #[trigger] lits[k],
        ) == SAT::Unsatisfiable
}

/// No literal of `lits` is true or unassigned under `m`.
pub open spec fn all_falsified(lits: Seq<isize>, m: Seq<ModelValue>) -> bool {
    forall|k: int| 0 <= k < lits.len() ==> lit_value(m, #[trigger] lits[k]) == SAT::Unsatisfiable
}

/// Some literal of `lits` is true under `m`.
pub open spec fn some_satisfied(lits: Seq<isize>, m: Seq<ModelValue>) -> bool {
    exists|k: int| 0 <= k < lits.len() && lit_value(m, #[trigger] lits[k]) == SAT::Satisfiable
}

/// Where the search stops: in range, never behind its start, and in a state that
/// explains the verdict.
pub proof fn lemma_scan(lits: Seq<isize>, m: Seq<ModelValue>, w0: int, w1: int)
    requires
        0 <= w0 <= w1 < lits.len(),
    ensures
        ({
            let (a, b, v) = scan(lits, m, w0, w1);
            &&& 0 <= a <= b < lits.len()
            &&& w0 <= a
            &&& (w0 < w1 && a < b ==> w1 <= b)
            &&& (w0 == w1 ==> a == w0 && b == w1)
            &&& (v == SAT::Satisfiable ==> lit_value(m, lits[a]) == SAT::Satisfiable || lit_value(
                m,
                lits[b],
            ) == SAT::Satisfiable)
            &&& (v == SAT::Unsatisfiable ==> a == b && lit_value(m, lits[a])
                == SAT::Unsatisfiable)
            &&& (v == SAT::Unknown ==> lit_value(m, lits[a]) == SAT::Unknown && lit_value(
                m,
                lits[b],
            ) == SAT::Unknown)
        }),
    decreases
        (if w0 == w1 {
            0
        } else {
            1 + 2 * lits.len() - w0 - w1
        }),
{
    let v0 = lit_value(m, lits[w0]);
    let v1 = lit_value(m, lits[w1]);
    if v0 == SAT::Satisfiable {
    } else if v0 == SAT::Unsatisfiable {
        if w0 == w1 {
        } else if w1 == lits.len() - 1 {
            lemma_scan(lits, m, w1, w1);
        } else {
            lemma_scan(lits, m, w1, w1 + 1);
        }
    } else if v1 == SAT::Satisfiable {
    } else if v1 == SAT::Unsatisfiable {
        if w1 == lits.len() - 1 {
            lemma_scan(lits, m, w0, w0);
        } else {
            lemma_scan(lits, m, w0, w1 + 1);
        }
    } else {
    }
}

/// The search only leaves falsified literals behind: if that held of the watches at the
/// start, it holds where the search stops, and the verdict then says what `m` makes of the
/// whole clause.
pub proof fn lemma_scan_sound(lits: Seq<isize>, m: Seq<ModelValue>, w0: int, w1: int)
    requires
        0 <= w0 <= w1 < lits.len(),
        passed_falsified(lits, m, w0, w1),
    ensures
        ({
            let (a, b, v) = scan(lits, m, w0, w1);
            &&& passed_falsified(lits, m, a, b)
            &&& (v == SAT::Unsatisfiable <==> all_falsified(lits, m))
            &&& (v == SAT::Satisfiable ==> some_satisfied(lits, m))
        }),
    decreases
        (if w0 == w1 {
            0
        } else {
            1 + 2 * lits.len() - w0 - w1
        }),
{
    let v0 = lit_value(m, lits[w0]);
    let v1 = lit_value(m, lits[w1]);
    if v0 == SAT::Satisfiable {
    } else if v0 == SAT::Unsatisfiable {
        if w0 == w1 {
            assert forall|k: int| 0 <= k < lits.len() implies lit_value(m, #[trigger] lits[k])
                == SAT::Unsatisfiable by {}
        } else if w1 == lits.len() - 1 {
            lemma_scan_sound(lits, m, w1, w1);
        } else {
            lemma_scan_sound(lits, m, w1, w1 + 1);
        }
    } else if v1 == SAT::Satisfiable {
    } else if v1 == SAT::Unsatisfiable {
        if w1 == lits.len() - 1 {
            lemma_scan_sound(lits, m, w0, w0);
        } else {
            lemma_scan_sound(lits, m, w0, w1 + 1);
        }
    } else {
    }
    lemma_scan(lits, m, w0, w1);
}

/// The search reads only the literals of the clause: two assignments that agree on them
/// stop it at the same place with the same verdict.
pub proof fn law_scan_reads_the_clause(
    lits: Seq<isize>,
    m1: Seq<ModelValue>,
    m2: Seq<ModelValue>,
    w0: int,
    w1: int,
)
    requires
        0 <= w0 <= w1 < lits.len(),
        forall|k: int| 0 <= k < lits.len() ==> lit_value(m1, #[trigger] lits[k]) == lit_value(
            m2,
            lits[k],
        ),
    ensures
        scan(lits, m1, w0, w1) == scan(lits, m2, w0, w1),
    decreases
        (if w0 == w1 {
            0
        } else {
            1 + 2 * lits.len() - w0 - w1
        }),
{
    let v0 = lit_value(m1, lits[w0]);
    let v1 = lit_value(m1, lits[w1]);
    assert(v0 == lit_value(m2, lits[w0]));
    assert(v1 == lit_value(m2, lits[w1]));
    if v0 == SAT::Satisfiable {
    } else if v0 == SAT::Unsatisfiable {
        if w0 == w1 {
        } else if w1 == lits.len() - 1 {
            law_scan_reads_the_clause(lits, m1, m2, w1, w1);
        } else {
            law_scan_reads_the_clause(lits, m1, m2, w1, w1 + 1);
        }
    } else if v1 == SAT::Satisfiable {
    } else if v1 == SAT::Unsatisfiable {
        if w1 == lits.len() - 1 {
            law_scan_reads_the_clause(lits, m1, m2, w0, w0);
        } else {
            law_scan_reads_the_clause(lits, m1, m2, w0, w1 + 1);
        }
    } else {
    }
}

} // verus!
