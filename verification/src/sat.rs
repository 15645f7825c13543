use vstd::prelude::*;
use vstd::std_specs::ops::AddSpecImpl;

verus! {

/// Three-valued verdict shared by literals, clauses and whole formulas.
#[derive(Debug, Clone, Copy, PartialEq, Eq, Structural)]
pub enum SAT {
    Satisfiable,
    Unsatisfiable,
    Unknown,
}

impl SAT {
    /// The name under which the verdict is reported.
    pub open spec fn spec_name(self) -> Seq<char> {
        match self {
            SAT::Unknown => "Unknown"@,
            SAT::Satisfiable => "SAT"@,
            SAT::Unsatisfiable => "UNSAT"@,
        }
    }

    /// The name under which the verdict is reported.
    pub fn name(&self) -> (r: &'static str)
        ensures
            r@ == self.spec_name(),
    {
        match self {
            SAT::Unknown => "Unknown",
            SAT::Satisfiable => "SAT",
            SAT::Unsatisfiable => "UNSAT",
        }
    }

    /// Conjunction of two verdicts: falsified dominates, then unknown.
    pub open spec fn spec_add(self, other: SAT) -> SAT {
        if self == SAT::Unsatisfiable || other == SAT::Unsatisfiable {
            SAT::Unsatisfiable
        } else if self == SAT::Satisfiable && other == SAT::Satisfiable {
            SAT::Satisfiable
        } else {
            SAT::Unknown
        }
    }

}

impl core::ops::Add for SAT {
    type Output = SAT;

    /// Combines the verdicts of two clause populations.
    fn add(self, other: SAT) -> (r: SAT)
        ensures
            r == self.spec_add(other),
    {
        match (self, other) {
            (SAT::Satisfiable, SAT::Satisfiable) => SAT::Satisfiable,
            (_, SAT::Unsatisfiable) => SAT::Unsatisfiable,
            (SAT::Unsatisfiable, _) => SAT::Unsatisfiable,
            _ => SAT::Unknown,
        }
    }
}

impl AddSpecImpl for SAT {
    open spec fn obeys_add_spec() -> bool {
        true
    }

    open spec fn add_req(self, other: SAT) -> bool {
        true
    }

    open spec fn add_spec(self, other: SAT) -> SAT {
        self.spec_add(other)
    }
}

impl core::ops::AddAssign for SAT {
    fn add_assign(&mut self, other: SAT)
        ensures
            *final(self) == old(self).spec_add(other),
    {
        *self = *self + other;
    }
}

} // verus!
