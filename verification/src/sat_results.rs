use vstd::prelude::*;

verus! {

/// The answer of a search together with the model, if it found one.
pub enum SatResultz {
    Satisfiable(Vec<i32>),
    Unsatisfiable,
    Unknown,
}

impl SatResultz {
    /// The name under which the answer is reported.
    pub open spec fn spec_name(self) -> Seq<char> {
        match self {
            SatResultz::Unknown => "Unknown"@,
            SatResultz::Satisfiable(_) => "SAT"@,
            SatResultz::Unsatisfiable => "UNSAT"@,
        }
    }

    /// The name under which the answer is reported.
    pub fn name(&self) -> (r: &'static str)
        ensures
            r@ == self.spec_name(),
    {
        match self {
            SatResultz::Unknown => "Unknown",
            SatResultz::Satisfiable(_) => "SAT",
            SatResultz::Unsatisfiable => "UNSAT",
        }
    }
}

} // verus!
