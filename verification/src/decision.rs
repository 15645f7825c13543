use vstd::prelude::*;
use vstd::std_specs::cmp::PartialEqSpecImpl;

verus! {

/// What a trail entry stands for: the literal decided at a level and, in the order they
/// fired, the literals propagated under it, each with the index of its reason clause.
pub struct DecisionView {
    pub decided: isize,
    pub propagated: Seq<(isize, usize)>,
}

impl DecisionView {
    /// Whether `x` is propagated at this level.
    pub open spec fn propagates(self, x: isize) -> bool {
        exists|i: int| 0 <= i < self.propagated.len() && (#[trigger] self.propagated[i]).0 == x
    }

    /// Whether `x` is the decided literal of this level or is propagated at it.
    pub open spec fn names(self, x: isize) -> bool {
        self.decided == x || self.propagates(x)
    }

    /// The literals of this level in the order they were assigned; the placeholder `0`
    /// of the ground level is no literal.
    pub open spec fn literals(self) -> Seq<isize> {
        let tail = self.propagated.map_values(|p: (isize, usize)| p.0);
        if self.decided == 0 {
            tail
        } else {
            seq![self.decided] + tail
        }
    }
}

/// One decision level of the trail.
pub struct Decision {
    decided_literal: isize,
    propagated_literals: Vec<(isize, usize)>,
}

impl View for Decision {
    type V = DecisionView;

    closed spec fn view(&self) -> DecisionView {
        DecisionView { decided: self.decided_literal, propagated: self.propagated_literals@ }
    }
}

impl Decision {
    /// A level opened by deciding `decided_literal` (`0` for the ground level), with
    /// nothing propagated yet.
    pub fn new(decided_literal: isize) -> (r: Decision)
        ensures
            r@ == (DecisionView { decided: decided_literal, propagated: Seq::empty() }),
    {
        Decision { decided_literal: decided_literal, propagated_literals: Vec::new() }
    }

    /// The literal decided at this level.
    pub fn get_decided_literal(&self) -> (r: isize)
        ensures
            r == self@.decided,
    {
        self.decided_literal
    }

    /// The literals propagated at this level, each with the index of its reason clause.
    pub fn get_propagated_literals(&self) -> (r: &Vec<(isize, usize)>)
        ensures
            r@ == self@.propagated,
    {
        &self.propagated_literals
    }

    /// Records that `literal` was propagated by the clause at `clause_index`.
    pub fn add_propagated_literal(&mut self, literal: isize, clause_index: usize)
        ensures
            final(self)@ == (DecisionView {
                decided: old(self)@.decided,
                propagated: old(self)@.propagated.push((literal, clause_index)),
            }),
    {
        self.propagated_literals.push((literal, clause_index));
    }

    /// Forgets everything propagated at this level.
    pub fn clear_propagated_literals(&mut self)
        ensures
            final(self)@ == (DecisionView {
                decided: old(self)@.decided,
                propagated: Seq::empty(),
            }),
    {
        self.propagated_literals.clear();
    }
}

impl PartialEq for Decision {
    /// Trail lookup rather than structural equality: `self` equals `other` when it decided
    /// the literal `other` decided, or propagated it.
    fn eq(&self, other: &Self) -> (r: bool) {
        if self.decided_literal == other.decided_literal {
            return true;
        }
        let mut i: usize = 0;
        while i < self.propagated_literals.len()
            invariant
                0 <= i <= self.propagated_literals@.len(),
                forall|j: int|
                    0 <= j < i ==> (#[trigger] self.propagated_literals@[j]).0
                        != other.decided_literal,
            decreases self.propagated_literals@.len() - i,
        {
            if self.propagated_literals[i].0 == other.decided_literal {
                assert(self@.propagated[i as int].0 == other@.decided);
                return true;
            }
            i += 1;
        }
        false
    }
}

impl PartialEqSpecImpl for Decision {
    open spec fn obeys_eq_spec() -> bool {
        true
    }

    open spec fn eq_spec(&self, other: &Decision) -> bool {
        self@.names(other@.decided)
    }
}

/// Whether some level of the trail names `x`.
pub open spec fn on_trail(trail: Seq<DecisionView>, x: isize) -> bool {
    exists|d: int| 0 <= d < trail.len() && (#[trigger] trail[d]).names(x)
}

/// The views of a trail's levels, ground level first.
pub open spec fn trail_view(ds: Seq<Decision>) -> Seq<DecisionView> {
    ds.map_values(|d: Decision| d@)
}

/// Whether some level of `decisions` decided or propagated `x`.
pub fn trail_names(decisions: &Vec<Decision>, x: isize) -> (r: bool)
    ensures
        r == on_trail(trail_view(decisions@), x),
{
    let needle = Decision::new(x);
    let mut i: usize = 0;
    while i < decisions.len()
        invariant
            0 <= i <= decisions@.len(),
            needle@.decided == x,
            forall|d: int| 0 <= d < i ==> !(#[trigger] trail_view(decisions@)[d]).names(x),
        decreases decisions@.len() - i,
    {
        if decisions[i].eq(&needle) {
            assert(trail_view(decisions@)[i as int].names(x));
            return true;
        }
        assert(!trail_view(decisions@)[i as int].names(x));
        i += 1;
    }
    false
}

} // verus!
