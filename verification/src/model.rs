use vstd::prelude::*;
use crate::literal::{lit_in_range, lit_var, var_index};
use crate::sat::SAT;

verus! {

/// What a partial assignment records for one variable.
#[derive(Debug, Clone, Copy, PartialEq, Eq, Structural)]
pub enum ModelValue {
    Positive,
    Negative,
    Unknown,
}

/// Truth value of literal `l` under the assignment `m` (variable `v` sits at `v - 1`).
pub open spec fn lit_value(m: Seq<ModelValue>, l: isize) -> SAT
    recommends
        lit_in_range(l, m.len() as int),
{
    match m[lit_var(l) - 1] {
        ModelValue::Unknown => SAT::Unknown,
        ModelValue::Positive => if l > 0 {
            SAT::Satisfiable
        } else {
            SAT::Unsatisfiable
        },
        ModelValue::Negative => if l < 0 {
            SAT::Satisfiable
        } else {
            SAT::Unsatisfiable
        },
    }
}

/// The polarity that makes literal `l` true.
pub open spec fn polarity_of(l: isize) -> ModelValue {
    if l > 0 {
        ModelValue::Positive
    } else {
        ModelValue::Negative
    }
}

/// A partial assignment: one entry per variable, indexed by variable number.
pub struct Model {
    model: Vec<ModelValue>,
}

impl View for Model {
    type V = Seq<ModelValue>;

    closed spec fn view(&self) -> Seq<ModelValue> {
        self.model@
    }
}

impl Model {
    /// Whether the assignment makes `l` true.
    pub open spec fn spec_has(&self, l: isize) -> bool {
        lit_value(self@, l) == SAT::Satisfiable
    }

    /// Whether the variable `v` has a value.
    pub open spec fn spec_has_abs(&self, v: int) -> bool {
        self@[v - 1] != ModelValue::Unknown
    }

    /// An assignment over `size` variables (none when `size` is absent), all unassigned.
    pub fn new(size: Option<usize>) -> (r: Model)
        ensures
            r@ == Seq::new(
                match size {
                    Some(n) => n as nat,
                    None => 0nat,
                },
                |i: int| ModelValue::Unknown,
            ),
    {
        let mut r = Model { model: Vec::new() };
        match size {
            Some(n) => {
                r.resize(n);
            },
            None => {},
        }
        assert(r@ =~= Seq::new(
            match size {
                Some(n) => n as nat,
                None => 0nat,
            },
            |i: int| ModelValue::Unknown,
        ));
        r
    }

    /// Number of variables the assignment covers.
    pub fn len(&self) -> (r: usize)
        ensures
            r == self@.len(),
    {
        self.model.len()
    }

    /// Grows with unassigned entries, or truncates, to exactly `size` variables.
    pub fn resize(&mut self, size: usize)
        ensures
            final(self)@.len() == size,
            forall|i: int|
                0 <= i < size ==> #[trigger] final(self)@[i] == if i < old(self)@.len() {
                    old(self)@[i]
                } else {
                    ModelValue::Unknown
                },
    {
        if size <= self.model.len() {
            self.model.truncate(size);
        } else {
            let ghost before = self.model@;
            while self.model.len() < size
                invariant
                    before.len() <= self.model@.len() <= size,
                    forall|i: int|
                        0 <= i < self.model@.len() ==> #[trigger] self.model@[i] == if i
                            < before.len() {
                            before[i]
                        } else {
                            ModelValue::Unknown
                        },
                decreases size - self.model@.len(),
            {
                self.model.push(ModelValue::Unknown);
            }
        }
    }

    /// Sets the variable of `literal` to the polarity of `literal`.
    pub fn add(&mut self, literal: isize)
        requires
            lit_in_range(literal, old(self)@.len() as int),
        ensures
            final(self)@ == old(self)@.update(lit_var(literal) - 1, polarity_of(literal)),
    {
        let idx = var_index(literal);
        if literal > 0 {
            self.model[idx] = ModelValue::Positive;
        } else {
            self.model[idx] = ModelValue::Negative;
        }
    }

    /// Clears the variable of `literal`, whatever its sign.
    pub fn remove(&mut self, literal: isize)
        requires
            lit_in_range(literal, old(self)@.len() as int),
        ensures
            final(self)@ == old(self)@.update(lit_var(literal) - 1, ModelValue::Unknown),
    {
        let idx = var_index(literal);
        self.model[idx] = ModelValue::Unknown;
    }

    /// Sign-sensitive membership: true iff the assignment makes `literal` true.
    pub fn has(&self, literal: isize) -> (r: bool)
        requires
            lit_in_range(literal, self@.len() as int),
        ensures
            r == self.spec_has(literal),
    {
        match self.model[var_index(literal)] {
            ModelValue::Positive => literal > 0,
            ModelValue::Negative => literal < 0,
            ModelValue::Unknown => false,
        }
    }

    /// Sign-insensitive membership: true iff variable `literal` is assigned.
    pub fn has_abs(&self, literal: usize) -> (r: bool)
        requires
            1 <= literal <= self@.len(),
        ensures
            r == self.spec_has_abs(literal as int),
    {
        match self.model[literal - 1] {
            ModelValue::Positive => true,
            ModelValue::Negative => true,
            ModelValue::Unknown => false,
        }
    }

    /// Evaluates `literal`: satisfied, falsified, or unknown when its variable is unassigned.
    pub fn satisfies(&self, literal: isize) -> (r: SAT)
        requires
            lit_in_range(literal, self@.len() as int),
        ensures
            r == lit_value(self@, literal),
    {
        match (self.model[var_index(literal)], literal > 0) {
            (ModelValue::Unknown, _) => SAT::Unknown,
            (ModelValue::Positive, true) => SAT::Satisfiable,
            (ModelValue::Negative, false) => SAT::Satisfiable,
            (_, _) => SAT::Unsatisfiable,
        }
    }

    /// The assigned literals in ascending variable order, each with the sign it holds.
    pub fn to_literals(&self) -> (r: Vec<isize>)
        requires
            self@.len() <= isize::MAX,
        ensures
            r@ == assigned_literals(self@, self@.len() as int),
    {
        let mut r: Vec<isize> = Vec::new();
        let mut i: usize = 0;
        while i < self.model.len()
            invariant
                0 <= i <= self.model@.len() <= isize::MAX,
                r@ == assigned_literals(self@, i as int),
            decreases self.model@.len() - i,
        {
            match self.model[i] {
                ModelValue::Positive => {
                    r.push((i + 1) as isize);
                },
                ModelValue::Negative => {
                    r.push(-((i + 1) as isize));
                },
                ModelValue::Unknown => {},
            }
            i += 1;
        }
        r
    }
}

/// The literals that `m` holds among its first `n` variables, in ascending variable order.
pub open spec fn assigned_literals(m: Seq<ModelValue>, n: int) -> Seq<isize>
    decreases n,
{
    if n <= 0 {
        Seq::empty()
    } else {
        let rest = assigned_literals(m, n - 1);
        match m[n - 1] {
            ModelValue::Positive => rest.push(n as isize),
            ModelValue::Negative => rest.push((-n) as isize),
            ModelValue::Unknown => rest,
        }
    }
}

} // verus!
