use vstd::prelude::*;
use crate::model::Model;

verus! {

/// A partial assignment read as an instance of a formula: the same type as `Model`, and
/// with it every operation of `Model`.
pub type Instance = Model;

} // verus!
