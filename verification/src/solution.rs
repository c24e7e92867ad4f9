use vstd::prelude::*;
use crate::route::Route;

verus! {

/// The individual under its older name: a `Solution` of the problem is a
/// route through all locations, and the two names denote one type.
pub type Solution = Route;

} // verus!
