use vstd::prelude::*;

verus! {

/// The outcome of solving an LP in standard form that has no feasible point.
pub struct LPStdformResultInfeasible {}

} // verus!
