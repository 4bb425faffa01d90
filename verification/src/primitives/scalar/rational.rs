use vstd::prelude::*;

verus! {

/// An exact rational number, meant as a scalar type for exact arithmetic.
/// It has no representation yet.
pub struct Rational {}

} // verus!
