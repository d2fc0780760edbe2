//! The concrete pairing curves that the symbolic curve stands in for.
//!
//! Their group arithmetic is that of the arkworks curve crates and is not
//! part of this library; the types name the curves where a choice is made.

use vstd::prelude::*;

verus! {

/// The BN254 pairing curve.
#[derive(Clone, Copy, Debug, Default, PartialEq, Eq)]
pub struct Bn254Curve;

/// The Grumpkin curve, whose base field is the BN254 scalar field.
#[derive(Clone, Copy, Debug, Default, PartialEq, Eq)]
pub struct GrumpkinCurve;

} // verus!
