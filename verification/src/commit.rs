//! Commitment schemes: the marker traits of their commitments and proofs, and
//! the parts of an ABDLOP commitment.
use vstd::prelude::*;

verus! {

/// Marker for proofs produced by a commitment scheme.
pub trait Proof {}

/// Marker for commitments produced by a commitment scheme.
pub trait Commitment {}

/// The two parts of an ABDLOP commitment: the Ajtai part, which binds short
/// vectors, and the BDLOP part, which binds arbitrary messages.
#[derive(Clone, Copy, PartialEq, Eq, Structural)]
pub enum ABDLOPparts {
    Ajtai,
    BDLOP,
}

} // verus!
