use vstd::prelude::*;

pub mod ring;
pub mod parameters;
pub mod operations;
pub mod pub_key;
pub mod eval;
pub mod ciphertext;
pub mod laws;

verus! {

/// Errors of the encoding scheme.
///
/// `NoCompatibleModulus` is a configuration error: no prime modulus compatible
/// with the requested ring size and bit-length could be found.
/// `ShapeMismatch` reports vectors or matrices whose dimensions violate the
/// preconditions of an operation.
#[derive(Debug, Clone, Copy, PartialEq, Eq, Structural)]
pub enum EncodingError {
    NoCompatibleModulus,
    ShapeMismatch,
}

/// The output distribution a keyed hash sampler is asked for: uniform over the
/// ring field, or uniform bits.
///
/// The hash-keyed matrix sampler itself is a deferred collaborator of this
/// core: only its capability surface is fixed here so that a future backend
/// does not reshape the data model.
#[derive(Debug, Clone, Copy, PartialEq, Eq, Structural)]
pub enum PolyHashDistType {
    FinRingDist,
    BitDist,
}

} // verus!
