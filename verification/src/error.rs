use vstd::prelude::*;

verus! {

/// Why an operation was refused.
#[derive(Clone, Copy, Debug, PartialEq, Eq, Structural)]
pub enum Error {
    /// Bytes that are not the canonical encoding of a scalar or a point.
    InvalidEncoding,
    /// A key for no message, or for more messages than a key may sign.
    InvalidKeyGeneration,
    /// A signature that cannot be made or does not hold.
    InvalidSignature,
    /// A position of a blind signing request that the key does not have, or has twice.
    InvalidBlindIndex,
    /// A proof of opening of a blind commitment that does not hold.
    InvalidOpeningProof,
    /// A message of a blind signing request at a position that is already committed.
    InvalidBlindMessage,
    /// A claim that cannot be used the way a statement asks.
    InvalidClaimData,
    /// A presentation whose parts do not fit together.
    InvalidPresentationData,
    /// A proof whose equations or challenge do not hold.
    ProofVerificationFailed,
}

} // verus!
