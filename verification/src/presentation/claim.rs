//! The attributes of a credential.

use vstd::prelude::*;
use crate::bytes::{append_scalar, append_u64, u64_bytes};
use crate::field::{be_bytes, Scalar};

verus! {

/// One attribute of a credential.
#[derive(Clone, Copy, Debug)]
pub enum ClaimData {
    /// A number, which a range can be proved of.
    Number(u64),
    /// A scalar that stands for anything else.
    Scalar(Scalar),
}

impl ClaimData {
    /// The scalar that is signed for the claim.
    pub open spec fn value(&self) -> nat {
        match self {
            ClaimData::Number(n) => *n as nat,
            ClaimData::Scalar(s) => s@,
        }
    }

    /// The claim's bytes: its kind in eight bytes, then its scalar in 32.
    pub open spec fn encoding(&self) -> Seq<u8> {
        match self {
            ClaimData::Number(n) => u64_bytes(0) + be_bytes(*n as nat, 32),
            ClaimData::Scalar(s) => u64_bytes(1) + be_bytes(s@, 32),
        }
    }

    /// The scalar that is signed for the claim.
    pub fn to_scalar(&self) -> (r: Scalar)
        ensures
            r@ == self.value(),
    {
        match self {
            ClaimData::Number(n) => Scalar::from_u64(*n),
            ClaimData::Scalar(s) => *s,
        }
    }

    /// Appends the claim's bytes.
    pub fn append_to(&self, out: &mut Vec<u8>)
        ensures
            final(out)@ == old(out)@ + self.encoding(),
    {
        match self {
            ClaimData::Number(n) => {
                append_u64(out, 0);
                append_scalar(out, &Scalar::from_u64(*n));
            },
            ClaimData::Scalar(s) => {
                append_u64(out, 1);
                append_scalar(out, s);
            },
        }
        assert(out@ =~= old(out)@ + self.encoding());
    }

    /// Whether two claims are of one kind and hold one value.
    pub fn same(&self, other: &ClaimData) -> (r: bool)
        ensures
            r == (self.value() == other.value() && (self is Number) == (other is Number)),
    {
        match (self, other) {
            (ClaimData::Number(a), ClaimData::Number(b)) => *a == *b,
            (ClaimData::Scalar(a), ClaimData::Scalar(b)) => a.eq(b),
            _ => false,
        }
    }
}

} // verus!
