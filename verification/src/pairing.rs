//! The pairing of the two source groups into the target group.

use vstd::prelude::*;
use crate::field::{fmul, modulus};
use crate::g1::G1Point;
use crate::g2::G2Point;

verus! {

/// The encoding of the pairing of the two generators taken `k` times: what
/// `bls12_381_plus` returns for `(pairing(G1, G2) * k).to_bytes()`.
pub uninterp spec fn gt_encoding(k: nat) -> Seq<u8>;

/// Whether the bytes encode an element of the target group.
pub open spec fn is_gt_encoding(bytes: Seq<u8>) -> bool {
    exists|k: nat| k < modulus() && #[trigger] gt_encoding(k) == bytes
}

/// A discrete logarithm of the element that the bytes encode.
pub open spec fn gt_log(bytes: Seq<u8>) -> nat {
    choose|k: nat| k < modulus() && #[trigger] gt_encoding(k) == bytes
}

/// An element of the target group.
#[derive(Debug)]
pub struct GtElement {
    bytes: Vec<u8>,
}

impl View for GtElement {
    type V = nat;

    /// The element's discrete logarithm with respect to the pairing of the
    /// two generators.
    closed spec fn view(&self) -> nat {
        gt_log(self.bytes@)
    }
}

impl GtElement {
    /// The bytes encode an element of the group.
    #[verifier::type_invariant]
    pub closed spec fn wf(&self) -> bool {
        is_gt_encoding(self.bytes@)
    }

    /// Whether two elements are the same.
    pub fn eq(&self, other: &GtElement) -> (r: bool)
        ensures
            r == (self@ == other@),
    {
        proof {
            use_type_invariant(self);
            use_type_invariant(other);
        }
        if self.bytes.len() != other.bytes.len() {
            return false;
        }
        let mut i: usize = 0;
        while i < self.bytes.len()
            invariant
                i <= self.bytes.len(),
                self.bytes.len() == other.bytes.len(),
                (self@ == other@) == (self.bytes@ == other.bytes@),
                forall|j: int| 0 <= j < i ==> self.bytes@[j] == other.bytes@[j],
            decreases self.bytes.len() - i,
        {
            if self.bytes[i] != other.bytes[i] {
                return false;
            }
            i += 1;
        }
        assert(self.bytes@ =~= other.bytes@);
        true
    }
}

/// The pairing of a point of each source group.
pub fn pair(p: &G1Point, q: &G2Point) -> (r: GtElement)
    ensures
        r@ == fmul(p@, q@),
        r.wf(),
{
    proof {
        use_type_invariant(p);
        use_type_invariant(q);
    }
    gt_pairing(p, q)
}

/// Calls `pairing` of `bls12_381_plus`. The pairing is bilinear and maps the
/// two generators to a generator of the target group, so the logarithm of the
/// result is the product of the logarithms of the two points.
#[verifier::external_body]
fn gt_pairing(p: &G1Point, q: &G2Point) -> (r: GtElement)
    requires
        p.wf(),
        q.wf(),
    ensures
        r.bytes@ == gt_encoding(fmul(p@, q@)),
        r@ == fmul(p@, q@),
{
    let x = blsful::inner_types::G1Affine::from_compressed(&p.bytes).unwrap();
    let y = blsful::inner_types::G2Affine::from_compressed(&q.bytes).unwrap();
    GtElement { bytes: blsful::inner_types::pairing(&x, &y).to_bytes().to_vec() }
}

} // verus!
