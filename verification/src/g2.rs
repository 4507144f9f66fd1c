//! The second source group of the pairing.

use vstd::prelude::*;
use crate::field::{fadd, fmul, modulus, Scalar};

verus! {

/// The compressed encoding of the generator of the second group taken `k`
/// times: what `bls12_381_plus` returns for
/// `(G2Projective::GENERATOR * k).to_compressed()`.
pub uninterp spec fn g2_encoding(k: nat) -> Seq<u8>;

/// Whether the bytes encode a point of the second group.
pub open spec fn is_g2_encoding(bytes: Seq<u8>) -> bool {
    exists|k: nat| k < modulus() && #[trigger] g2_encoding(k) == bytes
}

/// A discrete logarithm of the point that the bytes encode.
pub open spec fn g2_log(bytes: Seq<u8>) -> nat {
    choose|k: nat| k < modulus() && #[trigger] g2_encoding(k) == bytes
}

/// A point of the second group, held in compressed form.
#[derive(Clone, Copy, Debug)]
pub struct G2Point {
    pub(crate) bytes: [u8; 96],
}

impl View for G2Point {
    type V = nat;

    /// The point's discrete logarithm with respect to the generator.
    open spec fn view(&self) -> nat {
        g2_log(self.encoding())
    }
}

impl G2Point {
    /// The bytes encode a point of the group.
    #[verifier::type_invariant]
    pub open spec fn wf(&self) -> bool {
        is_g2_encoding(self.encoding())
    }

    /// The point's compressed encoding.
    pub closed spec fn encoding(&self) -> Seq<u8> {
        self.bytes@
    }

    /// A point is the generator taken as many times as its logarithm says.
    pub proof fn lemma_log(self)
        requires
            self.wf(),
        ensures
            self@ < modulus(),
            g2_encoding(self@) == self.encoding(),
            self.encoding().len() == 96,
    {
    }

    /// Points with one logarithm have one encoding, and the converse.
    pub proof fn lemma_same(self, other: G2Point)
        requires
            self.wf(),
            other.wf(),
        ensures
            (self@ == other@) == (self.encoding() == other.encoding()),
    {
    }

    /// The generator of the group.
    pub fn generator() -> (r: G2Point)
        ensures
            r@ == 1,
            r.wf(),
    {
        g2_generator()
    }

    /// The neutral element of the group.
    pub fn identity() -> (r: G2Point)
        ensures
            r@ == 0,
            r.wf(),
    {
        let zero = Scalar::from_u64(0);
        let g = g2_generator();
        let r = g2_mul(&g, &zero);
        assert(fmul(1, 0) == 0) by {
            vstd::arithmetic::div_mod::lemma_small_mod(0, modulus());
        }
        r
    }

    /// The point that the bytes encode, if they encode one.
    pub fn from_bytes(bytes: &[u8; 96]) -> (r: Option<G2Point>)
        ensures
            r.is_some() == is_g2_encoding(bytes@),
            r matches Some(p) ==> p.encoding() == bytes@ && p.wf(),
    {
        g2_decode(bytes)
    }

    /// The point that a slice of bytes encodes, if it encodes one.
    pub fn from_slice(bytes: &[u8]) -> (r: Option<G2Point>)
        ensures
            r.is_some() == (bytes@.len() == 96 && is_g2_encoding(bytes@)),
            r matches Some(p) ==> p.encoding() == bytes@ && p.wf(),
    {
        if bytes.len() != 96 {
            return None;
        }
        let mut array = [0u8; 96];
        let mut i: usize = 0;
        while i < 96
            invariant
                i <= 96,
                bytes@.len() == 96,
                forall|j: int| 0 <= j < i ==> array@[j] == bytes@[j],
            decreases 96 - i,
        {
            array[i] = bytes[i];
            i += 1;
        }
        assert(array@ =~= bytes@);
        G2Point::from_bytes(&array)
    }

    /// The point's compressed encoding.
    pub fn to_bytes(&self) -> (r: [u8; 96])
        ensures
            r@ == self.encoding(),
    {
        self.bytes
    }

    /// The sum of two points.
    pub fn add(&self, other: &G2Point) -> (r: G2Point)
        ensures
            r@ == fadd(self@, other@),
            r.wf(),
    {
        proof {
            use_type_invariant(self);
            use_type_invariant(other);
        }
        g2_add(self, other)
    }

    /// The point taken `s` times.
    pub fn mul(&self, s: &Scalar) -> (r: G2Point)
        ensures
            r@ == fmul(self@, s@),
            r.wf(),
    {
        proof {
            use_type_invariant(self);
            use_type_invariant(s);
        }
        g2_mul(self, s)
    }

    /// Whether two points are the same.
    pub fn eq(&self, other: &G2Point) -> (r: bool)
        ensures
            r == (self@ == other@),
    {
        proof {
            use_type_invariant(self);
            use_type_invariant(other);
            self.lemma_same(*other);
        }
        let mut i: usize = 0;
        while i < 96
            invariant
                i <= 96,
                (self@ == other@) == (self.bytes@ == other.bytes@),
                forall|j: int| 0 <= j < i ==> self.bytes@[j] == other.bytes@[j],
            decreases 96 - i,
        {
            if self.bytes[i] != other.bytes[i] {
                return false;
            }
            i += 1;
        }
        assert(self.bytes@ =~= other.bytes@);
        true
    }

    /// Whether the point is the neutral element.
    pub fn is_identity(&self) -> (r: bool)
        ensures
            r == (self@ == 0),
    {
        let id = G2Point::identity();
        self.eq(&id)
    }
}

/// Reads `G2Projective::GENERATOR` of `bls12_381_plus`: the fixed generator,
/// whose logarithm is one by definition.
#[verifier::external_body]
fn g2_generator() -> (r: G2Point)
    ensures
        r.encoding() == g2_encoding(1),
        r@ == 1,
{
    G2Point { bytes: blsful::inner_types::G2Projective::GENERATOR.to_compressed() }
}

/// Calls `G2Projective::from_compressed` of `bls12_381_plus`, which accepts
/// exactly the canonical encodings of the points of the prime-order group.
#[verifier::external_body]
fn g2_decode(bytes: &[u8; 96]) -> (r: Option<G2Point>)
    ensures
        r.is_some() == is_g2_encoding(bytes@),
        r matches Some(p) ==> p.encoding() == bytes@ && p.wf(),
{
    let p: Option<blsful::inner_types::G2Projective> =
        blsful::inner_types::G2Projective::from_compressed(bytes).into();
    p.map(|q| G2Point { bytes: q.to_compressed() })
}

/// Calls `G2Projective`'s `+` of `bls12_381_plus`, the group law: logarithms add.
#[verifier::external_body]
fn g2_add(a: &G2Point, b: &G2Point) -> (r: G2Point)
    requires
        a.wf(),
        b.wf(),
    ensures
        r.encoding() == g2_encoding(fadd(a@, b@)),
        r@ == fadd(a@, b@),
{
    let x = blsful::inner_types::G2Projective::from_compressed(&a.bytes).unwrap();
    let y = blsful::inner_types::G2Projective::from_compressed(&b.bytes).unwrap();
    G2Point { bytes: (x + y).to_compressed() }
}

/// Calls `G2Projective`'s `*` by a `Scalar` of `bls12_381_plus`, which
/// repeats the group law: the logarithm is multiplied by the scalar.
#[verifier::external_body]
fn g2_mul(a: &G2Point, s: &Scalar) -> (r: G2Point)
    requires
        a.wf(),
        s.wf(),
    ensures
        r.encoding() == g2_encoding(fmul(a@, s@)),
        r@ == fmul(a@, s@),
{
    let x = blsful::inner_types::G2Projective::from_compressed(&a.bytes).unwrap();
    let k = blsful::inner_types::Scalar::from_raw(s.limbs).unwrap();
    G2Point { bytes: (x * k).to_compressed() }
}

} // verus!
