//! The first source group of the pairing.

use vstd::prelude::*;
use crate::field::{fadd, fmul, modulus, Scalar};

verus! {

/// The compressed encoding of the generator of the first group taken `k`
/// times: what `bls12_381_plus` returns for
/// `(G1Projective::GENERATOR * k).to_compressed()`.
pub uninterp spec fn g1_encoding(k: nat) -> Seq<u8>;

/// The compressed encoding of the point that `bls12_381_plus` hashes a
/// message to under a domain separation tag, with SHA-256 as the expander.
pub uninterp spec fn g1_hash_encoding(msg: Seq<u8>, dst: Seq<u8>) -> Seq<u8>;

/// Whether the bytes encode a point of the first group.
pub open spec fn is_g1_encoding(bytes: Seq<u8>) -> bool {
    exists|k: nat| k < modulus() && #[trigger] g1_encoding(k) == bytes
}

/// A discrete logarithm of the point that the bytes encode.
pub open spec fn g1_log(bytes: Seq<u8>) -> nat {
    choose|k: nat| k < modulus() && #[trigger] g1_encoding(k) == bytes
}

/// A point of the first group, held in compressed form.
#[derive(Clone, Copy, Debug)]
pub struct G1Point {
    pub(crate) bytes: [u8; 48],
}

impl View for G1Point {
    type V = nat;

    /// The point's discrete logarithm with respect to the generator.
    open spec fn view(&self) -> nat {
        g1_log(self.encoding())
    }
}

impl G1Point {
    /// The bytes encode a point of the group.
    #[verifier::type_invariant]
    pub open spec fn wf(&self) -> bool {
        is_g1_encoding(self.encoding())
    }

    /// The point's compressed encoding.
    pub closed spec fn encoding(&self) -> Seq<u8> {
        self.bytes@
    }

    /// A point is the generator taken as many times as its logarithm says.
    pub proof fn lemma_log(self)
        requires
            self.wf(),
        ensures
            self@ < modulus(),
            g1_encoding(self@) == self.encoding(),
            self.encoding().len() == 48,
    {
    }

    /// Points with one logarithm have one encoding, and the converse.
    pub proof fn lemma_same(self, other: G1Point)
        requires
            self.wf(),
            other.wf(),
        ensures
            (self@ == other@) == (self.encoding() == other.encoding()),
    {
    }

    /// The generator of the group.
    pub fn generator() -> (r: G1Point)
        ensures
            r@ == 1,
            r.wf(),
    {
        g1_generator()
    }

    /// The neutral element of the group.
    pub fn identity() -> (r: G1Point)
        ensures
            r@ == 0,
            r.wf(),
    {
        let zero = Scalar::from_u64(0);
        let g = g1_generator();
        let r = g1_mul(&g, &zero);
        assert(fmul(1, 0) == 0) by {
            vstd::arithmetic::div_mod::lemma_small_mod(0, modulus());
        }
        r
    }

    /// The point that a message hashes to under a domain separation tag.
    pub fn hash(msg: &[u8], dst: &[u8]) -> (r: G1Point)
        ensures
            r.encoding() == g1_hash_encoding(msg@, dst@),
            r.wf(),
    {
        g1_hash(msg, dst)
    }

    /// The point that the bytes encode, if they encode one.
    pub fn from_bytes(bytes: &[u8; 48]) -> (r: Option<G1Point>)
        ensures
            r.is_some() == is_g1_encoding(bytes@),
            r matches Some(p) ==> p.encoding() == bytes@ && p.wf(),
    {
        g1_decode(bytes)
    }

    /// The point that a slice of bytes encodes, if it encodes one.
    pub fn from_slice(bytes: &[u8]) -> (r: Option<G1Point>)
        ensures
            r.is_some() == (bytes@.len() == 48 && is_g1_encoding(bytes@)),
            r matches Some(p) ==> p.encoding() == bytes@ && p.wf(),
    {
        if bytes.len() != 48 {
            return None;
        }
        let mut array = [0u8; 48];
        let mut i: usize = 0;
        while i < 48
            invariant
                i <= 48,
                bytes@.len() == 48,
                forall|j: int| 0 <= j < i ==> array@[j] == bytes@[j],
            decreases 48 - i,
        {
            array[i] = bytes[i];
            i += 1;
        }
        assert(array@ =~= bytes@);
        G1Point::from_bytes(&array)
    }

    /// The point's compressed encoding.
    pub fn to_bytes(&self) -> (r: [u8; 48])
        ensures
            r@ == self.encoding(),
    {
        self.bytes
    }

    /// The sum of two points.
    pub fn add(&self, other: &G1Point) -> (r: G1Point)
        ensures
            r@ == fadd(self@, other@),
            r.wf(),
    {
        proof {
            use_type_invariant(self);
            use_type_invariant(other);
        }
        g1_add(self, other)
    }

    /// The point taken `s` times.
    pub fn mul(&self, s: &Scalar) -> (r: G1Point)
        ensures
            r@ == fmul(self@, s@),
            r.wf(),
    {
        proof {
            use_type_invariant(self);
            use_type_invariant(s);
        }
        g1_mul(self, s)
    }

    /// Whether two points are the same.
    pub fn eq(&self, other: &G1Point) -> (r: bool)
        ensures
            r == (self@ == other@),
    {
        proof {
            use_type_invariant(self);
            use_type_invariant(other);
            self.lemma_same(*other);
        }
        let mut i: usize = 0;
        while i < 48
            invariant
                i <= 48,
                (self@ == other@) == (self.bytes@ == other.bytes@),
                forall|j: int| 0 <= j < i ==> self.bytes@[j] == other.bytes@[j],
            decreases 48 - i,
        {
            if self.bytes[i] != other.bytes[i] {
                return false;
            }
            i += 1;
        }
        assert(self.bytes@ =~= other.bytes@);
        true
    }

    /// Whether the point is the neutral element.
    pub fn is_identity(&self) -> (r: bool)
        ensures
            r == (self@ == 0),
    {
        let id = G1Point::identity();
        self.eq(&id)
    }
}

/// Reads `G1Projective::GENERATOR` of `bls12_381_plus`: the fixed generator,
/// whose logarithm is one by definition.
#[verifier::external_body]
fn g1_generator() -> (r: G1Point)
    ensures
        r.encoding() == g1_encoding(1),
        r@ == 1,
{
    G1Point { bytes: blsful::inner_types::G1Projective::GENERATOR.to_compressed() }
}

/// Calls `G1Projective::from_compressed` of `bls12_381_plus`, which accepts
/// exactly the canonical encodings of the points of the prime-order group.
#[verifier::external_body]
fn g1_decode(bytes: &[u8; 48]) -> (r: Option<G1Point>)
    ensures
        r.is_some() == is_g1_encoding(bytes@),
        r matches Some(p) ==> p.encoding() == bytes@ && p.wf(),
{
    let p: Option<blsful::inner_types::G1Projective> =
        blsful::inner_types::G1Projective::from_compressed(bytes).into();
    p.map(|q| G1Point { bytes: q.to_compressed() })
}

/// Calls `G1Projective`'s `+` of `bls12_381_plus`, the group law: logarithms add.
#[verifier::external_body]
fn g1_add(a: &G1Point, b: &G1Point) -> (r: G1Point)
    requires
        a.wf(),
        b.wf(),
    ensures
        r.encoding() == g1_encoding(fadd(a@, b@)),
        r@ == fadd(a@, b@),
{
    let x = blsful::inner_types::G1Projective::from_compressed(&a.bytes).unwrap();
    let y = blsful::inner_types::G1Projective::from_compressed(&b.bytes).unwrap();
    G1Point { bytes: (x + y).to_compressed() }
}

/// Calls `G1Projective`'s `*` by a `Scalar` of `bls12_381_plus`, which
/// repeats the group law: the logarithm is multiplied by the scalar.
#[verifier::external_body]
fn g1_mul(a: &G1Point, s: &Scalar) -> (r: G1Point)
    requires
        a.wf(),
        s.wf(),
    ensures
        r.encoding() == g1_encoding(fmul(a@, s@)),
        r@ == fmul(a@, s@),
{
    let x = blsful::inner_types::G1Projective::from_compressed(&a.bytes).unwrap();
    let k = blsful::inner_types::Scalar::from_raw(s.limbs).unwrap();
    G1Point { bytes: (x * k).to_compressed() }
}

/// Calls `G1Projective::hash` of `bls12_381_plus` with `ExpandMsgXmd` over
/// SHA-256. The result is a point of the prime-order group that depends on
/// the message and the tag alone.
#[verifier::external_body]
fn g1_hash(msg: &[u8], dst: &[u8]) -> (r: G1Point)
    ensures
        r.encoding() == g1_hash_encoding(msg@, dst@),
        r.encoding() == g1_encoding(r@),
        r@ < modulus(),
{
    let p = blsful::inner_types::G1Projective::hash::<
        blsful::inner_types::ExpandMsgXmd<sha2::Sha256>,
    >(msg, dst);
    G1Point { bytes: p.to_compressed() }
}

} // verus!
