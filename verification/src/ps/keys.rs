//! Secret and public keys.
//!
//! A key for `n` messages holds `n + 1` scalars `y`: the first binds the
//! signing nonce, and the scalar at position `i + 1` binds message `i`.

use vstd::prelude::*;
use rand_core::OsRng;
use crate::algebra::{dot, lemma_dot_take};
use crate::bytes::{append_bytes, append_u64, u64_bytes};
use crate::field::{fmul, modulus, Scalar};
use crate::g1::G1Point;
use crate::g2::{g2_encoding, G2Point};
use crate::group::{Group, logs, values};

verus! {

/// The most messages that one key signs.
pub const MAX_MESSAGES: usize = 128;

/// The issuer's secret.
pub struct SecretKey {
    /// The scalar that goes with no message.
    pub x: Scalar,
    /// The scalar of the signing nonce, then one for each message.
    pub y: Vec<Scalar>,
}

/// What verifiers and holders know of the issuer's key.
pub struct PublicKey {
    /// The generator of the second group that the key is over.
    pub g_tilde: G2Point,
    /// The generator taken `x` times.
    pub x_tilde: G2Point,
    /// The generator taken `y[i]` times, for each `i`.
    pub y_tilde: Vec<G2Point>,
    /// The generator of the first group taken `y[i]` times, for each `i`:
    /// the bases of the commitments of blind issuance. They are not hashed
    /// to the curve: the issuer signs a commitment over these bases by
    /// taking it by the scalars of the key, so each base must be the
    /// generator taken by its scalar, or the signature that comes of a
    /// blind issuance would not hold.
    pub y_blinds: Vec<G1Point>,
}

impl SecretKey {
    /// The values of `y`.
    pub open spec fn ys(&self) -> Seq<nat> {
        values(self.y@)
    }

    /// The key signs between one message and `MAX_MESSAGES`, and none of its
    /// scalars is zero.
    pub open spec fn valid(&self) -> bool {
        &&& 2 <= self.y.len() <= MAX_MESSAGES + 1
        &&& self.x@ != 0
        &&& forall|i: int| 0 <= i < self.y.len() ==> (#[trigger] self.y[i])@ != 0
    }

    /// The scalar that a signature's first point is taken by to give its
    /// second, for the signing nonce followed by the messages.
    pub open spec fn exponent(&self, extended: Seq<nat>) -> nat {
        (self.x@ + dot(self.ys(), extended)) % modulus()
    }

    /// The logarithms of the points that the public key has for `y`, over
    /// the fixed generators.
    pub open spec fn public_logs(&self) -> Seq<nat> {
        self.y@.map_values(|s: Scalar| fmul(1, s@))
    }

    /// The bytes of the public key of this key, over the fixed generators.
    pub open spec fn public_encoding(&self) -> Seq<u8> {
        key_encoding(1, fmul(1, self.x@), self.public_logs(), self.public_logs())
    }

    /// Whether the key is valid.
    pub fn is_valid(&self) -> (r: bool)
        ensures
            r == self.valid(),
    {
        if self.y.len() < 2 || self.y.len() > MAX_MESSAGES + 1 || self.x.is_zero() {
            return false;
        }
        let mut i: usize = 0;
        while i < self.y.len()
            invariant
                i <= self.y.len(),
                forall|j: int| 0 <= j < i ==> (#[trigger] self.y[j])@ != 0,
            decreases self.y.len() - i,
        {
            if self.y[i].is_zero() {
                return false;
            }
            i += 1;
        }
        true
    }

    /// The key made of the given scalars, if they make a valid key.
    pub fn from_scalars(x: Scalar, y: Vec<Scalar>) -> (r: Option<SecretKey>)
        ensures
            r.is_some() == (SecretKey { x, y }).valid(),
            r matches Some(sk) ==> sk == (SecretKey { x, y }),
    {
        let sk = SecretKey { x, y };
        if sk.is_valid() {
            Some(sk)
        } else {
            None
        }
    }

    /// A key for `count` messages, its scalars drawn at random among those
    /// that are not zero. There is one for every number of messages from one
    /// to `MAX_MESSAGES`, and for no other.
    pub fn random(count: usize, rng: &mut OsRng) -> (r: Option<SecretKey>)
        ensures
            r.is_some() == (1 <= count <= MAX_MESSAGES),
            r matches Some(sk) ==> sk.valid() && sk.y.len() == count + 1,
    {
        if count == 0 || count > MAX_MESSAGES {
            return None;
        }
        let x = Scalar::random_nonzero(rng);
        let mut y: Vec<Scalar> = Vec::new();
        let mut i: usize = 0;
        while i < count + 1
            invariant
                i <= count + 1,
                count <= MAX_MESSAGES,
                y.len() == i,
                forall|j: int| 0 <= j < i ==> (#[trigger] y[j])@ != 0,
            decreases count + 1 - i,
        {
            y.push(Scalar::random_nonzero(rng));
            i += 1;
        }
        SecretKey::from_scalars(x, y)
    }

    /// The scalar by which a signature's first point gives its second, for
    /// the signing nonce followed by the messages, one for each `y`.
    pub(crate) fn exponent_for(&self, extended: &Vec<Scalar>) -> (r: Scalar)
        requires
            extended.len() == self.y.len(),
        ensures
            r@ == self.exponent(values(extended@)),
    {
        let mut acc = self.x;
        let mut i: usize = 0;
        let ghost ys = self.ys();
        let ghost es = values(extended@);
        proof {
            use_type_invariant(&acc);
            acc.lemma_bound();
            vstd::arithmetic::div_mod::lemma_small_mod(acc@, modulus());
        }
        while i < self.y.len()
            invariant
                i <= self.y.len(),
                extended.len() == self.y.len(),
                ys == self.ys(),
                es == values(extended@),
                acc@ == (self.x@ + dot(ys.take(i as int), es.take(i as int))) % modulus(),
            decreases self.y.len() - i,
        {
            let term = self.y[i].mul(&extended[i]);
            let next = acc.add(&term);
            proof {
                lemma_dot_take(ys, es, i as int);
                let d = self.x@ + dot(ys.take(i as int), es.take(i as int));
                let t = ys[i as int] * es[i as int];
                vstd::arithmetic::div_mod::lemma_add_mod_noop(
                    d as int,
                    t as int,
                    modulus() as int,
                );
            }
            acc = next;
            i += 1;
        }
        assert(ys.take(self.y.len() as int) =~= ys);
        assert(es.take(self.y.len() as int) =~= es);
        acc
    }

    /// A copy of the key.
    pub fn duplicate(&self) -> (r: SecretKey)
        ensures
            r.x == self.x,
            r.y@ == self.y@,
    {
        let mut y: Vec<Scalar> = Vec::new();
        let mut i: usize = 0;
        while i < self.y.len()
            invariant
                i <= self.y.len(),
                y@ == self.y@.take(i as int),
            decreases self.y.len() - i,
        {
            y.push(self.y[i]);
            assert(y@ =~= self.y@.take(i + 1));
            i += 1;
        }
        assert(y@ =~= self.y@);
        SecretKey { x: self.x, y }
    }
}

impl PublicKey {
    /// The logarithms of `y_tilde`.
    pub open spec fn y_logs(&self) -> Seq<nat> {
        self.y_tilde@.map_values(|p: G2Point| p@)
    }

    /// The logarithms of `y_blinds`.
    pub open spec fn blind_logs(&self) -> Seq<nat> {
        self.y_blinds@.map_values(|p: G1Point| p@)
    }

    /// The key is the public part of `sk`.
    pub open spec fn matches(&self, sk: &SecretKey) -> bool {
        &&& self.y_tilde.len() == sk.y.len()
        &&& self.y_blinds.len() == sk.y.len()
        &&& self.x_tilde@ == fmul(self.g_tilde@, sk.x@)
        &&& forall|i: int|
            0 <= i < sk.y.len() ==> (#[trigger] self.y_tilde[i])@ == fmul(self.g_tilde@, sk.y[i]@)
        &&& forall|i: int|
            0 <= i < sk.y.len() ==> (#[trigger] self.y_blinds[i])@ == fmul(1, sk.y[i]@)
    }

    /// The logarithm of the point that a signature's first point is paired
    /// with, for the signing nonce followed by the messages.
    pub open spec fn aggregate(&self, extended: Seq<nat>) -> nat {
        (self.x_tilde@ + dot(self.y_logs(), extended)) % modulus()
    }

    /// The key's bytes: the generator, `x_tilde`, the number of `y`, then
    /// the points of `y_tilde` and those of `y_blinds`.
    pub open spec fn encoding(&self) -> Seq<u8> {
        key_encoding(self.g_tilde@, self.x_tilde@, self.y_logs(), self.blind_logs())
    }

    /// The public part of a secret key, over the fixed generators.
    pub fn from_secret(sk: &SecretKey) -> (pk: PublicKey)
        ensures
            pk.matches(sk),
            pk.g_tilde@ == 1,
            pk.y_logs() == sk.public_logs(),
            pk.blind_logs() == sk.public_logs(),
            pk.encoding() == sk.public_encoding(),
    {
        let g_tilde = G2Point::generator();
        let g = G1Point::generator();
        let x_tilde = g_tilde.mul(&sk.x);
        let mut y_tilde: Vec<G2Point> = Vec::new();
        let mut y_blinds: Vec<G1Point> = Vec::new();
        let mut i: usize = 0;
        while i < sk.y.len()
            invariant
                i <= sk.y.len(),
                y_tilde.len() == i,
                y_blinds.len() == i,
                g_tilde@ == 1,
                g@ == 1,
                forall|j: int| 0 <= j < i ==> (#[trigger] y_tilde[j])@ == fmul(1, sk.y[j]@),
                forall|j: int| 0 <= j < i ==> (#[trigger] y_blinds[j])@ == fmul(1, sk.y[j]@),
            decreases sk.y.len() - i,
        {
            y_tilde.push(g_tilde.mul(&sk.y[i]));
            y_blinds.push(g.mul(&sk.y[i]));
            i += 1;
        }
        let pk = PublicKey { g_tilde, x_tilde, y_tilde, y_blinds };
        assert(pk.y_logs() =~= sk.public_logs());
        assert(pk.blind_logs() =~= sk.public_logs());
        pk
    }

    /// The key has a point of each kind for the nonce and for each of
    /// between one message and `MAX_MESSAGES`.
    pub open spec fn well_formed(&self) -> bool {
        &&& 2 <= self.y_tilde.len() <= MAX_MESSAGES + 1
        &&& self.y_blinds.len() == self.y_tilde.len()
    }

    /// Whether the key is well formed.
    pub fn is_well_formed(&self) -> (r: bool)
        ensures
            r == self.well_formed(),
    {
        2 <= self.y_tilde.len() && self.y_tilde.len() <= MAX_MESSAGES + 1 && self.y_blinds.len()
            == self.y_tilde.len()
    }

    /// The key's bytes.
    pub fn to_bytes(&self) -> (r: Vec<u8>)
        ensures
            r@ == self.encoding(),
            r.len() <= 200 + 96 * (self.y_tilde.len() + self.y_blinds.len()),
    {
        let mut out: Vec<u8> = Vec::new();
        proof {
            use_type_invariant(&self.g_tilde);
            use_type_invariant(&self.x_tilde);
            self.g_tilde.lemma_log();
            self.x_tilde.lemma_log();
        }
        append_bytes(&mut out, self.g_tilde.to_bytes().as_slice());
        append_bytes(&mut out, self.x_tilde.to_bytes().as_slice());
        append_u64(&mut out, self.y_tilde.len() as u64);
        append_points(&mut out, &self.y_tilde);
        append_points(&mut out, &self.y_blinds);
        assert(logs(self.y_tilde@) =~= self.y_logs());
        assert(logs(self.y_blinds@) =~= self.blind_logs());
        assert(out@ =~= self.encoding());
        out
    }

    /// A copy of the key.
    pub fn duplicate(&self) -> (r: PublicKey)
        ensures
            r.g_tilde == self.g_tilde,
            r.x_tilde == self.x_tilde,
            r.y_tilde@ == self.y_tilde@,
            r.y_blinds@ == self.y_blinds@,
    {
        let y_tilde = copy_points(&self.y_tilde);
        let y_blinds = copy_points(&self.y_blinds);
        PublicKey { g_tilde: self.g_tilde, x_tilde: self.x_tilde, y_tilde, y_blinds }
    }
}

/// The bytes of a public key with the given logarithms: the generator,
/// `x_tilde`, the number of `y`, then the points of `y_tilde` and those of
/// `y_blinds`.
pub open spec fn key_encoding(g: nat, x: nat, ys: Seq<nat>, blinds: Seq<nat>) -> Seq<u8> {
    g2_encoding(g) + g2_encoding(x) + u64_bytes(ys.len() as u64) + encodings::<G2Point>(ys)
        + encodings::<G1Point>(blinds)
}

/// The encodings of the points with the given logarithms, one after the other.
pub open spec fn encodings<P: Group>(logs: Seq<nat>) -> Seq<u8>
    decreases logs.len(),
{
    if logs.len() == 0 {
        Seq::empty()
    } else {
        encodings::<P>(logs.drop_last()) + P::enc_of(logs.last())
    }
}

/// Appends the encodings of the points to a vector of bytes.
pub fn append_points<P: Group>(out: &mut Vec<u8>, points: &Vec<P>)
    ensures
        final(out)@ == old(out)@ + encodings::<P>(logs(points@)),
        final(out).len() <= old(out).len() + 96 * points.len(),
        encodings::<P>(logs(points@)).len() == P::size() * points.len(),
{
    let mut i: usize = 0;
    let ghost ls = logs(points@);
    assert(out@ =~= old(out)@ + encodings::<P>(ls.take(0)));
    while i < points.len()
        invariant
            i <= points.len(),
            ls == logs(points@),
            out@ == old(out)@ + encodings::<P>(ls.take(i as int)),
            out.len() <= old(out).len() + 96 * i,
            encodings::<P>(ls.take(i as int)).len() == P::size() * i,
        decreases points.len() - i,
    {
        let bytes = points[i].encode();
        append_bytes(out, bytes.as_slice());
        proof {
            P::lemma_enc(points[i as int]);
            assert(ls.take(i + 1).drop_last() =~= ls.take(i as int));
            assert(out@ =~= old(out)@ + encodings::<P>(ls.take(i + 1)));
            assert(P::size() * (i + 1) == P::size() * i + P::size()) by (nonlinear_arith);
        }
        i += 1;
    }
    assert(ls.take(points.len() as int) =~= ls);
}

/// A copy of a vector of points.
pub fn copy_points<P: Group>(points: &Vec<P>) -> (r: Vec<P>)
    ensures
        r@ == points@,
{
    let mut out: Vec<P> = Vec::new();
    let mut i: usize = 0;
    while i < points.len()
        invariant
            i <= points.len(),
            out@ == points@.take(i as int),
        decreases points.len() - i,
    {
        out.push(points[i]);
        assert(out@ =~= points@.take(i + 1));
        i += 1;
    }
    assert(out@ =~= points@);
    out
}

} // verus!
