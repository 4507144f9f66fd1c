//! Signatures: signing and verification.

use vstd::prelude::*;
use vstd::utf8::encode_utf8;
use crate::algebra::{
    cong, dot, lemma_cancel, lemma_cong_add, lemma_cong_mod, lemma_cong_mul, lemma_cong_small,
    lemma_cong_sub, lemma_dot_scale, lemma_fmul,
};
use crate::bytes::{append_scalar, scalars_bytes};
use crate::error::Error;
use crate::field::{fmul, modulus, os_rng, Scalar};
use crate::g1::{g1_hash_encoding, g1_log, G1Point};
use crate::group::{sum_of_products, values};
use crate::pairing::pair;
use crate::ps::keys::{PublicKey, SecretKey};
use crate::ps::positions::lemma_dot_update;

verus! {

/// The domain separation tag under which a signature's first point is hashed.
pub const SIGN_TAG: &'static str = "PS-sign";

/// A signature on a vector of messages.
#[derive(Clone, Copy, Debug)]
pub struct Signature {
    /// The point that the nonce and the messages hash to.
    pub sigma_1: G1Point,
    /// The first point taken by the key's exponent for the nonce and the messages.
    pub sigma_2: G1Point,
    /// The signing nonce.
    pub m_tick: Scalar,
}

/// The signing nonce followed by the messages: one scalar for each `y` of the key.
pub open spec fn extended(m_tick: nat, msgs: Seq<nat>) -> Seq<nat> {
    seq![m_tick] + msgs
}

/// The bytes that a signature's first point is hashed from.
pub open spec fn sign_input(m_tick: nat, msgs: Seq<nat>) -> Seq<u8> {
    scalars_bytes(extended(m_tick, msgs))
}

/// The logarithm of the point that the nonce and the messages hash to.
pub open spec fn sign_base(m_tick: nat, msgs: Seq<nat>) -> nat {
    g1_log(g1_hash_encoding(sign_input(m_tick, msgs), encode_utf8(SIGN_TAG@)))
}

/// The nonce followed by the messages, as a vector.
pub fn extend(m_tick: &Scalar, msgs: &[Scalar]) -> (r: Vec<Scalar>)
    ensures
        r@ == seq![*m_tick] + msgs@,
        values(r@) == extended(m_tick@, values(msgs@)),
{
    let mut out: Vec<Scalar> = Vec::new();
    out.push(*m_tick);
    let mut i: usize = 0;
    while i < msgs.len()
        invariant
            i <= msgs.len(),
            out@ == seq![*m_tick] + msgs@.take(i as int),
        decreases msgs.len() - i,
    {
        out.push(msgs[i]);
        assert(out@ =~= seq![*m_tick] + msgs@.take(i + 1));
        i += 1;
    }
    assert(msgs@.take(msgs.len() as int) =~= msgs@);
    assert(values(out@) =~= extended(m_tick@, values(msgs@)));
    out
}

/// The bytes of a sequence of scalars, 32 for each.
pub fn scalars_to_bytes(scalars: &Vec<Scalar>) -> (r: Vec<u8>)
    ensures
        r@ == scalars_bytes(values(scalars@)),
{
    let mut out: Vec<u8> = Vec::new();
    let mut i: usize = 0;
    let ghost vs = values(scalars@);
    while i < scalars.len()
        invariant
            i <= scalars.len(),
            vs == values(scalars@),
            out@ == scalars_bytes(vs.take(i as int)),
        decreases scalars.len() - i,
    {
        append_scalar(&mut out, &scalars[i]);
        proof {
            assert(vs.take(i + 1).drop_last() =~= vs.take(i as int));
        }
        i += 1;
    }
    assert(vs.take(scalars.len() as int) =~= vs);
    out
}

impl Signature {
    /// The signature is one that the secret key gives on the messages.
    pub open spec fn signs(&self, sk: &SecretKey, msgs: Seq<nat>) -> bool {
        &&& msgs.len() + 1 == sk.y.len()
        &&& self.sigma_1@ != 0
        &&& self.sigma_2@ == fmul(self.sigma_1@, sk.exponent(extended(self.m_tick@, msgs)))
    }

    /// The signature holds for the messages under the public key: the key
    /// has a point for each message, the first point is not the neutral
    /// element, and the pairing of the first point with the key's aggregate
    /// is the pairing of the second point with the key's generator.
    pub open spec fn verifies(&self, pk: &PublicKey, msgs: Seq<nat>) -> bool {
        &&& msgs.len() + 1 == pk.y_tilde.len()
        &&& self.sigma_1@ != 0
        &&& fmul(self.sigma_1@, pk.aggregate(extended(self.m_tick@, msgs))) == fmul(
            self.sigma_2@,
            pk.g_tilde@,
        )
    }

    /// Signs the messages with a given nonce. The key must have one scalar
    /// for each message, the nonce must not be zero, and the point that they
    /// hash to must not be the neutral element.
    pub fn with_nonce(sk: &SecretKey, msgs: &[Scalar], m_tick: Scalar) -> (r: Result<
        Signature,
        Error,
    >)
        ensures
            r.is_ok() == (msgs.len() + 1 == sk.y.len() && m_tick@ != 0 && sign_base(
                m_tick@,
                values(msgs@),
            ) != 0),
            r matches Ok(sig) ==> sig.m_tick == m_tick && sig.sigma_1@ == sign_base(
                m_tick@,
                values(msgs@),
            ) && sig.signs(sk, values(msgs@)),
            r matches Err(e) ==> e == Error::InvalidSignature,
    {
        if sk.y.len() == 0 || msgs.len() != sk.y.len() - 1 || m_tick.is_zero() {
            return Err(Error::InvalidSignature);
        }
        let ext = extend(&m_tick, msgs);
        let input = scalars_to_bytes(&ext);
        let sigma_1 = G1Point::hash(input.as_slice(), SIGN_TAG.as_bytes());
        if sigma_1.is_identity() {
            return Err(Error::InvalidSignature);
        }
        let exp = sk.exponent_for(&ext);
        let sigma_2 = sigma_1.mul(&exp);
        Ok(Signature { sigma_1, sigma_2, m_tick })
    }

    /// Signs the messages with a nonce drawn at random.
    pub fn new(sk: &SecretKey, msgs: &[Scalar]) -> (r: Result<Signature, Error>)
        ensures
            msgs.len() + 1 != sk.y.len() ==> r.is_err(),
            r matches Ok(sig) ==> sig.signs(sk, values(msgs@)) && sig.sigma_1@ == sign_base(
                sig.m_tick@,
                values(msgs@),
            ),
            r matches Ok(sig) ==> sig.m_tick@ != 0,
            r matches Err(e) ==> e == Error::InvalidSignature,
    {
        let mut rng = os_rng();
        let m_tick = Scalar::random_nonzero(&mut rng);
        Signature::with_nonce(sk, msgs, m_tick)
    }

    /// Whether the signature holds for the messages under the public key.
    pub fn verify(&self, pk: &PublicKey, msgs: &[Scalar]) -> (r: bool)
        ensures
            r == self.verifies(pk, values(msgs@)),
    {
        if pk.y_tilde.len() == 0 || msgs.len() != pk.y_tilde.len() - 1 {
            return false;
        }
        if self.sigma_1.is_identity() {
            return false;
        }
        let ext = extend(&self.m_tick, msgs);
        let sum = sum_of_products(&pk.y_tilde, &ext);
        let agg = pk.x_tilde.add(&sum);
        proof {
            assert(pk.y_tilde@.take(pk.y_tilde@.len() as int) =~= pk.y_tilde@);
            assert(ext@.take(ext@.len() as int) =~= ext@);
            assert(crate::group::logs(pk.y_tilde@) =~= pk.y_logs());
            vstd::arithmetic::div_mod::lemma_add_mod_noop_right(
                pk.x_tilde@ as int,
                dot(pk.y_logs(), values(ext@)) as int,
                modulus() as int,
            );
        }
        let lhs = pair(&self.sigma_1, &agg);
        let rhs = pair(&self.sigma_2, &pk.g_tilde);
        lhs.eq(&rhs)
    }
}

/// A signature that a secret key gives on messages holds for those messages
/// under the public key of that secret key.
pub proof fn lemma_signature_verifies(
    sig: Signature,
    sk: SecretKey,
    pk: PublicKey,
    msgs: Seq<nat>,
)
    requires
        pk.matches(&sk),
        sig.signs(&sk, msgs),
    ensures
        sig.verifies(&pk, msgs),
{
    let ext = extended(sig.m_tick@, msgs);
    let g = pk.g_tilde@;
    let s1 = sig.sigma_1@;
    let e = (sk.x@ + dot(sk.ys(), ext)) as int;
    let a = (pk.x_tilde@ + dot(pk.y_logs(), ext)) as int;
    // The aggregate is the generator taken by the exponent.
    lemma_fmul(g, sk.x@);
    assert forall|i: int| 0 <= i < sk.ys().len() implies cong(
        pk.y_logs()[i] as int,
        (g * sk.ys()[i]) as int,
    ) by {
        lemma_fmul(g, sk.y[i]@);
        assert(pk.y_tilde[i]@ == fmul(g, sk.y[i]@));
    }
    lemma_dot_scale(sk.ys(), ext, g, pk.y_logs());
    lemma_cong_add(
        pk.x_tilde@ as int,
        (g * sk.x@) as int,
        dot(pk.y_logs(), ext) as int,
        (g * dot(sk.ys(), ext)) as int,
    );
    assert((g * sk.x@) as int + (g * dot(sk.ys(), ext)) as int == g * e) by (nonlinear_arith)
        requires
            e == (sk.x@ + dot(sk.ys(), ext)) as int,
    ;
    lemma_cong_mod(a);
    lemma_cong_mod(e);
    // Left: the first point paired with the aggregate.
    lemma_fmul(s1, pk.aggregate(ext));
    lemma_cong_mul(s1 as int, s1 as int, pk.aggregate(ext) as int, g * e);
    // Right: the second point paired with the generator.
    lemma_fmul(s1, sk.exponent(ext));
    lemma_cong_mul(s1 as int, s1 as int, sk.exponent(ext) as int, e);
    lemma_fmul(sig.sigma_2@, g);
    lemma_cong_mul(sig.sigma_2@ as int, s1 * e, g as int, g as int);
    assert((s1 * e) * g == s1 * (g * e)) by (nonlinear_arith);
    lemma_cong_small(fmul(s1, pk.aggregate(ext)), fmul(sig.sigma_2@, g));
}

/// A signature holds for two vectors of messages only if the key takes
/// both to the same point, as far as the signature's first point tells: with
/// the logarithms `s` of that point and `g` of the key's generator, and the
/// key's scalars `y`, the products `s * g * (y . a)` and `s * g * (y . b)`
/// are congruent. Messages that are altered otherwise are refused.
pub proof fn lemma_altered_messages(
    sig: Signature,
    sk: SecretKey,
    pk: PublicKey,
    a: Seq<nat>,
    b: Seq<nat>,
)
    requires
        pk.matches(&sk),
        sig.verifies(&pk, a),
        sig.verifies(&pk, b),
    ensures
        cong(
            (sig.sigma_1@ * (pk.g_tilde@ * dot(sk.ys(), extended(sig.m_tick@, a)))) as int,
            (sig.sigma_1@ * (pk.g_tilde@ * dot(sk.ys(), extended(sig.m_tick@, b)))) as int,
        ),
{
    let s = sig.sigma_1@;
    let g = pk.g_tilde@;
    let ea = extended(sig.m_tick@, a);
    let eb = extended(sig.m_tick@, b);
    lemma_aggregate(sk, pk, ea);
    lemma_aggregate(sk, pk, eb);
    lemma_fmul(s, pk.aggregate(ea));
    lemma_fmul(s, pk.aggregate(eb));
    let x = (g * sk.x@) as int;
    let da = (g * dot(sk.ys(), ea)) as int;
    let db = (g * dot(sk.ys(), eb)) as int;
    lemma_cong_mul(s as int, s as int, pk.aggregate(ea) as int, x + da);
    lemma_cong_mul(s as int, s as int, pk.aggregate(eb) as int, x + db);
    // s * (x + da) and s * (x + db) are congruent: take s * x off both.
    lemma_cong_sub(s * (x + da), s * (x + db), s * x, s * x);
    assert(s * (x + da) - s * x == s * da) by (nonlinear_arith);
    assert(s * (x + db) - s * x == s * db) by (nonlinear_arith);
}

/// A signature that holds for a vector of messages holds for no vector
/// that differs from it in one message only, where the logarithms of the
/// signature's first point and of the key's generator and the key's scalar
/// for that message have a product with an inverse, as every field element
/// but zero has one.
pub proof fn lemma_altered_message(
    sig: Signature,
    sk: SecretKey,
    pk: PublicKey,
    msgs: Seq<nat>,
    i: int,
    v: nat,
    inverse: nat,
)
    requires
        pk.matches(&sk),
        sig.verifies(&pk, msgs),
        0 <= i < msgs.len(),
        msgs[i] < modulus(),
        v < modulus(),
        v != msgs[i],
        cong((inverse * (sig.sigma_1@ * (pk.g_tilde@ * sk.ys()[i + 1]))) as int, 1),
    ensures
        !sig.verifies(&pk, msgs.update(i, v)),
{
    let altered = msgs.update(i, v);
    if sig.verifies(&pk, altered) {
        let s = sig.sigma_1@ as int;
        let g = pk.g_tilde@ as int;
        let y = sk.ys()[i + 1] as int;
        let ea = extended(sig.m_tick@, msgs);
        let eb = extended(sig.m_tick@, altered);
        let da = dot(sk.ys(), ea) as int;
        let db = dot(sk.ys(), eb) as int;
        let d = v as int - msgs[i] as int;
        lemma_altered_messages(sig, sk, pk, msgs, altered);
        assert(eb =~= ea.update(i + 1, v));
        lemma_dot_update(sk.ys(), ea, i + 1, v);
        assert(db - da == y * d) by (nonlinear_arith)
            requires
                db + y * (msgs[i] as int) == da + y * (v as int),
                d == v as int - msgs[i] as int,
        ;
        lemma_cong_sub(s * (g * db), s * (g * da), s * (g * da), s * (g * da));
        assert(s * (g * db) - s * (g * da) == (s * (g * y)) * d) by (nonlinear_arith)
            requires
                db - da == y * d,
        ;
        let k = s * (g * y);
        lemma_cong_mul(inverse as int, inverse as int, k * d, 0);
        lemma_cong_mul(inverse as int * k, 1, d, d);
        assert(inverse as int * (k * d) == (inverse as int * k) * d) by (nonlinear_arith);
        lemma_cong_add(d, 0, msgs[i] as int, msgs[i] as int);
        lemma_cong_small(v, msgs[i]);
    }
}

/// A signature that holds for a vector of messages no longer does with
/// another second point, where the logarithm of the key's generator has an
/// inverse, as every field element but zero has one.
pub proof fn lemma_altered_point(
    sig: Signature,
    pk: PublicKey,
    msgs: Seq<nat>,
    point: G1Point,
    inverse: nat,
)
    requires
        sig.verifies(&pk, msgs),
        sig.sigma_2.wf(),
        point.wf(),
        point@ != sig.sigma_2@,
        cong((inverse * pk.g_tilde@) as int, 1),
    ensures
        !(Signature { sigma_1: sig.sigma_1, sigma_2: point, m_tick: sig.m_tick }).verifies(
            &pk,
            msgs,
        ),
{
    let other = Signature { sigma_1: sig.sigma_1, sigma_2: point, m_tick: sig.m_tick };
    if other.verifies(&pk, msgs) {
        let g = pk.g_tilde@;
        sig.sigma_2.lemma_log();
        point.lemma_log();
        lemma_fmul(sig.sigma_2@, g);
        lemma_fmul(point@, g);
        assert(g * sig.sigma_2@ == sig.sigma_2@ * g && g * point@ == point@ * g)
            by (nonlinear_arith);
        lemma_cancel(g, inverse, sig.sigma_2@, point@);
    }
}

/// The aggregate of a key for a vector is its generator taken by the
/// secret key's `x` and by the secret key's scalars taken with the vector.
proof fn lemma_aggregate(sk: SecretKey, pk: PublicKey, ext: Seq<nat>)
    requires
        pk.matches(&sk),
    ensures
        cong(
            pk.aggregate(ext) as int,
            (pk.g_tilde@ * sk.x@) as int + (pk.g_tilde@ * dot(sk.ys(), ext)) as int,
        ),
{
    let g = pk.g_tilde@;
    lemma_fmul(g, sk.x@);
    assert forall|i: int| 0 <= i < sk.ys().len() implies cong(
        pk.y_logs()[i] as int,
        (g * sk.ys()[i]) as int,
    ) by {
        lemma_fmul(g, sk.y[i]@);
        assert(pk.y_tilde[i]@ == fmul(g, sk.y[i]@));
    }
    lemma_dot_scale(sk.ys(), ext, g, pk.y_logs());
    lemma_cong_add(
        pk.x_tilde@ as int,
        (g * sk.x@) as int,
        dot(pk.y_logs(), ext) as int,
        (g * dot(sk.ys(), ext)) as int,
    );
    lemma_cong_mod((pk.x_tilde@ + dot(pk.y_logs(), ext)) as int);
}

} // verus!
