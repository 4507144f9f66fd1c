//! What holds of blind issuance between an honest holder and an honest issuer.

use vstd::prelude::*;
use crate::algebra::{
    cong, dot, lemma_cong_add, lemma_cong_mod, lemma_cong_mul, lemma_cong_small, lemma_dot_cong,
    lemma_dot_push, lemma_fadd, lemma_fmul, lemma_fsub,
};
use crate::field::{fadd, fmul, fsub};
use crate::ps::blind::{
    BlindSignature, BlindSignatureContext, hidden_bases, hidden_secrets, merged, unblinded,
};
use crate::ps::keys::{PublicKey, SecretKey};
use crate::ps::positions::{
    complement, gather, lemma_dot_add, lemma_gather, lemma_scatter, lemma_scatter_nonce, pick,
    Placed, pointwise_sum, positions, scatter, vals, well_placed, with_nonce,
};
use crate::ps::signature::{extended, Signature};
use crate::schnorr::{combination, lemma_schnorr};

verus! {

/// The issuer accepts the proof of opening of a context that a holder made
/// for the messages at exactly the positions that the issuer does not know.
pub proof fn lemma_opening_verifies(
    ctx: BlindSignatureContext,
    pk: PublicKey,
    hidden: Seq<Placed>,
    known: Seq<Placed>,
    nonce: nat,
    blinding: nat,
)
    requires
        ctx.made_for(&pk, hidden, nonce, blinding),
        positions(hidden) == complement(known, 1, pk.y_blinds.len() as int),
    ensures
        ctx.opening_holds(pk.encoding(), pk.blind_logs(), known, nonce),
{
    let blinders = choose|blinders: Seq<nat>|
        blinders.len() == hidden.len() + 1 && #[trigger] ctx.opens(
            &pk,
            hidden,
            nonce,
            blinding,
            blinders,
        );
    let blinds = pk.blind_logs();
    let bases = hidden_bases(blinds, hidden);
    let secrets = hidden_secrets(hidden, blinding);
    assert(gather(blinds, hidden) =~= pick(blinds, positions(hidden)));
    lemma_schnorr(bases, blinders, secrets, ctx.challenge@);
}

/// Scattered messages taken with the key's bases give what the hidden
/// messages give taken with their bases.
proof fn lemma_commitment(sk: SecretKey, blinds: Seq<nat>, hidden: Seq<Placed>, blinding: nat)
    requires
        blinds.len() == sk.y.len(),
        forall|i: int| 0 <= i < sk.y.len() ==> blinds[i] == fmul(1, (#[trigger] sk.y[i])@),
        well_placed(hidden, sk.y.len() as int),
    ensures
        cong(
            combination(hidden_bases(blinds, hidden), hidden_secrets(hidden, blinding)) as int,
            (dot(sk.ys(), scatter(sk.y.len() as int, hidden)) + blinding) as int,
        ),
{
    let len = sk.y.len() as int;
    let bases = hidden_bases(blinds, hidden);
    let secrets = hidden_secrets(hidden, blinding);
    lemma_dot_push(gather(blinds, hidden), vals(hidden), 1, blinding);
    assert(1 * blinding == blinding);
    lemma_gather(blinds, hidden);
    lemma_scatter(len, hidden);
    assert forall|i: int| 0 <= i < blinds.len() implies cong(
        blinds[i] as int,
        sk.ys()[i] as int,
    ) by {
        lemma_fmul(1, sk.y[i]@);
        assert(1 * sk.y[i]@ == sk.y[i]@);
    }
    lemma_dot_cong(blinds, sk.ys(), scatter(len, hidden), scatter(len, hidden));
    lemma_cong_mod(dot(bases, secrets) as int);
    lemma_cong_add(
        dot(blinds, scatter(len, hidden)) as int,
        dot(sk.ys(), scatter(len, hidden)) as int,
        blinding as int,
        blinding as int,
    );
}

/// A blind signature with the blinding taken off is a signature of the
/// issuer's key on all the messages: those that the holder committed to and
/// those that the issuer knew.
pub proof fn lemma_unblinded_signs(
    sig: Signature,
    blind: BlindSignature,
    sk: SecretKey,
    pk: PublicKey,
    hidden: Seq<Placed>,
    known: Seq<Placed>,
    blinding: nat,
    commitment: nat,
    u: nat,
)
    requires
        1 <= sk.y.len(),
        pk.matches(&sk),
        well_placed(hidden, sk.y.len() as int),
        well_placed(known, sk.y.len() as int),
        commitment == combination(
            hidden_bases(pk.blind_logs(), hidden),
            hidden_secrets(hidden, blinding),
        ),
        blind.issued(&sk, commitment, known, u),
        sig.sigma_1 == blind.sigma_1,
        sig.m_tick == blind.m_tick,
        sig.sigma_2@ == unblinded(blind.sigma_1@, blind.sigma_2@, blinding),
    ensures
        sig.signs(&sk, merged(sk.y.len() as int, hidden, known)),
{
    let len = sk.y.len() as int;
    let m_tick = sig.m_tick@;
    let msgs = merged(len, hidden, known);
    let ext = extended(m_tick, msgs);
    let sk_known = scatter(len, with_nonce(m_tick, known));
    let sk_hidden = scatter(len, hidden);
    let ys = sk.ys();
    let s1 = blind.sigma_1@;
    // The nonce and all the messages are the known ones plus the hidden ones.
    lemma_scatter_nonce(len, m_tick, known);
    lemma_scatter(len, hidden);
    lemma_scatter(len, known);
    assert(ext =~= pointwise_sum(sk_known, sk_hidden)) by {
        assert(sk_hidden[0] == 0) by {
            if crate::ps::positions::occurs(hidden, 0) {
                let i = choose|i: int| 0 <= i < hidden.len() && (#[trigger] hidden[i]).0 == 0;
                assert(1 <= hidden[i].0);
            }
        }
        assert forall|p: int| 0 <= p < len implies ext[p] == #[trigger] sk_known[p]
            + sk_hidden[p] by {
            if p > 0 {
                assert(ext[p] == msgs[p - 1]);
            }
        }
    }
    lemma_dot_add(ys, sk_known, sk_hidden);
    let dk = dot(ys, sk_known) as int;
    let dh = dot(ys, sk_hidden) as int;
    let x = sk.x@ as int;
    let t = blinding as int;
    // The commitment.
    assert(pk.blind_logs().len() == sk.y.len());
    assert forall|i: int| 0 <= i < sk.y.len() implies pk.blind_logs()[i] == fmul(
        1,
        (#[trigger] sk.y[i])@,
    ) by {
        assert(pk.y_blinds[i]@ == fmul(1, sk.y[i]@));
    }
    lemma_commitment(sk, pk.blind_logs(), hidden, blinding);
    // The issuer's exponent for what it knows.
    let ek = sk.exponent(sk_known);
    lemma_cong_mod(x + dk);
    lemma_fmul(1, ek);
    assert(1 * ek == ek);
    lemma_fadd(fmul(1, ek), commitment);
    lemma_cong_add(fmul(1, ek) as int, x + dk, commitment as int, dh + t);
    let base = fadd(fmul(1, ek), commitment);
    lemma_fmul(base, u);
    lemma_cong_mul(base as int, x + dk + (dh + t), u as int, u as int);
    // The first point.
    lemma_fmul(1, u);
    assert(1 * u == u);
    // Taking the blinding off.
    lemma_fsub(0, blinding);
    lemma_fmul(s1, fsub(0, blinding));
    lemma_cong_mul(s1 as int, u as int, fsub(0, blinding) as int, 0 - t);
    lemma_fadd(blind.sigma_2@, fmul(s1, fsub(0, blinding)));
    lemma_cong_add(
        blind.sigma_2@ as int,
        (x + dk + (dh + t)) * u,
        fmul(s1, fsub(0, blinding)) as int,
        u * (0 - t),
    );
    assert((x + dk + (dh + t)) * u + u * (0 - t) == u * (x + (dk + dh))) by (nonlinear_arith);
    // The signature of the key on all the messages.
    let e = sk.exponent(ext);
    lemma_cong_mod(x + (dk + dh));
    lemma_fmul(s1, e);
    lemma_cong_mul(s1 as int, u as int, e as int, x + (dk + dh));
    lemma_cong_small(sig.sigma_2@, fmul(s1, e));
    assert(msgs.len() + 1 == sk.y.len());
}

} // verus!
