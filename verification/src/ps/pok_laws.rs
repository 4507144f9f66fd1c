//! What holds of a proof of knowledge that an honest prover makes.

use vstd::prelude::*;
use crate::algebra::{
    cong, dot, lemma_cong_add, lemma_cong_mod, lemma_cong_mul, lemma_cong_small, lemma_dot_push,
    lemma_fadd, lemma_fmul,
};
use crate::field::{fadd, fmul};
use crate::group::values;
use crate::ps::keys::PublicKey;
use crate::ps::pok::{
    linked_response, pok_challenge, pok_entries, PokSignature, PokSignatureProof, statement_bases,
};
use crate::ps::positions::{
    complement, gather, lemma_dot_add, lemma_gather, lemma_scatter, lemma_scatter_nonce, pick,
    positions, scatter, vals, with_nonce,
};
use crate::ps::proof_message::{
    entries_upto, hidden_blinders, hidden_entries, lemma_entries, lemma_hidden_complement,
    lemma_hidden_place, lemma_partition, message_values, ProofMessage, revealed_entries,
};
use crate::ps::signature::{extended, Signature};
use crate::schnorr::{combination, lemma_schnorr, response, responses};

verus! {

/// The pairing equation of a proof holds where the signature that was
/// randomised holds for the messages.
proof fn lemma_equation(
    s1: nat,
    s2: nat,
    g: nat,
    a: nat,
    r: nat,
    t: nat,
    inner: nat,
)
    requires
        fmul(s1, a) == fmul(s2, g),
        cong(inner as int, (a + g * t) as int),
    ensures
        fmul(fmul(s1, r), inner) == fmul(fmul(fadd(s2, fmul(s1, t)), r), g),
{
    lemma_fmul(s1, a);
    lemma_fmul(s2, g);
    lemma_fmul(s1, r);
    lemma_fmul(fmul(s1, r), inner);
    lemma_cong_mul(fmul(s1, r) as int, (s1 * r) as int, inner as int, (a + g * t) as int);
    lemma_fmul(s1, t);
    lemma_fadd(s2, fmul(s1, t));
    lemma_cong_add(s2 as int, s2 as int, fmul(s1, t) as int, (s1 * t) as int);
    let w = fadd(s2, fmul(s1, t));
    lemma_fmul(w, r);
    lemma_cong_mul(w as int, (s2 + s1 * t) as int, r as int, r as int);
    lemma_fmul(fmul(w, r), g);
    lemma_cong_mul(fmul(w, r) as int, ((s2 + s1 * t) * r) as int, g as int, g as int);
    // s1 * a is congruent to s2 * g.
    assert(cong((s1 * a) as int, (s2 * g) as int));
    lemma_cong_mul(r as int, r as int, (s1 * a) as int, (s2 * g) as int);
    lemma_cong_add(
        (r * (s1 * a)) as int,
        (r * (s2 * g)) as int,
        ((s1 * r) * (g * t)) as int,
        ((s1 * r) * (g * t)) as int,
    );
    assert((s1 * r) * (a + g * t) == r * (s1 * a) + (s1 * r) * (g * t)) by (nonlinear_arith);
    assert(((s2 + s1 * t) * r) * g == r * (s2 * g) + (s1 * r) * (g * t)) by (nonlinear_arith);
    lemma_cong_small(fmul(fmul(s1, r), inner), fmul(fmul(w, r), g));
}

/// A proof that answers the challenge for a signature that holds is
/// accepted, whatever was hidden: it has the shape that the verifier asks
/// for, its pairing equation holds, and the verifier recovers the random
/// commitment that the prover absorbed.
pub proof fn lemma_pok_verifies(
    pok: PokSignature,
    proof: PokSignatureProof,
    sig: Signature,
    pk: PublicKey,
    messages: Seq<ProofMessage>,
    r: nat,
    t: nat,
    b_tick: nat,
    b_t: nat,
    challenge: nat,
)
    requires
        pk.well_formed(),
        messages.len() + 1 == pk.y_tilde.len(),
        sig.verifies(&pk, message_values(messages)),
        pok.built(sig, &pk, messages, r, t, b_tick, b_t),
        proof.sigma_1 == pok.sigma_1,
        proof.sigma_2 == pok.sigma_2,
        proof.commitment == pok.commitment,
        values(proof.proof@) == responses(
            pok.committer.blinders(),
            challenge,
            values(pok.secrets@),
        ),
    ensures
        proof.shaped(&pk, revealed_entries(messages)),
        proof.holds(&pk, revealed_entries(messages)),
        proof.random_commitment(&pk, revealed_entries(messages), challenge)
            == pok.committer.commitment_log(),
{
    let n = messages.len() as int;
    let len = n + 1;
    let m_tick = sig.m_tick@;
    let hid = hidden_entries(messages);
    let hidden = with_nonce(m_tick, hid);
    let rev = revealed_entries(messages);
    let ys = pk.y_logs();
    let g = pk.g_tilde@;
    let bases = statement_bases(&pk, hidden);
    let secrets = vals(hidden).push(t);
    let blinders = pok.committer.blinders();
    lemma_partition(messages, m_tick);
    lemma_entries(messages, n, true);
    lemma_hidden_complement(messages, m_tick, n);
    lemma_scatter_nonce(len, m_tick, hid);
    // The verifier's bases are the prover's.
    assert(gather(ys, hidden) =~= pick(ys, positions(hidden)));
    assert(PokSignatureProof::bases(&pk, rev) == bases);
    assert(proof.proof@.len() == values(proof.proof@).len());
    lemma_schnorr(bases, blinders, secrets, challenge);
    // The statement and the revealed messages make up the key's aggregate.
    lemma_dot_push(gather(ys, hidden), vals(hidden), g, t);
    lemma_gather(ys, hidden);
    lemma_gather(ys, rev);
    lemma_scatter(len, rev);
    lemma_dot_add(ys, scatter(len, hidden), scatter(len, rev));
    let ext = extended(m_tick, message_values(messages));
    let dh = dot(ys, scatter(len, hidden)) as int;
    let dr = dot(ys, scatter(len, rev)) as int;
    let x = pk.x_tilde@ as int;
    let shown = combination(gather(ys, rev), vals(rev));
    let k = proof.commitment@;
    lemma_cong_mod(dr);
    lemma_cong_mod(dh + g * t);
    lemma_fadd(pk.x_tilde@, shown);
    lemma_cong_add(x, x, shown as int, dr);
    lemma_fadd(fadd(pk.x_tilde@, shown), k);
    lemma_cong_add(fadd(pk.x_tilde@, shown) as int, x + dr, k as int, dh + g * t);
    let a = pk.aggregate(ext);
    lemma_cong_mod(x + (dh + dr));
    lemma_cong_add(a as int, x + (dh + dr), (g * t) as int, (g * t) as int);
    let inner = fadd(fadd(pk.x_tilde@, shown), k);
    assert(x + dr + (dh + g * t) == x + (dh + dr) + g * t);
    lemma_equation(sig.sigma_1@, sig.sigma_2@, g, a, r, t, inner);
}

/// A proof that stands alone is accepted where it answers the challenge
/// that the prover's entries and the verifier's nonce give, for a signature
/// that holds.
pub proof fn lemma_pok_accepted(
    pok: PokSignature,
    proof: PokSignatureProof,
    sig: Signature,
    pk: PublicKey,
    messages: Seq<ProofMessage>,
    r: nat,
    t: nat,
    b_tick: nat,
    b_t: nat,
    nonce: nat,
    challenge: nat,
)
    requires
        pk.well_formed(),
        messages.len() + 1 == pk.y_tilde.len(),
        sig.verifies(&pk, message_values(messages)),
        pok.built(sig, &pk, messages, r, t, b_tick, b_t),
        proof.sigma_1 == pok.sigma_1,
        proof.sigma_2 == pok.sigma_2,
        proof.commitment == pok.commitment,
        values(proof.proof@) == responses(
            pok.committer.blinders(),
            challenge,
            values(pok.secrets@),
        ),
        challenge == pok_challenge(
            pok_entries(
                pok.sigma_1@,
                pok.sigma_2@,
                pok.commitment@,
                revealed_entries(messages),
                pok.committer.commitment_log(),
            ),
            nonce,
        ),
    ensures
        proof.accepted(&pk, revealed_entries(messages), nonce, challenge),
{
    lemma_pok_verifies(pok, proof, sig, pk, messages, r, t, b_tick, b_t, challenge);
}

/// The response that a proof holds for a hidden message is the response of
/// that message and its blinder. So every proof that has the message with
/// the same blinder has the same response for it.
pub proof fn lemma_linked_response(
    pok: PokSignature,
    proof: PokSignatureProof,
    sig: Signature,
    pk: PublicKey,
    messages: Seq<ProofMessage>,
    r: nat,
    t: nat,
    b_tick: nat,
    b_t: nat,
    challenge: nat,
    claim: int,
)
    requires
        pok.built(sig, &pk, messages, r, t, b_tick, b_t),
        values(proof.proof@) == responses(
            pok.committer.blinders(),
            challenge,
            values(pok.secrets@),
        ),
        0 <= claim < messages.len(),
        messages[claim].hidden(),
    ensures
        linked_response(
            &proof,
            revealed_entries(messages),
            claim,
            messages.len() as int + 1,
        ) == Some(response(messages[claim].blinder(), challenge, messages[claim].message())),
{
    let n = messages.len() as int;
    let m_tick = sig.m_tick@;
    let hid = hidden_entries(messages);
    let rev = revealed_entries(messages);
    let h = entries_upto(messages, claim, true).len() as int;
    lemma_entries(messages, n, false);
    lemma_hidden_complement(messages, m_tick, claim);
    lemma_hidden_place(messages, claim);
    let rank = complement(rev, 0, claim + 1).len() as int;
    assert(rank == 1 + h);
    let blinders = pok.committer.blinders();
    let secrets = values(pok.secrets@);
    assert(blinders[rank] == hidden_blinders(messages)[h]);
    assert(with_nonce(m_tick, hid)[rank] == hid[h]);
    assert(secrets[rank] == hid[h].1);
    assert(proof.proof@.len() == values(proof.proof@).len());
    assert(values(proof.proof@)[rank] == proof.proof[rank]@);
}

} // verus!
