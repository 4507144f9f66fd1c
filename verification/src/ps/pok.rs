//! Proof of knowledge of a signature with selective disclosure.
//!
//! The prover randomises the signature, commits to the nonce and to the
//! hidden messages and to the scalar `t` that the randomisation adds, and
//! answers the challenge. The verifier checks one pairing equation and
//! recovers the prover's random commitment for the transcript.

use vstd::prelude::*;
use merlin::Transcript;
use rand_core::OsRng;
use crate::bytes::{append_scalar, append_u64, u64_bytes};
use crate::error::Error;
use crate::field::{be_bytes, fadd, fmul, modulus, Scalar};
use crate::g1::{g1_encoding, G1Point};
use crate::g2::{g2_encoding, G2Point};
use crate::group::{logs, sum_of_products, values};
use crate::pairing::pair;
use crate::ps::keys::{MAX_MESSAGES, PublicKey};
use crate::ps::positions::{
    check_placed, complement, gather, is_placed, lemma_complement_bounds, occurs, pick, pick_points,
    Placed, placed, unplaced, vals, well_placed, with_nonce,
};
use crate::ps::proof_message::{
    blinders_upto, entries_upto, hidden_blinders, hidden_entries, lemma_entries, ProofMessage,
    revealed_entries,
};
use crate::ps::signature::Signature;
use crate::schnorr::{combination, Committer, recover_commitment, recovered, responses};
use crate::transcript::{
    append_message, challenge_scalar, challenge_scalar_of, Entry, transcript_log, transcript_new,
};

verus! {

/// The prover's side of a proof of knowledge of a signature, before the challenge.
pub struct PokSignature {
    /// The signature's first point, randomised.
    pub sigma_1: G1Point,
    /// The signature's second point, randomised.
    pub sigma_2: G1Point,
    /// The statement: the nonce and the hidden messages taken with the
    /// key's points, and the key's generator taken with `t`.
    pub commitment: G2Point,
    /// The blinders of the nonce, of the hidden messages and of `t`.
    pub committer: Committer<G2Point>,
    /// The nonce, the hidden messages and `t`.
    pub secrets: Vec<Scalar>,
    /// The revealed messages with their indices.
    pub revealed: Vec<(usize, Scalar)>,
}

/// A proof of knowledge of a signature.
pub struct PokSignatureProof {
    /// The signature's first point, randomised.
    pub sigma_1: G1Point,
    /// The signature's second point, randomised.
    pub sigma_2: G1Point,
    /// The statement.
    pub commitment: G2Point,
    /// The responses: for the nonce, for each hidden message, and for `t`.
    pub proof: Vec<Scalar>,
}

/// The logarithms of the bases of the statement: the key's points of the
/// hidden positions, then the key's generator.
pub open spec fn statement_bases(pk: &PublicKey, hidden: Seq<Placed>) -> Seq<nat> {
    gather(pk.y_logs(), hidden).push(pk.g_tilde@)
}

/// The bytes of indexed messages: for each, its index in eight bytes and
/// its value in 32.
pub open spec fn placed_bytes(entries: Seq<Placed>) -> Seq<u8>
    decreases entries.len(),
{
    if entries.len() == 0 {
        Seq::empty()
    } else {
        placed_bytes(entries.drop_last()) + u64_bytes((entries.last().0 - 1) as u64) + be_bytes(
            entries.last().1,
            32,
        )
    }
}

/// What a proof of knowledge adds to a transcript: the two randomised
/// points, the statement, the revealed messages, and the random commitment.
pub open spec fn pok_entries(s1: nat, s2: nat, k: nat, revealed: Seq<Placed>, t: nat) -> Seq<
    Entry,
> {
    seq![
        ("sigma_1"@, g1_encoding(s1)),
        ("sigma_2"@, g1_encoding(s2)),
        ("commitment"@, g2_encoding(k)),
        ("revealed messages"@, placed_bytes(revealed)),
        ("random commitment"@, g2_encoding(t)),
    ]
}

/// The challenge of a proof of knowledge that stands alone: the one that a
/// transcript gives which holds the proof's entries and the verifier's nonce.
pub open spec fn pok_challenge(entries: Seq<Entry>, nonce: nat) -> nat {
    challenge_scalar_of(
        (seq![("signature proof of knowledge"@, Seq::<u8>::empty())] + entries).push(
            ("nonce"@, be_bytes(nonce, 32)),
        ),
        "signature proof of knowledge"@,
    )
}

/// Whether every hidden message brings its blinder.
pub open spec fn all_blinded(messages: Seq<ProofMessage>) -> bool {
    forall|i: int| 0 <= i < messages.len() ==> !(#[trigger] messages[i] is HiddenProofSpecific)
}

/// The bytes of indexed messages.
pub(crate) fn placed_to_bytes(msgs: &[(usize, Scalar)]) -> (r: Vec<u8>)
    requires
        msgs.len() <= MAX_MESSAGES,
    ensures
        r@ == placed_bytes(placed(msgs@)),
        r.len() == 40 * msgs.len(),
{
    let ghost entries = placed(msgs@);
    let mut out: Vec<u8> = Vec::new();
    let mut i: usize = 0;
    while i < msgs.len()
        invariant
            i <= msgs.len(),
            msgs.len() <= MAX_MESSAGES,
            entries == placed(msgs@),
            out@ == placed_bytes(entries.take(i as int)),
            out.len() == 40 * i,
        decreases msgs.len() - i,
    {
        append_u64(&mut out, msgs[i].0 as u64);
        append_scalar(&mut out, &msgs[i].1);
        proof {
            assert(entries.take(i + 1).drop_last() =~= entries.take(i as int));
            assert(entries.take(i + 1).last() == (msgs[i as int].0 as int + 1, msgs[i as int].1@));
            crate::codec::lemma_be_length(msgs[i as int].1@, 32);
        }
        i += 1;
    }
    assert(entries.take(msgs.len() as int) =~= entries);
    out
}

/// Adds the entries of a proof of knowledge to a transcript.
fn absorb(
    transcript: &mut Transcript,
    sigma_1: &G1Point,
    sigma_2: &G1Point,
    commitment: &G2Point,
    revealed: &[(usize, Scalar)],
    random: &G2Point,
)
    requires
        revealed.len() <= MAX_MESSAGES,
    ensures
        transcript_log(*final(transcript)) == transcript_log(*old(transcript)) + pok_entries(
            sigma_1@,
            sigma_2@,
            commitment@,
            placed(revealed@),
            random@,
        ),
{
    proof {
        use_type_invariant(sigma_1);
        use_type_invariant(sigma_2);
        use_type_invariant(commitment);
        use_type_invariant(random);
        sigma_1.lemma_log();
        sigma_2.lemma_log();
        commitment.lemma_log();
        random.lemma_log();
    }
    let bytes = placed_to_bytes(revealed);
    append_message(transcript, "sigma_1", sigma_1.to_bytes().as_slice());
    append_message(transcript, "sigma_2", sigma_2.to_bytes().as_slice());
    append_message(transcript, "commitment", commitment.to_bytes().as_slice());
    append_message(transcript, "revealed messages", bytes.as_slice());
    append_message(transcript, "random commitment", random.to_bytes().as_slice());
    proof {
        assert(transcript_log(*transcript) =~= transcript_log(*old(transcript)) + pok_entries(
            sigma_1@,
            sigma_2@,
            commitment@,
            placed(revealed@),
            random@,
        ));
    }
}

impl PokSignature {
    /// The proof was begun for the signature and the messages with the
    /// scalars `r` and `t` of the randomisation and the blinders `b_tick` of
    /// the nonce and `b_t` of `t`, each hidden message bringing its own.
    pub open spec fn built(
        &self,
        sig: Signature,
        pk: &PublicKey,
        messages: Seq<ProofMessage>,
        r: nat,
        t: nat,
        b_tick: nat,
        b_t: nat,
    ) -> bool {
        let hidden = with_nonce(sig.m_tick@, hidden_entries(messages));
        &&& self.sigma_1@ == fmul(sig.sigma_1@, r)
        &&& self.sigma_1@ != 0
        &&& self.sigma_2@ == fmul(fadd(sig.sigma_2@, fmul(sig.sigma_1@, t)), r)
        &&& logs(self.committer.bases()) == statement_bases(pk, hidden)
        &&& values(self.secrets@) == vals(hidden).push(t)
        &&& self.committer.blinders() == (seq![b_tick] + hidden_blinders(messages)).push(b_t)
        &&& self.commitment@ == combination(statement_bases(pk, hidden), vals(hidden).push(t))
        &&& placed(self.revealed@) == revealed_entries(messages)
    }

    /// The proof was begun for the signature and the messages, with some
    /// randomisation and some blinders, the hidden messages that bring a
    /// blinder keeping it.
    pub open spec fn committed(
        &self,
        sig: Signature,
        pk: &PublicKey,
        messages: Seq<ProofMessage>,
    ) -> bool {
        exists|fixed: Seq<ProofMessage>, r: nat, t: nat, b_tick: nat, b_t: nat|
            agree(messages, fixed) && #[trigger] self.built(sig, pk, fixed, r, t, b_tick, b_t)
    }

    /// Begins a proof with given randomness. The key must be well formed
    /// and have a point for each message, every hidden message must bring
    /// its blinder, and the randomised first point must not be the neutral
    /// element.
    pub fn commit_with(
        signature: &Signature,
        pk: &PublicKey,
        messages: &[ProofMessage],
        r: &Scalar,
        t: &Scalar,
        b_tick: &Scalar,
        b_t: &Scalar,
    ) -> (res: Result<PokSignature, Error>)
        ensures
            res.is_ok() == (pk.well_formed() && messages.len() + 1 == pk.y_tilde.len()
                && all_blinded(messages@) && fmul(signature.sigma_1@, r@) != 0),
            res matches Ok(pok) ==> pok.built(
                *signature,
                pk,
                messages@,
                r@,
                t@,
                b_tick@,
                b_t@,
            ),
            res matches Ok(pok) ==> pok.revealed.len() <= messages.len(),
            res matches Ok(pok) ==> pok.secrets.len() == pok.committer.bases().len(),
            res matches Err(e) ==> e == (if !pk.well_formed() {
                Error::InvalidKeyGeneration
            } else if messages.len() + 1 != pk.y_tilde.len() {
                Error::InvalidSignature
            } else if !all_blinded(messages@) {
                Error::InvalidClaimData
            } else {
                Error::InvalidSignature
            }),
    {
        if !pk.is_well_formed() {
            return Err(Error::InvalidKeyGeneration);
        }
        if messages.len() != pk.y_tilde.len() - 1 {
            return Err(Error::InvalidSignature);
        }
        let ghost ys = pk.y_logs();
        let ghost m_tick = signature.m_tick@;
        let mut committer: Committer<G2Point> = Committer::new();
        let mut points: Vec<G2Point> = Vec::new();
        let mut secrets: Vec<Scalar> = Vec::new();
        let mut revealed: Vec<(usize, Scalar)> = Vec::new();
        committer.commit(pk.y_tilde[0], *b_tick);
        points.push(pk.y_tilde[0]);
        secrets.push(signature.m_tick);
        proof {
            assert(logs(points@) =~= gather(
                ys,
                with_nonce(m_tick, entries_upto(messages@, 0, true)),
            ));
            assert(values(secrets@) =~= vals(with_nonce(m_tick, entries_upto(messages@, 0, true))));
            assert(committer.blinders() =~= seq![b_tick@] + blinders_upto(messages@, 0));
            assert(placed(revealed@) =~= entries_upto(messages@, 0, false));
        }
        let mut i: usize = 0;
        while i < messages.len()
            invariant
                i <= messages.len(),
                pk.well_formed(),
                messages.len() + 1 == pk.y_tilde.len(),
                ys == pk.y_logs(),
                m_tick == signature.m_tick@,
                committer.bases() == points@,
                secrets.len() == points.len(),
                forall|j: int| 0 <= j < i ==> !(#[trigger] messages[j] is HiddenProofSpecific),
                logs(points@) == gather(
                    ys,
                    with_nonce(m_tick, entries_upto(messages@, i as int, true)),
                ),
                values(secrets@) == vals(
                    with_nonce(m_tick, entries_upto(messages@, i as int, true)),
                ),
                committer.blinders() == seq![b_tick@] + blinders_upto(messages@, i as int),
                placed(revealed@) == entries_upto(messages@, i as int, false),
            decreases messages.len() - i,
        {
            let ghost before_points = logs(points@);
            let ghost before_secrets = values(secrets@);
            let ghost before_revealed = placed(revealed@);
            let ghost prev = entries_upto(messages@, i as int, true);
            match messages[i] {
                ProofMessage::Revealed(m) => {
                    revealed.push((i, m));
                    proof {
                        assert(placed(revealed@) =~= before_revealed.push((i + 1, m@)));
                    }
                },
                ProofMessage::HiddenProofSpecific(_) => {
                    assert(messages@[i as int] is HiddenProofSpecific);
                    return Err(Error::InvalidClaimData);
                },
                ProofMessage::HiddenExternalBlinding(m, b) => {
                    let point = pk.y_tilde[i + 1];
                    committer.commit(point, b);
                    points.push(point);
                    secrets.push(m);
                    proof {
                        let next = prev.push((i + 1, m@));
                        assert(with_nonce(m_tick, next) =~= with_nonce(m_tick, prev).push(
                            (i + 1, m@),
                        ));
                        assert(ys[i + 1] == point@);
                        assert(logs(points@) =~= before_points.push(point@));
                        assert(gather(ys, with_nonce(m_tick, prev).push((i + 1, m@))) =~= gather(
                            ys,
                            with_nonce(m_tick, prev),
                        ).push(ys[i + 1]));
                        assert(values(secrets@) =~= before_secrets.push(m@));
                        assert(vals(with_nonce(m_tick, prev).push((i + 1, m@))) =~= vals(
                            with_nonce(m_tick, prev),
                        ).push(m@));
                        assert(committer.blinders() =~= seq![b_tick@] + blinders_upto(
                            messages@,
                            i + 1,
                        ));
                    }
                },
            }
            i += 1;
        }
        let ghost hidden = with_nonce(m_tick, hidden_entries(messages@));
        let ghost before_points = logs(points@);
        let ghost before_secrets = values(secrets@);
        committer.commit(pk.g_tilde, *b_t);
        points.push(pk.g_tilde);
        secrets.push(*t);
        proof {
            assert(logs(points@) =~= before_points.push(pk.g_tilde@));
            assert(values(secrets@) =~= before_secrets.push(t@));
            assert(logs(points@) =~= statement_bases(pk, hidden));
            assert(points@.take(points@.len() as int) =~= points@);
            assert(secrets@.take(secrets@.len() as int) =~= secrets@);
            lemma_entries(messages@, messages.len() as int, false);
            lemma_placed_count(revealed_entries(messages@), messages.len() + 1);
        }
        let sigma_1 = signature.sigma_1.mul(r);
        if sigma_1.is_identity() {
            return Err(Error::InvalidSignature);
        }
        let sigma_2 = signature.sigma_2.add(&signature.sigma_1.mul(t)).mul(r);
        let commitment = sum_of_products(&points, &secrets);
        Ok(PokSignature { sigma_1, sigma_2, commitment, committer, secrets, revealed })
    }

    /// Begins a proof with randomness drawn from `rng`. The key must be
    /// well formed and have a point for each message, and the signature's
    /// first point must not be the neutral element. The scalar that
    /// randomises the signature is drawn among those that do not take its
    /// first point to the neutral element: where another is drawn, one
    /// stands in for it.
    pub fn commit(
        signature: &Signature,
        pk: &PublicKey,
        messages: &[ProofMessage],
        rng: &mut OsRng,
    ) -> (res: Result<PokSignature, Error>)
        ensures
            res.is_ok() == (pk.well_formed() && messages.len() + 1 == pk.y_tilde.len()
                && signature.sigma_1@ != 0),
            res matches Ok(pok) ==> pok.committed(*signature, pk, messages@),
            res matches Ok(pok) ==> pok.revealed.len() <= messages.len(),
            res matches Ok(pok) ==> pok.secrets.len() == pok.committer.bases().len(),
            res matches Err(e) ==> e == (if !pk.well_formed() {
                Error::InvalidKeyGeneration
            } else {
                Error::InvalidSignature
            }),
    {
        let fixed = fix_blinders(messages, rng);
        let drawn = Scalar::random(rng);
        let first = &signature.sigma_1;
        let r = if first.mul(&drawn).is_identity() {
            Scalar::from_u64(1)
        } else {
            drawn
        };
        proof {
            use_type_invariant(first);
            first.lemma_log();
            vstd::arithmetic::div_mod::lemma_small_mod(first@, modulus());
            assert(first@ * 1 == first@);
        }
        let t = Scalar::random(rng);
        let b_tick = Scalar::random(rng);
        let b_t = Scalar::random(rng);
        let res = PokSignature::commit_with(signature, pk, fixed.as_slice(), &r, &t, &b_tick, &b_t);
        proof {
            if res is Ok {
                assert(res.unwrap().built(*signature, pk, fixed@, r@, t@, b_tick@, b_t@));
            }
        }
        res
    }

    /// Adds the proof's entries to the transcript: the two randomised
    /// points, the statement, the revealed messages and the random
    /// commitment. Nothing is added for more revealed messages than a key signs.
    pub fn add_proof_contribution(&self, transcript: &mut Transcript) -> (r: Result<(), Error>)
        ensures
            r.is_ok() == (self.revealed.len() <= MAX_MESSAGES),
            r is Ok ==> transcript_log(*final(transcript)) == transcript_log(*old(transcript))
                + pok_entries(
                self.sigma_1@,
                self.sigma_2@,
                self.commitment@,
                placed(self.revealed@),
                self.committer.commitment_log(),
            ),
            r matches Err(e) ==> e == Error::InvalidPresentationData && transcript_log(
                *final(transcript),
            ) == transcript_log(*old(transcript)),
    {
        if self.revealed.len() > MAX_MESSAGES {
            return Err(Error::InvalidPresentationData);
        }
        let random = self.committer.commitment();
        absorb(
            transcript,
            &self.sigma_1,
            &self.sigma_2,
            &self.commitment,
            self.revealed.as_slice(),
            &random,
        );
        Ok(())
    }

    /// Answers the challenge. There must be a secret for each blinder.
    pub fn generate_proof(&self, challenge: &Scalar) -> (r: Result<PokSignatureProof, Error>)
        ensures
            r.is_ok() == (self.secrets.len() == self.committer.bases().len()),
            r matches Ok(proof) ==> proof.sigma_1 == self.sigma_1 && proof.sigma_2 == self.sigma_2
                && proof.commitment == self.commitment && values(proof.proof@) == responses(
                self.committer.blinders(),
                challenge@,
                values(self.secrets@),
            ),
            r matches Err(e) ==> e == Error::InvalidPresentationData,
    {
        match self.committer.generate_proof(challenge, &self.secrets) {
            Ok(proof) => Ok(
                PokSignatureProof {
                    sigma_1: self.sigma_1,
                    sigma_2: self.sigma_2,
                    commitment: self.commitment,
                    proof,
                },
            ),
            Err(e) => Err(e),
        }
    }
}

/// Two lists of messages that differ only in the blinders of the hidden
/// messages that bring none in the first.
pub open spec fn agree(messages: Seq<ProofMessage>, fixed: Seq<ProofMessage>) -> bool {
    &&& fixed.len() == messages.len()
    &&& forall|i: int|
        0 <= i < messages.len() ==> {
            &&& (#[trigger] fixed[i]).message() == messages[i].message()
            &&& fixed[i].hidden() == messages[i].hidden()
            &&& !(messages[i] is HiddenProofSpecific) ==> fixed[i] == messages[i]
            &&& !(fixed[i] is HiddenProofSpecific)
        }
}

/// The messages, each hidden one that brings no blinder with one drawn at random.
pub fn fix_blinders(messages: &[ProofMessage], rng: &mut OsRng) -> (r: Vec<ProofMessage>)
    ensures
        agree(messages@, r@),
{
    let mut out: Vec<ProofMessage> = Vec::new();
    let mut i: usize = 0;
    while i < messages.len()
        invariant
            i <= messages.len(),
            out.len() == i,
            forall|j: int|
                0 <= j < i ==> {
                    &&& (#[trigger] out[j]).message() == messages[j].message()
                    &&& out[j].hidden() == messages[j].hidden()
                    &&& !(messages[j] is HiddenProofSpecific) ==> out[j] == messages[j]
                    &&& !(out[j] is HiddenProofSpecific)
                },
        decreases messages.len() - i,
    {
        let fresh = Scalar::random(rng);
        out.push(messages[i].with_blinder(fresh));
        i += 1;
    }
    out
}

impl PokSignatureProof {
    /// The logarithms of the bases that the responses go with: the key's
    /// points of the positions that are not revealed, then the key's generator.
    pub open spec fn bases(pk: &PublicKey, revealed: Seq<Placed>) -> Seq<nat> {
        pick(pk.y_logs(), complement(revealed, 0, pk.y_tilde.len() as int)).push(pk.g_tilde@)
    }

    /// The logarithm of the random commitment that the verifier recovers.
    pub open spec fn random_commitment(
        &self,
        pk: &PublicKey,
        revealed: Seq<Placed>,
        challenge: nat,
    ) -> nat {
        recovered(
            Self::bases(pk, revealed),
            values(self.proof@),
            challenge,
            self.commitment@,
        )
    }

    /// The proof has the shape that the key and the revealed messages ask
    /// for: the key is well formed, the revealed messages are messages of
    /// the key in increasing order, and there is a response for each
    /// position that is not revealed and one more.
    pub open spec fn shaped(&self, pk: &PublicKey, revealed: Seq<Placed>) -> bool {
        &&& pk.well_formed()
        &&& well_placed(revealed, pk.y_tilde.len() as int)
        &&& self.proof.len() == complement(revealed, 0, pk.y_tilde.len() as int).len() + 1
    }

    /// The pairing equation holds: the randomised first point is not the
    /// neutral element, and paired with the key's `x_tilde`, the revealed
    /// messages taken with their points, and the statement, it gives the
    /// randomised second point paired with the key's generator.
    pub open spec fn holds(&self, pk: &PublicKey, revealed: Seq<Placed>) -> bool {
        &&& self.sigma_1@ != 0
        &&& fmul(
            self.sigma_1@,
            fadd(
                fadd(pk.x_tilde@, combination(gather(pk.y_logs(), revealed), vals(revealed))),
                self.commitment@,
            ),
        ) == fmul(self.sigma_2@, pk.g_tilde@)
    }

    /// The verifier's bases, if the proof has the shape asked for.
    fn verifier_bases(&self, pk: &PublicKey, revealed: &[(usize, Scalar)]) -> (r: Result<
        Vec<G2Point>,
        Error,
    >)
        ensures
            r.is_ok() == self.shaped(pk, placed(revealed@)),
            r matches Ok(bases) ==> logs(bases@) == Self::bases(pk, placed(revealed@))
                && bases.len() == self.proof.len() && revealed.len() <= MAX_MESSAGES,
            r matches Err(e) ==> e == (if !pk.well_formed() {
                Error::InvalidKeyGeneration
            } else {
                Error::InvalidPresentationData
            }),
    {
        if !pk.is_well_formed() {
            return Err(Error::InvalidKeyGeneration);
        }
        if !check_placed(revealed, pk.y_tilde.len()) {
            return Err(Error::InvalidPresentationData);
        }
        let hidden = unplaced(revealed, 0, pk.y_tilde.len());
        proof {
            lemma_complement_bounds(placed(revealed@), 0, pk.y_tilde.len() as int);
            assert forall|i: int| 0 <= i < hidden.len() implies hidden[i] < pk.y_tilde.len() by {
                assert(hidden@.map_values(|p: usize| p as int)[i] == hidden[i] as int);
            }
            crate::ps::pok::lemma_placed_count(placed(revealed@), pk.y_tilde.len() as int);
        }
        if hidden.len() >= usize::MAX || self.proof.len() != hidden.len() + 1 {
            return Err(Error::InvalidPresentationData);
        }
        let mut bases = pick_points(&pk.y_tilde, &hidden);
        bases.push(pk.g_tilde);
        proof {
            assert(logs(pk.y_tilde@) =~= pk.y_logs());
            assert(logs(bases@) =~= Self::bases(pk, placed(revealed@)));
        }
        Ok(bases)
    }

    /// Adds the proof's entries to the transcript as the verifier sees
    /// them, with the random commitment that the responses recover. Nothing
    /// is added where the proof does not have the shape asked for.
    pub fn add_proof_contribution(
        &self,
        pk: &PublicKey,
        revealed: &[(usize, Scalar)],
        challenge: &Scalar,
        transcript: &mut Transcript,
    ) -> (r: Result<(), Error>)
        ensures
            r.is_ok() == self.shaped(pk, placed(revealed@)),
            r is Ok ==> transcript_log(*final(transcript)) == transcript_log(*old(transcript))
                + pok_entries(
                self.sigma_1@,
                self.sigma_2@,
                self.commitment@,
                placed(revealed@),
                self.random_commitment(pk, placed(revealed@), challenge@),
            ),
            r matches Err(e) ==> e == (if !pk.well_formed() {
                Error::InvalidKeyGeneration
            } else {
                Error::InvalidPresentationData
            }) && transcript_log(*final(transcript)) == transcript_log(*old(transcript)),
    {
        match self.verifier_bases(pk, revealed) {
            Err(e) => Err(e),
            Ok(bases) => {
                proof {
                    assert(bases@.take(bases@.len() as int) =~= bases@);
                    assert(self.proof@.take(self.proof@.len() as int) =~= self.proof@);
                }
                let random = recover_commitment(&bases, &self.proof, challenge, &self.commitment);
                absorb(
                    transcript,
                    &self.sigma_1,
                    &self.sigma_2,
                    &self.commitment,
                    revealed,
                    &random,
                );
                Ok(())
            },
        }
    }

    /// Checks the pairing equation for the revealed messages under the key.
    pub fn verify(&self, revealed: &[(usize, Scalar)], pk: &PublicKey) -> (r: Result<(), Error>)
        ensures
            r.is_ok() == (self.shaped(pk, placed(revealed@)) && self.holds(
                pk,
                placed(revealed@),
            )),
            r matches Err(e) ==> e == (if !pk.well_formed() {
                Error::InvalidKeyGeneration
            } else if !self.shaped(pk, placed(revealed@)) {
                Error::InvalidPresentationData
            } else {
                Error::ProofVerificationFailed
            }),
    {
        match self.verifier_bases(pk, revealed) {
            Err(e) => Err(e),
            Ok(_) => {
                if self.sigma_1.is_identity() {
                    return Err(Error::ProofVerificationFailed);
                }
                let ghost entries = placed(revealed@);
                let mut points: Vec<G2Point> = Vec::new();
                let mut scalars: Vec<Scalar> = Vec::new();
                let mut i: usize = 0;
                proof {
                    assert(logs(points@) =~= gather(pk.y_logs(), entries.take(0)));
                    assert(values(scalars@) =~= vals(entries.take(0)));
                }
                while i < revealed.len()
                    invariant
                        i <= revealed.len(),
                        entries == placed(revealed@),
                        well_placed(entries, pk.y_tilde.len() as int),
                        logs(points@) == gather(pk.y_logs(), entries.take(i as int)),
                        values(scalars@) == vals(entries.take(i as int)),
                    decreases revealed.len() - i,
                {
                    assert(1 <= entries[i as int].0 < pk.y_tilde.len());
                    assert(entries[i as int] == (
                        revealed[i as int].0 as int + 1,
                        revealed[i as int].1@,
                    ));
                    let ghost before_points = logs(points@);
                    let ghost before_scalars = values(scalars@);
                    let point = pk.y_tilde[revealed[i].0 + 1];
                    points.push(point);
                    scalars.push(revealed[i].1);
                    proof {
                        assert(pk.y_logs()[entries[i as int].0] == point@);
                        assert(logs(points@) =~= before_points.push(point@));
                        assert(gather(pk.y_logs(), entries.take(i + 1)) =~= gather(
                            pk.y_logs(),
                            entries.take(i as int),
                        ).push(pk.y_logs()[entries[i as int].0]));
                        assert(values(scalars@) =~= before_scalars.push(revealed[i as int].1@));
                        assert(vals(entries.take(i + 1)) =~= vals(entries.take(i as int)).push(
                            entries[i as int].1,
                        ));
                    }
                    i += 1;
                }
                proof {
                    assert(entries.take(revealed.len() as int) =~= entries);
                    assert(points@.take(points@.len() as int) =~= points@);
                    assert(scalars@.take(scalars@.len() as int) =~= scalars@);
                }
                let shown = sum_of_products(&points, &scalars);
                let agg = pk.x_tilde.add(&shown).add(&self.commitment);
                let lhs = pair(&self.sigma_1, &agg);
                let rhs = pair(&self.sigma_2, &pk.g_tilde);
                if lhs.eq(&rhs) {
                    Ok(())
                } else {
                    Err(Error::ProofVerificationFailed)
                }
            },
        }
    }

    /// The verifier accepts the proof as one that stands alone: it has the
    /// shape asked for, the pairing equation holds, and the challenge is the
    /// one that the proof's entries and the nonce give.
    pub open spec fn accepted(
        &self,
        pk: &PublicKey,
        revealed: Seq<Placed>,
        nonce: nat,
        challenge: nat,
    ) -> bool {
        &&& self.shaped(pk, revealed)
        &&& self.holds(pk, revealed)
        &&& challenge == pok_challenge(
            pok_entries(
                self.sigma_1@,
                self.sigma_2@,
                self.commitment@,
                revealed,
                self.random_commitment(pk, revealed, challenge),
            ),
            nonce,
        )
    }

    /// Whether the verifier accepts the proof as one that stands alone.
    pub fn check(
        &self,
        revealed: &[(usize, Scalar)],
        pk: &PublicKey,
        nonce: &Scalar,
        challenge: &Scalar,
    ) -> (r: bool)
        ensures
            r == self.accepted(pk, placed(revealed@), nonce@, challenge@),
    {
        let mut transcript = transcript_new("signature proof of knowledge");
        match self.add_proof_contribution(pk, revealed, challenge, &mut transcript) {
            Err(_) => false,
            Ok(_) => {
                append_message(&mut transcript, "nonce", nonce.to_be_bytes().as_slice());
                proof {
                    assert(transcript_log(transcript) =~= (seq![
                        ("signature proof of knowledge"@, Seq::<u8>::empty()),
                    ] + pok_entries(
                        self.sigma_1@,
                        self.sigma_2@,
                        self.commitment@,
                        placed(revealed@),
                        self.random_commitment(pk, placed(revealed@), challenge@),
                    )).push(("nonce"@, be_bytes(nonce@, 32))));
                }
                let derived = challenge_scalar(transcript, "signature proof of knowledge");
                let same = challenge.eq(&derived);
                match self.verify(revealed, pk) {
                    Ok(_) => same,
                    Err(_) => false,
                }
            },
        }
    }
}

/// The response of a proof of knowledge for the claim of the given index
/// under a key with `len` positions, if the key signs such a claim and the
/// claim is hidden: the responses go with the positions that are not
/// revealed, in increasing order, from that of the nonce on.
pub open spec fn linked_response(
    pok: &PokSignatureProof,
    revealed: Seq<Placed>,
    claim: int,
    len: int,
) -> Option<nat> {
    let rank = complement(revealed, 0, claim + 1).len();
    if 0 <= claim && claim + 1 < len && !occurs(revealed, claim + 1) && rank < pok.proof.len() {
        Some(pok.proof[rank as int]@)
    } else {
        None
    }
}

/// The response of a proof of knowledge for the claim of the given index
/// under a key with `len` positions, if the key signs such a claim and the
/// claim is hidden.
pub fn response_for(
    pok: &PokSignatureProof,
    revealed: &[(usize, Scalar)],
    claim: usize,
    len: usize,
) -> (r: Option<Scalar>)
    ensures
        r.is_some() == linked_response(pok, placed(revealed@), claim as int, len as int).is_some(),
        r matches Some(s) ==> Some(s@) == linked_response(
            pok,
            placed(revealed@),
            claim as int,
            len as int,
        ),
{
    if claim >= len || claim + 1 >= len {
        return None;
    }
    if is_placed(revealed, claim + 1) {
        return None;
    }
    let hidden = unplaced(revealed, 0, claim + 1);
    assert(hidden@.map_values(|p: usize| p as int).len() == hidden.len());
    if hidden.len() < pok.proof.len() {
        Some(pok.proof[hidden.len()])
    } else {
        None
    }
}

/// Messages of a key with `len` positions are fewer than `len`.
pub proof fn lemma_placed_count(entries: Seq<Placed>, len: int)
    requires
        well_placed(entries, len),
    ensures
        entries.len() < len || entries.len() == 0,
    decreases entries.len(),
{
    if entries.len() > 0 {
        crate::ps::positions::lemma_placed_rest(entries, 1, len);
        let rest = entries.drop_last();
        let top = entries[entries.len() - 1].0;
        assert(1 <= top < len);
        if rest.len() > 0 {
            assert forall|i: int| 0 <= i < rest.len() implies 1 <= (#[trigger] rest[i]).0
                < top by {
                assert(rest[i] == entries[i]);
                assert(entries[i].0 < entries[entries.len() - 1].0);
            }
            lemma_placed_count(rest, top);
        }
    }
}

} // verus!
