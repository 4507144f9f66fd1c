//! Blind issuance: a holder commits to the messages that the issuer is not
//! to see and proves that the commitment can be opened; the issuer signs the
//! commitment together with the messages it knows; the holder takes the
//! blinding off the signature.

use vstd::prelude::*;
use rand_core::OsRng;
use crate::error::Error;
use crate::field::{be_bytes, fadd, fmul, fsub, modulus, os_rng, Scalar};
use crate::g1::{g1_encoding, G1Point};
use crate::group::{logs, sum_of_products, values};
use crate::ps::keys::{PublicKey, SecretKey};
use crate::ps::positions::{
    check_placed, check_within, complement, gather, lemma_complement_bounds, lemma_scatter, pick,
    pick_points, Placed, placed, positions, scatter, unplaced, vals, well_placed, with_nonce,
    within,
};
use crate::ps::signature::Signature;
use crate::schnorr::{combination, Committer, recover_commitment, recovered, responses};
use crate::transcript::{
    append_message, challenge_scalar, challenge_scalar_of, Entry, transcript_new,
};

verus! {

/// A commitment to hidden messages with a proof that it can be opened.
pub struct BlindSignatureContext {
    /// The hidden messages taken with their bases, and the generator taken
    /// with the blinding.
    pub commitment: G1Point,
    /// The challenge of the proof.
    pub challenge: Scalar,
    /// The responses: one for each hidden message, then one for the blinding.
    pub proofs: Vec<Scalar>,
}

/// A signature on a commitment and the messages that the issuer knows.
#[derive(Clone, Copy, Debug)]
pub struct BlindSignature {
    /// A generator of the first group.
    pub sigma_1: G1Point,
    /// The first point taken by the key's exponent for all the messages and
    /// by the blinding.
    pub sigma_2: G1Point,
    /// The signing nonce.
    pub m_tick: Scalar,
}

/// The logarithms of the bases of a commitment to hidden messages: the key's
/// base of each message, then the generator.
pub open spec fn hidden_bases(blinds: Seq<nat>, hidden: Seq<Placed>) -> Seq<nat> {
    gather(blinds, hidden).push(1)
}

/// What a commitment to hidden messages commits to: the messages, then the blinding.
pub open spec fn hidden_secrets(hidden: Seq<Placed>, blinding: nat) -> Seq<nat> {
    vals(hidden).push(blinding)
}

/// What the transcript of a blind signing request has absorbed when the
/// challenge is drawn: the issuer's key, the random commitment with
/// logarithm `t`, the commitment with logarithm `c`, and the issuer's nonce.
pub open spec fn context_log(key: Seq<u8>, t: nat, c: nat, nonce: nat) -> Seq<Entry> {
    seq![
        ("new blind signature"@, Seq::<u8>::empty()),
        ("public key"@, key),
        ("random commitment"@, g1_encoding(t)),
        ("blind commitment"@, g1_encoding(c)),
        ("nonce"@, be_bytes(nonce, 32)),
    ]
}

/// The challenge of a blind signing request.
pub open spec fn context_challenge(key: Seq<u8>, t: nat, c: nat, nonce: nat) -> nat {
    challenge_scalar_of(context_log(key, t, c, nonce), "blind signature context challenge"@)
}

/// Draws the challenge of a blind signing request.
fn derive_challenge(key: &Vec<u8>, t: &G1Point, c: &G1Point, nonce: &Scalar) -> (r: Scalar)
    requires
        key.len() <= u32::MAX,
    ensures
        r@ == context_challenge(key@, t@, c@, nonce@),
{
    proof {
        use_type_invariant(t);
        use_type_invariant(c);
        t.lemma_log();
        c.lemma_log();
    }
    let mut transcript = transcript_new("new blind signature");
    append_message(&mut transcript, "public key", key.as_slice());
    append_message(&mut transcript, "random commitment", t.to_bytes().as_slice());
    append_message(&mut transcript, "blind commitment", c.to_bytes().as_slice());
    append_message(&mut transcript, "nonce", nonce.to_be_bytes().as_slice());
    proof {
        assert(crate::transcript::transcript_log(transcript) =~= context_log(
            key@,
            t@,
            c@,
            nonce@,
        ));
    }
    challenge_scalar(transcript, "blind signature context challenge")
}

impl BlindSignatureContext {
    /// The context was made for the hidden messages with the given blinding
    /// and blinders: its commitment commits to the messages and the
    /// blinding, its challenge is that of the request, and its responses
    /// answer the challenge.
    pub open spec fn opens(
        &self,
        pk: &PublicKey,
        hidden: Seq<Placed>,
        nonce: nat,
        blinding: nat,
        blinders: Seq<nat>,
    ) -> bool {
        let bases = hidden_bases(pk.blind_logs(), hidden);
        let secrets = hidden_secrets(hidden, blinding);
        &&& self.commitment@ == combination(bases, secrets)
        &&& self.challenge@ == context_challenge(
            pk.encoding(),
            combination(bases, blinders),
            self.commitment@,
            nonce,
        )
        &&& values(self.proofs@) == responses(blinders, self.challenge@, secrets)
    }

    /// The context was made for the hidden messages with the given
    /// blinding, and with some blinder for each message and for the blinding.
    pub open spec fn made_for(
        &self,
        pk: &PublicKey,
        hidden: Seq<Placed>,
        nonce: nat,
        blinding: nat,
    ) -> bool {
        exists|blinders: Seq<nat>|
            blinders.len() == hidden.len() + 1 && #[trigger] self.opens(
                pk,
                hidden,
                nonce,
                blinding,
                blinders,
            )
    }

    /// The proof of opening holds for an issuer who knows the messages at
    /// the positions `known` and whose key has the bytes `key` and the bases
    /// with logarithms `blinds`: there is a response for each position that
    /// is not known and one more, and the challenge is the one that the
    /// request gives with the commitment that the responses recover.
    pub open spec fn opening_holds(
        &self,
        key: Seq<u8>,
        blinds: Seq<nat>,
        known: Seq<Placed>,
        nonce: nat,
    ) -> bool {
        let bases = pick(blinds, complement(known, 1, blinds.len() as int)).push(1);
        &&& self.proofs.len() == bases.len()
        &&& self.challenge@ == context_challenge(
            key,
            recovered(bases, values(self.proofs@), self.challenge@, self.commitment@),
            self.commitment@,
            nonce,
        )
    }

    /// Makes the context for the hidden messages with a given blinding and
    /// given blinders, one for each message and one for the blinding. The
    /// messages are taken in the order in which they come; an issuer
    /// looks for the responses in increasing order of the indices.
    pub fn with_blinders(
        messages: &[(usize, Scalar)],
        pk: &PublicKey,
        nonce: &Scalar,
        blinding: &Scalar,
        blinders: &Vec<Scalar>,
    ) -> (r: Result<BlindSignatureContext, Error>)
        ensures
            r.is_ok() == (pk.well_formed() && within(
                placed(messages@),
                pk.y_blinds.len() as int,
            ) && blinders.len() == messages.len() + 1),
            r matches Ok(ctx) ==> ctx.opens(
                pk,
                placed(messages@),
                nonce@,
                blinding@,
                values(blinders@),
            ),
            r matches Err(e) ==> e == (if !pk.well_formed() {
                Error::InvalidKeyGeneration
            } else if !within(placed(messages@), pk.y_blinds.len() as int) {
                Error::InvalidBlindIndex
            } else {
                Error::InvalidBlindMessage
            }),
    {
        if !pk.is_well_formed() {
            return Err(Error::InvalidKeyGeneration);
        }
        if !check_within(messages, pk.y_blinds.len()) {
            return Err(Error::InvalidBlindIndex);
        }
        if messages.len() >= usize::MAX || blinders.len() != messages.len() + 1 {
            return Err(Error::InvalidBlindMessage);
        }
        let ghost hidden = placed(messages@);
        let ghost blinds = pk.blind_logs();
        let mut committer: Committer<G1Point> = Committer::new();
        let mut points: Vec<G1Point> = Vec::new();
        let mut secrets: Vec<Scalar> = Vec::new();
        let mut k: usize = 0;
        proof {
            assert(logs(points@) =~= gather(blinds, hidden.take(0)));
            assert(values(secrets@) =~= vals(hidden.take(0)));
            assert(committer.blinders() =~= values(blinders@).take(0));
        }
        while k < messages.len()
            invariant
                k <= messages.len(),
                blinders.len() == messages.len() + 1,
                hidden == placed(messages@),
                blinds == pk.blind_logs(),
                within(hidden, pk.y_blinds.len() as int),
                committer.bases() == points@,
                committer.blinders() == values(blinders@).take(k as int),
                logs(points@) == gather(blinds, hidden.take(k as int)),
                values(secrets@) == vals(hidden.take(k as int)),
            decreases messages.len() - k,
        {
            assert(1 <= hidden[k as int].0 < pk.y_blinds.len());
            assert(hidden[k as int] == (messages[k as int].0 as int + 1, messages[k as int].1@));
            let point = pk.y_blinds[messages[k].0 + 1];
            let ghost before_points = logs(points@);
            let ghost before_secrets = values(secrets@);
            committer.commit(point, blinders[k]);
            points.push(point);
            secrets.push(messages[k].1);
            proof {
                assert(blinds[hidden[k as int].0] == point@);
                assert(logs(points@) =~= before_points.push(point@));
                assert(gather(blinds, hidden.take(k + 1)) =~= gather(
                    blinds,
                    hidden.take(k as int),
                ).push(blinds[hidden[k as int].0]));
                assert(values(secrets@) =~= before_secrets.push(messages[k as int].1@));
                assert(vals(hidden.take(k + 1)) =~= vals(hidden.take(k as int)).push(
                    hidden[k as int].1,
                ));
                assert(committer.blinders() =~= values(blinders@).take(k + 1));
            }
            k += 1;
        }
        let g = G1Point::generator();
        let ghost before_points = logs(points@);
        let ghost before_secrets = values(secrets@);
        committer.commit(g, blinders[k]);
        points.push(g);
        secrets.push(*blinding);
        proof {
            assert(hidden.take(k as int) =~= hidden);
            assert(logs(points@) =~= before_points.push(1));
            assert(values(secrets@) =~= before_secrets.push(blinding@));
            assert(logs(points@) =~= hidden_bases(blinds, hidden));
            assert(values(secrets@) =~= hidden_secrets(hidden, blinding@));
            assert(committer.blinders() =~= values(blinders@));
            assert(points@.take(points@.len() as int) =~= points@);
            assert(secrets@.take(secrets@.len() as int) =~= secrets@);
        }
        let commitment = sum_of_products(&points, &secrets);
        let random = committer.commitment();
        let key = pk.to_bytes();
        let challenge = derive_challenge(&key, &random, &commitment, nonce);
        match committer.generate_proof(&challenge, &secrets) {
            Ok(proofs) => Ok(BlindSignatureContext { commitment, challenge, proofs }),
            Err(e) => Err(e),
        }
    }

    /// Makes the context for the hidden messages with a blinding and
    /// blinders drawn at random, and returns it with the blinding.
    pub fn new(messages: &[(usize, Scalar)], pk: &PublicKey, nonce: &Scalar, rng: &mut OsRng) -> (r:
        Result<(BlindSignatureContext, Scalar), Error>)
        ensures
            r.is_ok() == (pk.well_formed() && within(
                placed(messages@),
                pk.y_blinds.len() as int,
            ) && messages.len() < usize::MAX),
            r matches Ok(made) ==> made.0.made_for(pk, placed(messages@), nonce@, made.1@),
            r matches Err(e) ==> e == (if !pk.well_formed() {
                Error::InvalidKeyGeneration
            } else if !within(placed(messages@), pk.y_blinds.len() as int) {
                Error::InvalidBlindIndex
            } else {
                Error::InvalidBlindMessage
            }),
    {
        let blinding = Scalar::random(rng);
        let mut blinders: Vec<Scalar> = Vec::new();
        let mut k: usize = 0;
        while k < messages.len()
            invariant
                k <= messages.len(),
                blinders.len() == k,
            decreases messages.len() - k,
        {
            blinders.push(Scalar::random(rng));
            k += 1;
        }
        if messages.len() < usize::MAX {
            blinders.push(Scalar::random(rng));
        }
        let made = BlindSignatureContext::with_blinders(messages, pk, nonce, &blinding, &blinders);
        match made {
            Ok(ctx) => {
                proof {
                    let bs = values(blinders@);
                    assert(bs.len() == messages.len() + 1);
                    assert(ctx.opens(pk, placed(messages@), nonce@, blinding@, bs));
                    assert(ctx.made_for(pk, placed(messages@), nonce@, blinding@));
                }
                Ok((ctx, blinding))
            },
            Err(e) => Err(e),
        }
    }

    /// Checks the proof of opening as the issuer with public key `pk` who
    /// knows the messages `known`, given in increasing order of their indices.
    pub fn verify(&self, known: &[(usize, Scalar)], pk: &PublicKey, nonce: &Scalar) -> (r: Result<
        bool,
        Error,
    >)
        ensures
            r.is_ok() == (pk.well_formed() && well_placed(
                placed(known@),
                pk.y_blinds.len() as int,
            ) && self.proofs.len() == complement(
                placed(known@),
                1,
                pk.y_blinds.len() as int,
            ).len() + 1),
            r matches Ok(b) ==> b == self.opening_holds(
                pk.encoding(),
                pk.blind_logs(),
                placed(known@),
                nonce@,
            ),
            r matches Err(e) ==> e == (if !pk.well_formed() {
                Error::InvalidKeyGeneration
            } else if !well_placed(placed(known@), pk.y_blinds.len() as int) {
                Error::InvalidBlindIndex
            } else {
                Error::InvalidBlindMessage
            }),
    {
        if !pk.is_well_formed() {
            return Err(Error::InvalidKeyGeneration);
        }
        if !check_placed(known, pk.y_blinds.len()) {
            return Err(Error::InvalidBlindIndex);
        }
        let hidden = unplaced(known, 1, pk.y_blinds.len());
        proof {
            lemma_complement_bounds(placed(known@), 1, pk.y_blinds.len() as int);
            assert forall|i: int| 0 <= i < hidden.len() implies hidden[i] < pk.y_blinds.len() by {
                assert(hidden@.map_values(|p: usize| p as int)[i] == hidden[i] as int);
            }
        }
        if hidden.len() >= usize::MAX || self.proofs.len() != hidden.len() + 1 {
            return Err(Error::InvalidBlindMessage);
        }
        let mut bases = pick_points(&pk.y_blinds, &hidden);
        bases.push(G1Point::generator());
        proof {
            assert(logs(pk.y_blinds@) =~= pk.blind_logs());
            assert(logs(bases@) =~= pick(
                pk.blind_logs(),
                complement(placed(known@), 1, pk.y_blinds.len() as int),
            ).push(1));
            assert(bases@.take(bases@.len() as int) =~= bases@);
            assert(self.proofs@.take(self.proofs@.len() as int) =~= self.proofs@);
        }
        let random = recover_commitment(&bases, &self.proofs, &self.challenge, &self.commitment);
        let key = pk.to_bytes();
        let challenge = derive_challenge(&key, &random, &self.commitment, nonce);
        Ok(challenge.eq(&self.challenge))
    }
}

/// The nonce and the known messages at their positions among `len`, and
/// zero at the other positions.
fn scatter_messages(msgs: &[(usize, Scalar)], m_tick: &Scalar, len: usize) -> (r: Vec<Scalar>)
    requires
        well_placed(placed(msgs@), len as int),
        1 <= len,
    ensures
        r.len() == len,
        values(r@) == scatter(len as int, with_nonce(m_tick@, placed(msgs@))),
{
    let ghost entries = placed(msgs@);
    let mut out: Vec<Scalar> = Vec::new();
    let mut i: usize = 0;
    while i < len
        invariant
            i <= len,
            out.len() == i,
            forall|j: int| 0 <= j < i ==> (#[trigger] out[j])@ == 0,
        decreases len - i,
    {
        out.push(Scalar::from_u64(0));
        i += 1;
    }
    out.set(0, *m_tick);
    proof {
        let first = with_nonce(m_tick@, entries.take(0));
        assert(first.drop_last() =~= Seq::<Placed>::empty());
        assert(first.last() == (0int, m_tick@));
        lemma_scatter(len as int, first.drop_last());
        assert(scatter(len as int, first) == scatter(len as int, first.drop_last()).update(
            0,
            m_tick@,
        ));
        assert(values(out@) =~= scatter(len as int, first));
    }
    let mut k: usize = 0;
    while k < msgs.len()
        invariant
            k <= msgs.len(),
            out.len() == len,
            entries == placed(msgs@),
            well_placed(entries, len as int),
            values(out@) == scatter(len as int, with_nonce(m_tick@, entries.take(k as int))),
        decreases msgs.len() - k,
    {
        assert(1 <= entries[k as int].0 < len);
        out.set(msgs[k].0 + 1, msgs[k].1);
        proof {
            let next = with_nonce(m_tick@, entries.take(k + 1));
            assert(next.drop_last() =~= with_nonce(m_tick@, entries.take(k as int)));
            assert(next.last() == entries[k as int]);
            assert(entries[k as int] == (msgs[k as int].0 as int + 1, msgs[k as int].1@));
            lemma_scatter(len as int, next.drop_last());
            assert(scatter(len as int, next) == scatter(len as int, next.drop_last()).update(
                entries[k as int].0,
                entries[k as int].1,
            ));
            assert(values(out@) =~= scatter(len as int, next));
        }
        k += 1;
    }
    assert(entries.take(msgs.len() as int) =~= entries);
    out
}

impl BlindSignature {
    /// The signature was issued by `sk` on a commitment with logarithm
    /// `commitment` and on the messages `known`, over the generator taken
    /// `u` times.
    pub open spec fn issued(
        &self,
        sk: &SecretKey,
        commitment: nat,
        known: Seq<Placed>,
        u: nat,
    ) -> bool {
        let exponent = sk.exponent(scatter(sk.y.len() as int, with_nonce(self.m_tick@, known)));
        &&& self.sigma_1@ == fmul(1, u)
        &&& self.sigma_1@ != 0
        &&& self.sigma_2@ == fmul(fadd(fmul(1, exponent), commitment), u)
    }

    /// The signature was issued by `sk` on a commitment and on the messages
    /// `known`, over the generator taken some number of times.
    pub open spec fn issued_for(
        &self,
        sk: &SecretKey,
        commitment: nat,
        known: Seq<Placed>,
    ) -> bool {
        exists|u: nat| #[trigger] self.issued(sk, commitment, known, u)
    }

    /// Signs a commitment together with the messages that the issuer knows,
    /// given in increasing order of their indices, with a given nonce and
    /// over the generator taken `u` times. Neither the nonce nor `u` may be
    /// zero. The proof that the commitment can be opened is not checked here.
    pub fn issue(
        commitment: &G1Point,
        sk: &SecretKey,
        msgs: &[(usize, Scalar)],
        m_tick: Scalar,
        u: Scalar,
    ) -> (r: Result<BlindSignature, Error>)
        ensures
            r.is_ok() == (1 <= sk.y.len() && well_placed(placed(msgs@), sk.y.len() as int)
                && m_tick@ != 0 && u@ != 0),
            r matches Ok(sig) ==> sig.m_tick == m_tick && sig.issued(
                sk,
                commitment@,
                placed(msgs@),
                u@,
            ),
            r matches Err(e) ==> e == (if 1 <= sk.y.len() && well_placed(
                placed(msgs@),
                sk.y.len() as int,
            ) {
                Error::InvalidSignature
            } else {
                Error::InvalidBlindIndex
            }),
    {
        if sk.y.len() < 1 || !check_placed(msgs, sk.y.len()) {
            return Err(Error::InvalidBlindIndex);
        }
        if m_tick.is_zero() || u.is_zero() {
            return Err(Error::InvalidSignature);
        }
        let known = scatter_messages(msgs, &m_tick, sk.y.len());
        let exponent = sk.exponent_for(&known);
        let g = G1Point::generator();
        let base = g.mul(&exponent).add(commitment);
        let sigma_1 = g.mul(&u);
        let sigma_2 = base.mul(&u);
        proof {
            use_type_invariant(&u);
            u.lemma_bound();
            assert(1 * u@ == u@);
            vstd::arithmetic::div_mod::lemma_small_mod(u@, modulus());
        }
        Ok(BlindSignature { sigma_1, sigma_2, m_tick })
    }

    /// Checks the proof of opening and signs the commitment together with
    /// the known messages, with a nonce and a generator drawn at random.
    pub fn new(
        ctx: &BlindSignatureContext,
        sk: &SecretKey,
        msgs: &[(usize, Scalar)],
        nonce: &Scalar,
    ) -> (r: Result<BlindSignature, Error>)
        ensures
            r matches Ok(sig) ==> {
                &&& 2 <= sk.y.len() <= crate::ps::keys::MAX_MESSAGES + 1
                &&& well_placed(placed(msgs@), sk.y.len() as int)
                &&& ctx.opening_holds(
                    sk.public_encoding(),
                    sk.public_logs(),
                    placed(msgs@),
                    nonce@,
                )
                &&& sig.issued_for(sk, ctx.commitment@, placed(msgs@))
            },
            !(2 <= sk.y.len() <= crate::ps::keys::MAX_MESSAGES + 1) ==> r == Err::<
                BlindSignature,
                Error,
            >(Error::InvalidKeyGeneration),
            2 <= sk.y.len() <= crate::ps::keys::MAX_MESSAGES + 1 && !well_placed(
                placed(msgs@),
                sk.y.len() as int,
            ) ==> r == Err::<BlindSignature, Error>(Error::InvalidBlindIndex),
            2 <= sk.y.len() <= crate::ps::keys::MAX_MESSAGES + 1 && well_placed(
                placed(msgs@),
                sk.y.len() as int,
            ) && ctx.proofs.len() != complement(placed(msgs@), 1, sk.y.len() as int).len() + 1
                ==> r == Err::<BlindSignature, Error>(Error::InvalidBlindMessage),
            2 <= sk.y.len() <= crate::ps::keys::MAX_MESSAGES + 1 && well_placed(
                placed(msgs@),
                sk.y.len() as int,
            ) && ctx.proofs.len() == complement(placed(msgs@), 1, sk.y.len() as int).len() + 1
                && !ctx.opening_holds(
                sk.public_encoding(),
                sk.public_logs(),
                placed(msgs@),
                nonce@,
            ) ==> r == Err::<BlindSignature, Error>(Error::InvalidOpeningProof),
            r.is_ok() == (2 <= sk.y.len() <= crate::ps::keys::MAX_MESSAGES + 1 && well_placed(
                placed(msgs@),
                sk.y.len() as int,
            ) && ctx.proofs.len() == complement(placed(msgs@), 1, sk.y.len() as int).len() + 1
                && ctx.opening_holds(
                sk.public_encoding(),
                sk.public_logs(),
                placed(msgs@),
                nonce@,
            )),
            r matches Ok(sig) ==> sig.m_tick@ != 0,
            r matches Err(e) ==> e == Error::InvalidKeyGeneration || e == Error::InvalidBlindIndex
                || e == Error::InvalidBlindMessage || e == Error::InvalidOpeningProof,
    {
        let pk = PublicKey::from_secret(sk);
        match ctx.verify(msgs, &pk, nonce) {
            Err(e) => Err(e),
            Ok(false) => Err(Error::InvalidOpeningProof),
            Ok(true) => {
                let mut rng = os_rng();
                let m_tick = Scalar::random_nonzero(&mut rng);
                let u = Scalar::random_nonzero(&mut rng);
                match BlindSignature::issue(&ctx.commitment, sk, msgs, m_tick, u) {
                    Ok(sig) => {
                        assert(sig.issued(sk, ctx.commitment@, placed(msgs@), u@));
                        Ok(sig)
                    },
                    Err(e) => Err(e),
                }
            },
        }
    }

    /// Takes the blinding off: the signature on all the messages.
    pub fn to_unblinded(&self, blinding: &Scalar) -> (r: Signature)
        ensures
            r.sigma_1 == self.sigma_1,
            r.m_tick == self.m_tick,
            r.sigma_2@ == unblinded(self.sigma_1@, self.sigma_2@, blinding@),
    {
        let off = self.sigma_1.mul(&blinding.neg());
        Signature { sigma_1: self.sigma_1, sigma_2: self.sigma_2.add(&off), m_tick: self.m_tick }
    }
}

/// The logarithm of a blind signature's second point with the blinding taken off.
pub open spec fn unblinded(sigma_1: nat, sigma_2: nat, blinding: nat) -> nat {
    fadd(sigma_2, fmul(sigma_1, fsub(0, blinding)))
}

/// The messages of a key with `len` positions, made of those that were
/// hidden and those that were known.
pub open spec fn merged(len: int, hidden: Seq<Placed>, known: Seq<Placed>) -> Seq<nat> {
    Seq::new(
        (len - 1) as nat,
        |i: int| scatter(len, hidden)[i + 1] + scatter(len, known)[i + 1],
    )
}

} // verus!
