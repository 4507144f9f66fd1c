//! The scheme as one name for its operations.

use vstd::prelude::*;
use rand_core::OsRng;
use crate::error::Error;
use crate::field::Scalar;
use crate::group::values;
use crate::ps::blind::{BlindSignature, BlindSignatureContext};
use crate::ps::keys::{MAX_MESSAGES, PublicKey, SecretKey};
use crate::ps::pok::{PokSignature, PokSignatureProof};
use crate::ps::positions::{arrange, arranged, complement, distinct, placed, within};
use crate::ps::proof_message::ProofMessage;
use crate::ps::signature::{sign_base, Signature};

verus! {

/// The Pointcheval–Sanders scheme.
#[derive(Clone, Copy, Debug)]
pub struct PsScheme;

impl PsScheme {
    /// A key pair for `count` messages, drawn at random. There is one for
    /// every number of messages from one to `MAX_MESSAGES`, and for no other.
    pub fn new_keys(count: usize, rng: &mut OsRng) -> (r: Result<(PublicKey, SecretKey), Error>)
        ensures
            r.is_ok() == (1 <= count <= MAX_MESSAGES),
            r matches Ok(keys) ==> keys.1.valid() && keys.1.y.len() == count + 1 && keys.0.matches(
                &keys.1,
            ) && keys.0.g_tilde@ == 1 && keys.0.well_formed(),
            r matches Err(e) ==> e == Error::InvalidKeyGeneration,
    {
        match SecretKey::random(count, rng) {
            Some(sk) => {
                let pk = PublicKey::from_secret(&sk);
                Ok((pk, sk))
            },
            None => Err(Error::InvalidKeyGeneration),
        }
    }

    /// Signs the messages with a nonce drawn at random.
    pub fn sign(sk: &SecretKey, msgs: &[Scalar]) -> (r: Result<Signature, Error>)
        ensures
            msgs.len() + 1 != sk.y.len() ==> r is Err,
            r matches Ok(sig) ==> sig.signs(sk, values(msgs@)) && sig.sigma_1@ == sign_base(
                sig.m_tick@,
                values(msgs@),
            ),
            r matches Ok(sig) ==> sig.m_tick@ != 0,
            r matches Err(e) ==> e == Error::InvalidSignature,
    {
        Signature::new(sk, msgs)
    }

    /// Checks the proof of opening of a blind signing request and signs the
    /// commitment together with the known messages. The known messages come
    /// in any order, each index once; they are taken in increasing order of
    /// their indices.
    pub fn blind_sign(
        ctx: &BlindSignatureContext,
        sk: &SecretKey,
        msgs: &[(usize, Scalar)],
        nonce: Scalar,
    ) -> (r: Result<BlindSignature, Error>)
        ensures
            r.is_ok() == (2 <= sk.y.len() <= MAX_MESSAGES + 1 && within(
                placed(msgs@),
                sk.y.len() as int,
            ) && distinct(placed(msgs@)) && ctx.proofs.len() == complement(
                arranged(placed(msgs@), sk.y.len() as int),
                1,
                sk.y.len() as int,
            ).len() + 1 && ctx.opening_holds(
                sk.public_encoding(),
                sk.public_logs(),
                arranged(placed(msgs@), sk.y.len() as int),
                nonce@,
            )),
            r matches Ok(sig) ==> sig.m_tick@ != 0 && sig.issued_for(
                sk,
                ctx.commitment@,
                arranged(placed(msgs@), sk.y.len() as int),
            ),
            r matches Err(e) ==> e == (if !(2 <= sk.y.len() <= MAX_MESSAGES + 1) {
                Error::InvalidKeyGeneration
            } else if !(within(placed(msgs@), sk.y.len() as int) && distinct(placed(msgs@))) {
                Error::InvalidBlindIndex
            } else if ctx.proofs.len() != complement(
                arranged(placed(msgs@), sk.y.len() as int),
                1,
                sk.y.len() as int,
            ).len() + 1 {
                Error::InvalidBlindMessage
            } else {
                Error::InvalidOpeningProof
            }),
    {
        if sk.y.len() < 2 || sk.y.len() > MAX_MESSAGES + 1 {
            return Err(Error::InvalidKeyGeneration);
        }
        match arrange(msgs, sk.y.len()) {
            None => Err(Error::InvalidBlindIndex),
            Some(known) => BlindSignature::new(ctx, sk, known.as_slice(), &nonce),
        }
    }

    /// Commits to the hidden messages, in the order in which they come,
    /// and proves that the commitment can be opened. Returns the request
    /// and the blinding. An issuer looks for the responses in increasing
    /// order of the indices.
    pub fn new_blind_signature_context(
        messages: &[(usize, Scalar)],
        public_key: &PublicKey,
        nonce: Scalar,
        rng: &mut OsRng,
    ) -> (r: Result<(BlindSignatureContext, Scalar), Error>)
        ensures
            r.is_ok() == (public_key.well_formed() && within(
                placed(messages@),
                public_key.y_blinds.len() as int,
            ) && messages.len() < usize::MAX),
            r matches Ok(made) ==> made.0.made_for(
                public_key,
                placed(messages@),
                nonce@,
                made.1@,
            ),
            r matches Err(e) ==> e == (if !public_key.well_formed() {
                Error::InvalidKeyGeneration
            } else if !within(placed(messages@), public_key.y_blinds.len() as int) {
                Error::InvalidBlindIndex
            } else {
                Error::InvalidBlindMessage
            }),
    {
        BlindSignatureContext::new(messages, public_key, &nonce, rng)
    }

    /// Begins a proof of knowledge of the signature on the messages. The
    /// key must be well formed and have a point for each message, and the
    /// signature's first point must not be the neutral element.
    pub fn commit_signature_pok(
        signature: Signature,
        public_key: &PublicKey,
        messages: &[ProofMessage],
        rng: &mut OsRng,
    ) -> (r: Result<PokSignature, Error>)
        ensures
            r.is_ok() == (public_key.well_formed() && messages.len() + 1
                == public_key.y_tilde.len() && signature.sigma_1@ != 0),
            r matches Ok(pok) ==> pok.committed(signature, public_key, messages@),
            r matches Ok(pok) ==> pok.revealed.len() <= messages.len(),
            r matches Err(e) ==> e == (if !public_key.well_formed() {
                Error::InvalidKeyGeneration
            } else {
                Error::InvalidSignature
            }),
    {
        PokSignature::commit(&signature, public_key, messages, rng)
    }

    /// Whether a proof of knowledge that stands alone is accepted for the
    /// revealed messages, the verifier's nonce and the challenge. The
    /// revealed messages come in any order, each index once; they are taken
    /// in increasing order of their indices.
    pub fn verify_signature_pok(
        revealed_msgs: &[(usize, Scalar)],
        public_key: &PublicKey,
        proof: &PokSignatureProof,
        nonce: Scalar,
        challenge: Scalar,
    ) -> (r: bool)
        ensures
            r == (within(placed(revealed_msgs@), public_key.y_tilde.len() as int) && distinct(
                placed(revealed_msgs@),
            ) && proof.accepted(
                public_key,
                arranged(placed(revealed_msgs@), public_key.y_tilde.len() as int),
                nonce@,
                challenge@,
            )),
    {
        match arrange(revealed_msgs, public_key.y_tilde.len()) {
            None => false,
            Some(revealed) => proof.check(revealed.as_slice(), public_key, &nonce, &challenge),
        }
    }
}

} // verus!
