//! The verifier's side of a proof of knowledge of a signature.

use vstd::prelude::*;
use rand_core::OsRng;
use crate::field::Scalar;
use crate::ps::keys::PublicKey;
use crate::ps::pok::PokSignatureProof;
use crate::ps::positions::{arrange, arranged, distinct, placed, within};

verus! {

/// The party that asks for a proof and checks it.
pub struct Verifier;

impl Verifier {
    /// A nonce for a proof request, drawn at random.
    pub fn generate_proof_nonce(rng: &mut OsRng) -> (r: Scalar)
        ensures
            r.wf(),
    {
        Scalar::random(rng)
    }

    /// Whether a proof of knowledge with selective disclosure is accepted
    /// for the revealed messages, the nonce and the challenge: the proof has
    /// the shape that the key and the revealed messages ask for, its pairing
    /// equation holds, and the challenge is the one that the proof's entries
    /// and the nonce give. The revealed messages come in any order, each
    /// index once; they are taken in increasing order of their indices.
    pub fn verify_signature_pok(
        revealed_msgs: &[(usize, Scalar)],
        public_key: &PublicKey,
        proof: PokSignatureProof,
        nonce: Scalar,
        challenge: Scalar,
    ) -> (r: bool)
        ensures
            r == (within(placed(revealed_msgs@), public_key.y_tilde.len() as int) && distinct(
                placed(revealed_msgs@),
            ) && proof.accepted(
                public_key,
                arranged(placed(revealed_msgs@), public_key.y_tilde.len() as int),
                nonce@,
                challenge@,
            )),
    {
        match arrange(revealed_msgs, public_key.y_tilde.len()) {
            None => false,
            Some(revealed) => proof.check(revealed.as_slice(), public_key, &nonce, &challenge),
        }
    }
}

} // verus!
