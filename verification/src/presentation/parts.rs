//! The parts of a presentation.

use vstd::prelude::*;
use crate::bytes::same_string;
use crate::field::Scalar;
use crate::presentation::claim::ClaimData;
use crate::presentation::linear::LinearProof;
use crate::presentation::lookup::{first_named, lemma_skip};
use crate::ps::pok::PokSignatureProof;

verus! {

/// A proof of knowledge of a credential's signature.
pub struct SignatureProof {
    /// The name of the statement that is proved.
    pub id: String,
    /// The proof.
    pub pok: PokSignatureProof,
}

/// The mark that claims were proved equal. The proof itself lies in the
/// responses of the signature proofs.
pub struct EqualityProof {
    /// The name of the statement that is proved.
    pub id: String,
}

/// The proof of one statement.
pub enum SubProof {
    /// Of knowledge of a signature.
    Signature(SignatureProof),
    /// Of equality of claims.
    Equality(EqualityProof),
    /// Of a commitment to a claim.
    Commitment(LinearProof),
    /// Of an encryption of a claim.
    VerifiableEncryption(LinearProof),
    /// Of an encryption of a claim that the issuer can help to decrypt.
    VerifiableEncryptionDecryption(LinearProof),
    /// Of a range of a committed claim.
    Range(LinearProof),
    /// Of membership of a claim in a set.
    Membership(LinearProof),
    /// Of a credential not being revoked.
    Revocation(LinearProof),
}

/// A disclosed claim under its label.
pub struct DisclosedClaim {
    /// The claim's label.
    pub label: String,
    /// The claim.
    pub claim: ClaimData,
}

/// The disclosed claims of one credential.
pub struct DisclosedMessages {
    /// The name of the signature statement.
    pub id: String,
    /// The claims, in the order of their indices.
    pub claims: Vec<DisclosedClaim>,
}

/// Proofs of the statements of a schema under one challenge.
pub struct Presentation {
    /// The proof of each statement.
    pub proofs: Vec<SubProof>,
    /// The challenge that all the proofs answer.
    pub challenge: Scalar,
    /// The disclosed claims of each credential.
    pub disclosed_messages: Vec<DisclosedMessages>,
}

impl SubProof {
    /// The name of the statement that is proved.
    pub open spec fn name(&self) -> Seq<char> {
        match self {
            SubProof::Signature(p) => p.id@,
            SubProof::Equality(p) => p.id@,
            SubProof::Commitment(p) => p.id@,
            SubProof::VerifiableEncryption(p) => p.id@,
            SubProof::VerifiableEncryptionDecryption(p) => p.id@,
            SubProof::Range(p) => p.id@,
            SubProof::Membership(p) => p.id@,
            SubProof::Revocation(p) => p.id@,
        }
    }

    /// The name of the statement that is proved.
    pub fn id(&self) -> (r: &String)
        ensures
            r@ == self.name(),
    {
        match self {
            SubProof::Signature(p) => &p.id,
            SubProof::Equality(p) => &p.id,
            SubProof::Commitment(p) => &p.id,
            SubProof::VerifiableEncryption(p) => &p.id,
            SubProof::VerifiableEncryptionDecryption(p) => &p.id,
            SubProof::Range(p) => &p.id,
            SubProof::Membership(p) => &p.id,
            SubProof::Revocation(p) => &p.id,
        }
    }

    /// The number of the proof's kind, which is that of its statement's.
    pub open spec fn kind(&self) -> u64 {
        match self {
            SubProof::Signature(_) => 0,
            SubProof::Equality(_) => 1,
            SubProof::Commitment(_) => 2,
            SubProof::VerifiableEncryption(_) => 3,
            SubProof::VerifiableEncryptionDecryption(_) => 4,
            SubProof::Range(_) => 5,
            SubProof::Membership(_) => 6,
            SubProof::Revocation(_) => 7,
        }
    }
}

/// The names of the proofs.
pub open spec fn proof_names(proofs: Seq<SubProof>) -> Seq<Seq<char>> {
    proofs.map_values(|p: SubProof| p.name())
}

/// The names of the lists of disclosed claims.
pub open spec fn disclosed_names(disclosed: Seq<DisclosedMessages>) -> Seq<Seq<char>> {
    disclosed.map_values(|d: DisclosedMessages| d.id@)
}

impl Presentation {
    /// The place of the first proof of the given name, if there is one.
    pub fn find_proof(&self, id: &String) -> (r: Option<usize>)
        ensures
            r matches Some(i) ==> i < self.proofs.len() && first_named(
                proof_names(self.proofs@),
                id@,
            ) == Some(i as int),
            r is None ==> first_named(proof_names(self.proofs@), id@) is None,
    {
        let ghost names = proof_names(self.proofs@);
        let mut i: usize = 0;
        while i < self.proofs.len()
            invariant
                i <= self.proofs.len(),
                names == proof_names(self.proofs@),
                forall|k: int| 0 <= k < i ==> names[k] != id@,
            decreases self.proofs.len() - i,
        {
            if same_string(self.proofs[i].id(), id) {
                proof {
                    lemma_skip(names, id@, i as int);
                }
                return Some(i);
            }
            i += 1;
        }
        proof {
            lemma_skip(names, id@, i as int);
        }
        None
    }

    /// The place of the first list of disclosed claims of the given name,
    /// if there is one.
    pub fn find_disclosed(&self, id: &String) -> (r: Option<usize>)
        ensures
            r matches Some(i) ==> i < self.disclosed_messages.len() && first_named(
                disclosed_names(self.disclosed_messages@),
                id@,
            ) == Some(i as int),
            r is None ==> first_named(disclosed_names(self.disclosed_messages@), id@) is None,
    {
        let ghost names = disclosed_names(self.disclosed_messages@);
        let mut i: usize = 0;
        while i < self.disclosed_messages.len()
            invariant
                i <= self.disclosed_messages.len(),
                names == disclosed_names(self.disclosed_messages@),
                forall|k: int| 0 <= k < i ==> names[k] != id@,
            decreases self.disclosed_messages.len() - i,
        {
            if same_string(&self.disclosed_messages[i].id, id) {
                proof {
                    lemma_skip(names, id@, i as int);
                }
                return Some(i);
            }
            i += 1;
        }
        proof {
            lemma_skip(names, id@, i as int);
        }
        None
    }
}

} // verus!
