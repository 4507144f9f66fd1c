//! What a presentation is asked to prove.

use vstd::prelude::*;
use crate::bytes::{
    append_bytes, append_string, append_u64, append_usize, same_string, string_bytes, u64_bytes,
};
use crate::g1::{g1_encoding, G1Point};
use crate::g2::{g2_encoding, G2Point};
use crate::presentation::lookup::{first_named, lemma_skip};
use crate::ps::keys::PublicKey;

verus! {

/// Knowledge of a signature of an issuer, with some claims disclosed.
pub struct SignatureStatement {
    /// The statement's name, which is also that of the credential.
    pub id: String,
    /// The issuer's key.
    pub issuer: PublicKey,
    /// The label of each claim.
    pub labels: Vec<String>,
    /// The indices of the claims that are disclosed, in increasing order.
    pub disclosed: Vec<usize>,
}

/// One claim of one credential.
pub struct ClaimReference {
    /// The signature statement of the credential.
    pub reference_id: String,
    /// The index of the claim.
    pub claim: usize,
}

/// Several hidden claims are one and the same.
pub struct EqualityStatement {
    /// The statement's name.
    pub id: String,
    /// The claims that are equal.
    pub references: Vec<ClaimReference>,
}

/// A Pedersen commitment to a hidden claim.
pub struct CommitmentStatement {
    /// The statement's name.
    pub id: String,
    /// The signature statement of the credential.
    pub reference_id: String,
    /// The index of the claim.
    pub claim: usize,
    /// The base that the claim is taken with.
    pub message_generator: G1Point,
    /// The base that the blinder is taken with.
    pub blinder_generator: G1Point,
}

/// An encryption of a hidden claim to a key.
pub struct VerifiableEncryptionStatement {
    /// The statement's name.
    pub id: String,
    /// The signature statement of the credential.
    pub reference_id: String,
    /// The index of the claim.
    pub claim: usize,
    /// The base that the claim is taken with.
    pub message_generator: G1Point,
    /// The key that the claim is encrypted to.
    pub encryption_key: G1Point,
}

/// An encryption of a hidden claim to a key, in a form that can be
/// decrypted with the issuer's help.
pub struct VerifiableEncryptionDecryptionStatement {
    /// The statement's name.
    pub id: String,
    /// The signature statement of the credential.
    pub reference_id: String,
    /// The index of the claim.
    pub claim: usize,
    /// The base that the claim is taken with.
    pub message_generator: G1Point,
    /// The key that the claim is encrypted to.
    pub encryption_key: G1Point,
    /// The key that the issuer published for decryption.
    pub issuer_key: G1Point,
}

/// A committed number lies between two bounds.
pub struct RangeStatement {
    /// The statement's name.
    pub id: String,
    /// The signature statement of the credential.
    pub signature_id: String,
    /// The commitment statement of the claim.
    pub reference_id: String,
    /// The index of the claim.
    pub claim: usize,
    /// The least number allowed.
    pub lower: u64,
    /// The greatest number allowed.
    pub upper: u64,
}

/// A hidden claim is a member of an accumulated set.
pub struct MembershipStatement {
    /// The statement's name.
    pub id: String,
    /// The signature statement of the credential.
    pub reference_id: String,
    /// The index of the claim.
    pub claim: usize,
    /// The accumulator.
    pub accumulator: G1Point,
    /// The key that membership is checked with.
    pub verification_key: G2Point,
}

/// One thing to prove.
pub enum Statement {
    /// Knowledge of a signature.
    Signature(SignatureStatement),
    /// Equality of claims.
    Equality(EqualityStatement),
    /// A commitment to a claim.
    Commitment(CommitmentStatement),
    /// An encryption of a claim.
    VerifiableEncryption(VerifiableEncryptionStatement),
    /// An encryption of a claim that the issuer can help to decrypt.
    VerifiableEncryptionDecryption(VerifiableEncryptionDecryptionStatement),
    /// A range of a committed claim.
    Range(RangeStatement),
    /// Membership of a claim in a set.
    Membership(MembershipStatement),
    /// Membership of a credential's revocation claim in the set of
    /// credentials that are not revoked.
    Revocation(MembershipStatement),
}

/// The statements of a presentation, in the order in which they were added.
pub struct PresentationSchema {
    /// The statements.
    pub statements: Vec<Statement>,
}

/// The bytes of a sequence of strings.
pub open spec fn strings_bytes(s: Seq<String>) -> Seq<u8>
    decreases s.len(),
{
    if s.len() == 0 {
        Seq::empty()
    } else {
        strings_bytes(s.drop_last()) + string_bytes(s.last()@)
    }
}

/// The bytes of a sequence of indices.
pub open spec fn indices_bytes(s: Seq<usize>) -> Seq<u8>
    decreases s.len(),
{
    if s.len() == 0 {
        Seq::empty()
    } else {
        indices_bytes(s.drop_last()) + u64_bytes(s.last() as u64)
    }
}

/// The bytes of a sequence of references to claims.
pub open spec fn references_bytes(s: Seq<ClaimReference>) -> Seq<u8>
    decreases s.len(),
{
    if s.len() == 0 {
        Seq::empty()
    } else {
        references_bytes(s.drop_last()) + string_bytes(s.last().reference_id@) + u64_bytes(
            s.last().claim as u64,
        )
    }
}

impl Statement {
    /// The statement's name.
    pub open spec fn name(&self) -> Seq<char> {
        match self {
            Statement::Signature(s) => s.id@,
            Statement::Equality(s) => s.id@,
            Statement::Commitment(s) => s.id@,
            Statement::VerifiableEncryption(s) => s.id@,
            Statement::VerifiableEncryptionDecryption(s) => s.id@,
            Statement::Range(s) => s.id@,
            Statement::Membership(s) => s.id@,
            Statement::Revocation(s) => s.id@,
        }
    }

    /// The statement's name.
    pub fn id(&self) -> (r: &String)
        ensures
            r@ == self.name(),
    {
        match self {
            Statement::Signature(s) => &s.id,
            Statement::Equality(s) => &s.id,
            Statement::Commitment(s) => &s.id,
            Statement::VerifiableEncryption(s) => &s.id,
            Statement::VerifiableEncryptionDecryption(s) => &s.id,
            Statement::Range(s) => &s.id,
            Statement::Membership(s) => &s.id,
            Statement::Revocation(s) => &s.id,
        }
    }

    /// The number of the statement's kind.
    pub open spec fn kind(&self) -> u64 {
        match self {
            Statement::Signature(_) => 0,
            Statement::Equality(_) => 1,
            Statement::Commitment(_) => 2,
            Statement::VerifiableEncryption(_) => 3,
            Statement::VerifiableEncryptionDecryption(_) => 4,
            Statement::Range(_) => 5,
            Statement::Membership(_) => 6,
            Statement::Revocation(_) => 7,
        }
    }

    /// What the statement says, in bytes, after its kind and its name.
    pub open spec fn body(&self) -> Seq<u8> {
        match self {
            Statement::Signature(s) => s.issuer.encoding() + u64_bytes(s.labels.len() as u64)
                + strings_bytes(s.labels@) + u64_bytes(s.disclosed.len() as u64) + indices_bytes(
                s.disclosed@,
            ),
            Statement::Equality(s) => u64_bytes(s.references.len() as u64) + references_bytes(
                s.references@,
            ),
            Statement::Commitment(s) => string_bytes(s.reference_id@) + u64_bytes(s.claim as u64)
                + g1_encoding(s.message_generator@) + g1_encoding(s.blinder_generator@),
            Statement::VerifiableEncryption(s) => string_bytes(s.reference_id@) + u64_bytes(
                s.claim as u64,
            ) + g1_encoding(s.message_generator@) + g1_encoding(s.encryption_key@),
            Statement::VerifiableEncryptionDecryption(s) => string_bytes(s.reference_id@)
                + u64_bytes(s.claim as u64) + g1_encoding(s.message_generator@) + g1_encoding(
                s.encryption_key@,
            ) + g1_encoding(s.issuer_key@),
            Statement::Range(s) => string_bytes(s.signature_id@) + string_bytes(s.reference_id@)
                + u64_bytes(s.claim as u64) + u64_bytes(s.lower) + u64_bytes(s.upper),
            Statement::Membership(s) => string_bytes(s.reference_id@) + u64_bytes(s.claim as u64)
                + g1_encoding(s.accumulator@) + g2_encoding(s.verification_key@),
            Statement::Revocation(s) => string_bytes(s.reference_id@) + u64_bytes(s.claim as u64)
                + g1_encoding(s.accumulator@) + g2_encoding(s.verification_key@),
        }
    }

    /// The statement's bytes: its kind, its name, and what it says.
    pub open spec fn encoding(&self) -> Seq<u8> {
        u64_bytes(self.kind()) + string_bytes(self.name()) + self.body()
    }

    /// Appends the statement's bytes.
    pub fn append_to(&self, out: &mut Vec<u8>)
        ensures
            final(out)@ == old(out)@ + self.encoding(),
    {
        match self {
            Statement::Signature(s) => {
                append_u64(out, 0);
                append_string(out, &s.id);
                let key = s.issuer.to_bytes();
                append_bytes(out, key.as_slice());
                append_usize(out, s.labels.len());
                append_strings(out, &s.labels);
                append_usize(out, s.disclosed.len());
                append_indices(out, &s.disclosed);
            },
            Statement::Equality(s) => {
                append_u64(out, 1);
                append_string(out, &s.id);
                append_usize(out, s.references.len());
                append_references(out, &s.references);
            },
            Statement::Commitment(s) => {
                append_u64(out, 2);
                append_string(out, &s.id);
                append_string(out, &s.reference_id);
                append_usize(out, s.claim);
                append_g1(out, &s.message_generator);
                append_g1(out, &s.blinder_generator);
            },
            Statement::VerifiableEncryption(s) => {
                append_u64(out, 3);
                append_string(out, &s.id);
                append_string(out, &s.reference_id);
                append_usize(out, s.claim);
                append_g1(out, &s.message_generator);
                append_g1(out, &s.encryption_key);
            },
            Statement::VerifiableEncryptionDecryption(s) => {
                append_u64(out, 4);
                append_string(out, &s.id);
                append_string(out, &s.reference_id);
                append_usize(out, s.claim);
                append_g1(out, &s.message_generator);
                append_g1(out, &s.encryption_key);
                append_g1(out, &s.issuer_key);
            },
            Statement::Range(s) => {
                append_u64(out, 5);
                append_string(out, &s.id);
                append_string(out, &s.signature_id);
                append_string(out, &s.reference_id);
                append_usize(out, s.claim);
                append_u64(out, s.lower);
                append_u64(out, s.upper);
            },
            Statement::Membership(s) => {
                append_u64(out, 6);
                append_string(out, &s.id);
                append_string(out, &s.reference_id);
                append_usize(out, s.claim);
                append_g1(out, &s.accumulator);
                append_g2(out, &s.verification_key);
            },
            Statement::Revocation(s) => {
                append_u64(out, 7);
                append_string(out, &s.id);
                append_string(out, &s.reference_id);
                append_usize(out, s.claim);
                append_g1(out, &s.accumulator);
                append_g2(out, &s.verification_key);
            },
        }
        assert(out@ =~= old(out)@ + self.encoding());
    }
}

/// Appends the encoding of a point of the first group.
pub fn append_g1(out: &mut Vec<u8>, p: &G1Point)
    ensures
        final(out)@ == old(out)@ + g1_encoding(p@),
{
    proof {
        use_type_invariant(p);
        p.lemma_log();
    }
    append_bytes(out, p.to_bytes().as_slice());
}

/// Appends the encoding of a point of the second group.
pub fn append_g2(out: &mut Vec<u8>, p: &G2Point)
    ensures
        final(out)@ == old(out)@ + g2_encoding(p@),
{
    proof {
        use_type_invariant(p);
        p.lemma_log();
    }
    append_bytes(out, p.to_bytes().as_slice());
}

/// Appends the bytes of a sequence of strings.
pub fn append_strings(out: &mut Vec<u8>, s: &Vec<String>)
    ensures
        final(out)@ == old(out)@ + strings_bytes(s@),
{
    let mut i: usize = 0;
    assert(out@ =~= old(out)@ + strings_bytes(s@.take(0)));
    while i < s.len()
        invariant
            i <= s.len(),
            out@ == old(out)@ + strings_bytes(s@.take(i as int)),
        decreases s.len() - i,
    {
        append_string(out, &s[i]);
        proof {
            assert(s@.take(i + 1).drop_last() =~= s@.take(i as int));
            assert(out@ =~= old(out)@ + strings_bytes(s@.take(i + 1)));
        }
        i += 1;
    }
    assert(s@.take(s.len() as int) =~= s@);
}

/// Appends the bytes of a sequence of indices.
pub fn append_indices(out: &mut Vec<u8>, s: &Vec<usize>)
    ensures
        final(out)@ == old(out)@ + indices_bytes(s@),
{
    let mut i: usize = 0;
    assert(out@ =~= old(out)@ + indices_bytes(s@.take(0)));
    while i < s.len()
        invariant
            i <= s.len(),
            out@ == old(out)@ + indices_bytes(s@.take(i as int)),
        decreases s.len() - i,
    {
        append_usize(out, s[i]);
        proof {
            assert(s@.take(i + 1).drop_last() =~= s@.take(i as int));
            assert(out@ =~= old(out)@ + indices_bytes(s@.take(i + 1)));
        }
        i += 1;
    }
    assert(s@.take(s.len() as int) =~= s@);
}

/// Appends the bytes of a sequence of references to claims.
pub fn append_references(out: &mut Vec<u8>, s: &Vec<ClaimReference>)
    ensures
        final(out)@ == old(out)@ + references_bytes(s@),
{
    let mut i: usize = 0;
    assert(out@ =~= old(out)@ + references_bytes(s@.take(0)));
    while i < s.len()
        invariant
            i <= s.len(),
            out@ == old(out)@ + references_bytes(s@.take(i as int)),
        decreases s.len() - i,
    {
        append_string(out, &s[i].reference_id);
        append_usize(out, s[i].claim);
        proof {
            assert(s@.take(i + 1).drop_last() =~= s@.take(i as int));
            assert(out@ =~= old(out)@ + references_bytes(s@.take(i + 1)));
        }
        i += 1;
    }
    assert(s@.take(s.len() as int) =~= s@);
}

/// The bytes of a sequence of statements, one after the other.
pub open spec fn statements_bytes(s: Seq<Statement>) -> Seq<u8>
    decreases s.len(),
{
    if s.len() == 0 {
        Seq::empty()
    } else {
        statements_bytes(s.drop_last()) + s.last().encoding()
    }
}

impl PresentationSchema {
    /// The schema's canonical bytes: the number of its statements, then
    /// each statement in order.
    pub open spec fn encoding(&self) -> Seq<u8> {
        u64_bytes(self.statements.len() as u64) + statements_bytes(self.statements@)
    }

    /// The schema's canonical bytes.
    pub fn to_bytes(&self) -> (r: Vec<u8>)
        ensures
            r@ == self.encoding(),
    {
        let mut out: Vec<u8> = Vec::new();
        append_usize(&mut out, self.statements.len());
        let mut i: usize = 0;
        assert(out@ =~= u64_bytes(self.statements.len() as u64) + statements_bytes(
            self.statements@.take(0),
        ));
        while i < self.statements.len()
            invariant
                i <= self.statements.len(),
                out@ == u64_bytes(self.statements.len() as u64) + statements_bytes(
                    self.statements@.take(i as int),
                ),
            decreases self.statements.len() - i,
        {
            self.statements[i].append_to(&mut out);
            proof {
                assert(self.statements@.take(i + 1).drop_last() =~= self.statements@.take(
                    i as int,
                ));
                assert(out@ =~= u64_bytes(self.statements.len() as u64) + statements_bytes(
                    self.statements@.take(i + 1),
                ));
            }
            i += 1;
        }
        assert(self.statements@.take(self.statements.len() as int) =~= self.statements@);
        out
    }

    /// Whether the statements have different names.
    pub open spec fn distinct(&self) -> bool {
        forall|i: int, j: int|
            0 <= i < j < self.statements.len() ==> (#[trigger] self.statements[i]).name() != (
            #[trigger] self.statements[j]).name()
    }

    /// Whether the statements have different names.
    pub fn has_distinct_ids(&self) -> (r: bool)
        ensures
            r == self.distinct(),
    {
        let mut j: usize = 0;
        while j < self.statements.len()
            invariant
                j <= self.statements.len(),
                forall|a: int, b: int|
                    0 <= a < b < j ==> (#[trigger] self.statements[a]).name() != (
                    #[trigger] self.statements[b]).name(),
            decreases self.statements.len() - j,
        {
            let mut i: usize = 0;
            while i < j
                invariant
                    i <= j,
                    j < self.statements.len(),
                    forall|a: int|
                        0 <= a < i ==> (#[trigger] self.statements[a]).name()
                            != self.statements[j as int].name(),
                decreases j - i,
            {
                if same_string(self.statements[i].id(), self.statements[j].id()) {
                    return false;
                }
                i += 1;
            }
            j += 1;
        }
        true
    }

    /// The place of the first statement of the given name, if there is one.
    pub fn find(&self, id: &String) -> (r: Option<usize>)
        ensures
            r matches Some(i) ==> i < self.statements.len() && first_named(
                statement_names(self.statements@),
                id@,
            ) == Some(i as int),
            r is None ==> first_named(statement_names(self.statements@), id@) is None,
    {
        let ghost names = statement_names(self.statements@);
        let mut i: usize = 0;
        while i < self.statements.len()
            invariant
                i <= self.statements.len(),
                names == statement_names(self.statements@),
                forall|k: int| 0 <= k < i ==> names[k] != id@,
            decreases self.statements.len() - i,
        {
            if same_string(self.statements[i].id(), id) {
                proof {
                    lemma_skip(names, id@, i as int);
                }
                return Some(i);
            }
            i += 1;
        }
        proof {
            lemma_skip(names, id@, i as int);
        }
        None
    }
}

/// The names of the statements.
pub open spec fn statement_names(statements: Seq<Statement>) -> Seq<Seq<char>> {
    statements.map_values(|s: Statement| s.name())
}

} // verus!
