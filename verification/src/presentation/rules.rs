//! What a verifier asks of a presentation, statement by statement.

use vstd::prelude::*;
use crate::bytes::string_bytes;
use crate::g1::g1_encoding;
use crate::g2::g2_encoding;
use crate::group::logs;
use crate::presentation::bits::bits_needed;
use crate::presentation::linear::LinearProof;
use crate::presentation::lookup::first_named;
use crate::presentation::parts::{
    disclosed_names, DisclosedMessages, Presentation, proof_names, SubProof,
};
use crate::presentation::range::{bit_system, range_holds, range_shaped};
use crate::presentation::statement::{
    ClaimReference, PresentationSchema, Statement, statement_names,
};
use crate::ps::pok::linked_response;
use crate::relation::RelationLogs;
use crate::transcript::{challenge_scalar_of, Entry};

verus! {

/// The label of the challenge of a presentation.
pub open spec fn challenge_label() -> Seq<char> {
    "challenge bytes"@
}

/// The name of the curve, BLS12-381, in ASCII.
pub open spec fn curve_tag() -> Seq<u8> {
    seq![66u8, 76u8, 83u8, 49u8, 50u8, 45u8, 51u8, 56u8, 49u8]
}

/// What the transcript of a presentation holds before any statement: the
/// curve, the generators of the two groups, the verifier's nonce and the
/// schema.
pub open spec fn opening_log(nonce: Seq<u8>, schema: Seq<u8>) -> Seq<Entry> {
    seq![
        ("credential presentation"@, Seq::<u8>::empty()),
        ("curve"@, curve_tag()),
        ("generators"@, g1_encoding(1) + g2_encoding(1)),
        ("nonce"@, nonce),
        ("schema"@, schema),
    ]
}

impl PresentationSchema {
    /// The first statement of the given name, if there is one.
    pub open spec fn statement_of(&self, id: Seq<char>) -> Option<Statement> {
        match first_named(statement_names(self.statements@), id) {
            Some(i) => Some(self.statements[i]),
            None => None,
        }
    }
}

impl Presentation {
    /// The first proof of the given name, if there is one.
    pub open spec fn proof_of(&self, id: Seq<char>) -> Option<SubProof> {
        match first_named(proof_names(self.proofs@), id) {
            Some(i) => Some(self.proofs[i]),
            None => None,
        }
    }

    /// The first list of disclosed claims of the given name, if there is one.
    pub open spec fn disclosed_of(&self, id: Seq<char>) -> Option<DisclosedMessages> {
        match first_named(disclosed_names(self.disclosed_messages@), id) {
            Some(i) => Some(self.disclosed_messages[i]),
            None => None,
        }
    }

    /// The response that the proof of the credential `reference_id` holds
    /// for its claim of index `claim`, if the claim is hidden and the
    /// credential's statement, proof and disclosed claims are there.
    pub open spec fn response_of(
        &self,
        schema: &PresentationSchema,
        reference_id: Seq<char>,
        claim: int,
    ) -> Option<nat> {
        match (
            schema.statement_of(reference_id),
            self.proof_of(reference_id),
            self.disclosed_of(reference_id),
        ) {
            (Some(Statement::Signature(ss)), Some(SubProof::Signature(sp)), Some(d)) => {
                if ss.discloses(&d) {
                    linked_response(
                        &sp.pok,
                        ss.revealed(&d),
                        claim,
                        ss.issuer.y_tilde.len() as int,
                    )
                } else {
                    None
                }
            },
            _ => None,
        }
    }

    /// The first response of a proof is the one that the proof of the
    /// credential holds for the claim.
    pub open spec fn linked(
        &self,
        schema: &PresentationSchema,
        proof: &LinearProof,
        reference_id: Seq<char>,
        claim: int,
    ) -> bool {
        proof.responses.len() > 0 && self.response_of(schema, reference_id, claim) == Some(
            proof.responses[0]@,
        )
    }

    /// The relations of the proof of a statement, and their width, where the
    /// proof has the points that the statement asks for.
    pub open spec fn system_of(
        schema: &PresentationSchema,
        st: &Statement,
        points: Seq<nat>,
    ) -> Option<(Seq<RelationLogs>, int)> {
        match st {
            Statement::Commitment(s) => if points.len() == 1 {
                Some((s.system(points), 2))
            } else {
                None
            },
            Statement::VerifiableEncryption(s) => if points.len() == 2 {
                Some((s.system(points), 2))
            } else {
                None
            },
            Statement::VerifiableEncryptionDecryption(s) => if points.len() == 3 {
                Some((s.system(points), 2))
            } else {
                None
            },
            Statement::Membership(s) => if points.len() == 2 {
                Some((s.system(points), 2))
            } else {
                None
            },
            Statement::Revocation(s) => if points.len() == 2 {
                Some((s.system(points), 2))
            } else {
                None
            },
            Statement::Range(s) => match schema.statement_of(s.reference_id@) {
                Some(Statement::Commitment(cs)) => Some(
                    (bit_system(cs.message_generator@, cs.blinder_generator@, points), 3),
                ),
                _ => None,
            },
            _ => None,
        }
    }

    /// The proof of a statement of one of the kinds that are proved by
    /// relations, if it is there and of the statement's kind.
    pub open spec fn linear_proof_of(&self, st: &Statement) -> Option<LinearProof> {
        match (st, self.proof_of(st.name())) {
            (Statement::Commitment(_), Some(SubProof::Commitment(p))) => Some(p),
            (Statement::VerifiableEncryption(_), Some(SubProof::VerifiableEncryption(p))) => Some(
                p,
            ),
            (
                Statement::VerifiableEncryptionDecryption(_),
                Some(SubProof::VerifiableEncryptionDecryption(p)),
            ) => Some(p),
            (Statement::Range(_), Some(SubProof::Range(p))) => Some(p),
            (Statement::Membership(_), Some(SubProof::Membership(p))) => Some(p),
            (Statement::Revocation(_), Some(SubProof::Revocation(p))) => Some(p),
            _ => None,
        }
    }

    /// What the proof of a statement adds to the transcript for the
    /// challenge `c`, if the proof is there and has the shape that the
    /// statement asks for.
    pub open spec fn entries_of(
        &self,
        schema: &PresentationSchema,
        st: &Statement,
        c: nat,
    ) -> Option<Seq<Entry>> {
        match st {
            Statement::Signature(ss) => match (self.proof_of(ss.id@), self.disclosed_of(ss.id@)) {
                (Some(SubProof::Signature(sp)), Some(d)) => if ss.shaped(&sp, &d)
                    && d.encoding().len() <= u32::MAX {
                    Some(ss.entries(&sp, &d, c))
                } else {
                    None
                },
                _ => None,
            },
            Statement::Equality(s) => match self.proof_of(s.id@) {
                Some(SubProof::Equality(_)) => if string_bytes(s.id@).len() <= u32::MAX {
                    Some(seq![("equality"@, string_bytes(s.id@))])
                } else {
                    None
                },
                _ => None,
            },
            _ => match self.linear_proof_of(st) {
                Some(p) => match Self::system_of(schema, st, logs(p.points@)) {
                    Some((relations, width)) => if p.fits(relations, width, c) {
                        Some(p.entries(label_of(st), relations, width, c))
                    } else {
                        None
                    },
                    None => None,
                },
                None => None,
            },
        }
    }

    /// The equations of the proof of a statement hold, and the proof is
    /// about the claims that the statement names.
    pub open spec fn holds_of(&self, schema: &PresentationSchema, st: &Statement) -> bool {
        match st {
            Statement::Signature(ss) => match (self.proof_of(ss.id@), self.disclosed_of(ss.id@)) {
                (Some(SubProof::Signature(sp)), Some(d)) => {
                    &&& ss.discloses(&d)
                    &&& sp.pok.shaped(&ss.issuer, ss.revealed(&d))
                    &&& sp.pok.holds(&ss.issuer, ss.revealed(&d))
                },
                _ => false,
            },
            Statement::Equality(s) => s.references.len() > 0 && forall|k: int|
                0 <= k < s.references.len() ==> {
                    &&& (#[trigger] self.reference_response(schema, s.references[k])) is Some
                    &&& self.reference_response(schema, s.references[k])
                        == self.reference_response(schema, s.references[0])
                },
            Statement::Commitment(s) => match self.linear_proof_of(st) {
                Some(p) => self.linked(schema, &p, s.reference_id@, s.claim as int),
                None => false,
            },
            Statement::VerifiableEncryption(s) => match self.linear_proof_of(st) {
                Some(p) => self.linked(schema, &p, s.reference_id@, s.claim as int),
                None => false,
            },
            Statement::VerifiableEncryptionDecryption(s) => match self.linear_proof_of(st) {
                Some(p) => self.linked(schema, &p, s.reference_id@, s.claim as int),
                None => false,
            },
            Statement::Membership(s) => match self.linear_proof_of(st) {
                Some(p) => p.points.len() == 2 && s.holds(logs(p.points@)) && self.linked(
                    schema,
                    &p,
                    s.reference_id@,
                    s.claim as int,
                ),
                None => false,
            },
            Statement::Revocation(s) => match self.linear_proof_of(st) {
                Some(p) => p.points.len() == 2 && s.holds(logs(p.points@)) && self.linked(
                    schema,
                    &p,
                    s.reference_id@,
                    s.claim as int,
                ),
                None => false,
            },
            Statement::Range(s) => match (
                self.linear_proof_of(st),
                schema.statement_of(s.reference_id@),
                self.proof_of(s.reference_id@),
            ) {
                (
                    Some(p),
                    Some(Statement::Commitment(cs)),
                    Some(SubProof::Commitment(cp)),
                ) => {
                    &&& cs.reference_id@ == s.signature_id@
                    &&& cs.claim == s.claim
                    &&& cp.points.len() == 1
                    &&& range_shaped(s.lower, s.upper, p.points.len() as nat)
                    &&& range_holds(
                        cs.message_generator@,
                        cp.points[0]@,
                        s.lower as nat,
                        s.upper as nat,
                        logs(p.points@),
                    )
                },
                _ => false,
            },
        }
    }

    /// The response that the proofs hold for the claim that a reference names.
    pub open spec fn reference_response(
        &self,
        schema: &PresentationSchema,
        r: ClaimReference,
    ) -> Option<nat> {
        self.response_of(schema, r.reference_id@, r.claim as int)
    }

    /// In which of the three passes over the schema a statement is taken:
    /// signatures first, ranges last.
    pub open spec fn pass_of(st: &Statement) -> int {
        match st {
            Statement::Signature(_) => 0,
            Statement::Range(_) => 2,
            _ => 1,
        }
    }

    /// What the first `k` statements add to the transcript in one pass, if
    /// each of those that the pass takes has its proof in the shape asked for.
    pub open spec fn pass_entries(
        &self,
        schema: &PresentationSchema,
        c: nat,
        pass: int,
        k: int,
    ) -> Option<Seq<Entry>>
        decreases k,
    {
        if k <= 0 {
            Some(Seq::empty())
        } else {
            let st = schema.statements[k - 1];
            match self.pass_entries(schema, c, pass, k - 1) {
                None => None,
                Some(before) => if Self::pass_of(&st) == pass {
                    match self.entries_of(schema, &st, c) {
                        Some(e) => Some(before + e),
                        None => None,
                    }
                } else {
                    Some(before)
                },
            }
        }
    }

    /// All that a transcript holds when the challenge of the presentation
    /// is drawn, if every statement has its proof in the shape asked for.
    pub open spec fn full_log(&self, schema: &PresentationSchema, nonce: Seq<u8>) -> Option<
        Seq<Entry>,
    > {
        let n = schema.statements.len() as int;
        let c = self.challenge@;
        match (
            self.pass_entries(schema, c, 0, n),
            self.pass_entries(schema, c, 1, n),
            self.pass_entries(schema, c, 2, n),
        ) {
            (Some(a), Some(b), Some(d)) => Some(
                opening_log(nonce, schema.encoding()) + a + b + d,
            ),
            _ => None,
        }
    }

    /// The presentation proves the statements of the schema for the
    /// verifier's nonce: the statements have different names; every
    /// statement has its proof, in the shape asked for; the challenge is the
    /// one that the transcript of the verifier gives; and the equations of
    /// every proof hold.
    pub open spec fn verifies(&self, schema: &PresentationSchema, nonce: Seq<u8>) -> bool {
        &&& schema.distinct()
        &&& nonce.len() <= u32::MAX
        &&& schema.encoding().len() <= u32::MAX
        &&& self.full_log(schema, nonce) matches Some(log) && self.challenge@
            == challenge_scalar_of(log, challenge_label())
        &&& forall|i: int|
            0 <= i < schema.statements.len() ==> self.holds_of(
                schema,
                &#[trigger] schema.statements[i],
            )
    }
}

/// A proof of a range that holds has a point for each bit of the two
/// numbers of the range. So a proof that was made for a range of one
/// number of bits is refused for a range of another.
pub proof fn lemma_range_points(p: Presentation, schema: PresentationSchema, st: Statement)
    requires
        st is Range,
        p.holds_of(&schema, &st),
    ensures
        p.linear_proof_of(&st) is Some,
        st matches Statement::Range(s) ==> s.lower <= s.upper && p.linear_proof_of(
            &st,
        ).unwrap().points.len() == 2 * bits_needed((s.upper - s.lower) as nat),
{
}

/// The claim that a statement proves something of, where it is one of the
/// statements about one hidden claim: the name of the credential's statement
/// and the index of the claim.
pub open spec fn subject_of(st: &Statement) -> Option<(Seq<char>, int)> {
    match st {
        Statement::Commitment(s) => Some((s.reference_id@, s.claim as int)),
        Statement::VerifiableEncryption(s) => Some((s.reference_id@, s.claim as int)),
        Statement::VerifiableEncryptionDecryption(s) => Some((s.reference_id@, s.claim as int)),
        Statement::Membership(s) => Some((s.reference_id@, s.claim as int)),
        Statement::Revocation(s) => Some((s.reference_id@, s.claim as int)),
        _ => None,
    }
}

impl PresentationSchema {
    /// Statement `i` is about a claim that it cannot be proved of: the
    /// statement that it refers to is no signature statement, or has no
    /// such claim, or discloses the claim.
    pub open spec fn misplaced(&self, i: int) -> bool {
        match subject_of(&self.statements[i]) {
            Some(subject) => match self.statement_of(subject.0) {
                Some(Statement::Signature(ss)) => subject.1 + 1 >= ss.issuer.y_tilde.len()
                    || ss.disclosed@.contains(subject.1 as usize),
                _ => true,
            },
            None => false,
        }
    }

    /// Some statement is about a claim that it cannot be proved of.
    pub open spec fn has_misplaced(&self) -> bool {
        exists|i: int| 0 <= i < self.statements.len() && #[trigger] self.misplaced(i)
    }
}

/// A presentation proves nothing of a claim that it discloses, nor of a
/// claim that the credential does not have: where the equations of the
/// proof of a statement about a claim hold, the statement refers to a
/// signature statement which has the claim and does not disclose it.
pub proof fn lemma_subject_hidden(p: Presentation, schema: PresentationSchema, i: int)
    requires
        0 <= i < schema.statements.len(),
        p.holds_of(&schema, &schema.statements[i]),
    ensures
        !schema.misplaced(i),
{
    let st = schema.statements[i];
    match subject_of(&st) {
        None => {},
        Some(subject) => {
            let linked = p.response_of(&schema, subject.0, subject.1);
            assert(linked is Some) by {
                match st {
                    Statement::Commitment(s) => {},
                    Statement::VerifiableEncryption(s) => {},
                    Statement::VerifiableEncryptionDecryption(s) => {},
                    Statement::Membership(s) => {},
                    Statement::Revocation(s) => {},
                    _ => {},
                }
            }
            match (
                schema.statement_of(subject.0),
                p.proof_of(subject.0),
                p.disclosed_of(subject.0),
            ) {
                (Some(Statement::Signature(ss)), Some(SubProof::Signature(sp)), Some(d)) => {
                    let revealed = ss.revealed(&d);
                    assert(!crate::ps::positions::occurs(revealed, subject.1 + 1));
                    if ss.disclosed@.contains(subject.1 as usize) {
                        let k = choose|k: int|
                            0 <= k < ss.disclosed.len() && ss.disclosed[k] == subject.1 as usize;
                        assert(revealed[k].0 == subject.1 + 1);
                    }
                },
                _ => {},
            }
        },
    }
}

/// The label under which the proof of a statement enters the transcript.
pub open spec fn label_of(st: &Statement) -> Seq<char> {
    match st {
        Statement::Signature(_) => "signature"@,
        Statement::Equality(_) => "equality"@,
        Statement::Commitment(_) => "commitment"@,
        Statement::VerifiableEncryption(_) => "verifiable encryption"@,
        Statement::VerifiableEncryptionDecryption(_) => "verifiable encryption decryption"@,
        Statement::Range(_) => "range"@,
        Statement::Membership(_) => "membership"@,
        Statement::Revocation(_) => "revocation"@,
    }
}

} // verus!
