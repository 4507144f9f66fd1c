//! Checking a presentation against a schema and a nonce.

use vstd::prelude::*;
use merlin::Transcript;
use crate::bytes::{append_bytes, append_string, same_string, string_bytes};
use crate::error::Error;
use crate::field::Scalar;
use crate::g1::G1Point;
use crate::g2::G2Point;
use crate::group::logs;
use crate::presentation::linear::{LinearProof, system_shaped, views};
use crate::presentation::parts::{Presentation, SubProof};
use crate::presentation::range::{bit_relations, check_range};
use crate::presentation::rules::{curve_tag, label_of, opening_log};
use crate::presentation::statement::{PresentationSchema, Statement};
use crate::ps::pok::response_for;
use crate::relation::Relation;
use crate::transcript::{absorb, challenge_scalar, transcript_log, transcript_new};

verus! {

/// Begins the transcript of a presentation: the curve, the generators of
/// the two groups, the verifier's nonce and the schema. There is none for a
/// nonce or a schema longer than a transcript takes.
pub fn open_transcript(nonce: &[u8], schema: &PresentationSchema) -> (r: Result<
    Transcript,
    Error,
>)
    ensures
        r.is_ok() == (nonce@.len() <= u32::MAX && schema.encoding().len() <= u32::MAX),
        r matches Ok(t) ==> transcript_log(t) == opening_log(nonce@, schema.encoding()),
        r matches Err(e) ==> e == Error::InvalidPresentationData,
{
    let mut nonce_bytes: Vec<u8> = Vec::new();
    append_bytes(&mut nonce_bytes, nonce);
    let schema_bytes = schema.to_bytes();
    if nonce_bytes.len() > 0xffff_ffff || schema_bytes.len() > 0xffff_ffff {
        return Err(Error::InvalidPresentationData);
    }
    let mut transcript = transcript_new("credential presentation");
    let curve: Vec<u8> = vec![66u8, 76u8, 83u8, 49u8, 50u8, 45u8, 51u8, 56u8, 49u8];
    let mut generators: Vec<u8> = Vec::new();
    let g1 = G1Point::generator();
    let g2 = G2Point::generator();
    proof {
        use_type_invariant(&g1);
        use_type_invariant(&g2);
        g1.lemma_log();
        g2.lemma_log();
        assert(curve@ =~= curve_tag());
    }
    append_bytes(&mut generators, g1.to_bytes().as_slice());
    append_bytes(&mut generators, g2.to_bytes().as_slice());
    let a = absorb(&mut transcript, "curve", &curve);
    let b = absorb(&mut transcript, "generators", &generators);
    let c = absorb(&mut transcript, "nonce", &nonce_bytes);
    let d = absorb(&mut transcript, "schema", &schema_bytes);
    proof {
        assert(nonce_bytes@ =~= nonce@);
        assert(transcript_log(transcript) =~= opening_log(nonce@, schema.encoding()));
    }
    Ok(transcript)
}

impl Presentation {
    /// The proof of a statement of one of the kinds that are proved by
    /// relations, if it is there and of the statement's kind.
    pub fn linear_proof(&self, st: &Statement) -> (r: Option<&LinearProof>)
        ensures
            r matches Some(p) ==> self.linear_proof_of(st) == Some(*p),
            r is None ==> self.linear_proof_of(st) is None,
    {
        match self.find_proof(st.id()) {
            None => None,
            Some(i) => match (st, &self.proofs[i]) {
                (Statement::Commitment(_), SubProof::Commitment(p)) => Some(p),
                (Statement::VerifiableEncryption(_), SubProof::VerifiableEncryption(p)) => Some(p),
                (
                    Statement::VerifiableEncryptionDecryption(_),
                    SubProof::VerifiableEncryptionDecryption(p),
                ) => Some(p),
                (Statement::Range(_), SubProof::Range(p)) => Some(p),
                (Statement::Membership(_), SubProof::Membership(p)) => Some(p),
                (Statement::Revocation(_), SubProof::Revocation(p)) => Some(p),
                _ => None,
            },
        }
    }

    /// The relations of the proof of a statement, and their width, where
    /// the proof has the points that the statement asks for.
    pub fn relations_for(schema: &PresentationSchema, st: &Statement, points: &Vec<G1Point>) -> (r:
        Option<(Vec<Relation>, usize)>)
        ensures
            r matches Some(found) ==> Self::system_of(schema, st, logs(points@)) == Some(
                (views(found.0@), found.1 as int),
            ) && system_shaped(views(found.0@), found.1 as int),
            r is None ==> Self::system_of(schema, st, logs(points@)) is None,
    {
        match st {
            Statement::Commitment(s) => match s.relations(points) {
                Ok(v) => Some((v, 2)),
                Err(_) => None,
            },
            Statement::VerifiableEncryption(s) => match s.relations(points) {
                Ok(v) => Some((v, 2)),
                Err(_) => None,
            },
            Statement::VerifiableEncryptionDecryption(s) => match s.relations(points) {
                Ok(v) => Some((v, 2)),
                Err(_) => None,
            },
            Statement::Membership(s) => match s.relations(points) {
                Ok(v) => Some((v, 2)),
                Err(_) => None,
            },
            Statement::Revocation(s) => match s.relations(points) {
                Ok(v) => Some((v, 2)),
                Err(_) => None,
            },
            Statement::Range(s) => match schema.find(&s.reference_id) {
                None => None,
                Some(i) => match &schema.statements[i] {
                    Statement::Commitment(cs) => Some(
                        (bit_relations(&cs.message_generator, &cs.blinder_generator, points), 3),
                    ),
                    _ => None,
                },
            },
            _ => None,
        }
    }

    /// Adds what the proof of a statement adds to the transcript. There is
    /// an error where the proof is not there or not in the shape that the
    /// statement asks for.
    pub fn absorb_statement(
        &self,
        schema: &PresentationSchema,
        st: &Statement,
        transcript: &mut Transcript,
    ) -> (r: Result<(), Error>)
        ensures
            r.is_ok() == self.entries_of(schema, st, self.challenge@).is_some(),
            r is Ok ==> transcript_log(*final(transcript)) == transcript_log(*old(transcript))
                + self.entries_of(schema, st, self.challenge@).unwrap(),
            r matches Err(e) ==> e == Error::InvalidPresentationData || e
                == Error::InvalidKeyGeneration,
    {
        match st {
            Statement::Signature(ss) => {
                match (self.find_proof(&ss.id), self.find_disclosed(&ss.id)) {
                    (Some(pi), Some(di)) => match &self.proofs[pi] {
                        SubProof::Signature(sp) => {
                            match ss.absorb_proof(
                                sp,
                                &self.disclosed_messages[di],
                                &self.challenge,
                                transcript,
                            ) {
                                Ok(_) => Ok(()),
                                Err(e) => Err(e),
                            }
                        },
                        _ => Err(Error::InvalidPresentationData),
                    },
                    _ => Err(Error::InvalidPresentationData),
                }
            },
            Statement::Equality(s) => {
                match self.find_proof(&s.id) {
                    Some(pi) => match &self.proofs[pi] {
                        SubProof::Equality(_) => {
                            let mut bytes: Vec<u8> = Vec::new();
                            append_string(&mut bytes, &s.id);
                            assert(bytes@ =~= string_bytes(s.id@));
                            let ghost before = transcript_log(*transcript);
                            let r = absorb(transcript, "equality", &bytes);
                            proof {
                                if r is Ok {
                                    assert(transcript_log(*transcript) =~= before + seq![
                                        ("equality"@, string_bytes(s.id@)),
                                    ]);
                                }
                            }
                            r
                        },
                        _ => Err(Error::InvalidPresentationData),
                    },
                    None => Err(Error::InvalidPresentationData),
                }
            },
            _ => {
                match self.linear_proof(st) {
                    None => Err(Error::InvalidPresentationData),
                    Some(p) => match Self::relations_for(schema, st, &p.points) {
                        None => Err(Error::InvalidPresentationData),
                        Some(found) => {
                            let label = match st {
                                Statement::Commitment(_) => "commitment",
                                Statement::VerifiableEncryption(_) => "verifiable encryption",
                                Statement::VerifiableEncryptionDecryption(_) =>
                                    "verifiable encryption decryption",
                                Statement::Range(_) => "range",
                                Statement::Membership(_) => "membership",
                                _ => "revocation",
                            };
                            assert(label@ == label_of(st));
                            p.add_proof_contribution(
                                label,
                                &found.0,
                                found.1,
                                &self.challenge,
                                transcript,
                            )
                        },
                    },
                }
            },
        }
    }

    /// The response that the proof of the credential `reference_id` holds
    /// for its claim of index `claim`, if there is one.
    pub fn response(&self, schema: &PresentationSchema, reference_id: &String, claim: usize) -> (r:
        Option<Scalar>)
        ensures
            r.is_some() == self.response_of(schema, reference_id@, claim as int).is_some(),
            r matches Some(s) ==> Some(s@) == self.response_of(
                schema,
                reference_id@,
                claim as int,
            ),
    {
        match (
            schema.find(reference_id),
            self.find_proof(reference_id),
            self.find_disclosed(reference_id),
        ) {
            (Some(si), Some(pi), Some(di)) => match (&schema.statements[si], &self.proofs[pi]) {
                (Statement::Signature(ss), SubProof::Signature(sp)) => {
                    match ss.revealed_messages(&self.disclosed_messages[di]) {
                        Ok(revealed) => response_for(
                            &sp.pok,
                            revealed.as_slice(),
                            claim,
                            ss.issuer.y_tilde.len(),
                        ),
                        Err(_) => None,
                    }
                },
                _ => None,
            },
            _ => None,
        }
    }

    /// Whether the first response of a proof is the one that the proof of
    /// the credential holds for the claim.
    pub fn is_linked(
        &self,
        schema: &PresentationSchema,
        proof: &LinearProof,
        reference_id: &String,
        claim: usize,
    ) -> (r: bool)
        ensures
            r == self.linked(schema, proof, reference_id@, claim as int),
    {
        if proof.responses.len() == 0 {
            return false;
        }
        match self.response(schema, reference_id, claim) {
            Some(s) => s.eq(&proof.responses[0]),
            None => false,
        }
    }

    /// Whether the equations of the proof of a statement hold, and the
    /// proof is about the claims that the statement names.
    pub fn check_statement(&self, schema: &PresentationSchema, st: &Statement) -> (r: bool)
        ensures
            r == self.holds_of(schema, st),
    {
        match st {
            Statement::Signature(ss) => {
                match (self.find_proof(&ss.id), self.find_disclosed(&ss.id)) {
                    (Some(pi), Some(di)) => match &self.proofs[pi] {
                        SubProof::Signature(sp) => {
                            match ss.revealed_messages(&self.disclosed_messages[di]) {
                                Ok(revealed) => match sp.pok.verify(
                                    revealed.as_slice(),
                                    &ss.issuer,
                                ) {
                                    Ok(_) => true,
                                    Err(_) => false,
                                },
                                Err(_) => false,
                            }
                        },
                        _ => false,
                    },
                    _ => false,
                }
            },
            Statement::Equality(s) => {
                if s.references.len() == 0 {
                    return false;
                }
                let first = self.response(
                    schema,
                    &s.references[0].reference_id,
                    s.references[0].claim,
                );
                let mut k: usize = 0;
                while k < s.references.len()
                    invariant
                        k <= s.references.len(),
                        s.references.len() > 0,
                        *st == Statement::Equality(*s),
                        first.is_some() == self.reference_response(
                            schema,
                            s.references[0],
                        ).is_some(),
                        first matches Some(f) ==> Some(f@) == self.reference_response(
                            schema,
                            s.references[0],
                        ),
                        forall|j: int|
                            0 <= j < k ==> {
                                &&& (#[trigger] self.reference_response(
                                    schema,
                                    s.references[j],
                                )) is Some
                                &&& self.reference_response(schema, s.references[j])
                                    == self.reference_response(schema, s.references[0])
                            },
                    decreases s.references.len() - k,
                {
                    let this = self.response(
                        schema,
                        &s.references[k].reference_id,
                        s.references[k].claim,
                    );
                    match (this, first) {
                        (Some(a), Some(b)) => {
                            if !a.eq(&b) {
                                assert(self.reference_response(schema, s.references[k as int])
                                    != self.reference_response(schema, s.references[0]));
                                return false;
                            }
                        },
                        _ => {
                            assert(!(self.reference_response(schema, s.references[k as int])
                                is Some) || !(self.reference_response(
                                schema,
                                s.references[0],
                            ) is Some));
                            return false;
                        },
                    }
                    k += 1;
                }
                true
            },
            Statement::Commitment(s) => match self.linear_proof(st) {
                Some(p) => self.is_linked(schema, p, &s.reference_id, s.claim),
                None => false,
            },
            Statement::VerifiableEncryption(s) => match self.linear_proof(st) {
                Some(p) => self.is_linked(schema, p, &s.reference_id, s.claim),
                None => false,
            },
            Statement::VerifiableEncryptionDecryption(s) => match self.linear_proof(st) {
                Some(p) => self.is_linked(schema, p, &s.reference_id, s.claim),
                None => false,
            },
            Statement::Membership(s) => match self.linear_proof(st) {
                Some(p) => s.check(&p.points) && self.is_linked(
                    schema,
                    p,
                    &s.reference_id,
                    s.claim,
                ),
                None => false,
            },
            Statement::Revocation(s) => match self.linear_proof(st) {
                Some(p) => s.check(&p.points) && self.is_linked(
                    schema,
                    p,
                    &s.reference_id,
                    s.claim,
                ),
                None => false,
            },
            Statement::Range(s) => {
                match (
                    self.linear_proof(st),
                    schema.find(&s.reference_id),
                    self.find_proof(&s.reference_id),
                ) {
                    (Some(p), Some(ci), Some(cpi)) => match (
                        &schema.statements[ci],
                        &self.proofs[cpi],
                    ) {
                        (Statement::Commitment(cs), SubProof::Commitment(cp)) => {
                            if !same_string(&cs.reference_id, &s.signature_id) || cs.claim
                                != s.claim || cp.points.len() != 1 {
                                return false;
                            }
                            check_range(
                                &cs.message_generator,
                                &cp.points[0],
                                s.lower,
                                s.upper,
                                &p.points,
                            )
                        },
                        _ => false,
                    },
                    _ => false,
                }
            },
        }
    }
}

/// In which of the three passes over the schema a statement is taken.
pub fn pass_number(st: &Statement) -> (r: u8)
    ensures
        r as int == Presentation::pass_of(st),
{
    match st {
        Statement::Signature(_) => 0,
        Statement::Range(_) => 2,
        _ => 1,
    }
}

impl Presentation {
    /// Once the proof of a statement that a pass takes is missing, the
    /// pass has no entries, however many statements follow.
    pub proof fn lemma_pass_none(
        &self,
        schema: &PresentationSchema,
        c: nat,
        pass: int,
        k: int,
        n: int,
    )
        requires
            0 <= k <= n,
            self.pass_entries(schema, c, pass, k) is None,
        ensures
            self.pass_entries(schema, c, pass, n) is None,
        decreases n - k,
    {
        if k < n {
            self.lemma_pass_none(schema, c, pass, k, n - 1);
        }
    }

    /// Adds to the transcript what the proofs of the statements of one
    /// pass add, in the order of the schema.
    pub fn absorb_pass(
        &self,
        schema: &PresentationSchema,
        pass: u8,
        transcript: &mut Transcript,
    ) -> (r: Result<(), Error>)
        ensures
            r.is_ok() == self.pass_entries(
                schema,
                self.challenge@,
                pass as int,
                schema.statements.len() as int,
            ).is_some(),
            r is Ok ==> transcript_log(*final(transcript)) == transcript_log(*old(transcript))
                + self.pass_entries(
                schema,
                self.challenge@,
                pass as int,
                schema.statements.len() as int,
            ).unwrap(),
            r matches Err(e) ==> e == Error::InvalidPresentationData || e
                == Error::InvalidKeyGeneration,
    {
        let ghost start = transcript_log(*transcript);
        let ghost c = self.challenge@;
        let n = schema.statements.len();
        let mut k: usize = 0;
        assert(start =~= start + Seq::<crate::transcript::Entry>::empty());
        while k < n
            invariant
                k <= n,
                n == schema.statements.len(),
                c == self.challenge@,
                self.pass_entries(schema, c, pass as int, k as int) is Some,
                transcript_log(*transcript) == start + self.pass_entries(
                    schema,
                    c,
                    pass as int,
                    k as int,
                ).unwrap(),
            decreases n - k,
        {
            let st = &schema.statements[k];
            if pass_number(st) == pass {
                let ghost before = transcript_log(*transcript);
                match self.absorb_statement(schema, st, transcript) {
                    Err(e) => {
                        proof {
                            assert(self.pass_entries(schema, c, pass as int, k + 1) is None);
                            self.lemma_pass_none(schema, c, pass as int, k + 1, n as int);
                        }
                        return Err(e);
                    },
                    Ok(_) => {
                        proof {
                            let e = self.entries_of(schema, st, c).unwrap();
                            let acc = self.pass_entries(schema, c, pass as int, k as int).unwrap();
                            assert(start + acc + e =~= start + (acc + e));
                        }
                    },
                }
            }
            k += 1;
        }
        Ok(())
    }

    /// Checks the presentation against the schema and the verifier's nonce.
    pub fn check(&self, schema: &PresentationSchema, nonce: &[u8]) -> (r: Result<(), Error>)
        ensures
            r.is_ok() == self.verifies(schema, nonce@),
            r matches Err(e) ==> e == Error::InvalidPresentationData || e
                == Error::InvalidKeyGeneration || e == Error::ProofVerificationFailed,
    {
        if !schema.has_distinct_ids() {
            return Err(Error::InvalidPresentationData);
        }
        let mut transcript = match open_transcript(nonce, schema) {
            Ok(t) => t,
            Err(e) => {
                return Err(e);
            },
        };
        let ghost n = schema.statements.len() as int;
        let ghost c = self.challenge@;
        match self.absorb_pass(schema, 0, &mut transcript) {
            Err(e) => {
                return Err(e);
            },
            Ok(_) => {},
        }
        match self.absorb_pass(schema, 1, &mut transcript) {
            Err(e) => {
                return Err(e);
            },
            Ok(_) => {},
        }
        match self.absorb_pass(schema, 2, &mut transcript) {
            Err(e) => {
                return Err(e);
            },
            Ok(_) => {},
        }
        proof {
            assert(transcript_log(transcript) =~= self.full_log(schema, nonce@).unwrap());
        }
        let derived = challenge_scalar(transcript, "challenge bytes");
        if !derived.eq(&self.challenge) {
            return Err(Error::ProofVerificationFailed);
        }
        let mut i: usize = 0;
        while i < schema.statements.len()
            invariant
                i <= schema.statements.len(),
                forall|j: int|
                    0 <= j < i ==> self.holds_of(schema, &#[trigger] schema.statements[j]),
            decreases schema.statements.len() - i,
        {
            if !self.check_statement(schema, &schema.statements[i]) {
                return Err(Error::ProofVerificationFailed);
            }
            i += 1;
        }
        Ok(())
    }

    /// Whether the presentation proves the statements of the schema for
    /// the verifier's nonce.
    pub fn verify(&self, schema: &PresentationSchema, nonce: &[u8]) -> (r: bool)
        ensures
            r == self.verifies(schema, nonce@),
    {
        match self.check(schema, nonce) {
            Ok(_) => true,
            Err(_) => false,
        }
    }
}

} // verus!
