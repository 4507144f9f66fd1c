//! Making a presentation.
//!
//! The statements of the schema are taken in three passes, each in the
//! order of the schema: the signature statements, then the other statements
//! but the ranges, then the ranges, which need the commitments that they
//! are about. Every proof commits into one transcript; the challenge is
//! drawn from it once; every proof then answers that challenge.

use vstd::prelude::*;
use merlin::Transcript;
use rand_core::OsRng;
use crate::bytes::{append_string, same_string, string_bytes};
use crate::codec::{Codec, models};
use crate::error::Error;
use crate::field::{os_rng, Scalar};
use crate::g1::G1Point;
use crate::group::{logs, values};
use crate::presentation::claim::ClaimData;
use crate::presentation::completeness::{
    answered, answers, claim_values, claims_equal, extends, in_range, lemma_claims_equal,
    lemma_created, lemma_sealed_kept, lemma_trail_stable, linear_made, linear_trail, pass_trail,
    sealed, signature_made, signature_trail, trail_of,
};
use crate::presentation::encoding::DisclosedModel;
use crate::presentation::credential::{
    credential_names, find_credential, NamedCredential, PresentationCredential,
    SignatureCredential,
};
use crate::presentation::linear::{linear_room, LinearBuilder, slice, views};
use crate::presentation::membership::witness_valid;
use crate::presentation::lookup::{first_named, lemma_first};
use crate::presentation::order::{lemma_rank_grows, ordered_names, pass_names, place, rank};
use crate::presentation::parts::{
    disclosed_names, DisclosedClaim, DisclosedMessages, EqualityProof, Presentation, proof_names,
    SignatureProof, SubProof,
};
use crate::presentation::range::{range_holds, range_shaped};
use crate::presentation::rules::{lemma_subject_hidden, subject_of};
use crate::presentation::statement::{
    EqualityStatement, MembershipStatement, PresentationSchema, RangeStatement,
    SignatureStatement, Statement, statement_names,
};
use crate::presentation::tables::{
    blinded, blinded_by, build_tables, cell, credentials_fit, equality_ready, lemma_cell_same,
    lemma_ready_same, lemma_same_claims, lemma_share_refusal, lemma_subject_refusal, message_at,
    row_fits, rows, same_claims, share_blinders, share_refusal, shareable, shares,
    signature_count, signed_credential, subject_hidden, subject_refusal,
};
use crate::presentation::verify::{open_transcript, pass_number};
use crate::ps::pok::PokSignature;
use crate::ps::proof_message::{message_values, ProofMessage};
use crate::schnorr::responses;
use crate::transcript::{absorb, challenge_scalar, Entry, transcript_log};

verus! {

/// The prover's side of the proof of one statement, before the challenge.
pub enum Builder {
    /// Of knowledge of a signature.
    Signature(String, PokSignature),
    /// Of equality of claims.
    Equality(String),
    /// Of a statement that is proved by relations, with the number of its kind.
    Linear(u64, LinearBuilder),
}

impl Builder {
    /// The name of the statement that is proved.
    pub open spec fn name(&self) -> Seq<char> {
        match self {
            Builder::Signature(id, _) => id@,
            Builder::Equality(id) => id@,
            Builder::Linear(_, b) => b.id@,
        }
    }

    /// The number of the kind of the statement that is proved.
    pub open spec fn kind(&self) -> u64 {
        match self {
            Builder::Signature(_, _) => 0,
            Builder::Equality(_) => 1,
            Builder::Linear(kind, _) => *kind,
        }
    }

    /// The builder can answer: a proof of knowledge has a secret for each
    /// blinder, and a proof by relations is of one of the kinds that are
    /// proved so.
    pub open spec fn complete(&self) -> bool {
        match self {
            Builder::Signature(_, pok) => pok.secrets.len() == pok.committer.bases().len(),
            Builder::Equality(_) => true,
            Builder::Linear(kind, _) => 2 <= *kind <= 7,
        }
    }

    /// Answers the challenge.
    pub fn gen_proof(&self, challenge: &Scalar) -> (r: Result<SubProof, Error>)
        ensures
            r.is_ok() == self.complete(),
            r matches Ok(p) ==> p.name() == self.name() && p.kind() == self.kind(),
            r matches Ok(p) ==> (self matches Builder::Signature(_, pok)
                ==> p matches SubProof::Signature(sp) && sp.pok.sigma_1 == pok.sigma_1
                && sp.pok.sigma_2 == pok.sigma_2 && sp.pok.commitment == pok.commitment
                && values(sp.pok.proof@) == responses(
                pok.committer.blinders(),
                challenge@,
                values(pok.secrets@),
            )),
            r matches Ok(p) ==> (self matches Builder::Linear(_, b) ==> p.firsts() == b.points@
                && (b.blinders.len() == b.secrets.len() ==> values(p.scalars()) == responses(
                values(b.blinders@),
                challenge@,
                values(b.secrets@),
            ))),
            r matches Err(e) ==> e == Error::InvalidPresentationData,
    {
        match self {
            Builder::Signature(id, pok) => match pok.generate_proof(challenge) {
                Ok(proof) => Ok(SubProof::Signature(SignatureProof { id: id.clone(), pok: proof })),
                Err(e) => Err(e),
            },
            Builder::Equality(id) => Ok(SubProof::Equality(EqualityProof { id: id.clone() })),
            Builder::Linear(kind, b) => {
                let proof = b.generate_proof(challenge);
                if *kind == 2 {
                    Ok(SubProof::Commitment(proof))
                } else if *kind == 3 {
                    Ok(SubProof::VerifiableEncryption(proof))
                } else if *kind == 4 {
                    Ok(SubProof::VerifiableEncryptionDecryption(proof))
                } else if *kind == 5 {
                    Ok(SubProof::Range(proof))
                } else if *kind == 6 {
                    Ok(SubProof::Membership(proof))
                } else if *kind == 7 {
                    Ok(SubProof::Revocation(proof))
                } else {
                    Err(Error::InvalidPresentationData)
                }
            },
        }
    }
}

/// The names of the statements for which the builders are.
pub open spec fn builder_names(builders: Seq<Builder>) -> Seq<Seq<char>> {
    builders.map_values(|b: Builder| b.name())
}

/// The claims of the signed credential of the given name, if there is one.
pub open spec fn signed_claims(credentials: Seq<NamedCredential>, id: Seq<char>) -> Option<
    Seq<ClaimData>,
> {
    match signed_credential(credentials, id) {
        Some(c) => Some(c.claims@),
        None => None,
    }
}

/// A name and the claims that are disclosed under it.
pub type Shown = (Seq<char>, Seq<ClaimData>);

/// The name of a list of disclosed claims, and the claims.
pub open spec fn shown(d: DisclosedMessages) -> Shown {
    (d.id@, d.claims@.map_values(|c: DisclosedClaim| c.claim))
}

/// What a signature statement discloses of the credential of its name:
/// the claims at the indices that it lists.
pub open spec fn disclosure(credentials: Seq<NamedCredential>, ss: &SignatureStatement) -> Shown {
    (
        ss.id@,
        Seq::new(
            ss.disclosed.len() as nat,
            |k: int| signed_claims(credentials, ss.id@).unwrap()[ss.disclosed[k] as int],
        ),
    )
}

/// What the signature statements among the first `k` statements disclose
/// of their credentials, in order.
pub open spec fn disclosures(
    credentials: Seq<NamedCredential>,
    statements: Seq<Statement>,
    k: int,
) -> Seq<Shown>
    decreases k,
{
    if k <= 0 {
        Seq::empty()
    } else {
        match statements[k - 1] {
            Statement::Signature(ss) => disclosures(credentials, statements, k - 1).push(
                disclosure(credentials, &ss),
            ),
            _ => disclosures(credentials, statements, k - 1),
        }
    }
}

impl SignatureStatement {
    /// The claims that the statement discloses, each under its label.
    /// Every index that the statement lists must be that of a claim and of
    /// a label.
    pub fn disclose(&self, claims: &Vec<ClaimData>) -> (r: Result<DisclosedMessages, Error>)
        ensures
            r.is_ok() == (forall|k: int|
                0 <= k < self.disclosed.len() ==> (#[trigger] self.disclosed[k]) < claims.len()
                    && self.disclosed[k] < self.labels.len()),
            r matches Ok(d) ==> d.id@ == self.id@ && self.discloses(&d) && forall|k: int|
                0 <= k < self.disclosed.len() ==> (#[trigger] d.claims[k]).claim
                    == claims[self.disclosed[k] as int],
            r matches Err(e) ==> e == Error::InvalidPresentationData,
    {
        let mut out: Vec<DisclosedClaim> = Vec::new();
        let mut k: usize = 0;
        while k < self.disclosed.len()
            invariant
                k <= self.disclosed.len(),
                out.len() == k,
                forall|j: int|
                    0 <= j < k ==> (#[trigger] self.disclosed[j]) < claims.len()
                        && self.disclosed[j] < self.labels.len(),
                forall|j: int|
                    0 <= j < k ==> (#[trigger] out[j]).claim == claims[self.disclosed[j] as int]
                        && out[j].label@ == self.labels[self.disclosed[j] as int]@,
            decreases self.disclosed.len() - k,
        {
            let index = self.disclosed[k];
            if index >= claims.len() || index >= self.labels.len() {
                return Err(Error::InvalidPresentationData);
            }
            out.push(DisclosedClaim { label: self.labels[index].clone(), claim: claims[index] });
            k += 1;
        }
        Ok(DisclosedMessages { id: self.id.clone(), claims: out })
    }
}

/// The signed credential of the given name, if there is one.
fn signed<'a>(credentials: &'a Vec<NamedCredential>, id: &String) -> (r: Result<
    &'a SignatureCredential,
    Error,
>)
    ensures
        r.is_ok() == signed_credential(credentials@, id@).is_some(),
        r matches Ok(c) ==> signed_credential(credentials@, id@) == Some(*c),
        r matches Err(e) ==> e == Error::InvalidPresentationData,
{
    match find_credential(credentials, id) {
        None => Err(Error::InvalidPresentationData),
        Some(k) => match &credentials[k].credential {
            PresentationCredential::Signature(c) => Ok(c),
            _ => Err(Error::InvalidPresentationData),
        },
    }
}

/// The message and the blinder of a hidden claim that a statement is
/// about. The claim must have been given a blinder of its own.
fn shared(
    schema: &PresentationSchema,
    tables: &Vec<Vec<ProofMessage>>,
    reference_id: &String,
    claim: usize,
) -> (r: Result<(Scalar, Scalar), Error>)
    requires
        tables.len() == schema.statements.len(),
    ensures
        r.is_ok() == (cell(schema, rows(tables@), reference_id@, claim as int) matches Some(
            ProofMessage::HiddenExternalBlinding(_, _),
        )),
        r matches Ok(found) ==> blinded_by(
            cell(schema, rows(tables@), reference_id@, claim as int),
            found.0@,
            found.1@,
        ),
        r matches Err(e) ==> e == Error::InvalidPresentationData || e == Error::InvalidClaimData,
{
    match message_at(schema, tables, reference_id, claim) {
        Err(e) => Err(e),
        Ok(found) => match found.1 {
            ProofMessage::HiddenExternalBlinding(m, b) => Ok((m, b)),
            _ => Err(Error::InvalidPresentationData),
        },
    }
}

/// The scalars that are signed for the claims.
fn scalars_of(claims: &Vec<ClaimData>) -> (r: Vec<Scalar>)
    ensures
        values(r@) == claim_values(claims@),
{
    let mut out: Vec<Scalar> = Vec::new();
    let mut j: usize = 0;
    while j < claims.len()
        invariant
            j <= claims.len(),
            out.len() == j,
            forall|k: int| 0 <= k < j ==> (#[trigger] out[k])@ == claims[k].value(),
        decreases claims.len() - j,
    {
        out.push(claims[j].to_scalar());
        j += 1;
    }
    assert(values(out@) =~= claim_values(claims@));
    out
}

/// What is written of the claims that a signature statement discloses of
/// the credential of its name: the statement's name, and each disclosed
/// claim under its label.
pub open spec fn disclosed_model(
    credentials: Seq<NamedCredential>,
    ss: &SignatureStatement,
) -> DisclosedModel {
    (
        ss.id@,
        Seq::new(
            ss.disclosed.len() as nat,
            |k: int|
                (
                    ss.labels[ss.disclosed[k] as int]@,
                    signed_claims(credentials, ss.id@).unwrap()[ss.disclosed[k] as int].model(),
                ),
        ),
    )
}

/// Whether the proof of a signature statement can be begun: the signature
/// of the credential of its name holds for the credential's claims under
/// the issuer's key, the key is well formed, and the disclosed claims are
/// written in no more bytes than a transcript takes.
pub open spec fn sealable(credentials: Seq<NamedCredential>, ss: &SignatureStatement) -> bool {
    signed_credential(credentials, ss.id@) matches Some(c) && {
        &&& c.signature.verifies(&ss.issuer, claim_values(c.claims@))
        &&& ss.issuer.well_formed()
        &&& <DisclosedMessages as Codec>::encode(disclosed_model(credentials, ss)).len()
            <= u32::MAX
    }
}

/// The error with which the proof of a signature statement is refused
/// where it cannot be begun: `InvalidSignature` where the credential's
/// signature does not hold, else `InvalidKeyGeneration` where the key is
/// not well formed, else `InvalidPresentationData`.
pub open spec fn seal_error(credentials: Seq<NamedCredential>, ss: &SignatureStatement) -> Error {
    match signed_credential(credentials, ss.id@) {
        Some(c) => if !c.signature.verifies(&ss.issuer, claim_values(c.claims@)) {
            Error::InvalidSignature
        } else if !ss.issuer.well_formed() {
            Error::InvalidKeyGeneration
        } else {
            Error::InvalidPresentationData
        },
        None => Error::InvalidPresentationData,
    }
}

/// The error of the first signature statement among the first `k`
/// statements whose proof cannot be begun, if there is one.
pub open spec fn first_refusal(
    credentials: Seq<NamedCredential>,
    statements: Seq<Statement>,
    k: int,
) -> Option<Error>
    decreases k,
{
    if k <= 0 {
        None
    } else {
        match first_refusal(credentials, statements, k - 1) {
            Some(e) => Some(e),
            None => match statements[k - 1] {
                Statement::Signature(ss) => if sealable(credentials, &ss) {
                    None
                } else {
                    Some(seal_error(credentials, &ss))
                },
                _ => None,
            },
        }
    }
}

/// The first refusal among some statements is the first among more.
pub proof fn lemma_refusal_stays(
    credentials: Seq<NamedCredential>,
    statements: Seq<Statement>,
    k: int,
    n: int,
)
    requires
        0 <= k <= n,
        first_refusal(credentials, statements, k) is Some,
    ensures
        first_refusal(credentials, statements, n) == first_refusal(credentials, statements, k),
    decreases n - k,
{
    if k < n {
        lemma_refusal_stays(credentials, statements, k, n - 1);
    }
}

/// Begins the proof of a signature statement: checks the credential's
/// signature and the issuer's key, discloses the claims that the statement
/// asks for, and begins the proof of knowledge of the signature, adding
/// both to the transcript. Where it refuses, the transcript is as it was.
fn seal_signature(
    credentials: &Vec<NamedCredential>,
    ss: &SignatureStatement,
    row: &Vec<ProofMessage>,
    rng: &mut OsRng,
    transcript: &mut Transcript,
) -> (r: Result<(PokSignature, DisclosedMessages), Error>)
    requires
        row_fits(credentials@, ss, row@),
    ensures
        r.is_ok() == sealable(credentials@, ss),
        r matches Err(e) ==> e == seal_error(credentials@, ss) && transcript_log(
            *final(transcript),
        ) == transcript_log(*old(transcript)),
        r matches Ok(made) ==> made.0.secrets.len() == made.0.committer.bases().len(),
        r matches Ok(made) ==> {
            &&& signed_credential(credentials@, ss.id@) matches Some(c) && signature_made(
                ss,
                claim_values(c.claims@),
                row@,
                c.signature,
                &made.0,
                &made.1,
            )
            &&& made.1.id@ == ss.id@
            &&& shown(made.1) == disclosure(credentials@, ss)
            &&& transcript_log(*final(transcript)) == transcript_log(*old(transcript))
                + signature_trail(&made.0, &made.1)
        },
        r matches Err(e) ==> e == Error::InvalidPresentationData || e == Error::InvalidSignature
            || e == Error::InvalidKeyGeneration,
{
    let c = match signed(credentials, &ss.id) {
        Ok(c) => c,
        Err(e) => {
            return Err(e);
        },
    };
    let msgs = scalars_of(&c.claims);
    proof {
        assert(message_values(row@) =~= claim_values(c.claims@));
    }
    if !c.signature.verify(&ss.issuer, msgs.as_slice()) {
        return Err(Error::InvalidSignature);
    }
    if !ss.issuer.is_well_formed() {
        return Err(Error::InvalidKeyGeneration);
    }
    let d = match ss.disclose(&c.claims) {
        Ok(d) => d,
        Err(e) => {
            return Err(e);
        },
    };
    proof {
        assert(models(d.claims@) =~= disclosed_model(credentials@, ss).1);
        assert(d.model() == disclosed_model(credentials@, ss));
    }
    let bytes = d.to_bytes();
    let ghost before = transcript_log(*transcript);
    match absorb(transcript, "disclosed messages", &bytes) {
        Err(e) => {
            return Err(e);
        },
        Ok(_) => {},
    }
    let pok = match PokSignature::commit(&c.signature, &ss.issuer, row.as_slice(), rng) {
        Ok(p) => p,
        Err(e) => {
            return Err(e);
        },
    };
    match pok.add_proof_contribution(transcript) {
        Err(e) => {
            return Err(e);
        },
        Ok(_) => {},
    }
    proof {
        assert(shown(d).1 =~= disclosure(credentials@, ss).1);
        assert(transcript_log(*transcript) =~= before + signature_trail(&pok, &d));
    }
    Ok((pok, d))
}

/// The first pass: for each signature statement, the disclosed claims and
/// the proof of knowledge of the credential's signature.
fn signature_pass(
    credentials: &Vec<NamedCredential>,
    schema: &PresentationSchema,
    tables: &Vec<Vec<ProofMessage>>,
    builders: &mut Vec<Builder>,
    disclosed: &mut Vec<DisclosedMessages>,
    rng: &mut OsRng,
    transcript: &mut Transcript,
) -> (r: Result<(), Error>)
    requires
        tables.len() == schema.statements.len(),
        old(builders).len() == 0,
        old(disclosed).len() == 0,
        forall|i: int|
            0 <= i < schema.statements.len() ==> (#[trigger] schema.statements[i]
                matches Statement::Signature(ss) ==> row_fits(
                credentials@,
                &ss,
                rows(tables@)[i],
            )),
    ensures
        r == (match first_refusal(
            credentials@,
            schema.statements@,
            schema.statements.len() as int,
        ) {
            Some(e) => Err::<(), Error>(e),
            None => Ok::<(), Error>(()),
        }),
        r is Ok ==> forall|k: int|
            0 <= k < final(builders).len() ==> (#[trigger] final(builders)[k]).complete(),
        r is Ok ==> builder_names(final(builders)@) == pass_names(
            schema.statements@,
            0,
            schema.statements.len() as int,
        ),
        r is Ok ==> disclosed_names(final(disclosed)@) == pass_names(
            schema.statements@,
            0,
            schema.statements.len() as int,
        ),
        r is Ok ==> final(disclosed)@.map_values(|d: DisclosedMessages| shown(d)) == disclosures(
            credentials@,
            schema.statements@,
            schema.statements.len() as int,
        ),
        r is Ok ==> forall|j: int|
            0 <= j < schema.statements.len() && Presentation::pass_of(
                &#[trigger] schema.statements[j],
            ) == 0 ==> sealed(
                schema,
                credentials@,
                rows(tables@),
                final(builders)@,
                final(disclosed)@,
                j,
            ),
        r is Ok ==> transcript_log(*final(transcript)) == transcript_log(*old(transcript))
            + pass_trail(
            schema.statements@,
            final(builders)@,
            final(disclosed)@,
            0,
            schema.statements.len() as int,
        ),
{
    let n = schema.statements.len();
    let ghost st = schema.statements@;
    let ghost start = transcript_log(*transcript);
    let mut i: usize = 0;
    proof {
        assert(builder_names(builders@) =~= pass_names(st, 0, 0));
        assert(disclosed_names(disclosed@) =~= pass_names(st, 0, 0));
        assert(disclosed@.map_values(|d: DisclosedMessages| shown(d)) =~= disclosures(
            credentials@,
            st,
            0,
        ));
        assert(start =~= start + pass_trail(st, builders@, disclosed@, 0, 0));
    }
    while i < n
        invariant
            i <= n,
            n == schema.statements.len(),
            st == schema.statements@,
            tables.len() == n,
            forall|j: int|
                0 <= j < schema.statements.len() ==> (#[trigger] schema.statements[j]
                    matches Statement::Signature(ss) ==> row_fits(
                    credentials@,
                    &ss,
                    rows(tables@)[j],
                )),
            first_refusal(credentials@, st, i as int) is None,
            forall|k: int| 0 <= k < builders.len() ==> (#[trigger] builders[k]).complete(),
            builders.len() == disclosed.len(),
            builders.len() == rank(st, 0, i as int),
            builder_names(builders@) == pass_names(st, 0, i as int),
            disclosed_names(disclosed@) == pass_names(st, 0, i as int),
            disclosed@.map_values(|d: DisclosedMessages| shown(d)) == disclosures(
                credentials@,
                st,
                i as int,
            ),
            forall|j: int|
                0 <= j < i && Presentation::pass_of(&#[trigger] schema.statements[j]) == 0
                    ==> sealed(schema, credentials@, rows(tables@), builders@, disclosed@, j),
            transcript_log(*transcript) == start + pass_trail(
                st,
                builders@,
                disclosed@,
                0,
                i as int,
            ),
        decreases n - i,
    {
        let ghost b1 = builders@;
        let ghost d1 = disclosed@;
        match &schema.statements[i] {
            Statement::Signature(ss) => {
                assert(rows(tables@)[i as int] == tables[i as int]@);
                let (pok, d) = match seal_signature(
                    credentials,
                    ss,
                    &tables[i],
                    rng,
                    transcript,
                ) {
                    Ok(made) => made,
                    Err(e) => {
                        proof {
                            assert(st[i as int] == Statement::Signature(*ss));
                            assert(first_refusal(credentials@, st, i + 1) == Some(e));
                            lemma_refusal_stays(credentials@, st, i + 1, n as int);
                        }
                        return Err(e);
                    },
                };
                let ghost this = shown(d);
                let ghost sealed_pok = pok;
                let ghost sealed_d = d;
                builders.push(Builder::Signature(ss.id.clone(), pok));
                disclosed.push(d);
                proof {
                    let b2 = builders@;
                    let d2 = disclosed@;
                    assert(builder_names(b2) =~= builder_names(b1).push(ss.id@));
                    assert(disclosed_names(d2) =~= disclosed_names(d1).push(ss.id@));
                    assert(d2.map_values(|d: DisclosedMessages| shown(d)) =~= d1.map_values(
                        |d: DisclosedMessages| shown(d),
                    ).push(this));
                    assert(extends(b2, b1));
                    assert(extends(d2, d1));
                    assert forall|j: int|
                        0 <= j < i && Presentation::pass_of(&#[trigger] schema.statements[j])
                            == 0 implies sealed(
                        schema,
                        credentials@,
                        rows(tables@),
                        b2,
                        d2,
                        j,
                    ) by {
                        lemma_sealed_kept(schema, credentials@, rows(tables@), b1, d1, b2, d2, j);
                    }
                    assert forall|j: int|
                        0 <= j < i && Presentation::pass_of(&#[trigger] st[j]) == 0
                        implies b2[place(st, j)] == b1[place(st, j)] && (b1[place(st, j)]
                        is Signature ==> d2[place(st, j)] == d1[place(st, j)]) by {
                        assert(sealed(schema, credentials@, rows(tables@), b1, d1, j));
                    }
                    lemma_trail_stable(st, b1, d1, b2, d2, 0, i as int);
                    let k = place(st, i as int);
                    assert(k == b1.len());
                    assert(b2[k] == Builder::Signature(b2[k]->Signature_0, sealed_pok));
                    assert(d2[k] == sealed_d);
                    assert(sealed(schema, credentials@, rows(tables@), b2, d2, i as int));
                    assert(trail_of(&st[i as int], &b2[k], &d2[k]) == signature_trail(
                        &sealed_pok,
                        &sealed_d,
                    ));
                    assert(start + pass_trail(st, b1, d1, 0, i as int) + signature_trail(
                        &sealed_pok,
                        &sealed_d,
                    ) =~= start + pass_trail(st, b2, d2, 0, i + 1));
                }
            },
            _ => {},
        }
        i += 1;
    }
    Ok(())
}

/// What the prover of a statement that is neither a signature statement
/// nor a range has made: the statement's builder, as the statement asks.
pub open spec fn predicate_made(
    schema: &PresentationSchema,
    rows: Seq<Seq<ProofMessage>>,
    st: &Statement,
    b: &Builder,
) -> bool {
    &&& b.name() == st.name()
    &&& b.kind() == st.kind()
    &&& match st {
        Statement::Equality(s) => b is Equality && s.references.len() > 0 && string_bytes(
            s.id@,
        ).len() <= u32::MAX,
        _ => b matches Builder::Linear(_, lb) && linear_made(schema, st, &lb) && lb.secrets.len()
            > 0 && lb.blinders.len() == lb.secrets.len() && match subject_of(st) {
            Some(subject) => blinded_by(
                cell(schema, rows, subject.0, subject.1),
                lb.secrets[0]@,
                lb.blinders[0]@,
            ),
            None => false,
        } && (st matches Statement::Membership(ms) ==> lb.points.len() == 2 && ms.holds(
            logs(lb.points@),
        )) && (st matches Statement::Revocation(ms) ==> lb.points.len() == 2 && ms.holds(
            logs(lb.points@),
        )),
    }
}

/// What the prover of a statement that is no signature statement adds to
/// the transcript.
pub open spec fn plain_trail(st: &Statement, b: &Builder) -> Seq<Entry> {
    match b {
        Builder::Linear(_, lb) => linear_trail(st, lb),
        _ => seq![("equality"@, string_bytes(st.name()))],
    }
}

/// The witness that a statement about membership or revocation is proved
/// with: that of the credential of the statement's name, or the handle of
/// the signed credential that the statement refers to.
pub open spec fn witness_of(credentials: Seq<NamedCredential>, st: &Statement) -> Option<G1Point> {
    match st {
        Statement::Membership(s) => match first_named(credential_names(credentials), s.id@) {
            Some(k) => match credentials[k].credential {
                PresentationCredential::Membership(c) => Some(c.witness),
                _ => None,
            },
            None => None,
        },
        Statement::Revocation(s) => match signed_credential(credentials, s.reference_id@) {
            Some(c) => Some(c.revocation_handle),
            None => None,
        },
        _ => None,
    }
}

/// Whether the witness of a statement about membership or revocation is
/// there, is not the neutral element, and is the witness of the claim that
/// the statement is about.
pub open spec fn witnessed(
    credentials: Seq<NamedCredential>,
    schema: &PresentationSchema,
    rows: Seq<Seq<ProofMessage>>,
    st: &Statement,
    s: &MembershipStatement,
) -> bool {
    match (witness_of(credentials, st), cell(schema, rows, s.reference_id@, s.claim as int)) {
        (Some(w), Some(m)) => w@ != 0 && witness_valid(
            w@,
            s.accumulator@,
            s.verification_key@,
            m.message(),
        ),
        _ => false,
    }
}

/// Whether the proof of a statement that is neither a signature statement
/// nor a range can be begun: an equality statement names a claim; the
/// witness of a statement about membership or revocation is there and
/// valid; and what the proof adds to the transcript is no longer than a
/// transcript takes.
pub open spec fn predicate_ready(
    credentials: Seq<NamedCredential>,
    schema: &PresentationSchema,
    rows: Seq<Seq<ProofMessage>>,
    st: &Statement,
) -> bool {
    match st {
        Statement::Equality(s) => s.references.len() > 0 && string_bytes(s.id@).len()
            <= u32::MAX,
        Statement::Commitment(s) => linear_room(s.id@, 1, 1),
        Statement::VerifiableEncryption(s) => linear_room(s.id@, 2, 2),
        Statement::VerifiableEncryptionDecryption(s) => linear_room(s.id@, 3, 3),
        Statement::Membership(s) => witnessed(credentials, schema, rows, st, &s) && linear_room(
            s.id@,
            2,
            1,
        ),
        Statement::Revocation(s) => witnessed(credentials, schema, rows, st, &s) && linear_room(
            s.id@,
            2,
            1,
        ),
        _ => true,
    }
}

/// The error with which the proof of such a statement is refused:
/// `InvalidClaimData` where the witness is there but is not a valid
/// witness of the claim, else `InvalidPresentationData`.
pub open spec fn predicate_error(
    credentials: Seq<NamedCredential>,
    schema: &PresentationSchema,
    rows: Seq<Seq<ProofMessage>>,
    st: &Statement,
) -> Error {
    if witness_of(credentials, st) is Some && (st matches Statement::Membership(s) ==> !witnessed(
        credentials,
        schema,
        rows,
        st,
        &s,
    )) && (st matches Statement::Revocation(s) ==> !witnessed(credentials, schema, rows, st, &s)) {
        Error::InvalidClaimData
    } else {
        Error::InvalidPresentationData
    }
}

/// Begins the proof of an equality statement.
fn seal_equality(st: &Statement, s: &EqualityStatement, transcript: &mut Transcript) -> (r: Result<
    Builder,
    Error,
>)
    requires
        *st == Statement::Equality(*s),
    ensures
        r.is_ok() == (s.references.len() > 0 && string_bytes(s.id@).len() <= u32::MAX),
        r matches Ok(b) ==> b is Equality && b.name() == st.name() && b.kind() == st.kind()
            && transcript_log(*final(transcript)) == transcript_log(*old(transcript))
            + plain_trail(st, &b),
        r matches Err(e) ==> e == Error::InvalidPresentationData,
{
    if s.references.len() == 0 {
        return Err(Error::InvalidPresentationData);
    }
    let mut bytes: Vec<u8> = Vec::new();
    append_string(&mut bytes, &s.id);
    assert(bytes@ =~= string_bytes(s.id@));
    let ghost before = transcript_log(*transcript);
    match absorb(transcript, "equality", &bytes) {
        Err(e) => {
            return Err(e);
        },
        Ok(_) => {},
    }
    let b = Builder::Equality(s.id.clone());
    proof {
        assert(transcript_log(*transcript) =~= before + plain_trail(st, &b));
    }
    Ok(b)
}

/// Begins the proof of a statement about membership or revocation with
/// the witness, under the label of its kind.
fn seal_membership(
    schema: &PresentationSchema,
    tables: &Vec<Vec<ProofMessage>>,
    st: &Statement,
    s: &MembershipStatement,
    witness: &G1Point,
    rng: &mut OsRng,
    transcript: &mut Transcript,
) -> (r: Result<Builder, Error>)
    requires
        tables.len() == schema.statements.len(),
        *st == Statement::Membership(*s) || *st == Statement::Revocation(*s),
        cell(schema, rows(tables@), s.reference_id@, s.claim as int) matches Some(
            ProofMessage::HiddenExternalBlinding(_, _),
        ),
    ensures
        r.is_ok() == (witness@ != 0 && witness_valid(
            witness@,
            s.accumulator@,
            s.verification_key@,
            cell(schema, rows(tables@), s.reference_id@, s.claim as int).unwrap().message(),
        ) && linear_room(s.id@, 2, 1)),
        r matches Ok(b) ==> b.complete(),
        r matches Ok(b) ==> predicate_made(schema, rows(tables@), st, &b) && transcript_log(
            *final(transcript),
        ) == transcript_log(*old(transcript)) + plain_trail(st, &b),
        r matches Err(e) ==> e == (if witness@ != 0 && witness_valid(
            witness@,
            s.accumulator@,
            s.verification_key@,
            cell(schema, rows(tables@), s.reference_id@, s.claim as int).unwrap().message(),
        ) {
            Error::InvalidPresentationData
        } else {
            Error::InvalidClaimData
        }),
{
    let (m, bl) = match shared(schema, tables, &s.reference_id, s.claim) {
        Ok(x) => x,
        Err(e) => {
            assert(false);
            return Err(e);
        },
    };
    match st {
        Statement::Membership(_) => match s.commit(witness, m, bl, "membership", rng, transcript) {
            Ok(builder) => Ok(Builder::Linear(6, builder)),
            Err(e) => Err(e),
        },
        _ => match s.commit(witness, m, bl, "revocation", rng, transcript) {
            Ok(builder) => Ok(Builder::Linear(7, builder)),
            Err(e) => Err(e),
        },
    }
}

/// Begins the proof of a commitment or of an encryption of a claim.
fn seal_linear(
    schema: &PresentationSchema,
    tables: &Vec<Vec<ProofMessage>>,
    st: &Statement,
    rng: &mut OsRng,
    transcript: &mut Transcript,
) -> (r: Result<Builder, Error>)
    requires
        tables.len() == schema.statements.len(),
        st is Commitment || st is VerifiableEncryption || st is VerifiableEncryptionDecryption,
        subject_of(st) matches Some(subject) && cell(
            schema,
            rows(tables@),
            subject.0,
            subject.1,
        ) matches Some(ProofMessage::HiddenExternalBlinding(_, _)),
    ensures
        r.is_ok() == (match st {
            Statement::Commitment(s) => linear_room(s.id@, 1, 1),
            Statement::VerifiableEncryption(s) => linear_room(s.id@, 2, 2),
            Statement::VerifiableEncryptionDecryption(s) => linear_room(s.id@, 3, 3),
            _ => true,
        }),
        r matches Ok(b) ==> b.complete(),
        r matches Ok(b) ==> predicate_made(schema, rows(tables@), st, &b) && transcript_log(
            *final(transcript),
        ) == transcript_log(*old(transcript)) + plain_trail(st, &b),
        r matches Err(e) ==> e == Error::InvalidPresentationData,
{
    match st {
        Statement::Commitment(s) => {
            let (m, bl) = match shared(schema, tables, &s.reference_id, s.claim) {
                Ok(x) => x,
                Err(e) => {
                    assert(false);
                    return Err(Error::InvalidPresentationData);
                },
            };
            match s.commit(m, bl, rng, transcript) {
                Ok(builder) => Ok(Builder::Linear(2, builder)),
                Err(e) => Err(e),
            }
        },
        Statement::VerifiableEncryption(s) => {
            let (m, bl) = match shared(schema, tables, &s.reference_id, s.claim) {
                Ok(x) => x,
                Err(e) => {
                    assert(false);
                    return Err(Error::InvalidPresentationData);
                },
            };
            match s.commit(m, bl, rng, transcript) {
                Ok(builder) => Ok(Builder::Linear(3, builder)),
                Err(e) => Err(e),
            }
        },
        Statement::VerifiableEncryptionDecryption(s) => {
            let (m, bl) = match shared(schema, tables, &s.reference_id, s.claim) {
                Ok(x) => x,
                Err(e) => {
                    assert(false);
                    return Err(Error::InvalidPresentationData);
                },
            };
            match s.commit(m, bl, rng, transcript) {
                Ok(builder) => Ok(Builder::Linear(4, builder)),
                Err(e) => Err(e),
            }
        },
        _ => Err(Error::InvalidPresentationData),
    }
}

/// Begins the proof of a statement that is neither a signature statement
/// nor a range, and adds it to the transcript. The claim that the
/// statement is about must have been given its blinder.
fn seal_predicate(
    credentials: &Vec<NamedCredential>,
    schema: &PresentationSchema,
    tables: &Vec<Vec<ProofMessage>>,
    st: &Statement,
    rng: &mut OsRng,
    transcript: &mut Transcript,
) -> (r: Result<Builder, Error>)
    requires
        tables.len() == schema.statements.len(),
        Presentation::pass_of(st) == 1,
        subject_of(st) matches Some(subject) ==> cell(
            schema,
            rows(tables@),
            subject.0,
            subject.1,
        ) matches Some(ProofMessage::HiddenExternalBlinding(_, _)),
    ensures
        r.is_ok() == predicate_ready(credentials@, schema, rows(tables@), st),
        r matches Ok(b) ==> b.complete(),
        r matches Ok(b) ==> predicate_made(schema, rows(tables@), st, &b) && transcript_log(
            *final(transcript),
        ) == transcript_log(*old(transcript)) + plain_trail(st, &b),
        r matches Err(e) ==> e == predicate_error(credentials@, schema, rows(tables@), st),
{
    match st {
        Statement::Equality(s) => seal_equality(st, s, transcript),
        Statement::Membership(s) => {
            let witness = match find_credential(credentials, &s.id) {
                Some(k) => match &credentials[k].credential {
                    PresentationCredential::Membership(c) => c.witness,
                    _ => {
                        return Err(Error::InvalidPresentationData);
                    },
                },
                None => {
                    return Err(Error::InvalidPresentationData);
                },
            };
            seal_membership(schema, tables, st, s, &witness, rng, transcript)
        },
        Statement::Revocation(s) => {
            let witness = match signed(credentials, &s.reference_id) {
                Ok(c) => c.revocation_handle,
                Err(e) => {
                    return Err(e);
                },
            };
            seal_membership(schema, tables, st, s, &witness, rng, transcript)
        },
        _ => seal_linear(schema, tables, st, rng, transcript),
    }
}

/// The error of the first among the first `k` statements that are
/// neither signature statements nor ranges whose proof cannot be begun, if
/// there is one.
pub open spec fn predicate_refusal(
    credentials: Seq<NamedCredential>,
    schema: &PresentationSchema,
    rows: Seq<Seq<ProofMessage>>,
    k: int,
) -> Option<Error>
    decreases k,
{
    if k <= 0 {
        None
    } else {
        match predicate_refusal(credentials, schema, rows, k - 1) {
            Some(e) => Some(e),
            None => if Presentation::pass_of(&schema.statements[k - 1]) != 1 || predicate_ready(
                credentials,
                schema,
                rows,
                &schema.statements[k - 1],
            ) {
                None
            } else {
                Some(predicate_error(credentials, schema, rows, &schema.statements[k - 1]))
            },
        }
    }
}

/// The first refusal among some statements is the first among more.
pub proof fn lemma_predicate_refusal(
    credentials: Seq<NamedCredential>,
    schema: &PresentationSchema,
    rows: Seq<Seq<ProofMessage>>,
    k: int,
    n: int,
)
    requires
        0 <= k <= n,
        predicate_refusal(credentials, schema, rows, k) is Some,
    ensures
        predicate_refusal(credentials, schema, rows, n) == predicate_refusal(
            credentials,
            schema,
            rows,
            k,
        ),
    decreases n - k,
{
    if k < n {
        lemma_predicate_refusal(credentials, schema, rows, k, n - 1);
    }
}

/// The second pass: the proof of each statement that is neither a
/// signature statement nor a range. Returns, for each statement of the
/// schema, the place of its builder among the builders, or the number of
/// builders where it has none yet.
fn predicate_pass(
    credentials: &Vec<NamedCredential>,
    schema: &PresentationSchema,
    tables: &Vec<Vec<ProofMessage>>,
    builders: &mut Vec<Builder>,
    disclosed: Ghost<Seq<DisclosedMessages>>,
    rng: &mut OsRng,
    transcript: &mut Transcript,
) -> (r: Result<Vec<usize>, Error>)
    requires
        tables.len() == schema.statements.len(),
        old(builders).len() == rank(schema.statements@, 0, schema.statements.len() as int),
        forall|i: int|
            0 <= i < schema.statements.len() ==> #[trigger] shares(schema, rows(tables@), i),
        forall|i: int|
            0 <= i < schema.statements.len() ==> #[trigger] blinded(schema, rows(tables@), i),
        forall|k: int| 0 <= k < old(builders).len() ==> (#[trigger] old(builders)[k]).complete(),
        forall|j: int|
            0 <= j < schema.statements.len() && Presentation::pass_of(
                &#[trigger] schema.statements[j],
            ) == 0 ==> sealed(schema, credentials@, rows(tables@), old(builders)@, disclosed@, j),
    ensures
        r is Ok ==> forall|k: int|
            0 <= k < final(builders).len() ==> (#[trigger] final(builders)[k]).complete(),
        r.is_ok() == (predicate_refusal(
            credentials@,
            schema,
            rows(tables@),
            schema.statements.len() as int,
        ) is None),
        r matches Err(e) ==> predicate_refusal(
            credentials@,
            schema,
            rows(tables@),
            schema.statements.len() as int,
        ) == Some(e),
        r matches Ok(places) ==> places.len() == schema.statements.len() && forall|i: int|
            0 <= i < schema.statements.len() && Presentation::pass_of(
                &#[trigger] schema.statements[i],
            ) == 1 ==> places[i] == place(schema.statements@, i),
        r is Ok ==> builder_names(final(builders)@) == builder_names(old(builders)@) + pass_names(
            schema.statements@,
            1,
            schema.statements.len() as int,
        ),
        r is Ok ==> final(builders).len() == old(builders).len() + rank(
            schema.statements@,
            1,
            schema.statements.len() as int,
        ),
        r is Ok ==> forall|j: int|
            0 <= j < schema.statements.len() && Presentation::pass_of(
                &#[trigger] schema.statements[j],
            ) <= 1 ==> sealed(schema, credentials@, rows(tables@), final(builders)@, disclosed@, j),
        r is Ok ==> transcript_log(*final(transcript)) == transcript_log(*old(transcript))
            + pass_trail(
            schema.statements@,
            final(builders)@,
            disclosed@,
            1,
            schema.statements.len() as int,
        ),
        r is Ok ==> pass_trail(
            schema.statements@,
            final(builders)@,
            disclosed@,
            0,
            schema.statements.len() as int,
        ) == pass_trail(
            schema.statements@,
            old(builders)@,
            disclosed@,
            0,
            schema.statements.len() as int,
        ),
        r matches Err(e) ==> e == Error::InvalidPresentationData || e == Error::InvalidClaimData,
{
    let n = schema.statements.len();
    let ghost st = schema.statements@;
    let ghost start = transcript_log(*transcript);
    let ghost b0 = builders@;
    let ghost base = builders.len() as int;
    let mut places: Vec<usize> = Vec::new();
    let mut i: usize = 0;
    proof {
        assert(builder_names(builders@) =~= builder_names(b0) + pass_names(st, 1, 0));
        assert(start =~= start + pass_trail(st, builders@, disclosed@, 1, 0));
    }
    while i < n
        invariant
            i <= n,
            n == schema.statements.len(),
            st == schema.statements@,
            tables.len() == n,
            places.len() == i,
            base == rank(st, 0, n as int),
            b0.len() == base,
            extends(builders@, b0),
            builders.len() == base + rank(st, 1, i as int),
            forall|j: int| 0 <= j < n ==> #[trigger] shares(schema, rows(tables@), j),
            forall|j: int| 0 <= j < n ==> #[trigger] blinded(schema, rows(tables@), j),
            predicate_refusal(credentials@, schema, rows(tables@), i as int) is None,
            forall|k: int| 0 <= k < builders.len() ==> (#[trigger] builders[k]).complete(),
            forall|j: int|
                0 <= j < i && Presentation::pass_of(&#[trigger] schema.statements[j]) == 1
                    ==> places[j] == place(st, j),
            builder_names(builders@) == builder_names(b0) + pass_names(st, 1, i as int),
            forall|j: int|
                0 <= j < n && Presentation::pass_of(&#[trigger] schema.statements[j]) == 0
                    ==> sealed(schema, credentials@, rows(tables@), builders@, disclosed@, j),
            forall|j: int|
                0 <= j < i && Presentation::pass_of(&#[trigger] schema.statements[j]) == 1
                    ==> sealed(schema, credentials@, rows(tables@), builders@, disclosed@, j),
            transcript_log(*transcript) == start + pass_trail(
                st,
                builders@,
                disclosed@,
                1,
                i as int,
            ),
        decreases n - i,
    {
        let ghost b1 = builders@;
        let place_here = builders.len();
        if pass_number(&schema.statements[i]) == 1 {
            assert(blinded(schema, rows(tables@), i as int));
            let made = match seal_predicate(
                credentials,
                schema,
                tables,
                &schema.statements[i],
                rng,
                transcript,
            ) {
                Ok(b) => b,
                Err(e) => {
                    proof {
                        assert(predicate_refusal(credentials@, schema, rows(tables@), i + 1)
                            == Some(e));
                        lemma_predicate_refusal(
                            credentials@,
                            schema,
                            rows(tables@),
                            i + 1,
                            n as int,
                        );
                    }
                    return Err(e);
                },
            };
            let ghost sealed_b = made;
            builders.push(made);
            proof {
                let b2 = builders@;
                let d = disclosed@;
                let k = place(st, i as int);
                assert(k == b1.len());
                assert(b2[k] == sealed_b);
                assert(builder_names(b2) =~= builder_names(b1).push(st[i as int].name()));
                assert(extends(b2, b1));
                assert(extends(d, d));
                assert forall|j: int|
                    0 <= j < n && Presentation::pass_of(&#[trigger] schema.statements[j])
                        == 0 implies sealed(schema, credentials@, rows(tables@), b2, d, j) by {
                    lemma_sealed_kept(schema, credentials@, rows(tables@), b1, d, b2, d, j);
                }
                assert forall|j: int|
                    0 <= j < i && Presentation::pass_of(&#[trigger] schema.statements[j])
                        == 1 implies sealed(schema, credentials@, rows(tables@), b2, d, j) by {
                    lemma_sealed_kept(schema, credentials@, rows(tables@), b1, d, b2, d, j);
                }
                assert forall|j: int|
                    0 <= j < i && Presentation::pass_of(&#[trigger] st[j]) == 1 implies b2[place(
                    st,
                    j,
                )] == b1[place(st, j)] && (b1[place(st, j)] is Signature ==> d[place(st, j)]
                    == d[place(st, j)]) by {
                    assert(sealed(schema, credentials@, rows(tables@), b1, d, j));
                }
                lemma_trail_stable(st, b1, d, b2, d, 1, i as int);
                assert(shares(schema, rows(tables@), i as int));
                assert(sealed(schema, credentials@, rows(tables@), b2, d, i as int));
                assert(trail_of(&st[i as int], &b2[k], &d[k]) == plain_trail(
                    &st[i as int],
                    &sealed_b,
                ));
                assert(start + pass_trail(st, b1, d, 1, i as int) + plain_trail(
                    &st[i as int],
                    &sealed_b,
                ) =~= start + pass_trail(st, b2, d, 1, i + 1));
            }
        }
        places.push(place_here);
        i += 1;
    }
    proof {
        assert forall|j: int|
            0 <= j < n && Presentation::pass_of(&#[trigger] st[j]) == 0 implies builders@[place(
            st,
            j,
        )] == b0[place(st, j)] && (b0[place(st, j)] is Signature ==> disclosed@[place(st, j)]
            == disclosed@[place(st, j)]) by {
            assert(sealed(schema, credentials@, rows(tables@), builders@, disclosed@, j));
            lemma_rank_grows(st, 0, j, n as int);
        }
        lemma_trail_stable(st, b0, disclosed@, builders@, disclosed@, 0, n as int);
    }
    Ok(places)
}

/// What the prover of a range has made: the range's builder, over the
/// commitment that the range is about.
pub open spec fn range_made(
    schema: &PresentationSchema,
    credentials: Seq<NamedCredential>,
    builders: Seq<Builder>,
    st: &Statement,
    b: &Builder,
) -> bool {
    &&& b.name() == st.name()
    &&& b.kind() == st.kind()
    &&& st matches Statement::Range(s) && b matches Builder::Linear(_, lb) && linear_made(
        schema,
        st,
        &lb,
    ) && in_range(credentials, &s) && match first_named(
        statement_names(schema.statements@),
        s.reference_id@,
    ) {
        Some(ci) => match (schema.statements[ci], builders[place(schema.statements@, ci)]) {
            (Statement::Commitment(cs), Builder::Linear(_, cb)) => {
                &&& Presentation::pass_of(&schema.statements[ci]) == 1
                &&& 0 <= place(schema.statements@, ci) < builders.len()
                &&& cs.reference_id@ == s.signature_id@
                &&& cs.claim == s.claim
                &&& cb.points.len() == 1
                &&& range_shaped(s.lower, s.upper, lb.points.len() as nat)
                &&& range_holds(
                    cs.message_generator@,
                    cb.points[0]@,
                    s.lower as nat,
                    s.upper as nat,
                    logs(lb.points@),
                )
            },
            _ => false,
        },
        None => false,
    }
}

/// The range refers to a commitment statement of the schema that is about
/// the claim that the range is about.
pub open spec fn range_placed(schema: &PresentationSchema, s: &RangeStatement) -> bool {
    match schema.statement_of(s.reference_id@) {
        Some(Statement::Commitment(cs)) => cs.reference_id@ == s.signature_id@ && cs.claim
            == s.claim,
        _ => false,
    }
}

/// Whether the proof of a range can be begun: the range refers to a
/// commitment to its claim, the claim is a number of the credential that
/// lies in the range, and what the proof adds to the transcript is no
/// longer than a transcript takes.
pub open spec fn range_ready(
    credentials: Seq<NamedCredential>,
    schema: &PresentationSchema,
    st: &Statement,
) -> bool {
    st matches Statement::Range(s) ==> range_placed(schema, &s) && in_range(credentials, &s)
        && s.room()
}

/// The error with which the proof of a range is refused:
/// `InvalidClaimData` where the range refers to a commitment to its claim
/// and the credential has the claim, but the claim is no number or lies
/// outside the range; else `InvalidPresentationData`.
pub open spec fn range_error(
    credentials: Seq<NamedCredential>,
    schema: &PresentationSchema,
    st: &Statement,
) -> Error {
    match st {
        Statement::Range(s) => match signed_credential(credentials, s.signature_id@) {
            Some(c) => if range_placed(schema, &s) && s.claim < c.claims.len() && !in_range(
                credentials,
                &s,
            ) {
                Error::InvalidClaimData
            } else {
                Error::InvalidPresentationData
            },
            None => Error::InvalidPresentationData,
        },
        _ => Error::InvalidPresentationData,
    }
}

/// The error of the first range among the first `k` statements whose
/// proof cannot be begun, if there is one.
pub open spec fn range_refusal(
    credentials: Seq<NamedCredential>,
    schema: &PresentationSchema,
    k: int,
) -> Option<Error>
    decreases k,
{
    if k <= 0 {
        None
    } else {
        match range_refusal(credentials, schema, k - 1) {
            Some(e) => Some(e),
            None => if range_ready(credentials, schema, &schema.statements[k - 1]) {
                None
            } else {
                Some(range_error(credentials, schema, &schema.statements[k - 1]))
            },
        }
    }
}

/// The first refusal among some statements is the first among more.
pub proof fn lemma_range_refusal(
    credentials: Seq<NamedCredential>,
    schema: &PresentationSchema,
    k: int,
    n: int,
)
    requires
        0 <= k <= n,
        range_refusal(credentials, schema, k) is Some,
    ensures
        range_refusal(credentials, schema, n) == range_refusal(credentials, schema, k),
    decreases n - k,
{
    if k < n {
        lemma_range_refusal(credentials, schema, k, n - 1);
    }
}

/// Begins the proof of a range over the commitment that the range is
/// about, and adds it to the transcript.
fn seal_range(
    credentials: &Vec<NamedCredential>,
    schema: &PresentationSchema,
    rows: Ghost<Seq<Seq<ProofMessage>>>,
    disclosed: Ghost<Seq<DisclosedMessages>>,
    places: &Vec<usize>,
    builders: &Vec<Builder>,
    st: &Statement,
    rng: &mut OsRng,
    transcript: &mut Transcript,
) -> (r: Result<Builder, Error>)
    requires
        places.len() == schema.statements.len(),
        rows@.len() == schema.statements.len(),
        st is Range,
        forall|i: int|
            0 <= i < schema.statements.len() ==> (#[trigger] schema.statements[i]
                matches Statement::Signature(ss) ==> row_fits(credentials@, &ss, rows@[i])),
        forall|i: int|
            0 <= i < schema.statements.len() && Presentation::pass_of(
                &#[trigger] schema.statements[i],
            ) == 1 ==> places[i] == place(schema.statements@, i),
        forall|i: int|
            0 <= i < schema.statements.len() && Presentation::pass_of(
                &#[trigger] schema.statements[i],
            ) == 1 ==> sealed(schema, credentials@, rows@, builders@, disclosed@, i),
    ensures
        r.is_ok() == range_ready(credentials@, schema, st),
        r matches Ok(b) ==> b.complete(),
        r matches Ok(b) ==> range_made(schema, credentials@, builders@, st, &b) && transcript_log(
            *final(transcript),
        ) == transcript_log(*old(transcript)) + plain_trail(st, &b),
        r matches Err(e) ==> e == range_error(credentials@, schema, st),
{
    match st {
        Statement::Range(s) => {
            let ci = match schema.find(&s.reference_id) {
                Some(ci) => ci,
                None => {
                    return Err(Error::InvalidPresentationData);
                },
            };
            let cs = match &schema.statements[ci] {
                Statement::Commitment(cs) => cs,
                _ => {
                    return Err(Error::InvalidPresentationData);
                },
            };
            if !same_string(&cs.reference_id, &s.signature_id) || cs.claim != s.claim {
                return Err(Error::InvalidPresentationData);
            }
            let c = match signed(credentials, &s.signature_id) {
                Ok(c) => c,
                Err(e) => {
                    return Err(e);
                },
            };
            if s.claim >= c.claims.len() {
                return Err(Error::InvalidPresentationData);
            }
            let value = match c.claims[s.claim] {
                ClaimData::Number(v) => v,
                _ => {
                    return Err(Error::InvalidClaimData);
                },
            };
            assert(Presentation::pass_of(&schema.statements[ci as int]) == 1);
            assert(sealed(schema, credentials@, rows@, builders@, disclosed@, ci as int));
            if places[ci] >= builders.len() {
                assert(false);
                return Err(Error::InvalidPresentationData);
            }
            match &builders[places[ci]] {
                Builder::Linear(_, cb) => {
                    proof {
                        let names = statement_names(schema.statements@);
                        lemma_first(names, cs.reference_id@, 0);
                        let found = cell(schema, rows@, cs.reference_id@, cs.claim as int);
                        assert(blinded_by(found, cb.secrets[0]@, cb.blinders[0]@));
                        let si = first_named(names, cs.reference_id@).unwrap();
                        assert(schema.statements[si] is Signature);
                        assert(names[si] == schema.statements[si].name());
                        assert(linear_made(schema, &schema.statements[ci as int], cb));
                        assert(views(cb.relations@).len() == 1);
                        assert(cb.relations.len() == 1);
                        assert(cb.relations.len() * cb.width == 2) by (nonlinear_arith)
                            requires
                                cb.relations.len() == 1,
                                cb.width == 2,
                        ;
                    }
                    if cb.points.len() != 1 || cb.secrets.len() != 2 || !cb.secrets[0].eq(
                        &Scalar::from_u64(value),
                    ) {
                        assert(false);
                        return Err(Error::InvalidPresentationData);
                    }
                    proof {
                        let secrets = values(cb.secrets@);
                        let system = views(cb.relations@);
                        assert(linear_made(schema, &schema.statements[ci as int], cb));
                        assert(system == cs.system(logs(cb.points@)));
                        assert(system[0].holds(slice(secrets, 0, 2)));
                        assert(slice(secrets, 0, 2) =~= secrets);
                        assert(secrets =~= seq![value as nat, cb.secrets[1]@]);
                        assert(system[0].images[0] == logs(cb.points@)[0]);
                        assert(system[0].rows[0] == seq![
                            cs.message_generator@,
                            cs.blinder_generator@,
                        ]);
                    }
                    match s.commit(
                        &cs.message_generator,
                        &cs.blinder_generator,
                        &cb.points[0],
                        value,
                        &cb.secrets[1],
                        rng,
                        transcript,
                    ) {
                        Ok(builder) => Ok(Builder::Linear(5, builder)),
                        Err(e) => Err(e),
                    }
                },
                _ => {
                    assert(false);
                    Err(Error::InvalidPresentationData)
                },
            }
        },
        _ => Err(Error::InvalidPresentationData),
    }
}

/// The third pass: the proof of each range, over the commitment that the
/// range is about.
fn range_pass(
    credentials: &Vec<NamedCredential>,
    schema: &PresentationSchema,
    rows: Ghost<Seq<Seq<ProofMessage>>>,
    disclosed: Ghost<Seq<DisclosedMessages>>,
    places: &Vec<usize>,
    builders: &mut Vec<Builder>,
    rng: &mut OsRng,
    transcript: &mut Transcript,
) -> (r: Result<(), Error>)
    requires
        places.len() == schema.statements.len(),
        rows@.len() == schema.statements.len(),
        forall|i: int|
            0 <= i < schema.statements.len() ==> (#[trigger] schema.statements[i]
                matches Statement::Signature(ss) ==> row_fits(credentials@, &ss, rows@[i])),
        forall|k: int| 0 <= k < old(builders).len() ==> (#[trigger] old(builders)[k]).complete(),
        old(builders).len() == rank(schema.statements@, 0, schema.statements.len() as int) + rank(
            schema.statements@,
            1,
            schema.statements.len() as int,
        ),
        forall|i: int|
            0 <= i < schema.statements.len() && Presentation::pass_of(
                &#[trigger] schema.statements[i],
            ) == 1 ==> places[i] == place(schema.statements@, i),
        forall|j: int|
            0 <= j < schema.statements.len() && Presentation::pass_of(
                &#[trigger] schema.statements[j],
            ) <= 1 ==> sealed(schema, credentials@, rows@, old(builders)@, disclosed@, j),
    ensures
        r is Ok ==> forall|k: int|
            0 <= k < final(builders).len() ==> (#[trigger] final(builders)[k]).complete(),
        r.is_ok() == (range_refusal(credentials@, schema, schema.statements.len() as int)
            is None),
        r matches Err(e) ==> range_refusal(credentials@, schema, schema.statements.len() as int)
            == Some(e),
        r is Ok ==> builder_names(final(builders)@) == builder_names(old(builders)@) + pass_names(
            schema.statements@,
            2,
            schema.statements.len() as int,
        ),
        r is Ok ==> forall|j: int|
            0 <= j < schema.statements.len() ==> #[trigger] sealed(
                schema,
                credentials@,
                rows@,
                final(builders)@,
                disclosed@,
                j,
            ),
        r is Ok ==> transcript_log(*final(transcript)) == transcript_log(*old(transcript))
            + pass_trail(
            schema.statements@,
            final(builders)@,
            disclosed@,
            2,
            schema.statements.len() as int,
        ),
        r is Ok ==> forall|pass: int|
            0 <= pass <= 1 ==> #[trigger] pass_trail(
                schema.statements@,
                final(builders)@,
                disclosed@,
                pass,
                schema.statements.len() as int,
            ) == pass_trail(
                schema.statements@,
                old(builders)@,
                disclosed@,
                pass,
                schema.statements.len() as int,
            ),
        r matches Err(e) ==> e == Error::InvalidPresentationData || e == Error::InvalidClaimData,
{
    let n = schema.statements.len();
    let ghost st = schema.statements@;
    let ghost start = transcript_log(*transcript);
    let ghost b0 = builders@;
    let ghost base = builders.len() as int;
    let mut i: usize = 0;
    proof {
        assert(builder_names(builders@) =~= builder_names(b0) + pass_names(st, 2, 0));
        assert(start =~= start + pass_trail(st, builders@, disclosed@, 2, 0));
    }
    while i < n
        invariant
            i <= n,
            n == schema.statements.len(),
            st == schema.statements@,
            places.len() == n,
            rows@.len() == n,
            base == rank(st, 0, n as int) + rank(st, 1, n as int),
            b0.len() == base,
            extends(builders@, b0),
            forall|j: int|
                0 <= j < schema.statements.len() ==> (#[trigger] schema.statements[j]
                    matches Statement::Signature(ss) ==> row_fits(credentials@, &ss, rows@[j])),
            forall|k: int| 0 <= k < builders.len() ==> (#[trigger] builders[k]).complete(),
            range_refusal(credentials@, schema, i as int) is None,
            builders.len() == base + rank(st, 2, i as int),
            forall|j: int|
                0 <= j < n && Presentation::pass_of(&#[trigger] schema.statements[j]) == 1
                    ==> places[j] == place(st, j),
            builder_names(builders@) == builder_names(b0) + pass_names(st, 2, i as int),
            forall|j: int|
                0 <= j < n && Presentation::pass_of(&#[trigger] schema.statements[j]) <= 1
                    ==> sealed(schema, credentials@, rows@, builders@, disclosed@, j),
            forall|j: int|
                0 <= j < i && Presentation::pass_of(&#[trigger] schema.statements[j]) == 2
                    ==> sealed(schema, credentials@, rows@, builders@, disclosed@, j),
            transcript_log(*transcript) == start + pass_trail(
                st,
                builders@,
                disclosed@,
                2,
                i as int,
            ),
        decreases n - i,
    {
        let ghost b1 = builders@;
        if pass_number(&schema.statements[i]) == 2 {
            let made = match seal_range(
                credentials,
                schema,
                rows,
                disclosed,
                places,
                builders,
                &schema.statements[i],
                rng,
                transcript,
            ) {
                Ok(b) => b,
                Err(e) => {
                    proof {
                        assert(range_refusal(credentials@, schema, i + 1) == Some(e));
                        lemma_range_refusal(credentials@, schema, i + 1, n as int);
                    }
                    return Err(e);
                },
            };
            let ghost sealed_b = made;
            builders.push(made);
            proof {
                let b2 = builders@;
                let d = disclosed@;
                let k = place(st, i as int);
                assert(k == b1.len());
                assert(b2[k] == sealed_b);
                assert(builder_names(b2) =~= builder_names(b1).push(st[i as int].name()));
                assert(extends(b2, b1));
                assert(extends(d, d));
                assert forall|j: int|
                    0 <= j < n && Presentation::pass_of(&#[trigger] schema.statements[j])
                        <= 1 implies sealed(schema, credentials@, rows@, b2, d, j) by {
                    lemma_sealed_kept(schema, credentials@, rows@, b1, d, b2, d, j);
                }
                assert forall|j: int|
                    0 <= j < i && Presentation::pass_of(&#[trigger] schema.statements[j])
                        == 2 implies sealed(schema, credentials@, rows@, b2, d, j) by {
                    lemma_sealed_kept(schema, credentials@, rows@, b1, d, b2, d, j);
                }
                assert forall|j: int|
                    0 <= j < i && Presentation::pass_of(&#[trigger] st[j]) == 2 implies b2[place(
                    st,
                    j,
                )] == b1[place(st, j)] && (b1[place(st, j)] is Signature ==> d[place(st, j)]
                    == d[place(st, j)]) by {
                    assert(sealed(schema, credentials@, rows@, b1, d, j));
                }
                lemma_trail_stable(st, b1, d, b2, d, 2, i as int);
                let s = st[i as int]->Range_0;
                match first_named(statement_names(st), s.reference_id@) {
                    Some(ci) => {
                        lemma_first(statement_names(st), s.reference_id@, 0);
                        assert(b2[place(st, ci)] == b1[place(st, ci)]);
                    },
                    None => {},
                }
                assert(sealed(schema, credentials@, rows@, b2, d, i as int));
                assert(trail_of(&st[i as int], &b2[k], &d[k]) == plain_trail(
                    &st[i as int],
                    &sealed_b,
                ));
                assert(start + pass_trail(st, b1, d, 2, i as int) + plain_trail(
                    &st[i as int],
                    &sealed_b,
                ) =~= start + pass_trail(st, b2, d, 2, i + 1));
            }
        }
        i += 1;
    }
    proof {
        assert forall|pass: int| 0 <= pass <= 1 implies #[trigger] pass_trail(
            st,
            builders@,
            disclosed@,
            pass,
            n as int,
        ) == pass_trail(st, b0, disclosed@, pass, n as int) by {
            assert forall|j: int|
                0 <= j < n && Presentation::pass_of(&#[trigger] st[j]) == pass
                implies builders@[place(st, j)] == b0[place(st, j)] by {
                assert(sealed(schema, credentials@, rows@, builders@, disclosed@, j));
                lemma_rank_grows(st, pass, j, n as int);
            }
            lemma_trail_stable(st, b0, disclosed@, builders@, disclosed@, pass, n as int);
        }
        assert forall|j: int| 0 <= j < n implies #[trigger] sealed(
            schema,
            credentials@,
            rows@,
            builders@,
            disclosed@,
            j,
        ) by {
            assert(0 <= Presentation::pass_of(&schema.statements[j]) <= 2);
        }
    }
    Ok(())
}

/// Some scalar of the given value.
pub open spec fn scalar_of(v: nat) -> Scalar {
    choose|s: Scalar| s@ == v
}

/// The rows of messages that the credentials give for the statements:
/// for a signature statement, the claims of the credential of its name,
/// revealed where the statement discloses them and hidden elsewhere; for
/// any other statement, no message.
pub open spec fn plain_rows(
    credentials: Seq<NamedCredential>,
    schema: &PresentationSchema,
) -> Seq<Seq<ProofMessage>> {
    Seq::new(
        schema.statements.len() as nat,
        |i: int|
            match schema.statements[i] {
                Statement::Signature(ss) => match signed_credential(credentials, ss.id@) {
                    Some(c) => Seq::new(
                        c.claims.len() as nat,
                        |j: int|
                            if ss.disclosed@.contains(j as usize) {
                                ProofMessage::Revealed(scalar_of(c.claims[j].value()))
                            } else {
                                ProofMessage::HiddenProofSpecific(scalar_of(c.claims[j].value()))
                            },
                    ),
                    None => Seq::empty(),
                },
                _ => Seq::empty(),
            },
    )
}

/// Whether a presentation can be made of the credentials for the schema
/// and the nonce: the statements have different names; the nonce and the
/// schema are no longer than a transcript takes; every signature statement
/// has its credential; the claims that equality statements name are
/// hidden, equal, and each named once, and the claim of every other
/// statement about a claim is hidden; every credential's signature holds
/// under a well-formed key; and every other statement can be proved: an
/// equality statement names a claim, a witness is valid, a range refers
/// to a commitment to its claim, which is a number in the range, and the
/// entries of each proof are no longer than a transcript takes.
pub open spec fn creatable(
    credentials: Seq<NamedCredential>,
    schema: &PresentationSchema,
    nonce: Seq<u8>,
) -> bool {
    let n = schema.statements.len() as int;
    let rows = plain_rows(credentials, schema);
    &&& schema.distinct()
    &&& nonce.len() <= u32::MAX
    &&& schema.encoding().len() <= u32::MAX
    &&& signature_count(schema.statements@, n) <= credentials.len()
    &&& credentials_fit(credentials, schema)
    &&& shareable(schema, rows)
    &&& forall|i: int|
        0 <= i < n ==> (#[trigger] schema.statements[i] matches Statement::Signature(ss)
            ==> sealable(credentials, &ss))
    &&& forall|i: int|
        0 <= i < n && Presentation::pass_of(&#[trigger] schema.statements[i]) == 1
            ==> predicate_ready(credentials, schema, rows, &schema.statements[i])
    &&& forall|i: int|
        0 <= i < n ==> range_ready(credentials, schema, &#[trigger] schema.statements[i])
}

/// The error of the first statement whose proof cannot be begun, in the
/// order of the three passes, if there is one.
pub open spec fn late_refusal(
    credentials: Seq<NamedCredential>,
    schema: &PresentationSchema,
) -> Option<Error> {
    let n = schema.statements.len() as int;
    match first_refusal(credentials, schema.statements@, n) {
        Some(e) => Some(e),
        None => match predicate_refusal(credentials, schema, plain_rows(credentials, schema), n) {
            Some(e) => Some(e),
            None => range_refusal(credentials, schema, n),
        },
    }
}

/// The error with which a presentation is refused where the statements,
/// the nonce and the credentials fit: that of the first equality statement
/// whose claims cannot share a blinder; else that of the first statement
/// about a claim that is not hidden; else that of the first statement whose
/// proof cannot be begun.
pub open spec fn creation_refusal(
    credentials: Seq<NamedCredential>,
    schema: &PresentationSchema,
) -> Option<Error> {
    let n = schema.statements.len() as int;
    let rows = plain_rows(credentials, schema);
    match share_refusal(schema, rows, n) {
        Some(e) => Some(e),
        None => match subject_refusal(schema, rows, n) {
            Some(e) => Some(e),
            None => late_refusal(credentials, schema),
        },
    }
}

/// The statements of the three passes are refused with one of four errors.
pub proof fn lemma_refusal_kinds(
    credentials: Seq<NamedCredential>,
    schema: &PresentationSchema,
    rows: Seq<Seq<ProofMessage>>,
    k: int,
)
    ensures
        first_refusal(credentials, schema.statements@, k) matches Some(e) ==> e
            == Error::InvalidSignature || e == Error::InvalidKeyGeneration || e
            == Error::InvalidPresentationData,
        predicate_refusal(credentials, schema, rows, k) matches Some(e) ==> e
            == Error::InvalidClaimData || e == Error::InvalidPresentationData,
        range_refusal(credentials, schema, k) matches Some(e) ==> e == Error::InvalidClaimData
            || e == Error::InvalidPresentationData,
    decreases k,
{
    if k > 0 {
        lemma_refusal_kinds(credentials, schema, rows, k - 1);
    }
}

/// Rows that hold the claims of the credentials hold the claims of the
/// plain rows.
pub proof fn lemma_plain_rows(
    credentials: Seq<NamedCredential>,
    schema: &PresentationSchema,
    rows: Seq<Seq<ProofMessage>>,
)
    requires
        rows.len() == schema.statements.len(),
        forall|i: int|
            0 <= i < schema.statements.len() ==> (#[trigger] schema.statements[i]
                matches Statement::Signature(ss) ==> row_fits(credentials, &ss, rows[i])),
        forall|i: int|
            0 <= i < schema.statements.len() && !(#[trigger] schema.statements[i] is Signature)
                ==> rows[i].len() == 0,
    ensures
        same_claims(plain_rows(credentials, schema), rows),
{
    let plain = plain_rows(credentials, schema);
    assert forall|i: int| 0 <= i < plain.len() implies (#[trigger] rows[i]).len()
        == plain[i].len() by {
        match schema.statements[i] {
            Statement::Signature(ss) => {
                assert(row_fits(credentials, &ss, rows[i]));
            },
            _ => {},
        }
    }
    assert forall|i: int, j: int| 0 <= i < plain.len() && 0 <= j < plain[i].len() implies {
        &&& (#[trigger] rows[i][j]).message() == plain[i][j].message()
        &&& rows[i][j].hidden() == plain[i][j].hidden()
    } by {
        match schema.statements[i] {
            Statement::Signature(ss) => {
                assert(row_fits(credentials, &ss, rows[i]));
                let c = signed_credential(credentials, ss.id@).unwrap();
                let v = c.claims[j].value();
                let m = match rows[i][j] {
                    ProofMessage::Revealed(m) => m,
                    ProofMessage::HiddenProofSpecific(m) => m,
                    ProofMessage::HiddenExternalBlinding(m, _) => m,
                };
                assert(m@ == v);
                assert(scalar_of(v)@ == v);
            },
            _ => {},
        }
    }
}

/// Whether blinders can be shared does not change with the blinders of
/// the rows.
pub proof fn lemma_shareable_same(
    schema: &PresentationSchema,
    before: Seq<Seq<ProofMessage>>,
    after: Seq<Seq<ProofMessage>>,
)
    requires
        same_claims(before, after),
    ensures
        shareable(schema, before) == shareable(schema, after),
{
    if shareable(schema, before) {
        assert forall|i: int| 0 <= i < schema.statements.len() implies #[trigger] equality_ready(
            schema,
            after,
            i,
        ) by {
            lemma_ready_same(schema, before, after, i);
            assert(equality_ready(schema, before, i));
        }
        assert forall|i: int| 0 <= i < schema.statements.len() implies #[trigger] subject_hidden(
            schema,
            after,
            i,
        ) by {
            lemma_ready_same(schema, before, after, i);
            assert(subject_hidden(schema, before, i));
        }
    }
    if shareable(schema, after) {
        assert forall|i: int| 0 <= i < schema.statements.len() implies #[trigger] equality_ready(
            schema,
            before,
            i,
        ) by {
            lemma_ready_same(schema, before, after, i);
            assert(equality_ready(schema, after, i));
        }
        assert forall|i: int| 0 <= i < schema.statements.len() implies #[trigger] subject_hidden(
            schema,
            before,
            i,
        ) by {
            lemma_ready_same(schema, before, after, i);
            assert(subject_hidden(schema, after, i));
        }
    }
}

/// Whether the proof of a statement can be begun, and the error where it
/// cannot, do not change with the blinders of the rows.
pub proof fn lemma_predicate_same(
    credentials: Seq<NamedCredential>,
    schema: &PresentationSchema,
    before: Seq<Seq<ProofMessage>>,
    after: Seq<Seq<ProofMessage>>,
    st: &Statement,
)
    requires
        same_claims(before, after),
    ensures
        predicate_ready(credentials, schema, before, st) == predicate_ready(
            credentials,
            schema,
            after,
            st,
        ),
        predicate_error(credentials, schema, before, st) == predicate_error(
            credentials,
            schema,
            after,
            st,
        ),
{
    match st {
        Statement::Membership(s) => {
            lemma_cell_same(schema, before, after, s.reference_id@, s.claim as int);
        },
        Statement::Revocation(s) => {
            lemma_cell_same(schema, before, after, s.reference_id@, s.claim as int);
        },
        _ => {},
    }
}

/// No signature statement among the first `k` is refused exactly if the
/// proof of each can be begun.
pub proof fn lemma_no_refusal(credentials: Seq<NamedCredential>, statements: Seq<Statement>, k: int)
    requires
        0 <= k <= statements.len(),
    ensures
        first_refusal(credentials, statements, k) is None == (forall|i: int|
            0 <= i < k ==> (#[trigger] statements[i] matches Statement::Signature(ss) ==> sealable(
                credentials,
                &ss,
            ))),
    decreases k,
{
    if k > 0 {
        lemma_no_refusal(credentials, statements, k - 1);
        if first_refusal(credentials, statements, k) is None {
            assert forall|i: int| 0 <= i < k implies (#[trigger] statements[i]
                matches Statement::Signature(ss) ==> sealable(credentials, &ss)) by {
                if i < k - 1 {
                }
            }
        }
    }
}

/// No statement of the second pass among the first `k` is refused exactly
/// if the proof of each can be begun.
pub proof fn lemma_no_predicate_refusal(
    credentials: Seq<NamedCredential>,
    schema: &PresentationSchema,
    rows: Seq<Seq<ProofMessage>>,
    k: int,
)
    requires
        0 <= k <= schema.statements.len(),
    ensures
        predicate_refusal(credentials, schema, rows, k) is None == (forall|i: int|
            0 <= i < k && Presentation::pass_of(&#[trigger] schema.statements[i]) == 1
                ==> predicate_ready(credentials, schema, rows, &schema.statements[i])),
    decreases k,
{
    if k > 0 {
        lemma_no_predicate_refusal(credentials, schema, rows, k - 1);
    }
}

/// No range among the first `k` statements is refused exactly if the
/// proof of each can be begun.
pub proof fn lemma_no_range_refusal(
    credentials: Seq<NamedCredential>,
    schema: &PresentationSchema,
    k: int,
)
    requires
        0 <= k <= schema.statements.len(),
    ensures
        range_refusal(credentials, schema, k) is None == (forall|i: int|
            0 <= i < k ==> range_ready(credentials, schema, &#[trigger] schema.statements[i])),
    decreases k,
{
    if k > 0 {
        lemma_no_range_refusal(credentials, schema, k - 1);
    }
}

/// What decides whether the second pass is made does not change with the
/// blinders of the rows.
pub proof fn lemma_predicate_refusal_same(
    credentials: Seq<NamedCredential>,
    schema: &PresentationSchema,
    before: Seq<Seq<ProofMessage>>,
    after: Seq<Seq<ProofMessage>>,
    k: int,
)
    requires
        same_claims(before, after),
        0 <= k <= schema.statements.len(),
    ensures
        predicate_refusal(credentials, schema, before, k) == predicate_refusal(
            credentials,
            schema,
            after,
            k,
        ),
    decreases k,
{
    if k > 0 {
        lemma_predicate_refusal_same(credentials, schema, before, after, k - 1);
        lemma_predicate_same(credentials, schema, before, after, &schema.statements[k - 1]);
    }
}

impl Presentation {
    /// Makes a presentation that proves the statements of the schema of
    /// the credentials, for the verifier's nonce. One is made exactly for
    /// the inputs that `creatable` describes; a presentation that is
    /// returned passes the verifier's check. Where the statements, the
    /// nonce and the credentials fit, the error is the one that
    /// `creation_refusal` describes; else it is `InvalidPresentationData`.
    pub fn create(
        credentials: &Vec<NamedCredential>,
        schema: &PresentationSchema,
        nonce: &[u8],
    ) -> (r: Result<Presentation, Error>)
        ensures
            r.is_ok() == creatable(credentials@, schema, nonce@),
            r matches Ok(p) ==> p.verifies(schema, nonce@),
            r matches Ok(p) ==> proof_names(p.proofs@) == pass_names(
                schema.statements@,
                0,
                schema.statements.len() as int,
            ) + pass_names(schema.statements@, 1, schema.statements.len() as int) + pass_names(
                schema.statements@,
                2,
                schema.statements.len() as int,
            ),
            r matches Ok(p) ==> p.disclosed_messages@.map_values(|d: DisclosedMessages| shown(d))
                == disclosures(credentials@, schema.statements@, schema.statements.len() as int),
            !schema.distinct() ==> r is Err,
            !(signature_count(schema.statements@, schema.statements.len() as int)
                <= credentials.len() && credentials_fit(credentials@, schema)) ==> r is Err,
            !(schema.distinct() && nonce@.len() <= u32::MAX && schema.encoding().len() <= u32::MAX
                && signature_count(schema.statements@, schema.statements.len() as int)
                <= credentials.len() && credentials_fit(credentials@, schema)) ==> r == Err::<
                Presentation,
                Error,
            >(Error::InvalidPresentationData),
            schema.has_misplaced() ==> r is Err,
            r is Ok ==> forall|i: int|
                0 <= i < schema.statements.len() ==> (#[trigger] schema.statements[i]
                    matches Statement::Equality(s) ==> claims_equal(schema, credentials@, &s)),
            r is Ok ==> forall|i: int|
                0 <= i < schema.statements.len() ==> (#[trigger] schema.statements[i]
                    matches Statement::Range(s) ==> in_range(credentials@, &s)),
            r matches Err(e) ==> e == Error::InvalidPresentationData || e
                == Error::InvalidClaimData || e == Error::InvalidKeyGeneration || e
                == Error::InvalidSignature,
            r matches Err(e) ==> (schema.distinct() && nonce@.len() <= u32::MAX
                && schema.encoding().len() <= u32::MAX && signature_count(
                schema.statements@,
                schema.statements.len() as int,
            ) <= credentials.len() && credentials_fit(credentials@, schema)) ==> Some(e)
                == creation_refusal(credentials@, schema),
    {
        if !schema.has_distinct_ids() {
            return Err(Error::InvalidPresentationData);
        }
        let mut rng = os_rng();
        let mut transcript = match open_transcript(nonce, schema) {
            Ok(t) => t,
            Err(e) => {
                return Err(e);
            },
        };
        let mut tables = match build_tables(credentials, schema) {
            Ok(t) => t,
            Err(e) => {
                return Err(e);
            },
        };
        let ghost plain = plain_rows(credentials@, schema);
        let ghost first_rows = rows(tables@);
        proof {
            lemma_plain_rows(credentials@, schema, first_rows);
            lemma_shareable_same(schema, plain, first_rows);
        }
        match share_blinders(schema, &mut tables, &mut rng) {
            Err(e) => {
                proof {
                    let n = schema.statements.len() as int;
                    lemma_subject_refusal(schema, plain, first_rows, n, n);
                    lemma_share_refusal(schema, plain, first_rows, n, n);
                }
                return Err(e);
            },
            Ok(_) => {},
        }
        proof {
            let n = schema.statements.len() as int;
            lemma_refusal_kinds(credentials@, schema, plain, n);
            lemma_subject_refusal(schema, plain, plain, n, n);
            lemma_share_refusal(schema, plain, plain, n, n);
            lemma_same_claims(plain, first_rows, rows(tables@));
            lemma_no_refusal(credentials@, schema.statements@, n);
            lemma_predicate_refusal_same(credentials@, schema, plain, rows(tables@), n);
            lemma_no_predicate_refusal(credentials@, schema, plain, n);
            lemma_no_range_refusal(credentials@, schema, n);
        }
        let mut builders: Vec<Builder> = Vec::new();
        let mut disclosed_messages: Vec<DisclosedMessages> = Vec::new();
        match signature_pass(
            credentials,
            schema,
            &tables,
            &mut builders,
            &mut disclosed_messages,
            &mut rng,
            &mut transcript,
        ) {
            Err(e) => {
                return Err(Self::refusal(e));
            },
            Ok(_) => {},
        }
        let places = match predicate_pass(
            credentials,
            schema,
            &tables,
            &mut builders,
            Ghost(disclosed_messages@),
            &mut rng,
            &mut transcript,
        ) {
            Ok(p) => p,
            Err(e) => {
                return Err(Self::refusal(e));
            },
        };
        match range_pass(
            credentials,
            schema,
            Ghost(rows(tables@)),
            Ghost(disclosed_messages@),
            &places,
            &mut builders,
            &mut rng,
            &mut transcript,
        ) {
            Err(e) => {
                return Err(Self::refusal(e));
            },
            Ok(_) => {},
        }
        let ghost log = transcript_log(transcript);
        let challenge = challenge_scalar(transcript, "challenge bytes");
        let mut proofs: Vec<SubProof> = Vec::new();
        let mut i: usize = 0;
        assert(proof_names(proofs@) =~= builder_names(builders@).take(0));
        while i < builders.len()
            invariant
                i <= builders.len(),
                proofs.len() == i,
                proof_names(proofs@) == builder_names(builders@).take(i as int),
                forall|k: int| 0 <= k < builders.len() ==> (#[trigger] builders[k]).complete(),
                forall|k: int|
                    0 <= k < i ==> answers(&builders[k], &#[trigger] proofs[k], challenge@),
            decreases builders.len() - i,
        {
            match builders[i].gen_proof(&challenge) {
                Ok(p) => {
                    let ghost before = proof_names(proofs@);
                    let ghost name = p.name();
                    let ghost answer = p;
                    assert(answers(&builders[i as int], &p, challenge@));
                    proofs.push(p);
                    proof {
                        assert(proofs[i as int] == answer);
                        assert(proof_names(proofs@) =~= before.push(name));
                        assert(builder_names(builders@)[i as int] == builders[i as int].name());
                        assert(builder_names(builders@).take(i + 1) =~= builder_names(
                            builders@,
                        ).take(i as int).push(name));
                    }
                },
                Err(e) => {
                    assert(builders[i as int].complete());
                    return Err(e);
                },
            }
            i += 1;
        }
        proof {
            assert(builder_names(builders@).take(builders.len() as int) =~= builder_names(
                builders@,
            ));
            assert(builder_names(Seq::<Builder>::empty()) =~= Seq::<Seq<char>>::empty());
            assert(Seq::<DisclosedMessages>::empty().map_values(|d: DisclosedMessages| shown(d))
                =~= Seq::<Shown>::empty());
        }
        let ghost made = builders@;
        let ghost shown_at = disclosed_messages@;
        let presentation = Presentation { proofs, challenge, disclosed_messages };
        proof {
            assert(proof_names(presentation.proofs@) =~= ordered_names(schema.statements@));
            assert(answered(&presentation, schema, made, shown_at));
            lemma_created(
                presentation,
                *schema,
                nonce@,
                credentials@,
                rows(tables@),
                made,
                shown_at,
            );
            assert forall|i: int| 0 <= i < schema.statements.len() implies !(
            #[trigger] schema.misplaced(i)) by {
                lemma_subject_hidden(presentation, *schema, i);
            }
            assert forall|i: int| 0 <= i < schema.statements.len() implies (
            #[trigger] schema.statements[i] matches Statement::Equality(s) ==> claims_equal(
                schema,
                credentials@,
                &s,
            )) by {
                if schema.statements[i] is Equality {
                    lemma_claims_equal(*schema, credentials@, rows(tables@), made, shown_at, i);
                }
            }
            assert forall|i: int| 0 <= i < schema.statements.len() implies (
            #[trigger] schema.statements[i] matches Statement::Range(s) ==> in_range(
                credentials@,
                &s,
            )) by {
                assert(sealed(schema, credentials@, rows(tables@), made, shown_at, i));
            }
        }
        Ok(presentation)
    }

    /// The error that a presentation is refused with for an error of one
    /// of its parts: that error where it tells of a claim, a key or a
    /// signature, and `InvalidPresentationData` for any other.
    fn refusal(e: Error) -> (r: Error)
        ensures
            r == (if e == Error::InvalidClaimData || e == Error::InvalidKeyGeneration || e
                == Error::InvalidSignature {
                e
            } else {
                Error::InvalidPresentationData
            }),
    {
        match e {
            Error::InvalidClaimData => Error::InvalidClaimData,
            Error::InvalidKeyGeneration => Error::InvalidKeyGeneration,
            Error::InvalidSignature => Error::InvalidSignature,
            _ => Error::InvalidPresentationData,
        }
    }
}

} // verus!
