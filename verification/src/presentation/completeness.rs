//! What a verifier finds of the proofs that an honest prover makes.
//!
//! For each kind of statement: where the proof is the answer of the
//! prover's builder to the presentation's challenge, the verifier adds to
//! its transcript what the prover added, and the equations that it checks hold.

use vstd::prelude::*;
use crate::bytes::string_bytes;
use crate::group::{logs, values};
use crate::presentation::claim::ClaimData;
use crate::presentation::create::Builder;
use crate::presentation::credential::NamedCredential;
use crate::presentation::linear::{
    lemma_builder, linear_entries, linear_fits, LinearBuilder, LinearProof, views,
};
use crate::presentation::lookup::{first_named, lemma_first};
use crate::presentation::order::{
    lemma_pass_found, lemma_place_found, lemma_rank_grows, lemma_statement_found, ordered_names,
    pass_names, place,
};
use crate::presentation::parts::{
    disclosed_names, DisclosedMessages, Presentation, proof_names, SignatureProof, SubProof,
};
use crate::presentation::range::{range_holds, range_shaped};
use crate::presentation::rules::{challenge_label, label_of, opening_log, subject_of};
use crate::presentation::signature::lemma_revealed_row;
use crate::presentation::statement::{
    ClaimReference, EqualityStatement, PresentationSchema, RangeStatement, SignatureStatement,
    Statement, statement_names,
};
use crate::presentation::tables::{
    all_blinded_by, blinded_by, cell, increasing_below, shares, signed_credential,
};
use crate::ps::keys::MAX_MESSAGES;
use crate::ps::pok::{agree, pok_entries, PokSignature};
use crate::ps::pok_laws::{lemma_linked_response, lemma_pok_verifies};
use crate::ps::positions::placed;
use crate::ps::proof_message::{entries_upto, message_values, ProofMessage, revealed_entries};
use crate::ps::signature::Signature;
use crate::schnorr::{response, responses};
use crate::transcript::{challenge_scalar_of, Entry};

verus! {

/// Messages that differ only in the blinders that were given to them have
/// the same hidden and revealed entries.
pub proof fn lemma_agree_entries(
    messages: Seq<ProofMessage>,
    fixed: Seq<ProofMessage>,
    k: int,
    want_hidden: bool,
)
    requires
        agree(messages, fixed),
        0 <= k <= messages.len(),
    ensures
        entries_upto(messages, k, want_hidden) == entries_upto(fixed, k, want_hidden),
    decreases k,
{
    if k > 0 {
        lemma_agree_entries(messages, fixed, k - 1, want_hidden);
        assert(fixed[k - 1].message() == messages[k - 1].message());
    }
}

/// Messages that differ only in the blinders that were given to them have
/// the same values.
pub proof fn lemma_agree_values(messages: Seq<ProofMessage>, fixed: Seq<ProofMessage>)
    requires
        agree(messages, fixed),
    ensures
        message_values(messages) == message_values(fixed),
{
    assert forall|i: int| 0 <= i < messages.len() implies message_values(messages)[i]
        == message_values(fixed)[i] by {
        assert(fixed[i].message() == messages[i].message());
    }
    assert(message_values(messages) =~= message_values(fixed));
}

/// What the prover of a signature statement adds to the transcript: the
/// disclosed claims, then the entries of the proof of knowledge with the
/// prover's random commitment.
pub open spec fn signature_trail(pok: &PokSignature, d: &DisclosedMessages) -> Seq<Entry> {
    seq![("disclosed messages"@, d.encoding())] + pok_entries(
        pok.sigma_1@,
        pok.sigma_2@,
        pok.commitment@,
        placed(pok.revealed@),
        pok.committer.commitment_log(),
    )
}

/// The proof of knowledge was begun for a credential of the statement: the
/// row of messages has the credential's claims, revealed where the
/// statement discloses them; the signature holds for them under the
/// issuer's key; and the disclosed claims are those claims.
pub open spec fn signature_made(
    ss: &SignatureStatement,
    claims: Seq<nat>,
    row: Seq<ProofMessage>,
    sig: Signature,
    pok: &PokSignature,
    d: &DisclosedMessages,
) -> bool {
    &&& ss.issuer.well_formed()
    &&& claims.len() <= MAX_MESSAGES
    &&& ss.issuer.y_tilde.len() == claims.len() + 1
    &&& ss.labels.len() == claims.len()
    &&& increasing_below(ss.disclosed@, claims.len() as int)
    &&& row.len() == claims.len()
    &&& forall|j: int|
        0 <= j < row.len() ==> (#[trigger] row[j]).message() == claims[j] && row[j].hidden()
            == !ss.disclosed@.contains(j as usize)
    &&& sig.verifies(&ss.issuer, message_values(row))
    &&& pok.committed(sig, &ss.issuer, row)
    &&& ss.discloses(d)
    &&& forall|k: int|
        0 <= k < ss.disclosed.len() ==> (#[trigger] d.claims[k]).claim.value()
            == claims[ss.disclosed[k] as int]
    &&& d.encoding().len() <= u32::MAX
}

/// The proof is the answer of the builder to the challenge.
pub open spec fn signature_answered(pok: &PokSignature, sp: &SignatureProof, c: nat) -> bool {
    &&& sp.pok.sigma_1 == pok.sigma_1
    &&& sp.pok.sigma_2 == pok.sigma_2
    &&& sp.pok.commitment == pok.commitment
    &&& values(sp.pok.proof@) == responses(pok.committer.blinders(), c, values(pok.secrets@))
}

/// The verifier of a signature statement adds to its transcript what the
/// prover added, and finds the equation of the proof to hold.
pub proof fn lemma_signature_answered(
    p: Presentation,
    schema: PresentationSchema,
    ss: SignatureStatement,
    claims: Seq<nat>,
    row: Seq<ProofMessage>,
    sig: Signature,
    pok: PokSignature,
    sp: SignatureProof,
    d: DisclosedMessages,
)
    requires
        p.proof_of(ss.id@) == Some(SubProof::Signature(sp)),
        p.disclosed_of(ss.id@) == Some(d),
        signature_made(&ss, claims, row, sig, &pok, &d),
        signature_answered(&pok, &sp, p.challenge@),
    ensures
        p.entries_of(&schema, &Statement::Signature(ss), p.challenge@) == Some(
            signature_trail(&pok, &d),
        ),
        p.holds_of(&schema, &Statement::Signature(ss)),
        forall|fixed: Seq<ProofMessage>, r: nat, t: nat, b_tick: nat, b_t: nat|
            agree(row, fixed) && #[trigger] pok.built(sig, &ss.issuer, fixed, r, t, b_tick, b_t)
                ==> ss.revealed(&d) == revealed_entries(fixed),
{
    let c = p.challenge@;
    let (fixed, r, t, b_tick, b_t) = choose|
        fixed: Seq<ProofMessage>,
        r: nat,
        t: nat,
        b_tick: nat,
        b_t: nat,
    | agree(row, fixed) && #[trigger] pok.built(sig, &ss.issuer, fixed, r, t, b_tick, b_t);
    lemma_agree_values(row, fixed);
    lemma_agree_entries(row, fixed, row.len() as int, false);
    lemma_revealed_row(ss, d, claims, row);
    lemma_pok_verifies(pok, sp.pok, sig, ss.issuer, fixed, r, t, b_tick, b_t, c);
    assert forall|other: Seq<ProofMessage>, r2: nat, t2: nat, b2: nat, b3: nat|
        agree(row, other) && #[trigger] pok.built(sig, &ss.issuer, other, r2, t2, b2, b3)
        implies ss.revealed(&d) == revealed_entries(other) by {
        lemma_agree_entries(row, other, row.len() as int, false);
    }
}

/// What the prover of a statement that is proved by relations adds to the
/// transcript.
pub open spec fn linear_trail(st: &Statement, b: &LinearBuilder) -> Seq<Entry> {
    linear_entries(label_of(st), st.name(), logs(b.points@), b.commitment_logs())
}

/// The builder was made for the statement: it is sound, its relations are
/// those that the statement and its points determine, and what it adds to
/// the transcript is no longer than a transcript takes.
pub open spec fn linear_made(
    schema: &PresentationSchema,
    st: &Statement,
    b: &LinearBuilder,
) -> bool {
    &&& !(st is Signature)
    &&& !(st is Equality)
    &&& b.sound()
    &&& b.id@ == st.name()
    &&& Presentation::system_of(schema, st, logs(b.points@)) == Some(
        (views(b.relations@), b.width as int),
    )
    &&& linear_fits(st.name(), logs(b.points@), b.commitment_logs())
}

/// The proof is the answer of the builder to the challenge.
pub open spec fn linear_answered(b: &LinearBuilder, lp: &LinearProof, c: nat) -> bool {
    &&& lp.id@ == b.id@
    &&& lp.points@ == b.points@
    &&& values(lp.responses@) == responses(values(b.blinders@), c, values(b.secrets@))
}

/// The verifier of a statement that is proved by relations adds to its
/// transcript what the prover added.
pub proof fn lemma_linear_answered(
    p: Presentation,
    schema: PresentationSchema,
    st: Statement,
    b: LinearBuilder,
    lp: LinearProof,
)
    requires
        p.linear_proof_of(&st) == Some(lp),
        linear_made(&schema, &st, &b),
        linear_answered(&b, &lp, p.challenge@),
    ensures
        p.entries_of(&schema, &st, p.challenge@) == Some(linear_trail(&st, &b)),
{
    lemma_builder(b, p.challenge@);
    assert(lp.responses@.len() == values(lp.responses@).len());
}

/// The response that the presentation holds for a hidden claim of a
/// credential is the response of the claim and its blinder.
pub proof fn lemma_response_of(
    p: Presentation,
    schema: PresentationSchema,
    ss: SignatureStatement,
    claims: Seq<nat>,
    row: Seq<ProofMessage>,
    sig: Signature,
    pok: PokSignature,
    sp: SignatureProof,
    d: DisclosedMessages,
    claim: int,
)
    requires
        schema.statement_of(ss.id@) == Some(Statement::Signature(ss)),
        p.proof_of(ss.id@) == Some(SubProof::Signature(sp)),
        p.disclosed_of(ss.id@) == Some(d),
        signature_made(&ss, claims, row, sig, &pok, &d),
        signature_answered(&pok, &sp, p.challenge@),
        0 <= claim < row.len(),
        row[claim] is HiddenExternalBlinding,
    ensures
        p.response_of(&schema, ss.id@, claim) == Some(
            response(row[claim].blinder(), p.challenge@, row[claim].message()),
        ),
{
    let c = p.challenge@;
    let (fixed, r, t, b_tick, b_t) = choose|
        fixed: Seq<ProofMessage>,
        r: nat,
        t: nat,
        b_tick: nat,
        b_t: nat,
    | agree(row, fixed) && #[trigger] pok.built(sig, &ss.issuer, fixed, r, t, b_tick, b_t);
    lemma_signature_answered(p, schema, ss, claims, row, sig, pok, sp, d);
    assert(fixed[claim] == row[claim]);
    lemma_linked_response(pok, sp.pok, sig, ss.issuer, fixed, r, t, b_tick, b_t, c, claim);
}

/// The proof is the answer of the builder to the challenge.
pub open spec fn answers(b: &Builder, p: &SubProof, c: nat) -> bool {
    &&& p.name() == b.name()
    &&& p.kind() == b.kind()
    &&& b matches Builder::Signature(_, pok) ==> p matches SubProof::Signature(sp)
        && signature_answered(&pok, &sp, c)
    &&& b matches Builder::Linear(_, lb) ==> p.firsts() == lb.points@ && (lb.blinders.len()
        == lb.secrets.len() ==> values(p.scalars()) == responses(
        values(lb.blinders@),
        c,
        values(lb.secrets@),
    ))
}

/// What the prover of a statement adds to the transcript.
pub open spec fn trail_of(st: &Statement, b: &Builder, d: &DisclosedMessages) -> Seq<Entry> {
    match b {
        Builder::Signature(_, pok) => signature_trail(pok, d),
        Builder::Equality(_) => seq![("equality"@, string_bytes(st.name()))],
        Builder::Linear(_, lb) => linear_trail(st, lb),
    }
}

/// What the prover adds to the transcript for those of the first `k`
/// statements that a pass takes.
pub open spec fn pass_trail(
    statements: Seq<Statement>,
    builders: Seq<Builder>,
    disclosed: Seq<DisclosedMessages>,
    pass: int,
    k: int,
) -> Seq<Entry>
    decreases k,
{
    if k <= 0 {
        Seq::empty()
    } else if Presentation::pass_of(&statements[k - 1]) == pass {
        pass_trail(statements, builders, disclosed, pass, k - 1) + trail_of(
            &statements[k - 1],
            &builders[place(statements, k - 1)],
            &disclosed[place(statements, k - 1)],
        )
    } else {
        pass_trail(statements, builders, disclosed, pass, k - 1)
    }
}

/// What the prover added for the statements of a pass does not change as
/// builders and disclosed claims are added after theirs.
pub proof fn lemma_trail_stable(
    statements: Seq<Statement>,
    b1: Seq<Builder>,
    d1: Seq<DisclosedMessages>,
    b2: Seq<Builder>,
    d2: Seq<DisclosedMessages>,
    pass: int,
    k: int,
)
    requires
        0 <= k <= statements.len(),
        forall|j: int|
            0 <= j < k && Presentation::pass_of(&#[trigger] statements[j]) == pass ==> b2[place(
                statements,
                j,
            )] == b1[place(statements, j)] && (b1[place(statements, j)] is Signature ==> d2[place(
                statements,
                j,
            )] == d1[place(statements, j)]),
    ensures
        pass_trail(statements, b2, d2, pass, k) == pass_trail(statements, b1, d1, pass, k),
    decreases k,
{
    if k > 0 {
        lemma_trail_stable(statements, b1, d1, b2, d2, pass, k - 1);
        if Presentation::pass_of(&statements[k - 1]) == pass {
            assert(b2[place(statements, k - 1)] == b1[place(statements, k - 1)]);
        }
    }
}

/// Where the verifier adds for each statement of a pass what the prover
/// added, it adds for the pass what the prover added.
pub proof fn lemma_pass_answered(
    p: Presentation,
    schema: PresentationSchema,
    builders: Seq<Builder>,
    disclosed: Seq<DisclosedMessages>,
    pass: int,
    k: int,
)
    requires
        0 <= k <= schema.statements.len(),
        forall|i: int|
            0 <= i < k && Presentation::pass_of(&#[trigger] schema.statements[i]) == pass
                ==> p.entries_of(&schema, &schema.statements[i], p.challenge@) == Some(
                trail_of(
                    &schema.statements[i],
                    &builders[place(schema.statements@, i)],
                    &disclosed[place(schema.statements@, i)],
                ),
            ),
    ensures
        p.pass_entries(&schema, p.challenge@, pass, k) == Some(
            pass_trail(schema.statements@, builders, disclosed, pass, k),
        ),
    decreases k,
{
    if k > 0 {
        lemma_pass_answered(p, schema, builders, disclosed, pass, k - 1);
        if Presentation::pass_of(&schema.statements[k - 1]) == pass {
            assert(p.entries_of(&schema, &schema.statements[k - 1], p.challenge@) == Some(
                trail_of(
                    &schema.statements[k - 1],
                    &builders[place(schema.statements@, k - 1)],
                    &disclosed[place(schema.statements@, k - 1)],
                ),
            ));
        }
    }
}

/// The claim that a range is about is a number of the credential that
/// lies in the range.
pub open spec fn in_range(credentials: Seq<NamedCredential>, s: &RangeStatement) -> bool {
    match signed_credential(credentials, s.signature_id@) {
        Some(c) => {
            &&& s.claim < c.claims.len()
            &&& c.claims[s.claim as int] matches ClaimData::Number(v)
            &&& s.lower <= v <= s.upper
        },
        None => false,
    }
}

/// The value of the claim that a reference names, where the reference
/// names a claim of a credential.
pub open spec fn claim_at(
    schema: &PresentationSchema,
    credentials: Seq<NamedCredential>,
    r: ClaimReference,
) -> Option<nat> {
    match schema.statement_of(r.reference_id@) {
        Some(Statement::Signature(ss)) => match signed_credential(credentials, ss.id@) {
            Some(c) => if r.claim < c.claims.len() {
                Some(c.claims[r.claim as int].value())
            } else {
                None
            },
            None => None,
        },
        _ => None,
    }
}

/// The claims that an equality statement names are claims of credentials
/// and are one value.
pub open spec fn claims_equal(
    schema: &PresentationSchema,
    credentials: Seq<NamedCredential>,
    s: &EqualityStatement,
) -> bool {
    forall|k: int|
        0 <= k < s.references.len() ==> (#[trigger] claim_at(
            schema,
            credentials,
            s.references[k],
        )) is Some && claim_at(schema, credentials, s.references[k]) == claim_at(
            schema,
            credentials,
            s.references[0],
        )
}

/// The builder of a statement was made of the credentials and rows as
/// the statement asks, so that its answer to any challenge passes.
pub open spec fn sealed(
    schema: &PresentationSchema,
    credentials: Seq<NamedCredential>,
    rows: Seq<Seq<ProofMessage>>,
    builders: Seq<Builder>,
    disclosed: Seq<DisclosedMessages>,
    i: int,
) -> bool {
    let st = schema.statements[i];
    let k = place(schema.statements@, i);
    let b = builders[k];
    &&& 0 <= k < builders.len()
    &&& 0 <= i < rows.len()
    &&& b.name() == st.name()
    &&& b.kind() == st.kind()
    &&& match st {
        Statement::Signature(ss) => match (b, signed_credential(credentials, ss.id@)) {
            (Builder::Signature(_, pok), Some(c)) => k < disclosed.len() && disclosed[k].id@
                == ss.id@ && signature_made(
                &ss,
                claim_values(c.claims@),
                rows[i],
                c.signature,
                &pok,
                &disclosed[k],
            ),
            _ => false,
        },
        Statement::Equality(s) => b is Equality && s.references.len() > 0 && string_bytes(
            s.id@,
        ).len() <= u32::MAX && shares(schema, rows, i),
        Statement::Range(s) => b matches Builder::Linear(_, lb) && linear_made(schema, &st, &lb)
            && in_range(credentials, &s) && match first_named(
            statement_names(schema.statements@),
            s.reference_id@,
        ) {
            Some(ci) => match (schema.statements[ci], builders[place(schema.statements@, ci)]) {
                (Statement::Commitment(cs), Builder::Linear(_, cb)) => {
                    &&& Presentation::pass_of(&schema.statements[ci]) == 1
                    &&& 0 <= place(schema.statements@, ci) < builders.len()
                    &&& cs.reference_id@ == s.signature_id@
                    &&& cs.claim == s.claim
                    &&& cb.points.len() == 1
                    &&& range_shaped(s.lower, s.upper, lb.points.len() as nat)
                    &&& range_holds(
                        cs.message_generator@,
                        cb.points[0]@,
                        s.lower as nat,
                        s.upper as nat,
                        logs(lb.points@),
                    )
                },
                _ => false,
            },
            None => false,
        },
        _ => b matches Builder::Linear(_, lb) && linear_made(schema, &st, &lb) && lb.secrets.len()
            > 0 && lb.blinders.len() == lb.secrets.len() && match subject_of(&st) {
            Some(subject) => blinded_by(
                cell(schema, rows, subject.0, subject.1),
                lb.secrets[0]@,
                lb.blinders[0]@,
            ),
            None => false,
        } && (st matches Statement::Membership(ms) ==> lb.points.len() == 2 && ms.holds(
            logs(lb.points@),
        )) && (st matches Statement::Revocation(ms) ==> lb.points.len() == 2 && ms.holds(
            logs(lb.points@),
        )),
    }
}

/// The proofs are the answers of the builders, in their order, and the
/// disclosed claims are those that the prover made.
pub open spec fn answered(
    p: &Presentation,
    schema: &PresentationSchema,
    builders: Seq<Builder>,
    disclosed: Seq<DisclosedMessages>,
) -> bool {
    &&& schema.distinct()
    &&& p.proofs.len() == builders.len()
    &&& forall|k: int|
        0 <= k < builders.len() ==> answers(&builders[k], &#[trigger] p.proofs[k], p.challenge@)
    &&& proof_names(p.proofs@) == ordered_names(schema.statements@)
    &&& p.disclosed_messages@ == disclosed
    &&& disclosed_names(disclosed) == pass_names(
        schema.statements@,
        0,
        schema.statements.len() as int,
    )
}

/// The verifier finds the proof and the disclosed claims of a statement
/// where the prover put them.
pub proof fn lemma_lookup(
    p: Presentation,
    schema: PresentationSchema,
    builders: Seq<Builder>,
    disclosed: Seq<DisclosedMessages>,
    i: int,
)
    requires
        answered(&p, &schema, builders, disclosed),
        0 <= i < schema.statements.len(),
    ensures
        0 <= place(schema.statements@, i) < builders.len(),
        p.proof_of(schema.statements[i].name()) == Some(p.proofs[place(schema.statements@, i)]),
        schema.statement_of(schema.statements[i].name()) == Some(schema.statements[i]),
        first_named(statement_names(schema.statements@), schema.statements[i].name()) == Some(i),
        schema.statements[i] is Signature ==> place(schema.statements@, i) < disclosed.len()
            && p.disclosed_of(schema.statements[i].name()) == Some(
            disclosed[place(schema.statements@, i)],
        ),
{
    lemma_place_found(schema, i);
    lemma_statement_found(schema, i);
    assert(proof_names(p.proofs@).len() == p.proofs.len());
    if schema.statements[i] is Signature {
        lemma_pass_found(schema, 0, i);
        lemma_rank_grows(schema.statements@, 0, i, schema.statements.len() as int);
        assert(disclosed_names(disclosed).len() == disclosed.len());
    }
}

/// The response that the presentation holds for a claim that was given a
/// blinder is the response of the claim and that blinder.
pub proof fn lemma_reference(
    p: Presentation,
    schema: PresentationSchema,
    credentials: Seq<NamedCredential>,
    rows: Seq<Seq<ProofMessage>>,
    builders: Seq<Builder>,
    disclosed: Seq<DisclosedMessages>,
    reference_id: Seq<char>,
    claim: int,
    message: nat,
    blinder: nat,
)
    requires
        answered(&p, &schema, builders, disclosed),
        forall|j: int|
            0 <= j < schema.statements.len() ==> #[trigger] sealed(
                &schema,
                credentials,
                rows,
                builders,
                disclosed,
                j,
            ),
        blinded_by(cell(&schema, rows, reference_id, claim), message, blinder),
    ensures
        p.response_of(&schema, reference_id, claim) == Some(
            response(blinder, p.challenge@, message),
        ),
{
    let names = statement_names(schema.statements@);
    lemma_first(names, reference_id, 0);
    let si = first_named(names, reference_id).unwrap();
    assert(names[si] == schema.statements[si].name());
    assert(sealed(&schema, credentials, rows, builders, disclosed, si));
    lemma_lookup(p, schema, builders, disclosed, si);
    let k = place(schema.statements@, si);
    match (schema.statements[si], builders[k], p.proofs[k]) {
        (Statement::Signature(ss), Builder::Signature(_, pok), SubProof::Signature(sp)) => {
            let c = signed_credential(credentials, ss.id@).unwrap();
            assert(answers(&builders[k], &p.proofs[k], p.challenge@));
            lemma_response_of(
                p,
                schema,
                ss,
                claim_values(c.claims@),
                rows[si],
                c.signature,
                pok,
                sp,
                disclosed[k],
                claim,
            );
        },
        _ => {
            assert(answers(&builders[k], &p.proofs[k], p.challenge@));
        },
    }
}

/// The verifier adds for a signature statement what the prover added, and
/// finds the equation of its proof to hold.
proof fn lemma_signature_statement(
    p: Presentation,
    schema: PresentationSchema,
    credentials: Seq<NamedCredential>,
    rows: Seq<Seq<ProofMessage>>,
    builders: Seq<Builder>,
    disclosed: Seq<DisclosedMessages>,
    i: int,
)
    requires
        answered(&p, &schema, builders, disclosed),
        forall|j: int|
            0 <= j < schema.statements.len() ==> #[trigger] sealed(
                &schema,
                credentials,
                rows,
                builders,
                disclosed,
                j,
            ),
        0 <= i < schema.statements.len(),
        schema.statements[i] is Signature,
    ensures
        p.entries_of(&schema, &schema.statements[i], p.challenge@) == Some(
            trail_of(
                &schema.statements[i],
                &builders[place(schema.statements@, i)],
                &disclosed[place(schema.statements@, i)],
            ),
        ),
        p.holds_of(&schema, &schema.statements[i]),
{
    let st = schema.statements[i];
    let k = place(schema.statements@, i);
    let c = p.challenge@;
    assert(sealed(&schema, credentials, rows, builders, disclosed, i));
    lemma_lookup(p, schema, builders, disclosed, i);
    assert(answers(&builders[k], &p.proofs[k], c));
    let ss = st->Signature_0;
    let pok = builders[k]->Signature_1;
    assert(p.proofs[k] is Signature);
    let sp = p.proofs[k]->Signature_0;
    let cred = signed_credential(credentials, ss.id@).unwrap();
    let d = disclosed[k];
    assert(st == Statement::Signature(ss));
    assert(builders[k] == Builder::Signature(builders[k]->Signature_0, pok));
    assert(p.proofs[k] == SubProof::Signature(sp));
    assert(signature_made(&ss, claim_values(cred.claims@), rows[i], cred.signature, &pok, &d));
    assert(signature_answered(&pok, &sp, c));
    lemma_signature_answered(
        p,
        schema,
        ss,
        claim_values(cred.claims@),
        rows[i],
        cred.signature,
        pok,
        sp,
        d,
    );
    assert(trail_of(&st, &builders[k], &d) == signature_trail(&pok, &d));
}

/// The verifier adds for an equality statement what the prover added, and
/// finds the claims to have one response.
proof fn lemma_equality_statement(
    p: Presentation,
    schema: PresentationSchema,
    credentials: Seq<NamedCredential>,
    rows: Seq<Seq<ProofMessage>>,
    builders: Seq<Builder>,
    disclosed: Seq<DisclosedMessages>,
    i: int,
)
    requires
        answered(&p, &schema, builders, disclosed),
        forall|j: int|
            0 <= j < schema.statements.len() ==> #[trigger] sealed(
                &schema,
                credentials,
                rows,
                builders,
                disclosed,
                j,
            ),
        0 <= i < schema.statements.len(),
        schema.statements[i] is Equality,
    ensures
        p.entries_of(&schema, &schema.statements[i], p.challenge@) == Some(
            trail_of(
                &schema.statements[i],
                &builders[place(schema.statements@, i)],
                &disclosed[place(schema.statements@, i)],
            ),
        ),
        p.holds_of(&schema, &schema.statements[i]),
{
    let st = schema.statements[i];
    let k = place(schema.statements@, i);
    let c = p.challenge@;
    assert(sealed(&schema, credentials, rows, builders, disclosed, i));
    lemma_lookup(p, schema, builders, disclosed, i);
    assert(answers(&builders[k], &p.proofs[k], c));
    let s = st->Equality_0;
    assert(st == Statement::Equality(s));
    assert(p.proofs[k] is Equality);
    assert(builders[k] is Equality);
    assert(shares(&schema, rows, i));
    let (message, blinder) = choose|message: nat, blinder: nat|
        #[trigger] all_blinded_by(&schema, rows, s.references@, message, blinder);
    assert forall|j: int| 0 <= j < s.references.len() implies {
        &&& (#[trigger] p.reference_response(&schema, s.references[j])) is Some
        &&& p.reference_response(&schema, s.references[j]) == p.reference_response(
            &schema,
            s.references[0],
        )
    } by {
        assert(blinded_by(
            cell(&schema, rows, s.references[j].reference_id@, s.references[j].claim as int),
            message,
            blinder,
        ));
        assert(blinded_by(
            cell(&schema, rows, s.references[0].reference_id@, s.references[0].claim as int),
            message,
            blinder,
        ));
        lemma_reference(
            p,
            schema,
            credentials,
            rows,
            builders,
            disclosed,
            s.references[j].reference_id@,
            s.references[j].claim as int,
            message,
            blinder,
        );
        lemma_reference(
            p,
            schema,
            credentials,
            rows,
            builders,
            disclosed,
            s.references[0].reference_id@,
            s.references[0].claim as int,
            message,
            blinder,
        );
    }
}

/// The verifier adds for a range what the prover added, and finds the bit
/// commitments to add up.
proof fn lemma_range_statement(
    p: Presentation,
    schema: PresentationSchema,
    credentials: Seq<NamedCredential>,
    rows: Seq<Seq<ProofMessage>>,
    builders: Seq<Builder>,
    disclosed: Seq<DisclosedMessages>,
    i: int,
)
    requires
        answered(&p, &schema, builders, disclosed),
        forall|j: int|
            0 <= j < schema.statements.len() ==> #[trigger] sealed(
                &schema,
                credentials,
                rows,
                builders,
                disclosed,
                j,
            ),
        0 <= i < schema.statements.len(),
        schema.statements[i] is Range,
    ensures
        p.entries_of(&schema, &schema.statements[i], p.challenge@) == Some(
            trail_of(
                &schema.statements[i],
                &builders[place(schema.statements@, i)],
                &disclosed[place(schema.statements@, i)],
            ),
        ),
        p.holds_of(&schema, &schema.statements[i]),
{
    let st = schema.statements[i];
    let k = place(schema.statements@, i);
    let c = p.challenge@;
    assert(sealed(&schema, credentials, rows, builders, disclosed, i));
    lemma_lookup(p, schema, builders, disclosed, i);
    assert(answers(&builders[k], &p.proofs[k], c));
    let s = st->Range_0;
    assert(st == Statement::Range(s));
    assert(builders[k] is Linear);
    let lb = builders[k]->Linear_1;
    assert(p.proofs[k] is Range);
    let lp = p.proofs[k]->Range_0;
    assert(p.linear_proof_of(&st) == Some(lp));
    assert(lp.responses@.len() == values(lp.responses@).len());
    assert(linear_answered(&lb, &lp, c));
    lemma_linear_answered(p, schema, st, lb, lp);
    let names = statement_names(schema.statements@);
    lemma_first(names, s.reference_id@, 0);
    let ci = first_named(names, s.reference_id@).unwrap();
    assert(names[ci] == schema.statements[ci].name());
    lemma_lookup(p, schema, builders, disclosed, ci);
    let kc = place(schema.statements@, ci);
    assert(sealed(&schema, credentials, rows, builders, disclosed, ci));
    assert(answers(&builders[kc], &p.proofs[kc], c));
    assert(schema.statements[ci] is Commitment);
    assert(p.proofs[kc] is Commitment);
    let cp = p.proofs[kc]->Commitment_0;
    let cb = builders[kc]->Linear_1;
    assert(cp.points@ == cb.points@);
    assert(logs(lp.points@) == logs(lb.points@));
}

/// The verifier adds for a statement about one hidden claim what the
/// prover added, and finds the claim's response to be that of the
/// credential's proof.
proof fn lemma_subject_statement(
    p: Presentation,
    schema: PresentationSchema,
    credentials: Seq<NamedCredential>,
    rows: Seq<Seq<ProofMessage>>,
    builders: Seq<Builder>,
    disclosed: Seq<DisclosedMessages>,
    i: int,
)
    requires
        answered(&p, &schema, builders, disclosed),
        forall|j: int|
            0 <= j < schema.statements.len() ==> #[trigger] sealed(
                &schema,
                credentials,
                rows,
                builders,
                disclosed,
                j,
            ),
        0 <= i < schema.statements.len(),
        subject_of(&schema.statements[i]) is Some,
    ensures
        p.entries_of(&schema, &schema.statements[i], p.challenge@) == Some(
            trail_of(
                &schema.statements[i],
                &builders[place(schema.statements@, i)],
                &disclosed[place(schema.statements@, i)],
            ),
        ),
        p.holds_of(&schema, &schema.statements[i]),
{
    let st = schema.statements[i];
    let k = place(schema.statements@, i);
    let c = p.challenge@;
    assert(sealed(&schema, credentials, rows, builders, disclosed, i));
    lemma_lookup(p, schema, builders, disclosed, i);
    assert(answers(&builders[k], &p.proofs[k], c));
    assert(builders[k] is Linear);
    let lb = builders[k]->Linear_1;
    let lp = p.linear_proof_of(&st).unwrap();
    assert(p.linear_proof_of(&st) == Some(lp)) by {
        match st {
            Statement::Commitment(_) => {
                assert(p.proofs[k] is Commitment);
            },
            Statement::VerifiableEncryption(_) => {
                assert(p.proofs[k] is VerifiableEncryption);
            },
            Statement::VerifiableEncryptionDecryption(_) => {
                assert(p.proofs[k] is VerifiableEncryptionDecryption);
            },
            Statement::Membership(_) => {
                assert(p.proofs[k] is Membership);
            },
            Statement::Revocation(_) => {
                assert(p.proofs[k] is Revocation);
            },
            _ => {},
        }
    }
    assert(lp.id@ == p.proofs[k].name());
    assert(lp.points@ == p.proofs[k].firsts());
    assert(lp.responses@ == p.proofs[k].scalars());
    assert(lp.responses@.len() == values(lp.responses@).len());
    assert(linear_answered(&lb, &lp, c));
    lemma_linear_answered(p, schema, st, lb, lp);
    let subject = subject_of(&st).unwrap();
    lemma_reference(
        p,
        schema,
        credentials,
        rows,
        builders,
        disclosed,
        subject.0,
        subject.1,
        lb.secrets[0]@,
        lb.blinders[0]@,
    );
    assert(values(lp.responses@)[0] == lp.responses[0]@);
    assert(p.linked(&schema, &lp, subject.0, subject.1));
}

/// The verifier adds for a statement what the prover added, and finds the
/// equations of its proof to hold.
pub proof fn lemma_statement_answered(
    p: Presentation,
    schema: PresentationSchema,
    credentials: Seq<NamedCredential>,
    rows: Seq<Seq<ProofMessage>>,
    builders: Seq<Builder>,
    disclosed: Seq<DisclosedMessages>,
    i: int,
)
    requires
        answered(&p, &schema, builders, disclosed),
        forall|j: int|
            0 <= j < schema.statements.len() ==> #[trigger] sealed(
                &schema,
                credentials,
                rows,
                builders,
                disclosed,
                j,
            ),
        0 <= i < schema.statements.len(),
    ensures
        p.entries_of(&schema, &schema.statements[i], p.challenge@) == Some(
            trail_of(
                &schema.statements[i],
                &builders[place(schema.statements@, i)],
                &disclosed[place(schema.statements@, i)],
            ),
        ),
        p.holds_of(&schema, &schema.statements[i]),
{
    match schema.statements[i] {
        Statement::Signature(_) => {
            lemma_signature_statement(p, schema, credentials, rows, builders, disclosed, i);
        },
        Statement::Equality(_) => {
            lemma_equality_statement(p, schema, credentials, rows, builders, disclosed, i);
        },
        Statement::Range(_) => {
            lemma_range_statement(p, schema, credentials, rows, builders, disclosed, i);
        },
        _ => {
            lemma_subject_statement(p, schema, credentials, rows, builders, disclosed, i);
        },
    }
}

/// A presentation of the answers of builders that were made as the
/// statements ask, under the challenge that the prover's transcript gives,
/// proves the statements of the schema.
pub proof fn lemma_created(
    p: Presentation,
    schema: PresentationSchema,
    nonce: Seq<u8>,
    credentials: Seq<NamedCredential>,
    rows: Seq<Seq<ProofMessage>>,
    builders: Seq<Builder>,
    disclosed: Seq<DisclosedMessages>,
)
    requires
        answered(&p, &schema, builders, disclosed),
        forall|j: int|
            0 <= j < schema.statements.len() ==> #[trigger] sealed(
                &schema,
                credentials,
                rows,
                builders,
                disclosed,
                j,
            ),
        nonce.len() <= u32::MAX,
        schema.encoding().len() <= u32::MAX,
        p.challenge@ == challenge_scalar_of(
            opening_log(nonce, schema.encoding()) + pass_trail(
                schema.statements@,
                builders,
                disclosed,
                0,
                schema.statements.len() as int,
            ) + pass_trail(
                schema.statements@,
                builders,
                disclosed,
                1,
                schema.statements.len() as int,
            ) + pass_trail(
                schema.statements@,
                builders,
                disclosed,
                2,
                schema.statements.len() as int,
            ),
            challenge_label(),
        ),
    ensures
        p.verifies(&schema, nonce),
{
    let n = schema.statements.len() as int;
    lemma_all_answered(p, schema, credentials, rows, builders, disclosed);
    lemma_pass_answered(p, schema, builders, disclosed, 0, n);
    lemma_pass_answered(p, schema, builders, disclosed, 1, n);
    lemma_pass_answered(p, schema, builders, disclosed, 2, n);
    let log = opening_log(nonce, schema.encoding()) + pass_trail(
        schema.statements@,
        builders,
        disclosed,
        0,
        n,
    ) + pass_trail(schema.statements@, builders, disclosed, 1, n) + pass_trail(
        schema.statements@,
        builders,
        disclosed,
        2,
        n,
    );
    assert(p.full_log(&schema, nonce) == Some(log));
}

/// The verifier adds for every statement what the prover added, and finds
/// the equations of every proof to hold.
pub proof fn lemma_all_answered(
    p: Presentation,
    schema: PresentationSchema,
    credentials: Seq<NamedCredential>,
    rows: Seq<Seq<ProofMessage>>,
    builders: Seq<Builder>,
    disclosed: Seq<DisclosedMessages>,
)
    requires
        answered(&p, &schema, builders, disclosed),
        forall|j: int|
            0 <= j < schema.statements.len() ==> #[trigger] sealed(
                &schema,
                credentials,
                rows,
                builders,
                disclosed,
                j,
            ),
    ensures
        forall|i: int|
            0 <= i < schema.statements.len() ==> p.entries_of(
                &schema,
                &#[trigger] schema.statements[i],
                p.challenge@,
            ) == Some(
                trail_of(
                    &schema.statements[i],
                    &builders[place(schema.statements@, i)],
                    &disclosed[place(schema.statements@, i)],
                ),
            ) && p.holds_of(&schema, &schema.statements[i]),
{
    assert forall|i: int| 0 <= i < schema.statements.len() implies p.entries_of(
        &schema,
        &#[trigger] schema.statements[i],
        p.challenge@,
    ) == Some(
        trail_of(
            &schema.statements[i],
            &builders[place(schema.statements@, i)],
            &disclosed[place(schema.statements@, i)],
        ),
    ) && p.holds_of(&schema, &schema.statements[i]) by {
        lemma_statement_answered(p, schema, credentials, rows, builders, disclosed, i);
    }
}

/// One sequence begins with the other.
pub open spec fn extends<T>(longer: Seq<T>, shorter: Seq<T>) -> bool {
    shorter.len() <= longer.len() && forall|k: int|
        0 <= k < shorter.len() ==> #[trigger] longer[k] == shorter[k]
}

/// A builder that was made as its statement asks still is when builders
/// and disclosed claims are added.
pub proof fn lemma_sealed_kept(
    schema: &PresentationSchema,
    credentials: Seq<NamedCredential>,
    rows: Seq<Seq<ProofMessage>>,
    b1: Seq<Builder>,
    d1: Seq<DisclosedMessages>,
    b2: Seq<Builder>,
    d2: Seq<DisclosedMessages>,
    j: int,
)
    requires
        sealed(schema, credentials, rows, b1, d1, j),
        extends(b2, b1),
        extends(d2, d1),
    ensures
        sealed(schema, credentials, rows, b2, d2, j),
{
    let k = place(schema.statements@, j);
    assert(b2[k] == b1[k]);
    match schema.statements[j] {
        Statement::Signature(_) => {
            assert(d2[k] == d1[k]);
        },
        Statement::Range(s) => {
            match first_named(statement_names(schema.statements@), s.reference_id@) {
                Some(ci) => {
                    assert(b2[place(schema.statements@, ci)] == b1[place(schema.statements@, ci)]);
                },
                None => {},
            }
        },
        _ => {},
    }
}

/// Where every builder was made as its statement asks, the claims that an
/// equality statement names are one value.
pub proof fn lemma_claims_equal(
    schema: PresentationSchema,
    credentials: Seq<NamedCredential>,
    rows: Seq<Seq<ProofMessage>>,
    builders: Seq<Builder>,
    disclosed: Seq<DisclosedMessages>,
    i: int,
)
    requires
        forall|j: int|
            0 <= j < schema.statements.len() ==> #[trigger] sealed(
                &schema,
                credentials,
                rows,
                builders,
                disclosed,
                j,
            ),
        0 <= i < schema.statements.len(),
        schema.statements[i] is Equality,
    ensures
        claims_equal(&schema, credentials, &schema.statements[i]->Equality_0),
{
    let s = schema.statements[i]->Equality_0;
    assert(sealed(&schema, credentials, rows, builders, disclosed, i));
    assert(schema.statements[i] == Statement::Equality(s));
    let (message, blinder) = choose|message: nat, blinder: nat|
        #[trigger] all_blinded_by(&schema, rows, s.references@, message, blinder);
    assert forall|k: int| 0 <= k < s.references.len() implies claim_at(
        &schema,
        credentials,
        #[trigger] s.references[k],
    ) == Some(message) by {
        let r = s.references[k];
        assert(blinded_by(cell(&schema, rows, r.reference_id@, r.claim as int), message, blinder));
        let names = statement_names(schema.statements@);
        lemma_first(names, r.reference_id@, 0);
        let si = first_named(names, r.reference_id@).unwrap();
        assert(names[si] == schema.statements[si].name());
        assert(sealed(&schema, credentials, rows, builders, disclosed, si));
        let ss = schema.statements[si]->Signature_0;
        assert(schema.statements[si] == Statement::Signature(ss));
        let c = signed_credential(credentials, ss.id@).unwrap();
        assert(rows[si][r.claim as int].message() == claim_values(c.claims@)[r.claim as int]);
    }
    assert(claim_at(&schema, credentials, s.references[0]) == Some(message));
}

/// The values of a sequence of claims.
pub open spec fn claim_values(claims: Seq<ClaimData>) -> Seq<nat> {
    claims.map_values(|c: ClaimData| c.value())
}

} // verus!
