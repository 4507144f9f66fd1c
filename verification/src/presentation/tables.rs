//! How each claim of each credential enters a presentation.
//!
//! There is a row for each statement of the schema: for a signature
//! statement, the messages of its credential, each revealed or hidden; for
//! any other statement, no message. A hidden claim that another statement
//! is about is given a blinder of its own, which the proofs of both
//! statements use; claims that an equality statement names share one.

use vstd::prelude::*;
use rand_core::OsRng;
use crate::error::Error;
use crate::field::Scalar;
use crate::presentation::claim::ClaimData;
use crate::presentation::credential::{
    credential_names, find_credential, NamedCredential, PresentationCredential, SignatureCredential,
};
use crate::presentation::lookup::first_named;
use crate::presentation::rules::subject_of;
use crate::presentation::statement::{
    ClaimReference, PresentationSchema, SignatureStatement, Statement, statement_names,
};
use crate::ps::keys::MAX_MESSAGES;
use crate::ps::proof_message::ProofMessage;

verus! {

/// Whether the indices increase and lie below `n`.
pub open spec fn increasing_below(indices: Seq<usize>, n: int) -> bool {
    &&& forall|i: int| 0 <= i < indices.len() ==> (#[trigger] indices[i]) < n
    &&& forall|i: int, j: int|
        0 <= i < j < indices.len() ==> (#[trigger] indices[i]) < (#[trigger] indices[j])
}

/// Whether the indices increase and lie below `n`.
pub fn check_increasing(indices: &Vec<usize>, n: usize) -> (r: bool)
    ensures
        r == increasing_below(indices@, n as int),
{
    let mut i: usize = 0;
    while i < indices.len()
        invariant
            i <= indices.len(),
            forall|k: int| 0 <= k < i ==> (#[trigger] indices[k]) < n,
            forall|k: int, j: int|
                0 <= k < j < i ==> (#[trigger] indices[k]) < (#[trigger] indices[j]),
        decreases indices.len() - i,
    {
        if indices[i] >= n {
            return false;
        }
        if i > 0 && indices[i - 1] >= indices[i] {
            return false;
        }
        proof {
            assert forall|k: int, j: int| 0 <= k < j < i + 1 implies (#[trigger] indices[k]) < (
            #[trigger] indices[j]) by {
                if j == i && k < i - 1 {
                    assert(indices[k] < indices[i - 1]);
                }
            }
        }
        i += 1;
    }
    true
}

/// Whether an index is among the indices.
pub fn is_among(indices: &Vec<usize>, index: usize) -> (r: bool)
    ensures
        r == indices@.contains(index),
{
    let mut i: usize = 0;
    while i < indices.len()
        invariant
            i <= indices.len(),
            forall|k: int| 0 <= k < i ==> indices[k] != index,
        decreases indices.len() - i,
    {
        if indices[i] == index {
            return true;
        }
        i += 1;
    }
    false
}

impl SignatureStatement {
    /// The statement can be proved of the claims: there is a claim for
    /// each label, the issuer's key has a point for each and one more, and
    /// the disclosed indices increase and are indices of claims.
    pub open spec fn fits(&self, claims: Seq<ClaimData>) -> bool {
        &&& claims.len() == self.labels.len()
        &&& claims.len() <= MAX_MESSAGES
        &&& self.issuer.y_tilde.len() == claims.len() + 1
        &&& increasing_below(self.disclosed@, claims.len() as int)
    }

    /// The messages of the credential's claims: revealed where the
    /// statement discloses them, else hidden behind a blinder of the proof's own.
    pub fn messages(&self, claims: &Vec<ClaimData>) -> (r: Result<Vec<ProofMessage>, Error>)
        ensures
            r.is_ok() == self.fits(claims@),
            r matches Ok(v) ==> {
                &&& v.len() == claims.len()
                &&& forall|j: int|
                    0 <= j < v.len() ==> (#[trigger] v[j]).message() == claims[j].value()
                        && v[j].hidden() == !self.disclosed@.contains(j as usize) && !(v[j]
                        is HiddenExternalBlinding)
            },
            r matches Err(e) ==> e == Error::InvalidPresentationData,
    {
        if claims.len() != self.labels.len() || claims.len() > MAX_MESSAGES
            || self.issuer.y_tilde.len() != claims.len() + 1 || !check_increasing(
            &self.disclosed,
            claims.len(),
        ) {
            return Err(Error::InvalidPresentationData);
        }
        let mut out: Vec<ProofMessage> = Vec::new();
        let mut j: usize = 0;
        while j < claims.len()
            invariant
                j <= claims.len(),
                out.len() == j,
                forall|i: int|
                    0 <= i < j ==> (#[trigger] out[i]).message() == claims[i].value()
                        && out[i].hidden() == !self.disclosed@.contains(i as usize) && !(out[i]
                        is HiddenExternalBlinding),
            decreases claims.len() - j,
        {
            let m = claims[j].to_scalar();
            if is_among(&self.disclosed, j) {
                out.push(ProofMessage::Revealed(m));
            } else {
                out.push(ProofMessage::HiddenProofSpecific(m));
            }
            j += 1;
        }
        Ok(out)
    }
}

/// A copy of a row of messages with one message replaced. The index must
/// be one of the row.
pub(crate) fn with_message(row: &Vec<ProofMessage>, index: usize, message: ProofMessage) -> (r: Vec<
    ProofMessage,
>)
    requires
        index < row.len(),
    ensures
        r@ == row@.update(index as int, message),
{
    let mut out: Vec<ProofMessage> = Vec::new();
    let mut i: usize = 0;
    while i < row.len()
        invariant
            i <= row.len(),
            index < row.len(),
            out@ == row@.update(index as int, message).take(i as int),
        decreases row.len() - i,
    {
        if i == index {
            out.push(message);
        } else {
            out.push(row[i]);
        }
        assert(out@ =~= row@.update(index as int, message).take(i + 1));
        i += 1;
    }
    assert(out@ =~= row@.update(index as int, message));
    out
}

/// The number of signature statements among the first `k` statements.
pub open spec fn signature_count(statements: Seq<Statement>, k: int) -> nat
    decreases k,
{
    if k <= 0 {
        0
    } else if statements[k - 1] is Signature {
        signature_count(statements, k - 1) + 1
    } else {
        signature_count(statements, k - 1)
    }
}

/// Every signature statement has a credential of its name, which is a
/// signed vector of claims that the statement can be proved of.
pub open spec fn credentials_fit(
    credentials: Seq<NamedCredential>,
    schema: &PresentationSchema,
) -> bool {
    forall|i: int|
        0 <= i < schema.statements.len() ==> (#[trigger] schema.statements[i]
            matches Statement::Signature(ss) ==> has_credential(credentials, &ss))
}

/// The signed credential of the given name, if there is one.
pub open spec fn signed_credential(credentials: Seq<NamedCredential>, id: Seq<char>) -> Option<
    SignatureCredential,
> {
    match first_named(credential_names(credentials), id) {
        Some(k) => match credentials[k].credential {
            PresentationCredential::Signature(c) => Some(c),
            _ => None,
        },
        None => None,
    }
}

/// The statement has a credential of its name, which is a signed vector
/// of claims that the statement can be proved of.
pub open spec fn has_credential(
    credentials: Seq<NamedCredential>,
    ss: &SignatureStatement,
) -> bool {
    match signed_credential(credentials, ss.id@) {
        Some(c) => ss.fits(c.claims@),
        None => false,
    }
}

/// The row holds the messages of the statement's credential: its claims,
/// revealed where the statement discloses them and hidden elsewhere.
pub open spec fn row_fits(
    credentials: Seq<NamedCredential>,
    ss: &SignatureStatement,
    row: Seq<ProofMessage>,
) -> bool {
    match signed_credential(credentials, ss.id@) {
        Some(c) => {
            &&& ss.fits(c.claims@)
            &&& row.len() == c.claims.len()
            &&& forall|j: int|
                0 <= j < row.len() ==> (#[trigger] row[j]).message() == c.claims[j].value()
                    && row[j].hidden() == !ss.disclosed@.contains(j as usize)
        },
        None => false,
    }
}

/// The rows of messages of the statements of a schema: for each signature
/// statement, the messages of its credential; for any other, none. There
/// must be no more signature statements than credentials, and each must
/// have its credential.
pub fn build_tables(credentials: &Vec<NamedCredential>, schema: &PresentationSchema) -> (r: Result<
    Vec<Vec<ProofMessage>>,
    Error,
>)
    ensures
        r.is_ok() == (signature_count(schema.statements@, schema.statements.len() as int)
            <= credentials.len() && credentials_fit(credentials@, schema)),
        r matches Ok(t) ==> t.len() == schema.statements.len() && forall|i: int|
            0 <= i < schema.statements.len() ==> (#[trigger] schema.statements[i]
                matches Statement::Signature(ss) ==> row_fits(credentials@, &ss, rows(t@)[i])),
        r matches Ok(t) ==> forall|i: int|
            0 <= i < schema.statements.len() && !(#[trigger] schema.statements[i] is Signature)
                ==> rows(t@)[i].len() == 0,
        r matches Err(e) ==> e == Error::InvalidPresentationData,
{
    let n = schema.statements.len();
    let mut count: usize = 0;
    let mut i: usize = 0;
    while i < n
        invariant
            i <= n,
            n == schema.statements.len(),
            count == signature_count(schema.statements@, i as int),
            count <= i,
        decreases n - i,
    {
        match &schema.statements[i] {
            Statement::Signature(_) => {
                count += 1;
            },
            _ => {},
        }
        i += 1;
    }
    if count > credentials.len() {
        return Err(Error::InvalidPresentationData);
    }
    let mut tables: Vec<Vec<ProofMessage>> = Vec::new();
    let mut i: usize = 0;
    while i < n
        invariant
            i <= n,
            n == schema.statements.len(),
            tables.len() == i,
            forall|j: int|
                0 <= j < i ==> (#[trigger] schema.statements[j] matches Statement::Signature(ss)
                    ==> has_credential(credentials@, &ss) && row_fits(
                    credentials@,
                    &ss,
                    rows(tables@)[j],
                )),
            forall|j: int|
                0 <= j < i && !(#[trigger] schema.statements[j] is Signature) ==> rows(
                    tables@,
                )[j].len() == 0,
        decreases n - i,
    {
        let ghost before = rows(tables@);
        match &schema.statements[i] {
            Statement::Signature(ss) => {
                match find_credential(credentials, &ss.id) {
                    None => {
                        assert(!has_credential(credentials@, ss));
                        return Err(Error::InvalidPresentationData);
                    },
                    Some(k) => match &credentials[k].credential {
                        PresentationCredential::Signature(c) => match ss.messages(&c.claims) {
                            Ok(row) => {
                                tables.push(row);
                            },
                            Err(e) => {
                                assert(!has_credential(credentials@, ss));
                                return Err(e);
                            },
                        },
                        _ => {
                            assert(!has_credential(credentials@, ss));
                            return Err(Error::InvalidPresentationData);
                        },
                    },
                }
            },
            _ => {
                tables.push(Vec::new());
            },
        }
        proof {
            let after = rows(tables@);
            assert forall|j: int| 0 <= j < i implies after[j] == before[j] by {
                assert(after[j] == tables[j]@);
            }
            assert(after[i as int] == tables[i as int]@);
        }
        i += 1;
    }
    Ok(tables)
}

/// The rows of messages as sequences.
pub open spec fn rows(tables: Seq<Vec<ProofMessage>>) -> Seq<Seq<ProofMessage>> {
    tables.map_values(|r: Vec<ProofMessage>| r@)
}

/// The message at a claim of a credential, where the statement of that
/// name is a signature statement and has such a claim.
pub open spec fn cell(
    schema: &PresentationSchema,
    rows: Seq<Seq<ProofMessage>>,
    reference_id: Seq<char>,
    claim: int,
) -> Option<ProofMessage> {
    match first_named(statement_names(schema.statements@), reference_id) {
        Some(si) => if schema.statements[si] is Signature && 0 <= si < rows.len() && 0 <= claim
            < rows[si].len() {
            Some(rows[si][claim])
        } else {
            None
        },
        None => None,
    }
}

/// Later rows keep what earlier rows hold: there are as many rows of the
/// same lengths, every message is the same and hidden or revealed as
/// before, and every blinder that a message brought is the same.
pub open spec fn keeps(before: Seq<Seq<ProofMessage>>, after: Seq<Seq<ProofMessage>>) -> bool {
    &&& after.len() == before.len()
    &&& forall|i: int| 0 <= i < before.len() ==> (#[trigger] after[i]).len() == before[i].len()
    &&& forall|i: int, j: int|
        0 <= i < before.len() && 0 <= j < before[i].len() ==> {
            &&& (#[trigger] after[i][j]).message() == before[i][j].message()
            &&& after[i][j].hidden() == before[i][j].hidden()
            &&& !(before[i][j] is HiddenProofSpecific) ==> after[i][j] == before[i][j]
        }
}

/// The message is hidden behind the given blinder.
pub open spec fn blinded_by(m: Option<ProofMessage>, message: nat, blinder: nat) -> bool {
    m matches Some(ProofMessage::HiddenExternalBlinding(a, b)) && a@ == message && b@ == blinder
}

/// The claims that the references name are all the given message, hidden
/// behind the given blinder.
pub open spec fn all_blinded_by(
    schema: &PresentationSchema,
    rows: Seq<Seq<ProofMessage>>,
    references: Seq<ClaimReference>,
    message: nat,
    blinder: nat,
) -> bool {
    forall|k: int|
        0 <= k < references.len() ==> #[trigger] blinded_by(
            cell(schema, rows, references[k].reference_id@, references[k].claim as int),
            message,
            blinder,
        )
}

/// The claims that an equality statement names are hidden behind one
/// blinder and are one value.
pub open spec fn shares(schema: &PresentationSchema, rows: Seq<Seq<ProofMessage>>, i: int) -> bool {
    schema.statements[i] matches Statement::Equality(s) ==> exists|message: nat, blinder: nat|
        #[trigger] all_blinded_by(schema, rows, s.references@, message, blinder)
}

/// The claim that a statement is about is hidden behind a blinder of its own.
pub open spec fn blinded(
    schema: &PresentationSchema,
    rows: Seq<Seq<ProofMessage>>,
    i: int,
) -> bool {
    subject_of(&schema.statements[i]) matches Some(subject) ==> cell(
        schema,
        rows,
        subject.0,
        subject.1,
    ) matches Some(ProofMessage::HiddenExternalBlinding(_, _))
}

/// A message that brings its blinder stays as it is in later rows.
pub proof fn lemma_kept(
    schema: &PresentationSchema,
    before: Seq<Seq<ProofMessage>>,
    after: Seq<Seq<ProofMessage>>,
    reference_id: Seq<char>,
    claim: int,
)
    requires
        keeps(before, after),
    ensures
        cell(schema, before, reference_id, claim) is Some == cell(
            schema,
            after,
            reference_id,
            claim,
        ) is Some,
        cell(schema, before, reference_id, claim) matches Some(m) ==> !(m
            is HiddenProofSpecific) ==> cell(schema, after, reference_id, claim) == Some(m),
{
    match first_named(statement_names(schema.statements@), reference_id) {
        Some(si) => {
            if 0 <= si < before.len() {
                assert(after[si].len() == before[si].len());
                if 0 <= claim < before[si].len() {
                    assert(after[si][claim].message() == before[si][claim].message());
                }
            }
        },
        None => {},
    }
}

/// Rows in which the claims of an equality statement share a blinder, or
/// the claim of another statement has one, still do when kept.
pub proof fn lemma_kept_statement(
    schema: &PresentationSchema,
    before: Seq<Seq<ProofMessage>>,
    after: Seq<Seq<ProofMessage>>,
    i: int,
)
    requires
        keeps(before, after),
    ensures
        shares(schema, before, i) ==> shares(schema, after, i),
        blinded(schema, before, i) ==> blinded(schema, after, i),
{
    if shares(schema, before, i) {
        match schema.statements[i] {
            Statement::Equality(s) => {
                let (message, blinder) = choose|message: nat, blinder: nat|
                    #[trigger] all_blinded_by(schema, before, s.references@, message, blinder);
                assert forall|k: int| 0 <= k < s.references.len() implies #[trigger] blinded_by(
                    cell(
                        schema,
                        after,
                        s.references[k].reference_id@,
                        s.references[k].claim as int,
                    ),
                    message,
                    blinder,
                ) by {
                    assert(blinded_by(
                        cell(
                            schema,
                            before,
                            s.references[k].reference_id@,
                            s.references[k].claim as int,
                        ),
                        message,
                        blinder,
                    ));
                    lemma_kept(
                        schema,
                        before,
                        after,
                        s.references[k].reference_id@,
                        s.references[k].claim as int,
                    );
                }
                assert(all_blinded_by(schema, after, s.references@, message, blinder));
            },
            _ => {},
        }
    }
    if blinded(schema, before, i) {
        match subject_of(&schema.statements[i]) {
            Some(subject) => {
                lemma_kept(schema, before, after, subject.0, subject.1);
            },
            None => {},
        }
    }
}

/// The hidden message at a claim of a credential. The statement of that
/// name must be a signature statement and have such a claim, and the claim
/// must be hidden.
pub(crate) fn message_at(
    schema: &PresentationSchema,
    tables: &Vec<Vec<ProofMessage>>,
    reference_id: &String,
    claim: usize,
) -> (r: Result<(usize, ProofMessage), Error>)
    requires
        tables.len() == schema.statements.len(),
    ensures
        r.is_ok() == (cell(schema, rows(tables@), reference_id@, claim as int) matches Some(m)
            && m.hidden()),
        r matches Ok(found) ==> found.0 < tables.len() && claim < tables[found.0 as int].len()
            && found.1 == tables[found.0 as int][claim as int] && cell(
            schema,
            rows(tables@),
            reference_id@,
            claim as int,
        ) == Some(found.1) && first_named(statement_names(schema.statements@), reference_id@)
            == Some(found.0 as int),
        r matches Err(e) ==> e == (if cell(schema, rows(tables@), reference_id@, claim as int)
            is Some {
            Error::InvalidClaimData
        } else {
            Error::InvalidPresentationData
        }),
{
    match schema.find(reference_id) {
        None => Err(Error::InvalidPresentationData),
        Some(si) => match &schema.statements[si] {
            Statement::Signature(_) => {
                assert(rows(tables@)[si as int] == tables[si as int]@);
                if claim >= tables[si].len() {
                    return Err(Error::InvalidPresentationData);
                }
                let m = tables[si][claim];
                if !m.is_hidden() {
                    return Err(Error::InvalidClaimData);
                }
                Ok((si, m))
            },
            _ => Err(Error::InvalidPresentationData),
        },
    }
}

/// Replaces the message at a claim of a row. The message that is replaced
/// must be hidden and bring no blinder, and the new one must be the same
/// message behind a blinder.
fn replace(
    tables: &mut Vec<Vec<ProofMessage>>,
    si: usize,
    claim: usize,
    message: Scalar,
    blinder: Scalar,
)
    requires
        si < old(tables).len(),
        claim < old(tables)[si as int].len(),
        old(tables)[si as int][claim as int] == ProofMessage::HiddenProofSpecific(message),
    ensures
        final(tables).len() == old(tables).len(),
        keeps(rows(old(tables)@), rows(final(tables)@)),
        rows(final(tables)@)[si as int][claim as int] == ProofMessage::HiddenExternalBlinding(
            message,
            blinder,
        ),
{
    let row = with_message(
        &tables[si],
        claim,
        ProofMessage::HiddenExternalBlinding(message, blinder),
    );
    tables.set(si, row);
    proof {
        let before = rows(old(tables)@);
        let after = rows(tables@);
        assert forall|i: int| 0 <= i < before.len() implies (#[trigger] after[i]).len()
            == before[i].len() by {
            assert(after[i] == tables[i]@);
            assert(before[i] == old(tables)[i]@);
        }
        assert forall|i: int, j: int| 0 <= i < before.len() && 0 <= j < before[i].len() implies {
            &&& (#[trigger] after[i][j]).message() == before[i][j].message()
            &&& after[i][j].hidden() == before[i][j].hidden()
            &&& !(before[i][j] is HiddenProofSpecific) ==> after[i][j] == before[i][j]
        } by {
            assert(after[i] == tables[i]@);
            assert(before[i] == old(tables)[i]@);
        }
        assert(after[si as int] == tables[si as int]@);
    }
}

/// Gives the claim that a statement is about a blinder of its own, unless
/// it has one. The claim must be a hidden claim of a credential.
pub(crate) fn blind_claim(
    schema: &PresentationSchema,
    tables: &mut Vec<Vec<ProofMessage>>,
    reference_id: &String,
    claim: usize,
    rng: &mut OsRng,
) -> (r: Result<(), Error>)
    requires
        old(tables).len() == schema.statements.len(),
    ensures
        final(tables).len() == schema.statements.len(),
        keeps(rows(old(tables)@), rows(final(tables)@)),
        r.is_ok() == (cell(schema, rows(old(tables)@), reference_id@, claim as int) matches Some(
            m,
        ) && m.hidden()),
        r is Ok ==> cell(
            schema,
            rows(final(tables)@),
            reference_id@,
            claim as int,
        ) matches Some(ProofMessage::HiddenExternalBlinding(_, _)),
        r matches Err(e) ==> e == (if cell(
            schema,
            rows(old(tables)@),
            reference_id@,
            claim as int,
        ) is Some {
            Error::InvalidClaimData
        } else {
            Error::InvalidPresentationData
        }),
{
    match message_at(schema, tables, reference_id, claim) {
        Err(e) => Err(e),
        Ok(found) => {
            match found.1 {
                ProofMessage::HiddenProofSpecific(m) => {
                    let fresh = Scalar::random(rng);
                    replace(tables, found.0, claim, m, fresh);
                },
                _ => {},
            }
            Ok(())
        },
    }
}

/// Later rows hold the claims of earlier rows: there are as many rows of
/// the same lengths, and every message is the same and hidden or revealed
/// as before.
pub open spec fn same_claims(
    before: Seq<Seq<ProofMessage>>,
    after: Seq<Seq<ProofMessage>>,
) -> bool {
    &&& after.len() == before.len()
    &&& forall|i: int| 0 <= i < before.len() ==> (#[trigger] after[i]).len() == before[i].len()
    &&& forall|i: int, j: int|
        0 <= i < before.len() && 0 <= j < before[i].len() ==> {
            &&& (#[trigger] after[i][j]).message() == before[i][j].message()
            &&& after[i][j].hidden() == before[i][j].hidden()
        }
}

/// Holding the same claims is transitive.
pub proof fn lemma_same_claims(
    a: Seq<Seq<ProofMessage>>,
    b: Seq<Seq<ProofMessage>>,
    c: Seq<Seq<ProofMessage>>,
)
    requires
        same_claims(a, b),
        same_claims(b, c),
    ensures
        same_claims(a, c),
{
    assert forall|i: int| 0 <= i < a.len() implies (#[trigger] c[i]).len() == a[i].len() by {
        assert(b[i].len() == a[i].len());
    }
    assert forall|i: int, j: int| 0 <= i < a.len() && 0 <= j < a[i].len() implies {
        &&& (#[trigger] c[i][j]).message() == a[i][j].message()
        &&& c[i][j].hidden() == a[i][j].hidden()
    } by {
        assert(b[i].len() == a[i].len());
        assert(b[i][j].message() == a[i][j].message());
    }
}

/// Rows that hold the same claims have a message at the same claims, the
/// same message, hidden or revealed alike.
pub proof fn lemma_cell_same(
    schema: &PresentationSchema,
    before: Seq<Seq<ProofMessage>>,
    after: Seq<Seq<ProofMessage>>,
    reference_id: Seq<char>,
    claim: int,
)
    requires
        same_claims(before, after),
    ensures
        cell(schema, before, reference_id, claim) is Some == cell(
            schema,
            after,
            reference_id,
            claim,
        ) is Some,
        cell(schema, before, reference_id, claim) matches Some(m) ==> cell(
            schema,
            after,
            reference_id,
            claim,
        ).unwrap().message() == m.message() && cell(
            schema,
            after,
            reference_id,
            claim,
        ).unwrap().hidden() == m.hidden(),
{
    match first_named(statement_names(schema.statements@), reference_id) {
        Some(si) => {
            if 0 <= si < before.len() {
                assert(after[si].len() == before[si].len());
                if 0 <= claim < before[si].len() {
                    assert(after[si][claim].message() == before[si][claim].message());
                }
            }
        },
        None => {},
    }
}

/// The references of an equality statement; none for any other statement.
pub open spec fn references_of(schema: &PresentationSchema, i: int) -> Seq<ClaimReference> {
    match schema.statements[i] {
        Statement::Equality(s) => s.references@,
        _ => Seq::empty(),
    }
}

/// Where the claim that a reference names stands: the place of the first
/// statement of that name, if there is one, and the index of the claim.
pub open spec fn spot(schema: &PresentationSchema, r: ClaimReference) -> (Option<int>, int) {
    (first_named(statement_names(schema.statements@), r.reference_id@), r.claim as int)
}

/// Reference `k` of equality statement `i` names a claim that no earlier
/// reference of that statement names, and no reference of an equality
/// statement before it.
pub open spec fn fresh(schema: &PresentationSchema, i: int, k: int) -> bool {
    let r = references_of(schema, i)[k];
    &&& forall|l: int|
        0 <= l < k ==> spot(schema, #[trigger] references_of(schema, i)[l]) != spot(schema, r)
    &&& forall|j: int, l: int|
        0 <= j < i && 0 <= l < references_of(schema, j).len() ==> spot(
            schema,
            #[trigger] references_of(schema, j)[l],
        ) != spot(schema, r)
}

/// Reference `k` of equality statement `i` names a hidden claim of a
/// credential that is the value of the claim of the first reference, and
/// that no reference before it names.
pub open spec fn reference_ready(
    schema: &PresentationSchema,
    rows: Seq<Seq<ProofMessage>>,
    i: int,
    k: int,
) -> bool {
    let r = references_of(schema, i)[k];
    let first = references_of(schema, i)[0];
    &&& match (
        cell(schema, rows, r.reference_id@, r.claim as int),
        cell(schema, rows, first.reference_id@, first.claim as int),
    ) {
        (Some(m), Some(f)) => m.hidden() && m.message() == f.message(),
        _ => false,
    }
    &&& fresh(schema, i, k)
}

/// The claims of equality statement `i` can share a blinder: each is a
/// hidden claim of a credential, all are one value, and no two references
/// of this or an earlier equality statement name one claim.
pub open spec fn equality_ready(
    schema: &PresentationSchema,
    rows: Seq<Seq<ProofMessage>>,
    i: int,
) -> bool {
    forall|k: int|
        0 <= k < references_of(schema, i).len() ==> #[trigger] reference_ready(schema, rows, i, k)
}

/// The error with which reference `k` of equality statement `i` is
/// refused: `InvalidClaimData` where the claim is disclosed or is another
/// value than the claim of the first reference, `InvalidPresentationData`
/// where there is no such claim or an earlier reference names it.
pub open spec fn reference_error(
    schema: &PresentationSchema,
    rows: Seq<Seq<ProofMessage>>,
    i: int,
    k: int,
) -> Error {
    let r = references_of(schema, i)[k];
    let first = references_of(schema, i)[0];
    match (
        cell(schema, rows, r.reference_id@, r.claim as int),
        cell(schema, rows, first.reference_id@, first.claim as int),
    ) {
        (Some(m), Some(f)) => if !m.hidden() || m.message() != f.message() {
            Error::InvalidClaimData
        } else {
            Error::InvalidPresentationData
        },
        _ => Error::InvalidPresentationData,
    }
}

/// The error of the first among the first `k` references of equality
/// statement `i` that is refused, if there is one.
pub open spec fn equality_refusal(
    schema: &PresentationSchema,
    rows: Seq<Seq<ProofMessage>>,
    i: int,
    k: int,
) -> Option<Error>
    decreases k,
{
    if k <= 0 {
        None
    } else {
        match equality_refusal(schema, rows, i, k - 1) {
            Some(e) => Some(e),
            None => if reference_ready(schema, rows, i, k - 1) {
                None
            } else {
                Some(reference_error(schema, rows, i, k - 1))
            },
        }
    }
}

/// The error of the first among the first `k` statements whose claims
/// cannot share a blinder, if there is one.
pub open spec fn share_refusal(
    schema: &PresentationSchema,
    rows: Seq<Seq<ProofMessage>>,
    k: int,
) -> Option<Error>
    decreases k,
{
    if k <= 0 {
        None
    } else {
        match share_refusal(schema, rows, k - 1) {
            Some(e) => Some(e),
            None => equality_refusal(
                schema,
                rows,
                k - 1,
                references_of(schema, k - 1).len() as int,
            ),
        }
    }
}

/// The first refusal among some references is the first among more; none
/// is refused exactly if the claims can share a blinder; and neither
/// changes with the blinders of the rows.
pub proof fn lemma_equality_refusal(
    schema: &PresentationSchema,
    rows: Seq<Seq<ProofMessage>>,
    other: Seq<Seq<ProofMessage>>,
    i: int,
    k: int,
    n: int,
)
    requires
        0 <= k <= n <= references_of(schema, i).len(),
        same_claims(rows, other),
    ensures
        equality_refusal(schema, rows, i, k) is Some ==> equality_refusal(schema, rows, i, n)
            == equality_refusal(schema, rows, i, k),
        equality_refusal(schema, rows, i, n) == equality_refusal(schema, other, i, n),
        equality_refusal(schema, rows, i, n) is None == (forall|j: int|
            0 <= j < n ==> #[trigger] reference_ready(schema, rows, i, j)),
    decreases n,
{
    if n > 0 {
        if k < n {
            lemma_equality_refusal(schema, rows, other, i, k, n - 1);
        } else {
            lemma_equality_refusal(schema, rows, other, i, n - 1, n - 1);
        }
        let refs = references_of(schema, i);
        lemma_cell_same(schema, rows, other, refs[n - 1].reference_id@, refs[n - 1].claim as int);
        lemma_cell_same(schema, rows, other, refs[0].reference_id@, refs[0].claim as int);
    }
}

/// The first refusal among some statements is the first among more; none
/// is refused exactly if the claims of each can share a blinder; and
/// neither changes with the blinders of the rows.
pub proof fn lemma_share_refusal(
    schema: &PresentationSchema,
    rows: Seq<Seq<ProofMessage>>,
    other: Seq<Seq<ProofMessage>>,
    k: int,
    n: int,
)
    requires
        0 <= k <= n <= schema.statements.len(),
        same_claims(rows, other),
    ensures
        share_refusal(schema, rows, k) is Some ==> share_refusal(schema, rows, n)
            == share_refusal(schema, rows, k),
        share_refusal(schema, rows, n) == share_refusal(schema, other, n),
        share_refusal(schema, rows, n) is None == (forall|j: int|
            0 <= j < n ==> #[trigger] equality_ready(schema, rows, j)),
    decreases n,
{
    if n > 0 {
        if k < n {
            lemma_share_refusal(schema, rows, other, k, n - 1);
        } else {
            lemma_share_refusal(schema, rows, other, n - 1, n - 1);
        }
        let m = references_of(schema, n - 1).len() as int;
        lemma_equality_refusal(schema, rows, other, n - 1, m, m);
        assert(equality_ready(schema, rows, n - 1) == (equality_refusal(schema, rows, n - 1, m)
            is None));
        if share_refusal(schema, rows, n) is None {
            assert forall|j: int| 0 <= j < n implies #[trigger] equality_ready(
                schema,
                rows,
                j,
            ) by {
                if j < n - 1 {
                    assert(share_refusal(schema, rows, n - 1) is None);
                }
            }
        } else if forall|j: int| 0 <= j < n ==> #[trigger] equality_ready(schema, rows, j) {
            assert(equality_ready(schema, rows, n - 1));
            assert forall|j: int| 0 <= j < n - 1 implies #[trigger] equality_ready(
                schema,
                rows,
                j,
            ) by {}
        }
    }
}

/// The claim that statement `i` is about, if it is about one, is a hidden
/// claim of a credential.
pub open spec fn subject_hidden(
    schema: &PresentationSchema,
    rows: Seq<Seq<ProofMessage>>,
    i: int,
) -> bool {
    subject_of(&schema.statements[i]) matches Some(subject) ==> cell(
        schema,
        rows,
        subject.0,
        subject.1,
    ) matches Some(m) && m.hidden()
}

/// Blinders can be shared as the statements ask: the claims of every
/// equality statement can share one, and every other statement about a
/// claim is about a hidden claim of a credential.
pub open spec fn shareable(schema: &PresentationSchema, rows: Seq<Seq<ProofMessage>>) -> bool {
    &&& forall|i: int|
        0 <= i < schema.statements.len() ==> #[trigger] equality_ready(schema, rows, i)
    &&& forall|i: int|
        0 <= i < schema.statements.len() ==> #[trigger] subject_hidden(schema, rows, i)
}

/// The error with which a statement about a claim that is no hidden
/// claim of a credential is refused: `InvalidClaimData` where the
/// credential has the claim but discloses it, `InvalidPresentationData`
/// where there is no such claim.
pub open spec fn subject_error(
    schema: &PresentationSchema,
    rows: Seq<Seq<ProofMessage>>,
    i: int,
) -> Error {
    match subject_of(&schema.statements[i]) {
        Some(subject) => if cell(schema, rows, subject.0, subject.1) is Some {
            Error::InvalidClaimData
        } else {
            Error::InvalidPresentationData
        },
        None => Error::InvalidPresentationData,
    }
}

/// The error of the first among the first `k` statements that is about a
/// claim that is no hidden claim of a credential, if there is one.
pub open spec fn subject_refusal(
    schema: &PresentationSchema,
    rows: Seq<Seq<ProofMessage>>,
    k: int,
) -> Option<Error>
    decreases k,
{
    if k <= 0 {
        None
    } else {
        match subject_refusal(schema, rows, k - 1) {
            Some(e) => Some(e),
            None => if subject_hidden(schema, rows, k - 1) {
                None
            } else {
                Some(subject_error(schema, rows, k - 1))
            },
        }
    }
}

/// The first refusal among some statements is the first among more, and
/// does not change with the blinders of the rows.
pub proof fn lemma_subject_refusal(
    schema: &PresentationSchema,
    rows: Seq<Seq<ProofMessage>>,
    other: Seq<Seq<ProofMessage>>,
    k: int,
    n: int,
)
    requires
        0 <= k <= n <= schema.statements.len(),
        same_claims(rows, other),
    ensures
        subject_refusal(schema, rows, k) is Some ==> subject_refusal(schema, rows, n)
            == subject_refusal(schema, rows, k),
        subject_refusal(schema, rows, n) == subject_refusal(schema, other, n),
        subject_refusal(schema, rows, n) is None == (forall|j: int|
            0 <= j < n ==> #[trigger] subject_hidden(schema, rows, j)),
    decreases n,
{
    if n > 0 {
        if k < n {
            lemma_subject_refusal(schema, rows, other, k, n - 1);
        } else {
            lemma_subject_refusal(schema, rows, other, n - 1, n - 1);
        }
        lemma_ready_same(schema, rows, other, n - 1);
        match subject_of(&schema.statements[n - 1]) {
            Some(subject) => {
                lemma_cell_same(schema, rows, other, subject.0, subject.1);
            },
            None => {},
        }
        if subject_refusal(schema, rows, n) is None {
            assert forall|j: int| 0 <= j < n implies #[trigger] subject_hidden(
                schema,
                rows,
                j,
            ) by {
                if j < n - 1 {
                    assert(subject_refusal(schema, rows, n - 1) is None);
                }
            }
        } else if forall|j: int| 0 <= j < n ==> #[trigger] subject_hidden(schema, rows, j) {
            assert(subject_hidden(schema, rows, n - 1));
            assert forall|j: int| 0 <= j < n - 1 implies #[trigger] subject_hidden(
                schema,
                rows,
                j,
            ) by {}
        }
    }
}

/// Whether a statement's claims can share a blinder or be given one does
/// not change with the blinders of the rows.
pub proof fn lemma_ready_same(
    schema: &PresentationSchema,
    before: Seq<Seq<ProofMessage>>,
    after: Seq<Seq<ProofMessage>>,
    i: int,
)
    requires
        same_claims(before, after),
    ensures
        equality_ready(schema, before, i) == equality_ready(schema, after, i),
        subject_hidden(schema, before, i) == subject_hidden(schema, after, i),
{
    let refs = references_of(schema, i);
    assert forall|k: int| 0 <= k < refs.len() implies reference_ready(schema, before, i, k)
        == reference_ready(schema, after, i, k) by {
        lemma_cell_same(schema, before, after, refs[k].reference_id@, refs[k].claim as int);
        lemma_cell_same(schema, before, after, refs[0].reference_id@, refs[0].claim as int);
    }
    if equality_ready(schema, before, i) {
        assert forall|k: int| 0 <= k < refs.len() implies #[trigger] reference_ready(
            schema,
            after,
            i,
            k,
        ) by {
            assert(reference_ready(schema, before, i, k));
        }
    }
    if equality_ready(schema, after, i) {
        assert forall|k: int| 0 <= k < refs.len() implies #[trigger] reference_ready(
            schema,
            before,
            i,
            k,
        ) by {
            assert(reference_ready(schema, after, i, k));
        }
    }
    match subject_of(&schema.statements[i]) {
        Some(subject) => {
            lemma_cell_same(schema, before, after, subject.0, subject.1);
        },
        None => {},
    }
}

/// The messages at the claims that none of the references names are the
/// same in the later rows.
pub open spec fn apart(
    schema: &PresentationSchema,
    before: Seq<Seq<ProofMessage>>,
    after: Seq<Seq<ProofMessage>>,
    references: Seq<ClaimReference>,
) -> bool {
    forall|r: ClaimReference|
        (forall|k: int| 0 <= k < references.len() ==> spot(schema, #[trigger] references[k])
            != spot(schema, r)) ==> #[trigger] cell(
            schema,
            after,
            r.reference_id@,
            r.claim as int,
        ) == cell(schema, before, r.reference_id@, r.claim as int)
}

/// Whether two references name one claim.
fn same_spot(schema: &PresentationSchema, a: &ClaimReference, b: &ClaimReference) -> (r: bool)
    ensures
        r == (spot(schema, *a) == spot(schema, *b)),
{
    if a.claim != b.claim {
        return false;
    }
    match (schema.find(&a.reference_id), schema.find(&b.reference_id)) {
        (Some(x), Some(y)) => x == y,
        (None, None) => true,
        _ => false,
    }
}

/// Whether reference `k` of equality statement `i` names a claim that no
/// reference before it names.
fn check_fresh(schema: &PresentationSchema, i: usize, k: usize) -> (r: bool)
    requires
        i < schema.statements.len(),
        k < references_of(schema, i as int).len(),
    ensures
        r == fresh(schema, i as int, k as int),
{
    match &schema.statements[i] {
        Statement::Equality(s) => {
            assert(references_of(schema, i as int) == s.references@);
            let target = &s.references[k];
            let mut l: usize = 0;
            while l < k
                invariant
                    l <= k,
                    k < s.references.len(),
                    references_of(schema, i as int) == s.references@,
                    *target == s.references[k as int],
                    forall|a: int|
                        0 <= a < l ==> spot(schema, #[trigger] references_of(schema, i as int)[a])
                            != spot(schema, *target),
                decreases k - l,
            {
                if same_spot(schema, &s.references[l], target) {
                    assert(spot(schema, references_of(schema, i as int)[l as int]) == spot(
                        schema,
                        *target,
                    ));
                    return false;
                }
                l += 1;
            }
            let mut j: usize = 0;
            while j < i
                invariant
                    j <= i,
                    i < schema.statements.len(),
                    k < s.references.len(),
                    references_of(schema, i as int) == s.references@,
                    *target == s.references[k as int],
                    forall|a: int|
                        0 <= a < k ==> spot(schema, #[trigger] references_of(schema, i as int)[a])
                            != spot(schema, *target),
                    forall|a: int, b: int|
                        0 <= a < j && 0 <= b < references_of(schema, a).len() ==> spot(
                            schema,
                            #[trigger] references_of(schema, a)[b],
                        ) != spot(schema, *target),
                decreases i - j,
            {
                match &schema.statements[j] {
                    Statement::Equality(e) => {
                        assert(references_of(schema, j as int) == e.references@);
                        let mut l: usize = 0;
                        while l < e.references.len()
                            invariant
                                l <= e.references.len(),
                                j < i,
                                k < references_of(schema, i as int).len(),
                                *target == references_of(schema, i as int)[k as int],
                                references_of(schema, j as int) == e.references@,
                                forall|b: int|
                                    0 <= b < l ==> spot(
                                        schema,
                                        #[trigger] references_of(schema, j as int)[b],
                                    ) != spot(schema, *target),
                            decreases e.references.len() - l,
                        {
                            if same_spot(schema, &e.references[l], target) {
                                assert(spot(schema, references_of(schema, j as int)[l as int])
                                    == spot(schema, *target));
                                return false;
                            }
                            l += 1;
                        }
                    },
                    _ => {
                        assert(references_of(schema, j as int).len() == 0);
                    },
                }
                j += 1;
            }
            true
        },
        _ => true,
    }
}

/// Puts a message behind a blinder at a claim of a row. Every other
/// message stays as it is.
fn rebind(
    tables: &mut Vec<Vec<ProofMessage>>,
    si: usize,
    claim: usize,
    message: Scalar,
    blinder: Scalar,
)
    requires
        si < old(tables).len(),
        claim < old(tables)[si as int].len(),
    ensures
        final(tables).len() == old(tables).len(),
        forall|a: int|
            0 <= a < old(tables).len() ==> (#[trigger] rows(final(tables)@)[a]).len() == rows(
                old(tables)@,
            )[a].len(),
        rows(final(tables)@)[si as int][claim as int] == ProofMessage::HiddenExternalBlinding(
            message,
            blinder,
        ),
        forall|a: int, b: int|
            0 <= a < old(tables).len() && 0 <= b < rows(old(tables)@)[a].len() && !(a == si && b
                == claim) ==> (#[trigger] rows(final(tables)@)[a][b]) == rows(old(tables)@)[a][b],
{
    let row = with_message(
        &tables[si],
        claim,
        ProofMessage::HiddenExternalBlinding(message, blinder),
    );
    tables.set(si, row);
    proof {
        let before = rows(old(tables)@);
        let after = rows(tables@);
        assert forall|a: int| 0 <= a < before.len() implies (#[trigger] after[a]).len()
            == before[a].len() by {
            assert(after[a] == tables[a]@);
            assert(before[a] == old(tables)[a]@);
        }
        assert forall|a: int, b: int|
            0 <= a < before.len() && 0 <= b < before[a].len() && !(a == si && b
                == claim) implies (#[trigger] after[a][b]) == before[a][b] by {
            assert(after[a] == tables[a]@);
            assert(before[a] == old(tables)[a]@);
        }
        assert(after[si as int] == tables[si as int]@);
    }
}

/// Gives the claims of an equality statement one blinder. The claims must
/// be hidden claims of credentials, be one value, and be named by no
/// reference before them: else nothing is changed.
fn share_one(
    schema: &PresentationSchema,
    tables: &mut Vec<Vec<ProofMessage>>,
    i: usize,
    rng: &mut OsRng,
) -> (r: Result<(), Error>)
    requires
        old(tables).len() == schema.statements.len(),
        i < schema.statements.len(),
        schema.statements[i as int] is Equality,
    ensures
        final(tables).len() == schema.statements.len(),
        same_claims(rows(old(tables)@), rows(final(tables)@)),
        r.is_ok() == equality_ready(schema, rows(old(tables)@), i as int),
        r is Ok ==> shares(schema, rows(final(tables)@), i as int),
        r is Ok ==> apart(
            schema,
            rows(old(tables)@),
            rows(final(tables)@),
            references_of(schema, i as int),
        ),
        r matches Err(e) ==> e == Error::InvalidPresentationData || e == Error::InvalidClaimData,
        r matches Err(e) ==> equality_refusal(
            schema,
            rows(old(tables)@),
            i as int,
            references_of(schema, i as int).len() as int,
        ) == Some(e),
{
    let ghost start = rows(tables@);
    match &schema.statements[i] {
        Statement::Equality(s) => {
            let ghost refs = references_of(schema, i as int);
            assert(refs == s.references@);
            if s.references.len() == 0 {
                assert(all_blinded_by(schema, rows(tables@), s.references@, 0, 0));
                return Ok(());
            }
            let first = match message_at(
                schema,
                tables,
                &s.references[0].reference_id,
                s.references[0].claim,
            ) {
                Ok(found) => found.1.get_message(),
                Err(e) => {
                    proof {
                        assert(!reference_ready(schema, start, i as int, 0));
                        assert(equality_refusal(schema, start, i as int, 0) is None);
                        assert(equality_refusal(schema, start, i as int, 1) == Some(e));
                        lemma_equality_refusal(
                            schema,
                            start,
                            start,
                            i as int,
                            1,
                            refs.len() as int,
                        );
                    }
                    return Err(e);
                },
            };
            let mut k: usize = 0;
            while k < s.references.len()
                invariant
                    k <= s.references.len(),
                    i < schema.statements.len(),
                    schema.statements[i as int] == Statement::Equality(*s),
                    refs == s.references@,
                    refs == references_of(schema, i as int),
                    tables.len() == schema.statements.len(),
                    rows(tables@) == start,
                    cell(schema, start, refs[0].reference_id@, refs[0].claim as int) matches Some(
                        f,
                    ) && f.message() == first@,
                    forall|j: int|
                        0 <= j < k ==> #[trigger] reference_ready(schema, start, i as int, j),
                    equality_refusal(schema, start, i as int, k as int) is None,
                decreases s.references.len() - k,
            {
                match message_at(
                    schema,
                    tables,
                    &s.references[k].reference_id,
                    s.references[k].claim,
                ) {
                    Err(e) => {
                        proof {
                            assert(!reference_ready(schema, start, i as int, k as int));
                            assert(equality_refusal(schema, start, i as int, k + 1) == Some(e));
                            lemma_equality_refusal(
                                schema,
                                start,
                                start,
                                i as int,
                                k + 1,
                                refs.len() as int,
                            );
                        }
                        return Err(e);
                    },
                    Ok(found) => {
                        if !found.1.get_message().eq(&first) {
                            proof {
                                assert(!reference_ready(schema, start, i as int, k as int));
                                assert(equality_refusal(schema, start, i as int, k + 1) == Some(
                                    Error::InvalidClaimData,
                                ));
                                lemma_equality_refusal(
                                    schema,
                                    start,
                                    start,
                                    i as int,
                                    k + 1,
                                    refs.len() as int,
                                );
                            }
                            return Err(Error::InvalidClaimData);
                        }
                        if !check_fresh(schema, i, k) {
                            proof {
                                assert(!reference_ready(schema, start, i as int, k as int));
                                assert(equality_refusal(schema, start, i as int, k + 1) == Some(
                                    Error::InvalidPresentationData,
                                ));
                                lemma_equality_refusal(
                                    schema,
                                    start,
                                    start,
                                    i as int,
                                    k + 1,
                                    refs.len() as int,
                                );
                            }
                            return Err(Error::InvalidPresentationData);
                        }
                        assert(reference_ready(schema, start, i as int, k as int));
                    },
                }
                k += 1;
            }
            assert(equality_ready(schema, start, i as int));
            let common = Scalar::random(rng);
            let mut k: usize = 0;
            proof {
                assert(apart(schema, start, rows(tables@), refs.take(0)));
            }
            while k < s.references.len()
                invariant
                    k <= s.references.len(),
                    i < schema.statements.len(),
                    schema.statements[i as int] == Statement::Equality(*s),
                    refs == s.references@,
                    refs == references_of(schema, i as int),
                    tables.len() == schema.statements.len(),
                    same_claims(start, rows(tables@)),
                    equality_ready(schema, start, i as int),
                    cell(schema, start, refs[0].reference_id@, refs[0].claim as int) matches Some(
                        f,
                    ) && f.message() == first@,
                    apart(schema, start, rows(tables@), refs.take(k as int)),
                    forall|j: int|
                        0 <= j < k ==> #[trigger] blinded_by(
                            cell(
                                schema,
                                rows(tables@),
                                s.references[j].reference_id@,
                                s.references[j].claim as int,
                            ),
                            first@,
                            common@,
                        ),
                decreases s.references.len() - k,
            {
                let ghost before = rows(tables@);
                proof {
                    assert(reference_ready(schema, start, i as int, k as int));
                    lemma_cell_same(
                        schema,
                        start,
                        before,
                        refs[k as int].reference_id@,
                        refs[k as int].claim as int,
                    );
                }
                match message_at(
                    schema,
                    tables,
                    &s.references[k].reference_id,
                    s.references[k].claim,
                ) {
                    Err(e) => {
                        assert(false);
                        return Err(e);
                    },
                    Ok(found) => {
                        rebind(tables, found.0, s.references[k].claim, first, common);
                    },
                }
                proof {
                    let after = rows(tables@);
                    let here = refs[k as int];
                    assert(same_claims(before, after)) by {
                        assert forall|a: int, b: int|
                            0 <= a < before.len() && 0 <= b < before[a].len() implies {
                            &&& (#[trigger] after[a][b]).message() == before[a][b].message()
                            &&& after[a][b].hidden() == before[a][b].hidden()
                        } by {
                            assert(after[a].len() == before[a].len());
                        }
                    }
                    lemma_same_claims(start, before, after);
                    assert forall|r: ClaimReference|
                        (forall|j: int|
                            0 <= j < refs.take(k + 1).len() ==> spot(
                                schema,
                                #[trigger] refs.take(k + 1)[j],
                            ) != spot(schema, r)) implies #[trigger] cell(
                        schema,
                        after,
                        r.reference_id@,
                        r.claim as int,
                    ) == cell(schema, start, r.reference_id@, r.claim as int) by {
                        assert forall|j: int| 0 <= j < refs.take(k as int).len() implies spot(
                            schema,
                            #[trigger] refs.take(k as int)[j],
                        ) != spot(schema, r) by {
                            assert(refs.take(k + 1)[j] == refs.take(k as int)[j]);
                        }
                        assert(refs.take(k + 1)[k as int] == here);
                        assert(spot(schema, here) != spot(schema, r));
                        assert(cell(schema, before, r.reference_id@, r.claim as int) == cell(
                            schema,
                            start,
                            r.reference_id@,
                            r.claim as int,
                        ));
                    }
                    assert forall|j: int| 0 <= j < k + 1 implies #[trigger] blinded_by(
                        cell(
                            schema,
                            after,
                            s.references[j].reference_id@,
                            s.references[j].claim as int,
                        ),
                        first@,
                        common@,
                    ) by {
                        if j < k {
                            assert(blinded_by(
                                cell(
                                    schema,
                                    before,
                                    s.references[j].reference_id@,
                                    s.references[j].claim as int,
                                ),
                                first@,
                                common@,
                            ));
                            assert(fresh(schema, i as int, k as int));
                            assert(spot(schema, references_of(schema, i as int)[j]) != spot(
                                schema,
                                here,
                            ));
                        }
                    }
                }
                k += 1;
            }
            proof {
                assert(refs.take(s.references.len() as int) =~= refs);
                assert(all_blinded_by(schema, rows(tables@), s.references@, first@, common@));
            }
            Ok(())
        },
        _ => Ok(()),
    }
}

/// Gives the claims that the statements are about blinders of their own:
/// one for all the claims of each equality statement, which must be equal
/// and hidden and stand in no other equality statement; then one for each
/// hidden claim of any other statement that has none yet.
pub(crate) fn share_blinders(
    schema: &PresentationSchema,
    tables: &mut Vec<Vec<ProofMessage>>,
    rng: &mut OsRng,
) -> (r: Result<(), Error>)
    requires
        old(tables).len() == schema.statements.len(),
    ensures
        final(tables).len() == schema.statements.len(),
        same_claims(rows(old(tables)@), rows(final(tables)@)),
        r.is_ok() == shareable(schema, rows(old(tables)@)),
        r matches Err(e) ==> Some(e) == (match share_refusal(
            schema,
            rows(old(tables)@),
            schema.statements.len() as int,
        ) {
            Some(x) => Some(x),
            None => subject_refusal(
                schema,
                rows(old(tables)@),
                schema.statements.len() as int,
            ),
        }),
        r is Ok ==> forall|i: int|
            0 <= i < schema.statements.len() ==> #[trigger] shares(
                schema,
                rows(final(tables)@),
                i,
            ),
        r is Ok ==> forall|i: int|
            0 <= i < schema.statements.len() ==> #[trigger] blinded(
                schema,
                rows(final(tables)@),
                i,
            ),
        r matches Err(e) ==> e == Error::InvalidPresentationData || e == Error::InvalidClaimData,
{
    let n = schema.statements.len();
    let ghost start = rows(tables@);
    let mut i: usize = 0;
    while i < n
        invariant
            i <= n,
            n == schema.statements.len(),
            tables.len() == n,
            start == rows(old(tables)@),
            same_claims(start, rows(tables@)),
            forall|j: int| 0 <= j < i ==> #[trigger] equality_ready(schema, start, j),
            share_refusal(schema, start, i as int) is None,
            forall|j: int| 0 <= j < i ==> #[trigger] shares(schema, rows(tables@), j),
        decreases n - i,
    {
        let ghost before = rows(tables@);
        proof {
            lemma_ready_same(schema, start, before, i as int);
        }
        match &schema.statements[i] {
            Statement::Equality(_) => {
                match share_one(schema, tables, i, rng) {
                    Err(e) => {
                        proof {
                            lemma_same_claims(start, before, rows(tables@));
                            assert(!equality_ready(schema, start, i as int));
                            let m = references_of(schema, i as int).len() as int;
                            lemma_equality_refusal(schema, start, before, i as int, m, m);
                            assert(share_refusal(schema, start, i + 1) == Some(e));
                            lemma_share_refusal(schema, start, start, i + 1, n as int);
                        }
                        return Err(e);
                    },
                    Ok(_) => {},
                }
            },
            _ => {
                assert(references_of(schema, i as int).len() == 0);
                assert(equality_ready(schema, start, i as int));
            },
        }
        proof {
            let m = references_of(schema, i as int).len() as int;
            lemma_equality_refusal(schema, start, start, i as int, m, m);
        }
        proof {
            let after = rows(tables@);
            lemma_same_claims(start, before, after);
            assert forall|j: int| 0 <= j < i + 1 implies #[trigger] shares(schema, after, j) by {
                if j < i && schema.statements[i as int] is Equality {
                    lemma_shares_apart(schema, before, after, i as int, j);
                }
            }
        }
        i += 1;
    }
    let mut i: usize = 0;
    while i < n
        invariant
            i <= n,
            n == schema.statements.len(),
            tables.len() == n,
            start == rows(old(tables)@),
            same_claims(start, rows(tables@)),
            forall|j: int| 0 <= j < n ==> #[trigger] equality_ready(schema, start, j),
            share_refusal(schema, start, n as int) is None,
            forall|j: int| 0 <= j < i ==> #[trigger] subject_hidden(schema, start, j),
            subject_refusal(schema, start, i as int) is None,
            forall|j: int| 0 <= j < n ==> #[trigger] shares(schema, rows(tables@), j),
            forall|j: int| 0 <= j < i ==> #[trigger] blinded(schema, rows(tables@), j),
        decreases n - i,
    {
        let ghost before = rows(tables@);
        proof {
            lemma_ready_same(schema, start, before, i as int);
        }
        let r = match &schema.statements[i] {
            Statement::Commitment(s) => blind_claim(schema, tables, &s.reference_id, s.claim, rng),
            Statement::VerifiableEncryption(s) => blind_claim(
                schema,
                tables,
                &s.reference_id,
                s.claim,
                rng,
            ),
            Statement::VerifiableEncryptionDecryption(s) => blind_claim(
                schema,
                tables,
                &s.reference_id,
                s.claim,
                rng,
            ),
            Statement::Membership(s) => blind_claim(schema, tables, &s.reference_id, s.claim, rng),
            Statement::Revocation(s) => blind_claim(schema, tables, &s.reference_id, s.claim, rng),
            _ => {
                proof {
                    lemma_keeps_self(before);
                }
                Ok(())
            },
        };
        proof {
            let after = rows(tables@);
            assert(keeps(before, after));
            assert(same_claims(before, after));
            lemma_same_claims(start, before, after);
        }
        match r {
            Err(e) => {
                proof {
                    assert(!subject_hidden(schema, start, i as int));
                    match subject_of(&schema.statements[i as int]) {
                        Some(subject) => {
                            lemma_cell_same(schema, start, before, subject.0, subject.1);
                        },
                        None => {},
                    }
                    assert(subject_refusal(schema, start, i + 1) == Some(e));
                    lemma_subject_refusal(schema, start, start, i + 1, n as int);
                }
                return Err(e);
            },
            Ok(_) => {},
        }
        proof {
            let after = rows(tables@);
            assert(subject_hidden(schema, start, i as int));
            assert forall|j: int| 0 <= j < n implies #[trigger] shares(schema, after, j) by {
                lemma_kept_statement(schema, before, after, j);
            }
            assert forall|j: int| 0 <= j < i + 1 implies #[trigger] blinded(schema, after, j) by {
                if j < i {
                    lemma_kept_statement(schema, before, after, j);
                }
            }
        }
        i += 1;
    }
    Ok(())
}

/// The claims of an earlier equality statement still share their blinder
/// when the claims of a later one, none of which is one of them, are
/// given theirs.
pub proof fn lemma_shares_apart(
    schema: &PresentationSchema,
    before: Seq<Seq<ProofMessage>>,
    after: Seq<Seq<ProofMessage>>,
    i: int,
    j: int,
)
    requires
        0 <= j < i < schema.statements.len(),
        equality_ready(schema, before, i),
        apart(schema, before, after, references_of(schema, i)),
        shares(schema, before, j),
    ensures
        shares(schema, after, j),
{
    match schema.statements[j] {
        Statement::Equality(s) => {
            let (message, blinder) = choose|message: nat, blinder: nat|
                #[trigger] all_blinded_by(schema, before, s.references@, message, blinder);
            let mine = references_of(schema, i);
            assert(references_of(schema, j) == s.references@);
            assert forall|l: int| 0 <= l < s.references.len() implies #[trigger] blinded_by(
                cell(schema, after, s.references[l].reference_id@, s.references[l].claim as int),
                message,
                blinder,
            ) by {
                let r = s.references[l];
                assert(blinded_by(
                    cell(schema, before, r.reference_id@, r.claim as int),
                    message,
                    blinder,
                ));
                assert forall|k: int| 0 <= k < mine.len() implies spot(schema, #[trigger] mine[k])
                    != spot(schema, r) by {
                    assert(reference_ready(schema, before, i, k));
                    assert(fresh(schema, i, k));
                    assert(spot(schema, references_of(schema, j)[l]) != spot(schema, mine[k]));
                }
                assert(cell(schema, after, r.reference_id@, r.claim as int) == cell(
                    schema,
                    before,
                    r.reference_id@,
                    r.claim as int,
                ));
            }
            assert(all_blinded_by(schema, after, s.references@, message, blinder));
        },
        _ => {},
    }
}

/// Rows keep what they hold.
pub proof fn lemma_keeps_self(a: Seq<Seq<ProofMessage>>)
    ensures
        keeps(a, a),
{
}

} // verus!
