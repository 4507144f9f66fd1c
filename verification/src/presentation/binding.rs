//! What the transcript of a presentation binds.
//!
//! The challenge of a presentation is drawn from a transcript that holds the
//! verifier's nonce, the bytes of the schema and the disclosed claims of
//! every credential. A presentation therefore passes after a change of one
//! of them only where two transcripts that differ give one challenge.

use vstd::prelude::*;
use crate::codec::Codec;
use crate::presentation::order::rank;
use crate::presentation::parts::{DisclosedMessages, Presentation};
use crate::presentation::rules::opening_log;
use crate::presentation::statement::PresentationSchema;

verus! {

/// What a verifier's transcript holds tells the nonce and the bytes of the
/// schema: two presentations whose transcripts hold the same were checked
/// for one nonce and for schemas of the same bytes. So a presentation passes
/// for another nonce or another schema only where two transcripts that
/// differ give one challenge.
pub proof fn lemma_log_binds(
    p: Presentation,
    q: Presentation,
    schema: PresentationSchema,
    other: PresentationSchema,
    nonce: Seq<u8>,
    changed: Seq<u8>,
)
    requires
        p.full_log(&schema, nonce) is Some,
        p.full_log(&schema, nonce) == q.full_log(&other, changed),
    ensures
        nonce == changed,
        schema.encoding() == other.encoding(),
{
    let x = p.full_log(&schema, nonce).unwrap();
    let y = q.full_log(&other, changed).unwrap();
    let first = opening_log(nonce, schema.encoding());
    let second = opening_log(changed, other.encoding());
    assert(x[3] == first[3] && x[4] == first[4]);
    assert(y[3] == second[3] && y[4] == second[4]);
}

/// The entries of the first pass stand six to a signature statement, the
/// disclosed claims of each coming first.
pub proof fn lemma_signature_entries(
    p: Presentation,
    schema: PresentationSchema,
    c: nat,
    k: int,
    i: int,
)
    requires
        0 <= i < k <= schema.statements.len(),
        schema.statements[i] is Signature,
        p.pass_entries(&schema, c, 0, k) is Some,
    ensures
        p.pass_entries(&schema, c, 0, k).unwrap().len() == 6 * rank(schema.statements@, 0, k),
        0 <= rank(schema.statements@, 0, i) < rank(schema.statements@, 0, k),
        p.disclosed_of(schema.statements[i].name()) matches Some(d) && p.pass_entries(
            &schema,
            c,
            0,
            k,
        ).unwrap()[6 * rank(schema.statements@, 0, i)] == ("disclosed messages"@, d.encoding()),
    decreases k,
{
    lemma_entries_counted(p, schema, c, k - 1);
    let st = schema.statements[k - 1];
    let before = p.pass_entries(&schema, c, 0, k - 1).unwrap();
    if i < k - 1 {
        lemma_signature_entries(p, schema, c, k - 1, i);
    }
    if Presentation::pass_of(&st) == 0 {
        let e = p.entries_of(&schema, &st, c).unwrap();
        assert(e.len() == 6);
        assert((before + e).len() == before.len() + 6);
        if i == k - 1 {
            assert((before + e)[before.len() as int] == e[0]);
        }
    }
}

/// The first pass adds six entries for each signature statement.
pub proof fn lemma_entries_counted(p: Presentation, schema: PresentationSchema, c: nat, k: int)
    requires
        0 <= k <= schema.statements.len(),
        p.pass_entries(&schema, c, 0, k) is Some,
    ensures
        p.pass_entries(&schema, c, 0, k).unwrap().len() == 6 * rank(schema.statements@, 0, k),
        rank(schema.statements@, 0, k) >= 0,
    decreases k,
{
    if k > 0 {
        lemma_entries_counted(p, schema, c, k - 1);
        let st = schema.statements[k - 1];
        if Presentation::pass_of(&st) == 0 {
            let e = p.entries_of(&schema, &st, c).unwrap();
            assert(e.len() == 6);
        }
    }
}

/// What a verifier's transcript holds tells the bytes of the disclosed
/// claims of every credential: two presentations whose transcripts for one
/// schema hold the same disclose claims of the same bytes for each signature
/// statement.
pub proof fn lemma_log_binds_disclosed(
    p: Presentation,
    q: Presentation,
    schema: PresentationSchema,
    nonce: Seq<u8>,
    changed: Seq<u8>,
    i: int,
)
    requires
        p.full_log(&schema, nonce) is Some,
        p.full_log(&schema, nonce) == q.full_log(&schema, changed),
        0 <= i < schema.statements.len(),
        schema.statements[i] is Signature,
    ensures
        p.disclosed_of(schema.statements[i].name()) is Some,
        q.disclosed_of(schema.statements[i].name()) is Some,
        p.disclosed_of(schema.statements[i].name()).unwrap().encoding() == q.disclosed_of(
            schema.statements[i].name(),
        ).unwrap().encoding(),
{
    let n = schema.statements.len() as int;
    let at = 6 * rank(schema.statements@, 0, i);
    lemma_signature_entries(p, schema, p.challenge@, n, i);
    lemma_signature_entries(q, schema, q.challenge@, n, i);
    let x = p.full_log(&schema, nonce).unwrap();
    let y = q.full_log(&schema, changed).unwrap();
    let a = p.pass_entries(&schema, p.challenge@, 0, n).unwrap();
    let b = q.pass_entries(&schema, q.challenge@, 0, n).unwrap();
    assert(x[5 + at] == a[at]);
    assert(y[5 + at] == b[at]);
}

/// Disclosed claims of the same bytes are the same claims: names, labels,
/// kinds and values.
pub proof fn lemma_disclosed_bytes(d: DisclosedMessages, e: DisclosedMessages)
    requires
        <DisclosedMessages as Codec>::valid(d.model()),
        <DisclosedMessages as Codec>::valid(e.model()),
        d.encoding() == e.encoding(),
    ensures
        d.model() == e.model(),
{
    <DisclosedMessages as Codec>::lemma_round_trip(d.model(), Seq::empty());
    <DisclosedMessages as Codec>::lemma_round_trip(e.model(), Seq::empty());
}

} // verus!
