//! The Fiat–Shamir transcript.
//!
//! A Merlin transcript is known here by the sequence of labelled entries
//! that it has absorbed; a challenge is a function of that sequence and of
//! the challenge's own label.

use vstd::prelude::*;
use merlin::Transcript;
use crate::error::Error;
use crate::field::{le_value, modulus, Scalar};

verus! {

/// The transcript of `merlin`.
#[verifier::external_type_specification]
#[verifier::external_body]
pub struct ExTranscript(Transcript);

/// One labelled entry of a transcript.
pub type Entry = (Seq<char>, Seq<u8>);

/// What a transcript has absorbed, in order: the domain separator it was
/// made with, then each message under its label.
pub uninterp spec fn transcript_log(t: Transcript) -> Seq<Entry>;

/// The 64 challenge bytes that a transcript which has absorbed `log` gives
/// under a label.
pub uninterp spec fn challenge_of(log: Seq<Entry>, label: Seq<char>) -> Seq<u8>;

/// The scalar that a transcript which has absorbed `log` gives under a label.
pub open spec fn challenge_scalar_of(log: Seq<Entry>, label: Seq<char>) -> nat {
    le_value(challenge_of(log, label)) % modulus()
}

/// Calls `Transcript::new` of `merlin`: a transcript that holds its domain
/// separator and nothing else.
#[verifier::external_body]
pub(crate) fn transcript_new(label: &'static str) -> (t: Transcript)
    ensures
        transcript_log(t) == seq![(label@, Seq::<u8>::empty())],
{
    Transcript::new(label.as_bytes())
}

/// Calls `Transcript::append_message` of `merlin`, which absorbs the label
/// and the message. It refuses a message longer than a `u32` can count.
#[verifier::external_body]
pub(crate) fn append_message(t: &mut Transcript, label: &'static str, message: &[u8])
    requires
        message@.len() <= u32::MAX,
    ensures
        transcript_log(*final(t)) == transcript_log(*old(t)).push((label@, message@)),
{
    t.append_message(label.as_bytes(), message)
}

/// Calls `Transcript::challenge_bytes` of `merlin` for 64 bytes. The bytes
/// depend on what was absorbed before and on the label. The transcript is
/// given up: nothing is said of what it holds afterwards.
#[verifier::external_body]
pub(crate) fn challenge_bytes(t: Transcript, label: &'static str) -> (out: [u8; 64])
    ensures
        out@ == challenge_of(transcript_log(t), label@),
{
    let mut t = t;
    let mut out = [0u8; 64];
    t.challenge_bytes(label.as_bytes(), &mut out);
    out
}

/// Absorbs a message under a label, unless it is longer than a transcript
/// takes: then the transcript is left as it is.
pub fn absorb(t: &mut Transcript, label: &'static str, message: &Vec<u8>) -> (r: Result<(), Error>)
    ensures
        r.is_ok() == (message.len() <= u32::MAX),
        r is Ok ==> transcript_log(*final(t)) == transcript_log(*old(t)).push(
            (label@, message@),
        ),
        r matches Err(e) ==> e == Error::InvalidPresentationData && transcript_log(*final(t))
            == transcript_log(*old(t)),
{
    if message.len() > 0xffff_ffff {
        return Err(Error::InvalidPresentationData);
    }
    append_message(t, label, message.as_slice());
    Ok(())
}

/// Draws a challenge from the transcript, which ends with it, and reduces
/// it to a scalar.
pub fn challenge_scalar(t: Transcript, label: &'static str) -> (c: Scalar)
    ensures
        c@ == challenge_scalar_of(transcript_log(t), label@),
        c.wf(),
{
    let bytes = challenge_bytes(t, label);
    Scalar::from_bytes_wide(&bytes)
}

} // verus!
