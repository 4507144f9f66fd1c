//! The part of a presentation that proves knowledge of a credential's
//! signature and discloses some of its claims.

use vstd::prelude::*;
use merlin::Transcript;
use crate::bytes::same_string;
use crate::codec::Codec;
use crate::error::Error;
use crate::field::Scalar;
use crate::presentation::parts::{DisclosedMessages, SignatureProof};
use crate::presentation::statement::SignatureStatement;
use crate::presentation::tables::increasing_below;
use crate::ps::pok::pok_entries;
use crate::ps::positions::{lemma_same_entries, occurs, Placed, placed};
use crate::ps::proof_message::{lemma_entries, lemma_value_at, ProofMessage, revealed_entries};
use crate::transcript::{absorb, Entry, transcript_log};

verus! {

impl DisclosedMessages {
    /// The bytes of the disclosed claims of a credential, as they are
    /// written: the statement's name, and each claim with its label.
    pub open spec fn encoding(&self) -> Seq<u8> {
        <DisclosedMessages as Codec>::encode(self.model())
    }

    /// The bytes of the disclosed claims of a credential.
    pub fn to_bytes(&self) -> (r: Vec<u8>)
        ensures
            r@ == self.encoding(),
    {
        let mut out: Vec<u8> = Vec::new();
        self.write(&mut out);
        assert(out@ =~= self.encoding());
        out
    }
}

impl SignatureStatement {
    /// The disclosed claims are those that the statement asks for: one for
    /// each index that it lists, under the label of that index.
    pub open spec fn discloses(&self, d: &DisclosedMessages) -> bool {
        &&& d.claims.len() == self.disclosed.len()
        &&& forall|k: int|
            0 <= k < self.disclosed.len() ==> (#[trigger] self.disclosed[k]) < self.labels.len()
                && d.claims[k].label@ == self.labels[self.disclosed[k] as int]@
    }

    /// The positions and values of the disclosed claims.
    pub open spec fn revealed(&self, d: &DisclosedMessages) -> Seq<Placed> {
        Seq::new(
            d.claims.len() as nat,
            |k: int| (self.disclosed[k] as int + 1, d.claims[k].claim.value()),
        )
    }

    /// What the proof of the statement adds to the transcript: the
    /// disclosed claims, then the entries of the proof of knowledge.
    pub open spec fn entries(&self, p: &SignatureProof, d: &DisclosedMessages, c: nat) -> Seq<
        Entry,
    > {
        seq![("disclosed messages"@, d.encoding())] + pok_entries(
            p.pok.sigma_1@,
            p.pok.sigma_2@,
            p.pok.commitment@,
            self.revealed(d),
            p.pok.random_commitment(&self.issuer, self.revealed(d), c),
        )
    }

    /// The proof and the disclosed claims have the shape that the statement
    /// asks for.
    pub open spec fn shaped(&self, p: &SignatureProof, d: &DisclosedMessages) -> bool {
        &&& self.labels.len() + 1 == self.issuer.y_tilde.len()
        &&& self.discloses(d)
        &&& p.pok.shaped(&self.issuer, self.revealed(d))
    }

    /// The disclosed claims as indexed messages, if they are those that the
    /// statement asks for.
    pub fn revealed_messages(
        &self,
        d: &DisclosedMessages,
    ) -> (r: Result<Vec<(usize, Scalar)>, Error>)
        ensures
            r.is_ok() == self.discloses(d),
            r matches Ok(v) ==> placed(v@) == self.revealed(d),
            r matches Err(e) ==> e == Error::InvalidPresentationData,
    {
        if d.claims.len() != self.disclosed.len() {
            return Err(Error::InvalidPresentationData);
        }
        let mut out: Vec<(usize, Scalar)> = Vec::new();
        let mut k: usize = 0;
        while k < self.disclosed.len()
            invariant
                k <= self.disclosed.len(),
                d.claims.len() == self.disclosed.len(),
                out.len() == k,
                forall|j: int|
                    0 <= j < k ==> (#[trigger] self.disclosed[j]) < self.labels.len()
                        && d.claims[j].label@ == self.labels[self.disclosed[j] as int]@,
                forall|j: int|
                    0 <= j < k ==> (#[trigger] out[j]).0 == self.disclosed[j] && out[j].1@
                        == d.claims[j].claim.value(),
            decreases self.disclosed.len() - k,
        {
            let index = self.disclosed[k];
            if index >= self.labels.len() || !same_string(
                &d.claims[k].label,
                &self.labels[index],
            ) {
                return Err(Error::InvalidPresentationData);
            }
            out.push((index, d.claims[k].claim.to_scalar()));
            k += 1;
        }
        assert(placed(out@) =~= self.revealed(d));
        Ok(out)
    }

    /// Adds what the proof of the statement adds to the transcript, and
    /// returns the disclosed claims as indexed messages. Where the proof or
    /// the disclosed claims do not have the shape asked for, there is an error.
    pub fn absorb_proof(
        &self,
        p: &SignatureProof,
        d: &DisclosedMessages,
        challenge: &Scalar,
        transcript: &mut Transcript,
    ) -> (r: Result<Vec<(usize, Scalar)>, Error>)
        ensures
            r.is_ok() == (self.shaped(p, d) && d.encoding().len() <= u32::MAX),
            r matches Ok(v) ==> placed(v@) == self.revealed(d) && transcript_log(
                *final(transcript),
            ) == transcript_log(*old(transcript)) + self.entries(p, d, challenge@),
            r matches Err(e) ==> e == Error::InvalidPresentationData || e
                == Error::InvalidKeyGeneration,
    {
        if self.issuer.y_tilde.len() == 0 || self.labels.len() != self.issuer.y_tilde.len() - 1 {
            return Err(Error::InvalidPresentationData);
        }
        match self.revealed_messages(d) {
            Err(e) => Err(e),
            Ok(revealed) => {
                let bytes = d.to_bytes();
                if bytes.len() > 0xffff_ffff {
                    return Err(Error::InvalidPresentationData);
                }
                let ghost before = transcript_log(*transcript);
                let a = absorb(transcript, "disclosed messages", &bytes);
                match p.pok.add_proof_contribution(
                    &self.issuer,
                    revealed.as_slice(),
                    challenge,
                    transcript,
                ) {
                    Err(e) => Err(e),
                    Ok(_) => {
                        proof {
                            assert(transcript_log(*transcript) =~= before + self.entries(
                                p,
                                d,
                                challenge@,
                            ));
                        }
                        Ok(revealed)
                    },
                }
            },
        }
    }
}

/// The disclosed claims of a statement, as the verifier takes them from
/// the presentation, are the revealed messages of the prover's row: where
/// the row reveals exactly the claims that the statement discloses, and the
/// presentation discloses those claims.
pub proof fn lemma_revealed_row(
    ss: SignatureStatement,
    d: DisclosedMessages,
    claims: Seq<nat>,
    row: Seq<ProofMessage>,
)
    requires
        increasing_below(ss.disclosed@, claims.len() as int),
        claims.len() < usize::MAX,
        row.len() == claims.len(),
        forall|j: int|
            0 <= j < row.len() ==> (#[trigger] row[j]).message() == claims[j] && row[j].hidden()
                == !ss.disclosed@.contains(j as usize),
        d.claims.len() == ss.disclosed.len(),
        forall|k: int|
            0 <= k < ss.disclosed.len() ==> (#[trigger] d.claims[k]).claim.value()
                == claims[ss.disclosed[k] as int],
    ensures
        ss.revealed(&d) == revealed_entries(row),
{
    let n = row.len() as int;
    let a = ss.revealed(&d);
    let b = revealed_entries(row);
    lemma_entries(row, n, false);
    assert forall|i: int, j: int| 0 <= i < j < a.len() implies (#[trigger] a[i]).0 < (
    #[trigger] a[j]).0 by {
        assert(ss.disclosed[i] < ss.disclosed[j]);
    }
    assert forall|i: int| 0 <= i < a.len() implies 1 <= (#[trigger] a[i]).0 < n + 1 by {
        assert(ss.disclosed[i] < n);
    }
    assert forall|p: int| occurs(a, p) == occurs(b, p) by {
        if occurs(a, p) {
            let k = choose|k: int| 0 <= k < a.len() && (#[trigger] a[k]).0 == p;
            assert(ss.disclosed[k] == p - 1);
            assert(ss.disclosed@.contains((p - 1) as usize));
            assert(!row[p - 1].hidden());
        }
        if occurs(b, p) {
            let k = choose|k: int| 0 <= k < b.len() && (#[trigger] b[k]).0 == p;
            assert(1 <= b[k].0 < n + 1);
            assert(!row[p - 1].hidden());
            assert(ss.disclosed@.contains((p - 1) as usize));
            let m = choose|m: int|
                0 <= m < ss.disclosed.len() && ss.disclosed[m] == (p - 1) as usize;
            assert(a[m].0 == p);
        }
    }
    assert forall|i: int, j: int|
        0 <= i < a.len() && 0 <= j < b.len() && (#[trigger] a[i]).0 == (#[trigger] b[j]).0
        implies a[i].1 == b[j].1 by {
        lemma_value_at(row, n, false, j);
    }
    lemma_same_entries(a, b, 1, n + 1);
}

} // verus!
