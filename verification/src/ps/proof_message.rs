//! How each message of a signature enters a proof: revealed to the verifier,
//! or hidden behind a blinder.

use vstd::prelude::*;
use rand_core::OsRng;
use crate::field::Scalar;
use crate::ps::positions::{
    complement, lemma_scatter, occurs, Placed, placed_in, pointwise_sum, positions, scatter,
    with_nonce,
};
use crate::ps::signature::extended;

verus! {

/// A message of a signature in a proof.
#[derive(Clone, Copy, Debug)]
pub enum ProofMessage {
    /// The verifier learns the message.
    Revealed(Scalar),
    /// The message is hidden behind a blinder that this proof alone uses.
    HiddenProofSpecific(Scalar),
    /// The message is hidden behind the given blinder, which other proofs
    /// of the same message share.
    HiddenExternalBlinding(Scalar, Scalar),
}

impl ProofMessage {
    /// The message.
    pub open spec fn message(&self) -> nat {
        match self {
            ProofMessage::Revealed(m) => m@,
            ProofMessage::HiddenProofSpecific(m) => m@,
            ProofMessage::HiddenExternalBlinding(m, _) => m@,
        }
    }

    /// Whether the message is hidden.
    pub open spec fn hidden(&self) -> bool {
        !(self is Revealed)
    }

    /// The blinder that the message brings, or zero where it brings none.
    pub open spec fn blinder(&self) -> nat {
        match self {
            ProofMessage::HiddenExternalBlinding(_, b) => b@,
            _ => 0,
        }
    }

    /// The message.
    pub fn get_message(&self) -> (r: Scalar)
        ensures
            r@ == self.message(),
    {
        match self {
            ProofMessage::Revealed(m) => *m,
            ProofMessage::HiddenProofSpecific(m) => *m,
            ProofMessage::HiddenExternalBlinding(m, _) => *m,
        }
    }

    /// Whether the message is hidden.
    pub fn is_hidden(&self) -> (r: bool)
        ensures
            r == self.hidden(),
    {
        match self {
            ProofMessage::Revealed(_) => false,
            _ => true,
        }
    }

    /// The blinder of the message: none for a revealed message, the given
    /// one where there is one, else one drawn at random.
    pub fn get_blinder(&self, rng: &mut OsRng) -> (r: Option<Scalar>)
        ensures
            r.is_some() == self.hidden(),
            self is HiddenExternalBlinding ==> r.unwrap()@ == self.blinder(),
    {
        match self {
            ProofMessage::Revealed(_) => None,
            ProofMessage::HiddenProofSpecific(_) => Some(Scalar::random(rng)),
            ProofMessage::HiddenExternalBlinding(_, b) => Some(*b),
        }
    }

    /// The message with `fresh` for its blinder where it is hidden and
    /// brings none.
    pub fn with_blinder(&self, fresh: Scalar) -> (r: ProofMessage)
        ensures
            r == self.blinded(fresh),
    {
        match self {
            ProofMessage::HiddenProofSpecific(m) => ProofMessage::HiddenExternalBlinding(
                *m,
                fresh,
            ),
            _ => *self,
        }
    }

    /// The message with `fresh` for its blinder where it is hidden and
    /// brings none.
    pub open spec fn blinded(&self, fresh: Scalar) -> ProofMessage {
        match self {
            ProofMessage::HiddenProofSpecific(m) => ProofMessage::HiddenExternalBlinding(
                *m,
                fresh,
            ),
            _ => *self,
        }
    }
}

/// The values of the messages.
pub open spec fn message_values(messages: Seq<ProofMessage>) -> Seq<nat> {
    messages.map_values(|m: ProofMessage| m.message())
}

/// The positions and values of the first `k` messages that are hidden, if
/// `want_hidden`, or of those that are revealed, if not.
pub open spec fn entries_upto(messages: Seq<ProofMessage>, k: int, want_hidden: bool) -> Seq<
    Placed,
>
    decreases k,
{
    if k <= 0 {
        Seq::empty()
    } else if messages[k - 1].hidden() == want_hidden {
        entries_upto(messages, k - 1, want_hidden).push((k, messages[k - 1].message()))
    } else {
        entries_upto(messages, k - 1, want_hidden)
    }
}

/// The positions and values of the hidden messages.
pub open spec fn hidden_entries(messages: Seq<ProofMessage>) -> Seq<Placed> {
    entries_upto(messages, messages.len() as int, true)
}

/// The positions and values of the revealed messages.
pub open spec fn revealed_entries(messages: Seq<ProofMessage>) -> Seq<Placed> {
    entries_upto(messages, messages.len() as int, false)
}

/// The blinders of the first `k` messages that are hidden.
pub open spec fn blinders_upto(messages: Seq<ProofMessage>, k: int) -> Seq<nat>
    decreases k,
{
    if k <= 0 {
        Seq::empty()
    } else if messages[k - 1].hidden() {
        blinders_upto(messages, k - 1).push(messages[k - 1].blinder())
    } else {
        blinders_upto(messages, k - 1)
    }
}

/// The blinders of the hidden messages.
pub open spec fn hidden_blinders(messages: Seq<ProofMessage>) -> Seq<nat> {
    blinders_upto(messages, messages.len() as int)
}

/// The entries of the first `k` messages stand at increasing positions from
/// one to `k`; a position is among them exactly if its message is of the
/// wanted kind; and there is one blinder for each hidden one.
pub proof fn lemma_entries(messages: Seq<ProofMessage>, k: int, want_hidden: bool)
    requires
        0 <= k <= messages.len(),
    ensures
        placed_in(entries_upto(messages, k, want_hidden), 1, k + 1),
        forall|p: int|
            1 <= p <= k ==> (occurs(entries_upto(messages, k, want_hidden), p) <==> messages[p
                - 1].hidden() == want_hidden),
        forall|p: int| p > k ==> !occurs(entries_upto(messages, k, want_hidden), p),
        blinders_upto(messages, k).len() == entries_upto(messages, k, true).len(),
    decreases k,
{
    if k > 0 {
        lemma_entries(messages, k - 1, want_hidden);
        lemma_entries(messages, k - 1, true);
        let prev = entries_upto(messages, k - 1, want_hidden);
        let all = entries_upto(messages, k, want_hidden);
        assert forall|p: int| 1 <= p <= k implies (occurs(all, p) <==> messages[p - 1].hidden()
            == want_hidden) by {
            if messages[k - 1].hidden() == want_hidden {
                assert(all[all.len() - 1].0 == k);
                if occurs(prev, p) {
                    let i = choose|i: int| 0 <= i < prev.len() && (#[trigger] prev[i]).0 == p;
                    assert(all[i].0 == p);
                }
                if occurs(all, p) && p < k {
                    let i = choose|i: int| 0 <= i < all.len() && (#[trigger] all[i]).0 == p;
                    assert(prev[i].0 == p);
                }
            }
        }
        assert forall|p: int| p > k implies !occurs(all, p) by {
            if occurs(all, p) {
                let i = choose|i: int| 0 <= i < all.len() && (#[trigger] all[i]).0 == p;
                if i < prev.len() {
                    assert(prev[i].0 == p);
                }
            }
        }
        assert forall|i: int, j: int| 0 <= i < j < all.len() implies (#[trigger] all[i]).0 < (
        #[trigger] all[j]).0 by {
            if j < prev.len() {
                assert(all[i] == prev[i] && all[j] == prev[j]);
            } else {
                assert(prev[i].0 < k);
            }
        }
        assert forall|i: int| 0 <= i < all.len() implies 1 <= (#[trigger] all[i]).0 < k + 1 by {
            if i < prev.len() {
                assert(all[i] == prev[i]);
            }
        }
    }
}

/// The positions that are not revealed, from that of the nonce on, are
/// that of the nonce and those of the hidden messages.
pub proof fn lemma_hidden_complement(messages: Seq<ProofMessage>, m_tick: nat, k: int)
    requires
        0 <= k <= messages.len(),
    ensures
        complement(revealed_entries(messages), 0, k + 1) == positions(
            with_nonce(m_tick, entries_upto(messages, k, true)),
        ),
    decreases k,
{
    let rev = revealed_entries(messages);
    lemma_entries(messages, messages.len() as int, false);
    if k == 0 {
        assert(!occurs(rev, 0)) by {
            if occurs(rev, 0) {
                let i = choose|i: int| 0 <= i < rev.len() && (#[trigger] rev[i]).0 == 0;
                assert(1 <= rev[i].0);
            }
        }
        assert(complement(rev, 0, 0) =~= Seq::<int>::empty());
        assert(complement(rev, 0, 1) =~= seq![0int]);
        assert(positions(with_nonce(m_tick, entries_upto(messages, 0, true))) =~= seq![0int]);
    } else {
        lemma_hidden_complement(messages, m_tick, k - 1);
        let prev = entries_upto(messages, k - 1, true);
        if messages[k - 1].hidden() {
            assert(with_nonce(m_tick, prev.push((k, messages[k - 1].message()))) =~= with_nonce(
                m_tick,
                prev,
            ).push((k, messages[k - 1].message())));
            assert(positions(with_nonce(m_tick, prev).push((k, messages[k - 1].message())))
                =~= positions(with_nonce(m_tick, prev)).push(k));
        }
    }
}

/// The nonce and the messages are the hidden ones with the nonce, plus the
/// revealed ones, each at its position.
pub proof fn lemma_partition(messages: Seq<ProofMessage>, m_tick: nat)
    ensures
        extended(m_tick, message_values(messages)) == pointwise_sum(
            scatter(messages.len() as int + 1, with_nonce(m_tick, hidden_entries(messages))),
            scatter(messages.len() as int + 1, revealed_entries(messages)),
        ),
        placed_in(hidden_entries(messages), 1, messages.len() as int + 1),
        placed_in(revealed_entries(messages), 1, messages.len() as int + 1),
{
    let n = messages.len() as int;
    let len = n + 1;
    let hid = hidden_entries(messages);
    let rev = revealed_entries(messages);
    lemma_entries(messages, n, true);
    lemma_entries(messages, n, false);
    crate::ps::positions::lemma_scatter_nonce(len, m_tick, hid);
    lemma_scatter(len, hid);
    lemma_scatter(len, rev);
    let ext = extended(m_tick, message_values(messages));
    let sh = scatter(len, with_nonce(m_tick, hid));
    let sr = scatter(len, rev);
    assert(!occurs(rev, 0)) by {
        if occurs(rev, 0) {
            let i = choose|i: int| 0 <= i < rev.len() && (#[trigger] rev[i]).0 == 0;
            assert(1 <= rev[i].0);
        }
    }
    assert(placed_in(hid, 0, len));
    assert(placed_in(rev, 0, len));
    assert forall|p: int| 0 <= p < len implies ext[p] == sh[p] + sr[p] by {
        if p > 0 {
            assert(ext[p] == messages[p - 1].message());
            if messages[p - 1].hidden() {
                assert(occurs(hid, p));
                let i = choose|i: int| 0 <= i < hid.len() && (#[trigger] hid[i]).0 == p;
                lemma_value_at(messages, n, true, i);
                crate::ps::positions::lemma_scatter_at(len, hid, i);
                assert(!occurs(rev, p));
            } else {
                assert(occurs(rev, p));
                let i = choose|i: int| 0 <= i < rev.len() && (#[trigger] rev[i]).0 == p;
                lemma_value_at(messages, n, false, i);
                crate::ps::positions::lemma_scatter_at(len, rev, i);
                assert(!occurs(hid, p));
            }
        }
    }
    assert(ext =~= pointwise_sum(sh, sr));
}

/// Each entry holds the message of its position.
pub proof fn lemma_value_at(messages: Seq<ProofMessage>, k: int, want_hidden: bool, i: int)
    requires
        0 <= k <= messages.len(),
        0 <= i < entries_upto(messages, k, want_hidden).len(),
    ensures
        1 <= entries_upto(messages, k, want_hidden)[i].0 <= k,
        entries_upto(messages, k, want_hidden)[i].1 == messages[entries_upto(
            messages,
            k,
            want_hidden,
        )[i].0 - 1].message(),
    decreases k,
{
    if k > 0 {
        let prev = entries_upto(messages, k - 1, want_hidden);
        if i < prev.len() {
            lemma_value_at(messages, k - 1, want_hidden, i);
        }
    }
}

/// The entries and the blinders of the first `k` messages come first among
/// those of the first `n` messages.
pub proof fn lemma_entries_prefix(messages: Seq<ProofMessage>, k: int, n: int, want_hidden: bool)
    requires
        0 <= k <= n <= messages.len(),
    ensures
        entries_upto(messages, k, want_hidden) == entries_upto(messages, n, want_hidden).take(
            entries_upto(messages, k, want_hidden).len() as int,
        ),
        entries_upto(messages, k, want_hidden).len() <= entries_upto(
            messages,
            n,
            want_hidden,
        ).len(),
        blinders_upto(messages, k) == blinders_upto(messages, n).take(
            blinders_upto(messages, k).len() as int,
        ),
        blinders_upto(messages, k).len() <= blinders_upto(messages, n).len(),
    decreases n - k,
{
    if k < n {
        lemma_entries_prefix(messages, k, n - 1, want_hidden);
        let e = entries_upto(messages, k, want_hidden);
        let b = blinders_upto(messages, k);
        assert(e =~= entries_upto(messages, n, want_hidden).take(e.len() as int));
        assert(b =~= blinders_upto(messages, n).take(b.len() as int));
    } else {
        assert(entries_upto(messages, n, want_hidden).take(
            entries_upto(messages, n, want_hidden).len() as int,
        ) =~= entries_upto(messages, n, want_hidden));
        assert(blinders_upto(messages, n).take(blinders_upto(messages, n).len() as int)
            =~= blinders_upto(messages, n));
    }
}

/// Where a hidden message stands among the hidden messages: after as many
/// as are hidden before it, with its value and its blinder.
pub proof fn lemma_hidden_place(messages: Seq<ProofMessage>, i: int)
    requires
        0 <= i < messages.len(),
        messages[i].hidden(),
    ensures
        entries_upto(messages, i, true).len() < hidden_entries(messages).len(),
        hidden_entries(messages).len() == hidden_blinders(messages).len(),
        hidden_entries(messages)[entries_upto(messages, i, true).len() as int] == (
            i + 1,
            messages[i].message(),
        ),
        hidden_blinders(messages)[entries_upto(messages, i, true).len() as int]
            == messages[i].blinder(),
{
    let n = messages.len() as int;
    let h = entries_upto(messages, i, true).len() as int;
    lemma_entries(messages, i, true);
    lemma_entries(messages, i + 1, true);
    lemma_entries(messages, n, true);
    lemma_entries_prefix(messages, i + 1, n, true);
    let step = entries_upto(messages, i + 1, true);
    let bstep = blinders_upto(messages, i + 1);
    assert(step == entries_upto(messages, i, true).push((i + 1, messages[i].message())));
    assert(bstep == blinders_upto(messages, i).push(messages[i].blinder()));
    assert(step[h] == (i + 1, messages[i].message()));
    assert(bstep[h] == messages[i].blinder());
    assert(hidden_entries(messages).take(step.len() as int)[h] == hidden_entries(messages)[h]);
    assert(hidden_blinders(messages).take(bstep.len() as int)[h] == hidden_blinders(messages)[h]);
}

} // verus!
