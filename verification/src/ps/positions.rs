//! Messages placed at positions of a key.
//!
//! A list of `(index, message)` pairs names some of the messages that a key
//! signs. Message `i` stands at position `i + 1` of the key, after the
//! position of the signing nonce. Such a list is given with its indices in
//! increasing order.

use vstd::prelude::*;
use crate::algebra::{dot, lemma_dot_push};
use crate::field::Scalar;
use crate::group::{Group, logs};

verus! {

/// A position of a key and the scalar that stands there.
pub type Placed = (int, nat);

/// The positions and values of a list of indexed messages.
pub open spec fn placed(msgs: Seq<(usize, Scalar)>) -> Seq<Placed> {
    msgs.map_values(|m: (usize, Scalar)| (m.0 as int + 1, m.1@))
}

/// The positions lie from `lo` up to `len`, and they increase.
pub open spec fn placed_in(entries: Seq<Placed>, lo: int, len: int) -> bool {
    &&& forall|i: int| 0 <= i < entries.len() ==> lo <= (#[trigger] entries[i]).0 < len
    &&& forall|i: int, j: int|
        0 <= i < j < entries.len() ==> (#[trigger] entries[i]).0 < (#[trigger] entries[j]).0
}

/// The positions are those of messages of a key with `len` positions, and
/// they increase.
pub open spec fn well_placed(entries: Seq<Placed>, len: int) -> bool {
    placed_in(entries, 1, len)
}

/// The positions are those of messages of a key with `len` positions, in
/// whatever order they come.
pub open spec fn within(entries: Seq<Placed>, len: int) -> bool {
    forall|i: int| 0 <= i < entries.len() ==> 1 <= (#[trigger] entries[i]).0 < len
}

/// The entries with the signing nonce before them, at its position.
pub open spec fn with_nonce(m_tick: nat, entries: Seq<Placed>) -> Seq<Placed> {
    seq![(0int, m_tick)] + entries
}

/// Entries that increase still do when the last is left out.
pub proof fn lemma_placed_rest(entries: Seq<Placed>, lo: int, len: int)
    requires
        placed_in(entries, lo, len),
        entries.len() > 0,
    ensures
        placed_in(entries.drop_last(), lo, len),
        !occurs(entries.drop_last(), entries.last().0),
{
    let rest = entries.drop_last();
    assert forall|k: int| 0 <= k < rest.len() implies lo <= (#[trigger] rest[k]).0 < len by {
        assert(rest[k] == entries[k]);
    }
    assert forall|k: int, j: int| 0 <= k < j < rest.len() implies (#[trigger] rest[k]).0 < (
    #[trigger] rest[j]).0 by {
        assert(rest[k] == entries[k]);
        assert(rest[j] == entries[j]);
    }
    if occurs(rest, entries.last().0) {
        let i = choose|i: int| 0 <= i < rest.len() && (#[trigger] rest[i]).0 == entries.last().0;
        assert(entries[i].0 < entries[entries.len() - 1].0);
    }
}

/// With the nonce before them, scattered messages hold the nonce at its
/// position and are unchanged elsewhere.
pub proof fn lemma_scatter_nonce(len: int, m_tick: nat, entries: Seq<Placed>)
    requires
        well_placed(entries, len),
        1 <= len,
    ensures
        placed_in(with_nonce(m_tick, entries), 0, len),
        scatter(len, with_nonce(m_tick, entries)).len() == len,
        scatter(len, with_nonce(m_tick, entries))[0] == m_tick,
        scatter(len, entries).len() == len,
        forall|p: int|
            1 <= p < len ==> scatter(len, with_nonce(m_tick, entries))[p] == scatter(
                len,
                entries,
            )[p],
    decreases entries.len(),
{
    let all = with_nonce(m_tick, entries);
    assert forall|i: int, j: int| 0 <= i < j < all.len() implies (#[trigger] all[i]).0 < (
    #[trigger] all[j]).0 by {
        assert(all[j] == entries[j - 1]);
        if i > 0 {
            assert(all[i] == entries[i - 1]);
        }
    }
    assert forall|i: int| 0 <= i < all.len() implies 0 <= (#[trigger] all[i]).0 < len by {
        if i > 0 {
            assert(all[i] == entries[i - 1]);
        }
    }
    lemma_scatter(len, entries);
    lemma_scatter(len, all.drop_last());
    let prev = scatter(len, all.drop_last());
    assert(0 <= all[all.len() - 1].0 < len);
    assert(scatter(len, all) == prev.update(all.last().0, all.last().1));
    if entries.len() == 0 {
        assert(all.drop_last() =~= Seq::<Placed>::empty());
        assert(all.last() == (0int, m_tick));
    } else {
        lemma_placed_rest(entries, 1, len);
        lemma_scatter_nonce(len, m_tick, entries.drop_last());
        assert(all.drop_last() =~= with_nonce(m_tick, entries.drop_last()));
        assert(all.last() == entries.last());
        assert(1 <= entries[entries.len() - 1].0 < len);
        lemma_scatter(len, entries.drop_last());
        assert(scatter(len, entries) == scatter(len, entries.drop_last()).update(
            entries.last().0,
            entries.last().1,
        ));
    }
}

/// Whether a position is among the entries.
pub open spec fn occurs(entries: Seq<Placed>, p: int) -> bool {
    exists|i: int| 0 <= i < entries.len() && (#[trigger] entries[i]).0 == p
}

/// The values of the entries, in order.
pub open spec fn vals(entries: Seq<Placed>) -> Seq<nat> {
    entries.map_values(|e: Placed| e.1)
}

/// The elements of `a` at the positions of the entries, in order.
pub open spec fn gather(a: Seq<nat>, entries: Seq<Placed>) -> Seq<nat> {
    entries.map_values(|e: Placed| a[e.0])
}

/// The elements of `a` at the given positions, in order.
pub open spec fn pick(a: Seq<nat>, positions: Seq<int>) -> Seq<nat> {
    positions.map_values(|p: int| a[p])
}

/// The positions of the entries, in order.
pub open spec fn positions(entries: Seq<Placed>) -> Seq<int> {
    entries.map_values(|e: Placed| e.0)
}

/// `len` scalars: the value of each entry at its position, zero elsewhere.
pub open spec fn scatter(len: int, entries: Seq<Placed>) -> Seq<nat>
    decreases entries.len(),
{
    if entries.len() == 0 {
        Seq::new(len as nat, |i: int| 0nat)
    } else if 0 <= entries.last().0 < len {
        scatter(len, entries.drop_last()).update(entries.last().0, entries.last().1)
    } else {
        scatter(len, entries.drop_last())
    }
}

/// The positions from `lo` up to `hi` that are not among the entries, in
/// increasing order.
pub open spec fn complement(entries: Seq<Placed>, lo: int, hi: int) -> Seq<int>
    decreases hi - lo,
{
    if hi <= lo {
        Seq::empty()
    } else if occurs(entries, hi - 1) {
        complement(entries, lo, hi - 1)
    } else {
        complement(entries, lo, hi - 1).push(hi - 1)
    }
}

/// The term by term sum of two sequences of one length.
pub open spec fn pointwise_sum(a: Seq<nat>, b: Seq<nat>) -> Seq<nat> {
    Seq::new(a.len(), |i: int| a[i] + b[i])
}

/// Scattered entries fill `len` positions, and a position that is not among
/// them holds zero.
pub proof fn lemma_scatter(len: int, entries: Seq<Placed>)
    requires
        0 <= len,
    ensures
        scatter(len, entries).len() == len,
        forall|p: int| 0 <= p < len && !occurs(entries, p) ==> scatter(len, entries)[p] == 0,
    decreases entries.len(),
{
    if entries.len() > 0 {
        let rest = entries.drop_last();
        lemma_scatter(len, rest);
        assert forall|p: int| 0 <= p < len && !occurs(entries, p) implies scatter(
            len,
            entries,
        )[p] == 0 by {
            assert(entries[entries.len() - 1].0 != p);
            if occurs(rest, p) {
                let i = choose|i: int| 0 <= i < rest.len() && (#[trigger] rest[i]).0 == p;
                assert(entries[i].0 == p);
            }
        }
    }
}

/// Where the positions increase, each entry's value stands at its position.
pub proof fn lemma_scatter_at(len: int, entries: Seq<Placed>, i: int)
    requires
        placed_in(entries, 0, len),
        0 <= i < entries.len(),
    ensures
        scatter(len, entries)[entries[i].0] == entries[i].1,
    decreases entries.len(),
{
    let rest = entries.drop_last();
    lemma_scatter(len, rest);
    if i < entries.len() - 1 {
        lemma_placed_rest(entries, 0, len);
        lemma_scatter_at(len, rest, i);
        assert(rest[i] == entries[i]);
        assert(entries[i].0 < entries[entries.len() - 1].0);
    }
}

/// Changing one term of a sum of products changes the sum by that term.
pub proof fn lemma_dot_update(a: Seq<nat>, b: Seq<nat>, i: int, v: nat)
    requires
        a.len() == b.len(),
        0 <= i < a.len(),
    ensures
        dot(a, b.update(i, v)) + a[i] * b[i] == dot(a, b) + a[i] * v,
    decreases a.len(),
{
    let b2 = b.update(i, v);
    if i == a.len() - 1 {
        assert(b2.drop_last() =~= b.drop_last());
    } else {
        assert(b2.drop_last() =~= b.drop_last().update(i, v));
        lemma_dot_update(a.drop_last(), b.drop_last(), i, v);
    }
}

/// The values of the entries taken with the elements of `a` at their
/// positions give what the scattered entries give taken with all of `a`.
pub proof fn lemma_gather(a: Seq<nat>, entries: Seq<Placed>)
    requires
        placed_in(entries, 0, a.len() as int),
    ensures
        dot(gather(a, entries), vals(entries)) == dot(a, scatter(a.len() as int, entries)),
    decreases entries.len(),
{
    let len = a.len() as int;
    if entries.len() == 0 {
        lemma_dot_zero(a, scatter(len, entries));
    } else {
        let rest = entries.drop_last();
        let e = entries.last();
        lemma_placed_rest(entries, 0, len);
        lemma_gather(a, rest);
        assert(gather(a, entries) =~= gather(a, rest).push(a[e.0]));
        assert(vals(entries) =~= vals(rest).push(e.1));
        lemma_dot_push(gather(a, rest), vals(rest), a[e.0], e.1);
        lemma_scatter(len, rest);
        lemma_dot_update(a, scatter(len, rest), e.0, e.1);
        assert(a[e.0] * 0 == 0);
    }
}

/// A sum of products with zeros is zero.
pub proof fn lemma_dot_zero(a: Seq<nat>, b: Seq<nat>)
    requires
        forall|i: int| 0 <= i < b.len() ==> b[i] == 0,
    ensures
        dot(a, b) == 0,
    decreases a.len(),
{
    if a.len() == 0 || b.len() == 0 {
    } else {
        lemma_dot_zero(a.drop_last(), b.drop_last());
        assert(a.last() * 0 == 0);
    }
}

/// Sums of products over one sequence add up term by term.
pub proof fn lemma_dot_add(a: Seq<nat>, b: Seq<nat>, c: Seq<nat>)
    requires
        a.len() == b.len(),
        a.len() == c.len(),
    ensures
        dot(a, b) + dot(a, c) == dot(a, pointwise_sum(b, c)),
    decreases a.len(),
{
    if a.len() > 0 {
        assert(pointwise_sum(b, c).drop_last() =~= pointwise_sum(b.drop_last(), c.drop_last()));
        lemma_dot_add(a.drop_last(), b.drop_last(), c.drop_last());
        assert(a.last() * (b.last() + c.last()) == a.last() * b.last() + a.last() * c.last())
            by (nonlinear_arith);
    }
}

/// No position occurs twice.
pub open spec fn distinct(entries: Seq<Placed>) -> bool {
    forall|i: int, j: int|
        0 <= i < j < entries.len() ==> (#[trigger] entries[i]).0 != (#[trigger] entries[j]).0
}

/// The scalar that stands at a position among the entries.
pub open spec fn value_at(entries: Seq<Placed>, p: int) -> nat {
    entries[choose|i: int| 0 <= i < entries.len() && (#[trigger] entries[i]).0 == p].1
}

/// The entries at the positions from one up to `k`, in increasing order
/// of their positions.
pub open spec fn arranged(entries: Seq<Placed>, k: int) -> Seq<Placed>
    decreases k,
{
    if k <= 1 {
        Seq::empty()
    } else if occurs(entries, k - 1) {
        arranged(entries, k - 1).push((k - 1, value_at(entries, k - 1)))
    } else {
        arranged(entries, k - 1)
    }
}

/// Among entries at increasing positions, a position occurs once.
pub proof fn lemma_one_place(entries: Seq<Placed>, lo: int, len: int, i: int, j: int)
    requires
        placed_in(entries, lo, len),
        0 <= i < entries.len(),
        0 <= j < entries.len(),
        entries[i].0 == entries[j].0,
    ensures
        i == j,
{
    if i < j {
        assert(entries[i].0 < entries[j].0);
    }
    if j < i {
        assert(entries[j].0 < entries[i].0);
    }
}

/// The entries below a position are those of the entries without the
/// last, where the last stands at that position or after it.
proof fn lemma_arranged_rest(entries: Seq<Placed>, len: int, k: int)
    requires
        placed_in(entries, 1, len),
        entries.len() > 0,
        k <= entries.last().0,
    ensures
        arranged(entries, k) == arranged(entries.drop_last(), k),
    decreases k,
{
    if k > 1 {
        let rest = entries.drop_last();
        let p = k - 1;
        lemma_arranged_rest(entries, len, k - 1);
        if occurs(entries, p) {
            let i = choose|i: int| 0 <= i < entries.len() && (#[trigger] entries[i]).0 == p;
            assert(i < rest.len());
            assert(rest[i].0 == p);
            let j = choose|j: int| 0 <= j < rest.len() && (#[trigger] rest[j]).0 == p;
            assert(entries[j] == rest[j]);
            lemma_one_place(entries, 1, len, i, j);
        } else if occurs(rest, p) {
            let j = choose|j: int| 0 <= j < rest.len() && (#[trigger] rest[j]).0 == p;
            assert(entries[j].0 == p);
        }
    }
}

/// No entry stands after the last.
proof fn lemma_arranged_top(entries: Seq<Placed>, len: int, k: int)
    requires
        placed_in(entries, 1, len),
        entries.len() > 0,
        entries.last().0 < k,
    ensures
        arranged(entries, k) == arranged(entries, entries.last().0 + 1),
    decreases k,
{
    if k > entries.last().0 + 1 {
        lemma_arranged_top(entries, len, k - 1);
        if occurs(entries, k - 1) {
            let i = choose|i: int| 0 <= i < entries.len() && (#[trigger] entries[i]).0 == k - 1;
            if i < entries.len() - 1 {
                assert(entries[i].0 < entries[entries.len() - 1].0);
            }
        }
    }
}

/// Entries that come in increasing order of their positions are arranged
/// as they come.
pub proof fn lemma_arranged(entries: Seq<Placed>, len: int)
    requires
        well_placed(entries, len),
    ensures
        arranged(entries, len) == entries,
    decreases entries.len(),
{
    if entries.len() == 0 {
        lemma_arranged_none(entries, len);
    } else {
        let rest = entries.drop_last();
        let last = entries.last();
        let top = last.0;
        lemma_placed_rest(entries, 1, len);
        assert(placed_in(rest, 1, top)) by {
            assert forall|i: int| 0 <= i < rest.len() implies 1 <= (#[trigger] rest[i]).0
                < top by {
                assert(rest[i] == entries[i]);
                assert(entries[i].0 < entries[entries.len() - 1].0);
            }
        }
        lemma_arranged(rest, top);
        lemma_arranged_rest(entries, len, top);
        assert(entries[entries.len() - 1].0 == top);
        assert(occurs(entries, top));
        let i = choose|i: int| 0 <= i < entries.len() && (#[trigger] entries[i]).0 == top;
        lemma_one_place(entries, 1, len, i, entries.len() - 1);
        assert(arranged(entries, top + 1) == arranged(entries, top).push((top, last.1)));
        assert(rest.push(last) =~= entries);
        if top + 1 < len {
            lemma_arranged_top(entries, len, len);
        }
    }
}

/// Where there are no entries, none are arranged.
proof fn lemma_arranged_none(entries: Seq<Placed>, k: int)
    requires
        entries.len() == 0,
    ensures
        arranged(entries, k) == entries,
    decreases k,
{
    if k > 1 {
        lemma_arranged_none(entries, k - 1);
    }
    assert(arranged(entries, k) =~= entries);
}

/// Where the message with the given index stands among the messages, if
/// there is one.
pub fn find_at(msgs: &[(usize, Scalar)], index: usize) -> (r: Option<usize>)
    ensures
        r.is_some() == occurs(placed(msgs@), index + 1),
        r matches Some(j) ==> j < msgs.len() && msgs[j as int].0 == index,
{
    let mut j: usize = 0;
    while j < msgs.len()
        invariant
            j <= msgs.len(),
            forall|i: int| 0 <= i < j ==> (#[trigger] placed(msgs@)[i]).0 != index + 1,
        decreases msgs.len() - j,
    {
        if msgs[j].0 == index {
            assert(placed(msgs@)[j as int].0 == index + 1);
            return Some(j);
        }
        j += 1;
    }
    None
}

/// Whether no index occurs twice among the messages.
pub fn check_distinct(msgs: &[(usize, Scalar)]) -> (r: bool)
    ensures
        r == distinct(placed(msgs@)),
{
    let mut j: usize = 0;
    while j < msgs.len()
        invariant
            j <= msgs.len(),
            forall|a: int, b: int|
                0 <= a < b < j ==> (#[trigger] placed(msgs@)[a]).0 != (#[trigger] placed(
                    msgs@,
                )[b]).0,
        decreases msgs.len() - j,
    {
        let mut i: usize = 0;
        while i < j
            invariant
                i <= j,
                j < msgs.len(),
                forall|a: int| 0 <= a < i ==> (#[trigger] placed(msgs@)[a]).0 != placed(
                    msgs@,
                )[j as int].0,
            decreases j - i,
        {
            if msgs[i].0 == msgs[j].0 {
                assert(placed(msgs@)[i as int].0 == placed(msgs@)[j as int].0);
                return false;
            }
            i += 1;
        }
        j += 1;
    }
    true
}

/// The messages in increasing order of their indices, where they are
/// messages of a key with `len` positions and no index occurs twice.
pub fn arrange(msgs: &[(usize, Scalar)], len: usize) -> (r: Option<Vec<(usize, Scalar)>>)
    ensures
        r.is_some() == (within(placed(msgs@), len as int) && distinct(placed(msgs@))),
        r matches Some(v) ==> placed(v@) == arranged(placed(msgs@), len as int) && well_placed(
            placed(v@),
            len as int,
        ),
{
    if !check_within(msgs, len) || !check_distinct(msgs) {
        return None;
    }
    let ghost entries = placed(msgs@);
    let mut out: Vec<(usize, Scalar)> = Vec::new();
    let mut p: usize = 1;
    assert(placed(out@) =~= arranged(entries, 1));
    if len == 0 {
        assert(placed(out@) =~= arranged(entries, 0));
        return Some(out);
    }
    while p < len
        invariant
            1 <= p <= len,
            entries == placed(msgs@),
            distinct(entries),
            placed(out@) == arranged(entries, p as int),
            placed_in(placed(out@), 1, p as int),
        decreases len - p,
    {
        let ghost before = placed(out@);
        match find_at(msgs, p - 1) {
            Some(j) => {
                proof {
                    let i = choose|i: int|
                        0 <= i < entries.len() && (#[trigger] entries[i]).0 == p as int;
                    assert(entries[j as int].0 == p);
                    assert(i == j);
                }
                out.push((p - 1, msgs[j].1));
                assert(placed(out@) =~= before.push((p as int, msgs[j as int].1@)));
            },
            None => {},
        }
        p += 1;
    }
    Some(out)
}

/// Whether the indexed messages are messages of a key with `len` positions,
/// in whatever order they come.
pub fn check_within(msgs: &[(usize, Scalar)], len: usize) -> (r: bool)
    ensures
        r == within(placed(msgs@), len as int),
{
    let mut i: usize = 0;
    while i < msgs.len()
        invariant
            i <= msgs.len(),
            forall|j: int| 0 <= j < i ==> 1 <= (#[trigger] placed(msgs@)[j]).0 < len,
        decreases msgs.len() - i,
    {
        if len == 0 || msgs[i].0 >= len - 1 {
            assert(!(1 <= placed(msgs@)[i as int].0 < len));
            return false;
        }
        i += 1;
    }
    true
}

/// Whether the indexed messages are messages of a key with `len` positions,
/// given in increasing order of their indices.
pub fn check_placed(msgs: &[(usize, Scalar)], len: usize) -> (r: bool)
    ensures
        r == well_placed(placed(msgs@), len as int),
{
    let ghost entries = placed(msgs@);
    let mut i: usize = 0;
    while i < msgs.len()
        invariant
            i <= msgs.len(),
            entries == placed(msgs@),
            forall|k: int| 0 <= k < i ==> 1 <= (#[trigger] entries[k]).0 < len,
            forall|k: int, j: int|
                0 <= k < j < i ==> (#[trigger] entries[k]).0 < (#[trigger] entries[j]).0,
        decreases msgs.len() - i,
    {
        if msgs[i].0 >= len || msgs[i].0 + 1 >= len {
            assert(!(entries[i as int].0 < len));
            return false;
        }
        if i > 0 && msgs[i - 1].0 >= msgs[i].0 {
            assert(!(entries[i - 1].0 < entries[i as int].0));
            return false;
        }
        proof {
            assert forall|k: int, j: int| 0 <= k < j < i + 1 implies (#[trigger] entries[k]).0 < (
            #[trigger] entries[j]).0 by {
                if j == i && k < i - 1 {
                    assert(entries[k].0 < entries[i - 1].0);
                }
            }
        }
        i += 1;
    }
    true
}

/// Whether a position is among those of the indexed messages.
pub fn is_placed(msgs: &[(usize, Scalar)], position: usize) -> (r: bool)
    ensures
        r == occurs(placed(msgs@), position as int),
{
    let ghost entries = placed(msgs@);
    let mut i: usize = 0;
    while i < msgs.len()
        invariant
            i <= msgs.len(),
            entries == placed(msgs@),
            forall|k: int| 0 <= k < i ==> (#[trigger] entries[k]).0 != position,
        decreases msgs.len() - i,
    {
        if msgs[i].0 < usize::MAX && msgs[i].0 + 1 == position {
            assert(entries[i as int].0 == position);
            return true;
        }
        i += 1;
    }
    false
}

/// The positions from `lo` up to `hi` that are not among those of the
/// indexed messages, in increasing order.
pub fn unplaced(msgs: &[(usize, Scalar)], lo: usize, hi: usize) -> (r: Vec<usize>)
    ensures
        r@.map_values(|p: usize| p as int) == complement(placed(msgs@), lo as int, hi as int),
{
    let mut out: Vec<usize> = Vec::new();
    let mut p: usize = lo;
    assert(out@.map_values(|p: usize| p as int) =~= complement(
        placed(msgs@),
        lo as int,
        lo as int,
    ));
    if hi <= lo {
        return out;
    }
    while p < hi
        invariant
            lo <= p <= hi,
            out@.map_values(|p: usize| p as int) == complement(placed(msgs@), lo as int, p as int),
        decreases hi - p,
    {
        if !is_placed(msgs, p) {
            out.push(p);
        }
        proof {
            assert(out@.map_values(|p: usize| p as int) =~= complement(
                placed(msgs@),
                lo as int,
                p + 1,
            ));
        }
        p += 1;
    }
    out
}

/// The points at the given positions, in order. Every position must be one
/// of the vector.
pub(crate) fn pick_points<P: Group>(points: &Vec<P>, at: &Vec<usize>) -> (r: Vec<P>)
    requires
        forall|i: int| 0 <= i < at.len() ==> at[i] < points.len(),
    ensures
        r.len() == at.len(),
        forall|i: int| 0 <= i < at.len() ==> r[i] == points[at[i] as int],
        logs(r@) == pick(logs(points@), at@.map_values(|p: usize| p as int)),
{
    let mut out: Vec<P> = Vec::new();
    let mut i: usize = 0;
    while i < at.len()
        invariant
            i <= at.len(),
            out.len() == i,
            forall|k: int| 0 <= k < at.len() ==> at[k] < points.len(),
            forall|k: int| 0 <= k < i ==> out[k] == points[at[k] as int],
        decreases at.len() - i,
    {
        out.push(points[at[i]]);
        i += 1;
    }
    assert(logs(out@) =~= pick(logs(points@), at@.map_values(|p: usize| p as int)));
    out
}

/// Every position of a complement lies between its bounds.
pub proof fn lemma_complement_bounds(entries: Seq<Placed>, lo: int, hi: int)
    ensures
        forall|i: int|
            #![trigger complement(entries, lo, hi)[i]]
            0 <= i < complement(entries, lo, hi).len() ==> lo <= complement(entries, lo, hi)[i]
                < hi,
    decreases hi - lo,
{
    if hi > lo {
        lemma_complement_bounds(entries, lo, hi - 1);
        let prev = complement(entries, lo, hi - 1);
        let all = complement(entries, lo, hi);
        assert forall|i: int| 0 <= i < all.len() implies lo <= #[trigger] all[i] < hi by {
            if i < prev.len() {
                assert(all[i] == prev[i]);
            }
        }
    }
}

/// Entries at increasing positions are determined by the positions that
/// are among them and by the values at those positions.
pub proof fn lemma_same_entries(a: Seq<Placed>, b: Seq<Placed>, lo: int, len: int)
    requires
        placed_in(a, lo, len),
        placed_in(b, lo, len),
        forall|p: int| occurs(a, p) == occurs(b, p),
        forall|i: int, j: int|
            0 <= i < a.len() && 0 <= j < b.len() && (#[trigger] a[i]).0 == (#[trigger] b[j]).0
                ==> a[i].1 == b[j].1,
    ensures
        a == b,
    decreases a.len() + b.len(),
{
    if a.len() == 0 {
        if b.len() > 0 {
            assert(occurs(b, b[0].0));
            let i = choose|i: int| 0 <= i < a.len() && (#[trigger] a[i]).0 == b[0].0;
        }
        assert(a =~= b);
    } else if b.len() == 0 {
        assert(occurs(a, a[0].0));
        let i = choose|i: int| 0 <= i < b.len() && (#[trigger] b[i]).0 == a[0].0;
    } else {
        let x = a.last();
        let y = b.last();
        // The greatest position is the last of both.
        assert(occurs(a, x.0)) by {
            assert(a[a.len() - 1].0 == x.0);
        }
        assert(occurs(b, y.0)) by {
            assert(b[b.len() - 1].0 == y.0);
        }
        let j = choose|j: int| 0 <= j < b.len() && (#[trigger] b[j]).0 == x.0;
        let i = choose|i: int| 0 <= i < a.len() && (#[trigger] a[i]).0 == y.0;
        if j < b.len() - 1 {
            assert(b[j].0 < b[b.len() - 1].0);
        }
        if i < a.len() - 1 {
            assert(a[i].0 < a[a.len() - 1].0);
        }
        assert(x.0 == y.0);
        assert(a[a.len() - 1].0 == b[b.len() - 1].0);
        assert(x == y);
        lemma_placed_rest(a, lo, len);
        lemma_placed_rest(b, lo, len);
        let ra = a.drop_last();
        let rb = b.drop_last();
        assert forall|p: int| occurs(ra, p) == occurs(rb, p) by {
            if occurs(ra, p) {
                let k = choose|k: int| 0 <= k < ra.len() && (#[trigger] ra[k]).0 == p;
                assert(a[k].0 == p);
                assert(occurs(a, p));
                let m = choose|m: int| 0 <= m < b.len() && (#[trigger] b[m]).0 == p;
                assert(a[k].0 < a[a.len() - 1].0);
                assert(m < b.len() - 1);
                assert(rb[m].0 == p);
            }
            if occurs(rb, p) {
                let k = choose|k: int| 0 <= k < rb.len() && (#[trigger] rb[k]).0 == p;
                assert(b[k].0 == p);
                assert(occurs(b, p));
                let m = choose|m: int| 0 <= m < a.len() && (#[trigger] a[m]).0 == p;
                assert(b[k].0 < b[b.len() - 1].0);
                assert(m < a.len() - 1);
                assert(ra[m].0 == p);
            }
        }
        assert forall|i: int, j: int|
            0 <= i < ra.len() && 0 <= j < rb.len() && (#[trigger] ra[i]).0 == (#[trigger] rb[j]).0
            implies ra[i].1 == rb[j].1 by {
            assert(ra[i] == a[i]);
            assert(rb[j] == b[j]);
        }
        lemma_same_entries(ra, rb, lo, len);
        assert(a =~= ra.push(x));
        assert(b =~= rb.push(y));
    }
}

} // verus!
