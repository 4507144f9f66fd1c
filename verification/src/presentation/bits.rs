//! Numbers as sums of powers of two.

use vstd::prelude::*;
use crate::algebra::{cong, dot, lemma_cong_mod, lemma_dot_cong};
use crate::field::{modulus, Scalar};
use crate::group::values;

verus! {

/// Two to the power `n`.
pub open spec fn two_to(n: nat) -> nat
    decreases n,
{
    if n == 0 {
        1
    } else {
        2 * two_to((n - 1) as nat)
    }
}

/// The `k` low bits of `v`, the most significant first.
pub open spec fn bits(v: nat, k: nat) -> Seq<nat> {
    Seq::new(k, |i: int| (v / two_to((k - 1 - i) as nat)) % 2)
}

/// The powers of two below the `k`-th, the greatest first.
pub open spec fn powers(k: nat) -> Seq<nat> {
    Seq::new(k, |i: int| two_to((k - 1 - i) as nat))
}

/// The powers of two below the `k`-th as field elements, the greatest first.
pub open spec fn weights(k: nat) -> Seq<nat> {
    Seq::new(k, |i: int| two_to((k - 1 - i) as nat) % modulus())
}

/// The number of bits of a number: none for zero.
pub open spec fn span_bits(span: nat) -> nat
    decreases span,
{
    if span == 0 {
        0
    } else {
        1 + span_bits(span / 2)
    }
}

/// The number of bits in which a range of the given span is proved: those
/// of the span, and one at least.
pub open spec fn bits_needed(span: nat) -> nat {
    if span == 0 {
        1
    } else {
        span_bits(span)
    }
}

/// Powers of two are positive.
pub proof fn lemma_two_to_positive(n: nat)
    ensures
        two_to(n) > 0,
    decreases n,
{
    if n > 0 {
        lemma_two_to_positive((n - 1) as nat);
    }
}

/// A number is below the power of two of its number of bits.
pub proof fn lemma_span(span: nat)
    ensures
        span < two_to(span_bits(span)),
        span < two_to(bits_needed(span)),
    decreases span,
{
    if span > 0 {
        lemma_span(span / 2);
    }
}

/// A 64-bit number has 64 bits at most.
pub proof fn lemma_span_bound(span: nat, k: nat)
    requires
        span < two_to(k),
    ensures
        span_bits(span) <= k,
    decreases span,
{
    if span > 0 {
        if k == 0 {
        } else {
            lemma_span_bound(span / 2, (k - 1) as nat);
        }
    }
}

/// A factor of every term of the second sequence can be taken out of a sum
/// of products.
pub proof fn lemma_dot_factor(a: Seq<nat>, b: Seq<nat>, k: nat, kb: Seq<nat>)
    requires
        kb.len() == b.len(),
        forall|i: int| 0 <= i < b.len() ==> kb[i] == k * b[i],
    ensures
        dot(a, kb) == k * dot(a, b),
    decreases a.len(),
{
    if a.len() == 0 || b.len() == 0 {
        assert(k * 0 == 0);
    } else {
        lemma_dot_factor(a.drop_last(), b.drop_last(), k, kb.drop_last());
        let d = dot(a.drop_last(), b.drop_last());
        let x = a.last();
        let y = b.last();
        assert(k * d + x * (k * y) == k * (d + x * y)) by (nonlinear_arith);
    }
}

/// The bits of a number taken with the powers of two give the number.
pub proof fn lemma_bits(v: nat, k: nat)
    requires
        v < two_to(k),
    ensures
        dot(bits(v, k), powers(k)) == v,
        forall|i: int| 0 <= i < k ==> bits(v, k)[i] == 0 || bits(v, k)[i] == 1,
    decreases k,
{
    if k > 0 {
        let half = v / 2;
        let j = (k - 1) as nat;
        lemma_bits(half, j);
        assert(bits(v, k).drop_last() =~= bits(half, j)) by {
            assert forall|i: int| 0 <= i < j implies bits(v, k)[i] == bits(half, j)[i] by {
                let p = two_to((j - 1 - i) as nat);
                lemma_two_to_positive((j - 1 - i) as nat);
                assert(two_to((k - 1 - i) as nat) == 2 * p);
                vstd::arithmetic::div_mod::lemma_div_denominator(v as int, 2, p as int);
            }
        }
        assert forall|i: int| 0 <= i < j implies powers(k).drop_last()[i] == 2 * powers(j)[i] by {
            assert(two_to((k - 1 - i) as nat) == 2 * two_to((j - 1 - i) as nat));
        }
        lemma_dot_factor(bits(half, j), powers(j), 2, powers(k).drop_last());
        assert(two_to(0) == 1);
        assert((k - 1 - (k - 1)) as nat == 0);
        assert(bits(v, k)[k - 1] == (v / two_to(0)) % 2);
        assert(v / 1 == v);
        assert(bits(v, k).last() == v % 2);
        assert(powers(k)[k - 1] == two_to(0));
        assert(powers(k).last() == 1);
        assert((v % 2) * 1 == v % 2);
    }
}

/// The weights are congruent to the powers of two.
pub proof fn lemma_weights(a: Seq<nat>, k: nat)
    requires
        a.len() == k,
    ensures
        cong(dot(a, weights(k)) as int, dot(a, powers(k)) as int),
{
    assert forall|i: int| 0 <= i < k implies cong(weights(k)[i] as int, powers(k)[i] as int) by {
        lemma_cong_mod(powers(k)[i] as int);
    }
    lemma_dot_cong(a, a, weights(k), powers(k));
}

/// The number of bits in which a range of the given span is proved.
pub fn count_bits(span: u64) -> (k: usize)
    ensures
        k == bits_needed(span as nat),
        1 <= k <= 64,
{
    let mut rest: u64 = span;
    let mut k: usize = 0;
    proof {
        lemma_two_to_64();
        lemma_span_bound(span as nat, 64);
    }
    while rest > 0
        invariant
            span_bits(span as nat) == k + span_bits(rest as nat),
            span_bits(span as nat) <= 64,
        decreases rest,
    {
        rest = rest / 2;
        k += 1;
    }
    if k == 0 {
        1
    } else {
        k
    }
}

/// Two to the power 64, which no 64-bit number reaches.
pub proof fn lemma_two_to_64()
    ensures
        two_to(64) == 0x1_0000_0000_0000_0000,
{
    assert(two_to(0) == 1);
    assert(two_to(1) == 2 * two_to(0));
    lemma_two_to_adds(1, 1);
    assert(two_to(2) == 4);
    lemma_two_to_adds(2, 2);
    assert(two_to(4) == 16);
    lemma_two_to_adds(4, 4);
    assert(two_to(8) == 256);
    lemma_two_to_adds(8, 8);
    assert(two_to(16) == 65536);
    lemma_two_to_adds(16, 16);
    assert(two_to(32) == 0x1_0000_0000);
    lemma_two_to_adds(32, 32);
}

/// Powers of two multiply as their exponents add.
pub proof fn lemma_two_to_adds(a: nat, b: nat)
    ensures
        two_to(a + b) == two_to(a) * two_to(b),
    decreases b,
{
    if b == 0 {
        assert(two_to(a) * 1 == two_to(a));
    } else {
        lemma_two_to_adds(a, (b - 1) as nat);
        assert(two_to(a + b) == 2 * two_to((a + b - 1) as nat));
        assert(2 * (two_to(a) * two_to((b - 1) as nat)) == two_to(a) * (2 * two_to(
            (b - 1) as nat,
        ))) by (nonlinear_arith);
    }
}

/// The `k` low bits of `v` as scalars, the most significant first.
pub(crate) fn bits_of(v: u64, k: usize) -> (r: Vec<Scalar>)
    requires
        k <= 64,
    ensures
        values(r@) == bits(v as nat, k as nat),
{
    let mut low: Vec<u64> = Vec::new();
    let mut rest: u64 = v;
    let mut j: usize = 0;
    assert(two_to(0) == 1);
    while j < k
        invariant
            j <= k,
            low.len() == j,
            rest as nat == v as nat / two_to(j as nat),
            forall|i: int| 0 <= i < j ==> low[i] as nat == (v as nat / two_to(i as nat)) % 2,
        decreases k - j,
    {
        low.push(rest % 2);
        proof {
            lemma_two_to_positive(j as nat);
            vstd::arithmetic::div_mod::lemma_div_denominator(v as int, two_to(j as nat) as int, 2);
            assert(two_to(j as nat) * 2 == two_to((j + 1) as nat));
        }
        rest = rest / 2;
        j += 1;
    }
    let mut out: Vec<Scalar> = Vec::new();
    let mut i: usize = 0;
    while i < k
        invariant
            i <= k,
            low.len() == k,
            out.len() == i,
            forall|a: int| 0 <= a < k ==> low[a] as nat == (v as nat / two_to(a as nat)) % 2,
            forall|a: int|
                0 <= a < i ==> (#[trigger] out[a])@ == (v as nat / two_to((k - 1 - a) as nat)) % 2,
        decreases k - i,
    {
        out.push(Scalar::from_u64(low[k - 1 - i]));
        i += 1;
    }
    assert(values(out@) =~= bits(v as nat, k as nat));
    out
}

/// The powers of two below the `k`-th as scalars, the greatest first.
pub fn weights_of(k: usize) -> (r: Vec<Scalar>)
    ensures
        values(r@) == weights(k as nat),
{
    let mut low: Vec<Scalar> = Vec::new();
    let mut w = Scalar::from_u64(1);
    let mut j: usize = 0;
    proof {
        vstd::arithmetic::div_mod::lemma_small_mod(1, modulus());
        assert(two_to(0) == 1);
    }
    while j < k
        invariant
            j <= k,
            low.len() == j,
            w@ == two_to(j as nat) % modulus(),
            forall|i: int| 0 <= i < j ==> (#[trigger] low[i])@ == two_to(i as nat) % modulus(),
        decreases k - j,
    {
        low.push(w);
        proof {
            let t = two_to(j as nat) as int;
            vstd::arithmetic::div_mod::lemma_add_mod_noop(t, t, modulus() as int);
            assert(t + t == two_to((j + 1) as nat));
        }
        w = w.add(&w);
        j += 1;
    }
    let mut out: Vec<Scalar> = Vec::new();
    let mut i: usize = 0;
    while i < k
        invariant
            i <= k,
            low.len() == k,
            out.len() == i,
            forall|a: int| 0 <= a < k ==> (#[trigger] low[a])@ == two_to(a as nat) % modulus(),
            forall|a: int|
                0 <= a < i ==> (#[trigger] out[a])@ == two_to((k - 1 - a) as nat) % modulus(),
        decreases k - i,
    {
        out.push(low[k - 1 - i]);
        i += 1;
    }
    assert(values(out@) =~= weights(k as nat));
    out
}

} // verus!
