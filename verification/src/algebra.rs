//! Congruence modulo the group order, and sums of products.

use vstd::prelude::*;
use vstd::arithmetic::div_mod::*;
use crate::field::{fadd, fmul, fsub, modulus};

verus! {

/// Two integers that leave the same remainder modulo the group order.
pub open spec fn cong(a: int, b: int) -> bool {
    a % (modulus() as int) == b % (modulus() as int)
}

/// A remainder is congruent to the number it was taken of.
pub proof fn lemma_cong_mod(a: int)
    ensures
        cong(a % (modulus() as int), a),
        0 <= a % (modulus() as int) < modulus(),
{
    lemma_mod_twice(a, modulus() as int);
    lemma_mod_bound(a, modulus() as int);
}

/// Congruent field elements are equal.
pub proof fn lemma_cong_small(a: nat, b: nat)
    requires
        a < modulus(),
        b < modulus(),
        cong(a as int, b as int),
    ensures
        a == b,
{
    lemma_small_mod(a, modulus());
    lemma_small_mod(b, modulus());
}

/// Sums of congruent numbers are congruent.
pub proof fn lemma_cong_add(a: int, a2: int, b: int, b2: int)
    requires
        cong(a, a2),
        cong(b, b2),
    ensures
        cong(a + b, a2 + b2),
{
    lemma_add_mod_noop(a, b, modulus() as int);
    lemma_add_mod_noop(a2, b2, modulus() as int);
}

/// Differences of congruent numbers are congruent.
pub proof fn lemma_cong_sub(a: int, a2: int, b: int, b2: int)
    requires
        cong(a, a2),
        cong(b, b2),
    ensures
        cong(a - b, a2 - b2),
{
    lemma_sub_mod_noop(a, b, modulus() as int);
    lemma_sub_mod_noop(a2, b2, modulus() as int);
}

/// Products of congruent numbers are congruent.
pub proof fn lemma_cong_mul(a: int, a2: int, b: int, b2: int)
    requires
        cong(a, a2),
        cong(b, b2),
    ensures
        cong(a * b, a2 * b2),
{
    lemma_mul_mod_noop_general(a, b, modulus() as int);
    lemma_mul_mod_noop_general(a2, b2, modulus() as int);
}

/// A factor that has an inverse can be taken off both sides of a
/// congruence of field elements.
pub proof fn lemma_cancel(k: nat, inverse: nat, a: nat, b: nat)
    requires
        cong((inverse * k) as int, 1),
        cong((k * a) as int, (k * b) as int),
        a < modulus(),
        b < modulus(),
    ensures
        a == b,
{
    let i = inverse as int;
    lemma_cong_mul(i, i, (k * a) as int, (k * b) as int);
    lemma_cong_mul((inverse * k) as int, 1, a as int, a as int);
    lemma_cong_mul((inverse * k) as int, 1, b as int, b as int);
    assert(i * ((k * a) as int) == ((inverse * k) as int) * (a as int)) by (nonlinear_arith)
        requires
            i == inverse as int,
    ;
    assert(i * ((k * b) as int) == ((inverse * k) as int) * (b as int)) by (nonlinear_arith)
        requires
            i == inverse as int,
    ;
    lemma_cong_small(a, b);
}

/// The field's sum is congruent to the sum, and is a field element.
pub proof fn lemma_fadd(a: nat, b: nat)
    ensures
        cong(fadd(a, b) as int, (a + b) as int),
        fadd(a, b) < modulus(),
{
    lemma_cong_mod((a + b) as int);
}

/// The field's product is congruent to the product, and is a field element.
pub proof fn lemma_fmul(a: nat, b: nat)
    ensures
        cong(fmul(a, b) as int, (a * b) as int),
        fmul(a, b) < modulus(),
{
    lemma_cong_mod((a * b) as int);
}

/// The field's difference is congruent to the difference, and is a field element.
pub proof fn lemma_fsub(a: nat, b: nat)
    ensures
        cong(fsub(a, b) as int, a as int - b as int),
        fsub(a, b) < modulus(),
{
    lemma_cong_mod(a as int - b as int);
}

/// The sum of the products of two sequences, term by term.
pub open spec fn dot(a: Seq<nat>, b: Seq<nat>) -> nat
    decreases a.len(),
{
    if a.len() == 0 || b.len() == 0 {
        0
    } else {
        dot(a.drop_last(), b.drop_last()) + a.last() * b.last()
    }
}

/// A sum of products grows by the product of the terms that are appended.
pub proof fn lemma_dot_push(a: Seq<nat>, b: Seq<nat>, x: nat, y: nat)
    ensures
        dot(a.push(x), b.push(y)) == dot(a, b) + x * y,
{
    assert(a.push(x).drop_last() =~= a);
    assert(b.push(y).drop_last() =~= b);
}

/// A sum of one product.
pub proof fn lemma_dot_one(a: nat, c: nat)
    ensures
        dot(seq![a], seq![c]) == a * c,
{
    assert(seq![a].drop_last() =~= Seq::<nat>::empty());
    assert(seq![c].drop_last() =~= Seq::<nat>::empty());
    assert(dot(Seq::<nat>::empty(), Seq::<nat>::empty()) == 0);
    assert(seq![a].last() == a);
    assert(seq![c].last() == c);
}

/// A sum of two products.
pub proof fn lemma_dot_two(a: nat, b: nat, c: nat, d: nat)
    ensures
        dot(seq![a, b], seq![c, d]) == a * c + b * d,
{
    lemma_dot_one(a, c);
    assert(seq![a, b].drop_last() =~= seq![a]);
    assert(seq![c, d].drop_last() =~= seq![c]);
    assert(seq![a, b].last() == b);
    assert(seq![c, d].last() == d);
}

/// A sum of three products.
pub proof fn lemma_dot_three(a: nat, b: nat, c: nat, x: nat, y: nat, z: nat)
    ensures
        dot(seq![a, b, c], seq![x, y, z]) == a * x + b * y + c * z,
{
    lemma_dot_two(a, b, x, y);
    assert(seq![a, b, c].drop_last() =~= seq![a, b]);
    assert(seq![x, y, z].drop_last() =~= seq![x, y]);
    assert(seq![a, b, c].last() == c);
    assert(seq![x, y, z].last() == z);
}

/// A sum of products over prefixes grows by the next product.
pub proof fn lemma_dot_take(a: Seq<nat>, b: Seq<nat>, i: int)
    requires
        0 <= i < a.len(),
        i < b.len(),
    ensures
        dot(a.take(i + 1), b.take(i + 1)) == dot(a.take(i), b.take(i)) + a[i] * b[i],
{
    assert(a.take(i + 1).drop_last() =~= a.take(i));
    assert(b.take(i + 1).drop_last() =~= b.take(i));
}

/// Sums of products of sequences that are congruent term by term are congruent.
pub proof fn lemma_dot_cong(a: Seq<nat>, a2: Seq<nat>, b: Seq<nat>, b2: Seq<nat>)
    requires
        a.len() == a2.len(),
        b.len() == b2.len(),
        forall|i: int| 0 <= i < a.len() ==> cong(a[i] as int, a2[i] as int),
        forall|i: int| 0 <= i < b.len() ==> cong(b[i] as int, b2[i] as int),
    ensures
        cong(dot(a, b) as int, dot(a2, b2) as int),
    decreases a.len(),
{
    if a.len() == 0 || b.len() == 0 {
    } else {
        lemma_dot_cong(a.drop_last(), a2.drop_last(), b.drop_last(), b2.drop_last());
        lemma_cong_mul(a.last() as int, a2.last() as int, b.last() as int, b2.last() as int);
        lemma_cong_add(
            dot(a.drop_last(), b.drop_last()) as int,
            dot(a2.drop_last(), b2.drop_last()) as int,
            (a.last() * b.last()) as int,
            (a2.last() * b2.last()) as int,
        );
    }
}

/// A common factor of the terms of one sequence can be taken out of a sum of products.
pub proof fn lemma_dot_scale(a: Seq<nat>, b: Seq<nat>, k: nat, ka: Seq<nat>)
    requires
        ka.len() == a.len(),
        forall|i: int| 0 <= i < a.len() ==> cong(ka[i] as int, (k * a[i]) as int),
    ensures
        cong(dot(ka, b) as int, (k * dot(a, b)) as int),
    decreases a.len(),
{
    if a.len() == 0 || b.len() == 0 {
        assert(k * 0 == 0);
    } else {
        lemma_dot_scale(a.drop_last(), b.drop_last(), k, ka.drop_last());
        let d = dot(a.drop_last(), b.drop_last()) as int;
        let x = a.last() as int;
        let y = b.last() as int;
        lemma_cong_mul(ka.last() as int, k * x, y, y);
        lemma_cong_add(
            dot(ka.drop_last(), b.drop_last()) as int,
            k * d,
            ka.last() * y,
            (k * x) * y,
        );
        assert(k * d + (k * x) * y == k * (d + x * y)) by (nonlinear_arith);
    }
}

} // verus!
