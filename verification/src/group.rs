//! What the two source groups of the pairing have in common.

use vstd::prelude::*;
use crate::algebra::{dot, lemma_dot_take};
use crate::field::{fadd, fmul, modulus, Scalar};
use crate::g1::{g1_encoding, G1Point};
use crate::g2::{g2_encoding, G2Point};

verus! {

/// A point of a group of prime order, known by its discrete logarithm with
/// respect to the group's generator and by its canonical encoding.
pub trait Group: Sized + Copy {
    /// The point's discrete logarithm.
    spec fn log(&self) -> nat;

    /// The point's canonical encoding.
    spec fn enc(&self) -> Seq<u8>;

    /// The value is a point of the group.
    spec fn valid(&self) -> bool;

    /// The encoding of the point whose logarithm is `k`.
    spec fn enc_of(k: nat) -> Seq<u8>;

    /// The number of bytes of an encoding.
    spec fn size() -> nat;

    /// A point of the group has the encoding of its logarithm, which is a
    /// field element.
    proof fn lemma_enc(a: Self)
        requires
            a.valid(),
        ensures
            a.enc() == Self::enc_of(a.log()),
            a.log() < modulus(),
            a.enc().len() == Self::size(),
            Self::size() <= 96,
    ;

    /// The neutral element.
    fn zero() -> (r: Self)
        ensures
            r.log() == 0,
            r.valid(),
    ;

    /// The sum of two points.
    fn plus(&self, other: &Self) -> (r: Self)
        ensures
            r.log() == fadd(self.log(), other.log()),
            r.valid(),
    ;

    /// The point taken `s` times.
    fn times(&self, s: &Scalar) -> (r: Self)
        ensures
            r.log() == fmul(self.log(), s@),
            r.valid(),
    ;

    /// Whether two points are the same.
    fn same(&self, other: &Self) -> (r: bool)
        ensures
            r == (self.log() == other.log()),
    ;

    /// The point's encoding.
    fn encode(&self) -> (r: Vec<u8>)
        ensures
            r@ == self.enc(),
            self.valid(),
    ;
}

impl Group for G1Point {
    open spec fn log(&self) -> nat {
        self@
    }

    open spec fn enc(&self) -> Seq<u8> {
        self.encoding()
    }

    open spec fn valid(&self) -> bool {
        self.wf()
    }

    open spec fn enc_of(k: nat) -> Seq<u8> {
        g1_encoding(k)
    }

    open spec fn size() -> nat {
        48
    }

    proof fn lemma_enc(a: Self) {
        a.lemma_log();
    }

    fn zero() -> (r: Self) {
        G1Point::identity()
    }

    fn plus(&self, other: &Self) -> (r: Self) {
        self.add(other)
    }

    fn times(&self, s: &Scalar) -> (r: Self) {
        self.mul(s)
    }

    fn same(&self, other: &Self) -> (r: bool) {
        self.eq(other)
    }

    fn encode(&self) -> (r: Vec<u8>) {
        proof {
            use_type_invariant(self);
        }
        let bytes = self.to_bytes();
        let mut out: Vec<u8> = Vec::new();
        let mut i: usize = 0;
        while i < 48
            invariant
                i <= 48,
                out@ == bytes@.subrange(0, i as int),
            decreases 48 - i,
        {
            out.push(bytes[i]);
            i += 1;
        }
        assert(out@ =~= bytes@);
        out
    }
}

impl Group for G2Point {
    open spec fn log(&self) -> nat {
        self@
    }

    open spec fn enc(&self) -> Seq<u8> {
        self.encoding()
    }

    open spec fn valid(&self) -> bool {
        self.wf()
    }

    open spec fn enc_of(k: nat) -> Seq<u8> {
        g2_encoding(k)
    }

    open spec fn size() -> nat {
        96
    }

    proof fn lemma_enc(a: Self) {
        a.lemma_log();
    }

    fn zero() -> (r: Self) {
        G2Point::identity()
    }

    fn plus(&self, other: &Self) -> (r: Self) {
        self.add(other)
    }

    fn times(&self, s: &Scalar) -> (r: Self) {
        self.mul(s)
    }

    fn same(&self, other: &Self) -> (r: bool) {
        self.eq(other)
    }

    fn encode(&self) -> (r: Vec<u8>) {
        proof {
            use_type_invariant(self);
        }
        let bytes = self.to_bytes();
        let mut out: Vec<u8> = Vec::new();
        let mut i: usize = 0;
        while i < 96
            invariant
                i <= 96,
                out@ == bytes@.subrange(0, i as int),
            decreases 96 - i,
        {
            out.push(bytes[i]);
            i += 1;
        }
        assert(out@ =~= bytes@);
        out
    }
}

/// The logarithms of a sequence of points.
pub open spec fn logs<P: Group>(points: Seq<P>) -> Seq<nat> {
    points.map_values(|p: P| p.log())
}

/// The values of a sequence of scalars.
pub open spec fn values(scalars: Seq<Scalar>) -> Seq<nat> {
    scalars.map_values(|s: Scalar| s@)
}

/// The sum of the points, each taken as many times as its scalar says. Where
/// one sequence is longer than the other, what it has more is left out.
pub fn sum_of_products<P: Group>(points: &Vec<P>, scalars: &Vec<Scalar>) -> (r: P)
    ensures
        r.log() == dot(
            logs(points@.take(common_len(points@.len(), scalars@.len()))),
            values(scalars@.take(common_len(points@.len(), scalars@.len()))),
        ) % modulus(),
        r.valid(),
{
    let n = if points.len() <= scalars.len() {
        points.len()
    } else {
        scalars.len()
    };
    let mut acc = P::zero();
    let mut i: usize = 0;
    proof {
        vstd::arithmetic::div_mod::lemma_small_mod(0, modulus());
    }
    let ghost ps = logs(points@.take(n as int));
    let ghost ss = values(scalars@.take(n as int));
    while i < n
        invariant
            i <= n,
            n <= points.len(),
            n <= scalars.len(),
            ps == logs(points@.take(n as int)),
            ss == values(scalars@.take(n as int)),
            acc.valid(),
            acc.log() == dot(ps.take(i as int), ss.take(i as int)) % modulus(),
        decreases n - i,
    {
        let term = points[i].times(&scalars[i]);
        let next = acc.plus(&term);
        proof {
            lemma_dot_take(ps, ss, i as int);
            let d = dot(ps.take(i as int), ss.take(i as int));
            let t = ps[i as int] * ss[i as int];
            vstd::arithmetic::div_mod::lemma_add_mod_noop(d as int, t as int, modulus() as int);
        }
        acc = next;
        i += 1;
    }
    assert(ps.take(n as int) =~= ps);
    assert(ss.take(n as int) =~= ss);
    acc
}

/// The sum of the products of two vectors of scalars, term by term. Where
/// one is longer than the other, what it has more is left out.
pub fn inner_product(a: &Vec<Scalar>, b: &Vec<Scalar>) -> (r: Scalar)
    ensures
        r@ == dot(
            values(a@.take(common_len(a@.len(), b@.len()))),
            values(b@.take(common_len(a@.len(), b@.len()))),
        ) % modulus(),
{
    let n = if a.len() <= b.len() {
        a.len()
    } else {
        b.len()
    };
    let mut acc = Scalar::from_u64(0);
    let mut i: usize = 0;
    proof {
        vstd::arithmetic::div_mod::lemma_small_mod(0, modulus());
    }
    let ghost xs = values(a@.take(n as int));
    let ghost ys = values(b@.take(n as int));
    while i < n
        invariant
            i <= n,
            n <= a.len(),
            n <= b.len(),
            xs == values(a@.take(n as int)),
            ys == values(b@.take(n as int)),
            acc@ == dot(xs.take(i as int), ys.take(i as int)) % modulus(),
        decreases n - i,
    {
        let term = a[i].mul(&b[i]);
        let next = acc.add(&term);
        proof {
            lemma_dot_take(xs, ys, i as int);
            let d = dot(xs.take(i as int), ys.take(i as int));
            let t = xs[i as int] * ys[i as int];
            vstd::arithmetic::div_mod::lemma_add_mod_noop(d as int, t as int, modulus() as int);
        }
        acc = next;
        i += 1;
    }
    assert(xs.take(n as int) =~= xs);
    assert(ys.take(n as int) =~= ys);
    acc
}

/// The length that two sequences have in common.
pub open spec fn common_len(a: nat, b: nat) -> int {
    if a <= b {
        a as int
    } else {
        b as int
    }
}

} // verus!
