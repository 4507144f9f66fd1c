//! Ranges of committed numbers.
//!
//! A number `m` committed in `C = g * m + h * r` lies from `lower` to
//! `upper` if `m - lower` and `upper - m` both have the bits of
//! `upper - lower` at most. The prover commits to each bit of both numbers
//! with blinders chosen such that the bit commitments, taken with the
//! powers of two, add up to `C - g * lower` and to `g * upper - C`. For each
//! bit commitment `B = g * b + h * s` the prover shows that `b` is a bit by
//! proving knowledge of `b`, `s` and `s'` with `B = b * B + s' * h` as well.

use vstd::prelude::*;
use merlin::Transcript;
use rand_core::OsRng;
use crate::algebra::{
    cong, dot, lemma_cong_add, lemma_cong_mod, lemma_cong_mul, lemma_cong_small, lemma_cong_sub,
    lemma_dot_three, lemma_dot_two, lemma_fadd, lemma_fmul, lemma_fsub,
};
use crate::error::Error;
use crate::field::{fadd, fmul, fsub, modulus, Scalar};
use crate::g1::G1Point;
use crate::group::{inner_product, logs, sum_of_products, values};
use crate::presentation::bits::{
    bits, bits_needed, bits_of, count_bits, lemma_bits, lemma_span, lemma_weights, powers, two_to,
    weights, weights_of,
};
use crate::presentation::linear::{
    equations, linear_entries, linear_fits, linear_room, LinearBuilder, slice, system_holds,
    system_shaped, views,
};
use crate::presentation::statement::RangeStatement;
use crate::relation::{Relation, RelationLogs};
use crate::schnorr::combination;
use crate::transcript::transcript_log;

verus! {

/// The relation that a commitment `p` to a bit satisfies for the secrets
/// `(b, s, s')`, over the generators with logarithms `g` and `h`.
pub open spec fn bit_relation(g: nat, h: nat, p: nat) -> RelationLogs {
    RelationLogs { images: seq![p, p], rows: seq![seq![g, h, 0nat], seq![p, 0nat, h]] }
}

/// The relations of the points of a range proof, one for each.
pub open spec fn bit_system(g: nat, h: nat, points: Seq<nat>) -> Seq<RelationLogs> {
    Seq::new(points.len(), |j: int| bit_relation(g, h, points[j]))
}

/// The relations of the points of a range proof have two equations for
/// each point.
pub proof fn lemma_bit_equations(g: nat, h: nat, points: Seq<nat>, k: int)
    requires
        0 <= k <= points.len(),
    ensures
        equations(bit_system(g, h, points), k) == 2 * k,
    decreases k,
{
    if k > 0 {
        lemma_bit_equations(g, h, points, k - 1);
        assert(bit_system(g, h, points)[k - 1] == bit_relation(g, h, points[k - 1]));
    }
}

/// There are as many points as the two numbers of a range have bits.
pub open spec fn range_shaped(lower: u64, upper: u64, count: nat) -> bool {
    lower <= upper && count == 2 * bits_needed((upper - lower) as nat)
}

/// The points add up as the range asks: the first half, taken with the
/// powers of two, and `g` taken `lower` times give the commitment `c`; the
/// second half, taken with the powers of two, and `c` give `g` taken
/// `upper` times.
pub open spec fn range_holds(g: nat, c: nat, lower: nat, upper: nat, points: Seq<nat>) -> bool {
    let k = points.len() / 2;
    &&& fadd(combination(points.take(k as int), weights(k)), fmul(g, lower)) == c
    &&& fadd(combination(points.skip(k as int), weights(k)), c) == fmul(g, upper)
}

/// The relations of the points of a range proof.
pub fn bit_relations(g: &G1Point, h: &G1Point, points: &Vec<G1Point>) -> (r: Vec<Relation>)
    ensures
        views(r@) == bit_system(g@, h@, logs(points@)),
        system_shaped(views(r@), 3),
        r.len() == points.len(),
{
    let zero = G1Point::identity();
    let mut out: Vec<Relation> = Vec::new();
    let mut j: usize = 0;
    while j < points.len()
        invariant
            j <= points.len(),
            zero@ == 0,
            out.len() == j,
            forall|i: int| 0 <= i < j ==> (#[trigger] out[i])@ == bit_relation(g@, h@, points[i]@),
        decreases points.len() - j,
    {
        let p = points[j];
        let rel = Relation {
            images: vec![p, p],
            rows: vec![vec![*g, *h, zero], vec![p, zero, *h]],
        };
        proof {
            assert(rel@.images =~= seq![p@, p@]);
            assert(rel@.rows[0] =~= seq![g@, h@, 0nat]);
            assert(rel@.rows[1] =~= seq![p@, 0nat, h@]);
            assert(rel@.rows =~= seq![seq![g@, h@, 0nat], seq![p@, 0nat, h@]]);
        }
        out.push(rel);
        j += 1;
    }
    assert(views(out@) =~= bit_system(g@, h@, logs(points@)));
    out
}

/// The points from `start` on, `len` of them. There must be so many.
fn points_part(v: &Vec<G1Point>, start: usize, len: usize) -> (r: Vec<G1Point>)
    requires
        start + len <= v.len(),
    ensures
        r@ == v@.subrange(start as int, start + len),
{
    let mut out: Vec<G1Point> = Vec::new();
    let mut i: usize = 0;
    while i < len
        invariant
            i <= len,
            start + len <= v.len(),
            out@ == v@.subrange(start as int, start + i),
        decreases len - i,
    {
        out.push(v[start + i]);
        assert(out@ =~= v@.subrange(start as int, start + i + 1));
        i += 1;
    }
    out
}

/// The points taken with the powers of two below the `k`-th. There must be
/// `k` points.
fn weighted(points: &Vec<G1Point>, k: usize) -> (r: G1Point)
    requires
        points.len() == k,
    ensures
        r@ == combination(logs(points@), weights(k as nat)),
{
    let ws = weights_of(k);
    proof {
        assert(values(ws@).len() == k);
        assert(points@.take(points@.len() as int) =~= points@);
        assert(ws@.take(ws@.len() as int) =~= ws@);
    }
    sum_of_products(points, &ws)
}

/// Whether the points are as many as the range asks and add up as it asks,
/// for the commitment `c` over the generator `g`.
pub fn check_range(g: &G1Point, c: &G1Point, lower: u64, upper: u64, points: &Vec<G1Point>) -> (r:
    bool)
    ensures
        r == (range_shaped(lower, upper, points.len() as nat) && range_holds(
            g@,
            c@,
            lower as nat,
            upper as nat,
            logs(points@),
        )),
{
    if lower > upper {
        return false;
    }
    let k = count_bits(upper - lower);
    if points.len() != 2 * k {
        return false;
    }
    let first = points_part(points, 0, k);
    let second = points_part(points, k, k);
    proof {
        assert(logs(first@) =~= logs(points@).take(k as int));
        assert(logs(second@) =~= logs(points@).skip(k as int));
        assert(logs(points@).len() / 2 == k);
    }
    let low = weighted(&first, k).add(&g.mul(&Scalar::from_u64(lower)));
    let high = weighted(&second, k).add(c);
    low.eq(c) && high.eq(&g.mul(&Scalar::from_u64(upper)))
}

/// The commitment to a bit is the combination of the first row of its
/// relation, and of the second too where the bit is a bit.
proof fn lemma_bit(g: nat, h: nat, b: nat, s: nat, p: nat)
    requires
        b == 0 || b == 1,
        p == combination(seq![g, h], seq![b, s]),
    ensures
        bit_relation(g, h, p).holds(seq![b, s, if b == 0 { s } else { 0 }]),
        bit_relation(g, h, p).shaped(3),
        cong(p as int, (g * b + h * s) as int),
{
    let t: nat = if b == 0 { s } else { 0 };
    let secrets = seq![b, s, t];
    let rel = bit_relation(g, h, p);
    lemma_dot_two(g, h, b, s);
    lemma_cong_mod((g * b + h * s) as int);
    lemma_dot_three(g, h, 0, b, s, t);
    lemma_dot_three(p, 0, h, b, s, t);
    assert(0 * t == 0);
    assert(0 * s == 0);
    if b == 0 {
        assert(p * 0 == 0);
        assert(g * 0 == 0);
    } else {
        assert(p * 1 == p);
        assert(h * 0 == 0);
        vstd::arithmetic::div_mod::lemma_small_mod(p, modulus());
    }
    assert(rel.images[0] == combination(rel.rows[0], secrets));
    assert(rel.images[1] == combination(rel.rows[1], secrets));
}

/// Commitments to bits taken with weights give the generators taken with
/// the bits and with the blinders taken with the weights.
proof fn lemma_weighted(g: nat, h: nat, bs: Seq<nat>, ss: Seq<nat>, ps: Seq<nat>, ws: Seq<nat>)
    requires
        bs.len() == ps.len(),
        ss.len() == ps.len(),
        ws.len() == ps.len(),
        forall|i: int| 0 <= i < ps.len() ==> cong(ps[i] as int, (g * bs[i] + h * ss[i]) as int),
    ensures
        cong(dot(ps, ws) as int, (g * dot(bs, ws) + h * dot(ss, ws)) as int),
    decreases ps.len(),
{
    if ps.len() == 0 {
        assert(g * 0 + h * 0 == 0) by (nonlinear_arith);
    } else {
        lemma_weighted(g, h, bs.drop_last(), ss.drop_last(), ps.drop_last(), ws.drop_last());
        let w = ws.last() as int;
        lemma_cong_mul(ps.last() as int, (g * bs.last() + h * ss.last()) as int, w, w);
        let db = dot(bs.drop_last(), ws.drop_last()) as int;
        let ds = dot(ss.drop_last(), ws.drop_last()) as int;
        lemma_cong_add(
            dot(ps.drop_last(), ws.drop_last()) as int,
            g * db + h * ds,
            (ps.last() * ws.last()) as int,
            (g * bs.last() + h * ss.last()) * w,
        );
        assert(g * db + h * ds + (g * bs.last() + h * ss.last()) * w == g * (db + bs.last() * w)
            + h * (ds + ss.last() * w)) by (nonlinear_arith);
    }
}

/// Blinders for `k` bit commitments which, taken with the powers of two,
/// give the target: all but the last are drawn at random.
fn blinders_for(k: usize, target: &Scalar, rng: &mut OsRng) -> (r: Vec<Scalar>)
    requires
        1 <= k <= 64,
    ensures
        r.len() == k,
        combination(values(r@), weights(k as nat)) == target@,
{
    let ws = weights_of(k);
    let mut out: Vec<Scalar> = Vec::new();
    let mut i: usize = 0;
    while i < k - 1
        invariant
            i <= k - 1,
            out.len() == i,
        decreases k - 1 - i,
    {
        out.push(Scalar::random(rng));
        i += 1;
    }
    let partial = inner_product(&out, &ws);
    let last = target.sub(&partial);
    let ghost head = values(out@);
    proof {
        assert(values(ws@).len() == ws.len());
        assert(out@.take(k - 1) =~= out@);
        assert(values(ws@.take(k - 1)) =~= weights(k as nat).drop_last());
        assert(partial@ == dot(head, weights(k as nat).drop_last()) % modulus());
    }
    out.push(last);
    proof {
        use_type_invariant(target);
        target.lemma_bound();
        let all = values(out@);
        let w = weights(k as nat);
        assert(values(ws@) == w);
        assert(all.drop_last() =~= head);
        assert(two_to(0) == 1);
        assert((k - 1 - (k - 1)) as nat == 0);
        assert(w[k - 1] == two_to(0) % modulus());
        vstd::arithmetic::div_mod::lemma_small_mod(1, modulus());
        assert(w.last() == 1);
        assert(last@ * 1 == last@);
        let d = dot(head, w.drop_last()) as int;
        assert(dot(all, w) == d + last@);
        lemma_cong_mod(d);
        lemma_fsub(target@, partial@);
        lemma_cong_sub(target@ as int, target@ as int, partial@ as int, d);
        lemma_cong_add(d, d, last@ as int, target@ as int - d);
        lemma_cong_mod(dot(all, w) as int);
        lemma_cong_small(combination(all, w), target@);
    }
    out
}

/// The commitments to the `k` bits of `v` with the given blinders, and the
/// secrets of their relations.
fn commit_bits(g: &G1Point, h: &G1Point, v: u64, k: usize, blinders: &Vec<Scalar>) -> (r: (
    Vec<G1Point>,
    Vec<Scalar>,
))
    requires
        1 <= k <= 64,
        blinders.len() == k,
        (v as nat) < two_to(k as nat),
    ensures
        r.0.len() == k,
        r.1.len() == 3 * k,
        forall|j: int|
            0 <= j < k ==> bit_relation(g@, h@, (#[trigger] r.0[j])@).holds(
                slice(values(r.1@), j, 3),
            ),
        combination(logs(r.0@), weights(k as nat)) == fadd(
            fmul(g@, v as nat),
            fmul(h@, combination(values(blinders@), weights(k as nat))),
        ),
{
    let bs = bits_of(v, k);
    assert(values(bs@).len() == bs.len());
    let zero = Scalar::from_u64(0);
    let mut points: Vec<G1Point> = Vec::new();
    let mut secrets: Vec<Scalar> = Vec::new();
    let mut j: usize = 0;
    proof {
        lemma_bits(v as nat, k as nat);
    }
    while j < k
        invariant
            j <= k,
            k <= 64,
            blinders.len() == k,
            zero@ == 0,
            bs.len() == k,
            values(bs@) == bits(v as nat, k as nat),
            forall|i: int| 0 <= i < k ==> bits(v as nat, k as nat)[i] == 0 || bits(
                v as nat,
                k as nat,
            )[i] == 1,
            points.len() == j,
            secrets.len() == 3 * j,
            forall|i: int|
                0 <= i < j ==> bit_relation(g@, h@, (#[trigger] points[i])@).holds(
                    slice(values(secrets@), i, 3),
                ),
            forall|i: int|
                0 <= i < j ==> cong(
                    (#[trigger] points[i])@ as int,
                    (g@ * bs[i]@ + h@ * blinders[i]@) as int,
                ),
        decreases k - j,
    {
        let b = bs[j];
        let s = blinders[j];
        assert(b@ == values(bs@)[j as int]);
        let pair = vec![b, s];
        let bases = vec![*g, *h];
        proof {
            assert(bases@.take(bases@.len() as int) =~= bases@);
            assert(pair@.take(pair@.len() as int) =~= pair@);
            assert(logs(bases@) =~= seq![g@, h@]);
            assert(values(pair@) =~= seq![b@, s@]);
        }
        let p = sum_of_products(&bases, &pair);
        let other = if b.is_zero() {
            s
        } else {
            zero
        };
        let ghost before = values(secrets@);
        let ghost old_points = points@;
        points.push(p);
        secrets.push(b);
        secrets.push(s);
        secrets.push(other);
        proof {
            lemma_bit(g@, h@, b@, s@, p@);
            let now = values(secrets@);
            assert(now =~= before + seq![b@, s@, other@]);
            assert(slice(now, j as int, 3) =~= seq![b@, s@, other@]);
            assert forall|i: int| 0 <= i < j implies bit_relation(
                g@,
                h@,
                (#[trigger] points[i])@,
            ).holds(slice(now, i, 3)) by {
                assert(points[i] == old_points[i]);
                assert(slice(now, i, 3) =~= slice(before, i, 3));
            }
        }
        j += 1;
    }
    proof {
        let w = weights(k as nat);
        let vb = values(bs@);
        let vs = values(blinders@);
        assert forall|i: int| 0 <= i < k implies cong(
            logs(points@)[i] as int,
            (g@ * vb[i] + h@ * vs[i]) as int,
        ) by {
            assert(logs(points@)[i] == points[i]@);
        }
        lemma_weighted(g@, h@, vb, vs, logs(points@), w);
        lemma_weights(vb, k as nat);
        let dv = dot(vs, w) as int;
        lemma_cong_mod(dv);
        lemma_cong_mul(g@ as int, g@ as int, dot(vb, w) as int, v as int);
        assert(dot(vb, powers(k as nat)) == v as nat);
        lemma_cong_mul(h@ as int, h@ as int, dv, combination(vs, w) as int);
        lemma_cong_add(
            (g@ * dot(vb, w)) as int,
            (g@ * (v as nat)) as int,
            (h@ * dot(vs, w)) as int,
            (h@ * combination(vs, w)) as int,
        );
        lemma_cong_mod(dot(logs(points@), w) as int);
        let vn = v as nat;
        lemma_fmul(g@, vn);
        lemma_fmul(h@, combination(vs, w));
        lemma_fadd(fmul(g@, vn), fmul(h@, combination(vs, w)));
        lemma_cong_add(
            fmul(g@, vn) as int,
            (g@ * vn) as int,
            fmul(h@, combination(vs, w)) as int,
            (h@ * combination(vs, w)) as int,
        );
        lemma_cong_small(
            combination(logs(points@), w),
            fadd(fmul(g@, vn), fmul(h@, combination(vs, w))),
        );
    }
    (points, secrets)
}

/// The bit commitments of a number in a range add up as the range asks.
proof fn lemma_range_sums(
    g: nat,
    h: nat,
    m: nat,
    lower: nat,
    upper: nat,
    opening: nat,
    c: nat,
    low: nat,
    high: nat,
)
    requires
        lower <= m <= upper,
        c == combination(seq![g, h], seq![m, opening]),
        low == fadd(fmul(g, (m - lower) as nat), fmul(h, opening)),
        high == fadd(fmul(g, (upper - m) as nat), fmul(h, fsub(0, opening))),
    ensures
        fadd(low, fmul(g, lower)) == c,
        fadd(high, c) == fmul(g, upper),
{
    let lo = (m - lower) as nat;
    let hi = (upper - m) as nat;
    lemma_dot_two(g, h, m, opening);
    lemma_cong_mod((g * m + h * opening) as int);
    lemma_fmul(g, lo);
    lemma_fmul(h, opening);
    lemma_fadd(fmul(g, lo), fmul(h, opening));
    lemma_cong_add(
        fmul(g, lo) as int,
        (g * lo) as int,
        fmul(h, opening) as int,
        (h * opening) as int,
    );
    lemma_fmul(g, lower);
    lemma_fadd(low, fmul(g, lower));
    lemma_cong_add(
        low as int,
        (g * lo + h * opening) as int,
        fmul(g, lower) as int,
        (g * lower) as int,
    );
    assert(g * lo + h * opening + g * lower == g * m + h * opening) by (nonlinear_arith)
        requires
            lo + lower == m,
    ;
    lemma_cong_small(fadd(low, fmul(g, lower)), c);
    // The upper bound.
    lemma_fmul(g, hi);
    lemma_fsub(0, opening);
    lemma_fmul(h, fsub(0, opening));
    lemma_cong_mul(h as int, h as int, fsub(0, opening) as int, 0 - opening as int);
    lemma_fadd(fmul(g, hi), fmul(h, fsub(0, opening)));
    lemma_cong_add(
        fmul(g, hi) as int,
        (g * hi) as int,
        fmul(h, fsub(0, opening)) as int,
        h * (0 - opening as int),
    );
    lemma_fadd(high, c);
    lemma_cong_add(
        high as int,
        g * hi + h * (0 - opening as int),
        c as int,
        (g * m + h * opening) as int,
    );
    lemma_fmul(g, upper);
    assert(g * hi + h * (0 - opening as int) + (g * m + h * opening) == g * upper)
        by (nonlinear_arith)
        requires
            hi + m == upper,
    ;
    lemma_cong_small(fadd(high, c), fmul(g, upper));
}

impl RangeStatement {
    /// Whether the entries of a proof of the range are no longer than a
    /// transcript takes: the statement's name, a point for each bit of the
    /// two numbers, and two random commitments for each point.
    pub open spec fn room(&self) -> bool {
        self.lower <= self.upper ==> linear_room(
            self.id@,
            2 * bits_needed((self.upper - self.lower) as nat),
            4 * bits_needed((self.upper - self.lower) as nat),
        )
    }

    /// Commits to the bits of `value - lower` and of `upper - value`, and
    /// adds the bit commitments and the random commitments to the
    /// transcript. The number must lie in the range. `commitment` is the
    /// commitment to the number over `g` and `h`, and `opening` its blinder.
    pub fn commit(
        &self,
        g: &G1Point,
        h: &G1Point,
        commitment: &G1Point,
        value: u64,
        opening: &Scalar,
        rng: &mut OsRng,
        transcript: &mut Transcript,
    ) -> (r: Result<LinearBuilder, Error>)
        ensures
            !(self.lower <= value <= self.upper) ==> r == Err::<LinearBuilder, Error>(
                Error::InvalidClaimData,
            ),
            r matches Ok(b) ==> {
                &&& b.sound()
                &&& b.id@ == self.id@
                &&& b.width == 3
                &&& views(b.relations@) == bit_system(g@, h@, logs(b.points@))
                &&& range_shaped(self.lower, self.upper, b.points.len() as nat)
                &&& linear_fits(self.id@, logs(b.points@), b.commitment_logs())
                &&& commitment@ == combination(seq![g@, h@], seq![value as nat, opening@])
                    ==> range_holds(
                    g@,
                    commitment@,
                    self.lower as nat,
                    self.upper as nat,
                    logs(b.points@),
                )
                &&& transcript_log(*final(transcript)) == transcript_log(*old(transcript))
                    + linear_entries("range"@, self.id@, logs(b.points@), b.commitment_logs())
            },
            r.is_ok() == (self.lower <= value <= self.upper && self.room()),
            r matches Err(e) ==> e == (if !(self.lower <= value <= self.upper) {
                Error::InvalidClaimData
            } else {
                Error::InvalidPresentationData
            }),
    {
        if value < self.lower || value > self.upper {
            return Err(Error::InvalidClaimData);
        }
        let k = count_bits(self.upper - self.lower);
        let lo = value - self.lower;
        let hi = self.upper - value;
        proof {
            lemma_span((self.upper - self.lower) as nat);
        }
        let low_blinders = blinders_for(k, opening, rng);
        let high_blinders = blinders_for(k, &opening.neg(), rng);
        let (mut points, mut secrets) = commit_bits(g, h, lo, k, &low_blinders);
        let (mut high_points, mut high_secrets) = commit_bits(g, h, hi, k, &high_blinders);
        let ghost low_logs = logs(points@);
        let ghost high_logs = logs(high_points@);
        let ghost low_secrets = values(secrets@);
        let ghost top_secrets = values(high_secrets@);
        let ghost low_set = points@;
        let ghost high_set = high_points@;
        points.append(&mut high_points);
        secrets.append(&mut high_secrets);
        let relations = bit_relations(g, h, &points);
        let mut blinders: Vec<Scalar> = Vec::new();
        let mut i: usize = 0;
        while i < 6 * k
            invariant
                i <= 6 * k,
                k <= 64,
                blinders.len() == i,
            decreases 6 * k - i,
        {
            blinders.push(Scalar::random(rng));
            i += 1;
        }
        let builder = LinearBuilder {
            id: self.id.clone(),
            points,
            relations,
            width: 3,
            blinders,
            secrets,
        };
        proof {
            let all = values(builder.secrets@);
            let pts = logs(builder.points@);
            assert(all =~= low_secrets + top_secrets);
            assert(pts =~= low_logs + high_logs);
            assert(builder.points@ =~= low_set + high_set);
            assert forall|j: int| 0 <= j < builder.relations.len() implies (#[trigger] views(
                builder.relations@,
            )[j]).holds(slice(all, j, 3)) by {
                assert(views(builder.relations@)[j] == bit_relation(g@, h@, pts[j]));
                if j < k {
                    assert(slice(all, j, 3) =~= slice(low_secrets, j, 3));
                    assert(pts[j] == low_set[j]@);
                } else {
                    assert(slice(all, j, 3) =~= slice(top_secrets, j - k, 3));
                    assert(pts[j] == high_set[j - k]@);
                }
            }
            assert(builder.relations.len() == 2 * k);
            assert(builder.secrets.len() == 6 * k);
            assert(builder.blinders.len() == 6 * k);
            assert(builder.width == 3);
            assert(builder.relations.len() * builder.width == 6 * k) by (nonlinear_arith)
                requires
                    builder.relations.len() == 2 * k,
                    builder.width == 3,
            ;
            assert(system_holds(views(builder.relations@), 3, all));
            assert(builder.sound());
            lemma_bit_equations(g@, h@, pts, pts.len() as int);
            assert(builder.points.len() == 2 * k);
            assert(pts.take(k as int) =~= low_logs);
            assert(pts.skip(k as int) =~= high_logs);
            assert(pts.len() / 2 == k);
            if commitment@ == combination(seq![g@, h@], seq![value as nat, opening@]) {
                lemma_range_sums(
                    g@,
                    h@,
                    value as nat,
                    self.lower as nat,
                    self.upper as nat,
                    opening@,
                    commitment@,
                    combination(low_logs, weights(k as nat)),
                    combination(high_logs, weights(k as nat)),
                );
            }
        }
        match builder.add_proof_contribution("range", transcript) {
            Err(e) => Err(e),
            Ok(_) => Ok(builder),
        }
    }
}

} // verus!
