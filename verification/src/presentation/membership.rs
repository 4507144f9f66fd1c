//! Membership of hidden claims in accumulated sets.
//!
//! An accumulator `V` holds a set under a key `alpha`, whose public part is
//! the generator of the second group taken `alpha` times. The witness of a
//! member `y` is `W` with `W` taken `alpha + y` times being `V`. The prover
//! publishes `W' = W * rho` for a random `rho`, and `D = V * rho - W' * y`,
//! and proves knowledge of `y` and `rho`. The verifier checks that `W'`
//! paired with the public key is `D` paired with the generator. A
//! credential is not revoked while its revocation claim is a member of the
//! issuer's accumulator.

use vstd::prelude::*;
use merlin::Transcript;
use rand_core::OsRng;
use crate::algebra::{
    cong, lemma_cong_add, lemma_cong_mod, lemma_cong_mul, lemma_cong_small, lemma_dot_two,
    lemma_fadd, lemma_fmul, lemma_fsub,
};
use crate::error::Error;
use crate::field::{fadd, fmul, fsub, Scalar};
use crate::g1::G1Point;
use crate::g2::G2Point;
use crate::group::{logs, sum_of_products, values};
use crate::pairing::pair;
use crate::presentation::linear::{
    equations, linear_entries, linear_fits, linear_room, LinearBuilder, slice, system_holds,
    system_shaped, views,
};
use crate::presentation::statement::MembershipStatement;
use crate::relation::{Relation, RelationLogs};
use crate::schnorr::combination;
use crate::transcript::transcript_log;

verus! {

/// The relation that the points `(W', D)` of a proof satisfy for the
/// secrets `(y, rho)` and the accumulator with logarithm `v`.
pub open spec fn membership_system(v: nat, points: Seq<nat>) -> Seq<RelationLogs> {
    seq![
        RelationLogs {
            images: seq![points[1]],
            rows: seq![seq![fmul(points[0], fsub(0, 1)), v]],
        },
    ]
}

/// The pairing check of a proof with points `(W', D)` under the public key
/// with logarithm `q`: `W'` is not the neutral element, and paired with the
/// key it is `D` paired with the generator.
pub open spec fn accumulator_holds(q: nat, points: Seq<nat>) -> bool {
    points[0] != 0 && fmul(points[0], q) == fmul(points[1], 1)
}

/// The point with logarithm `w` is the witness of the member `y` of the
/// accumulator with logarithm `v` under the public key with logarithm `q`.
pub open spec fn witness_valid(w: nat, v: nat, q: nat, y: nat) -> bool {
    fmul(w, fadd(fmul(1, y), q)) == fmul(v, 1)
}

/// The points that an honest prover makes of a valid witness pass the
/// pairing check, whatever `rho` is.
pub proof fn lemma_membership(w: nat, v: nat, q: nat, y: nat, rho: nat, blinded: nat, d: nat)
    requires
        witness_valid(w, v, q, y),
        blinded == fmul(w, rho),
        d == combination(seq![fmul(blinded, fsub(0, 1)), v], seq![y, rho]),
    ensures
        fmul(blinded, q) == fmul(d, 1),
{
    let neg = fmul(blinded, fsub(0, 1));
    lemma_dot_two(neg, v, y, rho);
    lemma_cong_mod((neg * y + v * rho) as int);
    lemma_fmul(w, rho);
    lemma_fsub(0, 1);
    lemma_fmul(blinded, fsub(0, 1));
    lemma_cong_mul(blinded as int, (w * rho) as int, fsub(0, 1) as int, -1);
    lemma_cong_mul(neg as int, (w * rho) * (-1), y as int, y as int);
    // The accumulator is the witness taken by the key and the member.
    lemma_fmul(v, 1);
    assert(v * 1 == v);
    lemma_fmul(1, y);
    assert(1 * y == y);
    lemma_fadd(fmul(1, y), q);
    lemma_cong_add(fmul(1, y) as int, y as int, q as int, q as int);
    lemma_fmul(w, fadd(fmul(1, y), q));
    lemma_cong_mul(w as int, w as int, fadd(fmul(1, y), q) as int, (y + q) as int);
    assert(cong(v as int, (w * (y + q)) as int));
    lemma_cong_mul(v as int, (w * (y + q)) as int, rho as int, rho as int);
    lemma_cong_add(
        (neg * y) as int,
        ((w * rho) * (-1)) * y,
        (v * rho) as int,
        ((w * (y + q)) * rho) as int,
    );
    assert(((w * rho) * (-1)) * y + (w * (y + q)) * rho == (w * rho) * q) by (nonlinear_arith);
    lemma_fmul(blinded, q);
    lemma_cong_mul(blinded as int, (w * rho) as int, q as int, q as int);
    lemma_fmul(d, 1);
    assert(d * 1 == d);
    lemma_cong_small(fmul(blinded, q), fmul(d, 1));
}

impl MembershipStatement {
    /// The relation that the statement's proofs satisfy.
    pub open spec fn system(&self, points: Seq<nat>) -> Seq<RelationLogs> {
        membership_system(self.accumulator@, points)
    }

    /// The pairing check of the statement's proofs.
    pub open spec fn holds(&self, points: Seq<nat>) -> bool {
        accumulator_holds(self.verification_key@, points)
    }

    /// The relation that the statement and the proof's points determine.
    /// The points must be the two of a proof.
    pub fn relations(&self, points: &Vec<G1Point>) -> (r: Result<Vec<Relation>, Error>)
        ensures
            r.is_ok() == (points.len() == 2),
            r matches Ok(v) ==> views(v@) == self.system(logs(points@)) && system_shaped(
                views(v@),
                2,
            ),
            r matches Err(e) ==> e == Error::InvalidPresentationData,
    {
        if points.len() != 2 {
            return Err(Error::InvalidPresentationData);
        }
        let minus_one = Scalar::from_u64(1).neg();
        let neg = points[0].mul(&minus_one);
        let rel = Relation { images: vec![points[1]], rows: vec![vec![neg, self.accumulator]] };
        let v = vec![rel];
        proof {
            assert(rel@.images =~= seq![points[1]@]);
            assert(rel@.rows[0] =~= seq![fmul(points[0]@, fsub(0, 1)), self.accumulator@]);
            assert(rel@.rows =~= seq![seq![fmul(points[0]@, fsub(0, 1)), self.accumulator@]]);
            assert(views(v@) =~= self.system(logs(points@)));
        }
        Ok(v)
    }

    /// Whether the points of a proof pass the pairing check. There must be
    /// two points.
    pub fn check(&self, points: &Vec<G1Point>) -> (r: bool)
        ensures
            r == (points.len() == 2 && self.holds(logs(points@))),
    {
        if points.len() != 2 || points[0].is_identity() {
            return false;
        }
        let lhs = pair(&points[0], &self.verification_key);
        let rhs = pair(&points[1], &G2Point::generator());
        lhs.eq(&rhs)
    }

    /// Whether the point is the witness of the member under the
    /// statement's accumulator and key.
    pub fn is_witness(&self, witness: &G1Point, member: &Scalar) -> (r: bool)
        ensures
            r == witness_valid(
                witness@,
                self.accumulator@,
                self.verification_key@,
                member@,
            ),
    {
        let g = G2Point::generator();
        let lhs = pair(witness, &g.mul(member).add(&self.verification_key));
        let rhs = pair(&self.accumulator, &g);
        lhs.eq(&rhs)
    }

    /// Blinds the witness of the claim `message` with a given scalar and
    /// blinders. The witness must be valid and the blinded witness must not
    /// be the neutral element.
    pub fn commit_with(
        &self,
        witness: &G1Point,
        message: Scalar,
        rho: Scalar,
        blinders: Vec<Scalar>,
    ) -> (r: Result<LinearBuilder, Error>)
        ensures
            r.is_ok() == (witness_valid(
                witness@,
                self.accumulator@,
                self.verification_key@,
                message@,
            ) && fmul(witness@, rho@) != 0 && blinders.len() == 2),
            r matches Ok(b) ==> {
                &&& b.sound()
                &&& b.id@ == self.id@
                &&& b.width == 2
                &&& b.points.len() == 2
                &&& b.points[0]@ == fmul(witness@, rho@)
                &&& views(b.relations@) == self.system(logs(b.points@))
                &&& self.holds(logs(b.points@))
                &&& b.secrets@ == seq![message, rho]
                &&& b.blinders@ == blinders@
                &&& b.relations.len() == 1
            },
            r matches Err(e) ==> e == Error::InvalidClaimData,
    {
        if blinders.len() != 2 || !self.is_witness(witness, &message) {
            return Err(Error::InvalidClaimData);
        }
        let blinded = witness.mul(&rho);
        if blinded.is_identity() {
            return Err(Error::InvalidClaimData);
        }
        let minus_one = Scalar::from_u64(1).neg();
        let neg = blinded.mul(&minus_one);
        let secrets = vec![message, rho];
        let bases = vec![neg, self.accumulator];
        proof {
            assert(bases@.take(bases@.len() as int) =~= bases@);
            assert(secrets@.take(secrets@.len() as int) =~= secrets@);
            assert(logs(bases@) =~= seq![neg@, self.accumulator@]);
            assert(values(secrets@) =~= seq![message@, rho@]);
        }
        let d = sum_of_products(&bases, &secrets);
        let points = vec![blinded, d];
        match self.relations(&points) {
            Err(_) => Err(Error::InvalidClaimData),
            Ok(relations) => {
                let builder = LinearBuilder {
                    id: self.id.clone(),
                    points,
                    relations,
                    width: 2,
                    blinders,
                    secrets,
                };
                proof {
                    let s = values(builder.secrets@);
                    assert(slice(s, 0, 2) =~= s);
                    assert(views(builder.relations@)[0].holds(s));
                    assert(views(builder.relations@).len() == 1);
                    assert(builder.relations.len() == 1);
                    assert(system_holds(views(builder.relations@), 2, s));
                    lemma_membership(
                        witness@,
                        self.accumulator@,
                        self.verification_key@,
                        message@,
                        rho@,
                        blinded@,
                        d@,
                    );
                }
                Ok(builder)
            },
        }
    }

    /// Blinds the witness of the claim `message` with a random scalar, and
    /// adds the proof's points and the random commitments to the transcript
    /// under a label. The claim's blinder is `blinder`. The witness must be
    /// valid and not the neutral element. The scalar is drawn among those
    /// that do not take the witness to the neutral element: where another
    /// is drawn, one stands in for it.
    pub fn commit(
        &self,
        witness: &G1Point,
        message: Scalar,
        blinder: Scalar,
        label: &'static str,
        rng: &mut OsRng,
        transcript: &mut Transcript,
    ) -> (r: Result<LinearBuilder, Error>)
        ensures
            !witness_valid(witness@, self.accumulator@, self.verification_key@, message@) ==> r
                == Err::<LinearBuilder, Error>(Error::InvalidClaimData),
            r matches Ok(b) ==> {
                &&& b.sound()
                &&& b.id@ == self.id@
                &&& b.width == 2
                &&& views(b.relations@) == self.system(logs(b.points@))
                &&& self.holds(logs(b.points@))
                &&& b.secrets.len() == 2
                &&& b.secrets[0]@ == message@
                &&& b.blinders[0]@ == blinder@
                &&& b.points.len() == 2
                &&& linear_fits(self.id@, logs(b.points@), b.commitment_logs())
                &&& transcript_log(*final(transcript)) == transcript_log(*old(transcript))
                    + linear_entries(label@, self.id@, logs(b.points@), b.commitment_logs())
            },
            r.is_ok() == (witness_valid(
                witness@,
                self.accumulator@,
                self.verification_key@,
                message@,
            ) && witness@ != 0 && linear_room(self.id@, 2, 1)),
            r matches Err(e) ==> e == (if witness_valid(
                witness@,
                self.accumulator@,
                self.verification_key@,
                message@,
            ) && witness@ != 0 {
                Error::InvalidPresentationData
            } else {
                Error::InvalidClaimData
            }),
    {
        let drawn = Scalar::random(rng);
        let rho = if witness.mul(&drawn).is_identity() {
            Scalar::from_u64(1)
        } else {
            drawn
        };
        proof {
            use_type_invariant(witness);
            witness.lemma_log();
            vstd::arithmetic::div_mod::lemma_small_mod(witness@, crate::field::modulus());
            assert(witness@ * 1 == witness@);
        }
        let blinders = vec![blinder, Scalar::random(rng)];
        match self.commit_with(witness, message, rho, blinders) {
            Err(e) => Err(e),
            Ok(builder) => {
                proof {
                    assert(equations(views(builder.relations@), 0) == 0);
                    assert(equations(views(builder.relations@), 1) == views(
                        builder.relations@,
                    )[0].rows.len());
                    assert(views(builder.relations@)[0].rows.len() == 1);
                    assert(builder.relations.len() == 1);
                }
                match builder.add_proof_contribution(label, transcript) {
                    Err(e) => Err(e),
                    Ok(_) => Ok(builder),
                }
            },
        }
    }
}

} // verus!
