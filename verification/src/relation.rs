//! Proofs of knowledge of scalars that several sums of products share.
//!
//! A relation is a list of equations over the first group. Each equation
//! says that a public point, its image, is the sum of the bases of its row,
//! each taken with one of the secrets; every row has a base for every
//! secret. One blinder and one response go with each secret, whichever
//! equations it stands in.

use vstd::prelude::*;
use crate::field::Scalar;
use crate::g1::G1Point;
use crate::group::{logs, sum_of_products, values};
use crate::schnorr::{combination, lemma_schnorr, recover_commitment, recovered, responses};

verus! {

/// Equations between public points and sums of products of shared secrets.
pub struct Relation {
    /// The image of each equation.
    pub images: Vec<G1Point>,
    /// The bases of each equation, one for each secret.
    pub rows: Vec<Vec<G1Point>>,
}

/// A relation as the logarithms of its points.
pub struct RelationLogs {
    /// The logarithm of the image of each equation.
    pub images: Seq<nat>,
    /// The logarithms of the bases of each equation.
    pub rows: Seq<Seq<nat>>,
}

impl RelationLogs {
    /// There is a row for each image, and each row has `n` bases.
    pub open spec fn shaped(&self, n: int) -> bool {
        &&& self.rows.len() == self.images.len()
        &&& forall|e: int| 0 <= e < self.rows.len() ==> (#[trigger] self.rows[e]).len() == n
    }

    /// The secrets satisfy every equation.
    pub open spec fn holds(&self, secrets: Seq<nat>) -> bool {
        forall|e: int|
            0 <= e < self.images.len() ==> #[trigger] self.images[e] == combination(
                self.rows[e],
                secrets,
            )
    }

    /// The logarithms of the random commitments of a prover with the given blinders.
    pub open spec fn commitment_logs(&self, blinders: Seq<nat>) -> Seq<nat> {
        Seq::new(self.rows.len(), |e: int| combination(self.rows[e], blinders))
    }

    /// The logarithms of the random commitments that a verifier recovers
    /// from the responses and the challenge.
    pub open spec fn recovered_logs(&self, rs: Seq<nat>, c: nat) -> Seq<nat> {
        Seq::new(self.rows.len(), |e: int| recovered(self.rows[e], rs, c, self.images[e]))
    }
}

impl View for Relation {
    type V = RelationLogs;

    open spec fn view(&self) -> RelationLogs {
        RelationLogs {
            images: logs(self.images@),
            rows: self.rows@.map_values(|r: Vec<G1Point>| logs(r@)),
        }
    }
}

impl Relation {
    /// The random commitments of a prover: each row taken with the
    /// blinders. The relation must have a base in each row for each blinder.
    pub(crate) fn commitments(&self, blinders: &Vec<Scalar>) -> (r: Vec<G1Point>)
        requires
            self@.shaped(blinders.len() as int),
        ensures
            logs(r@) == self@.commitment_logs(values(blinders@)),
    {
        let mut out: Vec<G1Point> = Vec::new();
        let mut e: usize = 0;
        while e < self.rows.len()
            invariant
                e <= self.rows.len(),
                self@.shaped(blinders.len() as int),
                out.len() == e,
                forall|k: int|
                    0 <= k < e ==> (#[trigger] out[k])@ == combination(
                        self@.rows[k],
                        values(blinders@),
                    ),
            decreases self.rows.len() - e,
        {
            proof {
                let row = self.rows[e as int];
                assert(self@.rows[e as int] == logs(row@));
                assert(row.len() == blinders.len());
                assert(row@.take(row@.len() as int) =~= row@);
                assert(blinders@.take(blinders@.len() as int) =~= blinders@);
            }
            let t = sum_of_products(&self.rows[e], blinders);
            out.push(t);
            e += 1;
        }
        assert(logs(out@) =~= self@.commitment_logs(values(blinders@)));
        out
    }

    /// The random commitments that a verifier recovers: each row taken with
    /// the responses, and the row's image taken with the challenge. The
    /// relation must have a base in each row for each response.
    pub(crate) fn recover(&self, rs: &Vec<Scalar>, challenge: &Scalar) -> (r: Vec<G1Point>)
        requires
            self@.shaped(rs.len() as int),
        ensures
            logs(r@) == self@.recovered_logs(values(rs@), challenge@),
    {
        let mut out: Vec<G1Point> = Vec::new();
        let mut e: usize = 0;
        while e < self.rows.len()
            invariant
                e <= self.rows.len(),
                self@.shaped(rs.len() as int),
                out.len() == e,
                forall|k: int|
                    0 <= k < e ==> (#[trigger] out[k])@ == recovered(
                        self@.rows[k],
                        values(rs@),
                        challenge@,
                        self@.images[k],
                    ),
            decreases self.rows.len() - e,
        {
            proof {
                let row = self.rows[e as int];
                assert(self@.rows[e as int] == logs(row@));
                assert(row.len() == rs.len());
                assert(row@.take(row@.len() as int) =~= row@);
                assert(rs@.take(rs@.len() as int) =~= rs@);
            }
            let t = recover_commitment(&self.rows[e], rs, challenge, &self.images[e]);
            out.push(t);
            e += 1;
        }
        assert(logs(out@) =~= self@.recovered_logs(values(rs@), challenge@));
        out
    }
}

/// The responses of secrets blinded by blinders to a challenge. Where there
/// are more of the ones than of the others, what is more is left out.
pub fn respond(
    blinders: &Vec<Scalar>,
    challenge: &Scalar,
    secrets: &Vec<Scalar>,
) -> (r: Vec<Scalar>)
    ensures
        blinders.len() == secrets.len() ==> values(r@) == responses(
            values(blinders@),
            challenge@,
            values(secrets@),
        ),
        r.len() <= blinders.len(),
        blinders.len() <= secrets.len() ==> r.len() == blinders.len(),
{
    let mut out: Vec<Scalar> = Vec::new();
    let mut i: usize = 0;
    while i < blinders.len() && i < secrets.len()
        invariant
            i <= blinders.len(),
            i <= secrets.len(),
            out.len() == i,
            forall|j: int|
                0 <= j < i ==> (#[trigger] out[j])@ == crate::schnorr::response(
                    blinders[j]@,
                    challenge@,
                    secrets[j]@,
                ),
        decreases blinders.len() - i,
    {
        out.push(blinders[i].sub(&challenge.mul(&secrets[i])));
        i += 1;
    }
    proof {
        if blinders.len() == secrets.len() {
            assert(values(out@) =~= responses(
                values(blinders@),
                challenge@,
                values(secrets@),
            ));
        }
    }
    out
}

/// A verifier recovers the random commitments of a prover who knows
/// secrets that satisfy the relation, whatever the blinders and the challenge.
pub proof fn lemma_relation(rel: RelationLogs, secrets: Seq<nat>, blinders: Seq<nat>, c: nat)
    requires
        rel.shaped(secrets.len() as int),
        blinders.len() == secrets.len(),
        rel.holds(secrets),
    ensures
        rel.recovered_logs(responses(blinders, c, secrets), c) == rel.commitment_logs(blinders),
{
    let rs = responses(blinders, c, secrets);
    assert forall|e: int| 0 <= e < rel.rows.len() implies recovered(
        rel.rows[e],
        rs,
        c,
        rel.images[e],
    ) == combination(rel.rows[e], blinders) by {
        assert(rel.rows[e].len() == secrets.len());
        assert(rel.images[e] == combination(rel.rows[e], secrets));
        lemma_schnorr(rel.rows[e], blinders, secrets, c);
    }
    assert(rel.recovered_logs(rs, c) =~= rel.commitment_logs(blinders));
}

} // verus!
