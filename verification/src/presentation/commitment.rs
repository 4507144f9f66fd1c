//! Pedersen commitments to hidden claims.
//!
//! The commitment is the message generator taken with the claim and the
//! blinder generator taken with a random scalar. The claim has the blinder
//! that it has in the proof of knowledge of its credential's signature, so
//! that its response is the same in both proofs.

use vstd::prelude::*;
use merlin::Transcript;
use rand_core::OsRng;
use crate::error::Error;
use crate::field::Scalar;
use crate::g1::G1Point;
use crate::group::{logs, sum_of_products, values};
use crate::presentation::linear::{
    equations, linear_entries, linear_fits, linear_room, LinearBuilder, system_shaped, views,
};
use crate::presentation::statement::CommitmentStatement;
use crate::relation::{Relation, RelationLogs};
use crate::transcript::transcript_log;

verus! {

impl CommitmentStatement {
    /// The relation that a commitment satisfies: it is the message
    /// generator taken with the first secret and the blinder generator
    /// taken with the second.
    pub open spec fn system(&self, points: Seq<nat>) -> Seq<RelationLogs> {
        seq![
            RelationLogs {
                images: seq![points[0]],
                rows: seq![seq![self.message_generator@, self.blinder_generator@]],
            },
        ]
    }

    /// The relation that the statement and the proof's points determine.
    /// The points must be the commitment alone.
    pub fn relations(&self, points: &Vec<G1Point>) -> (r: Result<Vec<Relation>, Error>)
        ensures
            r.is_ok() == (points.len() == 1),
            r matches Ok(v) ==> views(v@) == self.system(logs(points@)) && system_shaped(
                views(v@),
                2,
            ),
            r matches Err(e) ==> e == Error::InvalidPresentationData,
    {
        if points.len() != 1 {
            return Err(Error::InvalidPresentationData);
        }
        let rel = Relation {
            images: vec![points[0]],
            rows: vec![vec![self.message_generator, self.blinder_generator]],
        };
        let v = vec![rel];
        proof {
            assert(rel@.images =~= seq![points[0]@]);
            assert(rel@.rows[0] =~= seq![self.message_generator@, self.blinder_generator@]);
            assert(rel@.rows =~= seq![seq![self.message_generator@, self.blinder_generator@]]);
            assert(views(v@) =~= self.system(logs(points@)));
        }
        Ok(v)
    }

    /// Commits to the claim `message` with a random scalar, and adds the
    /// commitment and the random commitment to the transcript. The claim's
    /// blinder is `blinder`.
    pub fn commit(
        &self,
        message: Scalar,
        blinder: Scalar,
        rng: &mut OsRng,
        transcript: &mut Transcript,
    ) -> (r: Result<LinearBuilder, Error>)
        ensures
            r matches Ok(b) ==> {
                &&& b.sound()
                &&& b.id@ == self.id@
                &&& b.width == 2
                &&& b.points.len() == 1
                &&& views(b.relations@) == self.system(logs(b.points@))
                &&& b.secrets.len() == 2
                &&& b.secrets[0]@ == message@
                &&& b.blinders[0]@ == blinder@
                &&& linear_fits(self.id@, logs(b.points@), b.commitment_logs())
                &&& transcript_log(*final(transcript)) == transcript_log(*old(transcript))
                    + linear_entries(
                    "commitment"@,
                    self.id@,
                    logs(b.points@),
                    b.commitment_logs(),
                )
            },
            r.is_ok() == linear_room(self.id@, 1, 1),
            r matches Err(e) ==> e == Error::InvalidPresentationData,
    {
        let opening = Scalar::random(rng);
        let bases = vec![self.message_generator, self.blinder_generator];
        let secrets = vec![message, opening];
        proof {
            assert(bases@.take(bases@.len() as int) =~= bases@);
            assert(secrets@.take(secrets@.len() as int) =~= secrets@);
        }
        let commitment = sum_of_products(&bases, &secrets);
        let points = vec![commitment];
        match self.relations(&points) {
            Err(e) => Err(e),
            Ok(relations) => {
                let blinders = vec![blinder, Scalar::random(rng)];
                let builder = LinearBuilder {
                    id: self.id.clone(),
                    points,
                    relations,
                    width: 2,
                    blinders,
                    secrets,
                };
                proof {
                    let s = values(builder.secrets@);
                    assert(crate::presentation::linear::slice(s, 0, 2) =~= s);
                    assert(logs(bases@) =~= seq![
                        self.message_generator@,
                        self.blinder_generator@,
                    ]);
                    assert(views(builder.relations@)[0].holds(s));
                    assert(views(builder.relations@).len() == 1);
                    assert(builder.relations.len() == 1);
                    assert(builder.secrets.len() == 2);
                    assert(builder.blinders.len() == 2);
                    assert(crate::presentation::linear::system_holds(
                        views(builder.relations@),
                        2,
                        s,
                    ));
                    assert(equations(views(builder.relations@), 0) == 0);
                    assert(equations(views(builder.relations@), 1) == views(
                        builder.relations@,
                    )[0].rows.len());
                    assert(views(builder.relations@)[0].rows.len() == 1);
                    assert(builder.sound());
                }
                match builder.add_proof_contribution("commitment", transcript) {
                    Err(e) => Err(e),
                    Ok(_) => Ok(builder),
                }
            },
        }
    }
}

} // verus!
