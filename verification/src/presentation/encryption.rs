//! Verifiable encryptions of hidden claims.
//!
//! The ciphertext is `(c1, c2)` with `c1` the message generator taken with a
//! random scalar `r`, and `c2` the encryption key taken with `r` plus the
//! message generator taken with the claim. The form that the issuer can
//! help to decrypt adds `c3`, the issuer's key taken with `r`.

use vstd::prelude::*;
use merlin::Transcript;
use rand_core::OsRng;
use crate::error::Error;
use crate::field::Scalar;
use crate::g1::G1Point;
use crate::group::{logs, sum_of_products, values};
use crate::presentation::linear::{
    equations, linear_entries, linear_fits, linear_room, LinearBuilder, slice, system_holds,
    system_shaped, views,
};
use crate::presentation::statement::{
    VerifiableEncryptionDecryptionStatement, VerifiableEncryptionStatement,
};
use crate::relation::{Relation, RelationLogs};
use crate::transcript::transcript_log;

verus! {

/// The relation that a ciphertext satisfies for the secrets `(claim, r)`.
pub open spec fn ciphertext_system(g: nat, key: nat, points: Seq<nat>) -> Seq<RelationLogs> {
    seq![
        RelationLogs {
            images: seq![points[0], points[1]],
            rows: seq![seq![0nat, g], seq![g, key]],
        },
    ]
}

/// The relation that a ciphertext which the issuer can help to decrypt
/// satisfies for the secrets `(claim, r)`.
pub open spec fn shared_ciphertext_system(g: nat, key: nat, issuer: nat, points: Seq<nat>) -> Seq<
    RelationLogs,
> {
    seq![
        RelationLogs {
            images: seq![points[0], points[1], points[2]],
            rows: seq![seq![0nat, g], seq![g, key], seq![0nat, issuer]],
        },
    ]
}

/// The relation of a ciphertext with the given bases. The points must be
/// the two of a ciphertext.
fn ciphertext_relations(g: &G1Point, key: &G1Point, points: &Vec<G1Point>) -> (r: Result<
    Vec<Relation>,
    Error,
>)
    ensures
        r.is_ok() == (points.len() == 2),
        r matches Ok(v) ==> views(v@) == ciphertext_system(g@, key@, logs(points@))
            && system_shaped(views(v@), 2),
        r matches Err(e) ==> e == Error::InvalidPresentationData,
{
    if points.len() != 2 {
        return Err(Error::InvalidPresentationData);
    }
    let zero = G1Point::identity();
    let rel = Relation {
        images: vec![points[0], points[1]],
        rows: vec![vec![zero, *g], vec![*g, *key]],
    };
    let v = vec![rel];
    proof {
        assert(rel@.images =~= seq![points[0]@, points[1]@]);
        assert(rel@.rows[0] =~= seq![0nat, g@]);
        assert(rel@.rows[1] =~= seq![g@, key@]);
        assert(rel@.rows =~= seq![seq![0nat, g@], seq![g@, key@]]);
        assert(views(v@) =~= ciphertext_system(g@, key@, logs(points@)));
    }
    Ok(v)
}

/// The relation of a ciphertext that the issuer can help to decrypt. The
/// points must be the three of such a ciphertext.
fn shared_ciphertext_relations(
    g: &G1Point,
    key: &G1Point,
    issuer: &G1Point,
    points: &Vec<G1Point>,
) -> (r: Result<Vec<Relation>, Error>)
    ensures
        r.is_ok() == (points.len() == 3),
        r matches Ok(v) ==> views(v@) == shared_ciphertext_system(
            g@,
            key@,
            issuer@,
            logs(points@),
        ) && system_shaped(views(v@), 2),
        r matches Err(e) ==> e == Error::InvalidPresentationData,
{
    if points.len() != 3 {
        return Err(Error::InvalidPresentationData);
    }
    let zero = G1Point::identity();
    let rel = Relation {
        images: vec![points[0], points[1], points[2]],
        rows: vec![vec![zero, *g], vec![*g, *key], vec![zero, *issuer]],
    };
    let v = vec![rel];
    proof {
        assert(rel@.images =~= seq![points[0]@, points[1]@, points[2]@]);
        assert(rel@.rows[0] =~= seq![0nat, g@]);
        assert(rel@.rows[1] =~= seq![g@, key@]);
        assert(rel@.rows[2] =~= seq![0nat, issuer@]);
        assert(rel@.rows =~= seq![seq![0nat, g@], seq![g@, key@], seq![0nat, issuer@]]);
        assert(views(v@) =~= shared_ciphertext_system(g@, key@, issuer@, logs(points@)));
    }
    Ok(v)
}

/// The sum of two bases, each taken with its secret.
fn combine(a: &G1Point, b: &G1Point, secrets: &Vec<Scalar>) -> (r: G1Point)
    requires
        secrets.len() == 2,
    ensures
        r@ == crate::schnorr::combination(seq![a@, b@], values(secrets@)),
{
    let bases = vec![*a, *b];
    proof {
        assert(bases@.take(bases@.len() as int) =~= bases@);
        assert(secrets@.take(secrets@.len() as int) =~= secrets@);
        assert(logs(bases@) =~= seq![a@, b@]);
    }
    sum_of_products(&bases, secrets)
}

impl VerifiableEncryptionStatement {
    /// The relation that the statement's ciphertexts satisfy.
    pub open spec fn system(&self, points: Seq<nat>) -> Seq<RelationLogs> {
        ciphertext_system(self.message_generator@, self.encryption_key@, points)
    }

    /// The relation that the statement and the proof's points determine.
    pub fn relations(&self, points: &Vec<G1Point>) -> (r: Result<Vec<Relation>, Error>)
        ensures
            r.is_ok() == (points.len() == 2),
            r matches Ok(v) ==> views(v@) == self.system(logs(points@)) && system_shaped(
                views(v@),
                2,
            ),
            r matches Err(e) ==> e == Error::InvalidPresentationData,
    {
        ciphertext_relations(&self.message_generator, &self.encryption_key, points)
    }

    /// Encrypts the claim `message` with a random scalar, and adds the
    /// ciphertext and the random commitments to the transcript. The claim's
    /// blinder is `blinder`.
    pub fn commit(
        &self,
        message: Scalar,
        blinder: Scalar,
        rng: &mut OsRng,
        transcript: &mut Transcript,
    ) -> (r: Result<LinearBuilder, Error>)
        ensures
            r matches Ok(b) ==> {
                &&& b.sound()
                &&& b.id@ == self.id@
                &&& b.width == 2
                &&& views(b.relations@) == self.system(logs(b.points@))
                &&& b.secrets.len() == 2
                &&& b.secrets[0]@ == message@
                &&& b.blinders[0]@ == blinder@
                &&& linear_fits(self.id@, logs(b.points@), b.commitment_logs())
                &&& b.points.len() == 2
                &&& transcript_log(*final(transcript)) == transcript_log(*old(transcript))
                    + linear_entries(
                    "verifiable encryption"@,
                    self.id@,
                    logs(b.points@),
                    b.commitment_logs(),
                )
            },
            r.is_ok() == linear_room(self.id@, 2, 2),
            r matches Err(e) ==> e == Error::InvalidPresentationData,
    {
        let secrets = vec![message, Scalar::random(rng)];
        let zero = G1Point::identity();
        let c1 = combine(&zero, &self.message_generator, &secrets);
        let c2 = combine(&self.message_generator, &self.encryption_key, &secrets);
        let points = vec![c1, c2];
        match self.relations(&points) {
            Err(e) => Err(e),
            Ok(relations) => {
                let blinders = vec![blinder, Scalar::random(rng)];
                let builder = LinearBuilder {
                    id: self.id.clone(),
                    points,
                    relations,
                    width: 2,
                    blinders,
                    secrets,
                };
                proof {
                    let s = values(builder.secrets@);
                    assert(slice(s, 0, 2) =~= s);
                    assert(views(builder.relations@)[0].holds(s));
                    assert(views(builder.relations@).len() == 1);
                    assert(builder.relations.len() == 1);
                    assert(system_holds(views(builder.relations@), 2, s));
                    assert(equations(views(builder.relations@), 0) == 0);
                    assert(equations(views(builder.relations@), 1) == views(
                        builder.relations@,
                    )[0].rows.len());
                    assert(views(builder.relations@)[0].rows.len() == 2);
                    assert(builder.sound());
                }
                match builder.add_proof_contribution("verifiable encryption", transcript) {
                    Err(e) => Err(e),
                    Ok(_) => Ok(builder),
                }
            },
        }
    }
}

impl VerifiableEncryptionDecryptionStatement {
    /// The relation that the statement's ciphertexts satisfy.
    pub open spec fn system(&self, points: Seq<nat>) -> Seq<RelationLogs> {
        shared_ciphertext_system(
            self.message_generator@,
            self.encryption_key@,
            self.issuer_key@,
            points,
        )
    }

    /// The relation that the statement and the proof's points determine.
    pub fn relations(&self, points: &Vec<G1Point>) -> (r: Result<Vec<Relation>, Error>)
        ensures
            r.is_ok() == (points.len() == 3),
            r matches Ok(v) ==> views(v@) == self.system(logs(points@)) && system_shaped(
                views(v@),
                2,
            ),
            r matches Err(e) ==> e == Error::InvalidPresentationData,
    {
        shared_ciphertext_relations(
            &self.message_generator,
            &self.encryption_key,
            &self.issuer_key,
            points,
        )
    }

    /// Encrypts the claim `message` with a random scalar, and adds the
    /// ciphertext and the random commitments to the transcript. The claim's
    /// blinder is `blinder`.
    pub fn commit(
        &self,
        message: Scalar,
        blinder: Scalar,
        rng: &mut OsRng,
        transcript: &mut Transcript,
    ) -> (r: Result<LinearBuilder, Error>)
        ensures
            r matches Ok(b) ==> {
                &&& b.sound()
                &&& b.id@ == self.id@
                &&& b.width == 2
                &&& views(b.relations@) == self.system(logs(b.points@))
                &&& b.secrets.len() == 2
                &&& b.secrets[0]@ == message@
                &&& b.blinders[0]@ == blinder@
                &&& linear_fits(self.id@, logs(b.points@), b.commitment_logs())
                &&& b.points.len() == 3
                &&& transcript_log(*final(transcript)) == transcript_log(*old(transcript))
                    + linear_entries(
                    "verifiable encryption decryption"@,
                    self.id@,
                    logs(b.points@),
                    b.commitment_logs(),
                )
            },
            r.is_ok() == linear_room(self.id@, 3, 3),
            r matches Err(e) ==> e == Error::InvalidPresentationData,
    {
        let secrets = vec![message, Scalar::random(rng)];
        let zero = G1Point::identity();
        let c1 = combine(&zero, &self.message_generator, &secrets);
        let c2 = combine(&self.message_generator, &self.encryption_key, &secrets);
        let c3 = combine(&zero, &self.issuer_key, &secrets);
        let points = vec![c1, c2, c3];
        match self.relations(&points) {
            Err(e) => Err(e),
            Ok(relations) => {
                let blinders = vec![blinder, Scalar::random(rng)];
                let builder = LinearBuilder {
                    id: self.id.clone(),
                    points,
                    relations,
                    width: 2,
                    blinders,
                    secrets,
                };
                proof {
                    let s = values(builder.secrets@);
                    assert(slice(s, 0, 2) =~= s);
                    assert(views(builder.relations@)[0].holds(s));
                    assert(views(builder.relations@).len() == 1);
                    assert(builder.relations.len() == 1);
                    assert(system_holds(views(builder.relations@), 2, s));
                    assert(equations(views(builder.relations@), 0) == 0);
                    assert(equations(views(builder.relations@), 1) == views(
                        builder.relations@,
                    )[0].rows.len());
                    assert(views(builder.relations@)[0].rows.len() == 3);
                    assert(builder.sound());
                }
                match builder.add_proof_contribution(
                    "verifiable encryption decryption",
                    transcript,
                ) {
                    Err(e) => Err(e),
                    Ok(_) => Ok(builder),
                }
            },
        }
    }
}

} // verus!
