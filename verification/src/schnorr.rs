//! Schnorr proofs of knowledge of the scalars of a sum of products.
//!
//! The prover commits to one random blinder per base, absorbs the sum of the
//! blinded bases into the transcript, and answers the challenge `c` with the
//! responses `b - c * s`. The verifier recovers the prover's commitment from
//! the responses, the challenge and the statement.

use vstd::prelude::*;
use merlin::Transcript;
use rand_core::OsRng;
use crate::algebra::{
    cong, dot, lemma_cancel, lemma_cong_add, lemma_cong_mod, lemma_cong_mul, lemma_cong_small,
    lemma_cong_sub, lemma_fadd, lemma_fmul, lemma_fsub,
};
use crate::error::Error;
use crate::field::{fadd, fmul, fsub, modulus, Scalar};
use crate::group::{common_len, Group, logs, sum_of_products, values};
use crate::transcript::{append_message, transcript_log};

verus! {

/// The response to challenge `c` for the secret `s` blinded by `b`.
pub open spec fn response(b: nat, c: nat, s: nat) -> nat {
    fsub(b, fmul(c, s))
}

/// The responses to challenge `c` for the secrets `ss` blinded by `bs`.
pub open spec fn responses(bs: Seq<nat>, c: nat, ss: Seq<nat>) -> Seq<nat> {
    Seq::new(bs.len(), |i: int| response(bs[i], c, ss[i]))
}

/// The logarithm of the sum of the bases, each taken as its scalar says.
pub open spec fn combination(bases: Seq<nat>, scalars: Seq<nat>) -> nat {
    dot(bases, scalars) % modulus()
}

/// The logarithm of the commitment that a verifier recovers from the
/// responses `rs`, the challenge `c` and the statement `k`.
pub open spec fn recovered(bases: Seq<nat>, rs: Seq<nat>, c: nat, k: nat) -> nat {
    fadd(combination(bases, rs), fmul(k, c))
}

/// One term of the Schnorr identity: the response taken with its base makes
/// up for the secret taken with the challenge.
proof fn lemma_response_term(p: nat, b: nat, c: nat, s: nat)
    ensures
        cong((p * response(b, c, s) + c * (p * s)) as int, (p * b) as int),
{
    let r = response(b, c, s);
    lemma_fmul(c, s);
    lemma_fsub(b, fmul(c, s));
    lemma_cong_sub(b as int, b as int, fmul(c, s) as int, (c * s) as int);
    lemma_cong_mul(p as int, p as int, r as int, b as int - (c * s) as int);
    lemma_cong_add(
        (p * r) as int,
        p as int * (b as int - (c * s) as int),
        (c * (p * s)) as int,
        (c * (p * s)) as int,
    );
    assert(p as int * (b as int - (c * s) as int) + (c * (p * s)) as int == (p * b) as int)
        by (nonlinear_arith);
}

/// The sum over the bases of the responses, and the challenge times the sum
/// over the bases of the secrets, make the sum over the bases of the blinders.
proof fn lemma_response_sum(p: Seq<nat>, b: Seq<nat>, s: Seq<nat>, c: nat)
    requires
        p.len() == b.len(),
        p.len() == s.len(),
    ensures
        cong((dot(p, responses(b, c, s)) + c * dot(p, s)) as int, dot(p, b) as int),
    decreases p.len(),
{
    let r = responses(b, c, s);
    if p.len() == 0 {
        assert(c * 0 == 0);
    } else {
        assert(r.drop_last() =~= responses(b.drop_last(), c, s.drop_last()));
        lemma_response_sum(p.drop_last(), b.drop_last(), s.drop_last(), c);
        lemma_response_term(p.last(), b.last(), c, s.last());
        let dr = dot(p.drop_last(), r.drop_last());
        let ds = dot(p.drop_last(), s.drop_last());
        let db = dot(p.drop_last(), b.drop_last());
        let tr = p.last() * r.last();
        let ts = p.last() * s.last();
        let tb = p.last() * b.last();
        lemma_cong_add((dr + c * ds) as int, db as int, (tr + c * ts) as int, tb as int);
        assert((dr + c * ds) + (tr + c * ts) == (dr + tr) + c * (ds + ts)) by (nonlinear_arith);
    }
}

/// A verifier who knows the statement recovers the prover's commitment:
/// for every choice of bases `p`, blinders `b`, secrets `s` and challenge `c`,
/// the responses taken with the bases, together with the statement taken with
/// the challenge, give the blinders taken with the bases.
pub proof fn lemma_schnorr(p: Seq<nat>, b: Seq<nat>, s: Seq<nat>, c: nat)
    requires
        p.len() == b.len(),
        p.len() == s.len(),
    ensures
        recovered(p, responses(b, c, s), c, combination(p, s)) == combination(p, b),
{
    let r = responses(b, c, s);
    let k = combination(p, s);
    lemma_response_sum(p, b, s, c);
    lemma_cong_mod(dot(p, r) as int);
    lemma_cong_mod(dot(p, s) as int);
    lemma_fmul(k, c);
    lemma_cong_mul(k as int, dot(p, s) as int, c as int, c as int);
    lemma_fadd(combination(p, r), fmul(k, c));
    lemma_cong_add(
        combination(p, r) as int,
        dot(p, r) as int,
        fmul(k, c) as int,
        dot(p, s) as int * c as int,
    );
    assert(dot(p, s) as int * c as int == (c * dot(p, s)) as int) by (nonlinear_arith);
    lemma_cong_mod(dot(p, b) as int);
    lemma_cong_small(recovered(p, r, c, k), combination(p, b));
}

/// Two secrets that share a blinder have one response to a challenge only
/// if the challenge takes both to one value. So proofs of two claims that
/// share a blinder show the claims to be equal, the challenge not being zero.
pub proof fn lemma_equal_responses(b: nat, c: nat, s: nat, t: nat)
    requires
        response(b, c, s) == response(b, c, t),
    ensures
        fmul(c, s) == fmul(c, t),
{
    let x = fmul(c, s);
    let y = fmul(c, t);
    lemma_fmul(c, s);
    lemma_fmul(c, t);
    lemma_fsub(b, x);
    lemma_fsub(b, y);
    lemma_cong_sub(b as int, b as int, b as int - x as int, b as int - y as int);
    lemma_cong_small(x, y);
}

/// Two secrets that share a blinder and have one response to a challenge
/// are equal, where the challenge has an inverse, as every field element
/// but zero has one.
pub proof fn lemma_equal_secrets(b: nat, c: nat, s: nat, t: nat, inverse: nat)
    requires
        response(b, c, s) == response(b, c, t),
        s < modulus(),
        t < modulus(),
        cong((inverse * c) as int, 1),
    ensures
        s == t,
{
    lemma_equal_responses(b, c, s, t);
    lemma_fmul(c, s);
    lemma_fmul(c, t);
    lemma_cancel(c, inverse, s, t);
}

/// The prover's side of a Schnorr proof: the bases and a blinder for each.
pub struct Committer<P: Group> {
    entries: Vec<(P, Scalar)>,
}

impl<P: Group> Committer<P> {
    /// The bases that were committed, in order.
    pub closed spec fn bases(&self) -> Seq<P> {
        self.entries@.map_values(|e: (P, Scalar)| e.0)
    }

    /// The blinders of the bases, in order.
    pub closed spec fn blinders(&self) -> Seq<nat> {
        self.entries@.map_values(|e: (P, Scalar)| e.1@)
    }

    /// The logarithm of the commitment: the bases taken with their blinders.
    pub open spec fn commitment_log(&self) -> nat {
        combination(logs(self.bases()), self.blinders())
    }

    /// A committer with no base.
    pub fn new() -> (r: Self)
        ensures
            r.bases() == Seq::<P>::empty(),
            r.blinders() == Seq::<nat>::empty(),
    {
        let r = Committer { entries: Vec::new() };
        assert(r.bases() =~= Seq::<P>::empty());
        assert(r.blinders() =~= Seq::<nat>::empty());
        r
    }

    /// Commits a base with a blinder that the caller chose.
    pub fn commit(&mut self, point: P, blinder: Scalar)
        ensures
            final(self).bases() == old(self).bases().push(point),
            final(self).blinders() == old(self).blinders().push(blinder@),
    {
        self.entries.push((point, blinder));
        assert(self.bases() =~= old(self).bases().push(point));
        assert(self.blinders() =~= old(self).blinders().push(blinder@));
    }

    /// Commits a base with a blinder drawn at random, and returns the blinder.
    pub fn commit_random(&mut self, point: P, rng: &mut OsRng) -> (blinder: Scalar)
        ensures
            final(self).bases() == old(self).bases().push(point),
            final(self).blinders() == old(self).blinders().push(blinder@),
    {
        let blinder = Scalar::random(rng);
        self.commit(point, blinder);
        blinder
    }

    /// The commitment: the sum of the bases, each taken with its blinder.
    pub fn commitment(&self) -> (r: P)
        ensures
            r.log() == self.commitment_log(),
            r.valid(),
    {
        let mut points: Vec<P> = Vec::new();
        let mut blinders: Vec<Scalar> = Vec::new();
        let mut i: usize = 0;
        while i < self.entries.len()
            invariant
                i <= self.entries.len(),
                points@ == self.bases().take(i as int),
                values(blinders@) == self.blinders().take(i as int),
                blinders.len() == i,
            decreases self.entries.len() - i,
        {
            points.push(self.entries[i].0);
            blinders.push(self.entries[i].1);
            assert(points@ =~= self.bases().take(i + 1));
            assert(values(blinders@) =~= self.blinders().take(i + 1));
            i += 1;
        }
        assert(points@ =~= self.bases());
        assert(values(blinders@) =~= self.blinders());
        assert(points@.take(points@.len() as int) =~= points@);
        assert(blinders@.take(blinders@.len() as int) =~= blinders@);
        sum_of_products(&points, &blinders)
    }

    /// Absorbs the commitment into the transcript under a label.
    pub fn add_challenge_contribution(&self, label: &'static str, transcript: &mut Transcript)
        ensures
            transcript_log(*final(transcript)) == transcript_log(*old(transcript)).push(
                (label@, P::enc_of(self.commitment_log())),
            ),
    {
        let c = self.commitment();
        let bytes = c.encode();
        proof {
            P::lemma_enc(c);
        }
        append_message(transcript, label, bytes.as_slice());
    }

    /// The responses to a challenge, one for each secret. There must be one
    /// secret for each base.
    pub fn generate_proof(&self, challenge: &Scalar, secrets: &Vec<Scalar>) -> (r: Result<
        Vec<Scalar>,
        Error,
    >)
        ensures
            secrets.len() != self.bases().len() ==> r == Err::<Vec<Scalar>, Error>(
                Error::InvalidPresentationData,
            ),
            secrets.len() == self.bases().len() ==> r.is_ok() && values(r.unwrap()@) == responses(
                self.blinders(),
                challenge@,
                values(secrets@),
            ),
    {
        if secrets.len() != self.entries.len() {
            return Err(Error::InvalidPresentationData);
        }
        let mut out: Vec<Scalar> = Vec::new();
        let mut i: usize = 0;
        while i < secrets.len()
            invariant
                i <= secrets.len(),
                secrets.len() == self.entries.len(),
                out.len() == i,
                forall|j: int|
                    0 <= j < i ==> (#[trigger] out@[j])@ == response(
                        self.entries@[j].1@,
                        challenge@,
                        secrets@[j]@,
                    ),
            decreases secrets.len() - i,
        {
            let r = self.entries[i].1.sub(&challenge.mul(&secrets[i]));
            out.push(r);
            i += 1;
        }
        assert(values(out@) =~= responses(self.blinders(), challenge@, values(secrets@)));
        Ok(out)
    }
}

/// The commitment that a verifier recovers from the responses, the challenge
/// and the statement: the bases taken with the responses, and the statement
/// taken with the challenge. Where there are more bases than responses, or
/// more responses than bases, what is more is left out.
pub fn recover_commitment<P: Group>(
    bases: &Vec<P>,
    responses: &Vec<Scalar>,
    challenge: &Scalar,
    statement: &P,
) -> (r: P)
    ensures
        r.log() == recovered(
            logs(bases@.take(common_len(bases@.len(), responses@.len()))),
            values(responses@.take(common_len(bases@.len(), responses@.len()))),
            challenge@,
            statement.log(),
        ),
        r.valid(),
{
    let sum = sum_of_products(bases, responses);
    let term = statement.times(challenge);
    sum.plus(&term)
}

} // verus!
