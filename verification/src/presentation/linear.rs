//! Proofs made of several relations of one width.
//!
//! The proofs of commitments, encryptions, ranges and memberships all have
//! one form: some public points, and responses for the secrets of one or
//! more relations that the statement and the points determine. Relation
//! `j` of width `w` has the secrets from `j * w` up to `(j + 1) * w`.

use vstd::prelude::*;
use merlin::Transcript;
use crate::bytes::{append_string, string_bytes};
use crate::error::Error;
use crate::field::Scalar;
use crate::g1::G1Point;
use crate::group::{logs, values};
use crate::ps::keys::{append_points, encodings};
use crate::relation::{lemma_relation, Relation, RelationLogs};
use crate::schnorr::responses;
use crate::transcript::{absorb, Entry, transcript_log};

verus! {

/// The public points of a proof and the responses of its relations.
pub struct LinearProof {
    /// The name of the statement that is proved.
    pub id: String,
    /// The points that the prover publishes.
    pub points: Vec<G1Point>,
    /// The responses, relation after relation.
    pub responses: Vec<Scalar>,
}

/// The scalars from `start` on, `len` of them, or all that are left.
pub fn part(v: &Vec<Scalar>, start: usize, len: usize) -> (r: Vec<Scalar>)
    ensures
        start + len <= v.len() ==> r@ == v@.subrange(start as int, start + len),
        r.len() <= len,
{
    let mut out: Vec<Scalar> = Vec::new();
    let mut i: usize = 0;
    while i < len && start < v.len() && i < v.len() - start
        invariant
            i <= len,
            start + i <= v.len() || i == 0,
            out.len() == i,
            forall|k: int| 0 <= k < i ==> out[k] == v[start + k],
        decreases len - i,
    {
        out.push(v[start + i]);
        i += 1;
    }
    proof {
        if start + len <= v.len() {
            assert(out@ =~= v@.subrange(start as int, start + len));
        }
    }
    out
}

/// The relations as the logarithms of their points.
pub open spec fn views(relations: Seq<Relation>) -> Seq<RelationLogs> {
    relations.map_values(|r: Relation| r@)
}

/// Every relation has a row for each image and `width` bases in each row.
pub open spec fn system_shaped(relations: Seq<RelationLogs>, width: int) -> bool {
    forall|j: int| 0 <= j < relations.len() ==> (#[trigger] relations[j]).shaped(width)
}

/// The secrets of relation `j`.
pub open spec fn slice(s: Seq<nat>, j: int, width: int) -> Seq<nat> {
    s.subrange(j * width, (j + 1) * width)
}

/// The secrets satisfy every relation, each with its own.
pub open spec fn system_holds(relations: Seq<RelationLogs>, width: int, secrets: Seq<nat>) -> bool {
    forall|j: int|
        0 <= j < relations.len() ==> (#[trigger] relations[j]).holds(slice(secrets, j, width))
}

/// The logarithms of the random commitments of the first `k` relations.
pub open spec fn system_commitments(
    relations: Seq<RelationLogs>,
    width: int,
    blinders: Seq<nat>,
    k: int,
) -> Seq<nat>
    decreases k,
{
    if k <= 0 {
        Seq::empty()
    } else {
        system_commitments(relations, width, blinders, k - 1) + relations[k
            - 1].commitment_logs(slice(blinders, k - 1, width))
    }
}

/// The number of equations of the first `k` relations.
pub open spec fn equations(relations: Seq<RelationLogs>, k: int) -> nat
    decreases k,
{
    if k <= 0 {
        0
    } else {
        equations(relations, k - 1) + relations[k - 1].rows.len()
    }
}

/// There is a random commitment for each equation.
pub proof fn lemma_commitments_count(
    relations: Seq<RelationLogs>,
    width: int,
    blinders: Seq<nat>,
    k: int,
)
    ensures
        system_commitments(relations, width, blinders, k).len() == equations(relations, k),
    decreases k,
{
    if k > 0 {
        lemma_commitments_count(relations, width, blinders, k - 1);
    }
}

/// The logarithms of the random commitments that a verifier recovers for
/// the first `k` relations.
pub open spec fn system_recovered(
    relations: Seq<RelationLogs>,
    width: int,
    rs: Seq<nat>,
    c: nat,
    k: int,
) -> Seq<nat>
    decreases k,
{
    if k <= 0 {
        Seq::empty()
    } else {
        system_recovered(relations, width, rs, c, k - 1) + relations[k - 1].recovered_logs(
            slice(rs, k - 1, width),
            c,
        )
    }
}

/// The responses of relation `j` are the responses of its secrets.
proof fn lemma_slice_responses(b: Seq<nat>, c: nat, s: Seq<nat>, j: int, width: int)
    requires
        b.len() == s.len(),
        0 <= j,
        0 <= width,
        (j + 1) * width <= s.len(),
    ensures
        slice(responses(b, c, s), j, width) == responses(
            slice(b, j, width),
            c,
            slice(s, j, width),
        ),
{
    assert(j * width <= (j + 1) * width) by (nonlinear_arith)
        requires
            0 <= j,
            0 <= width,
    ;
    assert((j + 1) * width - j * width == width) by (nonlinear_arith);
    assert(slice(responses(b, c, s), j, width) =~= responses(
        slice(b, j, width),
        c,
        slice(s, j, width),
    ));
}

/// A verifier recovers the random commitments of a prover who knows
/// secrets that satisfy every relation.
pub proof fn lemma_system(
    relations: Seq<RelationLogs>,
    width: int,
    secrets: Seq<nat>,
    blinders: Seq<nat>,
    c: nat,
    k: int,
)
    requires
        0 <= width,
        0 <= k <= relations.len(),
        system_shaped(relations, width),
        system_holds(relations, width, secrets),
        secrets.len() == relations.len() * width,
        blinders.len() == secrets.len(),
    ensures
        system_recovered(relations, width, responses(blinders, c, secrets), c, k)
            == system_commitments(relations, width, blinders, k),
    decreases k,
{
    if k > 0 {
        lemma_system(relations, width, secrets, blinders, c, k - 1);
        let j = k - 1;
        assert((j + 1) * width <= relations.len() * width) by (nonlinear_arith)
            requires
                j + 1 <= relations.len(),
                0 <= width,
        ;
        assert(j * width <= (j + 1) * width) by (nonlinear_arith)
            requires
                0 <= j,
                0 <= width,
        ;
        assert((j + 1) * width - j * width == width) by (nonlinear_arith);
        lemma_slice_responses(blinders, c, secrets, j, width);
        assert(relations[j].shaped(width));
        assert(relations[j].holds(slice(secrets, j, width)));
        lemma_relation(relations[j], slice(secrets, j, width), slice(blinders, j, width), c);
    }
}

/// The random commitments of a prover, relation after relation. There must
/// be `width` blinders for each relation.
pub(crate) fn commit_system(
    relations: &Vec<Relation>,
    width: usize,
    blinders: &Vec<Scalar>,
) -> (r: Vec<G1Point>)
    requires
        system_shaped(views(relations@), width as int),
        blinders.len() == relations.len() * width,
    ensures
        logs(r@) == system_commitments(
            views(relations@),
            width as int,
            values(blinders@),
            relations.len() as int,
        ),
{
    let mut out: Vec<G1Point> = Vec::new();
    let mut j: usize = 0;
    assert(logs(out@) =~= system_commitments(
        views(relations@),
        width as int,
        values(blinders@),
        0,
    ));
    while j < relations.len()
        invariant
            j <= relations.len(),
            system_shaped(views(relations@), width as int),
            blinders.len() == relations.len() * width,
            logs(out@) == system_commitments(
                views(relations@),
                width as int,
                values(blinders@),
                j as int,
            ),
        decreases relations.len() - j,
    {
        proof {
            assert((j + 1) * width <= relations.len() * width) by (nonlinear_arith)
                requires
                    j + 1 <= relations.len(),
            ;
            assert(j * width + width == (j + 1) * width) by (nonlinear_arith);
        }
        let mine = part(blinders, j * width, width);
        proof {
            assert(views(relations@)[j as int] == relations[j as int]@);
            assert(relations[j as int]@.shaped(width as int));
            assert(values(mine@) =~= slice(values(blinders@), j as int, width as int));
        }
        let ghost before = logs(out@);
        let mut t = relations[j].commitments(&mine);
        let ghost added = logs(t@);
        out.append(&mut t);
        proof {
            assert(logs(out@) =~= before + added);
        }
        j += 1;
    }
    out
}

/// The random commitments that a verifier recovers, relation after
/// relation. There must be `width` responses for each relation.
pub(crate) fn recover_system(
    relations: &Vec<Relation>,
    width: usize,
    rs: &Vec<Scalar>,
    challenge: &Scalar,
) -> (r: Vec<G1Point>)
    requires
        system_shaped(views(relations@), width as int),
        rs.len() == relations.len() * width,
    ensures
        logs(r@) == system_recovered(
            views(relations@),
            width as int,
            values(rs@),
            challenge@,
            relations.len() as int,
        ),
{
    let mut out: Vec<G1Point> = Vec::new();
    let mut j: usize = 0;
    assert(logs(out@) =~= system_recovered(
        views(relations@),
        width as int,
        values(rs@),
        challenge@,
        0,
    ));
    while j < relations.len()
        invariant
            j <= relations.len(),
            system_shaped(views(relations@), width as int),
            rs.len() == relations.len() * width,
            logs(out@) == system_recovered(
                views(relations@),
                width as int,
                values(rs@),
                challenge@,
                j as int,
            ),
        decreases relations.len() - j,
    {
        proof {
            assert((j + 1) * width <= relations.len() * width) by (nonlinear_arith)
                requires
                    j + 1 <= relations.len(),
            ;
            assert(j * width + width == (j + 1) * width) by (nonlinear_arith);
        }
        let mine = part(rs, j * width, width);
        proof {
            assert(views(relations@)[j as int] == relations[j as int]@);
            assert(relations[j as int]@.shaped(width as int));
            assert(values(mine@) =~= slice(values(rs@), j as int, width as int));
        }
        let ghost before = logs(out@);
        let mut t = relations[j].recover(&mine, challenge);
        let ghost added = logs(t@);
        out.append(&mut t);
        proof {
            assert(logs(out@) =~= before + added);
        }
        j += 1;
    }
    out
}

/// What a proof of this form adds to a transcript: under the label of its
/// kind, the statement's name and the public points; then the random
/// commitments.
pub open spec fn linear_entries(
    label: Seq<char>,
    id: Seq<char>,
    points: Seq<nat>,
    commitments: Seq<nat>,
) -> Seq<Entry> {
    seq![
        (label, string_bytes(id) + encodings::<G1Point>(points)),
        ("random commitments"@, encodings::<G1Point>(commitments)),
    ]
}

/// Whether the entries of a proof of this form are no longer than a
/// transcript takes.
pub open spec fn linear_fits(id: Seq<char>, points: Seq<nat>, commitments: Seq<nat>) -> bool {
    &&& (string_bytes(id) + encodings::<G1Point>(points)).len() <= u32::MAX
    &&& encodings::<G1Point>(commitments).len() <= u32::MAX
}

/// Whether the entries of a proof of this form with so many points and so
/// many random commitments are no longer than a transcript takes.
pub open spec fn linear_room(id: Seq<char>, points: nat, commitments: nat) -> bool {
    &&& string_bytes(id).len() + 48 * points <= u32::MAX
    &&& 48 * commitments <= u32::MAX
}

/// Adds the entries of a proof of this form to a transcript, unless they
/// are longer than a transcript takes: then it is left as it is.
pub fn absorb_linear(
    transcript: &mut Transcript,
    label: &'static str,
    id: &String,
    points: &Vec<G1Point>,
    commitments: &Vec<G1Point>,
) -> (r: Result<(), Error>)
    ensures
        r.is_ok() == linear_fits(id@, logs(points@), logs(commitments@)),
        r.is_ok() == linear_room(id@, points.len() as nat, commitments.len() as nat),
        r is Ok ==> transcript_log(*final(transcript)) == transcript_log(*old(transcript))
            + linear_entries(label@, id@, logs(points@), logs(commitments@)),
        r matches Err(e) ==> e == Error::InvalidPresentationData && transcript_log(
            *final(transcript),
        ) == transcript_log(*old(transcript)),
{
    let mut first: Vec<u8> = Vec::new();
    append_string(&mut first, id);
    append_points(&mut first, points);
    let mut second: Vec<u8> = Vec::new();
    append_points(&mut second, commitments);
    proof {
        assert(first@ =~= string_bytes(id@) + encodings::<G1Point>(logs(points@)));
        assert(second@ =~= encodings::<G1Point>(logs(commitments@)));
    }
    if first.len() > 0xffff_ffff || second.len() > 0xffff_ffff {
        return Err(Error::InvalidPresentationData);
    }
    let a = absorb(transcript, label, &first);
    let b = absorb(transcript, "random commitments", &second);
    proof {
        assert(transcript_log(*transcript) =~= transcript_log(*old(transcript)) + linear_entries(
            label@,
            id@,
            logs(points@),
            logs(commitments@),
        ));
    }
    Ok(())
}

/// The prover's side of a proof of this form, before the challenge.
pub struct LinearBuilder {
    /// The name of the statement that is proved.
    pub id: String,
    /// The points that the prover publishes.
    pub points: Vec<G1Point>,
    /// The relations that the statement and the points determine.
    pub relations: Vec<Relation>,
    /// The number of secrets of each relation.
    pub width: usize,
    /// The blinders of the secrets.
    pub blinders: Vec<Scalar>,
    /// The secrets, relation after relation.
    pub secrets: Vec<Scalar>,
}

impl LinearBuilder {
    /// The builder holds `width` secrets and as many blinders for each
    /// relation, and the secrets satisfy the relations.
    pub open spec fn sound(&self) -> bool {
        &&& system_shaped(views(self.relations@), self.width as int)
        &&& self.secrets.len() == self.relations.len() * self.width
        &&& self.blinders.len() == self.secrets.len()
        &&& system_holds(views(self.relations@), self.width as int, values(self.secrets@))
    }

    /// The logarithms of the random commitments.
    pub open spec fn commitment_logs(&self) -> Seq<nat> {
        system_commitments(
            views(self.relations@),
            self.width as int,
            values(self.blinders@),
            self.relations.len() as int,
        )
    }

    /// Adds the proof's entries to the transcript under the label of its
    /// kind: the public points and the random commitments.
    pub(crate) fn add_proof_contribution(
        &self,
        label: &'static str,
        transcript: &mut Transcript,
    ) -> (r: Result<(), Error>)
        requires
            self.sound(),
        ensures
            r.is_ok() == linear_fits(self.id@, logs(self.points@), self.commitment_logs()),
            r.is_ok() == linear_room(
                self.id@,
                self.points.len() as nat,
                equations(views(self.relations@), self.relations.len() as int),
            ),
            r is Ok ==> transcript_log(*final(transcript)) == transcript_log(*old(transcript))
                + linear_entries(label@, self.id@, logs(self.points@), self.commitment_logs()),
            r matches Err(e) ==> e == Error::InvalidPresentationData && transcript_log(
                *final(transcript),
            ) == transcript_log(*old(transcript)),
    {
        let commitments = commit_system(&self.relations, self.width, &self.blinders);
        proof {
            lemma_commitments_count(
                views(self.relations@),
                self.width as int,
                values(self.blinders@),
                self.relations.len() as int,
            );
            assert(logs(commitments@).len() == commitments.len());
        }
        absorb_linear(transcript, label, &self.id, &self.points, &commitments)
    }

    /// Answers the challenge.
    pub fn generate_proof(&self, challenge: &Scalar) -> (r: LinearProof)
        ensures
            r.id@ == self.id@,
            r.points@ == self.points@,
            self.blinders.len() == self.secrets.len() ==> values(r.responses@) == responses(
                values(self.blinders@),
                challenge@,
                values(self.secrets@),
            ),
    {
        let mut points: Vec<G1Point> = Vec::new();
        let mut i: usize = 0;
        while i < self.points.len()
            invariant
                i <= self.points.len(),
                points@ == self.points@.take(i as int),
            decreases self.points.len() - i,
        {
            points.push(self.points[i]);
            assert(points@ =~= self.points@.take(i + 1));
            i += 1;
        }
        assert(points@ =~= self.points@);
        LinearProof {
            id: self.id.clone(),
            points,
            responses: crate::relation::respond(&self.blinders, challenge, &self.secrets),
        }
    }
}

impl LinearProof {
    /// The logarithms of the random commitments that the verifier recovers.
    pub open spec fn recovered_logs(&self, relations: Seq<RelationLogs>, width: int, c: nat) -> Seq<
        nat,
    > {
        system_recovered(relations, width, values(self.responses@), c, relations.len() as int)
    }

    /// What the proof adds to a transcript as the verifier sees it.
    pub open spec fn entries(
        &self,
        label: Seq<char>,
        relations: Seq<RelationLogs>,
        width: int,
        c: nat,
    ) -> Seq<Entry> {
        linear_entries(
            label,
            self.id@,
            logs(self.points@),
            self.recovered_logs(relations, width, c),
        )
    }

    /// There are `width` responses for each relation, and the proof's
    /// entries are no longer than a transcript takes.
    pub open spec fn fits(&self, relations: Seq<RelationLogs>, width: int, c: nat) -> bool {
        &&& self.responses.len() == relations.len() * width
        &&& linear_fits(self.id@, logs(self.points@), self.recovered_logs(relations, width, c))
    }

    /// Adds the proof's entries to the transcript as the verifier sees
    /// them, with the random commitments that the responses recover for
    /// the relations. There must be `width` responses for each relation.
    pub(crate) fn add_proof_contribution(
        &self,
        label: &'static str,
        relations: &Vec<Relation>,
        width: usize,
        challenge: &Scalar,
        transcript: &mut Transcript,
    ) -> (r: Result<(), Error>)
        requires
            system_shaped(views(relations@), width as int),
        ensures
            r.is_ok() == self.fits(views(relations@), width as int, challenge@),
            r is Ok ==> transcript_log(*final(transcript)) == transcript_log(*old(transcript))
                + self.entries(label@, views(relations@), width as int, challenge@),
            r matches Err(e) ==> e == Error::InvalidPresentationData,
    {
        if relations.len() > 0 && width > usize::MAX / relations.len() {
            proof {
                let n = relations.len() as int;
                let w = width as int;
                assert(w >= usize::MAX / (n as usize) + 1);
                vstd::arithmetic::div_mod::lemma_fundamental_div_mod(usize::MAX as int, n);
                assert(n * w >= n * (usize::MAX as int / n + 1)) by (nonlinear_arith)
                    requires
                        w >= usize::MAX as int / n + 1,
                        n > 0,
                ;
                assert(n * (usize::MAX as int / n + 1) == n * (usize::MAX as int / n) + n)
                    by (nonlinear_arith);
                vstd::arithmetic::div_mod::lemma_mod_bound(usize::MAX as int, n);
            }
            return Err(Error::InvalidPresentationData);
        }
        proof {
            if relations.len() > 0 {
                let n = relations.len() as int;
                let w = width as int;
                vstd::arithmetic::div_mod::lemma_fundamental_div_mod(usize::MAX as int, n);
                assert(n * w <= n * (usize::MAX as int / n)) by (nonlinear_arith)
                    requires
                        w <= usize::MAX as int / n,
                        n > 0,
                ;
                vstd::arithmetic::div_mod::lemma_mod_bound(usize::MAX as int, n);
            } else {
                assert(0 * width == 0);
            }
        }
        if self.responses.len() != relations.len() * width {
            return Err(Error::InvalidPresentationData);
        }
        let commitments = recover_system(relations, width, &self.responses, challenge);
        absorb_linear(transcript, label, &self.id, &self.points, &commitments)
    }
}

/// The verifier of a proof that a sound builder gives recovers the
/// builder's random commitments.
pub proof fn lemma_builder(b: LinearBuilder, c: nat)
    requires
        b.sound(),
    ensures
        system_recovered(
            views(b.relations@),
            b.width as int,
            responses(values(b.blinders@), c, values(b.secrets@)),
            c,
            b.relations.len() as int,
        ) == b.commitment_logs(),
{
    lemma_system(
        views(b.relations@),
        b.width as int,
        values(b.secrets@),
        values(b.blinders@),
        c,
        b.relations.len() as int,
    );
}

} // verus!
