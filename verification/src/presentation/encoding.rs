//! Presentations as bytes, and back.
//!
//! A presentation is written as its challenge, its proofs and its disclosed
//! claims. Every proof is written in one form: the number of its kind, its
//! name, its points of the first group, its points of the second group, and
//! its scalars. A proof of knowledge of a signature has two points of the
//! first group and one of the second; an equality proof has none; the
//! others have none of the second group.

use vstd::prelude::*;
use crate::codec::{Codec, Count, models};
use crate::error::Error;
use crate::field::{modulus, Scalar};
use crate::g1::G1Point;
use crate::g2::G2Point;
use crate::presentation::claim::ClaimData;
use crate::presentation::linear::LinearProof;
use crate::presentation::parts::{
    DisclosedClaim, DisclosedMessages, EqualityProof, Presentation, SignatureProof, SubProof,
};
use crate::ps::pok::PokSignatureProof;

verus! {

/// A claim as it is written: the number of its kind and its value.
pub type ClaimModel = (nat, nat);

/// Whether the kind of a claim is one of the two and the value one of the kind.
pub open spec fn claim_shaped(m: ClaimModel) -> bool {
    (m.0 == 0 && m.1 <= u64::MAX) || (m.0 == 1 && m.1 < modulus())
}

impl Codec for ClaimData {
    type Model = ClaimModel;

    open spec fn model(&self) -> ClaimModel {
        match self {
            ClaimData::Number(n) => (0nat, *n as nat),
            ClaimData::Scalar(s) => (1nat, s@),
        }
    }

    open spec fn valid(m: ClaimModel) -> bool {
        <(Count, Scalar) as Codec>::valid(m) && claim_shaped(m)
    }

    open spec fn encode(m: ClaimModel) -> Seq<u8> {
        <(Count, Scalar) as Codec>::encode(m)
    }

    open spec fn decode(bytes: Seq<u8>) -> Option<(ClaimModel, int)> {
        match <(Count, Scalar) as Codec>::decode(bytes) {
            Some(found) => if claim_shaped(found.0) {
                Some(found)
            } else {
                None
            },
            None => None,
        }
    }

    proof fn lemma_round_trip(m: ClaimModel, rest: Seq<u8>) {
        <(Count, Scalar) as Codec>::lemma_round_trip(m, rest);
    }

    proof fn lemma_decode_bounds(bytes: Seq<u8>) {
        <(Count, Scalar) as Codec>::lemma_decode_bounds(bytes);
    }

    fn write(&self, out: &mut Vec<u8>) {
        match self {
            ClaimData::Number(n) => {
                (Count { n: 0 }).write(out);
                Scalar::from_u64(*n).write(out);
            },
            ClaimData::Scalar(s) => {
                (Count { n: 1 }).write(out);
                s.write(out);
            },
        }
        assert(out@ =~= old(out)@ + Self::encode(self.model()));
    }

    fn read(bytes: &[u8], pos: usize) -> (r: Option<(Self, usize)>) {
        match <(Count, Scalar) as Codec>::read(bytes, pos) {
            None => None,
            Some(found) => {
                let kind = found.0.0.n;
                let value = found.0.1;
                proof {
                    use_type_invariant(&value);
                    value.lemma_bound();
                }
                if kind == 0 {
                    match value.to_u64() {
                        Some(n) => Some((ClaimData::Number(n), found.1)),
                        None => None,
                    }
                } else if kind == 1 {
                    Some((ClaimData::Scalar(value), found.1))
                } else {
                    None
                }
            },
        }
    }
}

impl Codec for DisclosedClaim {
    type Model = (Seq<char>, ClaimModel);

    open spec fn model(&self) -> (Seq<char>, ClaimModel) {
        (self.label@, self.claim.model())
    }

    open spec fn valid(m: (Seq<char>, ClaimModel)) -> bool {
        <(String, ClaimData) as Codec>::valid(m)
    }

    open spec fn encode(m: (Seq<char>, ClaimModel)) -> Seq<u8> {
        <(String, ClaimData) as Codec>::encode(m)
    }

    open spec fn decode(bytes: Seq<u8>) -> Option<((Seq<char>, ClaimModel), int)> {
        <(String, ClaimData) as Codec>::decode(bytes)
    }

    proof fn lemma_round_trip(m: (Seq<char>, ClaimModel), rest: Seq<u8>) {
        <(String, ClaimData) as Codec>::lemma_round_trip(m, rest);
    }

    proof fn lemma_decode_bounds(bytes: Seq<u8>) {
        <(String, ClaimData) as Codec>::lemma_decode_bounds(bytes);
    }

    fn write(&self, out: &mut Vec<u8>) {
        self.label.write(out);
        self.claim.write(out);
        assert(out@ =~= old(out)@ + Self::encode(self.model()));
    }

    fn read(bytes: &[u8], pos: usize) -> (r: Option<(Self, usize)>) {
        match <(String, ClaimData) as Codec>::read(bytes, pos) {
            None => None,
            Some(found) => {
                let (label, claim) = found.0;
                Some((DisclosedClaim { label, claim }, found.1))
            },
        }
    }
}

/// The disclosed claims of a credential as they are written.
pub type DisclosedModel = (Seq<char>, Seq<(Seq<char>, ClaimModel)>);

impl Codec for DisclosedMessages {
    type Model = DisclosedModel;

    open spec fn model(&self) -> DisclosedModel {
        (self.id@, models(self.claims@))
    }

    open spec fn valid(m: DisclosedModel) -> bool {
        <(String, Vec<DisclosedClaim>) as Codec>::valid(m)
    }

    open spec fn encode(m: DisclosedModel) -> Seq<u8> {
        <(String, Vec<DisclosedClaim>) as Codec>::encode(m)
    }

    open spec fn decode(bytes: Seq<u8>) -> Option<(DisclosedModel, int)> {
        <(String, Vec<DisclosedClaim>) as Codec>::decode(bytes)
    }

    proof fn lemma_round_trip(m: DisclosedModel, rest: Seq<u8>) {
        <(String, Vec<DisclosedClaim>) as Codec>::lemma_round_trip(m, rest);
    }

    proof fn lemma_decode_bounds(bytes: Seq<u8>) {
        <(String, Vec<DisclosedClaim>) as Codec>::lemma_decode_bounds(bytes);
    }

    fn write(&self, out: &mut Vec<u8>) {
        self.id.write(out);
        self.claims.write(out);
        assert(out@ =~= old(out)@ + Self::encode(self.model()));
    }

    fn read(bytes: &[u8], pos: usize) -> (r: Option<(Self, usize)>) {
        match <(String, Vec<DisclosedClaim>) as Codec>::read(bytes, pos) {
            None => None,
            Some(found) => {
                let (id, claims) = found.0;
                Some((DisclosedMessages { id, claims }, found.1))
            },
        }
    }
}

/// A proof as it is read, before its kind is looked at.
pub type Wire = (Count, (String, (Vec<G1Point>, (Vec<G2Point>, Vec<Scalar>))));

/// A proof as it is written: the number of its kind, its name, its points
/// of the first group, its points of the second group, and its scalars.
pub type ProofModel = (nat, (Seq<char>, (Seq<Seq<u8>>, (Seq<Seq<u8>>, Seq<nat>))));

/// Whether a proof has the points that its kind has.
pub open spec fn proof_shaped(m: ProofModel) -> bool {
    let kind = m.0;
    let firsts = m.1.1.0.len();
    let seconds = m.1.1.1.0.len();
    let scalars = m.1.1.1.1.len();
    &&& kind <= 7
    &&& kind == 0 ==> firsts == 2 && seconds == 1
    &&& kind == 1 ==> firsts == 0 && seconds == 0 && scalars == 0
    &&& kind >= 2 ==> seconds == 0
}

impl SubProof {
    /// The points of the first group that the proof is written with.
    pub open spec fn firsts(&self) -> Seq<G1Point> {
        match self {
            SubProof::Signature(p) => seq![p.pok.sigma_1, p.pok.sigma_2],
            SubProof::Equality(_) => Seq::empty(),
            SubProof::Commitment(p) => p.points@,
            SubProof::VerifiableEncryption(p) => p.points@,
            SubProof::VerifiableEncryptionDecryption(p) => p.points@,
            SubProof::Range(p) => p.points@,
            SubProof::Membership(p) => p.points@,
            SubProof::Revocation(p) => p.points@,
        }
    }

    /// The points of the second group that the proof is written with.
    pub open spec fn seconds(&self) -> Seq<G2Point> {
        match self {
            SubProof::Signature(p) => seq![p.pok.commitment],
            _ => Seq::empty(),
        }
    }

    /// The scalars that the proof is written with.
    pub open spec fn scalars(&self) -> Seq<Scalar> {
        match self {
            SubProof::Signature(p) => p.pok.proof@,
            SubProof::Equality(_) => Seq::empty(),
            SubProof::Commitment(p) => p.responses@,
            SubProof::VerifiableEncryption(p) => p.responses@,
            SubProof::VerifiableEncryptionDecryption(p) => p.responses@,
            SubProof::Range(p) => p.responses@,
            SubProof::Membership(p) => p.responses@,
            SubProof::Revocation(p) => p.responses@,
        }
    }

    /// The proof of the given kind and name with the given points and
    /// scalars, if the kind has such points.
    fn assemble(
        kind: usize,
        id: String,
        firsts: Vec<G1Point>,
        seconds: Vec<G2Point>,
        scalars: Vec<Scalar>,
    ) -> (r: Option<SubProof>)
        ensures
            r.is_some() == proof_shaped(
                (
                    kind as nat,
                    (id@, (models(firsts@), (models(seconds@), models(scalars@)))),
                ),
            ),
            r matches Some(p) ==> p.model() == (
                kind as nat,
                (id@, (models(firsts@), (models(seconds@), models(scalars@)))),
            ),
    {
        if kind == 0 {
            if firsts.len() != 2 || seconds.len() != 1 {
                return None;
            }
            let p = SubProof::Signature(
                SignatureProof {
                    id,
                    pok: PokSignatureProof {
                        sigma_1: firsts[0],
                        sigma_2: firsts[1],
                        commitment: seconds[0],
                        proof: scalars,
                    },
                },
            );
            proof {
                assert(models(p.firsts()) =~= models(firsts@));
                assert(models(p.seconds()) =~= models(seconds@));
            }
            Some(p)
        } else if kind == 1 {
            if firsts.len() != 0 || seconds.len() != 0 || scalars.len() != 0 {
                return None;
            }
            let p = SubProof::Equality(EqualityProof { id });
            proof {
                assert(models(p.firsts()) =~= models(firsts@));
                assert(models(p.seconds()) =~= models(seconds@));
                assert(models(p.scalars()) =~= models(scalars@));
            }
            Some(p)
        } else if kind <= 7 {
            if seconds.len() != 0 {
                return None;
            }
            let inner = LinearProof { id, points: firsts, responses: scalars };
            let p = if kind == 2 {
                SubProof::Commitment(inner)
            } else if kind == 3 {
                SubProof::VerifiableEncryption(inner)
            } else if kind == 4 {
                SubProof::VerifiableEncryptionDecryption(inner)
            } else if kind == 5 {
                SubProof::Range(inner)
            } else if kind == 6 {
                SubProof::Membership(inner)
            } else {
                SubProof::Revocation(inner)
            };
            proof {
                assert(models(p.seconds()) =~= models(seconds@));
            }
            Some(p)
        } else {
            None
        }
    }
}

/// Appends the bytes of a proof of the given kind and name with the given
/// points and scalars.
fn write_parts(
    kind: usize,
    id: &String,
    firsts: &Vec<G1Point>,
    seconds: &Vec<G2Point>,
    scalars: &Vec<Scalar>,
    out: &mut Vec<u8>,
)
    ensures
        final(out)@ == old(out)@ + <Wire as Codec>::encode(
            (kind as nat, (id@, (models(firsts@), (models(seconds@), models(scalars@))))),
        ),
{
    (Count { n: kind }).write(out);
    id.write(out);
    firsts.write(out);
    seconds.write(out);
    scalars.write(out);
    assert(out@ =~= old(out)@ + <Wire as Codec>::encode(
        (kind as nat, (id@, (models(firsts@), (models(seconds@), models(scalars@))))),
    ));
}

impl Codec for SubProof {
    type Model = ProofModel;

    open spec fn model(&self) -> ProofModel {
        (
            self.kind() as nat,
            (
                self.name(),
                (models(self.firsts()), (models(self.seconds()), models(self.scalars()))),
            ),
        )
    }

    open spec fn valid(m: ProofModel) -> bool {
        <Wire as Codec>::valid(m) && proof_shaped(m)
    }

    open spec fn encode(m: ProofModel) -> Seq<u8> {
        <Wire as Codec>::encode(m)
    }

    open spec fn decode(bytes: Seq<u8>) -> Option<(ProofModel, int)> {
        match <Wire as Codec>::decode(bytes) {
            Some(found) => if proof_shaped(found.0) {
                Some(found)
            } else {
                None
            },
            None => None,
        }
    }

    proof fn lemma_round_trip(m: ProofModel, rest: Seq<u8>) {
        <Wire as Codec>::lemma_round_trip(m, rest);
    }

    proof fn lemma_decode_bounds(bytes: Seq<u8>) {
        <Wire as Codec>::lemma_decode_bounds(bytes);
    }

    fn write(&self, out: &mut Vec<u8>) {
        let none: Vec<G2Point> = Vec::new();
        assert(none@ =~= Seq::<G2Point>::empty());
        match self {
            SubProof::Signature(p) => {
                let firsts = vec![p.pok.sigma_1, p.pok.sigma_2];
                let seconds = vec![p.pok.commitment];
                proof {
                    assert(firsts@ =~= self.firsts());
                    assert(seconds@ =~= self.seconds());
                }
                write_parts(0, &p.id, &firsts, &seconds, &p.pok.proof, out);
            },
            SubProof::Equality(p) => {
                let firsts: Vec<G1Point> = Vec::new();
                let scalars: Vec<Scalar> = Vec::new();
                proof {
                    assert(firsts@ =~= self.firsts());
                    assert(scalars@ =~= self.scalars());
                }
                write_parts(1, &p.id, &firsts, &none, &scalars, out);
            },
            SubProof::Commitment(p) => write_parts(2, &p.id, &p.points, &none, &p.responses, out),
            SubProof::VerifiableEncryption(p) => write_parts(
                3,
                &p.id,
                &p.points,
                &none,
                &p.responses,
                out,
            ),
            SubProof::VerifiableEncryptionDecryption(p) => write_parts(
                4,
                &p.id,
                &p.points,
                &none,
                &p.responses,
                out,
            ),
            SubProof::Range(p) => write_parts(5, &p.id, &p.points, &none, &p.responses, out),
            SubProof::Membership(p) => write_parts(6, &p.id, &p.points, &none, &p.responses, out),
            SubProof::Revocation(p) => write_parts(7, &p.id, &p.points, &none, &p.responses, out),
        }
    }

    fn read(bytes: &[u8], pos: usize) -> (r: Option<(Self, usize)>) {
        match <Wire as Codec>::read(bytes, pos) {
            None => None,
            Some(found) => {
                let (kind, (id, (firsts, (seconds, scalars)))) = found.0;
                match SubProof::assemble(kind.n, id, firsts, seconds, scalars) {
                    Some(p) => Some((p, found.1)),
                    None => None,
                }
            },
        }
    }
}

/// A presentation as it is written: its challenge, its proofs, and its
/// disclosed claims.
pub type PresentationModel = (nat, (Seq<ProofModel>, Seq<DisclosedModel>));

/// A presentation as it is read.
pub type PresentationWire = (Scalar, (Vec<SubProof>, Vec<DisclosedMessages>));

impl Presentation {
    /// What the presentation stands for.
    pub open spec fn model(&self) -> PresentationModel {
        (self.challenge@, (models(self.proofs@), models(self.disclosed_messages@)))
    }

    /// The presentation can be written: its scalars are field elements,
    /// its points are points, and its proofs have the points of their kinds.
    pub open spec fn writable(&self) -> bool {
        <PresentationWire as Codec>::valid(self.model())
    }

    /// The presentation's bytes.
    pub open spec fn encoding(&self) -> Seq<u8> {
        <PresentationWire as Codec>::encode(self.model())
    }

    /// The presentation that the bytes are those of, if they are those of
    /// one and nothing follows them.
    pub open spec fn decoding(bytes: Seq<u8>) -> Option<PresentationModel> {
        match <PresentationWire as Codec>::decode(bytes) {
            Some(found) => if found.1 == bytes.len() {
                Some(found.0)
            } else {
                None
            },
            None => None,
        }
    }

    /// The presentation's bytes, which are read back as the presentation.
    pub fn to_bytes(&self) -> (r: Vec<u8>)
        ensures
            r@ == self.encoding(),
            self.writable(),
            Self::decoding(r@) == Some(self.model()),
    {
        let mut out: Vec<u8> = Vec::new();
        self.challenge.write(&mut out);
        self.proofs.write(&mut out);
        self.disclosed_messages.write(&mut out);
        assert(out@ =~= self.encoding());
        self.attest();
        proof {
            lemma_presentation_round_trip(*self);
        }
        out
    }

    /// Walks through the presentation to note that it can be written.
    fn attest(&self)
        ensures
            self.writable(),
    {
        proof {
            use_type_invariant(&self.challenge);
            self.challenge.lemma_bound();
        }
        let mut i: usize = 0;
        while i < self.proofs.len()
            invariant
                i <= self.proofs.len(),
                forall|j: int|
                    0 <= j < i ==> <SubProof as Codec>::valid(
                        (#[trigger] self.proofs[j]).model(),
                    ),
            decreases self.proofs.len() - i,
        {
            attest_proof(&self.proofs[i]);
            i += 1;
        }
        let mut i: usize = 0;
        while i < self.disclosed_messages.len()
            invariant
                i <= self.disclosed_messages.len(),
                forall|j: int|
                    0 <= j < i ==> <DisclosedMessages as Codec>::valid(
                        (#[trigger] self.disclosed_messages[j]).model(),
                    ),
            decreases self.disclosed_messages.len() - i,
        {
            attest_disclosed(&self.disclosed_messages[i]);
            i += 1;
        }
        proof {
            let ps = models(self.proofs@);
            let ds = models(self.disclosed_messages@);
            assert forall|j: int| 0 <= j < ps.len() implies <SubProof as Codec>::valid(
                #[trigger] ps[j],
            ) by {
                assert(ps[j] == self.proofs[j].model());
            }
            assert forall|j: int| 0 <= j < ds.len() implies <DisclosedMessages as Codec>::valid(
                #[trigger] ds[j],
            ) by {
                assert(ds[j] == self.disclosed_messages[j].model());
            }
        }
    }

    /// The presentation that the bytes are those of, if they are those of
    /// one and nothing follows them.
    pub fn from_bytes(bytes: &[u8]) -> (r: Result<Presentation, Error>)
        ensures
            r.is_ok() == Self::decoding(bytes@).is_some(),
            r matches Ok(p) ==> Some(p.model()) == Self::decoding(bytes@),
            r matches Err(e) ==> e == Error::InvalidEncoding,
    {
        assert(bytes@.skip(0) =~= bytes@);
        match <PresentationWire as Codec>::read(bytes, 0) {
            None => Err(Error::InvalidEncoding),
            Some(found) => {
                if found.1 != bytes.len() {
                    return Err(Error::InvalidEncoding);
                }
                let (challenge, (proofs, disclosed_messages)) = found.0;
                Ok(Presentation { proofs, challenge, disclosed_messages })
            },
        }
    }
}

/// The bytes of a presentation are read back as the presentation.
pub proof fn lemma_presentation_round_trip(p: Presentation)
    requires
        p.writable(),
    ensures
        Presentation::decoding(p.encoding()) == Some(p.model()),
{
    <PresentationWire as Codec>::lemma_round_trip(p.model(), Seq::empty());
    assert(p.encoding() + Seq::<u8>::empty() =~= p.encoding());
}

/// Walks through scalars to note that they are field elements.
fn attest_scalars(v: &Vec<Scalar>)
    ensures
        <Vec<Scalar> as Codec>::valid(models(v@)),
{
    let mut i: usize = 0;
    while i < v.len()
        invariant
            i <= v.len(),
            forall|j: int| 0 <= j < i ==> (#[trigger] v[j])@ < modulus(),
        decreases v.len() - i,
    {
        let s = &v[i];
        proof {
            use_type_invariant(s);
            s.lemma_bound();
        }
        i += 1;
    }
    assert forall|j: int| 0 <= j < models(v@).len() implies <Scalar as Codec>::valid(
        #[trigger] models(v@)[j],
    ) by {
        assert(models(v@)[j] == v[j]@);
    }
}

/// Walks through points of the first group to note that they are points.
fn attest_firsts(v: &Vec<G1Point>)
    ensures
        <Vec<G1Point> as Codec>::valid(models(v@)),
{
    let mut i: usize = 0;
    while i < v.len()
        invariant
            i <= v.len(),
            forall|j: int| 0 <= j < i ==> <G1Point as Codec>::valid((#[trigger] v[j]).model()),
        decreases v.len() - i,
    {
        let p = &v[i];
        proof {
            use_type_invariant(p);
            p.lemma_log();
        }
        i += 1;
    }
    assert forall|j: int| 0 <= j < models(v@).len() implies <G1Point as Codec>::valid(
        #[trigger] models(v@)[j],
    ) by {
        assert(models(v@)[j] == v[j].model());
    }
}

/// Notes that a string can be written.
fn attest_string(s: &String)
    ensures
        <String as Codec>::valid(s@),
{
    let bytes = s.as_str().as_bytes();
    let n = bytes.len();
}

/// Walks through a proof to note that it can be written.
fn attest_proof(p: &SubProof)
    ensures
        <SubProof as Codec>::valid(p.model()),
{
    let none: Vec<G2Point> = Vec::new();
    match p {
        SubProof::Signature(sp) => {
            attest_string(&sp.id);
            attest_scalars(&sp.pok.proof);
            proof {
                use_type_invariant(&sp.pok.sigma_1);
                use_type_invariant(&sp.pok.sigma_2);
                use_type_invariant(&sp.pok.commitment);
                sp.pok.sigma_1.lemma_log();
                sp.pok.sigma_2.lemma_log();
                sp.pok.commitment.lemma_log();
            }
        },
        SubProof::Equality(ep) => {
            attest_string(&ep.id);
        },
        SubProof::Commitment(lp) => {
            attest_string(&lp.id);
            attest_firsts(&lp.points);
            attest_scalars(&lp.responses);
        },
        SubProof::VerifiableEncryption(lp) => {
            attest_string(&lp.id);
            attest_firsts(&lp.points);
            attest_scalars(&lp.responses);
        },
        SubProof::VerifiableEncryptionDecryption(lp) => {
            attest_string(&lp.id);
            attest_firsts(&lp.points);
            attest_scalars(&lp.responses);
        },
        SubProof::Range(lp) => {
            attest_string(&lp.id);
            attest_firsts(&lp.points);
            attest_scalars(&lp.responses);
        },
        SubProof::Membership(lp) => {
            attest_string(&lp.id);
            attest_firsts(&lp.points);
            attest_scalars(&lp.responses);
        },
        SubProof::Revocation(lp) => {
            attest_string(&lp.id);
            attest_firsts(&lp.points);
            attest_scalars(&lp.responses);
        },
    }
}

/// Walks through disclosed claims to note that they can be written.
fn attest_disclosed(d: &DisclosedMessages)
    ensures
        <DisclosedMessages as Codec>::valid(d.model()),
{
    attest_string(&d.id);
    let mut i: usize = 0;
    while i < d.claims.len()
        invariant
            i <= d.claims.len(),
            forall|j: int|
                0 <= j < i ==> <DisclosedClaim as Codec>::valid((#[trigger] d.claims[j]).model()),
        decreases d.claims.len() - i,
    {
        attest_string(&d.claims[i].label);
        match &d.claims[i].claim {
            ClaimData::Number(_) => {},
            ClaimData::Scalar(s) => {
                proof {
                    use_type_invariant(s);
                    s.lemma_bound();
                }
            },
        }
        proof {
            crate::codec::lemma_modulus_fits();
        }
        i += 1;
    }
    assert forall|j: int| 0 <= j < models(d.claims@).len() implies <DisclosedClaim as Codec>::valid(
        #[trigger] models(d.claims@)[j],
    ) by {
        assert(models(d.claims@)[j] == d.claims[j].model());
    }
}

} // verus!
