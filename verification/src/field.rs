//! The scalar field of BLS12-381.

use vstd::prelude::*;
use rand_core::OsRng;

verus! {

/// The prime order of the scalar field, which is also the order of the three groups.
pub open spec fn modulus() -> nat {
    0x73eda753299d7d483339d80809a1d80553bda402fffe5bfeffffffff00000001nat
}

/// Sum in the field.
pub open spec fn fadd(a: nat, b: nat) -> nat {
    (a + b) % modulus()
}

/// Difference in the field.
pub open spec fn fsub(a: nat, b: nat) -> nat {
    ((a as int - b as int) % (modulus() as int)) as nat
}

/// Product in the field.
pub open spec fn fmul(a: nat, b: nat) -> nat {
    (a * b) % modulus()
}

/// The number that a little-endian string of bytes stands for.
pub open spec fn le_value(bytes: Seq<u8>) -> nat
    decreases bytes.len(),
{
    if bytes.len() == 0 {
        0
    } else {
        bytes[0] as nat + 256 * le_value(bytes.skip(1))
    }
}

/// The `len` low bytes of `v`, most significant first.
pub open spec fn be_bytes(v: nat, len: nat) -> Seq<u8>
    decreases len,
{
    if len == 0 {
        Seq::empty()
    } else {
        be_bytes(v / 256, (len - 1) as nat).push((v % 256) as u8)
    }
}

/// The number that four 64-bit limbs stand for, least significant first.
pub open spec fn limbs_value(limbs: Seq<u64>) -> nat {
    (limbs[0] as nat) + 0x1_0000_0000_0000_0000nat * ((limbs[1] as nat)
        + 0x1_0000_0000_0000_0000nat * ((limbs[2] as nat) + 0x1_0000_0000_0000_0000nat * (
    limbs[3] as nat)))
}

/// A digit and the rest are determined by the number they make.
proof fn lemma_digit_unique(a: nat, x: nat, b: nat, y: nat)
    requires
        a < 0x1_0000_0000_0000_0000nat,
        b < 0x1_0000_0000_0000_0000nat,
        a + 0x1_0000_0000_0000_0000nat * x == b + 0x1_0000_0000_0000_0000nat * y,
    ensures
        a == b,
        x == y,
{
    if x < y {
        assert(0x1_0000_0000_0000_0000nat * y >= 0x1_0000_0000_0000_0000nat * x
            + 0x1_0000_0000_0000_0000nat) by (nonlinear_arith)
            requires
                x < y,
        ;
    } else if y < x {
        assert(0x1_0000_0000_0000_0000nat * x >= 0x1_0000_0000_0000_0000nat * y
            + 0x1_0000_0000_0000_0000nat) by (nonlinear_arith)
            requires
                y < x,
        ;
    }
}

/// Four limbs are determined by the number they stand for.
pub proof fn lemma_limbs_unique(a: Seq<u64>, b: Seq<u64>)
    requires
        limbs_value(a) == limbs_value(b),
    ensures
        a[0] == b[0],
        a[1] == b[1],
        a[2] == b[2],
        a[3] == b[3],
{
    let base = 0x1_0000_0000_0000_0000nat;
    let a2 = (a[2] as nat) + base * (a[3] as nat);
    let b2 = (b[2] as nat) + base * (b[3] as nat);
    let a1 = (a[1] as nat) + base * a2;
    let b1 = (b[1] as nat) + base * b2;
    lemma_digit_unique(a[0] as nat, a1, b[0] as nat, b1);
    lemma_digit_unique(a[1] as nat, a2, b[1] as nat, b2);
    lemma_digit_unique(a[2] as nat, a[3] as nat, b[2] as nat, b[3] as nat);
}

/// An element of the scalar field, held as its canonical representative.
#[derive(Clone, Copy, Debug)]
pub struct Scalar {
    pub(crate) limbs: [u64; 4],
}

impl View for Scalar {
    type V = nat;

    closed spec fn view(&self) -> nat {
        limbs_value(self.limbs@)
    }
}

impl Scalar {
    /// The representative is below the modulus.
    #[verifier::type_invariant]
    pub closed spec fn wf(&self) -> bool {
        limbs_value(self.limbs@) < modulus()
    }

    /// A well-formed scalar's value is a field element.
    pub proof fn lemma_bound(self)
        requires
            self.wf(),
        ensures
            self@ < modulus(),
    {
    }

    /// The scalar that stands for a small number.
    pub fn from_u64(v: u64) -> (r: Scalar)
        ensures
            r@ == v,
            r.wf(),
    {
        Scalar { limbs: [v, 0, 0, 0] }
    }

    /// Whether two scalars are the same field element.
    pub fn eq(&self, other: &Scalar) -> (r: bool)
        ensures
            r == (self@ == other@),
    {
        proof {
            if self@ == other@ {
                lemma_limbs_unique(self.limbs@, other.limbs@);
            }
        }
        self.limbs[0] == other.limbs[0] && self.limbs[1] == other.limbs[1]
            && self.limbs[2] == other.limbs[2] && self.limbs[3] == other.limbs[3]
    }

    /// Whether the scalar is zero.
    pub fn is_zero(&self) -> (r: bool)
        ensures
            r == (self@ == 0),
    {
        proof {
            if self@ == 0 {
                lemma_limbs_unique(self.limbs@, seq![0u64, 0u64, 0u64, 0u64]);
            }
        }
        self.limbs[0] == 0 && self.limbs[1] == 0 && self.limbs[2] == 0 && self.limbs[3] == 0
    }

    /// The sum of two scalars.
    pub fn add(&self, other: &Scalar) -> (r: Scalar)
        ensures
            r@ == fadd(self@, other@),
            r.wf(),
    {
        proof {
            use_type_invariant(self);
            use_type_invariant(other);
        }
        scalar_add(self, other)
    }

    /// The difference of two scalars.
    pub fn sub(&self, other: &Scalar) -> (r: Scalar)
        ensures
            r@ == fsub(self@, other@),
            r.wf(),
    {
        proof {
            use_type_invariant(self);
            use_type_invariant(other);
        }
        scalar_sub(self, other)
    }

    /// The product of two scalars.
    pub fn mul(&self, other: &Scalar) -> (r: Scalar)
        ensures
            r@ == fmul(self@, other@),
            r.wf(),
    {
        proof {
            use_type_invariant(self);
            use_type_invariant(other);
        }
        scalar_mul(self, other)
    }

    /// The scalar's opposite.
    pub fn neg(&self) -> (r: Scalar)
        ensures
            r@ == fsub(0, self@),
            r.wf(),
    {
        Scalar::from_u64(0).sub(self)
    }

    /// The scalar that a 512-bit little-endian number reduces to.
    pub fn from_bytes_wide(bytes: &[u8; 64]) -> (r: Scalar)
        ensures
            r@ == le_value(bytes@) % modulus(),
            r.wf(),
    {
        scalar_from_wide(bytes)
    }

    /// The scalar's 32 bytes, most significant first.
    pub fn to_be_bytes(&self) -> (r: [u8; 32])
        ensures
            r@ == be_bytes(self@, 32),
    {
        proof {
            use_type_invariant(self);
        }
        scalar_to_be_bytes(self)
    }

    /// The scalar that 32 bytes stand for, most significant first, if they
    /// are the bytes of a canonical representative.
    pub fn from_be_bytes(bytes: &[u8; 32]) -> (r: Option<Scalar>)
        ensures
            r.is_some() == (le_value(bytes@.reverse()) < modulus()),
            r matches Some(s) ==> s@ == le_value(bytes@.reverse()) && s.wf(),
    {
        scalar_from_be_bytes(bytes)
    }

    /// The scalar that a slice of 32 bytes stands for, most significant
    /// first, if the slice has 32 bytes and they are the bytes of a
    /// canonical representative.
    pub fn from_be_slice(bytes: &[u8]) -> (r: Option<Scalar>)
        ensures
            r.is_some() == (bytes@.len() == 32 && le_value(bytes@.reverse()) < modulus()),
            r matches Some(s) ==> s@ == le_value(bytes@.reverse()) && s.wf(),
    {
        if bytes.len() != 32 {
            return None;
        }
        let mut array = [0u8; 32];
        let mut i: usize = 0;
        while i < 32
            invariant
                i <= 32,
                bytes@.len() == 32,
                forall|j: int| 0 <= j < i ==> array@[j] == bytes@[j],
            decreases 32 - i,
        {
            array[i] = bytes[i];
            i += 1;
        }
        assert(array@ =~= bytes@);
        Scalar::from_be_bytes(&array)
    }

    /// The number that the scalar stands for, if it is below 2^64.
    pub fn to_u64(&self) -> (r: Option<u64>)
        ensures
            r.is_some() == (self@ <= u64::MAX),
            r matches Some(v) ==> v == self@,
    {
        if self.limbs[1] == 0 && self.limbs[2] == 0 && self.limbs[3] == 0 {
            Some(self.limbs[0])
        } else {
            proof {
                let rest = (self.limbs@[1] as nat) + 0x1_0000_0000_0000_0000nat * ((
                self.limbs@[2] as nat) + 0x1_0000_0000_0000_0000nat * (self.limbs@[3] as nat));
                assert(rest >= 1);
                assert(0x1_0000_0000_0000_0000nat * rest >= 0x1_0000_0000_0000_0000nat)
                    by (nonlinear_arith)
                    requires
                        rest >= 1,
                ;
            }
            None
        }
    }

    /// A scalar drawn from the operating system's source of randomness.
    pub fn random(rng: &mut OsRng) -> (r: Scalar)
        ensures
            r.wf(),
    {
        scalar_random(rng)
    }

    /// A scalar that is not zero, drawn from the operating system's source
    /// of randomness. Where zero is drawn, which happens once in as many
    /// draws as the field has elements, one stands in for it.
    pub fn random_nonzero(rng: &mut OsRng) -> (r: Scalar)
        ensures
            r.wf(),
            r@ != 0,
    {
        let drawn = scalar_random(rng);
        if drawn.is_zero() {
            Scalar::from_u64(1)
        } else {
            drawn
        }
    }
}

/// The operating system's random number generator of `rand_core`.
#[verifier::external_type_specification]
#[verifier::external_body]
pub struct ExOsRng(OsRng);

/// Makes the handle of the operating system's generator: `OsRng` of `rand_core`.
#[verifier::external_body]
pub(crate) fn os_rng() -> (r: OsRng) {
    OsRng
}

/// Calls `Scalar`'s `+` of `bls12_381_plus`, which adds in the field: the
/// result is the canonical representative of the sum.
#[verifier::external_body]
fn scalar_add(a: &Scalar, b: &Scalar) -> (r: Scalar)
    requires
        a.wf(),
        b.wf(),
    ensures
        r.wf(),
        r@ == fadd(a@, b@),
{
    let x = blsful::inner_types::Scalar::from_raw(a.limbs).unwrap();
    let y = blsful::inner_types::Scalar::from_raw(b.limbs).unwrap();
    Scalar { limbs: (x + y).to_raw() }
}

/// Calls `Scalar`'s `-` of `bls12_381_plus`, which subtracts in the field.
#[verifier::external_body]
fn scalar_sub(a: &Scalar, b: &Scalar) -> (r: Scalar)
    requires
        a.wf(),
        b.wf(),
    ensures
        r.wf(),
        r@ == fsub(a@, b@),
{
    let x = blsful::inner_types::Scalar::from_raw(a.limbs).unwrap();
    let y = blsful::inner_types::Scalar::from_raw(b.limbs).unwrap();
    Scalar { limbs: (x - y).to_raw() }
}

/// Calls `Scalar`'s `*` of `bls12_381_plus`, which multiplies in the field.
#[verifier::external_body]
fn scalar_mul(a: &Scalar, b: &Scalar) -> (r: Scalar)
    requires
        a.wf(),
        b.wf(),
    ensures
        r.wf(),
        r@ == fmul(a@, b@),
{
    let x = blsful::inner_types::Scalar::from_raw(a.limbs).unwrap();
    let y = blsful::inner_types::Scalar::from_raw(b.limbs).unwrap();
    Scalar { limbs: (x * y).to_raw() }
}

/// Calls `Scalar::from_bytes_wide` of `bls12_381_plus`, which reduces a
/// 512-bit little-endian integer by the modulus.
#[verifier::external_body]
fn scalar_from_wide(bytes: &[u8; 64]) -> (r: Scalar)
    ensures
        r.wf(),
        r@ == le_value(bytes@) % modulus(),
{
    Scalar { limbs: blsful::inner_types::Scalar::from_bytes_wide(bytes).to_raw() }
}

/// Calls `Scalar::to_be_bytes` of `bls12_381_plus`, which writes the
/// canonical representative in big-endian byte order.
#[verifier::external_body]
fn scalar_to_be_bytes(a: &Scalar) -> (r: [u8; 32])
    requires
        a.wf(),
    ensures
        r@ == be_bytes(a@, 32),
{
    blsful::inner_types::Scalar::from_raw(a.limbs).unwrap().to_be_bytes()
}

/// Calls `Scalar::from_be_bytes` of `bls12_381_plus`, which reads a
/// big-endian number and fails if it is not below the modulus.
#[verifier::external_body]
fn scalar_from_be_bytes(bytes: &[u8; 32]) -> (r: Option<Scalar>)
    ensures
        r.is_some() == (le_value(bytes@.reverse()) < modulus()),
        r matches Some(s) ==> s@ == le_value(bytes@.reverse()) && s.wf(),
{
    let s: Option<blsful::inner_types::Scalar> =
        blsful::inner_types::Scalar::from_be_bytes(bytes).into();
    s.map(|x| Scalar { limbs: x.to_raw() })
}

/// Calls `Scalar::random` of `bls12_381_plus` on the operating system's
/// generator. Nothing is known of the result but that it is a scalar.
#[verifier::external_body]
fn scalar_random(rng: &mut OsRng) -> (r: Scalar)
    ensures
        r.wf(),
{
    let s = <blsful::inner_types::Scalar as blsful::inner_types::Field>::random(rng);
    Scalar { limbs: s.to_raw() }
}

} // verus!
