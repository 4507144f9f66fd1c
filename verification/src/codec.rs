//! Values as bytes, and back.
//!
//! Every value that is written has a model, and each kind of value a way to
//! write a model as bytes and a way to read a model from the front of a
//! string of bytes. What was written is read back as the same model,
//! whatever follows it.

use vstd::prelude::*;
use vstd::slice::slice_subrange;
use vstd::utf8::{decode_utf8, encode_utf8, valid_utf8};
use crate::bytes::{append_bytes, append_scalar, lemma_pow256_positive, pow256};
use crate::field::{be_bytes, le_value, modulus, Scalar};
use crate::g1::{G1Point, is_g1_encoding};
use crate::g2::{G2Point, is_g2_encoding};

verus! {

/// A kind of value that is written as bytes and read back.
pub trait Codec: Sized {
    /// What a value of this kind stands for.
    type Model;

    /// What the value stands for.
    spec fn model(&self) -> Self::Model;

    /// Whether there can be a value for the model.
    spec fn valid(m: Self::Model) -> bool;

    /// The bytes of a model.
    spec fn encode(m: Self::Model) -> Seq<u8>;

    /// The model at the front of the bytes and the number of bytes that it
    /// takes, if there is one.
    spec fn decode(bytes: Seq<u8>) -> Option<(Self::Model, int)>;

    /// What was written is read back, whatever follows it.
    proof fn lemma_round_trip(m: Self::Model, rest: Seq<u8>)
        requires
            Self::valid(m),
        ensures
            Self::decode(Self::encode(m) + rest) == Some((m, Self::encode(m).len() as int)),
    ;

    /// What is read takes some of the bytes that there are.
    proof fn lemma_decode_bounds(bytes: Seq<u8>)
        ensures
            Self::decode(bytes) matches Some(found) ==> 0 <= found.1 <= bytes.len(),
    ;

    /// Appends the value's bytes.
    fn write(&self, out: &mut Vec<u8>)
        ensures
            final(out)@ == old(out)@ + Self::encode(self.model()),
    ;

    /// Reads a value from the bytes at `pos`, and returns it with the
    /// position after it.
    fn read(bytes: &[u8], pos: usize) -> (r: Option<(Self, usize)>)
        requires
            pos <= bytes.len(),
        ensures
            r.is_some() == Self::decode(bytes@.skip(pos as int)).is_some(),
            r matches Some(found) ==> found.0.model() == Self::decode(
                bytes@.skip(pos as int),
            ).unwrap().0 && found.1 == pos + Self::decode(bytes@.skip(pos as int)).unwrap().1
                && found.1 <= bytes.len(),
    ;
}

/// The big-endian bytes of a number are as many as asked for.
pub proof fn lemma_be_length(v: nat, len: nat)
    ensures
        be_bytes(v, len).len() == len,
    decreases len,
{
    if len > 0 {
        lemma_be_length(v / 256, (len - 1) as nat);
    }
}

/// The big-endian bytes of a number stand for the number, as far as they reach.
pub proof fn lemma_be_value(v: nat, len: nat)
    ensures
        le_value(be_bytes(v, len).reverse()) == v % pow256(len),
    decreases len,
{
    lemma_pow256_positive(len);
    if len == 0 {
        assert(be_bytes(v, 0).reverse() =~= Seq::<u8>::empty());
        assert(pow256(0) == 1);
    } else {
        let n = (len - 1) as nat;
        let inner = be_bytes(v / 256, n);
        let all = be_bytes(v, len).reverse();
        lemma_be_length(v / 256, n);
        lemma_be_value(v / 256, n);
        lemma_pow256_positive(n);
        assert(all[0] == (v % 256) as u8);
        assert(all.skip(1) =~= inner.reverse());
        vstd::arithmetic::div_mod::lemma_mod_breakdown(v as int, 256, pow256(n) as int);
        assert(pow256(len) == 256 * pow256(n));
    }
}

/// Powers of 256 multiply as their exponents add.
pub proof fn lemma_pow256_adds(a: nat, b: nat)
    ensures
        pow256(a + b) == pow256(a) * pow256(b),
    decreases b,
{
    if b == 0 {
        assert(pow256(0) == 1);
        assert(pow256(a) * 1 == pow256(a));
    } else {
        lemma_pow256_adds(a, (b - 1) as nat);
        assert(pow256(a + b) == 256 * pow256((a + b - 1) as nat));
        assert(256 * (pow256(a) * pow256((b - 1) as nat)) == pow256(a) * (256 * pow256(
            (b - 1) as nat,
        ))) by (nonlinear_arith);
    }
}

/// Every field element has 32 bytes.
pub proof fn lemma_modulus_fits()
    ensures
        modulus() < pow256(32),
{
    assert(pow256(0) == 1);
    assert(pow256(1) == 256 * pow256(0));
    lemma_pow256_adds(1, 1);
    assert(pow256(2) == 0x1_0000);
    lemma_pow256_adds(2, 2);
    assert(pow256(4) == 0x1_0000_0000);
    lemma_pow256_adds(4, 4);
    assert(pow256(8) == 0x1_0000_0000_0000_0000);
    lemma_pow256_adds(8, 8);
    assert(pow256(16) == 0x1_0000_0000_0000_0000_0000_0000_0000_0000);
    lemma_pow256_adds(16, 16);
    assert(pow256(32)
        == 0x1_0000_0000_0000_0000_0000_0000_0000_0000_0000_0000_0000_0000_0000_0000_0000_0000);
}

impl Codec for Scalar {
    type Model = nat;

    open spec fn model(&self) -> nat {
        self@
    }

    open spec fn valid(m: nat) -> bool {
        m < modulus()
    }

    open spec fn encode(m: nat) -> Seq<u8> {
        be_bytes(m, 32)
    }

    open spec fn decode(bytes: Seq<u8>) -> Option<(nat, int)> {
        if bytes.len() >= 32 && le_value(bytes.take(32).reverse()) < modulus() {
            Some((le_value(bytes.take(32).reverse()), 32))
        } else {
            None
        }
    }

    proof fn lemma_round_trip(m: nat, rest: Seq<u8>) {
        lemma_be_length(m, 32);
        lemma_be_value(m, 32);
        lemma_modulus_fits();
        vstd::arithmetic::div_mod::lemma_small_mod(m, pow256(32));
        assert((be_bytes(m, 32) + rest).take(32) =~= be_bytes(m, 32));
    }

    proof fn lemma_decode_bounds(bytes: Seq<u8>) {
    }

    fn write(&self, out: &mut Vec<u8>) {
        append_scalar(out, self);
    }

    fn read(bytes: &[u8], pos: usize) -> (r: Option<(Self, usize)>) {
        if bytes.len() - pos < 32 {
            return None;
        }
        let part = slice_subrange(bytes, pos, pos + 32);
        assert(part@ =~= bytes@.skip(pos as int).take(32));
        match Scalar::from_be_slice(part) {
            Some(s) => Some((s, pos + 32)),
            None => None,
        }
    }
}

/// A count of things, or the number of a kind, written as a scalar.
pub struct Count {
    /// The number.
    pub n: usize,
}

impl Codec for Count {
    type Model = nat;

    open spec fn model(&self) -> nat {
        self.n as nat
    }

    open spec fn valid(m: nat) -> bool {
        m <= usize::MAX
    }

    open spec fn encode(m: nat) -> Seq<u8> {
        be_bytes(m, 32)
    }

    open spec fn decode(bytes: Seq<u8>) -> Option<(nat, int)> {
        match <Scalar as Codec>::decode(bytes) {
            Some(found) => if found.0 <= usize::MAX {
                Some(found)
            } else {
                None
            },
            None => None,
        }
    }

    proof fn lemma_round_trip(m: nat, rest: Seq<u8>) {
        <Scalar as Codec>::lemma_round_trip(m, rest);
    }

    proof fn lemma_decode_bounds(bytes: Seq<u8>) {
    }

    fn write(&self, out: &mut Vec<u8>) {
        let s = Scalar::from_u64(self.n as u64);
        append_scalar(out, &s);
    }

    fn read(bytes: &[u8], pos: usize) -> (r: Option<(Self, usize)>) {
        match <Scalar as Codec>::read(bytes, pos) {
            None => None,
            Some(found) => match found.0.to_u64() {
                None => None,
                Some(v) => {
                    if v > usize::MAX as u64 {
                        None
                    } else {
                        Some((Count { n: v as usize }, found.1))
                    }
                },
            },
        }
    }
}

impl Codec for G1Point {
    type Model = Seq<u8>;

    open spec fn model(&self) -> Seq<u8> {
        self.encoding()
    }

    open spec fn valid(m: Seq<u8>) -> bool {
        m.len() == 48 && is_g1_encoding(m)
    }

    open spec fn encode(m: Seq<u8>) -> Seq<u8> {
        m
    }

    open spec fn decode(bytes: Seq<u8>) -> Option<(Seq<u8>, int)> {
        if bytes.len() >= 48 && is_g1_encoding(bytes.take(48)) {
            Some((bytes.take(48), 48))
        } else {
            None
        }
    }

    proof fn lemma_round_trip(m: Seq<u8>, rest: Seq<u8>) {
        assert((m + rest).take(48) =~= m);
    }

    proof fn lemma_decode_bounds(bytes: Seq<u8>) {
    }

    fn write(&self, out: &mut Vec<u8>) {
        append_bytes(out, self.to_bytes().as_slice());
    }

    fn read(bytes: &[u8], pos: usize) -> (r: Option<(Self, usize)>) {
        if bytes.len() - pos < 48 {
            return None;
        }
        let part = slice_subrange(bytes, pos, pos + 48);
        assert(part@ =~= bytes@.skip(pos as int).take(48));
        match G1Point::from_slice(part) {
            Some(p) => Some((p, pos + 48)),
            None => None,
        }
    }
}

impl Codec for G2Point {
    type Model = Seq<u8>;

    open spec fn model(&self) -> Seq<u8> {
        self.encoding()
    }

    open spec fn valid(m: Seq<u8>) -> bool {
        m.len() == 96 && is_g2_encoding(m)
    }

    open spec fn encode(m: Seq<u8>) -> Seq<u8> {
        m
    }

    open spec fn decode(bytes: Seq<u8>) -> Option<(Seq<u8>, int)> {
        if bytes.len() >= 96 && is_g2_encoding(bytes.take(96)) {
            Some((bytes.take(96), 96))
        } else {
            None
        }
    }

    proof fn lemma_round_trip(m: Seq<u8>, rest: Seq<u8>) {
        assert((m + rest).take(96) =~= m);
    }

    proof fn lemma_decode_bounds(bytes: Seq<u8>) {
    }

    fn write(&self, out: &mut Vec<u8>) {
        append_bytes(out, self.to_bytes().as_slice());
    }

    fn read(bytes: &[u8], pos: usize) -> (r: Option<(Self, usize)>) {
        if bytes.len() - pos < 96 {
            return None;
        }
        let part = slice_subrange(bytes, pos, pos + 96);
        assert(part@ =~= bytes@.skip(pos as int).take(96));
        match G2Point::from_slice(part) {
            Some(p) => Some((p, pos + 96)),
            None => None,
        }
    }
}

/// Calls `String::from_utf8` of the standard library, which accepts the
/// bytes that are well-formed UTF-8 and gives the string that they encode.
#[verifier::external_body]
fn string_from_utf8(bytes: Vec<u8>) -> (r: Option<String>)
    ensures
        r.is_some() == valid_utf8(bytes@),
        r matches Some(s) ==> s@ == decode_utf8(bytes@),
{
    String::from_utf8(bytes).ok()
}

impl Codec for String {
    type Model = Seq<char>;

    open spec fn model(&self) -> Seq<char> {
        self@
    }

    open spec fn valid(m: Seq<char>) -> bool {
        encode_utf8(m).len() <= usize::MAX
    }

    open spec fn encode(m: Seq<char>) -> Seq<u8> {
        be_bytes(encode_utf8(m).len(), 32) + encode_utf8(m)
    }

    open spec fn decode(bytes: Seq<u8>) -> Option<(Seq<char>, int)> {
        match <Count as Codec>::decode(bytes) {
            Some(found) => {
                let body = bytes.skip(32);
                if body.len() >= found.0 && valid_utf8(body.take(found.0 as int)) {
                    Some((decode_utf8(body.take(found.0 as int)), 32 + found.0 as int))
                } else {
                    None
                }
            },
            None => None,
        }
    }

    proof fn lemma_round_trip(m: Seq<char>, rest: Seq<u8>) {
        let body = encode_utf8(m);
        <Count as Codec>::lemma_round_trip(body.len(), body + rest);
        lemma_be_length(body.len(), 32);
        assert(be_bytes(body.len(), 32) + (body + rest) =~= Self::encode(m) + rest);
        assert((Self::encode(m) + rest).skip(32) =~= body + rest);
        assert((body + rest).take(body.len() as int) =~= body);
        vstd::utf8::encode_utf8_valid_utf8(m);
        vstd::utf8::encode_utf8_decode_utf8(m);
    }

    proof fn lemma_decode_bounds(bytes: Seq<u8>) {
    }

    fn write(&self, out: &mut Vec<u8>) {
        let bytes = self.as_str().as_bytes();
        let count = Count { n: bytes.len() };
        count.write(out);
        append_bytes(out, bytes);
        assert(out@ =~= old(out)@ + Self::encode(self@));
    }

    fn read(bytes: &[u8], pos: usize) -> (r: Option<(Self, usize)>) {
        match <Count as Codec>::read(bytes, pos) {
            None => None,
            Some(found) => {
                let n = found.0.n;
                let start = found.1;
                assert(start == pos + 32);
                assert(bytes@.skip(pos as int).skip(32) =~= bytes@.skip(start as int));
                if bytes.len() - start < n {
                    return None;
                }
                let part = slice_subrange(bytes, start, start + n);
                assert(part@ =~= bytes@.skip(start as int).take(n as int));
                let mut copy: Vec<u8> = Vec::new();
                append_bytes(&mut copy, part);
                assert(copy@ =~= part@);
                match string_from_utf8(copy) {
                    Some(s) => Some((s, start + n)),
                    None => None,
                }
            },
        }
    }
}

/// The models of a sequence of values.
pub open spec fn models<T: Codec>(v: Seq<T>) -> Seq<T::Model> {
    v.map_values(|x: T| x.model())
}

/// The bytes of a sequence of models, one after the other.
pub open spec fn encode_many<T: Codec>(ms: Seq<T::Model>) -> Seq<u8>
    decreases ms.len(),
{
    if ms.len() == 0 {
        Seq::empty()
    } else {
        T::encode(ms[0]) + encode_many::<T>(ms.skip(1))
    }
}

/// The `n` models at the front of the bytes and the number of bytes that
/// they take, if there are so many.
pub open spec fn decode_many<T: Codec>(bytes: Seq<u8>, n: nat) -> Option<(Seq<T::Model>, int)>
    decreases n,
{
    if n == 0 {
        Some((Seq::empty(), 0))
    } else {
        match T::decode(bytes) {
            None => None,
            Some(first) => if 0 <= first.1 <= bytes.len() {
                match decode_many::<T>(bytes.skip(first.1), (n - 1) as nat) {
                    None => None,
                    Some(others) => Some((seq![first.0] + others.0, first.1 + others.1)),
                }
            } else {
                None
            },
        }
    }
}

/// The bytes of a sequence of models grow by those of a model that is appended.
pub proof fn lemma_encode_push<T: Codec>(ms: Seq<T::Model>, m: T::Model)
    ensures
        encode_many::<T>(ms.push(m)) == encode_many::<T>(ms) + T::encode(m),
    decreases ms.len(),
{
    if ms.len() == 0 {
        let one = ms.push(m);
        assert(one.len() == 1);
        assert(one[0] == m);
        assert(one.skip(1) =~= Seq::<T::Model>::empty());
        assert(encode_many::<T>(one.skip(1)) =~= Seq::<u8>::empty());
        assert(encode_many::<T>(one) == T::encode(one[0]) + encode_many::<T>(one.skip(1)));
        assert(encode_many::<T>(ms) =~= Seq::<u8>::empty());
        assert(encode_many::<T>(one) =~= encode_many::<T>(ms) + T::encode(m));
    } else {
        lemma_encode_push::<T>(ms.skip(1), m);
        assert(ms.push(m).skip(1) =~= ms.skip(1).push(m));
        assert(encode_many::<T>(ms.push(m)) =~= encode_many::<T>(ms) + T::encode(m));
    }
}

/// What was written of a sequence is read back, whatever follows it.
pub proof fn lemma_many<T: Codec>(ms: Seq<T::Model>, rest: Seq<u8>)
    requires
        forall|i: int| 0 <= i < ms.len() ==> T::valid(#[trigger] ms[i]),
    ensures
        decode_many::<T>(encode_many::<T>(ms) + rest, ms.len()) == Some(
            (ms, encode_many::<T>(ms).len() as int),
        ),
    decreases ms.len(),
{
    if ms.len() > 0 {
        let head = T::encode(ms[0]);
        let tail = encode_many::<T>(ms.skip(1));
        assert(encode_many::<T>(ms) + rest =~= head + (tail + rest));
        T::lemma_round_trip(ms[0], tail + rest);
        assert((head + (tail + rest)).skip(head.len() as int) =~= tail + rest);
        assert forall|i: int| 0 <= i < ms.skip(1).len() implies T::valid(
            #[trigger] ms.skip(1)[i],
        ) by {
            assert(ms.skip(1)[i] == ms[i + 1]);
        }
        lemma_many::<T>(ms.skip(1), rest);
        assert(seq![ms[0]] + ms.skip(1) =~= ms);
    } else {
        assert(encode_many::<T>(ms).len() == 0);
    }
}

/// What is read of a sequence takes some of the bytes that there are.
pub proof fn lemma_many_bounds<T: Codec>(bytes: Seq<u8>, n: nat)
    ensures
        decode_many::<T>(bytes, n) matches Some(found) ==> 0 <= found.1 <= bytes.len()
            && found.0.len() == n,
    decreases n,
{
    if n > 0 {
        match T::decode(bytes) {
            None => {},
            Some(first) => {
                if 0 <= first.1 <= bytes.len() {
                    lemma_many_bounds::<T>(bytes.skip(first.1), (n - 1) as nat);
                }
            },
        }
    }
}

impl<T: Codec> Codec for Vec<T> {
    type Model = Seq<T::Model>;

    open spec fn model(&self) -> Seq<T::Model> {
        models(self@)
    }

    open spec fn valid(m: Seq<T::Model>) -> bool {
        m.len() <= usize::MAX && forall|i: int| 0 <= i < m.len() ==> T::valid(#[trigger] m[i])
    }

    open spec fn encode(m: Seq<T::Model>) -> Seq<u8> {
        be_bytes(m.len(), 32) + encode_many::<T>(m)
    }

    open spec fn decode(bytes: Seq<u8>) -> Option<(Seq<T::Model>, int)> {
        match <Count as Codec>::decode(bytes) {
            Some(count) => match decode_many::<T>(bytes.skip(32), count.0) {
                Some(found) => Some((found.0, 32 + found.1)),
                None => None,
            },
            None => None,
        }
    }

    proof fn lemma_round_trip(m: Seq<T::Model>, rest: Seq<u8>) {
        let body = encode_many::<T>(m);
        <Count as Codec>::lemma_round_trip(m.len(), body + rest);
        lemma_be_length(m.len(), 32);
        assert(be_bytes(m.len(), 32) + (body + rest) =~= Self::encode(m) + rest);
        assert((Self::encode(m) + rest).skip(32) =~= body + rest);
        lemma_many::<T>(m, rest);
    }

    proof fn lemma_decode_bounds(bytes: Seq<u8>) {
        match <Count as Codec>::decode(bytes) {
            Some(count) => {
                lemma_many_bounds::<T>(bytes.skip(32), count.0);
            },
            None => {},
        }
    }

    fn write(&self, out: &mut Vec<u8>) {
        let count = Count { n: self.len() };
        count.write(out);
        let ghost head = out@;
        let ghost ms = models(self@);
        let mut i: usize = 0;
        assert(out@ =~= head + encode_many::<T>(ms.take(0)));
        while i < self.len()
            invariant
                i <= self.len(),
                ms == models(self@),
                out@ == head + encode_many::<T>(ms.take(i as int)),
            decreases self.len() - i,
        {
            self[i].write(out);
            proof {
                lemma_encode_push::<T>(ms.take(i as int), ms[i as int]);
                assert(ms.take(i + 1) =~= ms.take(i as int).push(ms[i as int]));
                assert(out@ =~= head + encode_many::<T>(ms.take(i + 1)));
            }
            i += 1;
        }
        assert(ms.take(self.len() as int) =~= ms);
        assert(out@ =~= old(out)@ + Self::encode(self.model()));
    }

    fn read(bytes: &[u8], pos: usize) -> (r: Option<(Self, usize)>) {
        let (n, start) = match <Count as Codec>::read(bytes, pos) {
            None => {
                return None;
            },
            Some(found) => (found.0.n, found.1),
        };
        proof {
            assert(start == pos + 32);
            assert(bytes@.skip(pos as int).skip(32) =~= bytes@.skip(start as int));
        }
        let ghost whole = decode_many::<T>(bytes@.skip(start as int), n as nat);
        let mut out: Vec<T> = Vec::new();
        let mut at: usize = start;
        let mut i: usize = 0;
        proof {
            assert(models(out@) =~= Seq::<T::Model>::empty());
            match decode_many::<T>(bytes@.skip(at as int), n as nat) {
                Some(rest) => {
                    assert(models(out@) + rest.0 =~= rest.0);
                },
                None => {},
            }
        }
        while i < n
            invariant
                i <= n,
                start <= at <= bytes.len(),
                start == pos + 32,
                whole == decode_many::<T>(bytes@.skip(start as int), n as nat),
                Self::decode(bytes@.skip(pos as int)) == (match whole {
                    Some(f) => Some((f.0, 32 + f.1)),
                    None => None,
                }),
                whole == (match decode_many::<T>(bytes@.skip(at as int), (n - i) as nat) {
                    Some(rest) => Some((models(out@) + rest.0, (at - start) + rest.1)),
                    None => None,
                }),
            decreases n - i,
        {
            let ghost before = models(out@);
            proof {
                T::lemma_decode_bounds(bytes@.skip(at as int));
            }
            match T::read(bytes, at) {
                None => {
                    return None;
                },
                Some(found) => {
                    proof {
                        let here = bytes@.skip(at as int);
                        let first = T::decode(here).unwrap();
                        assert(here.skip(first.1) =~= bytes@.skip(found.1 as int));
                        match decode_many::<T>(bytes@.skip(found.1 as int), (n - i - 1) as nat) {
                            Some(rest) => {
                                assert(before + (seq![first.0] + rest.0) =~= before.push(first.0)
                                    + rest.0);
                            },
                            None => {},
                        }
                    }
                    out.push(found.0);
                    proof {
                        assert(models(out@) =~= before.push(found.0.model()));
                    }
                    at = found.1;
                },
            }
            i += 1;
        }
        proof {
            assert(models(out@) + Seq::<T::Model>::empty() =~= models(out@));
        }
        Some((out, at))
    }
}

impl<A: Codec, B: Codec> Codec for (A, B) {
    type Model = (A::Model, B::Model);

    open spec fn model(&self) -> (A::Model, B::Model) {
        (self.0.model(), self.1.model())
    }

    open spec fn valid(m: (A::Model, B::Model)) -> bool {
        A::valid(m.0) && B::valid(m.1)
    }

    open spec fn encode(m: (A::Model, B::Model)) -> Seq<u8> {
        A::encode(m.0) + B::encode(m.1)
    }

    open spec fn decode(bytes: Seq<u8>) -> Option<((A::Model, B::Model), int)> {
        match A::decode(bytes) {
            None => None,
            Some(first) => if 0 <= first.1 <= bytes.len() {
                match B::decode(bytes.skip(first.1)) {
                    None => None,
                    Some(second) => Some(((first.0, second.0), first.1 + second.1)),
                }
            } else {
                None
            },
        }
    }

    proof fn lemma_round_trip(m: (A::Model, B::Model), rest: Seq<u8>) {
        let a = A::encode(m.0);
        let b = B::encode(m.1);
        assert(a + b + rest =~= a + (b + rest));
        A::lemma_round_trip(m.0, b + rest);
        assert((a + (b + rest)).skip(a.len() as int) =~= b + rest);
        B::lemma_round_trip(m.1, rest);
    }

    proof fn lemma_decode_bounds(bytes: Seq<u8>) {
        A::lemma_decode_bounds(bytes);
        match A::decode(bytes) {
            None => {},
            Some(first) => {
                if 0 <= first.1 <= bytes.len() {
                    B::lemma_decode_bounds(bytes.skip(first.1));
                }
            },
        }
    }

    fn write(&self, out: &mut Vec<u8>) {
        self.0.write(out);
        self.1.write(out);
        assert(out@ =~= old(out)@ + Self::encode(self.model()));
    }

    fn read(bytes: &[u8], pos: usize) -> (r: Option<(Self, usize)>) {
        proof {
            A::lemma_decode_bounds(bytes@.skip(pos as int));
        }
        match A::read(bytes, pos) {
            None => None,
            Some(first) => {
                proof {
                    let k = A::decode(bytes@.skip(pos as int)).unwrap().1;
                    assert(bytes@.skip(pos as int).skip(k) =~= bytes@.skip(first.1 as int));
                }
                match B::read(bytes, first.1) {
                    None => None,
                    Some(second) => Some(((first.0, second.0), second.1)),
                }
            },
        }
    }
}

} // verus!
