//! Byte strings: concatenation and fixed-width numbers.

use vstd::prelude::*;
use vstd::utf8::encode_utf8;
use crate::field::{be_bytes, Scalar};

verus! {

/// Appends a slice of bytes to a vector.
pub fn append_bytes(out: &mut Vec<u8>, bytes: &[u8])
    ensures
        final(out)@ == old(out)@ + bytes@,
{
    let mut i: usize = 0;
    while i < bytes.len()
        invariant
            i <= bytes.len(),
            out@ == old(out)@ + bytes@.take(i as int),
        decreases bytes.len() - i,
    {
        out.push(bytes[i]);
        assert(out@ =~= old(out)@ + bytes@.take(i + 1));
        i += 1;
    }
    assert(bytes@.take(bytes.len() as int) =~= bytes@);
}

/// The eight bytes of a number below 2^64, least significant first.
pub open spec fn u64_bytes(v: u64) -> Seq<u8> {
    Seq::new(8, |i: int| ((v as nat / pow256(i as nat)) % 256) as u8)
}

/// 256 to the power `n`.
pub open spec fn pow256(n: nat) -> nat
    decreases n,
{
    if n == 0 {
        1
    } else {
        256 * pow256((n - 1) as nat)
    }
}

/// Appends the eight bytes of a number, least significant first.
pub fn append_u64(out: &mut Vec<u8>, v: u64)
    ensures
        final(out)@ == old(out)@ + u64_bytes(v),
{
    let mut rest: u64 = v;
    let mut i: usize = 0;
    assert(pow256(0) == 1);
    assert(out@ =~= old(out)@ + u64_bytes(v).take(0));
    while i < 8
        invariant
            i <= 8,
            rest as nat == v as nat / pow256(i as nat),
            out@ == old(out)@ + u64_bytes(v).take(i as int),
        decreases 8 - i,
    {
        let b: u8 = (rest % 256) as u8;
        out.push(b);
        proof {
            assert(pow256(i as nat + 1) == 256 * pow256(i as nat));
            lemma_pow256_positive(i as nat);
            vstd::arithmetic::div_mod::lemma_div_denominator(
                v as int,
                pow256(i as nat) as int,
                256,
            );
            assert(pow256(i as nat) * 256 == 256 * pow256(i as nat)) by (nonlinear_arith);
            assert(out@ =~= old(out)@ + u64_bytes(v).take(i + 1));
        }
        rest = rest / 256;
        i += 1;
    }
    assert(u64_bytes(v).take(8) =~= u64_bytes(v));
}

/// Powers of 256 are positive.
pub proof fn lemma_pow256_positive(n: nat)
    ensures
        pow256(n) > 0,
    decreases n,
{
    if n > 0 {
        lemma_pow256_positive((n - 1) as nat);
    }
}

/// The bytes of a string: their number in eight bytes, then the string in UTF-8.
pub open spec fn string_bytes(s: Seq<char>) -> Seq<u8> {
    u64_bytes(encode_utf8(s).len() as u64) + encode_utf8(s)
}

/// Appends the bytes of a string.
pub fn append_string(out: &mut Vec<u8>, s: &String)
    ensures
        final(out)@ == old(out)@ + string_bytes(s@),
{
    let bytes = s.as_str().as_bytes();
    append_u64(out, bytes.len() as u64);
    append_bytes(out, bytes);
    assert(out@ =~= old(out)@ + string_bytes(s@));
}

/// Whether two strings are the same.
pub fn same_string(a: &String, b: &String) -> (r: bool)
    ensures
        r == (a@ == b@),
{
    *a == *b
}

/// Appends a count or an index as eight bytes.
pub fn append_usize(out: &mut Vec<u8>, v: usize)
    ensures
        final(out)@ == old(out)@ + u64_bytes(v as u64),
{
    append_u64(out, v as u64);
}

/// The bytes of a sequence of scalars, 32 for each, most significant first.
pub open spec fn scalars_bytes(s: Seq<nat>) -> Seq<u8>
    decreases s.len(),
{
    if s.len() == 0 {
        Seq::empty()
    } else {
        scalars_bytes(s.drop_last()) + be_bytes(s.last(), 32)
    }
}

/// Appends the 32 bytes of a scalar, most significant first.
pub fn append_scalar(out: &mut Vec<u8>, s: &Scalar)
    ensures
        final(out)@ == old(out)@ + be_bytes(s@, 32),
{
    let bytes = s.to_be_bytes();
    append_bytes(out, bytes.as_slice());
}

} // verus!
