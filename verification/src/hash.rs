//! The content hash: 64-bit FNV-1a over the bytes, in hexadecimal.

use vstd::prelude::*;

use vstd::string::StringSliceAdditionalSpecFns;

use crate::text::{from_chars, push_all, to_chars};

verus! {

pub const FNV_OFFSET: u64 = 0xcbf29ce484222325;

pub const FNV_PRIME: u64 = 0x100000001b3;

/// One byte into the hash.
pub open spec fn fnv_step(h: u64, b: u8) -> u64 {
    (((h ^ (b as u64)) * FNV_PRIME) % 0x1_0000_0000_0000_0000) as u64
}

/// The bytes into the hash, one after the other.
pub open spec fn fnv_from(h: u64, bytes: Seq<u8>) -> u64
    decreases bytes.len(),
{
    if bytes.len() == 0 {
        h
    } else {
        fnv_step(fnv_from(h, bytes.drop_last()), bytes.last())
    }
}

/// Hashing in pieces gives what hashing at once gives.
pub proof fn hashing_in_pieces(h: u64, a: Seq<u8>, b: Seq<u8>)
    ensures
        fnv_from(fnv_from(h, a), b) == fnv_from(h, a + b),
    decreases b.len(),
{
    if b.len() == 0 {
        assert(a + b =~= a);
    } else {
        hashing_in_pieces(h, a, b.drop_last());
        assert((a + b).drop_last() =~= a + b.drop_last());
        assert((a + b).last() == b.last());
    }
}

pub fn fnv_update(h: u64, bytes: &[u8]) -> (r: u64)
    ensures
        r == fnv_from(h, bytes@),
{
    let mut out: u64 = h;
    let mut i: usize = 0;
    while i < bytes.len()
        invariant
            0 <= i <= bytes@.len(),
            out == fnv_from(h, bytes@.take(i as int)),
        decreases bytes@.len() - i,
    {
        assert(bytes@.take(i + 1).drop_last() =~= bytes@.take(i as int));
        assert(bytes@.take(i + 1).last() == bytes@[i as int]);
        out = (out ^ (bytes[i] as u64)).wrapping_mul(FNV_PRIME);
        i = i + 1;
    }
    assert(bytes@.take(i as int) =~= bytes@);
    out
}

/// The hexadecimal digit that stands for `d`.
pub open spec fn hex_digit(d: nat) -> char {
    if d < 10 {
        crate::text::digit(d)
    } else if d == 10 {
        'a'
    } else if d == 11 {
        'b'
    } else if d == 12 {
        'c'
    } else if d == 13 {
        'd'
    } else if d == 14 {
        'e'
    } else {
        'f'
    }
}

/// The last `n` hexadecimal digits of a number.
pub open spec fn hex_digits(v: nat, n: nat) -> Seq<char>
    decreases n,
{
    if n == 0 {
        seq![]
    } else {
        hex_digits(v / 16, (n - 1) as nat).push(hex_digit(v % 16))
    }
}

fn hex_char(d: u64) -> (r: char)
    requires
        d < 16,
    ensures
        r == hex_digit(d as nat),
{
    if d == 0 {
        '0'
    } else if d == 1 {
        '1'
    } else if d == 2 {
        '2'
    } else if d == 3 {
        '3'
    } else if d == 4 {
        '4'
    } else if d == 5 {
        '5'
    } else if d == 6 {
        '6'
    } else if d == 7 {
        '7'
    } else if d == 8 {
        '8'
    } else if d == 9 {
        '9'
    } else if d == 10 {
        'a'
    } else if d == 11 {
        'b'
    } else if d == 12 {
        'c'
    } else if d == 13 {
        'd'
    } else if d == 14 {
        'e'
    } else {
        'f'
    }
}

fn to_hex(v: u64, n: usize) -> (r: Vec<char>)
    ensures
        r@ == hex_digits(v as nat, n as nat),
    decreases n,
{
    if n == 0 {
        let out: Vec<char> = Vec::new();
        assert(out@ =~= seq![]);
        out
    } else {
        let mut out = to_hex(v / 16, n - 1);
        out.push(hex_char(v % 16));
        out
    }
}

/// A hash as notes report it.
pub open spec fn hash_text(h: u64) -> Seq<char> {
    "fnv1a64:"@ + hex_digits(h as nat, 16)
}

pub fn render_hash(h: u64) -> (r: String)
    ensures
        r@ == hash_text(h),
{
    let mut out = to_chars("fnv1a64:");
    let digits = to_hex(h, 16);
    push_all(&mut out, digits.as_slice());
    from_chars(out.as_slice())
}

/// The hash of bytes, as notes and attachments report it.
pub open spec fn bytes_hash(bytes: Seq<u8>) -> Seq<char> {
    hash_text(fnv_from(FNV_OFFSET, bytes))
}

/// The hash of a text, over its UTF-8 bytes.
pub open spec fn text_hash(s: Seq<char>) -> Seq<char> {
    bytes_hash(vstd::utf8::encode_utf8(s))
}

pub fn content_hash(content: &str) -> (r: String)
    ensures
        r@ == text_hash(content@),
{
    render_hash(fnv_update(FNV_OFFSET, content.as_bytes()))
}

pub fn content_hash_of(bytes: &[u8]) -> (r: String)
    ensures
        r@ == bytes_hash(bytes@),
{
    render_hash(fnv_update(FNV_OFFSET, bytes))
}

/// A hash is written in sixteen digits, the highest first, each for four bits.
pub proof fn hashes_are_written_digit_by_digit(v: nat, n: nat, d: nat)
    requires
        d < 16,
    ensures
        d < 10 ==> hex_digit(d) as u32 == '0' as u32 + d,
        d >= 10 ==> hex_digit(d) as u32 == 'a' as u32 + d - 10,
        hex_digits(v, n).len() == n,
        hex_digits(16 * v + d, n + 1) == hex_digits(v, n).push(hex_digit(d)),
    decreases n,
{
    assert((16 * v + d) / 16 == v);
    assert((16 * v + d) % 16 == d);
    if n > 0 {
        hashes_are_written_digit_by_digit(v / 16, (n - 1) as nat, v % 16);
    }
}

} // verus!
