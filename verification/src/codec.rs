//! Big-endian byte codecs used by the sfnt format, as mathematical
//! functions over byte sequences, with the facts that connect the
//! encoders to the decoders.
use vstd::prelude::*;

verus! {

/// Value of the unsigned 16-bit big-endian integer at `i`.
#[verifier::opaque]
pub open spec fn be_u16(s: Seq<u8>, i: int) -> u16 {
    (s[i] as int * 256 + s[i + 1] as int) as u16
}

/// Value of the unsigned 24-bit big-endian integer at `i`.
#[verifier::opaque]
pub open spec fn be_u24(s: Seq<u8>, i: int) -> u32 {
    (s[i] as int * 65536 + s[i + 1] as int * 256 + s[i + 2] as int) as u32
}

/// Value of the unsigned 32-bit big-endian integer at `i`.
#[verifier::opaque]
pub open spec fn be_u32(s: Seq<u8>, i: int) -> u32 {
    (s[i] as int * 16777216 + s[i + 1] as int * 65536 + s[i + 2] as int * 256
        + s[i + 3] as int) as u32
}

/// Value of the unsigned 64-bit big-endian integer at `i`.
pub open spec fn be_u64(s: Seq<u8>, i: int) -> u64 {
    (be_u32(s, i) as int * 4294967296 + be_u32(s, i + 4) as int) as u64
}

/// Two's complement reading of a 16-bit pattern.
pub open spec fn u16_as_i16(v: u16) -> i16 {
    if v < 32768 { v as i16 } else { (v as int - 65536) as i16 }
}

/// Two's complement reading of a 32-bit pattern.
pub open spec fn u32_as_i32(v: u32) -> i32 {
    if v < 0x8000_0000 { v as i32 } else { (v as int - 0x1_0000_0000) as i32 }
}

/// Two's complement reading of a 64-bit pattern.
pub open spec fn u64_as_i64(v: u64) -> i64 {
    if v < 0x8000_0000_0000_0000 { v as i64 } else { (v as int - 0x1_0000_0000_0000_0000) as i64 }
}

/// Bit pattern of a signed 16-bit value.
pub open spec fn i16_as_u16(v: i16) -> u16 {
    if v >= 0 { v as u16 } else { (v as int + 65536) as u16 }
}

/// Bit pattern of a signed 32-bit value.
pub open spec fn i32_as_u32(v: i32) -> u32 {
    if v >= 0 { v as u32 } else { (v as int + 0x1_0000_0000) as u32 }
}

/// Bit pattern of a signed 64-bit value.
pub open spec fn i64_as_u64(v: i64) -> u64 {
    if v >= 0 { v as u64 } else { (v as int + 0x1_0000_0000_0000_0000) as u64 }
}

pub open spec fn be_i16(s: Seq<u8>, i: int) -> i16 {
    u16_as_i16(be_u16(s, i))
}

pub open spec fn be_i32(s: Seq<u8>, i: int) -> i32 {
    u32_as_i32(be_u32(s, i))
}

pub open spec fn be_i64(s: Seq<u8>, i: int) -> i64 {
    u64_as_i64(be_u64(s, i))
}

/// Big-endian bytes of a 16-bit value.
pub open spec fn u16_bytes(v: u16) -> Seq<u8> {
    seq![(v / 256) as u8, (v % 256) as u8]
}

/// Big-endian bytes of the low 24 bits of a value.
pub open spec fn u24_bytes(v: u32) -> Seq<u8> {
    seq![((v / 65536) % 256) as u8, ((v / 256) % 256) as u8, (v % 256) as u8]
}

/// Big-endian bytes of a 32-bit value.
pub open spec fn u32_bytes(v: u32) -> Seq<u8> {
    seq![(v / 16777216) as u8, ((v / 65536) % 256) as u8, ((v / 256) % 256) as u8, (v % 256) as u8]
}

/// Big-endian bytes of 16-bit units.
pub open spec fn units_bytes(u: Seq<u16>) -> Seq<u8>
    decreases u.len(),
{
    if u.len() == 0 {
        Seq::empty()
    } else {
        units_bytes(u.drop_last()) + u16_bytes(u.last())
    }
}

/// Big-endian bytes of a 64-bit value.
pub open spec fn u64_bytes(v: u64) -> Seq<u8> {
    u32_bytes((v / 4294967296) as u32) + u32_bytes((v % 4294967296) as u32)
}

pub open spec fn i16_bytes(v: i16) -> Seq<u8> {
    u16_bytes(i16_as_u16(v))
}

pub open spec fn i32_bytes(v: i32) -> Seq<u8> {
    u32_bytes(i32_as_u32(v))
}

pub open spec fn i64_bytes(v: i64) -> Seq<u8> {
    u64_bytes(i64_as_u64(v))
}

/// The 32-bit word at byte `i`, bytes past the end read as zero.
pub open spec fn padded_word(s: Seq<u8>, i: int) -> u32 {
    let b = |k: int| if i + k < s.len() { s[i + k] as int } else { 0int };
    (b(0) * 16777216 + b(1) * 65536 + b(2) * 256 + b(3)) as u32
}

/// Sum of two 32-bit values modulo 2^32.
pub open spec fn wrapping_add_u32(a: u32, b: u32) -> u32 {
    if a as int + b as int > u32::MAX { (a as int + b as int - 0x1_0000_0000) as u32 } else { (
    a as int + b as int) as u32 }
}

/// Wrapping sum of the first `n` big-endian 32-bit words of `s`, where a
/// partial last word is padded with zeros.
pub open spec fn word_sum(s: Seq<u8>, n: nat) -> u32
    decreases n,
{
    if n == 0 {
        0
    } else {
        wrapping_add_u32(word_sum(s, (n - 1) as nat), padded_word(s, 4 * (n - 1)))
    }
}

/// The sfnt table checksum: the wrapping sum of the zero-padded words.
pub open spec fn checksum(s: Seq<u8>) -> u32 {
    word_sum(s, ((s.len() + 3) / 4) as nat)
}

/// The checksum that only counts whole words (a trailing partial word is
/// ignored).
pub open spec fn whole_word_checksum(s: Seq<u8>) -> u32 {
    word_sum(s, (s.len() / 4) as nat)
}

/// Where a read falls inside the right part of a concatenation.
pub broadcast proof fn lemma_be_u16_add_right(a: Seq<u8>, b: Seq<u8>, i: int)
    requires
        a.len() <= i,
        i + 2 <= a.len() + b.len(),
    ensures
        #[trigger] be_u16(a + b, i) == be_u16(b, i - a.len()),
{
    reveal(be_u16);
}

/// Where a read falls inside the left part of a concatenation.
pub broadcast proof fn lemma_be_u16_add_left(a: Seq<u8>, b: Seq<u8>, i: int)
    requires
        0 <= i,
        i + 2 <= a.len(),
    ensures
        #[trigger] be_u16(a + b, i) == be_u16(a, i),
{
    reveal(be_u16);
}

pub broadcast proof fn lemma_be_u16_subrange(s: Seq<u8>, lo: int, hi: int, k: int)
    requires
        0 <= lo <= hi <= s.len(),
        0 <= k,
        k + 2 <= hi - lo,
    ensures
        #[trigger] be_u16(s.subrange(lo, hi), k) == be_u16(s, lo + k),
{
    reveal(be_u16);
}

pub broadcast proof fn lemma_be_u16_bytes(v: u16)
    ensures
        #[trigger] be_u16(u16_bytes(v), 0) == v,
{
    reveal(be_u16);
}

pub broadcast proof fn lemma_be_u24_add_right(a: Seq<u8>, b: Seq<u8>, i: int)
    requires
        a.len() <= i,
        i + 3 <= a.len() + b.len(),
    ensures
        #[trigger] be_u24(a + b, i) == be_u24(b, i - a.len()),
{
    reveal(be_u24);
}

pub broadcast proof fn lemma_be_u24_add_left(a: Seq<u8>, b: Seq<u8>, i: int)
    requires
        0 <= i,
        i + 3 <= a.len(),
    ensures
        #[trigger] be_u24(a + b, i) == be_u24(a, i),
{
    reveal(be_u24);
}

pub broadcast proof fn lemma_be_u24_subrange(s: Seq<u8>, lo: int, hi: int, k: int)
    requires
        0 <= lo <= hi <= s.len(),
        0 <= k,
        k + 3 <= hi - lo,
    ensures
        #[trigger] be_u24(s.subrange(lo, hi), k) == be_u24(s, lo + k),
{
    reveal(be_u24);
}

pub broadcast proof fn lemma_be_u24_bytes(v: u32)
    requires
        v < 0x100_0000,
    ensures
        #[trigger] be_u24(u24_bytes(v), 0) == v,
{
    reveal(be_u24);
}

pub broadcast proof fn lemma_be_u32_add_right(a: Seq<u8>, b: Seq<u8>, i: int)
    requires
        a.len() <= i,
        i + 4 <= a.len() + b.len(),
    ensures
        #[trigger] be_u32(a + b, i) == be_u32(b, i - a.len()),
{
    reveal(be_u32);
}

pub broadcast proof fn lemma_be_u32_add_left(a: Seq<u8>, b: Seq<u8>, i: int)
    requires
        0 <= i,
        i + 4 <= a.len(),
    ensures
        #[trigger] be_u32(a + b, i) == be_u32(a, i),
{
    reveal(be_u32);
}

pub broadcast proof fn lemma_be_u32_subrange(s: Seq<u8>, lo: int, hi: int, k: int)
    requires
        0 <= lo <= hi <= s.len(),
        0 <= k,
        k + 4 <= hi - lo,
    ensures
        #[trigger] be_u32(s.subrange(lo, hi), k) == be_u32(s, lo + k),
{
    reveal(be_u32);
}

pub broadcast proof fn lemma_be_u32_bytes(v: u32)
    ensures
        #[trigger] be_u32(u32_bytes(v), 0) == v,
{
    reveal(be_u32);
}

pub broadcast proof fn lemma_u64_bytes_len(v: u64)
    ensures
        #[trigger] u64_bytes(v).len() == 8,
{
}

pub broadcast proof fn lemma_be_u64_bytes(v: u64)
    ensures
        #[trigger] be_u64(u64_bytes(v), 0) == v,
{
    let hi = (v / 4294967296) as u32;
    let lo = (v % 4294967296) as u32;
    lemma_be_u32_add_left(u32_bytes(hi), u32_bytes(lo), 0);
    lemma_be_u32_add_right(u32_bytes(hi), u32_bytes(lo), 4);
    lemma_be_u32_bytes(hi);
    lemma_be_u32_bytes(lo);
}

/// The facts that connect the byte encoders to the byte decoders.
pub broadcast group group_codec {
    lemma_be_u16_add_right,
    lemma_be_u16_add_left,
    lemma_be_u16_subrange,
    lemma_be_u16_bytes,
    lemma_be_u24_add_right,
    lemma_be_u24_add_left,
    lemma_be_u24_subrange,
    lemma_be_u24_bytes,
    lemma_be_u32_add_right,
    lemma_be_u32_add_left,
    lemma_be_u32_subrange,
    lemma_be_u32_bytes,
    lemma_u64_bytes_len,
    lemma_be_u64_bytes,
}

} // verus!
