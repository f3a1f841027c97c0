//! A cursor over a byte buffer that reads big-endian values.
use vstd::prelude::*;
use crate::codec::{
    be_i16, be_i32, be_i64, be_u16, be_u24, be_u32, be_u64, checksum, padded_word, u16_as_i16,
    u32_as_i32, u64_as_i64, whole_word_checksum, word_sum,
};
use crate::error::{FontError, Tag};

verus! {

/// A read position in a borrowed byte buffer.
pub struct Parser<'a> {
    buf: &'a [u8],
    offset: usize,
}

/// `e` is the out-of-bounds error for reading `length` bytes at `offset`.
pub open spec fn is_out_of_bounds(e: FontError, offset: int, length: int, buf_len: int) -> bool {
    e matches FontError::OutOfBounds { offset: o, length: l, buf_len: b } && o == offset
        && l == length && b == buf_len
}

/// The outcome of reading `n` bytes with `p0` whose decoded value is
/// `val`: on success the position moves by `n`; when fewer than `n` bytes
/// remain the read fails with an out-of-bounds error and nothing moves.
pub open spec fn read_result<'a, T>(
    p0: Parser<'a>,
    p1: Parser<'a>,
    n: int,
    r: Result<T, FontError>,
    val: T,
) -> bool {
    &&& p1.data() == p0.data()
    &&& if p0.pos() + n <= p0.data().len() {
        r == Ok::<T, FontError>(val) && p1.pos() == p0.pos() + n
    } else {
        &&& p1.pos() == p0.pos()
        &&& r matches Err(e) && is_out_of_bounds(e, p0.pos(), n, p0.data().len() as int)
    }
}

impl<'a> Parser<'a> {
    /// The whole buffer.
    pub closed spec fn data(&self) -> Seq<u8> {
        self.buf@
    }

    /// The current read position.
    pub closed spec fn pos(&self) -> int {
        self.offset as int
    }

    pub proof fn lemma_bounds(&self)
        ensures
            0 <= self.pos() <= usize::MAX,
            self.data().len() <= usize::MAX,
    {
        assert(self.buf@.len() == self.buf.len());
    }

    pub fn new(buf: &'a [u8], offset: usize) -> (p: Self)
        ensures
            p.data() == buf@,
            p.pos() == offset,
    {
        Parser { buf, offset }
    }

    pub fn buf(&self) -> (b: &'a [u8])
        ensures
            b@ == self.data(),
    {
        self.buf
    }

    pub fn offset(&self) -> (o: usize)
        ensures
            o == self.pos(),
    {
        self.offset
    }

    pub fn remaining(&self) -> (r: usize)
        ensures
            r == if self.pos() < self.data().len() { self.data().len() - self.pos() } else { 0 },
    {
        self.buf.len().saturating_sub(self.offset)
    }

    pub fn seek(&mut self, offset: usize)
        ensures
            final(self).data() == old(self).data(),
            final(self).pos() == offset,
    {
        self.offset = offset;
    }

    pub fn advance(&mut self, n: usize)
        requires
            old(self).pos() + n <= usize::MAX,
        ensures
            final(self).data() == old(self).data(),
            final(self).pos() == old(self).pos() + n,
    {
        self.offset += n;
    }

    /// The `len` bytes at the current position, without moving.
    pub fn slice(&self, len: usize) -> (r: Result<&'a [u8], FontError>)
        ensures
            match r {
                Ok(s) => self.pos() + len <= self.data().len() && s@ == self.data().subrange(
                    self.pos(),
                    self.pos() + len,
                ),
                Err(e) => self.pos() + len > self.data().len() && is_out_of_bounds(
                    e,
                    self.pos(),
                    len as int,
                    self.data().len() as int,
                ),
            },
    {
        let end = match self.offset.checked_add(len) {
            Some(end) => end,
            None => {
                return Err(
                    FontError::OutOfBounds {
                        offset: self.offset,
                        length: len,
                        buf_len: self.buf.len(),
                    },
                );
            },
        };
        if end > self.buf.len() {
            return Err(
                FontError::OutOfBounds { offset: self.offset, length: len, buf_len: self.buf.len() },
            );
        }
        Ok(vstd::slice::slice_subrange(self.buf, self.offset, end))
    }

    pub fn u8(&mut self) -> (r: Result<u8, FontError>)
        ensures
            read_result(*old(self), *final(self), 1, r, old(self).data()[old(self).pos()]),
    {
        proof {
            self.lemma_bounds();
        }
        let b = self.slice(1)?;
        self.offset += 1;
        Ok(b[0])
    }

    pub fn u16(&mut self) -> (r: Result<u16, FontError>)
        ensures
            read_result(*old(self), *final(self), 2, r, be_u16(old(self).data(), old(self).pos())),
    {
        proof {
            self.lemma_bounds();
        }
        let b = self.slice(2)?;
        self.offset += 2;
        proof {
            reveal(be_u16);
        }
        Ok(b[0] as u16 * 256 + b[1] as u16)
    }

    pub fn i16(&mut self) -> (r: Result<i16, FontError>)
        ensures
            read_result(*old(self), *final(self), 2, r, be_i16(old(self).data(), old(self).pos())),
    {
        let v = self.u16()?;
        Ok(u16_to_i16(v))
    }

    pub fn u24(&mut self) -> (r: Result<u32, FontError>)
        ensures
            read_result(*old(self), *final(self), 3, r, be_u24(old(self).data(), old(self).pos())),
    {
        proof {
            self.lemma_bounds();
        }
        let b = self.slice(3)?;
        self.offset += 3;
        proof {
            reveal(be_u24);
        }
        Ok(b[0] as u32 * 65536 + b[1] as u32 * 256 + b[2] as u32)
    }

    pub fn u32(&mut self) -> (r: Result<u32, FontError>)
        ensures
            read_result(*old(self), *final(self), 4, r, be_u32(old(self).data(), old(self).pos())),
    {
        proof {
            self.lemma_bounds();
        }
        let b = self.slice(4)?;
        self.offset += 4;
        proof {
            reveal(be_u32);
        }
        Ok(b[0] as u32 * 16777216 + b[1] as u32 * 65536 + b[2] as u32 * 256 + b[3] as u32)
    }

    pub fn i32(&mut self) -> (r: Result<i32, FontError>)
        ensures
            read_result(*old(self), *final(self), 4, r, be_i32(old(self).data(), old(self).pos())),
    {
        let v = self.u32()?;
        Ok(u32_to_i32(v))
    }

    pub fn u64(&mut self) -> (r: Result<u64, FontError>)
        ensures
            read_result(*old(self), *final(self), 8, r, be_u64(old(self).data(), old(self).pos())),
    {
        proof {
            self.lemma_bounds();
        }
        let b = self.slice(8)?;
        self.offset += 8;
        proof {
            reveal(be_u32);
        }
        let hi = b[0] as u32 * 16777216 + b[1] as u32 * 65536 + b[2] as u32 * 256 + b[3] as u32;
        let lo = b[4] as u32 * 16777216 + b[5] as u32 * 65536 + b[6] as u32 * 256 + b[7] as u32;
        Ok(hi as u64 * 4294967296 + lo as u64)
    }

    pub fn i64(&mut self) -> (r: Result<i64, FontError>)
        ensures
            read_result(*old(self), *final(self), 8, r, be_i64(old(self).data(), old(self).pos())),
    {
        let v = self.u64()?;
        Ok(u64_to_i64(v))
    }

    pub fn tag(&mut self) -> (r: Result<Tag, FontError>)
        ensures
            read_result(
                *old(self),
                *final(self),
                4,
                r,
                tag_at(old(self).data(), old(self).pos()),
            ),
    {
        proof {
            self.lemma_bounds();
        }
        let b = self.slice(4)?;
        self.offset += 4;
        let t = Tag([b[0], b[1], b[2], b[3]]);
        proof {
            assert(t.0@ =~= tag_at(old(self).data(), old(self).pos()).0@);
        }
        Ok(t)
    }

    /// A 16.16 fixed-point number, as its raw 32-bit value.
    pub fn fixed(&mut self) -> (r: Result<i32, FontError>)
        ensures
            read_result(*old(self), *final(self), 4, r, be_i32(old(self).data(), old(self).pos())),
    {
        self.i32()
    }

    /// Seconds since 1904-01-01, as a signed 64-bit value.
    pub fn longdatetime(&mut self) -> (r: Result<i64, FontError>)
        ensures
            read_result(*old(self), *final(self), 8, r, be_i64(old(self).data(), old(self).pos())),
    {
        self.i64()
    }

    /// The checksum of the `length` bytes at the current position, without
    /// moving.
    pub fn checksum(&mut self, length: usize) -> (r: Result<u32, FontError>)
        ensures
            *final(self) == *old(self),
            match r {
                Ok(c) => old(self).pos() + length <= old(self).data().len() && c == checksum(
                    old(self).data().subrange(old(self).pos(), old(self).pos() + length),
                ),
                Err(e) => old(self).pos() + length > old(self).data().len() && is_out_of_bounds(
                    e,
                    old(self).pos(),
                    length as int,
                    old(self).data().len() as int,
                ),
            },
    {
        let data = self.slice(length)?;
        Ok(checksum_table(data))
    }
}

/// The tag spelled by the four bytes at `i`.
pub open spec fn tag_at(s: Seq<u8>, i: int) -> Tag {
    Tag([s[i], s[i + 1], s[i + 2], s[i + 3]])
}

pub fn u16_to_i16(v: u16) -> (r: i16)
    ensures
        r == u16_as_i16(v),
{
    if v < 32768 {
        v as i16
    } else {
        (v as i32 - 65536) as i16
    }
}

pub fn u32_to_i32(v: u32) -> (r: i32)
    ensures
        r == u32_as_i32(v),
{
    if v < 0x8000_0000 {
        v as i32
    } else {
        (v as i64 - 0x1_0000_0000) as i32
    }
}

pub fn u64_to_i64(v: u64) -> (r: i64)
    ensures
        r == u64_as_i64(v),
{
    if v < 0x8000_0000_0000_0000 {
        v as i64
    } else {
        (v as i128 - 0x1_0000_0000_0000_0000) as i64
    }
}

/// The big-endian word at `i`, bytes past the end read as zero.
fn padded_word_at(data: &[u8], i: usize) -> (w: u32)
    requires
        i < data@.len(),
    ensures
        w == padded_word(data@, i as int),
{
    let n = data.len();
    let b0 = data[i] as u32;
    let b1 = if n - i > 1 { data[i + 1] as u32 } else { 0 };
    let b2 = if n - i > 2 { data[i + 2] as u32 } else { 0 };
    let b3 = if n - i > 3 { data[i + 3] as u32 } else { 0 };
    b0 * 16777216 + b1 * 65536 + b2 * 256 + b3
}

/// The sfnt checksum of `data`: the wrapping sum of its big-endian 32-bit
/// words, a trailing partial word padded with zeros.
pub fn checksum_table(data: &[u8]) -> (sum: u32)
    ensures
        sum == checksum(data@),
{
    let mut sum: u32 = 0;
    let mut i: usize = 0;
    let n = data.len();
    while i < n
        invariant
            n == data@.len(),
            i % 4 == 0,
            i <= n,
            sum == word_sum(data@, (i / 4) as nat),
        decreases n - i,
    {
        let w = padded_word_at(data, i);
        proof {
            assert(((i + 4) / 4) as nat == (i / 4) as nat + 1);
            assert(4 * ((i / 4) as nat) == i);
        }
        sum = sum.wrapping_add(w);
        if n - i <= 4 {
            proof {
                assert(((n + 3) / 4) as nat == (i / 4) as nat + 1);
            }
            return sum;
        }
        i += 4;
    }
    proof {
        assert(i == n);
        assert(((n + 3) / 4) as nat == (i / 4) as nat);
    }
    sum
}

/// The wrapping sum of the whole big-endian 32-bit words of `data`; a
/// trailing partial word is not counted.
pub fn checksum_whole_words(data: &[u8]) -> (sum: u32)
    ensures
        sum == whole_word_checksum(data@),
{
    let mut sum: u32 = 0;
    let mut i: usize = 0;
    let n = data.len();
    while n - i >= 4
        invariant
            n == data@.len(),
            i % 4 == 0,
            i <= n,
            sum == word_sum(data@, (i / 4) as nat),
        decreases n - i,
    {
        let w = padded_word_at(data, i);
        proof {
            assert(((i + 4) / 4) as nat == (i / 4) as nat + 1);
            assert(4 * ((i / 4) as nat) == i);
        }
        sum = sum.wrapping_add(w);
        i += 4;
    }
    proof {
        assert((n / 4) as nat == (i / 4) as nat);
    }
    sum
}

} // verus!

verus! {

/// `a + b`, or `usize::MAX` when the sum does not fit; a read at
/// `usize::MAX` always fails, so an offset that overflows is reported as out
/// of bounds.
pub fn offset_add(a: usize, b: usize) -> (r: usize)
    ensures
        r == if a + b <= usize::MAX { a + b } else { usize::MAX as int },
{
    a.saturating_add(b)
}

} // verus!
