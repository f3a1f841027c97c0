//! A growable byte buffer that appends big-endian values.
use vstd::prelude::*;
use crate::codec::{
    i16_as_u16, i16_bytes, i32_as_u32, i32_bytes, i64_as_u64, i64_bytes, u16_bytes, u24_bytes,
    u32_bytes, u64_bytes, whole_word_checksum,
};

verus! {

/// An append-only byte buffer.
pub struct Writer {
    buf: Vec<u8>,
}

impl View for Writer {
    type V = Seq<u8>;

    closed spec fn view(&self) -> Seq<u8> {
        self.buf@
    }
}

/// `n` zero bytes.
pub open spec fn zeros(n: nat) -> Seq<u8> {
    Seq::new(n, |i: int| 0u8)
}

/// Number of zero bytes that bring a length of `len` to a multiple of 4.
pub open spec fn pad_len(len: nat) -> nat {
    ((4 - len % 4) % 4) as nat
}

/// Two's complement bit pattern of a signed byte.
pub open spec fn i8_as_u8(v: i8) -> u8 {
    if v >= 0 { v as u8 } else { (v as int + 256) as u8 }
}

impl Default for Writer {
    fn default() -> (w: Self)
        ensures
            w@ == Seq::<u8>::empty(),
    {
        Self::new()
    }
}

impl Writer {
    pub fn new() -> (w: Self)
        ensures
            w@ == Seq::<u8>::empty(),
    {
        Writer { buf: Vec::new() }
    }

    pub fn into_vec(self) -> (v: Vec<u8>)
        ensures
            v@ == self@,
    {
        self.buf
    }

    pub fn bytes(&self) -> (b: &[u8])
        ensures
            b@ == self@,
    {
        self.buf.as_slice()
    }

    pub fn len(&self) -> (n: usize)
        ensures
            n == self@.len(),
    {
        self.buf.len()
    }

    pub fn is_empty(&self) -> (b: bool)
        ensures
            b == (self@.len() == 0),
    {
        self.buf.len() == 0
    }

    pub fn write_u8(&mut self, v: u8)
        ensures
            final(self)@ == old(self)@.push(v),
    {
        self.buf.push(v);
    }

    pub fn write_i8(&mut self, v: i8)
        ensures
            final(self)@ == old(self)@.push(i8_as_u8(v)),
    {
        let b: u8 = if v >= 0 {
            v as u8
        } else {
            (v as i16 + 256) as u8
        };
        self.buf.push(b);
    }

    pub fn write_u16(&mut self, v: u16)
        ensures
            final(self)@ == old(self)@ + u16_bytes(v),
    {
        self.buf.push((v / 256) as u8);
        self.buf.push((v % 256) as u8);
        proof {
            assert(self.buf@ =~= old(self)@ + u16_bytes(v));
        }
    }

    pub fn write_i16(&mut self, v: i16)
        ensures
            final(self)@ == old(self)@ + i16_bytes(v),
    {
        let u: u16 = if v >= 0 {
            v as u16
        } else {
            (v as i32 + 65536) as u16
        };
        assert(u == i16_as_u16(v));
        self.write_u16(u);
    }

    /// Appends the low 24 bits of `v`.
    pub fn write_u24(&mut self, v: u32)
        ensures
            final(self)@ == old(self)@ + u24_bytes(v),
    {
        self.buf.push(((v / 65536) % 256) as u8);
        self.buf.push(((v / 256) % 256) as u8);
        self.buf.push((v % 256) as u8);
        proof {
            assert(self.buf@ =~= old(self)@ + u24_bytes(v));
        }
    }

    pub fn write_u32(&mut self, v: u32)
        ensures
            final(self)@ == old(self)@ + u32_bytes(v),
    {
        self.buf.push((v / 16777216) as u8);
        self.buf.push(((v / 65536) % 256) as u8);
        self.buf.push(((v / 256) % 256) as u8);
        self.buf.push((v % 256) as u8);
        proof {
            assert(self.buf@ =~= old(self)@ + u32_bytes(v));
        }
    }

    pub fn write_i32(&mut self, v: i32)
        ensures
            final(self)@ == old(self)@ + i32_bytes(v),
    {
        let u: u32 = if v >= 0 {
            v as u32
        } else {
            (v as i64 + 0x1_0000_0000) as u32
        };
        assert(u == i32_as_u32(v));
        self.write_u32(u);
    }

    pub fn write_u64(&mut self, v: u64)
        ensures
            final(self)@ == old(self)@ + u64_bytes(v),
    {
        self.write_u32((v / 4294967296) as u32);
        self.write_u32((v % 4294967296) as u32);
        proof {
            assert(self.buf@ =~= old(self)@ + u64_bytes(v));
        }
    }

    pub fn write_tag(&mut self, tag: &[u8; 4])
        ensures
            final(self)@ == old(self)@ + tag@,
    {
        self.buf.push(tag[0]);
        self.buf.push(tag[1]);
        self.buf.push(tag[2]);
        self.buf.push(tag[3]);
        proof {
            assert(self.buf@ =~= old(self)@ + tag@);
        }
    }

    /// Appends a 16.16 fixed-point number given by its raw 32-bit value.
    pub fn write_fixed(&mut self, v: i32)
        ensures
            final(self)@ == old(self)@ + i32_bytes(v),
    {
        self.write_i32(v);
    }

    pub fn write_longdatetime(&mut self, v: i64)
        ensures
            final(self)@ == old(self)@ + i64_bytes(v),
    {
        let u: u64 = if v >= 0 {
            v as u64
        } else {
            (v as i128 + 0x1_0000_0000_0000_0000) as u64
        };
        assert(u == i64_as_u64(v));
        self.write_u64(u);
    }

    pub fn write_bytes(&mut self, bytes: &[u8])
        ensures
            final(self)@ == old(self)@ + bytes@,
    {
        let n = bytes.len();
        let mut i: usize = 0;
        while i < n
            invariant
                n == bytes@.len(),
                i <= n,
                self.buf@ == old(self)@ + bytes@.subrange(0, i as int),
            decreases n - i,
        {
            self.buf.push(bytes[i]);
            i += 1;
            proof {
                assert(self.buf@ =~= old(self)@ + bytes@.subrange(0, i as int));
            }
        }
        proof {
            assert(bytes@.subrange(0, n as int) =~= bytes@);
        }
    }

    /// Appends zero bytes until the length is a multiple of 4.
    pub fn pad_to_4(&mut self)
        ensures
            final(self)@ == old(self)@ + zeros(pad_len(old(self)@.len())),
            final(self)@.len() % 4 == 0,
    {
        let ghost start = self.buf@.len();
        while self.buf.len() % 4 != 0
            invariant
                start == old(self)@.len(),
                start <= self.buf@.len() <= start + 3,
                self.buf@.len() - start <= pad_len(start),
                self.buf@ == old(self)@ + zeros((self.buf@.len() - start) as nat),
            decreases start + pad_len(start) - self.buf@.len(),
        {
            self.buf.push(0);
            proof {
                assert(self.buf@ =~= old(self)@ + zeros((self.buf@.len() - start) as nat));
            }
        }
    }

    /// The checksum of the whole words among the `length` bytes at
    /// `start`; a trailing partial word is not counted.
    pub fn checksum(&self, start: usize, length: usize) -> (sum: u32)
        requires
            start + length <= self@.len(),
        ensures
            sum == whole_word_checksum(self@.subrange(start as int, start + length)),
    {
        let buf = self.buf.as_slice();
        let _n = buf.len();
        let data = vstd::slice::slice_subrange(buf, start, start + length);
        crate::parse::checksum_whole_words(data)
    }
}

} // verus!
