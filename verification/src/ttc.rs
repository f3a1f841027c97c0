//! TrueType collections: several fonts in one file.
use vstd::prelude::*;
use crate::codec::be_u32;
use crate::error::{FontError, Tag};
use crate::font::Font;
use crate::font_read::{read_error, read_ok};
use crate::parse::Parser;
use crate::text::{font_index_message, ttc_tag_message};

verus! {

#[derive(Debug, Clone, PartialEq)]
pub struct Ttc {
    pub version: u32,
    pub num_fonts: u32,
    pub offsets: Vec<u32>,
    pub dsig_tag: Option<u32>,
    pub dsig_length: Option<u32>,
    pub dsig_offset: Option<u32>,
}

/// The tag that opens a collection: `ttcf`.
pub open spec fn ttcf() -> u32 {
    0x74746366
}

/// The length of a collection header: the fixed part, the offsets, and for
/// version 2 the DSIG fields.
pub open spec fn ttc_header_len(s: Seq<u8>) -> int {
    12 + 4 * be_u32(s, 8) + (if be_u32(s, 4) == 0x00020000 {
        12int
    } else {
        0int
    })
}

pub open spec fn ttc_fits(s: Seq<u8>) -> bool {
    s.len() >= 12 && be_u32(s, 0) == ttcf() && ttc_header_len(s) <= s.len()
}

/// The header a collection reads as.
pub open spec fn ttc_parsed(t: Ttc, s: Seq<u8>) -> bool {
    let n = be_u32(s, 8);
    let v2 = be_u32(s, 4) == 0x00020000;
    &&& t.version == be_u32(s, 4)
    &&& t.num_fonts == n
    &&& t.offsets@ == Seq::new(n as nat, |k: int| be_u32(s, 12 + 4 * k))
    &&& t.dsig_tag == (if v2 {
        Some(be_u32(s, 12 + 4 * n))
    } else {
        None
    })
    &&& t.dsig_length == (if v2 {
        Some(be_u32(s, 16 + 4 * n))
    } else {
        None
    })
    &&& t.dsig_offset == (if v2 {
        Some(be_u32(s, 20 + 4 * n))
    } else {
        None
    })
}

/// What `read` says of the font that starts at `off`.
pub open spec fn read_at(r: Result<Font, FontError>, s: Seq<u8>, off: int) -> bool {
    match r {
        Ok(f) => read_ok(f, s.subrange(off, s.len() as int)),
        Err(e) => read_error(e, s.subrange(off, s.len() as int)),
    }
}

impl Ttc {
    /// Reads a collection header.
    pub fn parse(buf: &[u8]) -> (r: Result<Self, FontError>)
        ensures
            match r {
                Ok(t) => ttc_fits(buf@) && ttc_parsed(t, buf@),
                Err(e) => {
                    &&& !ttc_fits(buf@)
                    &&& if buf@.len() >= 4 && be_u32(buf@, 0) != ttcf() {
                        e matches FontError::InvalidTable { tag: t, reason } && t.0@ == seq![
                            0x74u8,
                            0x74,
                            0x63,
                            0x66,
                        ] && reason@ == "Expected ttcTag 0x74746366, got 0x"@ + crate::text::hex8(
                            be_u32(buf@, 0),
                        )
                    } else {
                        e is OutOfBounds
                    }
                },
            },
    {
        let ghost s = buf@;
        let mut p = Parser::new(buf, 0);
        let tag = p.u32()?;
        if tag != 0x74746366 {
            let t = Tag([0x74, 0x74, 0x63, 0x66]);
            assert(t.0@ =~= seq![0x74u8, 0x74, 0x63, 0x66]);
            let msg = ttc_tag_message(tag);
            return Err(FontError::invalid_table(t, msg.as_str()));
        }
        let version = p.u32()?;
        let num_fonts = p.u32()?;
        let mut offsets: Vec<u32> = Vec::new();
        let mut k: u32 = 0;
        while k < num_fonts
            invariant
                s == buf@,
                p.data() == s,
                s.len() >= 12,
                be_u32(s, 0) == ttcf(),
                version == be_u32(s, 4),
                num_fonts == be_u32(s, 8),
                k <= num_fonts,
                p.pos() == 12 + 4 * k,
                12 + 4 * k <= s.len(),
                offsets@ == Seq::new(k as nat, |j: int| be_u32(s, 12 + 4 * j)),
            decreases num_fonts - k,
        {
            let v = p.u32()?;
            offsets.push(v);
            k += 1;
            proof {
                assert(offsets@ =~= Seq::new(k as nat, |j: int| be_u32(s, 12 + 4 * j)));
            }
        }
        let (dsig_tag, dsig_length, dsig_offset) = if version == 0x00020000 {
            let a = p.u32()?;
            let b = p.u32()?;
            let c = p.u32()?;
            (Some(a), Some(b), Some(c))
        } else {
            (None, None, None)
        };
        Ok(Ttc { version, num_fonts, offsets, dsig_tag, dsig_length, dsig_offset })
    }

    /// Reads the font at position `index` of the collection.
    pub fn font_at(&self, buf: &[u8], index: usize) -> (r: Result<Font, FontError>)
        requires
            index < self.offsets@.len() ==> self.offsets@[index as int] <= buf@.len(),
        ensures
            index >= self.offsets@.len() ==> (r matches Err(FontError::InvalidTable { tag: t, reason })
                && t.0@ == seq![0x74u8, 0x74, 0x63, 0x66] && reason@ == "Font index "@
                + crate::text::decimal(index as nat) + " out of range ("@ + crate::text::decimal(
                self.num_fonts as nat,
            ) + " fonts)"@),
            index < self.offsets@.len() ==> read_at(r, buf@, self.offsets@[index as int] as int),
    {
        if index >= self.offsets.len() {
            let t = Tag([0x74, 0x74, 0x63, 0x66]);
            assert(t.0@ =~= seq![0x74u8, 0x74, 0x63, 0x66]);
            let msg = font_index_message(index, self.num_fonts);
            return Err(FontError::invalid_table(t, msg.as_str()));
        }
        let offset = self.offsets[index] as usize;
        let rest = vstd::slice::slice_subrange(buf, offset, buf.len());
        Font::read(rest)
    }

    /// Reads every font of the collection, in order.
    pub fn fonts(&self, buf: &[u8]) -> (r: Vec<Result<Font, FontError>>)
        requires
            forall|i: int| 0 <= i < self.offsets@.len() ==> #[trigger] self.offsets@[i] <= buf@.len(),
        ensures
            r@.len() == self.offsets@.len(),
            forall|i: int|
                0 <= i < r@.len() ==> read_at(#[trigger] r@[i], buf@, self.offsets@[i] as int),
    {
        let n = self.offsets.len();
        let mut out: Vec<Result<Font, FontError>> = Vec::new();
        let mut i: usize = 0;
        while i < n
            invariant
                n == self.offsets@.len(),
                i <= n,
                forall|j: int| 0 <= j < n ==> #[trigger] self.offsets@[j] <= buf@.len(),
                out@.len() == i,
                forall|j: int| 0 <= j < i ==> read_at(#[trigger] out@[j], buf@, self.offsets@[j] as int),
            decreases n - i,
        {
            let offset = self.offsets[i] as usize;
            let rest = vstd::slice::slice_subrange(buf, offset, buf.len());
            let f = Font::read(rest);
            out.push(f);
            i += 1;
        }
        out
    }
}

} // verus!
