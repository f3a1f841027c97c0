//! `hhea`: the horizontal header.
use vstd::prelude::*;
use crate::codec::{be_i16, be_u16, i16_bytes, u16_bytes};
use crate::error::{FontError, Tag};
use crate::parse::Parser;
use crate::tables::Table;
use crate::write::Writer;

verus! {

broadcast use crate::codec::group_codec;

#[derive(Debug, Clone, Copy, PartialEq)]
pub struct Hhea {
    pub major_version: u16,
    pub minor_version: u16,
    pub ascender: i16,
    pub descender: i16,
    pub line_gap: i16,
    pub advance_width_max: u16,
    pub min_left_side_bearing: i16,
    pub min_right_side_bearing: i16,
    pub x_max_extent: i16,
    pub caret_slope_rise: i16,
    pub caret_slope_run: i16,
    pub caret_offset: i16,
    pub reserved: [i16; 4],
    pub metric_data_format: i16,
    pub number_of_hmetrics: u16,
}

/// Size of the `hhea` table in bytes.
pub const HHEA_SIZE: usize = 36;

impl Hhea {
    /// The `hhea` table spelled by the first bytes of `s`.
    pub open spec fn decode(s: Seq<u8>) -> Hhea {
        Hhea {
            major_version: be_u16(s, 0),
            minor_version: be_u16(s, 2),
            ascender: be_i16(s, 4),
            descender: be_i16(s, 6),
            line_gap: be_i16(s, 8),
            advance_width_max: be_u16(s, 10),
            min_left_side_bearing: be_i16(s, 12),
            min_right_side_bearing: be_i16(s, 14),
            x_max_extent: be_i16(s, 16),
            caret_slope_rise: be_i16(s, 18),
            caret_slope_run: be_i16(s, 20),
            caret_offset: be_i16(s, 22),
            reserved: [be_i16(s, 24), be_i16(s, 26), be_i16(s, 28), be_i16(s, 30)],
            metric_data_format: be_i16(s, 32),
            number_of_hmetrics: be_u16(s, 34),
        }
    }

    /// The bytes of this table.
    pub open spec fn encode(self) -> Seq<u8> {
        u16_bytes(self.major_version) + u16_bytes(self.minor_version) + i16_bytes(self.ascender)
            + i16_bytes(self.descender) + i16_bytes(self.line_gap) + u16_bytes(
            self.advance_width_max,
        ) + i16_bytes(self.min_left_side_bearing) + i16_bytes(self.min_right_side_bearing)
            + i16_bytes(self.x_max_extent) + i16_bytes(self.caret_slope_rise) + i16_bytes(
            self.caret_slope_run,
        ) + i16_bytes(self.caret_offset) + i16_bytes(self.reserved[0]) + i16_bytes(
            self.reserved[1],
        ) + i16_bytes(self.reserved[2]) + i16_bytes(self.reserved[3]) + i16_bytes(
            self.metric_data_format,
        ) + u16_bytes(self.number_of_hmetrics)
    }
}

impl Table for Hhea {
    open spec fn writable(&self) -> bool {
        true
    }

    /// `hhea`
    fn tag() -> (t: Tag)
        ensures
            t.0@ == seq![0x68u8, 0x68, 0x65, 0x61],
    {
        Tag([0x68, 0x68, 0x65, 0x61])
    }

    fn parse(buf: &[u8], offset: usize) -> (r: Result<Self, FontError>)
        ensures
            match r {
                Ok(h) => offset + HHEA_SIZE <= buf@.len() && h == Hhea::decode(
                    buf@.subrange(offset as int, offset + HHEA_SIZE),
                ),
                Err(e) => offset + HHEA_SIZE > buf@.len() && e is OutOfBounds,
            },
    {
        let mut p = Parser::new(buf, offset);
        let major_version = p.u16()?;
        let minor_version = p.u16()?;
        let ascender = p.i16()?;
        let descender = p.i16()?;
        let line_gap = p.i16()?;
        let advance_width_max = p.u16()?;
        let min_left_side_bearing = p.i16()?;
        let min_right_side_bearing = p.i16()?;
        let x_max_extent = p.i16()?;
        let caret_slope_rise = p.i16()?;
        let caret_slope_run = p.i16()?;
        let caret_offset = p.i16()?;
        let r0 = p.i16()?;
        let r1 = p.i16()?;
        let r2 = p.i16()?;
        let r3 = p.i16()?;
        let metric_data_format = p.i16()?;
        let number_of_hmetrics = p.u16()?;
        let h = Hhea {
            major_version,
            minor_version,
            ascender,
            descender,
            line_gap,
            advance_width_max,
            min_left_side_bearing,
            min_right_side_bearing,
            x_max_extent,
            caret_slope_rise,
            caret_slope_run,
            caret_offset,
            reserved: [r0, r1, r2, r3],
            metric_data_format,
            number_of_hmetrics,
        };
        proof {
            let d = Hhea::decode(buf@.subrange(offset as int, offset + HHEA_SIZE));
            assert(h.reserved =~= d.reserved);
        }
        Ok(h)
    }

    fn write(&self, w: &mut Writer) -> (r: Result<(), FontError>)
        ensures
            r is Ok,
            final(w)@ == old(w)@ + self.encode(),
    {
        w.write_u16(self.major_version);
        w.write_u16(self.minor_version);
        w.write_i16(self.ascender);
        w.write_i16(self.descender);
        w.write_i16(self.line_gap);
        w.write_u16(self.advance_width_max);
        w.write_i16(self.min_left_side_bearing);
        w.write_i16(self.min_right_side_bearing);
        w.write_i16(self.x_max_extent);
        w.write_i16(self.caret_slope_rise);
        w.write_i16(self.caret_slope_run);
        w.write_i16(self.caret_offset);
        w.write_i16(self.reserved[0]);
        w.write_i16(self.reserved[1]);
        w.write_i16(self.reserved[2]);
        w.write_i16(self.reserved[3]);
        w.write_i16(self.metric_data_format);
        w.write_u16(self.number_of_hmetrics);
        proof {
            assert(w@ =~= old(w)@ + self.encode());
        }
        Ok(())
    }
}

/// Reading back what was written gives the same `hhea`.
pub proof fn lemma_hhea_roundtrip(h: Hhea)
    ensures
        h.encode().len() == HHEA_SIZE,
        Hhea::decode(h.encode()) == h,
{
    let e = h.encode();
    assert(e.len() == 36);
    assert(be_u16(e, 0) == h.major_version);
    assert(be_u16(e, 2) == h.minor_version);
    assert(be_i16(e, 4) == h.ascender);
    assert(be_i16(e, 6) == h.descender);
    assert(be_i16(e, 8) == h.line_gap);
    assert(be_u16(e, 10) == h.advance_width_max);
    assert(be_i16(e, 12) == h.min_left_side_bearing);
    assert(be_i16(e, 14) == h.min_right_side_bearing);
    assert(be_i16(e, 16) == h.x_max_extent);
    assert(be_i16(e, 18) == h.caret_slope_rise);
    assert(be_i16(e, 20) == h.caret_slope_run);
    assert(be_i16(e, 22) == h.caret_offset);
    assert(be_i16(e, 24) == h.reserved[0]);
    assert(be_i16(e, 26) == h.reserved[1]);
    assert(be_i16(e, 28) == h.reserved[2]);
    assert(be_i16(e, 30) == h.reserved[3]);
    assert(be_i16(e, 32) == h.metric_data_format);
    assert(be_u16(e, 34) == h.number_of_hmetrics);
    assert(Hhea::decode(e).reserved =~= h.reserved);
}

} // verus!
