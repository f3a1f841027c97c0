//! `head`: the font header.
use vstd::prelude::*;
use crate::codec::{
    be_i16, be_i32, be_i64, be_u16, be_u32, i16_bytes, i32_bytes, i64_bytes, u16_bytes,
    u32_bytes,
};
use crate::error::{FontError, Tag};
use crate::parse::Parser;
use crate::tables::Table;
use crate::write::Writer;

verus! {

broadcast use crate::codec::group_codec;

#[derive(Debug, Clone, Copy, PartialEq, Eq, Structural)]
pub struct Head {
    pub major_version: u16,
    pub minor_version: u16,
    pub font_revision: i32,
    pub check_sum_adjustment: u32,
    pub magic_number: u32,
    pub flags: u16,
    pub units_per_em: u16,
    pub created: i64,
    pub modified: i64,
    pub x_min: i16,
    pub y_min: i16,
    pub x_max: i16,
    pub y_max: i16,
    pub mac_style: u16,
    pub lowest_rec_ppem: u16,
    pub font_direction_hint: i16,
    pub index_to_loc_format: i16,
    pub glyph_data_format: i16,
}

/// Size of the `head` table in bytes.
pub const HEAD_SIZE: usize = 54;

impl Head {
    /// The `head` table spelled by the first bytes of `s`.
    pub open spec fn decode(s: Seq<u8>) -> Head {
        Head {
            major_version: be_u16(s, 0),
            minor_version: be_u16(s, 2),
            font_revision: be_i32(s, 4),
            check_sum_adjustment: be_u32(s, 8),
            magic_number: be_u32(s, 12),
            flags: be_u16(s, 16),
            units_per_em: be_u16(s, 18),
            created: be_i64(s, 20),
            modified: be_i64(s, 28),
            x_min: be_i16(s, 36),
            y_min: be_i16(s, 38),
            x_max: be_i16(s, 40),
            y_max: be_i16(s, 42),
            mac_style: be_u16(s, 44),
            lowest_rec_ppem: be_u16(s, 46),
            font_direction_hint: be_i16(s, 48),
            index_to_loc_format: be_i16(s, 50),
            glyph_data_format: be_i16(s, 52),
        }
    }

    /// The bytes of this table.
    pub open spec fn encode(self) -> Seq<u8> {
        u16_bytes(self.major_version) + u16_bytes(self.minor_version) + i32_bytes(
            self.font_revision,
        ) + u32_bytes(self.check_sum_adjustment) + u32_bytes(self.magic_number) + u16_bytes(
            self.flags,
        ) + u16_bytes(self.units_per_em) + i64_bytes(self.created) + i64_bytes(self.modified)
            + i16_bytes(self.x_min) + i16_bytes(self.y_min) + i16_bytes(self.x_max) + i16_bytes(
            self.y_max,
        ) + u16_bytes(self.mac_style) + u16_bytes(self.lowest_rec_ppem) + i16_bytes(
            self.font_direction_hint,
        ) + i16_bytes(self.index_to_loc_format) + i16_bytes(self.glyph_data_format)
    }
}

impl Table for Head {
    open spec fn writable(&self) -> bool {
        true
    }

    fn tag() -> (t: Tag)
        ensures
            t.0@ == seq![0x68u8, 0x65, 0x61, 0x64],
    {
        Tag([0x68, 0x65, 0x61, 0x64])
    }

    fn parse(buf: &[u8], offset: usize) -> (r: Result<Self, FontError>)
        ensures
            match r {
                Ok(h) => offset + HEAD_SIZE <= buf@.len() && h == Head::decode(
                    buf@.subrange(offset as int, offset + HEAD_SIZE),
                ),
                Err(e) => offset + HEAD_SIZE > buf@.len() && e is OutOfBounds,
            },
    {
        let mut p = Parser::new(buf, offset);
        Ok(
            Head {
                major_version: p.u16()?,
                minor_version: p.u16()?,
                font_revision: p.fixed()?,
                check_sum_adjustment: p.u32()?,
                magic_number: p.u32()?,
                flags: p.u16()?,
                units_per_em: p.u16()?,
                created: p.longdatetime()?,
                modified: p.longdatetime()?,
                x_min: p.i16()?,
                y_min: p.i16()?,
                x_max: p.i16()?,
                y_max: p.i16()?,
                mac_style: p.u16()?,
                lowest_rec_ppem: p.u16()?,
                font_direction_hint: p.i16()?,
                index_to_loc_format: p.i16()?,
                glyph_data_format: p.i16()?,
            },
        )
    }

    fn write(&self, w: &mut Writer) -> (r: Result<(), FontError>)
        ensures
            r is Ok,
            final(w)@ == old(w)@ + self.encode(),
    {
        w.write_u16(self.major_version);
        w.write_u16(self.minor_version);
        w.write_fixed(self.font_revision);
        w.write_u32(self.check_sum_adjustment);
        w.write_u32(self.magic_number);
        w.write_u16(self.flags);
        w.write_u16(self.units_per_em);
        w.write_longdatetime(self.created);
        w.write_longdatetime(self.modified);
        w.write_i16(self.x_min);
        w.write_i16(self.y_min);
        w.write_i16(self.x_max);
        w.write_i16(self.y_max);
        w.write_u16(self.mac_style);
        w.write_u16(self.lowest_rec_ppem);
        w.write_i16(self.font_direction_hint);
        w.write_i16(self.index_to_loc_format);
        w.write_i16(self.glyph_data_format);
        proof {
            assert(w@ =~= old(w)@ + self.encode());
        }
        Ok(())
    }
}

/// Reading back what was written gives the same `head`.
pub proof fn lemma_head_roundtrip(h: Head)
    ensures
        h.encode().len() == HEAD_SIZE,
        Head::decode(h.encode()) == h,
{
    let e = h.encode();
    assert(e.len() == 54);
    assert(be_u16(e, 0) == h.major_version);
    assert(be_u16(e, 2) == h.minor_version);
    assert(be_i32(e, 4) == h.font_revision);
    assert(be_u32(e, 8) == h.check_sum_adjustment);
    assert(be_u32(e, 12) == h.magic_number);
    assert(be_u16(e, 16) == h.flags);
    assert(be_u16(e, 18) == h.units_per_em);
    assert(be_i64(e, 20) == h.created);
    assert(be_i64(e, 28) == h.modified);
    assert(be_i16(e, 36) == h.x_min);
    assert(be_i16(e, 38) == h.y_min);
    assert(be_i16(e, 40) == h.x_max);
    assert(be_i16(e, 42) == h.y_max);
    assert(be_u16(e, 44) == h.mac_style);
    assert(be_u16(e, 46) == h.lowest_rec_ppem);
    assert(be_i16(e, 48) == h.font_direction_hint);
    assert(be_i16(e, 50) == h.index_to_loc_format);
    assert(be_i16(e, 52) == h.glyph_data_format);
}

} // verus!
