//! `OS/2`: OS/2 and Windows metrics.
use vstd::prelude::*;
use crate::codec::{be_i16, be_u16, be_u32, i16_bytes, u16_bytes, u32_bytes};
use crate::error::{FontError, Tag};
use crate::parse::Parser;
use crate::tables::Table;
use crate::write::Writer;

verus! {

broadcast use crate::codec::group_codec;

#[derive(Debug, Clone, Copy, PartialEq)]
pub struct Os2 {
    pub version: u16,
    pub x_avg_char_width: i16,
    pub us_weight_class: u16,
    pub us_width_class: u16,
    pub fs_type: u16,
    pub y_subscript_x_size: i16,
    pub y_subscript_y_size: i16,
    pub y_subscript_x_offset: i16,
    pub y_subscript_y_offset: i16,
    pub y_superscript_x_size: i16,
    pub y_superscript_y_size: i16,
    pub y_superscript_x_offset: i16,
    pub y_superscript_y_offset: i16,
    pub y_strikeout_size: i16,
    pub y_strikeout_position: i16,
    pub s_family_class: i16,
    pub panose: [u8; 10],
    pub ul_unicode_range1: u32,
    pub ul_unicode_range2: u32,
    pub ul_unicode_range3: u32,
    pub ul_unicode_range4: u32,
    pub ach_vend_id: [u8; 4],
    pub fs_selection: u16,
    pub us_first_char_index: u16,
    pub us_last_char_index: u16,
    pub s_typo_ascender: i16,
    pub s_typo_descender: i16,
    pub s_typo_line_gap: i16,
    pub us_win_ascent: u16,
    pub us_win_descent: u16,
    pub ul_code_page_range1: Option<u32>,
    pub ul_code_page_range2: Option<u32>,
    pub sx_height: Option<i16>,
    pub s_cap_height: Option<i16>,
    pub us_default_char: Option<u16>,
    pub us_break_char: Option<u16>,
    pub us_max_context: Option<u16>,
    pub us_lower_optical_point_size: Option<u16>,
    pub us_upper_optical_point_size: Option<u16>,
}

/// Size in bytes of an `OS/2` table of the given version.
pub open spec fn os2_size(version: u16) -> int {
    if version >= 5 {
        100
    } else if version >= 2 {
        96
    } else if version >= 1 {
        86
    } else {
        78
    }
}

impl Os2 {
    /// The `OS/2` table spelled by the first bytes of `s`.
    pub open spec fn decode(s: Seq<u8>) -> Os2 {
        let v = be_u16(s, 0);
        Os2 {
            version: v,
            x_avg_char_width: be_i16(s, 2),
            us_weight_class: be_u16(s, 4),
            us_width_class: be_u16(s, 6),
            fs_type: be_u16(s, 8),
            y_subscript_x_size: be_i16(s, 10),
            y_subscript_y_size: be_i16(s, 12),
            y_subscript_x_offset: be_i16(s, 14),
            y_subscript_y_offset: be_i16(s, 16),
            y_superscript_x_size: be_i16(s, 18),
            y_superscript_y_size: be_i16(s, 20),
            y_superscript_x_offset: be_i16(s, 22),
            y_superscript_y_offset: be_i16(s, 24),
            y_strikeout_size: be_i16(s, 26),
            y_strikeout_position: be_i16(s, 28),
            s_family_class: be_i16(s, 30),
            panose: [s[32], s[33], s[34], s[35], s[36], s[37], s[38], s[39], s[40], s[41]],
            ul_unicode_range1: be_u32(s, 42),
            ul_unicode_range2: be_u32(s, 46),
            ul_unicode_range3: be_u32(s, 50),
            ul_unicode_range4: be_u32(s, 54),
            ach_vend_id: [s[58], s[59], s[60], s[61]],
            fs_selection: be_u16(s, 62),
            us_first_char_index: be_u16(s, 64),
            us_last_char_index: be_u16(s, 66),
            s_typo_ascender: be_i16(s, 68),
            s_typo_descender: be_i16(s, 70),
            s_typo_line_gap: be_i16(s, 72),
            us_win_ascent: be_u16(s, 74),
            us_win_descent: be_u16(s, 76),
            ul_code_page_range1: if v >= 1 { Some(be_u32(s, 78)) } else { None },
            ul_code_page_range2: if v >= 1 { Some(be_u32(s, 82)) } else { None },
            sx_height: if v >= 2 { Some(be_i16(s, 86)) } else { None },
            s_cap_height: if v >= 2 { Some(be_i16(s, 88)) } else { None },
            us_default_char: if v >= 2 { Some(be_u16(s, 90)) } else { None },
            us_break_char: if v >= 2 { Some(be_u16(s, 92)) } else { None },
            us_max_context: if v >= 2 { Some(be_u16(s, 94)) } else { None },
            us_lower_optical_point_size: if v >= 5 { Some(be_u16(s, 96)) } else { None },
            us_upper_optical_point_size: if v >= 5 { Some(be_u16(s, 98)) } else { None },
        }
    }

    /// The first 32 bytes: weights, widths and script offsets.
    pub open spec fn encode_metrics(self) -> Seq<u8> {
        u16_bytes(self.version) + i16_bytes(self.x_avg_char_width) + u16_bytes(
            self.us_weight_class,
        ) + u16_bytes(self.us_width_class) + u16_bytes(self.fs_type) + i16_bytes(
            self.y_subscript_x_size,
        ) + i16_bytes(self.y_subscript_y_size) + i16_bytes(self.y_subscript_x_offset)
            + i16_bytes(self.y_subscript_y_offset) + i16_bytes(self.y_superscript_x_size)
            + i16_bytes(self.y_superscript_y_size) + i16_bytes(self.y_superscript_x_offset)
            + i16_bytes(self.y_superscript_y_offset) + i16_bytes(self.y_strikeout_size)
            + i16_bytes(self.y_strikeout_position) + i16_bytes(self.s_family_class)
    }

    /// The next 30 bytes: PANOSE, Unicode ranges and vendor.
    pub open spec fn encode_ranges(self) -> Seq<u8> {
        self.panose@ + u32_bytes(self.ul_unicode_range1) + u32_bytes(self.ul_unicode_range2)
            + u32_bytes(self.ul_unicode_range3) + u32_bytes(self.ul_unicode_range4)
            + self.ach_vend_id@
    }

    /// The next 16 bytes: selection, character range and vertical metrics.
    pub open spec fn encode_vertical(self) -> Seq<u8> {
        u16_bytes(self.fs_selection) + u16_bytes(self.us_first_char_index) + u16_bytes(
            self.us_last_char_index,
        ) + i16_bytes(self.s_typo_ascender) + i16_bytes(self.s_typo_descender) + i16_bytes(
            self.s_typo_line_gap,
        ) + u16_bytes(self.us_win_ascent) + u16_bytes(self.us_win_descent)
    }

    /// The 78 bytes every version has.
    pub open spec fn encode_base(self) -> Seq<u8> {
        self.encode_metrics() + self.encode_ranges() + self.encode_vertical()
    }

    /// The bytes of this table: the fields of later versions only when the
    /// version has them, an absent field as zero (the upper optical size as
    /// 0xFFFF).
    pub open spec fn encode(self) -> Seq<u8> {
        self.encode_base() + self.encode_versioned()
    }

    /// Each optional field is present exactly when the version has it.
    pub open spec fn fields_match_version(self) -> bool {
        &&& self.ul_code_page_range1 is Some == (self.version >= 1)
        &&& self.ul_code_page_range2 is Some == (self.version >= 1)
        &&& self.sx_height is Some == (self.version >= 2)
        &&& self.s_cap_height is Some == (self.version >= 2)
        &&& self.us_default_char is Some == (self.version >= 2)
        &&& self.us_break_char is Some == (self.version >= 2)
        &&& self.us_max_context is Some == (self.version >= 2)
        &&& self.us_lower_optical_point_size is Some == (self.version >= 5)
        &&& self.us_upper_optical_point_size is Some == (self.version >= 5)
    }
}

impl Table for Os2 {
    open spec fn writable(&self) -> bool {
        true
    }

    /// `OS/2`
    fn tag() -> (t: Tag)
        ensures
            t.0@ == seq![0x4fu8, 0x53, 0x2f, 0x32],
    {
        Tag([0x4f, 0x53, 0x2f, 0x32])
    }

    fn parse(buf: &[u8], offset: usize) -> (r: Result<Self, FontError>)
        ensures
            match r {
                Ok(o) => offset + os2_size(o.version) <= buf@.len() && o == Os2::decode(
                    buf@.subrange(offset as int, buf@.len() as int),
                ),
                Err(e) => e is OutOfBounds && (offset + 78 > buf@.len() || offset + os2_size(
                    Os2::decode(buf@.subrange(offset as int, buf@.len() as int)).version,
                ) > buf@.len()),
            },
    {
        let mut p = Parser::new(buf, offset);
        let version = p.u16()?;
        let x_avg_char_width = p.i16()?;
        let us_weight_class = p.u16()?;
        let us_width_class = p.u16()?;
        let fs_type = p.u16()?;
        let y_subscript_x_size = p.i16()?;
        let y_subscript_y_size = p.i16()?;
        let y_subscript_x_offset = p.i16()?;
        let y_subscript_y_offset = p.i16()?;
        let y_superscript_x_size = p.i16()?;
        let y_superscript_y_size = p.i16()?;
        let y_superscript_x_offset = p.i16()?;
        let y_superscript_y_offset = p.i16()?;
        let y_strikeout_size = p.i16()?;
        let y_strikeout_position = p.i16()?;
        let s_family_class = p.i16()?;
        let b = p.slice(10)?;
        proof {
            p.lemma_bounds();
        }
        p.advance(10);
        let panose = [b[0], b[1], b[2], b[3], b[4], b[5], b[6], b[7], b[8], b[9]];
        let ul_unicode_range1 = p.u32()?;
        let ul_unicode_range2 = p.u32()?;
        let ul_unicode_range3 = p.u32()?;
        let ul_unicode_range4 = p.u32()?;
        let v = p.slice(4)?;
        proof {
            p.lemma_bounds();
        }
        p.advance(4);
        let ach_vend_id = [v[0], v[1], v[2], v[3]];
        let fs_selection = p.u16()?;
        let us_first_char_index = p.u16()?;
        let us_last_char_index = p.u16()?;
        let s_typo_ascender = p.i16()?;
        let s_typo_descender = p.i16()?;
        let s_typo_line_gap = p.i16()?;
        let us_win_ascent = p.u16()?;
        let us_win_descent = p.u16()?;
        let mut os2 = Os2 {
            version,
            x_avg_char_width,
            us_weight_class,
            us_width_class,
            fs_type,
            y_subscript_x_size,
            y_subscript_y_size,
            y_subscript_x_offset,
            y_subscript_y_offset,
            y_superscript_x_size,
            y_superscript_y_size,
            y_superscript_x_offset,
            y_superscript_y_offset,
            y_strikeout_size,
            y_strikeout_position,
            s_family_class,
            panose,
            ul_unicode_range1,
            ul_unicode_range2,
            ul_unicode_range3,
            ul_unicode_range4,
            ach_vend_id,
            fs_selection,
            us_first_char_index,
            us_last_char_index,
            s_typo_ascender,
            s_typo_descender,
            s_typo_line_gap,
            us_win_ascent,
            us_win_descent,
            ul_code_page_range1: None,
            ul_code_page_range2: None,
            sx_height: None,
            s_cap_height: None,
            us_default_char: None,
            us_break_char: None,
            us_max_context: None,
            us_lower_optical_point_size: None,
            us_upper_optical_point_size: None,
        };
        let ghost d = Os2::decode(buf@.subrange(offset as int, buf@.len() as int));
        proof {
            assert(os2.panose =~= d.panose);
            assert(os2.ach_vend_id =~= d.ach_vend_id);
        }
        if version >= 1 {
            os2.ul_code_page_range1 = Some(p.u32()?);
            os2.ul_code_page_range2 = Some(p.u32()?);
        }
        if version >= 2 {
            os2.sx_height = Some(p.i16()?);
            os2.s_cap_height = Some(p.i16()?);
            os2.us_default_char = Some(p.u16()?);
            os2.us_break_char = Some(p.u16()?);
            os2.us_max_context = Some(p.u16()?);
        }
        if version >= 5 {
            os2.us_lower_optical_point_size = Some(p.u16()?);
            os2.us_upper_optical_point_size = Some(p.u16()?);
        }
        Ok(os2)
    }

    fn write(&self, w: &mut Writer) -> (r: Result<(), FontError>)
        ensures
            r is Ok,
            final(w)@ == old(w)@ + self.encode(),
    {
        self.write_metrics(w);
        self.write_ranges(w);
        self.write_vertical(w);
        let ghost base = w@;
        proof {
            assert(base =~= old(w)@ + self.encode_base());
        }
        self.write_versioned(w);
        proof {
            assert(w@ =~= old(w)@ + self.encode());
        }
        Ok(())
    }
}

impl Os2 {
    fn write_metrics(&self, w: &mut Writer)
        ensures
            final(w)@ == old(w)@ + self.encode_metrics(),
    {
        w.write_u16(self.version);
        w.write_i16(self.x_avg_char_width);
        w.write_u16(self.us_weight_class);
        w.write_u16(self.us_width_class);
        w.write_u16(self.fs_type);
        w.write_i16(self.y_subscript_x_size);
        w.write_i16(self.y_subscript_y_size);
        w.write_i16(self.y_subscript_x_offset);
        w.write_i16(self.y_subscript_y_offset);
        w.write_i16(self.y_superscript_x_size);
        w.write_i16(self.y_superscript_y_size);
        w.write_i16(self.y_superscript_x_offset);
        w.write_i16(self.y_superscript_y_offset);
        w.write_i16(self.y_strikeout_size);
        w.write_i16(self.y_strikeout_position);
        w.write_i16(self.s_family_class);
        proof {
            assert(w@ =~= old(w)@ + self.encode_metrics());
        }
    }

    fn write_ranges(&self, w: &mut Writer)
        ensures
            final(w)@ == old(w)@ + self.encode_ranges(),
    {
        w.write_bytes(&self.panose);
        w.write_u32(self.ul_unicode_range1);
        w.write_u32(self.ul_unicode_range2);
        w.write_u32(self.ul_unicode_range3);
        w.write_u32(self.ul_unicode_range4);
        w.write_bytes(&self.ach_vend_id);
        proof {
            assert(w@ =~= old(w)@ + self.encode_ranges());
        }
    }

    fn write_vertical(&self, w: &mut Writer)
        ensures
            final(w)@ == old(w)@ + self.encode_vertical(),
    {
        w.write_u16(self.fs_selection);
        w.write_u16(self.us_first_char_index);
        w.write_u16(self.us_last_char_index);
        w.write_i16(self.s_typo_ascender);
        w.write_i16(self.s_typo_descender);
        w.write_i16(self.s_typo_line_gap);
        w.write_u16(self.us_win_ascent);
        w.write_u16(self.us_win_descent);
        proof {
            assert(w@ =~= old(w)@ + self.encode_vertical());
        }
    }

    pub open spec fn encode_v1(self) -> Seq<u8> {
        if self.version >= 1 {
            u32_bytes(self.ul_code_page_range1.unwrap_or(0)) + u32_bytes(
                self.ul_code_page_range2.unwrap_or(0),
            )
        } else {
            Seq::empty()
        }
    }

    pub open spec fn encode_v2(self) -> Seq<u8> {
        if self.version >= 2 {
            i16_bytes(self.sx_height.unwrap_or(0)) + i16_bytes(self.s_cap_height.unwrap_or(0))
                + u16_bytes(self.us_default_char.unwrap_or(0)) + u16_bytes(
                self.us_break_char.unwrap_or(0),
            ) + u16_bytes(self.us_max_context.unwrap_or(0))
        } else {
            Seq::empty()
        }
    }

    pub open spec fn encode_v5(self) -> Seq<u8> {
        if self.version >= 5 {
            u16_bytes(self.us_lower_optical_point_size.unwrap_or(0)) + u16_bytes(
                self.us_upper_optical_point_size.unwrap_or(0xFFFF),
            )
        } else {
            Seq::empty()
        }
    }

    /// The fields that only later versions have.
    pub open spec fn encode_versioned(self) -> Seq<u8> {
        self.encode_v1() + self.encode_v2() + self.encode_v5()
    }

    fn write_versioned(&self, w: &mut Writer)
        ensures
            final(w)@ == old(w)@ + self.encode_versioned(),
    {
        self.write_v1(w);
        self.write_v2(w);
        self.write_v5(w);
        proof {
            assert(w@ =~= old(w)@ + self.encode_versioned());
        }
    }

    fn write_v1(&self, w: &mut Writer)
        ensures
            final(w)@ == old(w)@ + self.encode_v1(),
    {
        if self.version >= 1 {
            w.write_u32(self.ul_code_page_range1.unwrap_or(0));
            w.write_u32(self.ul_code_page_range2.unwrap_or(0));
        }
        proof {
            assert(w@ =~= old(w)@ + self.encode_v1());
        }
    }

    fn write_v2(&self, w: &mut Writer)
        ensures
            final(w)@ == old(w)@ + self.encode_v2(),
    {
        if self.version >= 2 {
            w.write_i16(self.sx_height.unwrap_or(0));
            w.write_i16(self.s_cap_height.unwrap_or(0));
            w.write_u16(self.us_default_char.unwrap_or(0));
            w.write_u16(self.us_break_char.unwrap_or(0));
            w.write_u16(self.us_max_context.unwrap_or(0));
        }
        proof {
            assert(w@ =~= old(w)@ + self.encode_v2());
        }
    }

    fn write_v5(&self, w: &mut Writer)
        ensures
            final(w)@ == old(w)@ + self.encode_v5(),
    {
        if self.version >= 5 {
            w.write_u16(self.us_lower_optical_point_size.unwrap_or(0));
            w.write_u16(self.us_upper_optical_point_size.unwrap_or(0xFFFF));
        }
        proof {
            assert(w@ =~= old(w)@ + self.encode_v5());
        }
    }
}

proof fn lemma_os2_base(o: Os2)
    ensures
        o.encode_base().len() == 78,
        be_u16(o.encode_base(), 0) == o.version,
        be_i16(o.encode_base(), 2) == o.x_avg_char_width,
        be_u16(o.encode_base(), 4) == o.us_weight_class,
        be_u16(o.encode_base(), 6) == o.us_width_class,
        be_u16(o.encode_base(), 8) == o.fs_type,
        be_i16(o.encode_base(), 10) == o.y_subscript_x_size,
        be_i16(o.encode_base(), 12) == o.y_subscript_y_size,
        be_i16(o.encode_base(), 14) == o.y_subscript_x_offset,
        be_i16(o.encode_base(), 16) == o.y_subscript_y_offset,
        be_i16(o.encode_base(), 18) == o.y_superscript_x_size,
        be_i16(o.encode_base(), 20) == o.y_superscript_y_size,
        be_i16(o.encode_base(), 22) == o.y_superscript_x_offset,
        be_i16(o.encode_base(), 24) == o.y_superscript_y_offset,
        be_i16(o.encode_base(), 26) == o.y_strikeout_size,
        be_i16(o.encode_base(), 28) == o.y_strikeout_position,
        be_i16(o.encode_base(), 30) == o.s_family_class,
        forall|k: int| 0 <= k < 10 ==> #[trigger] o.encode_base()[32 + k] == o.panose[k],
        be_u32(o.encode_base(), 42) == o.ul_unicode_range1,
        be_u32(o.encode_base(), 46) == o.ul_unicode_range2,
        be_u32(o.encode_base(), 50) == o.ul_unicode_range3,
        be_u32(o.encode_base(), 54) == o.ul_unicode_range4,
        forall|k: int| 0 <= k < 4 ==> #[trigger] o.encode_base()[58 + k] == o.ach_vend_id[k],
        be_u16(o.encode_base(), 62) == o.fs_selection,
        be_u16(o.encode_base(), 64) == o.us_first_char_index,
        be_u16(o.encode_base(), 66) == o.us_last_char_index,
        be_i16(o.encode_base(), 68) == o.s_typo_ascender,
        be_i16(o.encode_base(), 70) == o.s_typo_descender,
        be_i16(o.encode_base(), 72) == o.s_typo_line_gap,
        be_u16(o.encode_base(), 74) == o.us_win_ascent,
        be_u16(o.encode_base(), 76) == o.us_win_descent,
{
    let m = o.encode_metrics();
    let r = o.encode_ranges();
    let v = o.encode_vertical();
    assert(m.len() == 32);
    assert(r.len() == 30);
    assert(v.len() == 16);
    assert(be_u16(m, 0) == o.version);
    assert(be_i16(m, 2) == o.x_avg_char_width);
    assert(be_u16(m, 4) == o.us_weight_class);
    assert(be_u16(m, 6) == o.us_width_class);
    assert(be_u16(m, 8) == o.fs_type);
    assert(be_i16(m, 10) == o.y_subscript_x_size);
    assert(be_i16(m, 12) == o.y_subscript_y_size);
    assert(be_i16(m, 14) == o.y_subscript_x_offset);
    assert(be_i16(m, 16) == o.y_subscript_y_offset);
    assert(be_i16(m, 18) == o.y_superscript_x_size);
    assert(be_i16(m, 20) == o.y_superscript_y_size);
    assert(be_i16(m, 22) == o.y_superscript_x_offset);
    assert(be_i16(m, 24) == o.y_superscript_y_offset);
    assert(be_i16(m, 26) == o.y_strikeout_size);
    assert(be_i16(m, 28) == o.y_strikeout_position);
    assert(be_i16(m, 30) == o.s_family_class);
    assert(be_u32(r, 10) == o.ul_unicode_range1);
    assert(be_u32(r, 14) == o.ul_unicode_range2);
    assert(be_u32(r, 18) == o.ul_unicode_range3);
    assert(be_u32(r, 22) == o.ul_unicode_range4);
    assert(be_u16(v, 0) == o.fs_selection);
    assert(be_u16(v, 2) == o.us_first_char_index);
    assert(be_u16(v, 4) == o.us_last_char_index);
    assert(be_i16(v, 6) == o.s_typo_ascender);
    assert(be_i16(v, 8) == o.s_typo_descender);
    assert(be_i16(v, 10) == o.s_typo_line_gap);
    assert(be_u16(v, 12) == o.us_win_ascent);
    assert(be_u16(v, 14) == o.us_win_descent);
}

proof fn lemma_os2_versioned(o: Os2)
    ensures
        o.encode_versioned().len() == os2_size(o.version) - 78,
        o.version >= 1 ==> be_u32(o.encode_versioned(), 0) == o.ul_code_page_range1.unwrap_or(0),
        o.version >= 1 ==> be_u32(o.encode_versioned(), 4) == o.ul_code_page_range2.unwrap_or(0),
        o.version >= 2 ==> be_i16(o.encode_versioned(), 8) == o.sx_height.unwrap_or(0),
        o.version >= 2 ==> be_i16(o.encode_versioned(), 10) == o.s_cap_height.unwrap_or(0),
        o.version >= 2 ==> be_u16(o.encode_versioned(), 12) == o.us_default_char.unwrap_or(0),
        o.version >= 2 ==> be_u16(o.encode_versioned(), 14) == o.us_break_char.unwrap_or(0),
        o.version >= 2 ==> be_u16(o.encode_versioned(), 16) == o.us_max_context.unwrap_or(0),
        o.version >= 5 ==> be_u16(o.encode_versioned(), 18)
            == o.us_lower_optical_point_size.unwrap_or(0),
        o.version >= 5 ==> be_u16(o.encode_versioned(), 20)
            == o.us_upper_optical_point_size.unwrap_or(0xFFFF),
{
    let e = o.encode_versioned();
    if o.version >= 1 {
        assert(be_u32(e, 0) == o.ul_code_page_range1.unwrap_or(0));
        assert(be_u32(e, 4) == o.ul_code_page_range2.unwrap_or(0));
    }
    if o.version >= 2 {
        assert(be_i16(e, 8) == o.sx_height.unwrap_or(0));
        assert(be_i16(e, 10) == o.s_cap_height.unwrap_or(0));
        assert(be_u16(e, 12) == o.us_default_char.unwrap_or(0));
        assert(be_u16(e, 14) == o.us_break_char.unwrap_or(0));
        assert(be_u16(e, 16) == o.us_max_context.unwrap_or(0));
    }
    if o.version >= 5 {
        assert(be_u16(e, 18) == o.us_lower_optical_point_size.unwrap_or(0));
        assert(be_u16(e, 20) == o.us_upper_optical_point_size.unwrap_or(0xFFFF));
    }
}

/// Reading back what was written gives the same `OS/2`, for a table whose
/// optional fields are present exactly when its version has them.
#[verifier::rlimit(100)]
pub proof fn lemma_os2_roundtrip(o: Os2)
    requires
        o.fields_match_version(),
    ensures
        o.encode().len() == os2_size(o.version),
        Os2::decode(o.encode()) == o,
{
    lemma_os2_base(o);
    lemma_os2_versioned(o);
    let e = o.encode();
    let d = Os2::decode(e);
    assert(d.panose =~= o.panose);
    assert(d.ach_vend_id =~= o.ach_vend_id);
    assert(d.version == o.version);
}


/// Bytes after a written `OS/2` do not change what it reads as, for a
/// table whose optional fields are present exactly when its version has
/// them.
#[verifier::rlimit(60)]
pub proof fn lemma_os2_prefix(o: Os2, rest: Seq<u8>)
    requires
        o.fields_match_version(),
    ensures
        Os2::decode(o.encode() + rest) == o,
{
    lemma_os2_roundtrip(o);
    let e = o.encode();
    let x = e + rest;
    assert forall|i: int| 0 <= i < e.len() implies #[trigger] x[i] == e[i] by {}
    let d = Os2::decode(x);
    assert(d.panose =~= o.panose) by {
        assert(Os2::decode(e).panose =~= o.panose);
    }
    assert(d.ach_vend_id =~= o.ach_vend_id) by {
        assert(Os2::decode(e).ach_vend_id =~= o.ach_vend_id);
    }
}

} // verus!
