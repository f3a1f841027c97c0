//! Chainable edits of a font's metadata and metrics that keep related
//! fields in step.
use vstd::prelude::*;
use crate::codec::u32_as_i32;
use crate::font::Font;
use crate::tables::head::Head;
use crate::tables::hhea::Hhea;
use crate::tables::hmtx::{Hmtx, LongHorMetricRecord};
use crate::tables::name::{names_set, records_view};
use crate::tables::os2::Os2;
use crate::text::{decimal, decimal_text, push_text, with_decimal};

verus! {

/// A chainable modifier borrowing a font mutably.
pub struct FontModifier<'a> {
    pub font: &'a mut Font,
}

/// `head.fontRevision` for a version: the major number in the high 16 bits,
/// the minor number as hundredths in the low 16.
pub open spec fn revision(major: u16, minor: u16) -> i32 {
    let scaled = if minor * 65536 > i32::MAX {
        i32::MAX as int
    } else {
        minor * 65536
    };
    let frac = scaled / 100;
    u32_as_i32((major * 65536 + frac % 65536) as u32)
}

/// The largest advance width (0 when there is none).
pub open spec fn max_advance(m: Seq<LongHorMetricRecord>) -> u16
    decreases m.len(),
{
    if m.len() == 0 {
        0
    } else {
        let rest = max_advance(m.drop_last());
        if m.last().advance_width > rest {
            m.last().advance_width
        } else {
            rest
        }
    }
}

/// `Version {major}.{minor}`.
fn version_text(major: u16, minor: u16) -> (s: String)
    ensures
        s@ == "Version "@ + decimal(major as nat) + "."@ + decimal(minor as nat),
{
    let mut s = with_decimal("Version ", major as u64);
    push_text(&mut s, ".");
    let m = decimal_text(minor as u64);
    push_text(&mut s, m.as_str());
    s
}

impl<'a> FontModifier<'a> {
    /// The font as the modifier holds it now.
    pub open spec fn current(&self) -> Font {
        *self.font
    }

    pub fn new(font: &'a mut Font) -> (m: Self)
        ensures
            m.current() == *old(font),
            *final(font) == *final(m.font),
    {
        FontModifier { font }
    }

    fn set_name_record(&mut self, name_id: u16, value: &str) -> (r: &mut Self)
        ensures
            records_view(r.current().name.records@) == names_set(
                old(self).current().name.records@,
                name_id,
                true,
                value@,
            ),
            r.current() == (Font { name: r.current().name, ..old(self).current() }),
            r.current().name.format == old(self).current().name.format,
            r.current().name.count == old(self).current().name.count,
            r.current().name.string_offset == old(self).current().name.string_offset,
            *final(self) == *final(r),
    {
        self.font.name.set_matching(name_id, true, value);
        self
    }

    /// Sets the family name (name ID 1).
    pub fn set_family(&mut self, name: &str) -> (r: &mut Self)
        ensures
            records_view(r.current().name.records@) == names_set(
                old(self).current().name.records@,
                1,
                false,
                name@,
            ),
            r.current() == (Font { name: r.current().name, ..old(self).current() }),
            r.current().name.format == old(self).current().name.format,
            r.current().name.count == old(self).current().name.count,
            r.current().name.string_offset == old(self).current().name.string_offset,
            *final(self) == *final(r),
    {
        self.font.name.set_family(name);
        self
    }

    /// Sets the subfamily (style) name (name ID 2).
    pub fn set_subfamily(&mut self, name: &str) -> (r: &mut Self)
        ensures
            records_view(r.current().name.records@) == names_set(
                old(self).current().name.records@,
                2,
                false,
                name@,
            ),
            r.current() == (Font { name: r.current().name, ..old(self).current() }),
            r.current().name.format == old(self).current().name.format,
            r.current().name.count == old(self).current().name.count,
            r.current().name.string_offset == old(self).current().name.string_offset,
            *final(self) == *final(r),
    {
        self.font.name.set_subfamily(name);
        self
    }

    /// Sets the full font name (name ID 4).
    pub fn set_full_name(&mut self, name: &str) -> (r: &mut Self)
        ensures
            records_view(r.current().name.records@) == names_set(
                old(self).current().name.records@,
                4,
                true,
                name@,
            ),
            r.current() == (Font { name: r.current().name, ..old(self).current() }),
            *final(self) == *final(r),
    {
        self.set_name_record(4, name)
    }

    /// Sets the version string (name ID 5) and `head.fontRevision`.
    pub fn set_version(&mut self, major: u16, minor: u16) -> (r: &mut Self)
        ensures
            records_view(r.current().name.records@) == names_set(
                old(self).current().name.records@,
                5,
                true,
                "Version "@ + decimal(major as nat) + "."@ + decimal(minor as nat),
            ),
            r.current() == (Font {
                name: r.current().name,
                head: Head { font_revision: revision(major, minor), ..old(self).current().head },
                ..old(self).current()
            }),
            *final(self) == *final(r),
    {
        let text = version_text(major, minor);
        self.font.name.set_matching(5, true, text.as_str());
        let scaled: i32 = if minor as u32 * 65536 > 0x7FFF_FFFF {
            0x7FFF_FFFF
        } else {
            (minor as u32 * 65536) as i32
        };
        let frac = (scaled / 100) as u32;
        let v: u32 = major as u32 * 65536 + frac % 65536;
        let rev: i32 = if v < 0x8000_0000 {
            v as i32
        } else {
            (v as i64 - 0x1_0000_0000) as i32
        };
        self.font.head.font_revision = rev;
        self
    }

    /// Sets the copyright notice (name ID 0).
    pub fn set_copyright(&mut self, text: &str) -> (r: &mut Self)
        ensures
            records_view(r.current().name.records@) == names_set(
                old(self).current().name.records@,
                0,
                true,
                text@,
            ),
            r.current() == (Font { name: r.current().name, ..old(self).current() }),
            *final(self) == *final(r),
    {
        self.set_name_record(0, text)
    }

    /// Sets the trademark notice (name ID 7).
    pub fn set_trademark(&mut self, text: &str) -> (r: &mut Self)
        ensures
            records_view(r.current().name.records@) == names_set(
                old(self).current().name.records@,
                7,
                true,
                text@,
            ),
            r.current() == (Font { name: r.current().name, ..old(self).current() }),
            *final(self) == *final(r),
    {
        self.set_name_record(7, text)
    }

    /// Sets `head.unitsPerEm`.
    pub fn set_units_per_em(&mut self, units_per_em: u16) -> (r: &mut Self)
        ensures
            r.current() == (Font {
                head: Head { units_per_em, ..old(self).current().head },
                ..old(self).current()
            }),
            *final(self) == *final(r),
    {
        self.font.head.units_per_em = units_per_em;
        self
    }

    /// Sets the ascender, descender and line gap in both `hhea` and `OS/2`.
    pub fn set_vertical_metrics(&mut self, ascender: i16, descender: i16, line_gap: i16) -> (r:
        &mut Self)
        ensures
            r.current() == (Font {
                hhea: Hhea { ascender, descender, line_gap, ..old(self).current().hhea },
                os2: Os2 {
                    s_typo_ascender: ascender,
                    s_typo_descender: descender,
                    s_typo_line_gap: line_gap,
                    ..old(self).current().os2
                },
                ..old(self).current()
            }),
            *final(self) == *final(r),
    {
        self.font.hhea.ascender = ascender;
        self.font.hhea.descender = descender;
        self.font.hhea.line_gap = line_gap;
        self.font.os2.s_typo_ascender = ascender;
        self.font.os2.s_typo_descender = descender;
        self.font.os2.s_typo_line_gap = line_gap;
        self
    }

    /// Sets `unitsPerEm` and the vertical metrics together.
    pub fn set_font_metrics(&mut self, units_per_em: u16, ascender: i16, descender: i16, line_gap: i16) -> (r:
        &mut Self)
        ensures
            r.current() == (Font {
                head: Head { units_per_em, ..old(self).current().head },
                hhea: Hhea { ascender, descender, line_gap, ..old(self).current().hhea },
                os2: Os2 {
                    s_typo_ascender: ascender,
                    s_typo_descender: descender,
                    s_typo_line_gap: line_gap,
                    ..old(self).current().os2
                },
                ..old(self).current()
            }),
            *final(self) == *final(r),
    {
        self.font.head.units_per_em = units_per_em;
        self.set_vertical_metrics(ascender, descender, line_gap)
    }

    /// Sets embedding permissions (`OS/2.fsType`).
    pub fn set_embedding_type(&mut self, fs_type: u16) -> (r: &mut Self)
        ensures
            r.current() == (Font {
                os2: Os2 { fs_type, ..old(self).current().os2 },
                ..old(self).current()
            }),
            *final(self) == *final(r),
    {
        self.font.os2.fs_type = fs_type;
        self
    }

    /// Sets one glyph's advance width (when it has a full metric) and
    /// `hhea.advanceWidthMax` to the largest advance width.
    pub fn set_glyph_advance(&mut self, glyph_index: usize, advance_width: u16) -> (r: &mut Self)
        ensures
            ({
                let m = old(self).current().hmtx.h_metrics@;
                let new_m = if glyph_index < m.len() {
                    m.update(
                        glyph_index as int,
                        LongHorMetricRecord { advance_width, lsb: m[glyph_index as int].lsb },
                    )
                } else {
                    m
                };
                &&& r.current().hmtx.h_metrics@ == new_m
                &&& r.current() == (Font {
                    hmtx: Hmtx { h_metrics: r.current().hmtx.h_metrics, ..old(self).current().hmtx },
                    hhea: Hhea {
                        advance_width_max: max_advance(new_m),
                        ..old(self).current().hhea
                    },
                    ..old(self).current()
                })
            }),
            *final(self) == *final(r),
    {
        let n = self.font.hmtx.h_metrics.len();
        if glyph_index < n {
            let lsb = self.font.hmtx.h_metrics[glyph_index].lsb;
            self.font.hmtx.h_metrics.set(glyph_index, LongHorMetricRecord { advance_width, lsb });
        }
        let ghost m = self.font.hmtx.h_metrics@;
        let mut max: u16 = 0;
        let mut i: usize = 0;
        while i < n
            invariant
                m == self.font.hmtx.h_metrics@,
                n == m.len(),
                i <= n,
                max == max_advance(m.subrange(0, i as int)),
            decreases n - i,
        {
            let aw = self.font.hmtx.h_metrics[i].advance_width;
            proof {
                let sub = m.subrange(0, i + 1);
                assert(sub.drop_last() =~= m.subrange(0, i as int));
            }
            if aw > max {
                max = aw;
            }
            i += 1;
        }
        proof {
            assert(m.subrange(0, n as int) =~= m);
        }
        self.font.hhea.advance_width_max = max;
        self
    }
}

impl Font {
    /// Begins a chain of modifications of this font.
    pub fn modify(&mut self) -> (m: FontModifier<'_>)
        ensures
            m.current() == *old(self),
            *final(self) == *final(m.font),
    {
        FontModifier::new(self)
    }
}

} // verus!
