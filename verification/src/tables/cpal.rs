//! `CPAL`: color palettes.
use vstd::prelude::*;
use crate::codec::{be_u16, be_u32, u16_bytes, u32_bytes};
use crate::error::{FontError, Tag};
use crate::parse::{offset_add, Parser};
use crate::tables::Table;
use crate::text::{decimal, palette_index_message};
use crate::write::Writer;

verus! {

broadcast use crate::codec::group_codec;

#[derive(Debug, Clone, PartialEq)]
pub struct Cpal {
    pub version: u16,
    pub num_palette_entries: u16,
    pub palettes: Vec<Palette>,
    pub colors: Vec<ColorRecord>,
}

#[derive(Debug, Clone, PartialEq)]
pub struct Palette {
    pub color_indices: Vec<u16>,
}

#[derive(Debug, Clone, PartialEq, Eq, Copy, Structural)]
pub struct ColorRecord {
    pub blue: u8,
    pub green: u8,
    pub red: u8,
    pub alpha: u8,
}

impl ColorRecord {
    /// The components in red, green, blue, alpha order.
    pub fn to_rgba(&self) -> (c: (u8, u8, u8, u8))
        ensures
            c == (self.red, self.green, self.blue, self.alpha),
    {
        (self.red, self.green, self.blue, self.alpha)
    }
}

/// `pal` takes `entries` consecutive colors from `first` (indices
/// truncated to 16 bits), all within the `num_colors` color records.
pub open spec fn palette_ok(pal: Palette, first: u16, entries: u16, num_colors: int) -> bool {
    &&& first + entries <= num_colors
    &&& pal.color_indices@.len() == entries
    &&& forall|k: int|
        0 <= k < entries ==> #[trigger] pal.color_indices@[k] == (first + k) as u16
}

pub open spec fn color_at(s: Seq<u8>, i: int) -> ColorRecord {
    ColorRecord { blue: s[i], green: s[i + 1], red: s[i + 2], alpha: s[i + 3] }
}

/// Size of the `CPAL` header before the palette index array.
pub open spec fn cpal_header_size(version: u16) -> int {
    if version == 0 { 10 } else { 12 }
}

/// Where the color records start, relative to the table.
pub open spec fn first_color_offset(s: Seq<u8>, off: int) -> int {
    if be_u16(s, off) == 0 { be_u16(s, off + 8) as int } else { be_u32(s, off + 8) as int }
}

/// The header, the palette index array and the color records lie inside
/// the buffer.
pub open spec fn cpal_fits(s: Seq<u8>, off: int) -> bool {
    &&& off + cpal_header_size(be_u16(s, off)) + 2 * be_u16(s, off + 4) <= s.len()
    &&& (be_u16(s, off + 6) == 0 || off + first_color_offset(s, off) + 4 * be_u16(s, off + 6)
        <= s.len())
}

/// What `parse` reads at `off`: the header fields, the color records
/// where the header says they are, and for each palette the consecutive
/// colors from its first index.
pub open spec fn cpal_parsed(c: Cpal, s: Seq<u8>, off: int) -> bool {
    let hdr = off + cpal_header_size(be_u16(s, off));
    let colors_at = off + first_color_offset(s, off);
    let entries = be_u16(s, off + 2);
    &&& c.version == be_u16(s, off)
    &&& c.num_palette_entries == entries
    &&& c.palettes@.len() == be_u16(s, off + 4)
    &&& c.colors@.len() == be_u16(s, off + 6)
    &&& forall|i: int|
        0 <= i < c.colors@.len() ==> #[trigger] c.colors@[i] == color_at(s, colors_at + 4 * i)
    &&& forall|p: int|
        0 <= p < c.palettes@.len() ==> palette_ok(
            #[trigger] c.palettes@[p],
            be_u16(s, hdr + 2 * p),
            entries,
            c.colors@.len() as int,
        )
}

/// The first color index of palette `p`.
pub open spec fn palette_first(s: Seq<u8>, off: int, p: int) -> u16 {
    be_u16(s, off + cpal_header_size(be_u16(s, off)) + 2 * p)
}

/// Every palette's colors lie within the color records.
pub open spec fn palettes_fit(s: Seq<u8>, off: int) -> bool {
    forall|p: int|
        0 <= p < be_u16(s, off + 4) ==> #[trigger] palette_first(s, off, p) + be_u16(s, off + 2)
            <= be_u16(s, off + 6)
}

/// Palette `p` is the first whose colors run past the color records.
pub open spec fn first_bad_palette(s: Seq<u8>, off: int, p: int) -> bool {
    &&& 0 <= p < be_u16(s, off + 4)
    &&& palette_first(s, off, p) + be_u16(s, off + 2) > be_u16(s, off + 6)
    &&& forall|i: int|
        0 <= i < p ==> #[trigger] palette_first(s, off, i) + be_u16(s, off + 2) <= be_u16(
            s,
            off + 6,
        )
}

pub open spec fn encode_first_indices(palettes: Seq<Palette>) -> Seq<u8>
    decreases palettes.len(),
{
    if palettes.len() == 0 {
        Seq::empty()
    } else {
        let p = palettes.last();
        encode_first_indices(palettes.drop_last()) + u16_bytes(
            if p.color_indices@.len() > 0 { p.color_indices@[0] } else { 0 },
        )
    }
}

pub open spec fn encode_colors(c: Seq<ColorRecord>) -> Seq<u8>
    decreases c.len(),
{
    if c.len() == 0 {
        Seq::empty()
    } else {
        let r = c.last();
        encode_colors(c.drop_last()) + seq![r.blue, r.green, r.red, r.alpha]
    }
}

impl Cpal {
    /// The header (colors right after the palette index array), the first
    /// index of each palette (0 for an empty one), then the colors.
    pub open spec fn encode(self) -> Seq<u8> {
        let color_offset = cpal_header_size(self.version) + self.palettes@.len() * 2;
        u16_bytes(self.version) + u16_bytes(self.num_palette_entries) + u16_bytes(
            self.palettes@.len() as u16,
        ) + u16_bytes(self.colors@.len() as u16) + (if self.version == 0 {
            u16_bytes(color_offset as u16)
        } else {
            u32_bytes(color_offset as u32)
        }) + encode_first_indices(self.palettes@) + encode_colors(self.colors@)
    }
}

/// The indices `start`, `start + 1`, ... (`count` of them), each truncated
/// to 16 bits.
fn consecutive_indices(start: usize, count: u16) -> (v: Vec<u16>)
    requires
        start + count <= usize::MAX,
    ensures
        v@.len() == count,
        forall|k: int| 0 <= k < count ==> #[trigger] v@[k] == (start + k) as u16,
{
    let end = start + count as usize;
    let mut v: Vec<u16> = Vec::new();
    let mut c = start;
    while c < end
        invariant
            start <= c <= end,
            end == start + count,
            v@.len() == c - start,
            forall|k: int| 0 <= k < c - start ==> #[trigger] v@[k] == (start + k) as u16,
        decreases end - c,
    {
        v.push(c as u16);
        c += 1;
    }
    v
}

impl Table for Cpal {
    open spec fn writable(&self) -> bool {
        12 + self.palettes@.len() * 2 <= u32::MAX
    }

    /// `CPAL`
    fn tag() -> (t: Tag)
        ensures
            t.0@ == seq![0x43u8, 0x50, 0x41, 0x4c],
    {
        Tag([0x43, 0x50, 0x41, 0x4c])
    }

    /// Reads the header, the first color index of each palette and the
    /// color records; each palette takes `numPaletteEntries` consecutive
    /// colors from its first index, and a palette that runs past the color
    /// records is an error.
    fn parse(buf: &[u8], offset: usize) -> (r: Result<Self, FontError>)
        ensures
            match r {
                Ok(c) => cpal_fits(buf@, offset as int) && palettes_fit(buf@, offset as int)
                    && cpal_parsed(c, buf@, offset as int),
                Err(e) => if !cpal_fits(buf@, offset as int) {
                    e is OutOfBounds
                } else {
                    &&& !palettes_fit(buf@, offset as int)
                    &&& e matches FontError::InvalidTable { tag: t, reason }
                    &&& t.0@ == seq![0x43u8, 0x50, 0x41, 0x4c]
                    &&& exists|p: int|
                        #![trigger palette_first(buf@, offset as int, p)]
                        first_bad_palette(buf@, offset as int, p) && reason@ == "Palette index "@
                            + decimal(palette_first(buf@, offset as int, p) as nat)
                            + " exceeds color records"@
                },
            },
    {
        let ghost s = buf@;
        let ghost off = offset as int;
        let mut p = Parser::new(buf, offset);
        let version = p.u16()?;
        let num_palette_entries = p.u16()?;
        let num_palettes = p.u16()?;
        let num_color_records = p.u16()?;
        let offset_first_color: u32 = if version == 0 {
            p.u16()? as u32
        } else {
            p.u32()?
        };
        let ghost hdr = p.pos();
        assert(hdr == offset + cpal_header_size(version));
        let mut palette_indices: Vec<u16> = Vec::new();
        let mut k: u16 = 0;
        while k < num_palettes
            invariant
                s == buf@,
                off == offset as int,
                hdr == off + cpal_header_size(be_u16(s, off)),
                num_palettes == be_u16(s, off + 4),
                k <= num_palettes,
                p.data() == buf@,
                p.pos() == hdr + 2 * k,
                hdr <= buf@.len(),
                p.pos() <= buf@.len(),
                palette_indices@.len() == k,
                forall|i: int|
                    0 <= i < k ==> #[trigger] palette_indices@[i] == be_u16(buf@, hdr + 2 * i),
            decreases num_palettes - k,
        {
            let v = match p.u16() {
                Ok(v) => v,
                Err(e) => {
                    assert(!cpal_fits(s, off));
                    return Err(e);
                },
            };
            palette_indices.push(v);
            k += 1;
        }
        proof {
            p.lemma_bounds();
        }
        assert(offset_first_color == first_color_offset(buf@, offset as int));
        let colors_start = offset_add(offset, offset_first_color as usize);
        let mut colors: Vec<ColorRecord> = Vec::new();
        let mut cp = Parser::new(buf, colors_start);
        let mut m: u16 = 0;
        while m < num_color_records
            invariant
                s == buf@,
                off == offset as int,
                hdr == off + cpal_header_size(be_u16(s, off)),
                hdr + 2 * be_u16(s, off + 4) <= s.len(),
                num_color_records == be_u16(s, off + 6),
                colors_start == (if off + first_color_offset(s, off) <= usize::MAX {
                    off + first_color_offset(s, off)
                } else {
                    usize::MAX as int
                }),
                m <= num_color_records,
                cp.data() == buf@,
                cp.pos() == colors_start + 4 * m,
                colors@.len() == m,
                m > 0 ==> cp.pos() <= buf@.len(),
                forall|i: int|
                    0 <= i < m ==> colors_start + 4 * i + 4 <= buf@.len() && #[trigger] colors@[i]
                        == color_at(buf@, colors_start + 4 * i),
            decreases num_color_records - m,
        {
            proof {
                cp.lemma_bounds();
            }
            let blue = match cp.u8() {
                Ok(v) => v,
                Err(e) => {
                    assert(!cpal_fits(s, off));
                    return Err(e);
                },
            };
            let green = match cp.u8() {
                Ok(v) => v,
                Err(e) => {
                    assert(!cpal_fits(s, off));
                    return Err(e);
                },
            };
            let red = match cp.u8() {
                Ok(v) => v,
                Err(e) => {
                    assert(!cpal_fits(s, off));
                    return Err(e);
                },
            };
            let alpha = match cp.u8() {
                Ok(v) => v,
                Err(e) => {
                    assert(!cpal_fits(s, off));
                    return Err(e);
                },
            };
            colors.push(ColorRecord { blue, green, red, alpha });
            m += 1;
        }
        assert(cpal_fits(s, off));
        let mut palettes: Vec<Palette> = Vec::new();
        let mut q: usize = 0;
        while q < palette_indices.len()
            invariant
                s == buf@,
                off == offset as int,
                cpal_fits(s, off),
                hdr == off + cpal_header_size(be_u16(s, off)),
                num_palettes == be_u16(s, off + 4),
                num_palette_entries == be_u16(s, off + 2),
                num_color_records == be_u16(s, off + 6),
                q <= palette_indices@.len(),
                palettes@.len() == q,
                colors@.len() == num_color_records,
                palette_indices@.len() == num_palettes,
                forall|i: int|
                    0 <= i < num_palettes ==> #[trigger] palette_indices@[i] == be_u16(
                        buf@,
                        hdr + 2 * i,
                    ),
                forall|i: int|
                    0 <= i < q ==> palette_ok(
                        #[trigger] palettes@[i],
                        palette_indices@[i],
                        num_palette_entries,
                        colors@.len() as int,
                    ),
            decreases palette_indices@.len() - q,
        {
            let idx = palette_indices[q];
            let start = idx as usize;
            let end = start + num_palette_entries as usize;
            if end > colors.len() {
                let reason = palette_index_message(idx);
                proof {
                    assert(palette_first(s, off, q as int) == idx);
                    assert forall|i: int| 0 <= i < q implies palette_first(s, off, i)
                        + be_u16(s, off + 2) <= be_u16(s, off + 6) by {
                        assert(palette_ok(palettes@[i], palette_indices@[i], num_palette_entries, colors@.len() as int));
                    }
                    assert(first_bad_palette(s, off, q as int));
                }
                return Err(FontError::InvalidTable { tag: Self::tag(), reason });
            }
            let color_indices = consecutive_indices(start, num_palette_entries);
            let ghost before = palettes@;
            palettes.push(Palette { color_indices });
            proof {
                assert(palette_ok(palettes@[q as int], idx, num_palette_entries, colors@.len() as int));
                assert forall|i: int| 0 <= i < q + 1 implies palette_ok(
                    #[trigger] palettes@[i],
                    palette_indices@[i],
                    num_palette_entries,
                    colors@.len() as int,
                ) by {
                    if i < q {
                        assert(palettes@[i] == before[i]);
                    }
                }
            }
            q += 1;
        }
        proof {
            assert forall|i: int| 0 <= i < num_palettes implies palette_first(s, off, i)
                + be_u16(s, off + 2) <= be_u16(s, off + 6) by {
                assert(palette_ok(palettes@[i], palette_indices@[i], num_palette_entries, colors@.len() as int));
            }
        }
        Ok(Cpal { version, num_palette_entries, palettes, colors })
    }

    fn write(&self, w: &mut Writer) -> (r: Result<(), FontError>)
        ensures
            r is Ok,
            final(w)@ == old(w)@ + self.encode(),
    {
        let header_size: u32 = if self.version == 0 {
            10u32 + self.palettes.len() as u32 * 2
        } else {
            12u32 + self.palettes.len() as u32 * 2
        };
        let color_offset = header_size;
        w.write_u16(self.version);
        w.write_u16(self.num_palette_entries);
        w.write_u16(self.palettes.len() as u16);
        w.write_u16(self.colors.len() as u16);
        if self.version == 0 {
            w.write_u16(color_offset as u16);
        } else {
            w.write_u32(color_offset);
        }
        let ghost hdr = w@;
        let n = self.palettes.len();
        let mut i: usize = 0;
        while i < n
            invariant
                n == self.palettes@.len(),
                i <= n,
                w@ == hdr + encode_first_indices(self.palettes@.subrange(0, i as int)),
            decreases n - i,
        {
            let palette = &self.palettes[i];
            if palette.color_indices.len() > 0 {
                w.write_u16(palette.color_indices[0]);
            } else {
                w.write_u16(0);
            }
            proof {
                let s = self.palettes@.subrange(0, i + 1);
                assert(s.drop_last() =~= self.palettes@.subrange(0, i as int));
            }
            i += 1;
            proof {
                assert(w@ =~= hdr + encode_first_indices(self.palettes@.subrange(0, i as int)));
            }
        }
        proof {
            assert(self.palettes@.subrange(0, n as int) =~= self.palettes@);
        }
        let ghost mid = w@;
        let m = self.colors.len();
        let mut j: usize = 0;
        while j < m
            invariant
                m == self.colors@.len(),
                j <= m,
                w@ == mid + encode_colors(self.colors@.subrange(0, j as int)),
            decreases m - j,
        {
            let c = &self.colors[j];
            w.write_u8(c.blue);
            w.write_u8(c.green);
            w.write_u8(c.red);
            w.write_u8(c.alpha);
            proof {
                let s = self.colors@.subrange(0, j + 1);
                assert(s.drop_last() =~= self.colors@.subrange(0, j as int));
            }
            j += 1;
            proof {
                assert(w@ =~= mid + encode_colors(self.colors@.subrange(0, j as int)));
            }
        }
        proof {
            assert(self.colors@.subrange(0, m as int) =~= self.colors@);
            assert(w@ =~= old(w)@ + self.encode());
        }
        Ok(())
    }
}

} // verus!
