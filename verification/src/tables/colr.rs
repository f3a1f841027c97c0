//! `COLR`: color glyph layers (version 0).
use vstd::prelude::*;
use crate::codec::{be_u16, be_u32, u16_bytes, u32_bytes};
use crate::error::{FontError, Tag};
use crate::parse::{offset_add, Parser};
use crate::tables::Table;
use crate::write::Writer;

verus! {

broadcast use crate::codec::group_codec;

#[derive(Debug, Clone, PartialEq)]
pub struct Colr {
    pub version: u16,
    pub base_glyphs: Vec<BaseGlyphRecord>,
    pub layers: Vec<LayerRecord>,
}

#[derive(Debug, Clone, Copy, PartialEq, Eq, Structural)]
pub struct BaseGlyphRecord {
    pub glyph_id: u16,
    pub first_layer_index: u16,
    pub num_layers: u16,
}

#[derive(Debug, Clone, Copy, PartialEq, Eq, Structural)]
pub struct LayerRecord {
    pub glyph_id: u16,
    pub palette_index: u16,
}

pub open spec fn base_at(s: Seq<u8>, i: int) -> BaseGlyphRecord {
    BaseGlyphRecord {
        glyph_id: be_u16(s, i),
        first_layer_index: be_u16(s, i + 2),
        num_layers: be_u16(s, i + 4),
    }
}

/// The header and both record arrays lie inside the buffer.
pub open spec fn colr_fits(s: Seq<u8>, off: int) -> bool {
    &&& off + 14 <= s.len()
    &&& (be_u16(s, off + 2) == 0 || off + be_u32(s, off + 4) + 6 * be_u16(s, off + 2) <= s.len())
    &&& (be_u16(s, off + 12) == 0 || off + be_u32(s, off + 8) + 4 * be_u16(s, off + 12) <= s.len())
}

/// What `parse` reads at `off`: the header, then the records where it
/// says they are.
pub open spec fn colr_parsed(c: Colr, s: Seq<u8>, off: int) -> bool {
    let base_pos = off + be_u32(s, off + 4);
    let layer_pos = off + be_u32(s, off + 8);
    &&& c.version == be_u16(s, off)
    &&& c.base_glyphs@.len() == be_u16(s, off + 2)
    &&& c.layers@.len() == be_u16(s, off + 12)
    &&& forall|i: int|
        0 <= i < c.base_glyphs@.len() ==> #[trigger] c.base_glyphs@[i] == base_at(s, base_pos + 6 * i)
    &&& forall|i: int|
        0 <= i < c.layers@.len() ==> #[trigger] c.layers@[i] == layer_at(s, layer_pos + 4 * i)
}

pub open spec fn layer_at(s: Seq<u8>, i: int) -> LayerRecord {
    LayerRecord { glyph_id: be_u16(s, i), palette_index: be_u16(s, i + 2) }
}

pub open spec fn encode_bases(v: Seq<BaseGlyphRecord>) -> Seq<u8>
    decreases v.len(),
{
    if v.len() == 0 {
        Seq::empty()
    } else {
        encode_bases(v.drop_last()) + u16_bytes(v.last().glyph_id) + u16_bytes(
            v.last().first_layer_index,
        ) + u16_bytes(v.last().num_layers)
    }
}

pub open spec fn encode_layers(v: Seq<LayerRecord>) -> Seq<u8>
    decreases v.len(),
{
    if v.len() == 0 {
        Seq::empty()
    } else {
        encode_layers(v.drop_last()) + u16_bytes(v.last().glyph_id) + u16_bytes(
            v.last().palette_index,
        )
    }
}

impl Colr {
    /// The header (records right after it, layers after the base glyphs),
    /// then the base glyph records and the layer records.
    pub open spec fn encode(self) -> Seq<u8> {
        u16_bytes(self.version) + u16_bytes(self.base_glyphs@.len() as u16) + u32_bytes(14)
            + u32_bytes((14 + self.base_glyphs@.len() * 6) as u32) + u16_bytes(
            self.layers@.len() as u16,
        ) + encode_bases(self.base_glyphs@) + encode_layers(self.layers@)
    }
}

impl Table for Colr {
    open spec fn writable(&self) -> bool {
        14 + self.base_glyphs@.len() * 6 <= u32::MAX
    }

    /// `COLR`
    fn tag() -> (t: Tag)
        ensures
            t.0@ == seq![0x43u8, 0x4f, 0x4c, 0x52],
    {
        Tag([0x43, 0x4f, 0x4c, 0x52])
    }

    /// Reads the header, then the base glyph records and the layer records
    /// where the header says they are.
    fn parse(buf: &[u8], offset: usize) -> (r: Result<Self, FontError>)
        ensures
            match r {
                Ok(c) => colr_fits(buf@, offset as int) && colr_parsed(c, buf@, offset as int),
                Err(e) => !colr_fits(buf@, offset as int) && e is OutOfBounds,
            },
    {
        let mut p = Parser::new(buf, offset);
        let version = p.u16()?;
        let num_base_glyphs = p.u16()?;
        let offset_base_records = p.u32()? as usize;
        let offset_layer_records = p.u32()? as usize;
        let num_layer_records = p.u16()?;
        proof {
            p.lemma_bounds();
        }
        let ghost s = buf@;
        let ghost off = offset as int;
        assert(off + 14 <= s.len());
        let base_start = offset_add(offset, offset_base_records);
        let mut base_glyphs: Vec<BaseGlyphRecord> = Vec::new();
        let mut bp = Parser::new(buf, base_start);
        let mut k: u16 = 0;
        while k < num_base_glyphs
            invariant
                s == buf@,
                off == offset as int,
                off + 14 <= s.len(),
                num_base_glyphs == be_u16(s, off + 2),
                base_start == (if off + be_u32(s, off + 4) <= usize::MAX {
                    off + be_u32(s, off + 4)
                } else {
                    usize::MAX as int
                }),
                k <= num_base_glyphs,
                bp.data() == buf@,
                bp.pos() == base_start + 6 * k,
                base_glyphs@.len() == k,
                k > 0 ==> bp.pos() <= buf@.len(),
                forall|i: int|
                    0 <= i < k ==> base_start + 6 * i + 6 <= buf@.len() && #[trigger] base_glyphs@[i]
                        == base_at(buf@, base_start + 6 * i),
            decreases num_base_glyphs - k,
        {
            proof {
                bp.lemma_bounds();
            }
            let glyph_id = match bp.u16() {
                Ok(v) => v,
                Err(e) => {
                    proof {
                        assert(base_start + 6 * k + 2 > s.len());
                        assert(!colr_fits(s, off));
                    }
                    return Err(e);
                },
            };
            let first_layer_index = match bp.u16() {
                Ok(v) => v,
                Err(e) => {
                    proof {
                        assert(base_start + 6 * k + 2 + 2 > s.len());
                        assert(!colr_fits(s, off));
                    }
                    return Err(e);
                },
            };
            let num_layers = match bp.u16() {
                Ok(v) => v,
                Err(e) => {
                    proof {
                        assert(base_start + 6 * k + 4 + 2 > s.len());
                        assert(!colr_fits(s, off));
                    }
                    return Err(e);
                },
            };
            base_glyphs.push(BaseGlyphRecord { glyph_id, first_layer_index, num_layers });
            k += 1;
        }
        let layer_start = offset_add(offset, offset_layer_records);
        let mut layers: Vec<LayerRecord> = Vec::new();
        let mut lp = Parser::new(buf, layer_start);
        let mut m: u16 = 0;
        while m < num_layer_records
            invariant
                s == buf@,
                off == offset as int,
                off + 14 <= s.len(),
                num_layer_records == be_u16(s, off + 12),
                num_base_glyphs == be_u16(s, off + 2),
                num_base_glyphs == 0 || off + be_u32(s, off + 4) + 6 * be_u16(s, off + 2) <= s.len(),
                layer_start == (if off + be_u32(s, off + 8) <= usize::MAX {
                    off + be_u32(s, off + 8)
                } else {
                    usize::MAX as int
                }),
                m <= num_layer_records,
                lp.data() == buf@,
                lp.pos() == layer_start + 4 * m,
                layers@.len() == m,
                m > 0 ==> lp.pos() <= buf@.len(),
                forall|i: int|
                    0 <= i < m ==> layer_start + 4 * i + 4 <= buf@.len() && #[trigger] layers@[i]
                        == layer_at(buf@, layer_start + 4 * i),
            decreases num_layer_records - m,
        {
            proof {
                lp.lemma_bounds();
            }
            let glyph_id = match lp.u16() {
                Ok(v) => v,
                Err(e) => {
                    proof {
                        assert(layer_start + 4 * m + 2 > s.len());
                        assert(!colr_fits(s, off));
                    }
                    return Err(e);
                },
            };
            let palette_index = match lp.u16() {
                Ok(v) => v,
                Err(e) => {
                    proof {
                        assert(layer_start + 4 * m + 2 + 2 > s.len());
                        assert(!colr_fits(s, off));
                    }
                    return Err(e);
                },
            };
            layers.push(LayerRecord { glyph_id, palette_index });
            m += 1;
        }
        Ok(Colr { version, base_glyphs, layers })
    }

    fn write(&self, w: &mut Writer) -> (r: Result<(), FontError>)
        ensures
            r is Ok,
            final(w)@ == old(w)@ + self.encode(),
    {
        let header_size: u32 = 14;
        let base_size = self.base_glyphs.len() as u32 * 6;
        let layer_offset = header_size + base_size;
        w.write_u16(self.version);
        w.write_u16(self.base_glyphs.len() as u16);
        w.write_u32(header_size);
        w.write_u32(layer_offset);
        w.write_u16(self.layers.len() as u16);
        let ghost hdr = w@;
        let n = self.base_glyphs.len();
        let mut i: usize = 0;
        while i < n
            invariant
                n == self.base_glyphs@.len(),
                i <= n,
                w@ == hdr + encode_bases(self.base_glyphs@.subrange(0, i as int)),
            decreases n - i,
        {
            let bg = &self.base_glyphs[i];
            w.write_u16(bg.glyph_id);
            w.write_u16(bg.first_layer_index);
            w.write_u16(bg.num_layers);
            proof {
                let s = self.base_glyphs@.subrange(0, i + 1);
                assert(s.drop_last() =~= self.base_glyphs@.subrange(0, i as int));
            }
            i += 1;
            proof {
                assert(w@ =~= hdr + encode_bases(self.base_glyphs@.subrange(0, i as int)));
            }
        }
        proof {
            assert(self.base_glyphs@.subrange(0, n as int) =~= self.base_glyphs@);
        }
        let ghost mid = w@;
        let m = self.layers.len();
        let mut j: usize = 0;
        while j < m
            invariant
                m == self.layers@.len(),
                j <= m,
                w@ == mid + encode_layers(self.layers@.subrange(0, j as int)),
            decreases m - j,
        {
            let lr = &self.layers[j];
            w.write_u16(lr.glyph_id);
            w.write_u16(lr.palette_index);
            proof {
                let s = self.layers@.subrange(0, j + 1);
                assert(s.drop_last() =~= self.layers@.subrange(0, j as int));
            }
            j += 1;
            proof {
                assert(w@ =~= mid + encode_layers(self.layers@.subrange(0, j as int)));
            }
        }
        proof {
            assert(self.layers@.subrange(0, m as int) =~= self.layers@);
            assert(w@ =~= old(w)@ + self.encode());
        }
        Ok(())
    }
}

} // verus!
