//! Turning a glyph traced from a bitmap into a two-glyph font.
use vstd::prelude::*;
use crate::font::Font;
use crate::tables::cmap::{CmapSubtable, SequentialMapGroup};
use crate::tables::glyf::{GlyfTable, Glyph};
use crate::tables::hhea::Hhea;
use crate::tables::hmtx::{Hmtx, LongHorMetricRecord};
use crate::tables::maxp::Maxp;
use crate::tables::loca::{prefix_sum, LocaTable};
use crate::write::Writer;

verus! {

/// The encoded sizes of a list of glyphs.
pub open spec fn sizes_of(gs: Seq<Glyph>) -> Seq<usize> {
    Seq::new(gs.len(), |i: int| gs[i].encode().len() as usize)
}

/// The glyphs of the font after `glyph` is appended: the old ones and
/// `glyph`, or none when the font has no `glyf`.
pub open spec fn traced_glyphs(f: Font, glyph: Glyph) -> Seq<Glyph> {
    match f.glyf {
        Some(g) => g.glyphs@.push(glyph),
        None => Seq::empty(),
    }
}

/// The metric that each of the two glyphs gets: an advance of 500 and no
/// left side bearing.
pub open spec fn traced_metric() -> LongHorMetricRecord {
    LongHorMetricRecord { advance_width: 500, lsb: 0 }
}

/// The mapping group that sends `codepoint` to glyph 1.
pub open spec fn traced_group(codepoint: u32) -> SequentialMapGroup {
    SequentialMapGroup { start_char_code: codepoint, end_char_code: codepoint, start_glyph_id: 1 }
}

fn encoded_sizes(glyphs: &Vec<Glyph>) -> (v: Vec<usize>)
    ensures
        v@ == sizes_of(glyphs@),
{
    let mut sizes: Vec<usize> = Vec::new();
    let n = glyphs.len();
    let mut k: usize = 0;
    while k < n
        invariant
            n == glyphs@.len(),
            k <= n,
            sizes@ == sizes_of(glyphs@).subrange(0, k as int),
        decreases n - k,
    {
        let mut w = Writer::new();
        glyphs[k].write(&mut w);
        sizes.push(w.len());
        k += 1;
        proof {
            assert(sizes@ =~= sizes_of(glyphs@).subrange(0, k as int));
        }
    }
    proof {
        assert(sizes@ =~= sizes_of(glyphs@));
    }
    sizes
}

impl Font {
    /// The font with a glyph traced from an image added as glyph 1: the
    /// glyph appended to `glyf`, `loca` rebuilt with long offsets from the
    /// glyph sizes, two metrics of advance 500, two glyphs in `maxp` and
    /// two metrics in `hhea`, and, when the first `cmap` subtable is of
    /// format 12, a group mapping `codepoint` to glyph 1. The rest is kept.
    pub fn with_traced_glyph(self, glyph: Glyph, codepoint: u32) -> (r: Font)
        requires
            prefix_sum(
                sizes_of(traced_glyphs(self, glyph)),
                traced_glyphs(self, glyph).len() as int,
            ) <= u32::MAX,
        ensures
            (r.glyf is Some) == (self.glyf is Some),
            r.glyf matches Some(g) ==> g.glyphs@ == traced_glyphs(self, glyph),
            (r.loca is Some) == (self.loca is Some),
            r.loca matches Some(l) ==> {
                let sizes = sizes_of(traced_glyphs(self, glyph));
                &&& l.format == 1
                &&& l.offsets@.len() == sizes.len() + 1
                &&& forall|i: int| 0 <= i <= sizes.len() ==> l.offsets@[i] == prefix_sum(sizes, i)
            },
            r.hmtx.h_metrics@ == seq![traced_metric(), traced_metric()],
            r.hmtx.left_side_bearings@.len() == 0,
            r.maxp == (Maxp { num_glyphs: 2, ..self.maxp }),
            r.hhea == (Hhea { number_of_hmetrics: 2, ..self.hhea }),
            r.cmap.version == self.cmap.version,
            r.cmap.num_tables == self.cmap.num_tables,
            r.cmap.records@ == self.cmap.records@,
            r.cmap.subtables@.len() == self.cmap.subtables@.len(),
            forall|i: int|
                1 <= i < r.cmap.subtables@.len() ==> #[trigger] r.cmap.subtables@[i]
                    == self.cmap.subtables@[i],
            self.cmap.subtables@.len() > 0 ==> match self.cmap.subtables@[0] {
                CmapSubtable::Format12 { language, groups } => r.cmap.subtables@[0] matches CmapSubtable::Format12 {
                    language: l2,
                    groups: g2,
                } && l2 == language && g2@ == groups@.push(traced_group(codepoint)),
                other => r.cmap.subtables@[0] == other,
            },
            r.sfnt_version == self.sfnt_version,
            r.tables == self.tables,
            r.head == self.head,
            r.post == self.post,
            r.name == self.name,
            r.os2 == self.os2,
            r.kern == self.kern,
            r.cvt == self.cvt && r.prep == self.prep && r.fpgm == self.fpgm,
            r.gpos == self.gpos && r.gsub == self.gsub,
            r.hvar == self.hvar && r.gvar == self.gvar,
            r.fvar == self.fvar && r.stat == self.stat && r.cff == self.cff,
            r.colr == self.colr && r.cpal == self.cpal && r.svg == self.svg,
            r.raw_tables == self.raw_tables,
    {
        let ghost all = traced_glyphs(self, glyph);
        let ghost old_cmap = self.cmap;
        let mut font = self;
        let mut glyf_opt: Option<GlyfTable> = None;
        std::mem::swap(&mut glyf_opt, &mut font.glyf);
        let (new_glyf, sizes) = match glyf_opt {
            Some(gt) => {
                let mut glyphs = gt.glyphs;
                glyphs.push(glyph);
                let sizes = encoded_sizes(&glyphs);
                (Some(GlyfTable { glyphs }), sizes)
            },
            None => (None, Vec::new()),
        };
        proof {
            assert(sizes@ =~= sizes_of(all));
        }
        font.glyf = new_glyf;
        if font.loca.is_some() {
            font.loca = Some(LocaTable::from_glyph_sizes(sizes.as_slice(), true));
        }
        font.hmtx = Hmtx {
            h_metrics: vec![
                LongHorMetricRecord { advance_width: 500, lsb: 0 },
                LongHorMetricRecord { advance_width: 500, lsb: 0 },
            ],
            left_side_bearings: Vec::new(),
        };
        font.maxp.num_glyphs = 2;
        font.hhea.number_of_hmetrics = 2;
        let mut subs: Vec<CmapSubtable> = Vec::new();
        std::mem::swap(&mut subs, &mut font.cmap.subtables);
        if subs.len() > 0 {
            let first = subs.remove(0);
            let updated = match first {
                CmapSubtable::Format12 { language, groups } => {
                    let mut groups = groups;
                    groups.push(
                        SequentialMapGroup {
                            start_char_code: codepoint,
                            end_char_code: codepoint,
                            start_glyph_id: 1,
                        },
                    );
                    CmapSubtable::Format12 { language, groups }
                },
                other => other,
            };
            subs.insert(0, updated);
        }
        font.cmap.subtables = subs;
        proof {
            assert(font.hmtx.h_metrics@ =~= seq![traced_metric(), traced_metric()]);
            assert forall|i: int| 1 <= i < font.cmap.subtables@.len() implies #[trigger] font.cmap.subtables@[i]
                == old_cmap.subtables@[i] by {}
        }
        font
    }
}

} // verus!
