//! Building fonts: the smallest valid font, and a subset of a font.
use vstd::prelude::*;
use crate::copies::{
    copy_glyf, copy_gvar, copy_hmtx, copy_hvar, copy_loca, copy_name, copy_opt_bytes, copy_post,
    copy_raw, gvar_view, hvar_view, same_name, same_post,
};
use crate::font::{entries_view, vec_view, Font, SfntVersion};
use crate::tables::cmap::{Cmap, CmapSubtable, EncodingRecord, SequentialMapGroup};
use crate::tables::glyf::{CompositeGlyph, GlyfTable, Glyph, SimpleGlyph};
use crate::tables::head::Head;
use crate::tables::hhea::Hhea;
use crate::tables::hmtx::{spec_metric_for_glyph, Hmtx, LongHorMetricRecord};
use crate::tables::kern::{Kern, KernPair, KernSubtable};
use crate::tables::loca::{prefix_sum, LocaTable};
use crate::tables::maxp::Maxp;
use crate::tables::name::{Name, NameRecord};
use crate::tables::os2::Os2;
use crate::tables::post::Post;

verus! {

impl Font {
    /// A TrueType font with one empty glyph, a Format 12 `cmap` that maps
    /// U+0020..U+007E from glyph 1 on, and the names "TestFont" and
    /// "Regular".
    pub fn create_minimal() -> (f: Font)
        ensures
            f.sfnt_version == SfntVersion::TrueType,
            f.tables@.len() == 0,
            f.head.major_version == 1,
            f.head.minor_version == 0,
            f.head.font_revision == 0x00010000,
            f.head.check_sum_adjustment == 0,
            f.head.magic_number == 0x5F0F3CF5,
            f.head.flags == 0,
            f.head.units_per_em == 1000,
            f.head.created == 0,
            f.head.modified == 0,
            f.head.x_min == 0,
            f.head.y_min == 0,
            f.head.x_max == 500,
            f.head.y_max == 700,
            f.head.mac_style == 0,
            f.head.lowest_rec_ppem == 3,
            f.head.font_direction_hint == 2,
            f.head.index_to_loc_format == 1,
            f.head.glyph_data_format == 0,
            f.hhea.major_version == 1,
            f.hhea.minor_version == 0,
            f.hhea.ascender == 800,
            f.hhea.descender == -200,
            f.hhea.line_gap == 0,
            f.hhea.advance_width_max == 500,
            f.hhea.min_left_side_bearing == 0,
            f.hhea.min_right_side_bearing == 0,
            f.hhea.x_max_extent == 500,
            f.hhea.caret_slope_rise == 1,
            f.hhea.caret_slope_run == 0,
            f.hhea.caret_offset == 0,
            f.hhea.reserved@ == seq![0i16, 0, 0, 0],
            f.hhea.metric_data_format == 0,
            f.hhea.number_of_hmetrics == 1,
            f.maxp.version == 0x00005000,
            f.maxp.num_glyphs == 1,
            f.maxp.max_points is None,
            f.maxp.max_contours is None,
            f.maxp.max_composite_points is None,
            f.maxp.max_composite_contours is None,
            f.maxp.max_zones is None,
            f.maxp.max_twilight_points is None,
            f.maxp.max_storage is None,
            f.maxp.max_function_defs is None,
            f.maxp.max_instruction_defs is None,
            f.maxp.max_stack_elements is None,
            f.maxp.max_size_of_instructions is None,
            f.maxp.max_component_elements is None,
            f.maxp.max_component_depth is None,
            f.post.version == 0x00030000,
            f.post.italic_angle == 0,
            f.post.underline_position == 0,
            f.post.underline_thickness == 0,
            f.post.is_fixed_pitch == 0,
            f.post.min_mem_type42 == 0,
            f.post.max_mem_type42 == 0,
            f.post.min_mem_type1 == 0,
            f.post.max_mem_type1 == 0,
            f.post.names is None,
            f.os2.version == 4,
            f.os2.x_avg_char_width == 500,
            f.os2.us_weight_class == 400,
            f.os2.us_width_class == 5,
            f.os2.fs_type == 0,
            f.os2.y_subscript_x_size == 0,
            f.os2.y_subscript_y_size == 0,
            f.os2.y_subscript_x_offset == 0,
            f.os2.y_subscript_y_offset == 0,
            f.os2.y_superscript_x_size == 0,
            f.os2.y_superscript_y_size == 0,
            f.os2.y_superscript_x_offset == 0,
            f.os2.y_superscript_y_offset == 0,
            f.os2.y_strikeout_size == 0,
            f.os2.y_strikeout_position == 0,
            f.os2.s_family_class == 0,
            f.os2.panose@ == seq![0u8, 0, 0, 0, 0, 0, 0, 0, 0, 0],
            f.os2.ul_unicode_range1 == 0,
            f.os2.ul_unicode_range2 == 0,
            f.os2.ul_unicode_range3 == 0,
            f.os2.ul_unicode_range4 == 0,
            f.os2.ach_vend_id@ == seq![0u8, 0, 0, 0],
            f.os2.fs_selection == 0x0040,
            f.os2.us_first_char_index == 0x0020,
            f.os2.us_last_char_index == 0x007E,
            f.os2.s_typo_ascender == 800,
            f.os2.s_typo_descender == -200,
            f.os2.s_typo_line_gap == 0,
            f.os2.us_win_ascent == 1000,
            f.os2.us_win_descent == 200,
            f.os2.ul_code_page_range1 == Some(1u32),
            f.os2.ul_code_page_range2 == Some(0u32),
            f.os2.sx_height == Some(500i16),
            f.os2.s_cap_height == Some(700i16),
            f.os2.us_default_char == Some(0u16),
            f.os2.us_break_char == Some(0x20u16),
            f.os2.us_max_context == Some(0u16),
            f.os2.us_lower_optical_point_size is None,
            f.os2.us_upper_optical_point_size is None,
            f.name.format == 0,
            f.name.count == 2,
            f.name.string_offset == 0,
            f.name.records@.len() == 2,
            f.name.records@[0].platform_id == 1 && f.name.records@[0].encoding_id == 0
                && f.name.records@[0].language_id == 0 && f.name.records@[0].name_id == 1
                && f.name.records@[0].string@ == "TestFont"@,
            f.name.records@[1].platform_id == 1 && f.name.records@[1].encoding_id == 0
                && f.name.records@[1].language_id == 0 && f.name.records@[1].name_id == 2
                && f.name.records@[1].string@ == "Regular"@,
            f.cmap.version == 0,
            f.cmap.num_tables == 1,
            f.cmap.records@ == seq![
                EncodingRecord { platform_id: 3, encoding_id: 1, subtable_offset: 0 },
            ],
            f.cmap.subtables@.len() == 1,
            f.cmap.subtables@[0] matches CmapSubtable::Format12 { language, groups } && language
                == 0 && groups@ == seq![
                SequentialMapGroup { start_char_code: 0x20, end_char_code: 0x7E, start_glyph_id: 1 },
            ],
            f.glyf matches Some(g) && g.glyphs@ == seq![Glyph::Empty],
            f.loca matches Some(l) && l.offsets@ == seq![0u32, 0] && l.format == 1,
            f.hmtx.h_metrics@ == seq![LongHorMetricRecord { advance_width: 500, lsb: 0 }],
            f.hmtx.left_side_bearings@.len() == 0,
            f.kern is None && f.cvt is None && f.prep is None && f.fpgm is None,
            f.gpos is None && f.gsub is None && f.hvar is None && f.gvar is None,
            f.fvar is None && f.stat is None && f.cff is None,
            f.colr is None && f.cpal is None && f.svg is None,
            f.raw_tables@.len() == 0,
    {
        let glyf = GlyfTable { glyphs: vec![Glyph::Empty] };
        let sizes: Vec<usize> = vec![0];
        assert(prefix_sum(sizes@, 0) == 0);
        assert(prefix_sum(sizes@, 1) == 0);
        let loca = LocaTable::from_glyph_sizes(sizes.as_slice(), false);
        let hmtx = Hmtx {
            h_metrics: vec![LongHorMetricRecord { advance_width: 500, lsb: 0 }],
            left_side_bearings: Vec::new(),
        };
        proof {
            reveal_strlit("TestFont");
            reveal_strlit("Regular");
        }
        let f = Font {
        sfnt_version: SfntVersion::TrueType,
        tables: Vec::new(),
        head: Head {
            major_version: 1,
            minor_version: 0,
            font_revision: 0x00010000,
            check_sum_adjustment: 0,
            magic_number: 0x5F0F3CF5,
            flags: 0,
            units_per_em: 1000,
            created: 0,
            modified: 0,
            x_min: 0,
            y_min: 0,
            x_max: 500,
            y_max: 700,
            mac_style: 0,
            lowest_rec_ppem: 3,
            font_direction_hint: 2,
            index_to_loc_format: 1,
            glyph_data_format: 0,
        },
        hhea: Hhea {
            major_version: 1,
            minor_version: 0,
            ascender: 800,
            descender: -200,
            line_gap: 0,
            advance_width_max: 500,
            min_left_side_bearing: 0,
            min_right_side_bearing: 0,
            x_max_extent: 500,
            caret_slope_rise: 1,
            caret_slope_run: 0,
            caret_offset: 0,
            reserved: [0, 0, 0, 0],
            metric_data_format: 0,
            number_of_hmetrics: 1,
        },
        maxp: Maxp {
            version: 0x00005000,
            num_glyphs: 1,
            max_points: None,
            max_contours: None,
            max_composite_points: None,
            max_composite_contours: None,
            max_zones: None,
            max_twilight_points: None,
            max_storage: None,
            max_function_defs: None,
            max_instruction_defs: None,
            max_stack_elements: None,
            max_size_of_instructions: None,
            max_component_elements: None,
            max_component_depth: None,
        },
        post: Post {
            version: 0x00030000,
            italic_angle: 0,
            underline_position: 0,
            underline_thickness: 0,
            is_fixed_pitch: 0,
            min_mem_type42: 0,
            max_mem_type42: 0,
            min_mem_type1: 0,
            max_mem_type1: 0,
            names: None,
        },
        name: Name {
            format: 0,
            count: 2,
            string_offset: 0,
            records: vec![
                NameRecord {
                    platform_id: 1,
                    encoding_id: 0,
                    language_id: 0,
                    name_id: 1,
                    string: "TestFont".to_owned(),
                },
                NameRecord {
                    platform_id: 1,
                    encoding_id: 0,
                    language_id: 0,
                    name_id: 2,
                    string: "Regular".to_owned(),
                },
            ],
        },
        cmap: Cmap {
            version: 0,
            num_tables: 1,
            records: vec![EncodingRecord {
                platform_id: 3,
                encoding_id: 1,
                subtable_offset: 0,
            }],
            subtables: vec![CmapSubtable::Format12 {
                language: 0,
                groups: vec![SequentialMapGroup {
                    start_char_code: 0x20,
                    end_char_code: 0x7E,
                    start_glyph_id: 1,
                }],
            }],
        },
        os2: Os2 {
            version: 4,
            x_avg_char_width: 500,
            us_weight_class: 400,
            us_width_class: 5,
            fs_type: 0,
            y_subscript_x_size: 0,
            y_subscript_y_size: 0,
            y_subscript_x_offset: 0,
            y_subscript_y_offset: 0,
            y_superscript_x_size: 0,
            y_superscript_y_size: 0,
            y_superscript_x_offset: 0,
            y_superscript_y_offset: 0,
            y_strikeout_size: 0,
            y_strikeout_position: 0,
            s_family_class: 0,
            panose: [0, 0, 0, 0, 0, 0, 0, 0, 0, 0],
            ul_unicode_range1: 0,
            ul_unicode_range2: 0,
            ul_unicode_range3: 0,
            ul_unicode_range4: 0,
            ach_vend_id: [0, 0, 0, 0],
            fs_selection: 0x0040,
            us_first_char_index: 0x0020,
            us_last_char_index: 0x007E,
            s_typo_ascender: 800,
            s_typo_descender: -200,
            s_typo_line_gap: 0,
            us_win_ascent: 1000,
            us_win_descent: 200,
            ul_code_page_range1: Some(1),
            ul_code_page_range2: Some(0),
            sx_height: Some(500),
            s_cap_height: Some(700),
            us_default_char: Some(0),
            us_break_char: Some(0x20),
            us_max_context: Some(0),
            us_lower_optical_point_size: None,
            us_upper_optical_point_size: None,
        },
        glyf: Some(glyf),
        loca: Some(loca),
        hmtx,
        kern: None,
        cvt: None,
        prep: None,
        fpgm: None,
        gpos: None,
        gsub: None,
        hvar: None,
        gvar: None,
        fvar: None,
        stat: None,
        cff: None,
        colr: None,
        cpal: None,
        svg: None,
        raw_tables: Vec::new(),
    };
        proof {
            assert(f.glyf.unwrap().glyphs@ =~= seq![Glyph::Empty]);
            assert(f.loca.unwrap().offsets@[0] == 0);
            assert(f.loca.unwrap().offsets@[1] == 0);
            assert(f.loca.unwrap().offsets@ =~= seq![0u32, 0]);
            assert(f.hhea.reserved@ =~= seq![0i16, 0, 0, 0]);
            assert(f.os2.panose@ =~= seq![0u8, 0, 0, 0, 0, 0, 0, 0, 0, 0]);
            assert(f.os2.ach_vend_id@ =~= seq![0u8, 0, 0, 0]);
        }
        f
    }
}


/// The kept glyph IDs, in order: those below `n`.
pub open spec fn kept_ids(keep: Seq<u16>, n: int) -> Seq<u16>
    decreases keep.len(),
{
    if keep.len() == 0 {
        Seq::empty()
    } else {
        let before = kept_ids(keep.drop_last(), n);
        if keep.last() < n {
            before.push(keep.last())
        } else {
            before
        }
    }
}

/// Two glyphs with the same fields.
pub open spec fn same_glyph(a: Glyph, b: Glyph) -> bool {
    match (a, b) {
        (Glyph::Empty, Glyph::Empty) => true,
        (Glyph::Simple(x), Glyph::Simple(y)) => {
            &&& x.number_of_contours == y.number_of_contours
            &&& x.x_min == y.x_min && x.y_min == y.y_min && x.x_max == y.x_max && x.y_max == y.y_max
            &&& x.end_pts_of_contours@ == y.end_pts_of_contours@
            &&& x.instructions@ == y.instructions@
            &&& x.flags@ == y.flags@
            &&& x.x_coordinates@ == y.x_coordinates@
            &&& x.y_coordinates@ == y.y_coordinates@
        },
        (Glyph::Composite(x), Glyph::Composite(y)) => {
            &&& x.x_min == y.x_min && x.y_min == y.y_min && x.x_max == y.x_max && x.y_max == y.y_max
            &&& x.components@ == y.components@
        },
        _ => false,
    }
}

pub proof fn lemma_same_glyph_encode(a: Glyph, b: Glyph)
    requires
        same_glyph(a, b),
    ensures
        a.encode() == b.encode(),
{
}

/// A copy of a glyph.
pub fn copy_glyph(g: &Glyph) -> (r: Glyph)
    ensures
        same_glyph(r, *g),
{
    match g {
        Glyph::Empty => Glyph::Empty,
        Glyph::Simple(x) => Glyph::Simple(
            SimpleGlyph {
                number_of_contours: x.number_of_contours,
                x_min: x.x_min,
                y_min: x.y_min,
                x_max: x.x_max,
                y_max: x.y_max,
                end_pts_of_contours: vstd::slice::slice_to_vec(x.end_pts_of_contours.as_slice()),
                instructions: vstd::slice::slice_to_vec(x.instructions.as_slice()),
                flags: vstd::slice::slice_to_vec(x.flags.as_slice()),
                x_coordinates: vstd::slice::slice_to_vec(x.x_coordinates.as_slice()),
                y_coordinates: vstd::slice::slice_to_vec(x.y_coordinates.as_slice()),
            },
        ),
        Glyph::Composite(x) => Glyph::Composite(
            CompositeGlyph {
                x_min: x.x_min,
                y_min: x.y_min,
                x_max: x.x_max,
                y_max: x.y_max,
                components: vstd::slice::slice_to_vec(x.components.as_slice()),
            },
        ),
    }
}

/// The encoded sizes of the kept glyphs.
pub open spec fn kept_sizes(glyphs: Seq<Glyph>, keep: Seq<u16>) -> Seq<usize> {
    let ids = kept_ids(keep, glyphs.len() as int);
    Seq::new(ids.len(), |i: int| glyphs[ids[i] as int].encode().len() as usize)
}

/// The metrics of the kept glyphs, one for each entry of `keep`.
pub open spec fn subset_metrics(h: Hmtx, keep: Seq<u16>) -> Seq<LongHorMetricRecord> {
    Seq::new(
        keep.len(),
        |i: int|
            {
                let m = spec_metric_for_glyph(h.h_metrics@, h.left_side_bearings@, keep[i] as int);
                LongHorMetricRecord { advance_width: m.0, lsb: m.1 }
            },
    )
}

/// The pairs whose two glyphs are both kept, in order.
pub open spec fn kept_pairs(pairs: Seq<KernPair>, keep: Seq<u16>) -> Seq<KernPair>
    decreases pairs.len(),
{
    if pairs.len() == 0 {
        Seq::empty()
    } else {
        let before = kept_pairs(pairs.drop_last(), keep);
        let p = pairs.last();
        if keep.contains(p.left) && keep.contains(p.right) {
            before.push(p)
        } else {
            before
        }
    }
}

/// The subtables that keep at least one pair: version, coverage and the
/// kept pairs.
pub open spec fn kept_subtables(subs: Seq<KernSubtable>, keep: Seq<u16>) -> Seq<
    (u16, u16, Seq<KernPair>),
>
    decreases subs.len(),
{
    if subs.len() == 0 {
        Seq::empty()
    } else {
        let before = kept_subtables(subs.drop_last(), keep);
        let t = subs.last();
        let ps = kept_pairs(t.pairs@, keep);
        if ps.len() > 0 {
            before.push((t.version, t.coverage, ps))
        } else {
            before
        }
    }
}

/// A rebuilt subtable: the kept pairs, with version and coverage of the
/// original and a length of 0 that writing computes.
pub open spec fn sub_matches(t: KernSubtable, e: (u16, u16, Seq<KernPair>)) -> bool {
    t.version == e.0 && t.coverage == e.1 && t.length == 0 && t.pairs@ == e.2
}

/// A kerning table rebuilt from kept subtables (lengths left at 0, to be
/// computed when written).
pub open spec fn kern_matches(k: Kern, version: u16, subs: Seq<(u16, u16, Seq<KernPair>)>) -> bool {
    &&& k.version == version
    &&& k.n_tables == subs.len() as u16
    &&& k.subtables@.len() == subs.len()
    &&& forall|i: int| 0 <= i < subs.len() ==> sub_matches(#[trigger] k.subtables@[i], subs[i])
}

/// Both glyphs of the pair are among the kept ones.
pub open spec fn pair_kept(p: KernPair, keep: Seq<u16>) -> bool {
    keep.contains(p.left) && keep.contains(p.right)
}

/// Filtering keeps a pair exactly when both of its glyphs are kept: every
/// pair left has both glyphs in `keep` and comes from `pairs`, and every
/// pair of `pairs` with both glyphs in `keep` is left.
pub proof fn lemma_kept_pairs(pairs: Seq<KernPair>, keep: Seq<u16>)
    ensures
        kept_pairs(pairs, keep).len() <= pairs.len(),
        forall|j: int|
            0 <= j < kept_pairs(pairs, keep).len() ==> pair_kept(
                #[trigger] kept_pairs(pairs, keep)[j],
                keep,
            ) && pairs.contains(kept_pairs(pairs, keep)[j]),
        forall|j: int|
            0 <= j < pairs.len() && pair_kept(#[trigger] pairs[j], keep) ==> kept_pairs(
                pairs,
                keep,
            ).contains(pairs[j]),
    decreases pairs.len(),
{
    if pairs.len() > 0 {
        let d = pairs.drop_last();
        let p = pairs.last();
        let before = kept_pairs(d, keep);
        let kp = kept_pairs(pairs, keep);
        lemma_kept_pairs(d, keep);
        assert forall|j: int| 0 <= j < kp.len() implies pair_kept(#[trigger] kp[j], keep)
            && pairs.contains(kp[j]) by {
            if j < before.len() {
                assert(kp[j] == before[j]);
                assert(d.contains(before[j]));
                let m = choose|m: int| 0 <= m < d.len() && d[m] == before[j];
                assert(pairs[m] == d[m]);
            } else {
                assert(kp[j] == p);
                assert(pairs[pairs.len() - 1] == p);
            }
        }
        assert forall|j: int| 0 <= j < pairs.len() && pair_kept(#[trigger] pairs[j], keep) implies kp.contains(
            pairs[j],
        ) by {
            if j < d.len() {
                assert(d[j] == pairs[j]);
                assert(before.contains(d[j]));
                let m = choose|m: int| 0 <= m < before.len() && before[m] == d[j];
                assert(kp[m] == before[m]);
            } else {
                assert(pairs[j] == p);
                assert(kp[kp.len() - 1] == p);
            }
        }
    }
}

/// The subtables a subset keeps: each has at least one pair, every pair
/// has both glyphs kept, and none is left exactly when no pair of any
/// subtable has both glyphs kept.
pub proof fn lemma_kept_subtables(subs: Seq<KernSubtable>, keep: Seq<u16>)
    ensures
        forall|i: int|
            0 <= i < kept_subtables(subs, keep).len() ==> (#[trigger] kept_subtables(subs, keep)[i]).2.len()
                > 0,
        forall|i: int, j: int|
            0 <= i < kept_subtables(subs, keep).len() && 0 <= j < kept_subtables(subs, keep)[i].2.len()
                ==> pair_kept(#[trigger] kept_subtables(subs, keep)[i].2[j], keep),
        kept_subtables(subs, keep).len() == 0 <==> !exists|i: int, j: int|
            0 <= i < subs.len() && 0 <= j < subs[i].pairs@.len() && pair_kept(
                #[trigger] subs[i].pairs@[j],
                keep,
            ),
    decreases subs.len(),
{
    if subs.len() > 0 {
        let d = subs.drop_last();
        let t = subs.last();
        let ps = kept_pairs(t.pairs@, keep);
        let before = kept_subtables(d, keep);
        let ks = kept_subtables(subs, keep);
        lemma_kept_subtables(d, keep);
        lemma_kept_pairs(t.pairs@, keep);
        assert forall|i: int| 0 <= i < ks.len() implies (#[trigger] ks[i]).2.len() > 0 by {
            if i < before.len() {
                assert(ks[i] == before[i]);
            }
        }
        assert forall|i: int, j: int| 0 <= i < ks.len() && 0 <= j < ks[i].2.len() implies pair_kept(
            #[trigger] ks[i].2[j],
            keep,
        ) by {
            if i < before.len() {
                assert(ks[i] == before[i]);
            } else {
                assert(ks[i].2 == ps);
            }
        }
        if exists|i: int, j: int|
            0 <= i < subs.len() && 0 <= j < subs[i].pairs@.len() && pair_kept(
                #[trigger] subs[i].pairs@[j],
                keep,
            ) {
            let (i, j) = choose|i: int, j: int|
                0 <= i < subs.len() && 0 <= j < subs[i].pairs@.len() && pair_kept(
                    #[trigger] subs[i].pairs@[j],
                    keep,
                );
            if i < d.len() {
                assert(d[i] == subs[i]);
                assert(pair_kept(d[i].pairs@[j], keep));
                assert(before.len() > 0);
            } else {
                assert(subs[i] == t);
                assert(ps.contains(t.pairs@[j]));
            }
        } else {
            assert forall|i: int, j: int|
                0 <= i < d.len() && 0 <= j < d[i].pairs@.len() implies !pair_kept(
                #[trigger] d[i].pairs@[j],
                keep,
            ) by {
                assert(d[i] == subs[i]);
            }
            if ps.len() > 0 {
                assert(pair_kept(ps[0], keep) && t.pairs@.contains(ps[0]));
                let m = choose|m: int| 0 <= m < t.pairs@.len() && t.pairs@[m] == ps[0];
                assert(subs[subs.len() - 1] == t);
                assert(pair_kept(subs[subs.len() - 1].pairs@[m], keep));
            }
        }
    }
}

fn contains_id(keep: &[u16], g: u16) -> (r: bool)
    ensures
        r == keep@.contains(g),
{
    let n = keep.len();
    let mut i: usize = 0;
    while i < n
        invariant
            n == keep@.len(),
            i <= n,
            forall|j: int| 0 <= j < i ==> keep@[j] != g,
        decreases n - i,
    {
        if keep[i] == g {
            return true;
        }
        i += 1;
    }
    false
}

fn filter_pairs(pairs: &Vec<KernPair>, keep: &[u16]) -> (r: Vec<KernPair>)
    ensures
        r@ == kept_pairs(pairs@, keep@),
{
    let n = pairs.len();
    let mut out: Vec<KernPair> = Vec::new();
    let mut i: usize = 0;
    while i < n
        invariant
            n == pairs@.len(),
            i <= n,
            out@ == kept_pairs(pairs@.subrange(0, i as int), keep@),
        decreases n - i,
    {
        let p = pairs[i];
        proof {
            let sub = pairs@.subrange(0, i + 1);
            assert(sub.drop_last() =~= pairs@.subrange(0, i as int));
        }
        if contains_id(keep, p.left) && contains_id(keep, p.right) {
            out.push(p);
        }
        i += 1;
    }
    proof {
        assert(pairs@.subrange(0, n as int) =~= pairs@);
    }
    out
}

/// The kerning table with only the pairs of kept glyphs; none when no pair
/// is left.
fn subset_kern(k: &Kern, keep: &[u16]) -> (r: Option<Kern>)
    ensures
        ({
            let subs = kept_subtables(k.subtables@, keep@);
            if subs.len() == 0 {
                r is None
            } else {
                r matches Some(nk) && kern_matches(nk, k.version, subs)
            }
        }),
{
    let n = k.subtables.len();
    let mut out: Vec<KernSubtable> = Vec::new();
    let mut i: usize = 0;
    let ghost mut subs: Seq<(u16, u16, Seq<KernPair>)> = Seq::empty();
    while i < n
        invariant
            n == k.subtables@.len(),
            i <= n,
            subs == kept_subtables(k.subtables@.subrange(0, i as int), keep@),
            out@.len() == subs.len(),
            forall|j: int| 0 <= j < subs.len() ==> sub_matches(#[trigger] out@[j], subs[j]),
        decreases n - i,
    {
        let sub = &k.subtables[i];
        proof {
            let s1 = k.subtables@.subrange(0, i + 1);
            assert(s1.drop_last() =~= k.subtables@.subrange(0, i as int));
        }
        let new_pairs = filter_pairs(&sub.pairs, keep);
        let ghost old_out = out@;
        if new_pairs.len() > 0 {
            out.push(
                KernSubtable {
                    version: sub.version,
                    length: 0,
                    coverage: sub.coverage,
                    pairs: new_pairs,
                },
            );
            proof {
                subs = subs.push((sub.version, sub.coverage, new_pairs@));
                assert forall|j: int| 0 <= j < subs.len() implies sub_matches(
                    #[trigger] out@[j],
                    subs[j],
                ) by {
                    if j < old_out.len() {
                        assert(out@[j] == old_out[j]);
                    }
                }
            }
        }
        i += 1;
    }
    proof {
        assert(k.subtables@.subrange(0, n as int) =~= k.subtables@);
    }
    if out.len() > 0 {
        let nt = out.len() as u16;
        Some(Kern { version: k.version, n_tables: nt, subtables: out })
    } else {
        None
    }
}

/// A subset can be written: the kept glyphs' total size fits 32 bits.
pub open spec fn subset_fits(f: Font, keep: Seq<u16>) -> bool {
    match f.glyf {
        Some(g) => f.loca is Some ==> prefix_sum(
            kept_sizes(g.glyphs@, keep),
            kept_sizes(g.glyphs@, keep).len() as int,
        ) <= u32::MAX,
        None => true,
    }
}

/// What a subset keeps as it was: the directory it was read with, `head`,
/// `OS/2`, `post`, `name`, the hinting and variation tables, the raw
/// tables, and every field of `hhea` and `maxp` but the counts.
pub open spec fn subset_keeps(r: Font, f: Font) -> bool {
    &&& r.tables@ == f.tables@
    &&& r.head == f.head
    &&& r.os2 == f.os2
    &&& r.hhea == (Hhea { number_of_hmetrics: r.hhea.number_of_hmetrics, ..f.hhea })
    &&& r.maxp == (Maxp { num_glyphs: r.maxp.num_glyphs, ..f.maxp })
    &&& same_post(r.post, f.post)
    &&& same_name(r.name, f.name)
    &&& vec_view(r.cvt) == vec_view(f.cvt)
    &&& vec_view(r.prep) == vec_view(f.prep)
    &&& vec_view(r.fpgm) == vec_view(f.fpgm)
    &&& hvar_view(r.hvar) == hvar_view(f.hvar)
    &&& gvar_view(r.gvar) == gvar_view(f.gvar)
    &&& entries_view(r.raw_tables@) == entries_view(f.raw_tables@)
}

/// A font without both `glyf` and `loca` keeps its outlines and metrics.
pub open spec fn outlines_kept(r: Font, f: Font) -> bool {
    &&& r.hhea == f.hhea
    &&& r.maxp == f.maxp
    &&& r.hmtx.h_metrics@ == f.hmtx.h_metrics@
    &&& r.hmtx.left_side_bearings@ == f.hmtx.left_side_bearings@
    &&& match (r.glyf, f.glyf) {
        (Some(a), Some(b)) => a.glyphs@.len() == b.glyphs@.len() && forall|i: int|
            0 <= i < a.glyphs@.len() ==> same_glyph(#[trigger] a.glyphs@[i], b.glyphs@[i]),
        (None, None) => true,
        _ => false,
    }
    &&& match (r.loca, f.loca) {
        (Some(a), Some(b)) => a.format == b.format && a.offsets@ == b.offsets@,
        (None, None) => true,
        _ => false,
    }
}

/// The outlines and metrics of a subset: the kept glyphs, a long `loca`
/// for them, a metric for each requested ID.
pub open spec fn subset_outlines(r: Font, f: Font, keep: Seq<u16>) -> bool {
    match f.glyf {
        Some(g) => f.loca is Some ==> {
        let ids = kept_ids(keep, g.glyphs@.len() as int);
        let sizes = kept_sizes(g.glyphs@, keep);
        &&& r.glyf matches Some(ng) && ng.glyphs@.len() == ids.len() && forall|i: int|
            0 <= i < ids.len() ==> same_glyph(#[trigger] ng.glyphs@[i], g.glyphs@[ids[i] as int])
        &&& r.loca matches Some(l) && l.format == 1 && l.offsets@.len() == ids.len() + 1
            && forall|i: int| 0 <= i <= ids.len() ==> #[trigger] l.offsets@[i] == prefix_sum(sizes, i)
        &&& r.hmtx.h_metrics@ == subset_metrics(f.hmtx, keep)
        &&& r.hmtx.left_side_bearings@.len() == 0
        &&& r.hhea.number_of_hmetrics == (if keep.len() < ids.len() {
            keep.len()
        } else {
            ids.len()
        }) as u16
        &&& r.maxp.num_glyphs == ids.len() as u16
    },
        None => true,
    }
}

impl Font {
    /// A font with only the given glyphs: their outlines, a metric for
    /// each requested ID, the kerning pairs between kept glyphs; the tables
    /// whose glyph IDs a subset would invalidate are dropped.
    pub fn subset(&self, keep_glyphs: &[u16]) -> (r: Font)
        requires
            subset_fits(*self, keep_glyphs@),
        ensures
            r.sfnt_version == self.sfnt_version,
            subset_outlines(r, *self, keep_glyphs@),
            match self.kern {
                Some(k) => {
                    let subs = kept_subtables(k.subtables@, keep_glyphs@);
                    if subs.len() == 0 {
                        r.kern is None
                    } else {
                        r.kern matches Some(nk) && kern_matches(nk, k.version, subs)
                    }
                },
                None => r.kern is None,
            },
            r.kern matches Some(nk) ==> forall|i: int, j: int|
                0 <= i < nk.subtables@.len() && 0 <= j < nk.subtables@[i].pairs@.len() ==> pair_kept(
                    #[trigger] nk.subtables@[i].pairs@[j],
                    keep_glyphs@,
                ),
            self.kern matches Some(k) ==> (r.kern is Some <==> exists|i: int, j: int|
                0 <= i < k.subtables@.len() && 0 <= j < k.subtables@[i].pairs@.len() && pair_kept(
                    #[trigger] k.subtables@[i].pairs@[j],
                    keep_glyphs@,
                )),
            r.gpos is None && r.gsub is None && r.fvar is None && r.stat is None,
            r.cff is None && r.colr is None && r.cpal is None && r.svg is None,
            subset_keeps(r, *self),
            (self.glyf is None || self.loca is None) ==> outlines_kept(r, *self),
    {
        let (glyf, loca, hmtx, hhea, maxp) = match (&self.glyf, &self.loca) {
            (Some(g), Some(_)) => self.subset_outlines(g, keep_glyphs),
            _ => (
                copy_glyf(&self.glyf),
                copy_loca(&self.loca),
                copy_hmtx(&self.hmtx),
                self.hhea,
                self.maxp,
            ),
        };
        let kern = match &self.kern {
            Some(k) => subset_kern(k, keep_glyphs),
            None => None,
        };
        proof {
            if self.kern is Some {
                let k = self.kern->0;
                let subs = kept_subtables(k.subtables@, keep_glyphs@);
                lemma_kept_subtables(k.subtables@, keep_glyphs@);
                if kern is Some {
                    let nk = kern->0;
                    assert forall|i: int, j: int|
                        0 <= i < nk.subtables@.len() && 0 <= j < nk.subtables@[i].pairs@.len() implies pair_kept(
                        #[trigger] nk.subtables@[i].pairs@[j],
                        keep_glyphs@,
                    ) by {
                        assert(sub_matches(nk.subtables@[i], subs[i]));
                    }
                }
            }
        }
        Font {
            sfnt_version: self.sfnt_version,
            tables: vstd::slice::slice_to_vec(self.tables.as_slice()),
            head: self.head,
            hhea,
            maxp,
            post: copy_post(&self.post),
            name: copy_name(&self.name),
            cmap: self.cmap.clone(),
            os2: self.os2,
            glyf,
            loca,
            hmtx,
            kern,
            cvt: copy_opt_bytes(&self.cvt),
            prep: copy_opt_bytes(&self.prep),
            fpgm: copy_opt_bytes(&self.fpgm),
            gpos: None,
            gsub: None,
            hvar: copy_hvar(&self.hvar),
            gvar: copy_gvar(&self.gvar),
            fvar: None,
            stat: None,
            cff: None,
            colr: None,
            cpal: None,
            svg: None,
            raw_tables: copy_raw(&self.raw_tables),
        }
    }

    fn subset_outlines(&self, g: &GlyfTable, keep_glyphs: &[u16]) -> (r: (
        Option<GlyfTable>,
        Option<LocaTable>,
        Hmtx,
        Hhea,
        Maxp,
    ))
        requires
            self.glyf == Some(*g),
            self.loca is Some,
            subset_fits(*self, keep_glyphs@),
        ensures
            ({
                let ids = kept_ids(keep_glyphs@, g.glyphs@.len() as int);
                let sizes = kept_sizes(g.glyphs@, keep_glyphs@);
                &&& r.0 matches Some(ng) && ng.glyphs@.len() == ids.len() && forall|i: int|
                    0 <= i < ids.len() ==> same_glyph(
                        #[trigger] ng.glyphs@[i],
                        g.glyphs@[ids[i] as int],
                    )
                &&& r.1 matches Some(l) && l.format == 1 && l.offsets@.len() == ids.len() + 1
                    && forall|i: int|
                    0 <= i <= ids.len() ==> #[trigger] l.offsets@[i] == prefix_sum(sizes, i)
                &&& r.2.h_metrics@ == subset_metrics(self.hmtx, keep_glyphs@)
                &&& r.2.left_side_bearings@.len() == 0
                &&& r.3.number_of_hmetrics == (if keep_glyphs@.len() < ids.len() {
                    keep_glyphs@.len()
                } else {
                    ids.len()
                }) as u16
                &&& r.4.num_glyphs == ids.len() as u16
                &&& r.3 == (Hhea { number_of_hmetrics: r.3.number_of_hmetrics, ..self.hhea })
                &&& r.4 == (Maxp { num_glyphs: r.4.num_glyphs, ..self.maxp })
            }),
    {
        let ghost gs = g.glyphs@;
        let n = keep_glyphs.len();
        let ng = g.glyphs.len();
        let mut new_glyphs: Vec<Glyph> = Vec::new();
        let mut new_hmetrics: Vec<LongHorMetricRecord> = Vec::new();
        let mut sizes: Vec<usize> = Vec::new();
        let mut i: usize = 0;
        while i < n
            invariant
                n == keep_glyphs@.len(),
                ng == gs.len(),
                gs == g.glyphs@,
                i <= n,
                new_glyphs@.len() == kept_ids(keep_glyphs@.subrange(0, i as int), ng as int).len(),
                sizes@.len() == new_glyphs@.len(),
                forall|j: int|
                    0 <= j < new_glyphs@.len() ==> same_glyph(
                        #[trigger] new_glyphs@[j],
                        gs[kept_ids(keep_glyphs@.subrange(0, i as int), ng as int)[j] as int],
                    ),
                forall|j: int|
                    0 <= j < sizes@.len() ==> #[trigger] sizes@[j] == new_glyphs@[j].encode().len(),
                new_hmetrics@ == subset_metrics(self.hmtx, keep_glyphs@).subrange(0, i as int),
            decreases n - i,
        {
            let gid = keep_glyphs[i];
            let ghost before = kept_ids(keep_glyphs@.subrange(0, i as int), ng as int);
            proof {
                let sub = keep_glyphs@.subrange(0, i + 1);
                assert(sub.drop_last() =~= keep_glyphs@.subrange(0, i as int));
                assert(sub.last() == gid);
            }
            if (gid as usize) < ng {
                let copy = copy_glyph(&g.glyphs[gid as usize]);
                let mut w = crate::write::Writer::new();
                copy.write(&mut w);
                sizes.push(w.len());
                new_glyphs.push(copy);
            }
            let (aw, lsb) = self.hmtx.metric_for_glyph(gid);
            new_hmetrics.push(LongHorMetricRecord { advance_width: aw, lsb });
            i += 1;
            proof {
                let after = kept_ids(keep_glyphs@.subrange(0, i as int), ng as int);
                assert forall|j: int| 0 <= j < new_glyphs@.len() implies same_glyph(
                    #[trigger] new_glyphs@[j],
                    gs[after[j] as int],
                ) by {
                    if j < before.len() {
                        assert(after[j] == before[j]);
                    }
                }
                assert(new_hmetrics@ =~= subset_metrics(self.hmtx, keep_glyphs@).subrange(
                    0,
                    i as int,
                ));
            }
        }
        let ghost ids = kept_ids(keep_glyphs@, ng as int);
        proof {
            assert(keep_glyphs@.subrange(0, n as int) =~= keep_glyphs@);
            assert(new_hmetrics@ =~= subset_metrics(self.hmtx, keep_glyphs@));
            assert forall|j: int| 0 <= j < sizes@.len() implies #[trigger] sizes@[j] == kept_sizes(
                gs,
                keep_glyphs@,
            )[j] by {
                lemma_same_glyph_encode(new_glyphs@[j], gs[ids[j] as int]);
            }
            assert(sizes@ =~= kept_sizes(gs, keep_glyphs@));
        }
        let nh = new_hmetrics.len();
        let nglyphs = new_glyphs.len();
        let num_hmetrics = if nh < nglyphs {
            nh as u16
        } else {
            nglyphs as u16
        };
        let mut hhea = self.hhea;
        hhea.number_of_hmetrics = num_hmetrics;
        let mut maxp = self.maxp;
        maxp.num_glyphs = nglyphs as u16;
        let hmtx = Hmtx { h_metrics: new_hmetrics, left_side_bearings: Vec::new() };
        let loca = LocaTable::from_glyph_sizes(sizes.as_slice(), true);
        (Some(GlyfTable { glyphs: new_glyphs }), Some(loca), hmtx, hhea, maxp)
    }
}


/// A glyph with its hinting instructions removed: simple glyphs lose
/// their instructions, other glyphs stay as they are.
pub open spec fn unhinted(new: Glyph, old: Glyph) -> bool {
    match (new, old) {
        (Glyph::Simple(x), Glyph::Simple(y)) => {
            &&& x.number_of_contours == y.number_of_contours
            &&& x.x_min == y.x_min && x.y_min == y.y_min && x.x_max == y.x_max && x.y_max == y.y_max
            &&& x.end_pts_of_contours@ == y.end_pts_of_contours@
            &&& x.instructions@.len() == 0
            &&& x.flags@ == y.flags@
            &&& x.x_coordinates@ == y.x_coordinates@
            &&& x.y_coordinates@ == y.y_coordinates@
        },
        _ => same_glyph(new, old),
    }
}

fn unhint_glyph(g: &Glyph) -> (r: Glyph)
    ensures
        unhinted(r, *g),
{
    match g {
        Glyph::Simple(x) => Glyph::Simple(
            SimpleGlyph {
                number_of_contours: x.number_of_contours,
                x_min: x.x_min,
                y_min: x.y_min,
                x_max: x.x_max,
                y_max: x.y_max,
                end_pts_of_contours: vstd::slice::slice_to_vec(x.end_pts_of_contours.as_slice()),
                instructions: Vec::new(),
                flags: vstd::slice::slice_to_vec(x.flags.as_slice()),
                x_coordinates: vstd::slice::slice_to_vec(x.x_coordinates.as_slice()),
                y_coordinates: vstd::slice::slice_to_vec(x.y_coordinates.as_slice()),
            },
        ),
        _ => copy_glyph(g),
    }
}

impl Font {
    /// Removes the hinting tables (`cvt `, `prep`, `fpgm`) and the
    /// instructions of every simple glyph.
    pub fn strip_hinting(&mut self)
        ensures
            final(self).cvt is None && final(self).prep is None && final(self).fpgm is None,
            *final(self) == (Font {
                cvt: None,
                prep: None,
                fpgm: None,
                glyf: final(self).glyf,
                ..*old(self)
            }),
            match old(self).glyf {
                Some(g) => final(self).glyf matches Some(ng) && ng.glyphs@.len() == g.glyphs@.len()
                    && forall|i: int|
                    0 <= i < g.glyphs@.len() ==> unhinted(#[trigger] ng.glyphs@[i], g.glyphs@[i]),
                None => final(self).glyf is None,
            },
    {
        self.cvt = None;
        self.prep = None;
        self.fpgm = None;
        let glyf = self.glyf.take();
        match glyf {
            Some(g) => {
                let n = g.glyphs.len();
                let mut out: Vec<Glyph> = Vec::new();
                let mut i: usize = 0;
                while i < n
                    invariant
                        n == g.glyphs@.len(),
                        i <= n,
                        out@.len() == i,
                        forall|j: int| 0 <= j < i ==> unhinted(#[trigger] out@[j], g.glyphs@[j]),
                    decreases n - i,
                {
                    let ng = unhint_glyph(&g.glyphs[i]);
                    let ghost old_out = out@;
                    out.push(ng);
                    i += 1;
                    proof {
                        assert forall|j: int| 0 <= j < i implies unhinted(#[trigger] out@[j], g.glyphs@[j]) by {
                            if j < i - 1 {
                                assert(out@[j] == old_out[j]);
                            }
                        }
                    }
                }
                self.glyf = Some(GlyfTable { glyphs: out });
            },
            None => {},
        }
    }
}


/// The glyphs of `a` then those of `b`, by encoded size.
pub open spec fn merged_sizes(a: Seq<Glyph>, b: Seq<Glyph>) -> Seq<usize> {
    Seq::new(a.len() + b.len(), |i: int| (if i < a.len() { a[i] } else { b[i - a.len()] }).encode().len() as usize)
}

/// A merge can be written: the glyphs' total size fits 32 bits, and the
/// shifted glyph IDs of the second character map fit 32 bits.
pub open spec fn merge_fits(base: Font, other: Font) -> bool {
    &&& match (base.glyf, other.glyf) {
        (Some(a), Some(b)) => prefix_sum(
            merged_sizes(a.glyphs@, b.glyphs@),
            (a.glyphs@.len() + b.glyphs@.len()) as int,
        ) <= u32::MAX,
        _ => true,
    }
    &&& (base.cmap.subtables@.len() > 0 && other.cmap.subtables@.len() > 0) ==> match (
        base.cmap.subtables@[0],
        other.cmap.subtables@[0],
    ) {
        (CmapSubtable::Format12 { .. }, CmapSubtable::Format12 { groups, .. }) => forall|i: int|
            0 <= i < groups@.len() ==> #[trigger] groups@[i].start_glyph_id + base.maxp.num_glyphs
                <= u32::MAX,
        _ => true,
    }
    &&& base.hmtx.h_metrics@.len() + other.hmtx.h_metrics@.len() <= usize::MAX
    &&& base.hmtx.left_side_bearings@.len() + other.hmtx.left_side_bearings@.len() <= usize::MAX
}

/// A group of the second map with its glyph IDs shifted past the base
/// font's glyphs.
pub open spec fn shifted_group(g: SequentialMapGroup, by: u16) -> SequentialMapGroup {
    SequentialMapGroup {
        start_char_code: g.start_char_code,
        end_char_code: g.end_char_code,
        start_glyph_id: (g.start_glyph_id + by) as u32,
    }
}

impl Font {
    /// Appends another font's glyphs, metrics and (when both first
    /// character maps are Format 12) mappings, shifted past this font's
    /// glyphs; drops the tables the merge invalidates.
    pub fn merge(&mut self, other: &Font)
        requires
            merge_fits(*old(self), *other),
        ensures
            match (old(self).glyf, other.glyf) {
                (Some(a), Some(b)) => {
                    let n = a.glyphs@.len() + b.glyphs@.len();
                    &&& final(self).glyf matches Some(g) && g.glyphs@.len() == n && forall|i: int|
                        0 <= i < n ==> same_glyph(
                            #[trigger] g.glyphs@[i],
                            if i < a.glyphs@.len() {
                                a.glyphs@[i]
                            } else {
                                b.glyphs@[i - a.glyphs@.len()]
                            },
                        )
                    &&& final(self).loca matches Some(l) && l.format == 1 && l.offsets@.len() == n + 1
                        && forall|i: int|
                        0 <= i <= n ==> #[trigger] l.offsets@[i] == prefix_sum(
                            merged_sizes(a.glyphs@, b.glyphs@),
                            i,
                        )
                    &&& final(self).maxp.num_glyphs == n as u16
                },
                _ => final(self).glyf == old(self).glyf && final(self).loca == old(self).loca
                    && final(self).maxp.num_glyphs == old(self).maxp.num_glyphs,
            },
            final(self).hmtx.h_metrics@ == old(self).hmtx.h_metrics@ + other.hmtx.h_metrics@,
            final(self).hmtx.left_side_bearings@ == old(self).hmtx.left_side_bearings@
                + other.hmtx.left_side_bearings@,
            final(self).hhea.number_of_hmetrics == final(self).hmtx.h_metrics@.len() as u16,
            final(self).cmap.subtables@.len() == old(self).cmap.subtables@.len(),
            forall|i: int|
                1 <= i < old(self).cmap.subtables@.len() ==> #[trigger] final(self).cmap.subtables@[i]
                    == old(self).cmap.subtables@[i],
            (old(self).cmap.subtables@.len() > 0 && other.cmap.subtables@.len() > 0) ==> match (
                old(self).cmap.subtables@[0],
                other.cmap.subtables@[0],
            ) {
                (
                    CmapSubtable::Format12 { language, groups: base_groups },
                    CmapSubtable::Format12 { groups: more, .. },
                ) => final(self).cmap.subtables@[0] matches CmapSubtable::Format12 {
                    language: l,
                    groups,
                } && l == language && groups@ == base_groups@ + Seq::new(
                    more@.len(),
                    |i: int| shifted_group(more@[i], old(self).maxp.num_glyphs),
                ),
                _ => final(self).cmap.subtables@[0] == old(self).cmap.subtables@[0],
            },
            final(self).gpos is None && final(self).gsub is None && final(self).kern is None,
            final(self).hvar is None && final(self).gvar is None,
            *final(self) == (Font {
                hhea: Hhea { number_of_hmetrics: final(self).hhea.number_of_hmetrics, ..old(self).hhea },
                maxp: Maxp { num_glyphs: final(self).maxp.num_glyphs, ..old(self).maxp },
                glyf: final(self).glyf,
                loca: final(self).loca,
                hmtx: final(self).hmtx,
                cmap: Cmap { subtables: final(self).cmap.subtables, ..old(self).cmap },
                gpos: None,
                gsub: None,
                kern: None,
                hvar: None,
                gvar: None,
                ..*old(self)
            }),
    {
        let base_glyph_count = self.maxp.num_glyphs;
        let glyf = self.glyf.take();
        match (glyf, &other.glyf) {
            (Some(a), Some(b)) => {
                let mut glyphs = a.glyphs;
                let ghost ag = glyphs@;
                let m = b.glyphs.len();
                let mut i: usize = 0;
                while i < m
                    invariant
                        m == b.glyphs@.len(),
                        i <= m,
                        glyphs@.len() == ag.len() + i,
                        forall|j: int| 0 <= j < ag.len() ==> #[trigger] glyphs@[j] == ag[j],
                        forall|j: int|
                            ag.len() <= j < ag.len() + i ==> same_glyph(
                                #[trigger] glyphs@[j],
                                b.glyphs@[j - ag.len()],
                            ),
                    decreases m - i,
                {
                    let c = copy_glyph(&b.glyphs[i]);
                    glyphs.push(c);
                    i += 1;
                }
                let n = glyphs.len();
                let mut sizes: Vec<usize> = Vec::new();
                let mut k: usize = 0;
                while k < n
                    invariant
                        n == glyphs@.len(),
                        n == ag.len() + b.glyphs@.len(),
                        k <= n,
                        forall|j: int| 0 <= j < ag.len() ==> #[trigger] glyphs@[j] == ag[j],
                        forall|j: int|
                            ag.len() <= j < n ==> same_glyph(
                                #[trigger] glyphs@[j],
                                b.glyphs@[j - ag.len()],
                            ),
                        sizes@ == merged_sizes(ag, b.glyphs@).subrange(0, k as int),
                    decreases n - k,
                {
                    let mut w = crate::write::Writer::new();
                    glyphs[k].write(&mut w);
                    proof {
                        if k >= ag.len() {
                            lemma_same_glyph_encode(glyphs@[k as int], b.glyphs@[k - ag.len()]);
                        }
                    }
                    sizes.push(w.len());
                    k += 1;
                    proof {
                        assert(sizes@ =~= merged_sizes(ag, b.glyphs@).subrange(0, k as int));
                    }
                }
                proof {
                    assert(sizes@ =~= merged_sizes(ag, b.glyphs@));
                }
                self.loca = Some(LocaTable::from_glyph_sizes(sizes.as_slice(), true));
                self.maxp.num_glyphs = n as u16;
                self.glyf = Some(GlyfTable { glyphs });
                proof {
                    assert forall|j: int| 0 <= j < n implies same_glyph(
                        #[trigger] self.glyf.unwrap().glyphs@[j],
                        if j < ag.len() {
                            ag[j]
                        } else {
                            b.glyphs@[j - ag.len()]
                        },
                    ) by {
                        if j < ag.len() {
                            assert(self.glyf.unwrap().glyphs@[j] == ag[j]);
                            lemma_same_glyph_refl(ag[j]);
                        }
                    }
                }
            },
            (g, _) => {
                self.glyf = g;
            },
        }
        let hm = append_copies(&self.hmtx.h_metrics, &other.hmtx.h_metrics);
        let lsbs = append_copies(&self.hmtx.left_side_bearings, &other.hmtx.left_side_bearings);
        self.hmtx.h_metrics = hm;
        self.hmtx.left_side_bearings = lsbs;
        self.hhea.number_of_hmetrics = self.hmtx.h_metrics.len() as u16;
        self.merge_cmap(other, base_glyph_count);
        self.gpos = None;
        self.gsub = None;
        self.kern = None;
        self.hvar = None;
        self.gvar = None;
    }

    fn merge_cmap(&mut self, other: &Font, by: u16)
        requires
            (old(self).cmap.subtables@.len() > 0 && other.cmap.subtables@.len() > 0) ==> match (
                old(self).cmap.subtables@[0],
                other.cmap.subtables@[0],
            ) {
                (CmapSubtable::Format12 { .. }, CmapSubtable::Format12 { groups, .. }) => forall|i: int|
                    0 <= i < groups@.len() ==> #[trigger] groups@[i].start_glyph_id + by <= u32::MAX,
                _ => true,
            },
        ensures
            *final(self) == (Font { cmap: final(self).cmap, ..*old(self) }),
            final(self).cmap == (Cmap { subtables: final(self).cmap.subtables, ..old(self).cmap }),
            final(self).cmap.version == old(self).cmap.version,
            final(self).cmap.subtables@.len() == old(self).cmap.subtables@.len(),
            forall|i: int|
                1 <= i < old(self).cmap.subtables@.len() ==> #[trigger] final(self).cmap.subtables@[i]
                    == old(self).cmap.subtables@[i],
            (old(self).cmap.subtables@.len() > 0 && other.cmap.subtables@.len() > 0) ==> match (
                old(self).cmap.subtables@[0],
                other.cmap.subtables@[0],
            ) {
                (
                    CmapSubtable::Format12 { language, groups: base_groups },
                    CmapSubtable::Format12 { groups: more, .. },
                ) => final(self).cmap.subtables@[0] matches CmapSubtable::Format12 {
                    language: l,
                    groups,
                } && l == language && groups@ == base_groups@ + Seq::new(
                    more@.len(),
                    |i: int| shifted_group(more@[i], by),
                ),
                _ => final(self).cmap.subtables@[0] == old(self).cmap.subtables@[0],
            },
            (old(self).cmap.subtables@.len() == 0 || other.cmap.subtables@.len() == 0)
                ==> final(self).cmap == old(self).cmap,
    {
        if self.cmap.subtables.len() == 0 || other.cmap.subtables.len() == 0 {
            return;
        }
        match &other.cmap.subtables[0] {
            CmapSubtable::Format12 { groups: more, .. } => {
                let ghost old_subs = self.cmap.subtables@;
                let first = self.cmap.subtables.remove(0);
                match first {
                    CmapSubtable::Format12 { language, groups } => {
                        let mut groups = groups;
                        let ghost g0 = groups@;
                        let m = more.len();
                        let mut i: usize = 0;
                        while i < m
                            invariant
                                m == more@.len(),
                                i <= m,
                                forall|j: int| 0 <= j < m ==> #[trigger] more@[j].start_glyph_id + by <= u32::MAX,
                                groups@ == g0 + Seq::new(i as nat, |j: int| shifted_group(more@[j], by)),
                            decreases m - i,
                        {
                            let g = more[i];
                            groups.push(
                                SequentialMapGroup {
                                    start_char_code: g.start_char_code,
                                    end_char_code: g.end_char_code,
                                    start_glyph_id: g.start_glyph_id + by as u32,
                                },
                            );
                            i += 1;
                            proof {
                                assert(groups@ =~= g0 + Seq::new(i as nat, |j: int| shifted_group(more@[j], by)));
                            }
                        }
                        self.cmap.subtables.insert(0, CmapSubtable::Format12 { language, groups });
                    },
                    other_first => {
                        self.cmap.subtables.insert(0, other_first);
                    },
                }
                proof {
                    assert forall|i: int| 1 <= i < old_subs.len() implies #[trigger] self.cmap.subtables@[i]
                        == old_subs[i] by {}
                }
            },
            _ => {},
        }
    }
}

/// A copy of `a` followed by a copy of `b`.
fn append_copies<T: Copy>(a: &Vec<T>, b: &Vec<T>) -> (r: Vec<T>)
    requires
        a@.len() + b@.len() <= usize::MAX,
    ensures
        r@ == a@ + b@,
{
    let mut out = vstd::slice::slice_to_vec(a.as_slice());
    let m = b.len();
    let mut i: usize = 0;
    while i < m
        invariant
            m == b@.len(),
            i <= m,
            out@ == a@ + b@.subrange(0, i as int),
        decreases m - i,
    {
        out.push(b[i]);
        i += 1;
        proof {
            assert(out@ =~= a@ + b@.subrange(0, i as int));
        }
    }
    proof {
        assert(b@.subrange(0, m as int) =~= b@);
    }
    out
}

pub proof fn lemma_same_glyph_refl(g: Glyph)
    ensures
        same_glyph(g, g),
{
}

} // verus!
