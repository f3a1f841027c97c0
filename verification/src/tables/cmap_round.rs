//! Reading back a written `cmap`.
use vstd::prelude::*;
use crate::write::{pad_len, zeros};
use crate::tables::Table;
use crate::codec::{
    be_i16, be_u16, be_u24, be_u32, i16_as_u16, u16_as_i16, u16_bytes, u24_bytes, u32_bytes,
    units_bytes,
};
use crate::tables::cmap::{
    lemma_subtables_total_monotone, lemma_subtables_total_step, record_at, subtable_start, subtables_total, header_word, cmap_fits, cmap_parsed, Cmap, EncodingRecord,
    CmapSubtable, ConstantMapGroup, Format4Segment, NonDefaultUvMapping, SequentialMapGroup, UnicodeRange,
    VariationSelectorRecord,
};
use crate::tables::cmap_read::{
    record14_fits, record14_parsed, segment_at, uvs_fits, group12_at, group13_at, range_at, subtable_fits, subtable_parsed, uv_mapping_at,
};
use crate::tables::cmap_write::{
    default_offset, default_table, default_tables, default_total, end_codes, format14_len,
    lemma_default_total_monotone, lemma_non_default_total_monotone, non_default_offset,
    non_default_table, non_default_tables, non_default_total, records14_bytes, records14_end,
    subtable_bytes, padded_subtable,
    groups12_bytes, groups13_bytes, id_deltas, id_range_offsets, mappings_bytes,
    ranges_bytes, start_codes,
};

verus! {

broadcast use crate::codec::group_codec;

/// The bytes `b` lie in `s` from `pos` on.
#[verifier::opaque]
pub open spec fn placed(s: Seq<u8>, pos: int, b: Seq<u8>) -> bool {
    &&& 0 <= pos
    &&& pos + b.len() <= s.len()
    &&& s.subrange(pos, pos + b.len()) == b
}

pub proof fn lemma_placed_facts(s: Seq<u8>, pos: int, b: Seq<u8>)
    requires
        placed(s, pos, b),
    ensures
        0 <= pos,
        pos + b.len() <= s.len(),
        s.subrange(pos, pos + b.len()) == b,
        forall|j: int| 0 <= j < b.len() ==> #[trigger] s[pos + j] == b[j],
{
    reveal(placed);
    assert forall|j: int| 0 <= j < b.len() implies #[trigger] s[pos + j] == b[j] by {
        assert(s.subrange(pos, pos + b.len())[j] == s[pos + j]);
    }
}

pub proof fn lemma_placed_concat(s: Seq<u8>, pos: int, a: Seq<u8>, b: Seq<u8>)
    requires
        placed(s, pos, a + b),
    ensures
        placed(s, pos, a),
        placed(s, pos + a.len(), b),
{
    reveal(placed);
    assert(s.subrange(pos, pos + a.len()) =~= (a + b).subrange(0, a.len() as int));
    assert((a + b).subrange(0, a.len() as int) =~= a);
    assert(s.subrange(pos + a.len(), pos + a.len() + b.len()) =~= (a + b).subrange(
        a.len() as int,
        (a + b).len() as int,
    ));
    assert((a + b).subrange(a.len() as int, (a + b).len() as int) =~= b);
}

pub proof fn lemma_placed_u16(s: Seq<u8>, pos: int, v: u16)
    requires
        placed(s, pos, u16_bytes(v)),
    ensures
        be_u16(s, pos) == v,
{
    reveal(placed);
    crate::codec::lemma_be_u16_subrange(s, pos, pos + 2, 0);
}

pub proof fn lemma_placed_i16(s: Seq<u8>, pos: int, v: i16)
    requires
        placed(s, pos, u16_bytes(i16_as_u16(v))),
    ensures
        be_i16(s, pos) == v,
{
    lemma_placed_u16(s, pos, i16_as_u16(v));
    assert(u16_as_i16(i16_as_u16(v)) == v);
}

pub proof fn lemma_placed_u24(s: Seq<u8>, pos: int, v: u32)
    requires
        v < 0x100_0000,
        placed(s, pos, u24_bytes(v)),
    ensures
        be_u24(s, pos) == v,
{
    reveal(placed);
    crate::codec::lemma_be_u24_subrange(s, pos, pos + 3, 0);
}

pub proof fn lemma_placed_u32(s: Seq<u8>, pos: int, v: u32)
    requires
        placed(s, pos, u32_bytes(v)),
    ensures
        be_u32(s, pos) == v,
{
    reveal(placed);
    crate::codec::lemma_be_u32_subrange(s, pos, pos + 4, 0);
}

/// Each unit of a written array reads back at its place.
pub proof fn lemma_placed_units(s: Seq<u8>, pos: int, u: Seq<u16>)
    requires
        placed(s, pos, units_bytes(u)),
    ensures
        units_bytes(u).len() == 2 * u.len(),
        forall|i: int| 0 <= i < u.len() ==> #[trigger] be_u16(s, pos + 2 * i) == u[i],
    decreases u.len(),
{
    if u.len() > 0 {
        let p = u.drop_last();
        lemma_placed_concat(s, pos, units_bytes(p), u16_bytes(u.last()));
        lemma_placed_units(s, pos, p);
        lemma_placed_u16(s, pos + units_bytes(p).len(), u.last());
        assert forall|i: int| 0 <= i < u.len() implies #[trigger] be_u16(s, pos + 2 * i) == u[i] by {
            if i < p.len() {
                assert(be_u16(s, pos + 2 * i) == p[i]);
            }
        }
    }
}

pub proof fn lemma_placed_groups12(s: Seq<u8>, pos: int, g: Seq<SequentialMapGroup>)
    requires
        placed(s, pos, groups12_bytes(g)),
    ensures
        groups12_bytes(g).len() == 12 * g.len(),
        forall|i: int| 0 <= i < g.len() ==> #[trigger] group12_at(s, pos + 12 * i) == g[i],
    decreases g.len(),
{
    if g.len() > 0 {
        let p = g.drop_last();
        let l = g.last();
        let a = groups12_bytes(p);
        lemma_placed_concat(s, pos, a + u32_bytes(l.start_char_code) + u32_bytes(l.end_char_code), u32_bytes(l.start_glyph_id));
        lemma_placed_concat(s, pos, a + u32_bytes(l.start_char_code), u32_bytes(l.end_char_code));
        lemma_placed_concat(s, pos, a, u32_bytes(l.start_char_code));
        lemma_placed_groups12(s, pos, p);
        lemma_placed_u32(s, pos + a.len(), l.start_char_code);
        lemma_placed_u32(s, pos + a.len() + 4, l.end_char_code);
        lemma_placed_u32(s, pos + a.len() + 8, l.start_glyph_id);
        assert forall|i: int| 0 <= i < g.len() implies #[trigger] group12_at(s, pos + 12 * i) == g[i] by {
            if i < p.len() {
                assert(group12_at(s, pos + 12 * i) == p[i]);
            }
        }
    }
}

pub proof fn lemma_placed_groups13(s: Seq<u8>, pos: int, g: Seq<ConstantMapGroup>)
    requires
        placed(s, pos, groups13_bytes(g)),
    ensures
        groups13_bytes(g).len() == 12 * g.len(),
        forall|i: int| 0 <= i < g.len() ==> #[trigger] group13_at(s, pos + 12 * i) == g[i],
    decreases g.len(),
{
    if g.len() > 0 {
        let p = g.drop_last();
        let l = g.last();
        let a = groups13_bytes(p);
        lemma_placed_concat(s, pos, a + u32_bytes(l.start_char_code) + u32_bytes(l.end_char_code), u32_bytes(l.glyph_id));
        lemma_placed_concat(s, pos, a + u32_bytes(l.start_char_code), u32_bytes(l.end_char_code));
        lemma_placed_concat(s, pos, a, u32_bytes(l.start_char_code));
        lemma_placed_groups13(s, pos, p);
        lemma_placed_u32(s, pos + a.len(), l.start_char_code);
        lemma_placed_u32(s, pos + a.len() + 4, l.end_char_code);
        lemma_placed_u32(s, pos + a.len() + 8, l.glyph_id);
        assert forall|i: int| 0 <= i < g.len() implies #[trigger] group13_at(s, pos + 12 * i) == g[i] by {
            if i < p.len() {
                assert(group13_at(s, pos + 12 * i) == p[i]);
            }
        }
    }
}

/// The code points of the default ranges fit in 24 bits.
pub open spec fn ranges_encodable(v: Seq<UnicodeRange>) -> bool {
    forall|i: int| 0 <= i < v.len() ==> (#[trigger] v[i]).start_unicode_value < 0x100_0000
}

/// The code points of the non-default mappings fit in 24 bits.
pub open spec fn mappings_encodable(v: Seq<NonDefaultUvMapping>) -> bool {
    forall|i: int| 0 <= i < v.len() ==> (#[trigger] v[i]).unicode_value < 0x100_0000
}

pub proof fn lemma_placed_ranges(s: Seq<u8>, pos: int, v: Seq<UnicodeRange>)
    requires
        ranges_encodable(v),
        placed(s, pos, ranges_bytes(v)),
    ensures
        ranges_bytes(v).len() == 4 * v.len(),
        forall|i: int| 0 <= i < v.len() ==> #[trigger] range_at(s, pos + 4 * i) == v[i],
    decreases v.len(),
{
    if v.len() > 0 {
        let p = v.drop_last();
        let l = v.last();
        let a = ranges_bytes(p);
        lemma_placed_concat(s, pos, a + u24_bytes(l.start_unicode_value), seq![l.additional_count]);
        lemma_placed_concat(s, pos, a, u24_bytes(l.start_unicode_value));
        lemma_placed_ranges(s, pos, p);
        lemma_placed_u24(s, pos + a.len(), l.start_unicode_value);
        lemma_placed_facts(s, pos + a.len() + 3, seq![l.additional_count]);
        assert(s[pos + a.len() + 3 + 0] == l.additional_count);
        assert forall|i: int| 0 <= i < v.len() implies #[trigger] range_at(s, pos + 4 * i) == v[i] by {
            if i < p.len() {
                assert(range_at(s, pos + 4 * i) == p[i]);
            }
        }
    }
}

pub proof fn lemma_placed_mappings(s: Seq<u8>, pos: int, v: Seq<NonDefaultUvMapping>)
    requires
        mappings_encodable(v),
        placed(s, pos, mappings_bytes(v)),
    ensures
        mappings_bytes(v).len() == 5 * v.len(),
        forall|i: int| 0 <= i < v.len() ==> #[trigger] uv_mapping_at(s, pos + 5 * i) == v[i],
    decreases v.len(),
{
    if v.len() > 0 {
        let p = v.drop_last();
        let l = v.last();
        let a = mappings_bytes(p);
        lemma_placed_concat(s, pos, a + u24_bytes(l.unicode_value), u16_bytes(l.glyph_id));
        lemma_placed_concat(s, pos, a, u24_bytes(l.unicode_value));
        lemma_placed_mappings(s, pos, p);
        lemma_placed_u24(s, pos + a.len(), l.unicode_value);
        lemma_placed_u16(s, pos + a.len() + 3, l.glyph_id);
        assert forall|i: int| 0 <= i < v.len() implies #[trigger] uv_mapping_at(s, pos + 5 * i) == v[i] by {
            if i < p.len() {
                assert(uv_mapping_at(s, pos + 5 * i) == p[i]);
            }
        }
    }
}

/// Two subtables of the same format with the same fields (arrays and
/// records compared by their contents).
pub open spec fn same_subtable(a: CmapSubtable, b: CmapSubtable) -> bool {
    match (a, b) {
        (
            CmapSubtable::Format0 { language: l1, glyph_id_array: g1 },
            CmapSubtable::Format0 { language: l2, glyph_id_array: g2 },
        ) => l1 == l2 && g1@ == g2@,
        (
            CmapSubtable::Format4 { language: l1, segments: s1 },
            CmapSubtable::Format4 { language: l2, segments: s2 },
        ) => l1 == l2 && s1@ == s2@,
        (
            CmapSubtable::Format12 { language: l1, groups: g1 },
            CmapSubtable::Format12 { language: l2, groups: g2 },
        ) => l1 == l2 && g1@ == g2@,
        (
            CmapSubtable::Format6 { language: l1, first_code: f1, glyph_id_array: g1 },
            CmapSubtable::Format6 { language: l2, first_code: f2, glyph_id_array: g2 },
        ) => l1 == l2 && f1 == f2 && g1@ == g2@,
        (
            CmapSubtable::Format10 { language: l1, start_char_code: c1, glyph_id_array: g1 },
            CmapSubtable::Format10 { language: l2, start_char_code: c2, glyph_id_array: g2 },
        ) => l1 == l2 && c1 == c2 && g1@ == g2@,
        (
            CmapSubtable::Format13 { language: l1, groups: g1 },
            CmapSubtable::Format13 { language: l2, groups: g2 },
        ) => l1 == l2 && g1@ == g2@,
        (CmapSubtable::Format14 { records: r1 }, CmapSubtable::Format14 { records: r2 }) => {
            &&& r1@.len() == r2@.len()
            &&& forall|k: int| 0 <= k < r1@.len() ==> same_record(#[trigger] r1@[k], r2@[k])
        },
        _ => false,
    }
}

/// Two variation selector records with the same selector and sequences.
pub open spec fn same_record(a: VariationSelectorRecord, b: VariationSelectorRecord) -> bool {
    &&& a.var_selector == b.var_selector
    &&& a.default_uvs@ == b.default_uvs@
    &&& a.non_default_uvs@ == b.non_default_uvs@
}

/// A subtable that reads back as it was written: its counts fit the
/// length fields exactly, and the 24-bit values of format 14 fit 24 bits.
pub open spec fn subtable_round_trips(st: CmapSubtable) -> bool {
    match st {
        CmapSubtable::Format0 { .. } => true,
        CmapSubtable::Format4 { segments, .. } => segments@.len() <= 8189,
        CmapSubtable::Format12 { groups, .. } => 16 + 12 * groups@.len() <= u32::MAX,
        CmapSubtable::Format6 { glyph_id_array, .. } => glyph_id_array@.len() <= 32762,
        CmapSubtable::Format10 { glyph_id_array, .. } => 20 + 2 * glyph_id_array@.len()
            <= u32::MAX,
        CmapSubtable::Format13 { groups, .. } => 16 + 12 * groups@.len() <= u32::MAX,
        CmapSubtable::Format14 { records } => {
            &&& crate::tables::cmap_write::format14_len(records@) <= u32::MAX
            &&& forall|k: int|
                0 <= k < records@.len() ==> {
                    let r = #[trigger] records@[k];
                    &&& r.var_selector < 0x100_0000
                    &&& ranges_encodable(r.default_uvs@)
                    &&& mappings_encodable(r.non_default_uvs@)
                }
        },
    }
}

proof fn lemma_format0_back(language: u16, arr: [u8; 256], s: Seq<u8>, start: int)
    requires
        placed(s, start, u16_bytes(0) + u16_bytes(262) + u16_bytes(language) + arr@),
    ensures
        subtable_fits(s, start),
        forall|st2: CmapSubtable|
            #[trigger] subtable_parsed(st2, s, start) ==> same_subtable(
                st2,
                CmapSubtable::Format0 { language, glyph_id_array: arr },
            ),
{
    let a = u16_bytes(0);
    let b = u16_bytes(262);
    let c = u16_bytes(language);
    lemma_placed_concat(s, start, a + b + c, arr@);
    lemma_placed_concat(s, start, a + b, c);
    lemma_placed_concat(s, start, a, b);
    lemma_placed_u16(s, start, 0);
    lemma_placed_u16(s, start + 4, language);
    lemma_placed_facts(s, start + 6, arr@);
}

proof fn lemma_format12_back(language: u32, groups: Seq<SequentialMapGroup>, s: Seq<u8>, start: int)
    requires
        16 + 12 * groups.len() <= u32::MAX,
        placed(
            s,
            start,
            u16_bytes(12) + u16_bytes(0) + u32_bytes((16 + 12 * (groups.len() as u32)) as u32)
                + u32_bytes(language) + u32_bytes(groups.len() as u32) + groups12_bytes(groups),
        ),
    ensures
        subtable_fits(s, start),
        be_u16(s, start) == 12,
        language == be_u32(s, start + 8),
        groups.len() == be_u32(s, start + 12),
        forall|i: int| 0 <= i < groups.len() ==> #[trigger] group12_at(s, start + 16 + 12 * i) == groups[i],
{
    let n = groups.len() as u32;
    let a = u16_bytes(12);
    let b = u16_bytes(0);
    let c = u32_bytes((16 + 12 * n) as u32);
    let d = u32_bytes(language);
    let e = u32_bytes(n);
    lemma_placed_concat(s, start, a + b + c + d + e, groups12_bytes(groups));
    lemma_placed_concat(s, start, a + b + c + d, e);
    lemma_placed_concat(s, start, a + b + c, d);
    lemma_placed_concat(s, start, a + b, c);
    lemma_placed_concat(s, start, a, b);
    lemma_placed_u16(s, start, 12);
    lemma_placed_u32(s, start + 8, language);
    lemma_placed_u32(s, start + 12, n);
    lemma_placed_groups12(s, start + 16, groups);
    assert forall|i: int| 0 <= i < groups.len() implies #[trigger] group12_at(s, start + 16 + 12 * i)
        == groups[i] by {
        assert(group12_at(s, (start + 16) + 12 * i) == groups[i]);
    }
    lemma_placed_facts(s, start + 16, groups12_bytes(groups));
}

proof fn lemma_format13_back(language: u32, groups: Seq<ConstantMapGroup>, s: Seq<u8>, start: int)
    requires
        16 + 12 * groups.len() <= u32::MAX,
        placed(
            s,
            start,
            u16_bytes(13) + u16_bytes(0) + u32_bytes((16 + 12 * (groups.len() as u32)) as u32)
                + u32_bytes(language) + u32_bytes(groups.len() as u32) + groups13_bytes(groups),
        ),
    ensures
        subtable_fits(s, start),
        be_u16(s, start) == 13,
        language == be_u32(s, start + 8),
        groups.len() == be_u32(s, start + 12),
        forall|i: int| 0 <= i < groups.len() ==> #[trigger] group13_at(s, start + 16 + 12 * i) == groups[i],
{
    let n = groups.len() as u32;
    let a = u16_bytes(13);
    let b = u16_bytes(0);
    let c = u32_bytes((16 + 12 * n) as u32);
    let d = u32_bytes(language);
    let e = u32_bytes(n);
    lemma_placed_concat(s, start, a + b + c + d + e, groups13_bytes(groups));
    lemma_placed_concat(s, start, a + b + c + d, e);
    lemma_placed_concat(s, start, a + b + c, d);
    lemma_placed_concat(s, start, a + b, c);
    lemma_placed_concat(s, start, a, b);
    lemma_placed_u16(s, start, 13);
    lemma_placed_u32(s, start + 8, language);
    lemma_placed_u32(s, start + 12, n);
    lemma_placed_groups13(s, start + 16, groups);
    assert forall|i: int| 0 <= i < groups.len() implies #[trigger] group13_at(s, start + 16 + 12 * i)
        == groups[i] by {
        assert(group13_at(s, (start + 16) + 12 * i) == groups[i]);
    }
    lemma_placed_facts(s, start + 16, groups13_bytes(groups));
}

proof fn lemma_format6_back(language: u16, first_code: u16, arr: Seq<u16>, s: Seq<u8>, start: int)
    requires
        arr.len() <= 32762,
        placed(
            s,
            start,
            u16_bytes(6) + u16_bytes((10 + 2 * (arr.len() as u16)) as u16) + u16_bytes(language)
                + u16_bytes(first_code) + u16_bytes(arr.len() as u16) + units_bytes(arr),
        ),
    ensures
        subtable_fits(s, start),
        be_u16(s, start) == 6,
        language == be_u16(s, start + 4),
        first_code == be_u16(s, start + 6),
        arr.len() == be_u16(s, start + 8),
        forall|i: int| 0 <= i < arr.len() ==> #[trigger] be_u16(s, start + 10 + 2 * i) == arr[i],
{
    let n = arr.len() as u16;
    let a = u16_bytes(6);
    let b = u16_bytes((10 + 2 * n) as u16);
    let c = u16_bytes(language);
    let d = u16_bytes(first_code);
    let e = u16_bytes(n);
    lemma_placed_concat(s, start, a + b + c + d + e, units_bytes(arr));
    lemma_placed_concat(s, start, a + b + c + d, e);
    lemma_placed_concat(s, start, a + b + c, d);
    lemma_placed_concat(s, start, a + b, c);
    lemma_placed_concat(s, start, a, b);
    lemma_placed_u16(s, start, 6);
    lemma_placed_u16(s, start + 4, language);
    lemma_placed_u16(s, start + 6, first_code);
    lemma_placed_u16(s, start + 8, n);
    lemma_placed_units(s, start + 10, arr);
    assert forall|i: int| 0 <= i < arr.len() implies #[trigger] be_u16(s, start + 10 + 2 * i) == arr[i] by {
        assert(be_u16(s, (start + 10) + 2 * i) == arr[i]);
    }
    lemma_placed_facts(s, start + 10, units_bytes(arr));
}

proof fn lemma_format10_back(
    language: u32,
    start_char_code: u32,
    arr: Seq<u16>,
    s: Seq<u8>,
    start: int,
)
    requires
        20 + 2 * arr.len() <= u32::MAX,
        placed(
            s,
            start,
            u16_bytes(10) + u16_bytes(0) + u32_bytes((20 + 2 * (arr.len() as u32)) as u32)
                + u32_bytes(language) + u32_bytes(start_char_code) + u32_bytes(arr.len() as u32)
                + units_bytes(arr),
        ),
    ensures
        subtable_fits(s, start),
        be_u16(s, start) == 10,
        language == be_u32(s, start + 8),
        start_char_code == be_u32(s, start + 12),
        arr.len() == be_u32(s, start + 16),
        forall|i: int| 0 <= i < arr.len() ==> #[trigger] be_u16(s, start + 20 + 2 * i) == arr[i],
{
    let n = arr.len() as u32;
    let a = u16_bytes(10);
    let b = u16_bytes(0);
    let c = u32_bytes((20 + 2 * n) as u32);
    let d = u32_bytes(language);
    let e = u32_bytes(start_char_code);
    let f = u32_bytes(n);
    lemma_placed_concat(s, start, a + b + c + d + e + f, units_bytes(arr));
    lemma_placed_concat(s, start, a + b + c + d + e, f);
    lemma_placed_concat(s, start, a + b + c + d, e);
    lemma_placed_concat(s, start, a + b + c, d);
    lemma_placed_concat(s, start, a + b, c);
    lemma_placed_concat(s, start, a, b);
    lemma_placed_u16(s, start, 10);
    lemma_placed_u32(s, start + 8, language);
    lemma_placed_u32(s, start + 12, start_char_code);
    lemma_placed_u32(s, start + 16, n);
    lemma_placed_units(s, start + 20, arr);
    assert forall|i: int| 0 <= i < arr.len() implies #[trigger] be_u16(s, start + 20 + 2 * i) == arr[i] by {
        assert(be_u16(s, (start + 20) + 2 * i) == arr[i]);
    }
    lemma_placed_facts(s, start + 20, units_bytes(arr));
}

proof fn lemma_format4_back(language: u16, segs: Seq<Format4Segment>, s: Seq<u8>, start: int)
    requires
        segs.len() <= 8189,
        placed(
            s,
            start,
            ({
                let n = segs.len() as u16;
                u16_bytes(4) + u16_bytes((16 + 8 * n) as u16) + u16_bytes(language) + u16_bytes(
                    (2 * n) as u16,
                ) + u16_bytes(0) + u16_bytes(0) + u16_bytes(0) + units_bytes(end_codes(segs))
                    + u16_bytes(0) + units_bytes(start_codes(segs)) + units_bytes(id_deltas(segs))
                    + units_bytes(id_range_offsets(segs))
            }),
        ),
    ensures
        subtable_fits(s, start),
        be_u16(s, start) == 4,
        language == be_u16(s, start + 4),
        be_u16(s, start + 6) / 2 == segs.len(),
        forall|i: int|
            0 <= i < segs.len() ==> #[trigger] segment_at(s, start, segs.len() as int, i)
                == segs[i],
{
    let n = segs.len() as u16;
    let nn = segs.len() as int;
    let h0 = u16_bytes(4);
    let h1 = u16_bytes((16 + 8 * n) as u16);
    let h2 = u16_bytes(language);
    let h3 = u16_bytes((2 * n) as u16);
    let z = u16_bytes(0);
    let e = units_bytes(end_codes(segs));
    let st = units_bytes(start_codes(segs));
    let d = units_bytes(id_deltas(segs));
    let r = units_bytes(id_range_offsets(segs));
    lemma_placed_concat(s, start, h0 + h1 + h2 + h3 + z + z + z + e + z + st + d, r);
    lemma_placed_concat(s, start, h0 + h1 + h2 + h3 + z + z + z + e + z + st, d);
    lemma_placed_concat(s, start, h0 + h1 + h2 + h3 + z + z + z + e + z, st);
    lemma_placed_concat(s, start, h0 + h1 + h2 + h3 + z + z + z + e, z);
    lemma_placed_concat(s, start, h0 + h1 + h2 + h3 + z + z + z, e);
    lemma_placed_concat(s, start, h0 + h1 + h2 + h3 + z + z, z);
    lemma_placed_concat(s, start, h0 + h1 + h2 + h3 + z, z);
    lemma_placed_concat(s, start, h0 + h1 + h2 + h3, z);
    lemma_placed_concat(s, start, h0 + h1 + h2, h3);
    lemma_placed_concat(s, start, h0 + h1, h2);
    lemma_placed_concat(s, start, h0, h1);
    lemma_placed_u16(s, start, 4);
    lemma_placed_u16(s, start + 4, language);
    lemma_placed_u16(s, start + 6, (2 * n) as u16);
    lemma_placed_units(s, start + 14, end_codes(segs));
    lemma_placed_units(s, start + 16 + 2 * nn, start_codes(segs));
    lemma_placed_units(s, start + 16 + 4 * nn, id_deltas(segs));
    lemma_placed_units(s, start + 16 + 6 * nn, id_range_offsets(segs));
    assert forall|i: int| 0 <= i < nn implies #[trigger] segment_at(s, start, nn, i) == segs[i] by {
        assert(be_u16(s, (start + 14) + 2 * i) == end_codes(segs)[i]);
        assert(be_u16(s, (start + 16 + 2 * nn) + 2 * i) == start_codes(segs)[i]);
        assert(be_u16(s, (start + 16 + 4 * nn) + 2 * i) == id_deltas(segs)[i]);
        assert(be_u16(s, (start + 16 + 6 * nn) + 2 * i) == id_range_offsets(segs)[i]);
        assert(u16_as_i16(i16_as_u16(segs[i].id_delta)) == segs[i].id_delta);
    }
    lemma_placed_facts(s, start + 16 + 6 * nn, units_bytes(id_range_offsets(segs)));
}

/// Every record's selector and sequence values fit 24 bits.
pub open spec fn records14_encodable(recs: Seq<VariationSelectorRecord>) -> bool {
    forall|k: int|
        0 <= k < recs.len() ==> {
            let r = #[trigger] recs[k];
            &&& r.var_selector < 0x100_0000
            &&& ranges_encodable(r.default_uvs@)
            &&& mappings_encodable(r.non_default_uvs@)
        }
}

proof fn lemma_placed_records14(s: Seq<u8>, pos: int, recs: Seq<VariationSelectorRecord>, k: int)
    requires
        0 <= k <= recs.len(),
        records14_encodable(recs),
        placed(s, pos, records14_bytes(recs, k)),
    ensures
        records14_bytes(recs, k).len() == 11 * k,
        forall|i: int|
            0 <= i < k ==> {
                &&& #[trigger] be_u24(s, pos + 11 * i) == recs[i].var_selector
                &&& be_u32(s, pos + 11 * i + 3) == default_offset(recs, i)
                &&& be_u32(s, pos + 11 * i + 7) == non_default_offset(recs, i)
            },
    decreases k,
{
    if k > 0 {
        let a = records14_bytes(recs, k - 1);
        let r = recs[k - 1];
        let x = u24_bytes(r.var_selector);
        let y = u32_bytes(default_offset(recs, k - 1));
        let z = u32_bytes(non_default_offset(recs, k - 1));
        lemma_placed_concat(s, pos, a + x + y, z);
        lemma_placed_concat(s, pos, a + x, y);
        lemma_placed_concat(s, pos, a, x);
        lemma_placed_records14(s, pos, recs, k - 1);
        lemma_placed_u24(s, pos + a.len(), r.var_selector);
        lemma_placed_u32(s, pos + a.len() + 3, default_offset(recs, k - 1));
        lemma_placed_u32(s, pos + a.len() + 7, non_default_offset(recs, k - 1));
        assert forall|i: int| 0 <= i < k implies {
            &&& #[trigger] be_u24(s, pos + 11 * i) == recs[i].var_selector
            &&& be_u32(s, pos + 11 * i + 3) == default_offset(recs, i)
            &&& be_u32(s, pos + 11 * i + 7) == non_default_offset(recs, i)
        } by {
            if i < k - 1 {
                assert(be_u24(s, pos + 11 * i) == recs[i].var_selector);
            }
        }
    }
}

proof fn lemma_placed_default_tables(s: Seq<u8>, pos: int, recs: Seq<VariationSelectorRecord>, k: int)
    requires
        0 <= k <= recs.len(),
        placed(s, pos, default_tables(recs, k)),
    ensures
        default_tables(recs, k).len() == default_total(recs, k),
        forall|i: int|
            0 <= i < k ==> placed(s, pos + default_total(recs, i), #[trigger] default_table(recs[i])),
    decreases k,
{
    if k > 0 {
        lemma_placed_concat(s, pos, default_tables(recs, k - 1), default_table(recs[k - 1]));
        lemma_placed_default_tables(s, pos, recs, k - 1);
    }
}

proof fn lemma_placed_non_default_tables(
    s: Seq<u8>,
    pos: int,
    recs: Seq<VariationSelectorRecord>,
    k: int,
)
    requires
        0 <= k <= recs.len(),
        placed(s, pos, non_default_tables(recs, k)),
    ensures
        non_default_tables(recs, k).len() == non_default_total(recs, k),
        forall|i: int|
            0 <= i < k ==> placed(
                s,
                pos + non_default_total(recs, i),
                #[trigger] non_default_table(recs[i]),
            ),
    decreases k,
{
    if k > 0 {
        lemma_placed_concat(s, pos, non_default_tables(recs, k - 1), non_default_table(recs[k - 1]));
        lemma_placed_non_default_tables(s, pos, recs, k - 1);
    }
}

/// A record's default sequences read back from where `write` put them.
#[verifier::spinoff_prover]
proof fn lemma_default_back(
    s: Seq<u8>,
    start: int,
    recs: Seq<VariationSelectorRecord>,
    k: int,
    r2: VariationSelectorRecord,
)
    requires
        0 <= k < recs.len(),
        ranges_encodable(recs[k].default_uvs@),
        format14_len(recs) <= u32::MAX,
        0 <= start,
        be_u32(s, start + 10 + 11 * k + 3) == default_offset(recs, k),
        placed(s, start + records14_end(recs) + default_total(recs, k), default_table(recs[k])),
    ensures
        ({
            let d = be_u32(s, start + 10 + 11 * k + 3);
            d == 0 || uvs_fits(s, start + d, 4)
        }),
        ({
            let d = be_u32(s, start + 10 + 11 * k + 3);
            d == 0 <==> recs[k].default_uvs@.len() == 0
        }),
        recs[k].default_uvs@.len() > 0 ==> {
            let d = be_u32(s, start + 10 + 11 * k + 3);
            &&& be_u32(s, start + d) == recs[k].default_uvs@.len()
            &&& forall|i: int|
                0 <= i < recs[k].default_uvs@.len() ==> #[trigger] range_at(
                    s,
                    start + d + 4 + 4 * i,
                ) == recs[k].default_uvs@[i]
        },
{
    let r = recs[k];
    let n = recs.len() as int;
    lemma_default_total_monotone(recs, k + 1, n);
    lemma_default_total_monotone(recs, 0, k);
    lemma_non_default_total_monotone(recs, 0, n);
    if r.default_uvs@.len() > 0 {
        let q = start + records14_end(recs) + default_total(recs, k);
        assert(default_total(recs, k + 1) == default_total(recs, k) + default_table(r).len());
        assert(records14_end(recs) + default_total(recs, k) <= u32::MAX);
        assert(default_offset(recs, k) as int == records14_end(recs) + default_total(recs, k));
        assert(be_u32(s, start + 10 + 11 * k + 3) as int == q - start);
        lemma_placed_facts(s, q, default_table(r));
        lemma_placed_concat(s, q, u32_bytes(r.default_uvs@.len() as u32), ranges_bytes(r.default_uvs@));
        lemma_placed_u32(s, q, r.default_uvs@.len() as u32);
        lemma_placed_ranges(s, q + 4, r.default_uvs@);
        lemma_placed_facts(s, q + 4, ranges_bytes(r.default_uvs@));
        assert forall|i: int| 0 <= i < r.default_uvs@.len() implies #[trigger] range_at(
            s,
            q + 4 + 4 * i,
        ) == r.default_uvs@[i] by {
            assert(range_at(s, (q + 4) + 4 * i) == r.default_uvs@[i]);
        }
    }
}

/// A record's non-default sequences read back from where `write` put them.
#[verifier::spinoff_prover]
proof fn lemma_non_default_back(
    s: Seq<u8>,
    start: int,
    recs: Seq<VariationSelectorRecord>,
    k: int,
)
    requires
        0 <= k < recs.len(),
        mappings_encodable(recs[k].non_default_uvs@),
        format14_len(recs) <= u32::MAX,
        0 <= start,
        be_u32(s, start + 10 + 11 * k + 7) == non_default_offset(recs, k),
        placed(
            s,
            start + records14_end(recs) + default_total(recs, recs.len() as int)
                + non_default_total(recs, k),
            non_default_table(recs[k]),
        ),
    ensures
        ({
            let d = be_u32(s, start + 10 + 11 * k + 7);
            d == 0 || uvs_fits(s, start + d, 5)
        }),
        ({
            let d = be_u32(s, start + 10 + 11 * k + 7);
            d == 0 <==> recs[k].non_default_uvs@.len() == 0
        }),
        recs[k].non_default_uvs@.len() > 0 ==> {
            let d = be_u32(s, start + 10 + 11 * k + 7);
            &&& be_u32(s, start + d) == recs[k].non_default_uvs@.len()
            &&& forall|i: int|
                0 <= i < recs[k].non_default_uvs@.len() ==> #[trigger] uv_mapping_at(
                    s,
                    start + d + 4 + 5 * i,
                ) == recs[k].non_default_uvs@[i]
        },
{
    let r = recs[k];
    let n = recs.len() as int;
    lemma_non_default_total_monotone(recs, k + 1, n);
    lemma_non_default_total_monotone(recs, 0, k);
    lemma_default_total_monotone(recs, 0, n);
    if r.non_default_uvs@.len() > 0 {
        let q = start + records14_end(recs) + default_total(recs, n) + non_default_total(recs, k);
        assert(non_default_total(recs, k + 1) == non_default_total(recs, k) + non_default_table(
            r,
        ).len());
        assert(records14_end(recs) + default_total(recs, n) + non_default_total(recs, k) <= u32::MAX);
        assert(non_default_offset(recs, k) as int == records14_end(recs) + default_total(recs, n)
            + non_default_total(recs, k));
        assert(be_u32(s, start + 10 + 11 * k + 7) as int == q - start);
        lemma_placed_facts(s, q, non_default_table(r));
        lemma_placed_concat(
            s,
            q,
            u32_bytes(r.non_default_uvs@.len() as u32),
            mappings_bytes(r.non_default_uvs@),
        );
        lemma_placed_u32(s, q, r.non_default_uvs@.len() as u32);
        lemma_placed_mappings(s, q + 4, r.non_default_uvs@);
        lemma_placed_facts(s, q + 4, mappings_bytes(r.non_default_uvs@));
        assert forall|i: int| 0 <= i < r.non_default_uvs@.len() implies #[trigger] uv_mapping_at(
            s,
            q + 4 + 5 * i,
        ) == r.non_default_uvs@[i] by {
            assert(uv_mapping_at(s, (q + 4) + 5 * i) == r.non_default_uvs@[i]);
        }
    }
}

/// Record `k` of a written format 14 subtable fits and reads back.
#[verifier::spinoff_prover]
proof fn lemma_record14_k(recs: Seq<VariationSelectorRecord>, s: Seq<u8>, start: int, k: int)
    requires
        0 <= k < recs.len(),
        0 <= start,
        records14_encodable(recs),
        format14_len(recs) <= u32::MAX,
        be_u24(s, start + 10 + 11 * k) == recs[k].var_selector,
        be_u32(s, start + 10 + 11 * k + 3) == default_offset(recs, k),
        be_u32(s, start + 10 + 11 * k + 7) == non_default_offset(recs, k),
        placed(s, start + records14_end(recs) + default_total(recs, k), default_table(recs[k])),
        placed(
            s,
            start + records14_end(recs) + default_total(recs, recs.len() as int)
                + non_default_total(recs, k),
            non_default_table(recs[k]),
        ),
    ensures
        record14_fits(s, start, start + 10 + 11 * k),
        forall|r2: VariationSelectorRecord|
            #[trigger] record14_parsed(r2, s, start, start + 10 + 11 * k) ==> same_record(
                r2,
                recs[k],
            ),
{
    let rk = recs[k];
    assert(rk.var_selector < 0x100_0000 && ranges_encodable(rk.default_uvs@) && mappings_encodable(
        rk.non_default_uvs@,
    ));
    lemma_default_back(s, start, recs, k, rk);
    lemma_non_default_back(s, start, recs, k);
    assert forall|r2: VariationSelectorRecord|
        #[trigger] record14_parsed(r2, s, start, start + 10 + 11 * k) implies same_record(r2, rk) by {
        let pos = start + 10 + 11 * k;
        let dd = be_u32(s, pos + 3);
        let nd = be_u32(s, pos + 7);
        if dd != 0 {
            assert forall|i: int| 0 <= i < rk.default_uvs@.len() implies r2.default_uvs@[i]
                == rk.default_uvs@[i] by {
                assert(r2.default_uvs@[i] == range_at(s, start + dd + 4 + 4 * i));
            }
        }
        assert(r2.default_uvs@ =~= rk.default_uvs@);
        if nd != 0 {
            assert forall|i: int| 0 <= i < rk.non_default_uvs@.len() implies r2.non_default_uvs@[i]
                == rk.non_default_uvs@[i] by {
                assert(r2.non_default_uvs@[i] == uv_mapping_at(s, start + nd + 4 + 5 * i));
            }
        }
        assert(r2.non_default_uvs@ =~= rk.non_default_uvs@);
    }
}

/// The six parts of a written format 14 subtable, each where it lies.
#[verifier::spinoff_prover]
proof fn lemma_format14_split(recs: Seq<VariationSelectorRecord>, s: Seq<u8>, start: int)
    requires
        placed(
            s,
            start,
            u16_bytes(14) + u32_bytes(format14_len(recs) as u32) + u32_bytes(recs.len() as u32)
                + records14_bytes(recs, recs.len() as int) + default_tables(recs, recs.len() as int)
                + non_default_tables(recs, recs.len() as int),
        ),
    ensures
        placed(s, start, u16_bytes(14)),
        placed(s, start + 6, u32_bytes(recs.len() as u32)),
        placed(s, start + 10, records14_bytes(recs, recs.len() as int)),
        placed(
            s,
            start + 10 + records14_bytes(recs, recs.len() as int).len(),
            default_tables(recs, recs.len() as int),
        ),
        placed(
            s,
            start + 10 + records14_bytes(recs, recs.len() as int).len() + default_tables(
                recs,
                recs.len() as int,
            ).len(),
            non_default_tables(recs, recs.len() as int),
        ),
{
    let n = recs.len() as int;
    let a = u16_bytes(14);
    let b = u32_bytes(format14_len(recs) as u32);
    let c = u32_bytes(n as u32);
    let r = records14_bytes(recs, n);
    let d = default_tables(recs, n);
    let e = non_default_tables(recs, n);
    lemma_placed_concat(s, start, a + b + c + r + d, e);
    lemma_placed_concat(s, start, a + b + c + r, d);
    lemma_placed_concat(s, start, a + b + c, r);
    lemma_placed_concat(s, start, a + b, c);
    lemma_placed_concat(s, start, a, b);
}

/// Where a written format 14 subtable puts its parts.
#[verifier::spinoff_prover]
proof fn lemma_format14_layout(recs: Seq<VariationSelectorRecord>, s: Seq<u8>, start: int)
    requires
        records14_encodable(recs),
        format14_len(recs) <= u32::MAX,
        placed(
            s,
            start,
            u16_bytes(14) + u32_bytes(format14_len(recs) as u32) + u32_bytes(recs.len() as u32)
                + records14_bytes(recs, recs.len() as int) + default_tables(recs, recs.len() as int)
                + non_default_tables(recs, recs.len() as int),
        ),
    ensures
        0 <= start,
        be_u16(s, start) == 14,
        recs.len() == be_u32(s, start + 6),
        start + 10 + 11 * recs.len() <= s.len(),
        forall|i: int|
            0 <= i < recs.len() ==> {
                &&& #[trigger] be_u24(s, start + 10 + 11 * i) == recs[i].var_selector
                &&& be_u32(s, start + 10 + 11 * i + 3) == default_offset(recs, i)
                &&& be_u32(s, start + 10 + 11 * i + 7) == non_default_offset(recs, i)
            },
        forall|i: int|
            0 <= i < recs.len() ==> placed(
                s,
                start + records14_end(recs) + default_total(recs, i),
                #[trigger] default_table(recs[i]),
            ),
        forall|i: int|
            0 <= i < recs.len() ==> placed(
                s,
                start + records14_end(recs) + default_total(recs, recs.len() as int)
                    + non_default_total(recs, i),
                #[trigger] non_default_table(recs[i]),
            ),
{
    let n = recs.len() as int;
    lemma_default_total_monotone(recs, 0, n);
    lemma_non_default_total_monotone(recs, 0, n);
    lemma_format14_split(recs, s, start);
    lemma_placed_facts(s, start, u16_bytes(14));
    lemma_placed_u16(s, start, 14);
    lemma_placed_u32(s, start + 6, n as u32);
    lemma_placed_records14(s, start + 10, recs, n);
    lemma_placed_facts(s, start + 10, records14_bytes(recs, n));
    lemma_placed_default_tables(s, start + 10 + 11 * n, recs, n);
    lemma_placed_non_default_tables(s, start + 10 + 11 * n + default_total(recs, n), recs, n);
}

#[verifier::spinoff_prover]
proof fn lemma_format14_back(recs: Seq<VariationSelectorRecord>, s: Seq<u8>, start: int)
    requires
        records14_encodable(recs),
        format14_len(recs) <= u32::MAX,
        placed(
            s,
            start,
            u16_bytes(14) + u32_bytes(format14_len(recs) as u32) + u32_bytes(recs.len() as u32)
                + records14_bytes(recs, recs.len() as int) + default_tables(recs, recs.len() as int)
                + non_default_tables(recs, recs.len() as int),
        ),
    ensures
        subtable_fits(s, start),
        be_u16(s, start) == 14,
        recs.len() == be_u32(s, start + 6),
        forall|r2: VariationSelectorRecord, k: int|
            0 <= k < recs.len() && #[trigger] record14_parsed(r2, s, start, start + 10 + 11 * k)
                ==> same_record(r2, recs[k]),
{
    let n = recs.len() as int;
    lemma_format14_layout(recs, s, start);
    assert forall|k: int| 0 <= k < n implies #[trigger] record14_fits(s, start, start + 10 + 11 * k)
        && forall|r2: VariationSelectorRecord|
        #[trigger] record14_parsed(r2, s, start, start + 10 + 11 * k) ==> same_record(r2, recs[k]) by {
        assert(be_u24(s, start + 10 + 11 * k) == recs[k].var_selector);
        assert(placed(s, start + records14_end(recs) + default_total(recs, k), default_table(recs[k])));
        assert(placed(
            s,
            start + records14_end(recs) + default_total(recs, n) + non_default_total(recs, k),
            non_default_table(recs[k]),
        ));
        lemma_record14_k(recs, s, start, k);
    }
    assert forall|r2: VariationSelectorRecord, k: int|
        0 <= k < n && #[trigger] record14_parsed(r2, s, start, start + 10 + 11 * k) implies same_record(
        r2,
        recs[k],
    ) by {
        assert(record14_fits(s, start, start + 10 + 11 * k));
    }
}

/// A written subtable fits where it was put and reads back as itself.
#[verifier::spinoff_prover]
pub proof fn lemma_subtable_back(st: CmapSubtable, s: Seq<u8>, start: int)
    requires
        subtable_round_trips(st),
        placed(s, start, subtable_bytes(st)),
    ensures
        subtable_fits(s, start),
        forall|st2: CmapSubtable| #[trigger] subtable_parsed(st2, s, start) ==> same_subtable(st2, st),
{
    match st {
        CmapSubtable::Format0 { language, glyph_id_array } => {
            lemma_format0_back(language, glyph_id_array, s, start);
        },
        CmapSubtable::Format4 { language, segments } => {
            lemma_format4_back(language, segments@, s, start);
            assert forall|st2: CmapSubtable| #[trigger] subtable_parsed(st2, s, start) implies same_subtable(st2, st) by {
                if let CmapSubtable::Format4 { language: l2, segments: g2 } = st2 {
                    assert(g2@ =~= segments@);
                }
            }
        },
        CmapSubtable::Format12 { language, groups } => {
            lemma_format12_back(language, groups@, s, start);
            assert forall|st2: CmapSubtable| #[trigger] subtable_parsed(st2, s, start) implies same_subtable(st2, st) by {
                if let CmapSubtable::Format12 { language: l2, groups: g2 } = st2 {
                    assert(g2@ =~= groups@);
                }
            }
        },
        CmapSubtable::Format6 { language, first_code, glyph_id_array } => {
            lemma_format6_back(language, first_code, glyph_id_array@, s, start);
            assert forall|st2: CmapSubtable| #[trigger] subtable_parsed(st2, s, start) implies same_subtable(st2, st) by {
                if let CmapSubtable::Format6 { language: l2, first_code: f2, glyph_id_array: g2 } = st2 {
                    assert(g2@ =~= glyph_id_array@);
                }
            }
        },
        CmapSubtable::Format10 { language, start_char_code, glyph_id_array } => {
            lemma_format10_back(language, start_char_code, glyph_id_array@, s, start);
            assert forall|st2: CmapSubtable| #[trigger] subtable_parsed(st2, s, start) implies same_subtable(st2, st) by {
                if let CmapSubtable::Format10 { language: l2, start_char_code: c2, glyph_id_array: g2 } = st2 {
                    assert(g2@ =~= glyph_id_array@);
                }
            }
        },
        CmapSubtable::Format13 { language, groups } => {
            lemma_format13_back(language, groups@, s, start);
            assert forall|st2: CmapSubtable| #[trigger] subtable_parsed(st2, s, start) implies same_subtable(st2, st) by {
                if let CmapSubtable::Format13 { language: l2, groups: g2 } = st2 {
                    assert(g2@ =~= groups@);
                }
            }
        },
        CmapSubtable::Format14 { records } => {
            assert(records14_encodable(records@));
            lemma_format14_back(records@, s, start);
            assert forall|st2: CmapSubtable| #[trigger] subtable_parsed(st2, s, start) implies same_subtable(st2, st) by {
                if let CmapSubtable::Format14 { records: r2 } = st2 {
                    assert forall|k: int| 0 <= k < r2@.len() implies same_record(#[trigger] r2@[k], records@[k]) by {
                        assert(record14_parsed(r2@[k], s, start, start + 10 + 11 * k));
                    }
                    assert forall|k: int| 0 <= k < r2@.len() implies same_record(#[trigger] r2@[k], records@[k]) by {
                        assert(record14_parsed(r2@[k], s, start, start + 10 + 11 * k));
                    }
                }
            }
        },
    }
}

/// A sequence lies in itself from its start.
proof fn lemma_placed_whole(s: Seq<u8>)
    ensures
        placed(s, 0, s),
{
    reveal(placed);
    assert(s.subrange(0, s.len() as int) =~= s);
}

/// Where the encoding records of a written table lie, and what they hold.
proof fn lemma_placed_records(c: Cmap, s: Seq<u8>, pos: int, k: int)
    requires
        0 <= k <= c.records@.len(),
        placed(s, pos, c.records_bytes(k)),
    ensures
        c.records_bytes(k).len() == 8 * k,
        forall|i: int|
            0 <= i < k ==> #[trigger] record_at(s, pos + 8 * i) == (EncodingRecord {
                platform_id: c.records@[i].platform_id,
                encoding_id: c.records@[i].encoding_id,
                subtable_offset: c.subtable_position(i),
            }),
    decreases k,
{
    if k > 0 {
        let a = c.records_bytes(k - 1);
        let r = c.records@[k - 1];
        let x = u16_bytes(r.platform_id);
        let y = u16_bytes(r.encoding_id);
        let z = u32_bytes(c.subtable_position(k - 1));
        lemma_placed_concat(s, pos, a + x + y, z);
        lemma_placed_concat(s, pos, a + x, y);
        lemma_placed_concat(s, pos, a, x);
        lemma_placed_records(c, s, pos, k - 1);
        lemma_placed_u16(s, pos + a.len(), r.platform_id);
        lemma_placed_u16(s, pos + a.len() + 2, r.encoding_id);
        lemma_placed_u32(s, pos + a.len() + 4, c.subtable_position(k - 1));
        assert forall|i: int| 0 <= i < k implies #[trigger] record_at(s, pos + 8 * i) == (EncodingRecord {
            platform_id: c.records@[i].platform_id,
            encoding_id: c.records@[i].encoding_id,
            subtable_offset: c.subtable_position(i),
        }) by {
            if i < k - 1 {
                assert(record_at(s, pos + 8 * i) == (EncodingRecord {
                    platform_id: c.records@[i].platform_id,
                    encoding_id: c.records@[i].encoding_id,
                    subtable_offset: c.subtable_position(i),
                }));
            }
        }
    }
}

/// Where the subtables of a written table lie.
#[verifier::spinoff_prover]
proof fn lemma_placed_subtables(c: Cmap, s: Seq<u8>, pos: int, k: int)
    requires
        0 <= k <= c.subtables@.len(),
        placed(s, pos, c.subtables_bytes(k)),
    ensures
        c.subtables_bytes(k).len() == subtables_total(c.subtables@, k),
        forall|i: int|
            0 <= i < k ==> placed(
                s,
                pos + subtables_total(c.subtables@, i),
                #[trigger] subtable_bytes(c.subtables@[i]),
            ),
    decreases k,
{
    if k > 0 {
        let st = c.subtables@[k - 1];
        lemma_placed_concat(s, pos, c.subtables_bytes(k - 1), padded_subtable(st));
        lemma_placed_concat(
            s,
            pos + c.subtables_bytes(k - 1).len(),
            subtable_bytes(st),
            zeros(pad_len(subtable_bytes(st).len())),
        );
        lemma_placed_subtables(c, s, pos, k - 1);
    }
    lemma_subtables_total_step(c.subtables@, k);
}

/// The header and the encoding records of a `cmap` written at `off`.
#[verifier::spinoff_prover]
proof fn lemma_cmap_header(c: Cmap, s: Seq<u8>, off: int)
    requires
        c.records@.len() == c.subtables@.len(),
        c.records@.len() <= u16::MAX,
        placed(s, off, c.encode()),
    ensures
        0 <= off,
        off + 4 + 8 * c.records@.len() <= s.len(),
        be_u16(s, off) == c.version,
        be_u16(s, off + 2) == c.records@.len(),
        forall|i: int|
            0 <= i < c.records@.len() ==> #[trigger] record_at(s, off + 4 + 8 * i) == (EncodingRecord {
                platform_id: c.records@[i].platform_id,
                encoding_id: c.records@[i].encoding_id,
                subtable_offset: c.subtable_position(i),
            }),
        placed(s, off + 4 + 8 * c.records@.len() as int, c.subtables_bytes(c.subtables@.len() as int)),
{
    let n = c.records@.len() as int;
    let a = u16_bytes(c.version);
    let b = u16_bytes(n as u16);
    let r = c.records_bytes(n);
    let t = c.subtables_bytes(n);
    assert(c.encode() == a + b + r + t) by {
        reveal(Cmap::encode);
    }
    lemma_placed_concat(s, off, a + b + r, t);
    lemma_placed_concat(s, off, a + b, r);
    lemma_placed_concat(s, off, a, b);
    lemma_placed_u16(s, off, c.version);
    lemma_placed_u16(s, off + 2, n as u16);
    lemma_placed_facts(s, off, a);
    lemma_placed_facts(s, off + 2, b);
    lemma_placed_records(c, s, off + 4, n);
    lemma_placed_facts(s, off + 4, r);
}

/// The offset `write` gives subtable `k`, without truncation.
#[verifier::spinoff_prover]
proof fn lemma_position(c: Cmap, k: int)
    requires
        0 <= k <= c.subtables@.len(),
        4 + 8 * c.records@.len() + subtables_total(c.subtables@, c.subtables@.len() as int) <= u32::MAX,
    ensures
        c.subtable_position(k) == 4 + 8 * c.records@.len() + subtables_total(c.subtables@, k),
{
    lemma_subtables_total_monotone(c.subtables@, k, c.subtables@.len() as int);
    lemma_subtables_total_monotone(c.subtables@, 0, k);
    lemma_subtables_total_step(c.subtables@, 0);
    assert(header_word(c.records@.len() as int) == 4 + 8 * c.records@.len());
}

/// Each subtable of a `cmap` written at `off` lies where its record points.
#[verifier::spinoff_prover]
proof fn lemma_cmap_layout(c: Cmap, s: Seq<u8>, off: int)
    requires
        4 + 8 * c.records@.len() + subtables_total(c.subtables@, c.subtables@.len() as int) <= u32::MAX,
        c.records@.len() == c.subtables@.len(),
        c.records@.len() <= u16::MAX,
        placed(s, off, c.encode()),
    ensures
        forall|k: int|
            0 <= k < c.subtables@.len() ==> placed(
                s,
                #[trigger] subtable_start(s, off, k),
                subtable_bytes(c.subtables@[k]),
            ),
{
    let n = c.records@.len() as int;
    lemma_cmap_header(c, s, off);
    lemma_placed_subtables(c, s, off + 4 + 8 * n, n);
    assert(header_word(n) == 4 + 8 * n);
    assert forall|k: int| 0 <= k < n implies placed(
        s,
        #[trigger] subtable_start(s, off, k),
        subtable_bytes(c.subtables@[k]),
    ) by {
        lemma_position(c, k);
        assert(record_at(s, off + 4 + 8 * k).subtable_offset == c.subtable_position(k));
        assert(be_u32(s, off + 8 + 8 * k) == record_at(s, off + 4 + 8 * k).subtable_offset);
        assert(placed(s, off + 4 + 8 * n + subtables_total(c.subtables@, k), subtable_bytes(c.subtables@[k])));
    }
}

/// The conditions under which a `cmap` reads back as written: `write` can
/// write it, every record has its subtable, the record count fits its
/// 16-bit field, and every subtable reads back.
pub open spec fn cmap_round_trips(c: Cmap) -> bool {
    &&& c.writable()
    &&& c.records@.len() == c.subtables@.len()
    &&& c.records@.len() <= u16::MAX
    &&& forall|k: int| 0 <= k < c.subtables@.len() ==> subtable_round_trips(#[trigger] c.subtables@[k])
}

/// `p` is `c` as read back: the version, the platform and encoding of each
/// record, and each subtable field for field, with each record's offset
/// pointing at where `write` put its subtable.
pub open spec fn cmap_read_back(p: Cmap, c: Cmap) -> bool {
    &&& p.version == c.version
    &&& p.num_tables == c.records@.len()
    &&& p.records@.len() == c.records@.len()
    &&& p.subtables@.len() == c.subtables@.len()
    &&& forall|k: int|
        0 <= k < c.records@.len() ==> {
            &&& (#[trigger] p.records@[k]).platform_id == c.records@[k].platform_id
            &&& p.records@[k].encoding_id == c.records@[k].encoding_id
            &&& p.records@[k].subtable_offset == c.subtable_position(k)
        }
    &&& forall|k: int|
        0 <= k < c.subtables@.len() ==> same_subtable(#[trigger] p.subtables@[k], c.subtables@[k])
}

/// A `cmap` written anywhere in a buffer fits what `parse` reads there,
/// and reads back as written.
#[verifier::spinoff_prover]
pub proof fn lemma_cmap_read_back_at(c: Cmap, s: Seq<u8>, off: int)
    requires
        cmap_round_trips(c),
        placed(s, off, c.encode()),
    ensures
        cmap_fits(s, off),
        forall|p: Cmap| #[trigger] cmap_parsed(p, s, off) ==> cmap_read_back(p, c),
{
    let n = c.records@.len() as int;
    lemma_cmap_header(c, s, off);
    assert(header_word(n) == 4 + 8 * n);
    lemma_cmap_layout(c, s, off);
    assert forall|k: int| 0 <= k < n implies {
        &&& #[trigger] subtable_fits(s, subtable_start(s, off, k))
        &&& forall|st2: CmapSubtable|
            #[trigger] subtable_parsed(st2, s, subtable_start(s, off, k)) ==> same_subtable(
                st2,
                c.subtables@[k],
            )
    } by {
        assert(placed(s, subtable_start(s, off, k), subtable_bytes(c.subtables@[k])));
        lemma_subtable_back(c.subtables@[k], s, subtable_start(s, off, k));
    }
    assert(cmap_fits(s, off));
    assert forall|p: Cmap| #[trigger] cmap_parsed(p, s, off) implies cmap_read_back(p, c) by {
        assert forall|k: int| 0 <= k < n implies {
            &&& (#[trigger] p.records@[k]).platform_id == c.records@[k].platform_id
            &&& p.records@[k].encoding_id == c.records@[k].encoding_id
            &&& p.records@[k].subtable_offset == c.subtable_position(k)
        } by {
            assert(p.records@[k] == record_at(s, off + 4 + 8 * k));
            assert(record_at(s, off + 4 + 8 * k).platform_id == c.records@[k].platform_id);
        }
        assert forall|k: int| 0 <= k < n implies same_subtable(#[trigger] p.subtables@[k], c.subtables@[k]) by {
            assert(subtable_fits(s, subtable_start(s, off, k)));
            assert(subtable_parsed(p.subtables@[k], s, subtable_start(s, off, k)));
        }
    }
}

/// Reading a written `cmap` gives it back: the bytes `write` appends fit
/// what `parse` needs, so it succeeds, and every table it can return is
/// the one written (its version, the platform and encoding of each
/// record, and each subtable field for field).
pub proof fn lemma_cmap_round_trip(c: Cmap)
    requires
        cmap_round_trips(c),
    ensures
        cmap_fits(c.encode(), 0),
        forall|p: Cmap| #[trigger] cmap_parsed(p, c.encode(), 0) ==> cmap_read_back(p, c),
{
    lemma_placed_whole(c.encode());
    lemma_cmap_read_back_at(c, c.encode(), 0);
}

} // verus!
