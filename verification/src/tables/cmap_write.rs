//! Writing `cmap` subtables.
use vstd::prelude::*;
use crate::codec::{i16_as_u16, u16_bytes, u24_bytes, u32_bytes, units_bytes};
use crate::tables::cmap::{
    CmapSubtable, ConstantMapGroup, Format4Segment, NonDefaultUvMapping, SequentialMapGroup,
    UnicodeRange, VariationSelectorRecord,
};
use crate::write::{pad_len, zeros, Writer};

verus! {

broadcast use crate::codec::group_codec;

pub open spec fn end_codes(segs: Seq<Format4Segment>) -> Seq<u16> {
    Seq::new(segs.len(), |i: int| segs[i].end_code)
}

pub open spec fn start_codes(segs: Seq<Format4Segment>) -> Seq<u16> {
    Seq::new(segs.len(), |i: int| segs[i].start_code)
}

pub open spec fn id_deltas(segs: Seq<Format4Segment>) -> Seq<u16> {
    Seq::new(segs.len(), |i: int| i16_as_u16(segs[i].id_delta))
}

pub open spec fn id_range_offsets(segs: Seq<Format4Segment>) -> Seq<u16> {
    Seq::new(segs.len(), |i: int| segs[i].id_range_offset)
}

pub open spec fn groups12_bytes(g: Seq<SequentialMapGroup>) -> Seq<u8>
    decreases g.len(),
{
    if g.len() == 0 {
        Seq::empty()
    } else {
        groups12_bytes(g.drop_last()) + u32_bytes(g.last().start_char_code) + u32_bytes(
            g.last().end_char_code,
        ) + u32_bytes(g.last().start_glyph_id)
    }
}

pub open spec fn groups13_bytes(g: Seq<ConstantMapGroup>) -> Seq<u8>
    decreases g.len(),
{
    if g.len() == 0 {
        Seq::empty()
    } else {
        groups13_bytes(g.drop_last()) + u32_bytes(g.last().start_char_code) + u32_bytes(
            g.last().end_char_code,
        ) + u32_bytes(g.last().glyph_id)
    }
}

pub open spec fn ranges_bytes(v: Seq<UnicodeRange>) -> Seq<u8>
    decreases v.len(),
{
    if v.len() == 0 {
        Seq::empty()
    } else {
        ranges_bytes(v.drop_last()) + u24_bytes(v.last().start_unicode_value) + seq![
            v.last().additional_count,
        ]
    }
}

pub open spec fn mappings_bytes(v: Seq<NonDefaultUvMapping>) -> Seq<u8>
    decreases v.len(),
{
    if v.len() == 0 {
        Seq::empty()
    } else {
        mappings_bytes(v.drop_last()) + u24_bytes(v.last().unicode_value) + u16_bytes(
            v.last().glyph_id,
        )
    }
}

/// A record's default variation sequence table: absent when it has no
/// ranges, else a count and the ranges.
pub open spec fn default_table(r: VariationSelectorRecord) -> Seq<u8> {
    if r.default_uvs@.len() == 0 {
        Seq::empty()
    } else {
        u32_bytes(r.default_uvs@.len() as u32) + ranges_bytes(r.default_uvs@)
    }
}

pub open spec fn non_default_table(r: VariationSelectorRecord) -> Seq<u8> {
    if r.non_default_uvs@.len() == 0 {
        Seq::empty()
    } else {
        u32_bytes(r.non_default_uvs@.len() as u32) + mappings_bytes(r.non_default_uvs@)
    }
}

/// Total size of the default tables of the first `k` records.
pub open spec fn default_total(recs: Seq<VariationSelectorRecord>, k: int) -> int
    decreases k,
{
    if k <= 0 {
        0
    } else {
        default_total(recs, k - 1) + default_table(recs[k - 1]).len()
    }
}

pub open spec fn non_default_total(recs: Seq<VariationSelectorRecord>, k: int) -> int
    decreases k,
{
    if k <= 0 {
        0
    } else {
        non_default_total(recs, k - 1) + non_default_table(recs[k - 1]).len()
    }
}

/// Where the record tables start: after the 10-byte header and the 11-byte
/// records.
pub open spec fn records14_end(recs: Seq<VariationSelectorRecord>) -> int {
    10 + 11 * recs.len() as int
}

/// The offset written for record `k`'s default table (0 when absent).
pub open spec fn default_offset(recs: Seq<VariationSelectorRecord>, k: int) -> u32 {
    if recs[k].default_uvs@.len() == 0 {
        0
    } else {
        (records14_end(recs) + default_total(recs, k)) as u32
    }
}

/// The offset written for record `k`'s non-default table (0 when absent);
/// these tables follow all the default ones.
pub open spec fn non_default_offset(recs: Seq<VariationSelectorRecord>, k: int) -> u32 {
    if recs[k].non_default_uvs@.len() == 0 {
        0
    } else {
        (records14_end(recs) + default_total(recs, recs.len() as int) + non_default_total(
            recs,
            k,
        )) as u32
    }
}

pub open spec fn records14_bytes(recs: Seq<VariationSelectorRecord>, k: int) -> Seq<u8>
    decreases k,
{
    if k <= 0 {
        Seq::empty()
    } else {
        records14_bytes(recs, k - 1) + u24_bytes(recs[k - 1].var_selector) + u32_bytes(
            default_offset(recs, k - 1),
        ) + u32_bytes(non_default_offset(recs, k - 1))
    }
}

pub open spec fn default_tables(recs: Seq<VariationSelectorRecord>, k: int) -> Seq<u8>
    decreases k,
{
    if k <= 0 {
        Seq::empty()
    } else {
        default_tables(recs, k - 1) + default_table(recs[k - 1])
    }
}

pub open spec fn non_default_tables(recs: Seq<VariationSelectorRecord>, k: int) -> Seq<u8>
    decreases k,
{
    if k <= 0 {
        Seq::empty()
    } else {
        non_default_tables(recs, k - 1) + non_default_table(recs[k - 1])
    }
}

/// Size of a format 14 subtable as written.
pub open spec fn format14_len(recs: Seq<VariationSelectorRecord>) -> int {
    records14_end(recs) + default_total(recs, recs.len() as int) + non_default_total(
        recs,
        recs.len() as int,
    )
}

/// The subtables whose 16- and 32-bit length fields `write` can compute
/// without overflow.
pub open spec fn subtable_writable(st: CmapSubtable) -> bool {
    match st {
        CmapSubtable::Format0 { .. } => true,
        CmapSubtable::Format4 { segments, .. } => 16 + 8 * (segments@.len() as u16) <= u16::MAX,
        CmapSubtable::Format12 { groups, .. } => 16 + 12 * (groups@.len() as u32) <= u32::MAX,
        CmapSubtable::Format6 { glyph_id_array, .. } => 10 + 2 * (glyph_id_array@.len() as u16)
            <= u16::MAX,
        CmapSubtable::Format10 { glyph_id_array, .. } => 20 + 2 * (glyph_id_array@.len() as u32)
            <= u32::MAX,
        CmapSubtable::Format13 { groups, .. } => 16 + 12 * (groups@.len() as u32) <= u32::MAX,
        CmapSubtable::Format14 { records } => format14_len(records@) <= u32::MAX,
    }
}

/// The bytes of a subtable as written, before padding.
pub open spec fn subtable_bytes(st: CmapSubtable) -> Seq<u8> {
    match st {
        CmapSubtable::Format0 { language, glyph_id_array } => u16_bytes(0) + u16_bytes(262)
            + u16_bytes(language) + glyph_id_array@,
        CmapSubtable::Format4 { language, segments } => {
            let n = segments@.len() as u16;
            u16_bytes(4) + u16_bytes((16 + 8 * n) as u16) + u16_bytes(language) + u16_bytes(
                (2 * n) as u16,
            ) + u16_bytes(0) + u16_bytes(0) + u16_bytes(0) + units_bytes(end_codes(segments@))
                + u16_bytes(0) + units_bytes(start_codes(segments@)) + units_bytes(
                id_deltas(segments@),
            ) + units_bytes(id_range_offsets(segments@))
        },
        CmapSubtable::Format12 { language, groups } => {
            let n = groups@.len() as u32;
            u16_bytes(12) + u16_bytes(0) + u32_bytes((16 + 12 * n) as u32) + u32_bytes(language)
                + u32_bytes(n) + groups12_bytes(groups@)
        },
        CmapSubtable::Format6 { language, first_code, glyph_id_array } => {
            let n = glyph_id_array@.len() as u16;
            u16_bytes(6) + u16_bytes((10 + 2 * n) as u16) + u16_bytes(language) + u16_bytes(
                first_code,
            ) + u16_bytes(n) + units_bytes(glyph_id_array@)
        },
        CmapSubtable::Format10 { language, start_char_code, glyph_id_array } => {
            let n = glyph_id_array@.len() as u32;
            u16_bytes(10) + u16_bytes(0) + u32_bytes((20 + 2 * n) as u32) + u32_bytes(language)
                + u32_bytes(start_char_code) + u32_bytes(n) + units_bytes(glyph_id_array@)
        },
        CmapSubtable::Format13 { language, groups } => {
            let n = groups@.len() as u32;
            u16_bytes(13) + u16_bytes(0) + u32_bytes((16 + 12 * n) as u32) + u32_bytes(language)
                + u32_bytes(n) + groups13_bytes(groups@)
        },
        CmapSubtable::Format14 { records } => {
            let n = records@.len();
            u16_bytes(14) + u32_bytes(format14_len(records@) as u32) + u32_bytes(n as u32)
                + records14_bytes(records@, n as int) + default_tables(records@, n as int)
                + non_default_tables(records@, n as int)
        },
    }
}

/// A subtable as written: its bytes, zero-padded to a multiple of four.
pub open spec fn padded_subtable(st: CmapSubtable) -> Seq<u8> {
    subtable_bytes(st) + zeros(pad_len(subtable_bytes(st).len()))
}

fn write_units(w: &mut Writer, a: &Vec<u16>)
    ensures
        final(w)@ == old(w)@ + units_bytes(a@),
{
    let n = a.len();
    let mut i: usize = 0;
    let ghost base = w@;
    while i < n
        invariant
            n == a@.len(),
            i <= n,
            w@ == base + units_bytes(a@.subrange(0, i as int)),
        decreases n - i,
    {
        w.write_u16(a[i]);
        proof {
            assert(a@.subrange(0, i + 1).drop_last() =~= a@.subrange(0, i as int));
        }
        i += 1;
    }
    proof {
        assert(a@.subrange(0, n as int) =~= a@);
    }
}

/// One field of every segment, as 16-bit units.
fn segment_field(segments: &Vec<Format4Segment>, field: u8) -> (v: Vec<u16>)
    requires
        field < 4,
    ensures
        field == 0 ==> v@ == end_codes(segments@),
        field == 1 ==> v@ == start_codes(segments@),
        field == 2 ==> v@ == id_deltas(segments@),
        field == 3 ==> v@ == id_range_offsets(segments@),
{
    let n = segments.len();
    let mut v: Vec<u16> = Vec::new();
    let mut i: usize = 0;
    while i < n
        invariant
            n == segments@.len(),
            i <= n,
            field < 4,
            field == 0 ==> v@ == end_codes(segments@).subrange(0, i as int),
            field == 1 ==> v@ == start_codes(segments@).subrange(0, i as int),
            field == 2 ==> v@ == id_deltas(segments@).subrange(0, i as int),
            field == 3 ==> v@ == id_range_offsets(segments@).subrange(0, i as int),
        decreases n - i,
    {
        let seg = segments[i];
        let x = if field == 0 {
            seg.end_code
        } else if field == 1 {
            seg.start_code
        } else if field == 2 {
            if seg.id_delta >= 0 {
                seg.id_delta as u16
            } else {
                (seg.id_delta as i32 + 65536) as u16
            }
        } else {
            seg.id_range_offset
        };
        v.push(x);
        i += 1;
        proof {
            if field == 0 {
                assert(v@ =~= end_codes(segments@).subrange(0, i as int));
            } else if field == 1 {
                assert(v@ =~= start_codes(segments@).subrange(0, i as int));
            } else if field == 2 {
                assert(v@ =~= id_deltas(segments@).subrange(0, i as int));
            } else {
                assert(v@ =~= id_range_offsets(segments@).subrange(0, i as int));
            }
        }
    }
    proof {
        assert(end_codes(segments@).subrange(0, n as int) =~= end_codes(segments@));
        assert(start_codes(segments@).subrange(0, n as int) =~= start_codes(segments@));
        assert(id_deltas(segments@).subrange(0, n as int) =~= id_deltas(segments@));
        assert(id_range_offsets(segments@).subrange(0, n as int) =~= id_range_offsets(
            segments@,
        ));
    }
    v
}

fn write_groups12(w: &mut Writer, g: &Vec<SequentialMapGroup>)
    ensures
        final(w)@ == old(w)@ + groups12_bytes(g@),
{
    let n = g.len();
    let mut i: usize = 0;
    let ghost base = w@;
    while i < n
        invariant
            n == g@.len(),
            i <= n,
            w@ == base + groups12_bytes(g@.subrange(0, i as int)),
        decreases n - i,
    {
        w.write_u32(g[i].start_char_code);
        w.write_u32(g[i].end_char_code);
        w.write_u32(g[i].start_glyph_id);
        proof {
            assert(g@.subrange(0, i + 1).drop_last() =~= g@.subrange(0, i as int));
        }
        i += 1;
    }
    proof {
        assert(g@.subrange(0, n as int) =~= g@);
    }
}

fn write_groups13(w: &mut Writer, g: &Vec<ConstantMapGroup>)
    ensures
        final(w)@ == old(w)@ + groups13_bytes(g@),
{
    let n = g.len();
    let mut i: usize = 0;
    let ghost base = w@;
    while i < n
        invariant
            n == g@.len(),
            i <= n,
            w@ == base + groups13_bytes(g@.subrange(0, i as int)),
        decreases n - i,
    {
        w.write_u32(g[i].start_char_code);
        w.write_u32(g[i].end_char_code);
        w.write_u32(g[i].glyph_id);
        proof {
            assert(g@.subrange(0, i + 1).drop_last() =~= g@.subrange(0, i as int));
        }
        i += 1;
    }
    proof {
        assert(g@.subrange(0, n as int) =~= g@);
    }
}

fn default_table_bytes(r: &VariationSelectorRecord) -> (v: Vec<u8>)
    ensures
        v@ == default_table(*r),
{
    if r.default_uvs.len() == 0 {
        return Vec::new();
    }
    let mut dw = Writer::new();
    dw.write_u32(r.default_uvs.len() as u32);
    let ghost base = dw@;
    let n = r.default_uvs.len();
    let mut i: usize = 0;
    while i < n
        invariant
            n == r.default_uvs@.len(),
            i <= n,
            dw@ == base + ranges_bytes(r.default_uvs@.subrange(0, i as int)),
        decreases n - i,
    {
        dw.write_u24(r.default_uvs[i].start_unicode_value);
        dw.write_u8(r.default_uvs[i].additional_count);
        proof {
            assert(r.default_uvs@.subrange(0, i + 1).drop_last() =~= r.default_uvs@.subrange(
                0,
                i as int,
            ));
            assert(dw@ =~= base + ranges_bytes(r.default_uvs@.subrange(0, i + 1)));
        }
        i += 1;
    }
    proof {
        assert(r.default_uvs@.subrange(0, n as int) =~= r.default_uvs@);
    }
    dw.into_vec()
}

fn non_default_table_bytes(r: &VariationSelectorRecord) -> (v: Vec<u8>)
    ensures
        v@ == non_default_table(*r),
{
    if r.non_default_uvs.len() == 0 {
        return Vec::new();
    }
    let mut dw = Writer::new();
    dw.write_u32(r.non_default_uvs.len() as u32);
    let ghost base = dw@;
    let n = r.non_default_uvs.len();
    let mut i: usize = 0;
    while i < n
        invariant
            n == r.non_default_uvs@.len(),
            i <= n,
            dw@ == base + mappings_bytes(r.non_default_uvs@.subrange(0, i as int)),
        decreases n - i,
    {
        dw.write_u24(r.non_default_uvs[i].unicode_value);
        dw.write_u16(r.non_default_uvs[i].glyph_id);
        proof {
            assert(r.non_default_uvs@.subrange(0, i + 1).drop_last()
                =~= r.non_default_uvs@.subrange(0, i as int));
        }
        i += 1;
    }
    proof {
        assert(r.non_default_uvs@.subrange(0, n as int) =~= r.non_default_uvs@);
    }
    dw.into_vec()
}

pub(crate) proof fn lemma_default_total_monotone(recs: Seq<VariationSelectorRecord>, a: int, b: int)
    requires
        0 <= a <= b,
    ensures
        default_total(recs, a) <= default_total(recs, b),
    decreases b - a,
{
    if a < b {
        lemma_default_total_monotone(recs, a, b - 1);
    }
}

pub(crate) proof fn lemma_non_default_total_monotone(recs: Seq<VariationSelectorRecord>, a: int, b: int)
    requires
        0 <= a <= b,
    ensures
        non_default_total(recs, a) <= non_default_total(recs, b),
    decreases b - a,
{
    if a < b {
        lemma_non_default_total_monotone(recs, a, b - 1);
    }
}

fn write_format14(sw: &mut Writer, records: &Vec<VariationSelectorRecord>)
    requires
        format14_len(records@) <= u32::MAX,
    ensures
        final(sw)@ == old(sw)@ + subtable_bytes(CmapSubtable::Format14 { records: *records }),
{
    let ghost recs = records@;
    let n = records.len();
    proof {
        lemma_default_total_monotone(recs, 0, n as int);
        lemma_non_default_total_monotone(recs, 0, n as int);
    }
    let after_records: u32 = 10 + n as u32 * 11;
    let mut default_data: Vec<Vec<u8>> = Vec::new();
    let mut non_default_data: Vec<Vec<u8>> = Vec::new();
    let mut i: usize = 0;
    while i < n
        invariant
            n == recs.len(),
            recs == records@,
            i <= n,
            default_data@.len() == i,
            non_default_data@.len() == i,
            forall|k: int| 0 <= k < i ==> (#[trigger] default_data@[k])@ == default_table(recs[k]),
            forall|k: int|
                0 <= k < i ==> (#[trigger] non_default_data@[k])@ == non_default_table(recs[k]),
        decreases n - i,
    {
        default_data.push(default_table_bytes(&records[i]));
        non_default_data.push(non_default_table_bytes(&records[i]));
        i += 1;
    }
    let mut default_offsets: Vec<u32> = Vec::new();
    let mut current_offset: u32 = after_records;
    i = 0;
    while i < n
        invariant
            n == recs.len(),
            recs == records@,
            i <= n,
            format14_len(recs) <= u32::MAX,
            default_data@.len() == n,
            forall|k: int| 0 <= k < n ==> (#[trigger] default_data@[k])@ == default_table(recs[k]),
            current_offset == records14_end(recs) + default_total(recs, i as int),
            default_offsets@.len() == i,
            forall|k: int|
                0 <= k < i ==> #[trigger] default_offsets@[k] == default_offset(recs, k),
        decreases n - i,
    {
        proof {
            lemma_default_total_monotone(recs, i + 1, n as int);
            lemma_non_default_total_monotone(recs, 0, n as int);
        }
        if records[i].default_uvs.len() == 0 {
            default_offsets.push(0u32);
        } else {
            default_offsets.push(current_offset);
        }
        current_offset += default_data[i].len() as u32;
        i += 1;
    }
    let mut non_default_offsets: Vec<u32> = Vec::new();
    i = 0;
    while i < n
        invariant
            n == recs.len(),
            recs == records@,
            i <= n,
            format14_len(recs) <= u32::MAX,
            non_default_data@.len() == n,
            forall|k: int|
                0 <= k < n ==> (#[trigger] non_default_data@[k])@ == non_default_table(recs[k]),
            current_offset == records14_end(recs) + default_total(recs, n as int)
                + non_default_total(recs, i as int),
            non_default_offsets@.len() == i,
            forall|k: int|
                0 <= k < i ==> #[trigger] non_default_offsets@[k] == non_default_offset(recs, k),
        decreases n - i,
    {
        proof {
            lemma_non_default_total_monotone(recs, i + 1, n as int);
        }
        if records[i].non_default_uvs.len() == 0 {
            non_default_offsets.push(0u32);
        } else {
            non_default_offsets.push(current_offset);
        }
        current_offset += non_default_data[i].len() as u32;
        i += 1;
    }
    sw.write_u16(14);
    sw.write_u32(current_offset);
    sw.write_u32(n as u32);
    let ghost hdr = sw@;
    i = 0;
    while i < n
        invariant
            n == recs.len(),
            recs == records@,
            i <= n,
            default_offsets@.len() == n,
            non_default_offsets@.len() == n,
            forall|k: int|
                0 <= k < n ==> #[trigger] default_offsets@[k] == default_offset(recs, k),
            forall|k: int|
                0 <= k < n ==> #[trigger] non_default_offsets@[k] == non_default_offset(recs, k),
            sw@ == hdr + records14_bytes(recs, i as int),
        decreases n - i,
    {
        sw.write_u24(records[i].var_selector);
        sw.write_u32(default_offsets[i]);
        sw.write_u32(non_default_offsets[i]);
        i += 1;
        proof {
            assert(sw@ =~= hdr + records14_bytes(recs, i as int));
        }
    }
    let ghost mid = sw@;
    i = 0;
    while i < n
        invariant
            n == recs.len(),
            i <= n,
            default_data@.len() == n,
            forall|k: int| 0 <= k < n ==> (#[trigger] default_data@[k])@ == default_table(recs[k]),
            sw@ == mid + default_tables(recs, i as int),
        decreases n - i,
    {
        sw.write_bytes(default_data[i].as_slice());
        i += 1;
        proof {
            assert(sw@ =~= mid + default_tables(recs, i as int));
        }
    }
    let ghost mid2 = sw@;
    i = 0;
    while i < n
        invariant
            n == recs.len(),
            i <= n,
            non_default_data@.len() == n,
            forall|k: int|
                0 <= k < n ==> (#[trigger] non_default_data@[k])@ == non_default_table(recs[k]),
            sw@ == mid2 + non_default_tables(recs, i as int),
        decreases n - i,
    {
        sw.write_bytes(non_default_data[i].as_slice());
        i += 1;
        proof {
            assert(sw@ =~= mid2 + non_default_tables(recs, i as int));
        }
    }
    proof {
        assert(sw@ =~= old(sw)@ + subtable_bytes(CmapSubtable::Format14 { records: *records }));
    }
}

/// The bytes `write` stores for one subtable, padded to four bytes.
pub fn encode_subtable(st: &CmapSubtable) -> (v: Vec<u8>)
    requires
        subtable_writable(*st),
    ensures
        v@ == padded_subtable(*st),
{
    let mut sw = Writer::new();
    match st {
        CmapSubtable::Format0 { language, glyph_id_array } => {
            sw.write_u16(0);
            sw.write_u16(262);
            sw.write_u16(*language);
            sw.write_bytes(glyph_id_array);
        },
        CmapSubtable::Format4 { language, segments } => {
            let seg_count = segments.len() as u16;
            let length = 16 + seg_count * 8;
            sw.write_u16(4);
            sw.write_u16(length);
            sw.write_u16(*language);
            sw.write_u16(seg_count * 2);
            sw.write_u16(0);
            sw.write_u16(0);
            sw.write_u16(0);
            write_units(&mut sw, &segment_field(segments, 0));
            sw.write_u16(0);
            write_units(&mut sw, &segment_field(segments, 1));
            write_units(&mut sw, &segment_field(segments, 2));
            write_units(&mut sw, &segment_field(segments, 3));
        },
        CmapSubtable::Format12 { language, groups } => {
            let length = 16 + groups.len() as u32 * 12;
            sw.write_u16(12);
            sw.write_u16(0);
            sw.write_u32(length);
            sw.write_u32(*language);
            sw.write_u32(groups.len() as u32);
            write_groups12(&mut sw, groups);
        },
        CmapSubtable::Format6 { language, first_code, glyph_id_array } => {
            let length = 10 + glyph_id_array.len() as u16 * 2;
            sw.write_u16(6);
            sw.write_u16(length);
            sw.write_u16(*language);
            sw.write_u16(*first_code);
            sw.write_u16(glyph_id_array.len() as u16);
            write_units(&mut sw, glyph_id_array);
        },
        CmapSubtable::Format10 { language, start_char_code, glyph_id_array } => {
            let length = 20 + glyph_id_array.len() as u32 * 2;
            sw.write_u16(10);
            sw.write_u16(0);
            sw.write_u32(length);
            sw.write_u32(*language);
            sw.write_u32(*start_char_code);
            sw.write_u32(glyph_id_array.len() as u32);
            write_units(&mut sw, glyph_id_array);
        },
        CmapSubtable::Format13 { language, groups } => {
            let length = 16 + groups.len() as u32 * 12;
            sw.write_u16(13);
            sw.write_u16(0);
            sw.write_u32(length);
            sw.write_u32(*language);
            sw.write_u32(groups.len() as u32);
            write_groups13(&mut sw, groups);
        },
        CmapSubtable::Format14 { records } => {
            write_format14(&mut sw, records);
        },
    }
    proof {
        assert(sw@ =~= subtable_bytes(*st));
    }
    sw.pad_to_4();
    sw.into_vec()
}

} // verus!
