//! Reading `cmap` subtables.
use vstd::prelude::*;
use crate::codec::{be_i16, be_u16, be_u24, be_u32};
use crate::error::FontError;
use crate::parse::{offset_add, Parser};
use crate::tables::cmap::{
    CmapSubtable, ConstantMapGroup, Format4Segment, NonDefaultUvMapping, SequentialMapGroup,
    UnicodeRange, VariationSelectorRecord,
};

verus! {

/// The subtable formats this library reads.
pub open spec fn supported_format(f: u16) -> bool {
    f == 0 || f == 4 || f == 6 || f == 10 || f == 12 || f == 13 || f == 14
}

/// Segment `i` of a format 4 subtable at `start` with `n` segments: its
/// fields come from four parallel arrays.
pub open spec fn segment_at(s: Seq<u8>, start: int, n: int, i: int) -> Format4Segment {
    Format4Segment {
        end_code: be_u16(s, start + 14 + 2 * i),
        start_code: be_u16(s, start + 16 + 2 * n + 2 * i),
        id_delta: be_i16(s, start + 16 + 4 * n + 2 * i),
        id_range_offset: be_u16(s, start + 16 + 6 * n + 2 * i),
    }
}

pub open spec fn group12_at(s: Seq<u8>, i: int) -> SequentialMapGroup {
    SequentialMapGroup {
        start_char_code: be_u32(s, i),
        end_char_code: be_u32(s, i + 4),
        start_glyph_id: be_u32(s, i + 8),
    }
}

pub open spec fn group13_at(s: Seq<u8>, i: int) -> ConstantMapGroup {
    ConstantMapGroup {
        start_char_code: be_u32(s, i),
        end_char_code: be_u32(s, i + 4),
        glyph_id: be_u32(s, i + 8),
    }
}

pub open spec fn range_at(s: Seq<u8>, i: int) -> UnicodeRange {
    UnicodeRange { start_unicode_value: be_u24(s, i), additional_count: s[i + 3] }
}

pub open spec fn uv_mapping_at(s: Seq<u8>, i: int) -> NonDefaultUvMapping {
    NonDefaultUvMapping { unicode_value: be_u24(s, i), glyph_id: be_u16(s, i + 3) }
}

/// A variation sequence table at `at`: a 32-bit count, then that many
/// entries of `size` bytes, all inside the buffer.
pub open spec fn uvs_fits(s: Seq<u8>, at: int, size: int) -> bool {
    at + 4 <= s.len() && at + 4 + size * be_u32(s, at) <= s.len()
}

/// The default and non-default tables of the format 14 record at `pos`
/// (offsets from the subtable at `start`; 0 means absent) fit.
pub open spec fn record14_fits(s: Seq<u8>, start: int, pos: int) -> bool {
    let d = be_u32(s, pos + 3);
    let nd = be_u32(s, pos + 7);
    &&& (d == 0 || uvs_fits(s, start + d, 4))
    &&& (nd == 0 || uvs_fits(s, start + nd, 5))
}

pub open spec fn format14_fits(s: Seq<u8>, start: int) -> bool {
    let nr = be_u32(s, start + 6);
    &&& start + 10 + 11 * nr <= s.len()
    &&& forall|k: int| 0 <= k < nr ==> #[trigger] record14_fits(s, start, start + 10 + 11 * k)
}

/// The subtable at `start` has a supported format and all that its format
/// reads lies inside the buffer.
pub open spec fn subtable_fits(s: Seq<u8>, start: int) -> bool {
    &&& start + 2 <= s.len()
    &&& {
        let f = be_u16(s, start);
        if f == 0 {
            start + 262 <= s.len()
        } else if f == 4 {
            start + 16 + 8 * (be_u16(s, start + 6) / 2) <= s.len()
        } else if f == 6 {
            start + 10 + 2 * be_u16(s, start + 8) <= s.len()
        } else if f == 10 {
            start + 20 + 2 * be_u32(s, start + 16) <= s.len()
        } else if f == 12 || f == 13 {
            start + 16 + 12 * be_u32(s, start + 12) <= s.len()
        } else if f == 14 {
            format14_fits(s, start)
        } else {
            false
        }
    }
}

/// The format 14 record at `pos` as read, with its tables.
pub open spec fn record14_parsed(r: VariationSelectorRecord, s: Seq<u8>, start: int, pos: int) -> bool {
    let d = be_u32(s, pos + 3);
    let nd = be_u32(s, pos + 7);
    &&& r.var_selector == be_u24(s, pos)
    &&& if d == 0 {
        r.default_uvs@.len() == 0
    } else {
        &&& r.default_uvs@.len() == be_u32(s, start + d)
        &&& forall|i: int|
            0 <= i < r.default_uvs@.len() ==> #[trigger] r.default_uvs@[i] == range_at(
                s,
                start + d + 4 + 4 * i,
            )
    }
    &&& if nd == 0 {
        r.non_default_uvs@.len() == 0
    } else {
        &&& r.non_default_uvs@.len() == be_u32(s, start + nd)
        &&& forall|i: int|
            0 <= i < r.non_default_uvs@.len() ==> #[trigger] r.non_default_uvs@[i]
                == uv_mapping_at(s, start + nd + 4 + 5 * i)
    }
}

/// `st` is the subtable spelled by the bytes at `start`.
pub open spec fn subtable_parsed(st: CmapSubtable, s: Seq<u8>, start: int) -> bool {
    let f = be_u16(s, start);
    match st {
        CmapSubtable::Format0 { language, glyph_id_array } => {
            &&& f == 0
            &&& language == be_u16(s, start + 4)
            &&& glyph_id_array@ == s.subrange(start + 6, start + 262)
        },
        CmapSubtable::Format4 { language, segments } => {
            let n = be_u16(s, start + 6) / 2;
            &&& f == 4
            &&& language == be_u16(s, start + 4)
            &&& segments@.len() == n
            &&& forall|i: int|
                0 <= i < n ==> #[trigger] segments@[i] == segment_at(s, start, n as int, i)
        },
        CmapSubtable::Format12 { language, groups } => {
            &&& f == 12
            &&& language == be_u32(s, start + 8)
            &&& groups@.len() == be_u32(s, start + 12)
            &&& forall|i: int|
                0 <= i < groups@.len() ==> #[trigger] groups@[i] == group12_at(
                    s,
                    start + 16 + 12 * i,
                )
        },
        CmapSubtable::Format6 { language, first_code, glyph_id_array } => {
            &&& f == 6
            &&& language == be_u16(s, start + 4)
            &&& first_code == be_u16(s, start + 6)
            &&& glyph_id_array@.len() == be_u16(s, start + 8)
            &&& forall|i: int|
                0 <= i < glyph_id_array@.len() ==> #[trigger] glyph_id_array@[i] == be_u16(
                    s,
                    start + 10 + 2 * i,
                )
        },
        CmapSubtable::Format10 { language, start_char_code, glyph_id_array } => {
            &&& f == 10
            &&& language == be_u32(s, start + 8)
            &&& start_char_code == be_u32(s, start + 12)
            &&& glyph_id_array@.len() == be_u32(s, start + 16)
            &&& forall|i: int|
                0 <= i < glyph_id_array@.len() ==> #[trigger] glyph_id_array@[i] == be_u16(
                    s,
                    start + 20 + 2 * i,
                )
        },
        CmapSubtable::Format13 { language, groups } => {
            &&& f == 13
            &&& language == be_u32(s, start + 8)
            &&& groups@.len() == be_u32(s, start + 12)
            &&& forall|i: int|
                0 <= i < groups@.len() ==> #[trigger] groups@[i] == group13_at(
                    s,
                    start + 16 + 12 * i,
                )
        },
        CmapSubtable::Format14 { records } => {
            &&& f == 14
            &&& records@.len() == be_u32(s, start + 6)
            &&& forall|k: int|
                0 <= k < records@.len() ==> #[trigger] record14_parsed(
                    records@[k],
                    s,
                    start,
                    start + 10 + 11 * k,
                )
        },
    }
}

/// The outcome of reading a subtable at `start`: success exactly when it
/// fits; an unknown format is reported with its number; anything else
/// that fails is a read past the end.
pub open spec fn subtable_result(r: Result<CmapSubtable, FontError>, s: Seq<u8>, start: int) -> bool {
    match r {
        Ok(st) => subtable_fits(s, start) && subtable_parsed(st, s, start),
        Err(e) => {
            &&& !subtable_fits(s, start)
            &&& match e {
                FontError::UnsupportedCmapFormat(f) => start + 2 <= s.len() && f == be_u16(
                    s,
                    start,
                ) && !supported_format(f),
                FontError::OutOfBounds { .. } => true,
                _ => false,
            }
        },
    }
}

/// Reads the subtable at `start`.
pub fn parse_subtable(buf: &[u8], start: usize) -> (r: Result<CmapSubtable, FontError>)
    ensures
        subtable_result(r, buf@, start as int),
{
    let mut sp = Parser::new(buf, start);
    let format = sp.u16()?;
    proof {
        sp.lemma_bounds();
    }
    if format == 0 {
        parse_format0(buf, start)
    } else if format == 4 {
        parse_format4(buf, start)
    } else if format == 6 {
        parse_format6(buf, start)
    } else if format == 10 {
        parse_format10(buf, start)
    } else if format == 12 {
        parse_format12(buf, start)
    } else if format == 13 {
        parse_format13(buf, start)
    } else if format == 14 {
        parse_format14(buf, start)
    } else {
        Err(FontError::UnsupportedCmapFormat(format))
    }
}

fn parse_format0(buf: &[u8], start: usize) -> (r: Result<CmapSubtable, FontError>)
    requires
        start + 2 <= buf@.len(),
        be_u16(buf@, start as int) == 0,
    ensures
        subtable_result(r, buf@, start as int),
{
    proof {
        assert(buf@.len() == buf.len());
    }
    let mut sp = Parser::new(buf, start + 2);
    let _length = sp.u16()?;
    let language = sp.u16()?;
    let bytes = sp.slice(256)?;
    let mut glyph_id_array = [0u8; 256];
    let mut i: usize = 0;
    while i < 256
        invariant
            i <= 256,
            bytes@.len() == 256,
            glyph_id_array@.len() == 256,
            forall|k: int| 0 <= k < i ==> glyph_id_array@[k] == bytes@[k],
        decreases 256 - i,
    {
        glyph_id_array[i] = bytes[i];
        i += 1;
    }
    proof {
        assert(glyph_id_array@ =~= buf@.subrange(start + 6, start + 262));
    }
    Ok(CmapSubtable::Format0 { language, glyph_id_array })
}

fn parse_format4(buf: &[u8], start: usize) -> (r: Result<CmapSubtable, FontError>)
    requires
        start + 2 <= buf@.len(),
        be_u16(buf@, start as int) == 4,
    ensures
        subtable_result(r, buf@, start as int),
{
    proof {
        assert(buf@.len() == buf.len());
    }
    let ghost s = buf@;
    let mut sp = Parser::new(buf, start + 2);
    let _length = sp.u16()?;
    let language = sp.u16()?;
    let seg_count_x2 = sp.u16()?;
    let seg_count = (seg_count_x2 / 2) as usize;
    let _search_range = sp.u16()?;
    let _entry_selector = sp.u16()?;
    let _range_shift = sp.u16()?;
    let ghost n = seg_count as int;
    let mut end_codes: Vec<u16> = Vec::new();
    let mut k: usize = 0;
    while k < seg_count
        invariant
            be_u16(s, start as int) == 4,
            start + 2 <= s.len(),
            s.len() <= usize::MAX,
            n == be_u16(s, start + 6) / 2,
            sp.data() == s,
            sp.pos() <= s.len(),
            s == buf@,
            n == seg_count,
            k <= seg_count,
            sp.pos() == start + 14 + 2 * k,
            end_codes@.len() == k,
            forall|i: int| 0 <= i < k ==> #[trigger] end_codes@[i] == be_u16(s, start + 14 + 2 * i),
        decreases seg_count - k,
    {
        let v = sp.u16()?;
        end_codes.push(v);
        k += 1;
    }
    let _reserved = sp.u16()?;
    let mut start_codes: Vec<u16> = Vec::new();
    k = 0;
    while k < seg_count
        invariant
            be_u16(s, start as int) == 4,
            start + 2 <= s.len(),
            s.len() <= usize::MAX,
            n == be_u16(s, start + 6) / 2,
            sp.data() == s,
            sp.pos() <= s.len(),
            s == buf@,
            n == seg_count,
            k <= seg_count,
            sp.pos() == start + 16 + 2 * n + 2 * k,
            start_codes@.len() == k,
            forall|i: int|
                0 <= i < k ==> #[trigger] start_codes@[i] == be_u16(s, start + 16 + 2 * n + 2 * i),
        decreases seg_count - k,
    {
        let v = sp.u16()?;
        start_codes.push(v);
        k += 1;
    }
    let mut id_deltas: Vec<i16> = Vec::new();
    k = 0;
    while k < seg_count
        invariant
            be_u16(s, start as int) == 4,
            start + 2 <= s.len(),
            s.len() <= usize::MAX,
            n == be_u16(s, start + 6) / 2,
            sp.data() == s,
            sp.pos() <= s.len(),
            s == buf@,
            n == seg_count,
            k <= seg_count,
            sp.pos() == start + 16 + 4 * n + 2 * k,
            id_deltas@.len() == k,
            forall|i: int|
                0 <= i < k ==> #[trigger] id_deltas@[i] == be_i16(s, start + 16 + 4 * n + 2 * i),
        decreases seg_count - k,
    {
        let v = sp.i16()?;
        id_deltas.push(v);
        k += 1;
    }
    let mut id_range_offsets: Vec<u16> = Vec::new();
    k = 0;
    while k < seg_count
        invariant
            be_u16(s, start as int) == 4,
            start + 2 <= s.len(),
            s.len() <= usize::MAX,
            n == be_u16(s, start + 6) / 2,
            sp.data() == s,
            sp.pos() <= s.len(),
            s == buf@,
            n == seg_count,
            k <= seg_count,
            sp.pos() == start + 16 + 6 * n + 2 * k,
            id_range_offsets@.len() == k,
            forall|i: int|
                0 <= i < k ==> #[trigger] id_range_offsets@[i] == be_u16(
                    s,
                    start + 16 + 6 * n + 2 * i,
                ),
        decreases seg_count - k,
    {
        let v = sp.u16()?;
        id_range_offsets.push(v);
        k += 1;
    }
    let mut segments: Vec<Format4Segment> = Vec::new();
    k = 0;
    while k < seg_count
        invariant
            be_u16(s, start as int) == 4,
            start + 2 <= s.len(),
            s.len() <= usize::MAX,
            n == be_u16(s, start + 6) / 2,
            s == buf@,
            n == seg_count,
            k <= seg_count,
            end_codes@.len() == n,
            start_codes@.len() == n,
            id_deltas@.len() == n,
            id_range_offsets@.len() == n,
            forall|i: int| 0 <= i < n ==> #[trigger] end_codes@[i] == be_u16(s, start + 14 + 2 * i),
            forall|i: int|
                0 <= i < n ==> #[trigger] start_codes@[i] == be_u16(s, start + 16 + 2 * n + 2 * i),
            forall|i: int|
                0 <= i < n ==> #[trigger] id_deltas@[i] == be_i16(s, start + 16 + 4 * n + 2 * i),
            forall|i: int|
                0 <= i < n ==> #[trigger] id_range_offsets@[i] == be_u16(
                    s,
                    start + 16 + 6 * n + 2 * i,
                ),
            segments@.len() == k,
            forall|i: int| 0 <= i < k ==> #[trigger] segments@[i] == segment_at(s, start as int, n, i),
        decreases seg_count - k,
    {
        segments.push(
            Format4Segment {
                end_code: end_codes[k],
                start_code: start_codes[k],
                id_delta: id_deltas[k],
                id_range_offset: id_range_offsets[k],
            },
        );
        k += 1;
    }
    Ok(CmapSubtable::Format4 { language, segments })
}

fn parse_format6(buf: &[u8], start: usize) -> (r: Result<CmapSubtable, FontError>)
    requires
        start + 2 <= buf@.len(),
        be_u16(buf@, start as int) == 6,
    ensures
        subtable_result(r, buf@, start as int),
{
    proof {
        assert(buf@.len() == buf.len());
    }
    let ghost s = buf@;
    let mut sp = Parser::new(buf, start + 2);
    let _length = sp.u16()?;
    let language = sp.u16()?;
    let first_code = sp.u16()?;
    let entry_count = sp.u16()?;
    let mut glyph_id_array: Vec<u16> = Vec::new();
    let mut k: u16 = 0;
    while k < entry_count
        invariant
            be_u16(s, start as int) == 6,
            start + 2 <= s.len(),
            s.len() <= usize::MAX,
            sp.data() == s,
            sp.pos() <= s.len(),
            s == buf@,
            entry_count == be_u16(s, start + 8),
            k <= entry_count,
            sp.pos() == start + 10 + 2 * k,
            glyph_id_array@.len() == k,
            forall|i: int|
                0 <= i < k ==> #[trigger] glyph_id_array@[i] == be_u16(s, start + 10 + 2 * i),
        decreases entry_count - k,
    {
        let v = sp.u16()?;
        glyph_id_array.push(v);
        k += 1;
    }
    Ok(CmapSubtable::Format6 { language, first_code, glyph_id_array })
}

fn parse_format10(buf: &[u8], start: usize) -> (r: Result<CmapSubtable, FontError>)
    requires
        start + 2 <= buf@.len(),
        be_u16(buf@, start as int) == 10,
    ensures
        subtable_result(r, buf@, start as int),
{
    proof {
        assert(buf@.len() == buf.len());
    }
    let ghost s = buf@;
    let mut sp = Parser::new(buf, offset_add(start, 4));
    let _length = sp.u32()?;
    let language = sp.u32()?;
    let start_char_code = sp.u32()?;
    let num_chars = sp.u32()?;
    let mut glyph_id_array: Vec<u16> = Vec::new();
    let mut k: u32 = 0;
    while k < num_chars
        invariant
            be_u16(s, start as int) == 10,
            start + 2 <= s.len(),
            s.len() <= usize::MAX,
            sp.data() == s,
            sp.pos() <= s.len(),
            s == buf@,
            num_chars == be_u32(s, start + 16),
            k <= num_chars,
            sp.pos() == start + 20 + 2 * k,
            glyph_id_array@.len() == k,
            forall|i: int|
                0 <= i < k ==> #[trigger] glyph_id_array@[i] == be_u16(s, start + 20 + 2 * i),
        decreases num_chars - k,
    {
        let v = sp.u16()?;
        glyph_id_array.push(v);
        k += 1;
    }
    Ok(CmapSubtable::Format10 { language, start_char_code, glyph_id_array })
}

fn parse_format12(buf: &[u8], start: usize) -> (r: Result<CmapSubtable, FontError>)
    requires
        start + 2 <= buf@.len(),
        be_u16(buf@, start as int) == 12,
    ensures
        subtable_result(r, buf@, start as int),
{
    proof {
        assert(buf@.len() == buf.len());
    }
    let ghost s = buf@;
    let mut sp = Parser::new(buf, offset_add(start, 4));
    let _length = sp.u32()?;
    let language = sp.u32()?;
    let num_groups = sp.u32()?;
    let mut groups: Vec<SequentialMapGroup> = Vec::new();
    let mut k: u32 = 0;
    while k < num_groups
        invariant
            be_u16(s, start as int) == 12,
            start + 2 <= s.len(),
            s.len() <= usize::MAX,
            sp.data() == s,
            sp.pos() <= s.len(),
            s == buf@,
            num_groups == be_u32(s, start + 12),
            k <= num_groups,
            sp.pos() == start + 16 + 12 * k,
            groups@.len() == k,
            forall|i: int|
                0 <= i < k ==> #[trigger] groups@[i] == group12_at(s, start + 16 + 12 * i),
        decreases num_groups - k,
    {
        let a = sp.u32()?;
        let b = sp.u32()?;
        let c = sp.u32()?;
        groups.push(SequentialMapGroup { start_char_code: a, end_char_code: b, start_glyph_id: c });
        k += 1;
    }
    Ok(CmapSubtable::Format12 { language, groups })
}

fn parse_format13(buf: &[u8], start: usize) -> (r: Result<CmapSubtable, FontError>)
    requires
        start + 2 <= buf@.len(),
        be_u16(buf@, start as int) == 13,
    ensures
        subtable_result(r, buf@, start as int),
{
    proof {
        assert(buf@.len() == buf.len());
    }
    let ghost s = buf@;
    let mut sp = Parser::new(buf, offset_add(start, 4));
    let _length = sp.u32()?;
    let language = sp.u32()?;
    let num_groups = sp.u32()?;
    let mut groups: Vec<ConstantMapGroup> = Vec::new();
    let mut k: u32 = 0;
    while k < num_groups
        invariant
            be_u16(s, start as int) == 13,
            start + 2 <= s.len(),
            s.len() <= usize::MAX,
            sp.data() == s,
            sp.pos() <= s.len(),
            s == buf@,
            num_groups == be_u32(s, start + 12),
            k <= num_groups,
            sp.pos() == start + 16 + 12 * k,
            groups@.len() == k,
            forall|i: int|
                0 <= i < k ==> #[trigger] groups@[i] == group13_at(s, start + 16 + 12 * i),
        decreases num_groups - k,
    {
        let a = sp.u32()?;
        let b = sp.u32()?;
        let c = sp.u32()?;
        groups.push(ConstantMapGroup { start_char_code: a, end_char_code: b, glyph_id: c });
        k += 1;
    }
    Ok(CmapSubtable::Format13 { language, groups })
}

/// Reads a default variation sequence table: a count, then ranges.
fn parse_default_uvs(buf: &[u8], at: usize) -> (r: Result<Vec<UnicodeRange>, FontError>)
    ensures
        match r {
            Ok(v) => {
                &&& uvs_fits(buf@, at as int, 4)
                &&& v@.len() == be_u32(buf@, at as int)
                &&& forall|i: int|
                    0 <= i < v@.len() ==> #[trigger] v@[i] == range_at(buf@, at + 4 + 4 * i)
            },
            Err(e) => !uvs_fits(buf@, at as int, 4) && e is OutOfBounds,
        },
{
    let ghost s = buf@;
    let mut dp = Parser::new(buf, at);
    let num_ranges = dp.u32()?;
    let mut v: Vec<UnicodeRange> = Vec::new();
    let mut k: u32 = 0;
    while k < num_ranges
        invariant
            dp.data() == s,
            dp.pos() <= s.len(),
            s == buf@,
            num_ranges == be_u32(s, at as int),
            k <= num_ranges,
            dp.pos() == at + 4 + 4 * k,
            v@.len() == k,
            forall|i: int| 0 <= i < k ==> #[trigger] v@[i] == range_at(s, at + 4 + 4 * i),
        decreases num_ranges - k,
    {
        let ghost pos = dp.pos();
        let a = dp.u24()?;
        let b = dp.u8()?;
        let item = UnicodeRange { start_unicode_value: a, additional_count: b };
        proof {
            assert(item == range_at(s, pos));
        }
        v.push(item);
        k += 1;
    }
    Ok(v)
}

/// Reads a non-default variation sequence table: a count, then mappings.
fn parse_non_default_uvs(buf: &[u8], at: usize) -> (r: Result<Vec<NonDefaultUvMapping>, FontError>)
    ensures
        match r {
            Ok(v) => {
                &&& uvs_fits(buf@, at as int, 5)
                &&& v@.len() == be_u32(buf@, at as int)
                &&& forall|i: int|
                    0 <= i < v@.len() ==> #[trigger] v@[i] == uv_mapping_at(buf@, at + 4 + 5 * i)
            },
            Err(e) => !uvs_fits(buf@, at as int, 5) && e is OutOfBounds,
        },
{
    let ghost s = buf@;
    let mut dp = Parser::new(buf, at);
    let num_values = dp.u32()?;
    let mut v: Vec<NonDefaultUvMapping> = Vec::new();
    let mut k: u32 = 0;
    while k < num_values
        invariant
            dp.data() == s,
            dp.pos() <= s.len(),
            s == buf@,
            num_values == be_u32(s, at as int),
            k <= num_values,
            dp.pos() == at + 4 + 5 * k,
            v@.len() == k,
            forall|i: int| 0 <= i < k ==> #[trigger] v@[i] == uv_mapping_at(s, at + 4 + 5 * i),
        decreases num_values - k,
    {
        let a = dp.u24()?;
        let b = dp.u16()?;
        v.push(NonDefaultUvMapping { unicode_value: a, glyph_id: b });
        k += 1;
    }
    Ok(v)
}

/// The table at `base + rel`, or an out-of-bounds error where that sum
/// does not fit in a `usize`.
fn uvs_start(base: usize, rel: u32, buf_len: usize) -> (r: Result<usize, FontError>)
    ensures
        match r {
            Ok(a) => a == base + rel,
            Err(e) => base + rel > usize::MAX && e is OutOfBounds,
        },
{
    match base.checked_add(rel as usize) {
        Some(a) => Ok(a),
        None => Err(FontError::OutOfBounds { offset: base, length: rel as usize, buf_len }),
    }
}

fn parse_format14(buf: &[u8], start: usize) -> (r: Result<CmapSubtable, FontError>)
    requires
        start + 2 <= buf@.len(),
        be_u16(buf@, start as int) == 14,
    ensures
        subtable_result(r, buf@, start as int),
{
    proof {
        assert(buf@.len() == buf.len());
    }
    let ghost s = buf@;
    let mut sp = Parser::new(buf, start + 2);
    let _length = sp.u32()?;
    let num_records = sp.u32()?;
    let mut records: Vec<VariationSelectorRecord> = Vec::new();
    let mut k: u32 = 0;
    while k < num_records
        invariant
            be_u16(s, start as int) == 14,
            start + 2 <= s.len(),
            s.len() <= usize::MAX,
            sp.data() == s,
            sp.pos() <= s.len(),
            s == buf@,
            num_records == be_u32(s, start + 6),
            k <= num_records,
            sp.pos() == start + 10 + 11 * k,
            records@.len() == k,
            forall|i: int|
                0 <= i < k ==> #[trigger] record14_fits(s, start as int, start + 10 + 11 * i),
            forall|i: int|
                0 <= i < k ==> #[trigger] record14_parsed(
                    records@[i],
                    s,
                    start as int,
                    start + 10 + 11 * i,
                ),
        decreases num_records - k,
    {
        let ghost pos = sp.pos();
        let var_selector = sp.u24()?;
        let default_uvs_offset = sp.u32()?;
        let non_default_uvs_offset = sp.u32()?;
        proof {
            assert(format14_fits(s, start as int) ==> record14_fits(s, start as int, pos));
        }
        let default_uvs = if default_uvs_offset != 0 {
            let at = uvs_start(start, default_uvs_offset, buf.len())?;
            parse_default_uvs(buf, at)?
        } else {
            Vec::new()
        };
        let non_default_uvs = if non_default_uvs_offset != 0 {
            let at = uvs_start(start, non_default_uvs_offset, buf.len())?;
            parse_non_default_uvs(buf, at)?
        } else {
            Vec::new()
        };
        let rec = VariationSelectorRecord { var_selector, default_uvs, non_default_uvs };
        proof {
            assert(record14_fits(s, start as int, pos));
            assert(record14_parsed(rec, s, start as int, pos));
        }
        let ghost before = records@;
        records.push(rec);
        proof {
            assert forall|i: int| 0 <= i < k + 1 implies #[trigger] record14_parsed(
                records@[i],
                s,
                start as int,
                start + 10 + 11 * i,
            ) by {
                if i < k {
                    assert(records@[i] == before[i]);
                }
            }
        }
        k += 1;
    }
    Ok(CmapSubtable::Format14 { records })
}

} // verus!
