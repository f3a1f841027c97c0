//! Reverse lookup inverts forward lookup: every code point that
//! `codepoints_for_glyph` finds is one that `map` sends to the glyph.
use vstd::prelude::*;
use crate::tables::cmap::{
    byte_matches, code_range, format12_lookup, format12_matches, format13_lookup, format13_matches,
    format4_lookup, format4_matches, glyph_ids_fit, group12_match, lemma_subtable_lookup_reversed,
    segment_matches, subtable_lookup, subtable_matches_glyph, trimmed_lookup, unit_matches, wrap16,
    wrap32, CmapSubtable, ConstantMapGroup, Format4Segment, SequentialMapGroup,
};

verus! {

/// The code point ranges `[a_lo, a_hi]` and `[b_lo, b_hi]` share no point.
pub open spec fn ranges_apart(a_lo: int, a_hi: int, b_lo: int, b_hi: int) -> bool {
    a_hi < b_lo || b_hi < a_lo || a_hi < a_lo || b_hi < b_lo
}

/// No code point lies in two segments.
pub open spec fn segments_apart(segs: Seq<Format4Segment>) -> bool {
    forall|i: int, j: int|
        0 <= i < j < segs.len() ==> ranges_apart(
            (#[trigger] segs[i]).start_code as int,
            segs[i].end_code as int,
            (#[trigger] segs[j]).start_code as int,
            segs[j].end_code as int,
        )
}

/// No code point lies in two sequential groups.
pub open spec fn groups12_apart(g: Seq<SequentialMapGroup>) -> bool {
    forall|i: int, j: int|
        0 <= i < j < g.len() ==> ranges_apart(
            (#[trigger] g[i]).start_char_code as int,
            g[i].end_char_code as int,
            (#[trigger] g[j]).start_char_code as int,
            g[j].end_char_code as int,
        )
}

/// No code point lies in two constant groups.
pub open spec fn groups13_apart(g: Seq<ConstantMapGroup>) -> bool {
    forall|i: int, j: int|
        0 <= i < j < g.len() ==> ranges_apart(
            (#[trigger] g[i]).start_char_code as int,
            g[i].end_char_code as int,
            (#[trigger] g[j]).start_char_code as int,
            g[j].end_char_code as int,
        )
}

/// What reverse lookup of `g` needs to find only code points that map to
/// `g`: a format 0 glyph that fits the byte it is compared as; ranges that
/// do not overlap; sequential groups whose glyphs run forward without
/// wrapping; and trimmed arrays whose code points do not wrap.
pub open spec fn reverse_lookup_exact(st: CmapSubtable, g: u16) -> bool {
    match st {
        CmapSubtable::Format0 { .. } => g < 256,
        CmapSubtable::Format4 { segments, .. } => segments_apart(segments@),
        CmapSubtable::Format12 { groups, .. } => {
            &&& groups12_apart(groups@)
            &&& forall|i: int|
                0 <= i < groups@.len() ==> (#[trigger] groups@[i]).start_char_code
                    <= groups@[i].end_char_code
        },
        CmapSubtable::Format6 { first_code, glyph_id_array, .. } => first_code
            + glyph_id_array@.len() <= 0x1_0000_0000,
        CmapSubtable::Format10 { start_char_code, glyph_id_array, .. } => start_char_code
            + glyph_id_array@.len() <= 0x1_0000_0000,
        CmapSubtable::Format13 { groups, .. } => groups13_apart(groups@),
        CmapSubtable::Format14 { .. } => true,
    }
}

proof fn lemma_contains_split<A>(a: Seq<A>, b: Seq<A>, x: A)
    requires
        (a + b).contains(x),
    ensures
        a.contains(x) || b.contains(x),
{
    let w = choose|w: int| 0 <= w < (a + b).len() && (a + b)[w] == x;
    if w < a.len() {
        assert(a[w] == x);
    } else {
        assert(b[w - a.len()] == x);
    }
}

proof fn lemma_push_contains<A>(a: Seq<A>, y: A, x: A)
    requires
        a.push(y).contains(x),
    ensures
        a.contains(x) || x == y,
{
    let w = choose|w: int| 0 <= w < a.push(y).len() && a.push(y)[w] == x;
    if w < a.len() {
        assert(a[w] == x);
    }
}

proof fn lemma_byte_matches_found(a: Seq<u8>, v: u8, k: int, cp: u32)
    requires
        k <= 256,
        byte_matches(a, v, k).contains(cp),
    ensures
        0 <= cp < k,
        a[cp as int] == v,
    decreases k,
{
    if k <= 0 {
        assert(byte_matches(a, v, k).len() == 0);
    } else if a[k - 1] == v {
        lemma_push_contains(byte_matches(a, v, k - 1), (k - 1) as u32, cp);
        if cp != (k - 1) as u32 {
            lemma_byte_matches_found(a, v, k - 1, cp);
        }
    } else {
        lemma_byte_matches_found(a, v, k - 1, cp);
    }
}

proof fn lemma_unit_matches_found(a: Seq<u16>, v: u16, base: int, k: int, cp: u32) -> (i: int)
    requires
        unit_matches(a, v, base, k).contains(cp),
    ensures
        0 <= i < k,
        a[i] == v,
        cp == wrap32(base + i),
    decreases k,
{
    if k <= 0 {
        assert(unit_matches(a, v, base, k).len() == 0);
        0
    } else if a[k - 1] == v {
        lemma_push_contains(unit_matches(a, v, base, k - 1), wrap32(base + k - 1), cp);
        if cp == wrap32(base + k - 1) {
            k - 1
        } else {
            lemma_unit_matches_found(a, v, base, k - 1, cp)
        }
    } else {
        lemma_unit_matches_found(a, v, base, k - 1, cp)
    }
}

proof fn lemma_segment_matches_found(seg: Format4Segment, g: u16, c: int, cp: u32)
    requires
        c <= 0x10000,
        segment_matches(seg, g, c).contains(cp),
    ensures
        seg.start_code <= cp < c,
        wrap16(cp + seg.id_delta) == g,
    decreases c - seg.start_code,
{
    if c <= seg.start_code {
        assert(segment_matches(seg, g, c).len() == 0);
    } else if wrap16(c - 1 + seg.id_delta) == g {
        lemma_push_contains(segment_matches(seg, g, c - 1), (c - 1) as u32, cp);
        if cp != (c - 1) as u32 {
            lemma_segment_matches_found(seg, g, c - 1, cp);
        }
    } else {
        lemma_segment_matches_found(seg, g, c - 1, cp);
    }
}

proof fn lemma_format4_matches_found(segs: Seq<Format4Segment>, g: u16, k: int, cp: u32) -> (j: int)
    requires
        k <= segs.len(),
        format4_matches(segs, g, k).contains(cp),
    ensures
        0 <= j < k,
        segs[j].id_range_offset == 0,
        segs[j].start_code <= cp <= segs[j].end_code,
        wrap16(cp + segs[j].id_delta) == g,
    decreases k,
{
    if k <= 0 {
        assert(format4_matches(segs, g, k).len() == 0);
        0
    } else {
        let seg = segs[k - 1];
        let tail = if seg.id_range_offset == 0 {
            segment_matches(seg, g, seg.end_code + 1)
        } else {
            Seq::empty()
        };
        lemma_contains_split(format4_matches(segs, g, k - 1), tail, cp);
        if format4_matches(segs, g, k - 1).contains(cp) {
            lemma_format4_matches_found(segs, g, k - 1, cp)
        } else {
            if seg.id_range_offset != 0 {
                assert(tail.len() == 0);
            }
            lemma_segment_matches_found(seg, g, seg.end_code + 1, cp);
            k - 1
        }
    }
}

proof fn lemma_format4_lookup_at(segs: Seq<Format4Segment>, j: int, cp: int)
    requires
        segments_apart(segs),
        0 <= j < segs.len(),
        segs[j].id_range_offset == 0,
        segs[j].start_code <= cp <= segs[j].end_code,
    ensures
        format4_lookup(segs, cp) == Some(wrap16(cp + segs[j].id_delta)),
    decreases segs.len(),
{
    if j > 0 {
        let rest = segs.drop_first();
        assert(ranges_apart(
            segs[0].start_code as int,
            segs[0].end_code as int,
            segs[j].start_code as int,
            segs[j].end_code as int,
        ));
        assert forall|a: int, b: int| 0 <= a < b < rest.len() implies ranges_apart(
            (#[trigger] rest[a]).start_code as int,
            rest[a].end_code as int,
            (#[trigger] rest[b]).start_code as int,
            rest[b].end_code as int,
        ) by {
            assert(rest[a] == segs[a + 1] && rest[b] == segs[b + 1]);
        }
        assert(rest[j - 1] == segs[j]);
        lemma_format4_lookup_at(rest, j - 1, cp);
    }
}

proof fn lemma_format12_matches_found(groups: Seq<SequentialMapGroup>, g: u16, k: int, cp: u32) -> (j: int)
    requires
        k <= groups.len(),
        format12_matches(groups, g, k).contains(cp),
    ensures
        0 <= j < k,
        group12_match(groups[j], g).contains(cp),
    decreases k,
{
    if k <= 0 {
        assert(format12_matches(groups, g, k).len() == 0);
        0
    } else {
        lemma_contains_split(format12_matches(groups, g, k - 1), group12_match(groups[k - 1], g), cp);
        if format12_matches(groups, g, k - 1).contains(cp) {
            lemma_format12_matches_found(groups, g, k - 1, cp)
        } else {
            k - 1
        }
    }
}

proof fn lemma_format12_lookup_at(groups: Seq<SequentialMapGroup>, j: int, cp: int)
    requires
        groups12_apart(groups),
        0 <= j < groups.len(),
        groups[j].start_char_code <= cp <= groups[j].end_char_code,
    ensures
        format12_lookup(groups, cp) == Some(
            wrap16(groups[j].start_glyph_id + (cp - groups[j].start_char_code)),
        ),
    decreases groups.len(),
{
    if j > 0 {
        let rest = groups.drop_first();
        assert(ranges_apart(
            groups[0].start_char_code as int,
            groups[0].end_char_code as int,
            groups[j].start_char_code as int,
            groups[j].end_char_code as int,
        ));
        assert forall|a: int, b: int| 0 <= a < b < rest.len() implies ranges_apart(
            (#[trigger] rest[a]).start_char_code as int,
            rest[a].end_char_code as int,
            (#[trigger] rest[b]).start_char_code as int,
            rest[b].end_char_code as int,
        ) by {
            assert(rest[a] == groups[a + 1] && rest[b] == groups[b + 1]);
        }
        assert(rest[j - 1] == groups[j]);
        lemma_format12_lookup_at(rest, j - 1, cp);
    }
}

proof fn lemma_format13_matches_found(groups: Seq<ConstantMapGroup>, g: u16, k: int, cp: u32) -> (j: int)
    requires
        k <= groups.len(),
        format13_matches(groups, g, k).contains(cp),
    ensures
        0 <= j < k,
        groups[j].glyph_id == g as u32,
        groups[j].start_char_code <= cp <= groups[j].end_char_code,
    decreases k,
{
    if k <= 0 {
        assert(format13_matches(groups, g, k).len() == 0);
        0
    } else {
        let grp = groups[k - 1];
        let tail = if grp.glyph_id == g as u32 {
            code_range(grp.start_char_code as int, grp.end_char_code + 1)
        } else {
            Seq::empty()
        };
        lemma_contains_split(format13_matches(groups, g, k - 1), tail, cp);
        if format13_matches(groups, g, k - 1).contains(cp) {
            lemma_format13_matches_found(groups, g, k - 1, cp)
        } else {
            if grp.glyph_id != g as u32 {
                assert(tail.len() == 0);
            }
            let w = choose|w: int| 0 <= w < tail.len() && tail[w] == cp;
            assert(tail[w] == (grp.start_char_code + w) as u32);
            k - 1
        }
    }
}

proof fn lemma_format13_lookup_at(groups: Seq<ConstantMapGroup>, j: int, cp: int)
    requires
        groups13_apart(groups),
        0 <= j < groups.len(),
        groups[j].start_char_code <= cp <= groups[j].end_char_code,
    ensures
        format13_lookup(groups, cp) == Some(wrap16(groups[j].glyph_id as int)),
    decreases groups.len(),
{
    if j > 0 {
        let rest = groups.drop_first();
        assert(ranges_apart(
            groups[0].start_char_code as int,
            groups[0].end_char_code as int,
            groups[j].start_char_code as int,
            groups[j].end_char_code as int,
        ));
        assert forall|a: int, b: int| 0 <= a < b < rest.len() implies ranges_apart(
            (#[trigger] rest[a]).start_char_code as int,
            rest[a].end_char_code as int,
            (#[trigger] rest[b]).start_char_code as int,
            rest[b].end_char_code as int,
        ) by {
            assert(rest[a] == groups[a + 1] && rest[b] == groups[b + 1]);
        }
        assert(rest[j - 1] == groups[j]);
        lemma_format13_lookup_at(rest, j - 1, cp);
    }
}

proof fn lemma_format12_maps_back(groups: Seq<SequentialMapGroup>, g: u16, cp: u32)
    requires
        groups12_apart(groups),
        forall|i: int|
            0 <= i < groups.len() ==> (#[trigger] groups[i]).start_char_code
                <= groups[i].end_char_code,
        forall|i: int|
            0 <= i < groups.len() && #[trigger] groups[i].start_char_code
                <= groups[i].end_char_code ==> groups[i].start_glyph_id + (
            groups[i].end_char_code - groups[i].start_char_code) <= 0xFFFF,
        format12_matches(groups, g, groups.len() as int).contains(cp),
    ensures
        format12_lookup(groups, cp as int) == Some(g),
{
    let j = lemma_format12_matches_found(groups, g, groups.len() as int, cp);
    let grp = groups[j];
    assert(grp.start_char_code <= grp.end_char_code);
    assert(grp.start_glyph_id + (grp.end_char_code - grp.start_char_code) <= 0xFFFF);
    assert(wrap32(grp.end_char_code - grp.start_char_code) == grp.end_char_code
        - grp.start_char_code);
    assert(wrap32(grp.start_glyph_id + (grp.end_char_code - grp.start_char_code))
        == grp.start_glyph_id + (grp.end_char_code - grp.start_char_code));
    assert(grp.start_glyph_id <= g);
    assert(cp == grp.start_char_code + (g - grp.start_glyph_id));
    lemma_format12_lookup_at(groups, j, cp as int);
}

proof fn lemma_trimmed_maps_back(base: int, arr: Seq<u16>, g: u16, cp: u32)
    requires
        0 <= base,
        base + arr.len() <= 0x1_0000_0000,
        unit_matches(arr, g, base, arr.len() as int).contains(cp),
    ensures
        trimmed_lookup(base, arr, cp as int) == Some(g),
{
    let i = lemma_unit_matches_found(arr, g, base, arr.len() as int, cp);
    assert(cp == base + i);
}

/// Every code point that reverse lookup finds for `g` maps to `g`.
proof fn lemma_reverse_lookup_maps_back(st: CmapSubtable, g: u16, cp: u32)
    requires
        glyph_ids_fit(st),
        reverse_lookup_exact(st, g),
        subtable_matches_glyph(st, g).contains(cp),
    ensures
        subtable_lookup(st, cp) == Some(g),
{
    match st {
        CmapSubtable::Format0 { glyph_id_array, .. } => {
            lemma_byte_matches_found(glyph_id_array@, g as u8, 256, cp);
        },
        CmapSubtable::Format4 { segments, .. } => {
            let j = lemma_format4_matches_found(segments@, g, segments@.len() as int, cp);
            lemma_format4_lookup_at(segments@, j, cp as int);
        },
        CmapSubtable::Format12 { groups, .. } => {
            lemma_format12_maps_back(groups@, g, cp);
        },
        CmapSubtable::Format6 { first_code, glyph_id_array, .. } => {
            lemma_trimmed_maps_back(first_code as int, glyph_id_array@, g, cp);
        },
        CmapSubtable::Format10 { start_char_code, glyph_id_array, .. } => {
            lemma_trimmed_maps_back(start_char_code as int, glyph_id_array@, g, cp);
        },
        CmapSubtable::Format13 { groups, .. } => {
            let j = lemma_format13_matches_found(groups@, g, groups@.len() as int, cp);
            lemma_format13_lookup_at(groups@, j, cp as int);
        },
        CmapSubtable::Format14 { .. } => {},
    }
}

proof fn lemma_push_distinct<A>(a: Seq<A>, y: A)
    requires
        a.no_duplicates(),
        !a.contains(y),
    ensures
        a.push(y).no_duplicates(),
{
    assert forall|i: int, j: int|
        0 <= i < a.push(y).len() && 0 <= j < a.push(y).len() && i != j implies a.push(y)[i]
        != a.push(y)[j] by {
        if i < a.len() && j == a.len() {
            assert(a[i] == a.push(y)[i]);
        } else if j < a.len() && i == a.len() {
            assert(a[j] == a.push(y)[j]);
        }
    }
}

proof fn lemma_concat_distinct<A>(a: Seq<A>, b: Seq<A>)
    requires
        a.no_duplicates(),
        b.no_duplicates(),
        forall|x: A| a.contains(x) ==> !b.contains(x),
    ensures
        (a + b).no_duplicates(),
{
    assert forall|i: int, j: int|
        0 <= i < (a + b).len() && 0 <= j < (a + b).len() && i != j implies (a + b)[i] != (a
        + b)[j] by {
        if i < a.len() && j >= a.len() {
            assert(a.contains(a[i]));
            assert(b[j - a.len()] == (a + b)[j]);
        } else if j < a.len() && i >= a.len() {
            assert(a.contains(a[j]));
            assert(b[i - a.len()] == (a + b)[i]);
        } else if i >= a.len() && j >= a.len() {
            assert(b[i - a.len()] != b[j - a.len()]);
        }
    }
}

proof fn lemma_byte_matches_distinct(a: Seq<u8>, v: u8, k: int)
    requires
        k <= 256,
    ensures
        byte_matches(a, v, k).no_duplicates(),
    decreases k,
{
    if k > 0 {
        lemma_byte_matches_distinct(a, v, k - 1);
        if a[k - 1] == v {
            if byte_matches(a, v, k - 1).contains((k - 1) as u32) {
                lemma_byte_matches_found(a, v, k - 1, (k - 1) as u32);
            }
            lemma_push_distinct(byte_matches(a, v, k - 1), (k - 1) as u32);
        }
    }
}

proof fn lemma_unit_matches_distinct(a: Seq<u16>, v: u16, base: int, k: int)
    requires
        0 <= base,
        base + k <= 0x1_0000_0000,
    ensures
        unit_matches(a, v, base, k).no_duplicates(),
    decreases k,
{
    if k > 0 {
        lemma_unit_matches_distinct(a, v, base, k - 1);
        if a[k - 1] == v {
            if unit_matches(a, v, base, k - 1).contains(wrap32(base + k - 1)) {
                let i = lemma_unit_matches_found(a, v, base, k - 1, wrap32(base + k - 1));
                assert(wrap32(base + i) == base + i);
            }
            lemma_push_distinct(unit_matches(a, v, base, k - 1), wrap32(base + k - 1));
        }
    }
}

proof fn lemma_segment_matches_distinct(seg: Format4Segment, g: u16, c: int)
    requires
        c <= 0x10000,
    ensures
        segment_matches(seg, g, c).no_duplicates(),
    decreases c - seg.start_code,
{
    if c > seg.start_code {
        lemma_segment_matches_distinct(seg, g, c - 1);
        if wrap16(c - 1 + seg.id_delta) == g {
            if segment_matches(seg, g, c - 1).contains((c - 1) as u32) {
                lemma_segment_matches_found(seg, g, c - 1, (c - 1) as u32);
            }
            lemma_push_distinct(segment_matches(seg, g, c - 1), (c - 1) as u32);
        }
    }
}

proof fn lemma_format4_matches_distinct(segs: Seq<Format4Segment>, g: u16, k: int)
    requires
        segments_apart(segs),
        k <= segs.len(),
    ensures
        format4_matches(segs, g, k).no_duplicates(),
    decreases k,
{
    if k > 0 {
        let seg = segs[k - 1];
        let prev = format4_matches(segs, g, k - 1);
        let tail = if seg.id_range_offset == 0 {
            segment_matches(seg, g, seg.end_code + 1)
        } else {
            Seq::empty()
        };
        lemma_format4_matches_distinct(segs, g, k - 1);
        lemma_segment_matches_distinct(seg, g, seg.end_code + 1);
        assert forall|x: u32| prev.contains(x) implies !tail.contains(x) by {
            let j = lemma_format4_matches_found(segs, g, k - 1, x);
            if tail.contains(x) {
                lemma_segment_matches_found(seg, g, seg.end_code + 1, x);
                assert(ranges_apart(
                    segs[j].start_code as int,
                    segs[j].end_code as int,
                    segs[k - 1].start_code as int,
                    segs[k - 1].end_code as int,
                ));
            }
        }
        lemma_concat_distinct(prev, tail);
    }
}

/// The code point a well-formed sequential group gives `g` lies in the group.
proof fn lemma_group12_match_in(grp: SequentialMapGroup, g: u16, cp: u32)
    requires
        grp.start_char_code <= grp.end_char_code,
        grp.start_glyph_id + (grp.end_char_code - grp.start_char_code) <= 0xFFFF,
        group12_match(grp, g).contains(cp),
    ensures
        grp.start_char_code <= cp <= grp.end_char_code,
{
    assert(wrap32(grp.end_char_code - grp.start_char_code) == grp.end_char_code
        - grp.start_char_code);
    assert(wrap32(grp.start_glyph_id + (grp.end_char_code - grp.start_char_code))
        == grp.start_glyph_id + (grp.end_char_code - grp.start_char_code));
    assert(group12_match(grp, g).len() == 1);
    assert(cp == group12_match(grp, g)[0]);
}

proof fn lemma_format12_matches_distinct(groups: Seq<SequentialMapGroup>, g: u16, k: int)
    requires
        groups12_apart(groups),
        forall|i: int|
            0 <= i < groups.len() ==> (#[trigger] groups[i]).start_char_code
                <= groups[i].end_char_code,
        forall|i: int|
            0 <= i < groups.len() && #[trigger] groups[i].start_char_code
                <= groups[i].end_char_code ==> groups[i].start_glyph_id + (
            groups[i].end_char_code - groups[i].start_char_code) <= 0xFFFF,
        k <= groups.len(),
    ensures
        format12_matches(groups, g, k).no_duplicates(),
    decreases k,
{
    if k > 0 {
        let prev = format12_matches(groups, g, k - 1);
        let tail = group12_match(groups[k - 1], g);
        lemma_format12_matches_distinct(groups, g, k - 1);
        assert(tail.no_duplicates());
        assert forall|x: u32| prev.contains(x) implies !tail.contains(x) by {
            let j = lemma_format12_matches_found(groups, g, k - 1, x);
            if tail.contains(x) {
                assert(groups[j].start_char_code <= groups[j].end_char_code);
                assert(groups[k - 1].start_char_code <= groups[k - 1].end_char_code);
                lemma_group12_match_in(groups[j], g, x);
                lemma_group12_match_in(groups[k - 1], g, x);
                assert(ranges_apart(
                    groups[j].start_char_code as int,
                    groups[j].end_char_code as int,
                    groups[k - 1].start_char_code as int,
                    groups[k - 1].end_char_code as int,
                ));
            }
        }
        lemma_concat_distinct(prev, tail);
    }
}

proof fn lemma_format13_matches_distinct(groups: Seq<ConstantMapGroup>, g: u16, k: int)
    requires
        groups13_apart(groups),
        k <= groups.len(),
    ensures
        format13_matches(groups, g, k).no_duplicates(),
    decreases k,
{
    if k > 0 {
        let grp = groups[k - 1];
        let prev = format13_matches(groups, g, k - 1);
        let tail = if grp.glyph_id == g as u32 {
            code_range(grp.start_char_code as int, grp.end_char_code + 1)
        } else {
            Seq::empty()
        };
        lemma_format13_matches_distinct(groups, g, k - 1);
        assert forall|i: int, j: int|
            0 <= i < tail.len() && 0 <= j < tail.len() && i != j implies tail[i] != tail[j] by {
            assert(tail[i] == (grp.start_char_code + i) as u32);
            assert(tail[j] == (grp.start_char_code + j) as u32);
        }
        assert forall|x: u32| prev.contains(x) implies !tail.contains(x) by {
            let j = lemma_format13_matches_found(groups, g, k - 1, x);
            if tail.contains(x) {
                let w = choose|w: int| 0 <= w < tail.len() && tail[w] == x;
                assert(tail[w] == (grp.start_char_code + w) as u32);
                assert(ranges_apart(
                    groups[j].start_char_code as int,
                    groups[j].end_char_code as int,
                    groups[k - 1].start_char_code as int,
                    groups[k - 1].end_char_code as int,
                ));
            }
        }
        lemma_concat_distinct(prev, tail);
    }
}

/// Reverse lookup lists each code point once.
proof fn lemma_reverse_lookup_distinct(st: CmapSubtable, g: u16)
    requires
        glyph_ids_fit(st),
        reverse_lookup_exact(st, g),
    ensures
        subtable_matches_glyph(st, g).no_duplicates(),
{
    match st {
        CmapSubtable::Format0 { glyph_id_array, .. } => {
            lemma_byte_matches_distinct(glyph_id_array@, g as u8, 256);
        },
        CmapSubtable::Format4 { segments, .. } => {
            lemma_format4_matches_distinct(segments@, g, segments@.len() as int);
        },
        CmapSubtable::Format12 { groups, .. } => {
            lemma_format12_matches_distinct(groups@, g, groups@.len() as int);
        },
        CmapSubtable::Format6 { first_code, glyph_id_array, .. } => {
            lemma_unit_matches_distinct(
                glyph_id_array@,
                g,
                first_code as int,
                glyph_id_array@.len() as int,
            );
        },
        CmapSubtable::Format10 { start_char_code, glyph_id_array, .. } => {
            lemma_unit_matches_distinct(
                glyph_id_array@,
                g,
                start_char_code as int,
                glyph_id_array@.len() as int,
            );
        },
        CmapSubtable::Format13 { groups, .. } => {
            lemma_format13_matches_distinct(groups@, g, groups@.len() as int);
        },
        CmapSubtable::Format14 { .. } => {},
    }
}

/// Reverse lookup is the exact inverse of forward lookup: a code point is
/// among those `codepoints_for_glyph` finds for `g` exactly when `map`
/// sends it to `g`, and none is listed twice.
pub proof fn lemma_reverse_lookup_exact(st: CmapSubtable, g: u16)
    requires
        glyph_ids_fit(st),
        reverse_lookup_exact(st, g),
    ensures
        forall|cp: u32|
            #[trigger] subtable_matches_glyph(st, g).contains(cp) <==> subtable_lookup(st, cp)
                == Some(g),
        subtable_matches_glyph(st, g).no_duplicates(),
{
    lemma_reverse_lookup_distinct(st, g);
    assert forall|cp: u32| #[trigger] subtable_matches_glyph(st, g).contains(cp) <==> subtable_lookup(
        st,
        cp,
    ) == Some(g) by {
        if subtable_matches_glyph(st, g).contains(cp) {
            lemma_reverse_lookup_maps_back(st, g, cp);
        }
        if subtable_lookup(st, cp) == Some(g) {
            lemma_subtable_lookup_reversed(st, cp, g);
        }
    }
}

} // verus!
