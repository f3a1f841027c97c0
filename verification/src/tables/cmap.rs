//! `cmap`: the mapping from character codes to glyphs.
use vstd::prelude::*;
use crate::codec::{be_u16, be_u32, u16_bytes, u32_bytes};
use crate::error::{FontError, Tag};
use crate::tables::cmap_read::{parse_subtable, subtable_fits, subtable_parsed, supported_format};
use crate::tables::cmap_write::{encode_subtable, padded_subtable, subtable_writable};
use crate::parse::Parser;
use crate::tables::Table;
use crate::write::Writer;

verus! {

#[derive(Debug, Clone, PartialEq)]
pub struct Cmap {
    pub version: u16,
    pub num_tables: u16,
    pub records: Vec<EncodingRecord>,
    pub subtables: Vec<CmapSubtable>,
}

#[derive(Debug, Clone, Copy, PartialEq, Eq, Structural)]
pub struct EncodingRecord {
    pub platform_id: u16,
    pub encoding_id: u16,
    pub subtable_offset: u32,
}

#[derive(Debug, Clone, PartialEq)]
pub enum CmapSubtable {
    Format0 { language: u16, glyph_id_array: [u8; 256] },
    Format4 { language: u16, segments: Vec<Format4Segment> },
    Format12 { language: u32, groups: Vec<SequentialMapGroup> },
    Format6 { language: u16, first_code: u16, glyph_id_array: Vec<u16> },
    Format10 { language: u32, start_char_code: u32, glyph_id_array: Vec<u16> },
    Format13 { language: u32, groups: Vec<ConstantMapGroup> },
    Format14 { records: Vec<VariationSelectorRecord> },
}

#[derive(Debug, Clone, Copy, PartialEq, Eq, Structural)]
pub struct Format4Segment {
    pub end_code: u16,
    pub start_code: u16,
    pub id_delta: i16,
    pub id_range_offset: u16,
}

#[derive(Debug, Clone, Copy, PartialEq, Eq, Structural)]
pub struct SequentialMapGroup {
    pub start_char_code: u32,
    pub end_char_code: u32,
    pub start_glyph_id: u32,
}

#[derive(Debug, Clone, Copy, PartialEq, Eq, Structural)]
pub struct ConstantMapGroup {
    pub start_char_code: u32,
    pub end_char_code: u32,
    pub glyph_id: u32,
}

#[derive(Debug, Clone, PartialEq)]
pub struct VariationSelectorRecord {
    pub var_selector: u32,
    pub default_uvs: Vec<UnicodeRange>,
    pub non_default_uvs: Vec<NonDefaultUvMapping>,
}

#[derive(Debug, Clone, Copy, PartialEq, Eq, Structural)]
pub struct UnicodeRange {
    pub start_unicode_value: u32,
    pub additional_count: u8,
}

#[derive(Debug, Clone, Copy, PartialEq, Eq, Structural)]
pub struct NonDefaultUvMapping {
    pub unicode_value: u32,
    pub glyph_id: u16,
}

/// `x` reduced to 16 bits, as unsigned arithmetic wraps.
pub open spec fn wrap16(x: int) -> u16 {
    (x % 0x10000) as u16
}

/// `x` reduced to 32 bits, as unsigned arithmetic wraps.
pub open spec fn wrap32(x: int) -> u32 {
    (x % 0x1_0000_0000) as u32
}

/// Format 4: the first segment that holds `cp` and maps it by delta (a
/// segment that uses the glyph index array maps nothing here).
pub open spec fn format4_lookup(segs: Seq<Format4Segment>, cp: int) -> Option<u16>
    decreases segs.len(),
{
    if segs.len() == 0 {
        None
    } else if segs[0].start_code <= cp <= segs[0].end_code && segs[0].id_range_offset == 0 {
        Some(wrap16(cp + segs[0].id_delta))
    } else {
        format4_lookup(segs.drop_first(), cp)
    }
}

/// Format 12: the first group that holds `cp`, counting glyphs up from its
/// start glyph.
pub open spec fn format12_lookup(groups: Seq<SequentialMapGroup>, cp: int) -> Option<u16>
    decreases groups.len(),
{
    if groups.len() == 0 {
        None
    } else if groups[0].start_char_code <= cp <= groups[0].end_char_code {
        Some(wrap16(groups[0].start_glyph_id + (cp - groups[0].start_char_code)))
    } else {
        format12_lookup(groups.drop_first(), cp)
    }
}

/// Format 13: the glyph of the first group that holds `cp`.
pub open spec fn format13_lookup(groups: Seq<ConstantMapGroup>, cp: int) -> Option<u16>
    decreases groups.len(),
{
    if groups.len() == 0 {
        None
    } else if groups[0].start_char_code <= cp <= groups[0].end_char_code {
        Some(wrap16(groups[0].glyph_id as int))
    } else {
        format13_lookup(groups.drop_first(), cp)
    }
}

/// The entry of a trimmed array for `cp`, if `cp` falls inside it.
pub open spec fn trimmed_lookup(first: int, glyphs: Seq<u16>, cp: int) -> Option<u16> {
    if first <= cp && cp - first < glyphs.len() {
        Some(glyphs[cp - first])
    } else {
        None
    }
}

/// The glyph that one subtable gives a code point.
pub open spec fn subtable_lookup(st: CmapSubtable, cp: u32) -> Option<u16> {
    match st {
        CmapSubtable::Format0 { glyph_id_array, .. } => if cp < 256 {
            Some(glyph_id_array@[cp as int] as u16)
        } else {
            None
        },
        CmapSubtable::Format4 { segments, .. } => if cp > 0xFFFF {
            None
        } else {
            format4_lookup(segments@, cp as int)
        },
        CmapSubtable::Format12 { groups, .. } => format12_lookup(groups@, cp as int),
        CmapSubtable::Format6 { first_code, glyph_id_array, .. } => trimmed_lookup(
            first_code as int,
            glyph_id_array@,
            cp as int,
        ),
        CmapSubtable::Format10 { start_char_code, glyph_id_array, .. } => trimmed_lookup(
            start_char_code as int,
            glyph_id_array@,
            cp as int,
        ),
        CmapSubtable::Format13 { groups, .. } => format13_lookup(groups@, cp as int),
        CmapSubtable::Format14 { .. } => None,
    }
}

/// The glyph of the first subtable, in order, that maps the code point.
pub open spec fn cmap_lookup(subs: Seq<CmapSubtable>, cp: u32) -> Option<u16>
    decreases subs.len(),
{
    if subs.len() == 0 {
        None
    } else {
        match subtable_lookup(subs[0], cp) {
            Some(g) => Some(g),
            None => cmap_lookup(subs.drop_first(), cp),
        }
    }
}

/// The indices below `k` whose byte is `v`, in order.
pub open spec fn byte_matches(a: Seq<u8>, v: u8, k: int) -> Seq<u32>
    decreases k,
{
    if k <= 0 {
        Seq::empty()
    } else if a[k - 1] == v {
        byte_matches(a, v, k - 1).push((k - 1) as u32)
    } else {
        byte_matches(a, v, k - 1)
    }
}

/// `base + i` (wrapped to 32 bits) for the indices `i` below `k` whose unit
/// is `v`, in order.
pub open spec fn unit_matches(a: Seq<u16>, v: u16, base: int, k: int) -> Seq<u32>
    decreases k,
{
    if k <= 0 {
        Seq::empty()
    } else if a[k - 1] == v {
        unit_matches(a, v, base, k - 1).push(wrap32(base + k - 1))
    } else {
        unit_matches(a, v, base, k - 1)
    }
}

/// The code points from the segment's start up to (not including) `c`
/// that the segment's delta sends to `g`.
pub open spec fn segment_matches(seg: Format4Segment, g: u16, c: int) -> Seq<u32>
    decreases c - seg.start_code,
{
    if c <= seg.start_code {
        Seq::empty()
    } else if wrap16(c - 1 + seg.id_delta) == g {
        segment_matches(seg, g, c - 1).push((c - 1) as u32)
    } else {
        segment_matches(seg, g, c - 1)
    }
}

/// The code points of the first `k` segments that map to `g` by delta.
pub open spec fn format4_matches(segs: Seq<Format4Segment>, g: u16, k: int) -> Seq<u32>
    decreases k,
{
    if k <= 0 {
        Seq::empty()
    } else {
        let seg = segs[k - 1];
        format4_matches(segs, g, k - 1) + if seg.id_range_offset == 0 {
            segment_matches(seg, g, seg.end_code + 1)
        } else {
            Seq::empty()
        }
    }
}

/// The code point that a sequential group gives `g`, if any, reckoned
/// with 32-bit wrapping arithmetic.
pub open spec fn group12_match(grp: SequentialMapGroup, g: u16) -> Seq<u32> {
    let span = wrap32(grp.end_char_code - grp.start_char_code);
    let last_glyph = wrap32(grp.start_glyph_id + span);
    if grp.start_glyph_id <= g && g <= last_glyph {
        seq![wrap32(grp.start_char_code + (g - grp.start_glyph_id))]
    } else {
        Seq::empty()
    }
}

pub open spec fn format12_matches(groups: Seq<SequentialMapGroup>, g: u16, k: int) -> Seq<u32>
    decreases k,
{
    if k <= 0 {
        Seq::empty()
    } else {
        format12_matches(groups, g, k - 1) + group12_match(groups[k - 1], g)
    }
}

/// The code points `lo`, `lo + 1`, ..., below `hi`.
pub open spec fn code_range(lo: int, hi: int) -> Seq<u32> {
    Seq::new(if hi >= lo { (hi - lo) as nat } else { 0 }, |i: int| (lo + i) as u32)
}

pub open spec fn format13_matches(groups: Seq<ConstantMapGroup>, g: u16, k: int) -> Seq<u32>
    decreases k,
{
    if k <= 0 {
        Seq::empty()
    } else {
        let grp = groups[k - 1];
        format13_matches(groups, g, k - 1) + if grp.glyph_id == g as u32 {
            code_range(grp.start_char_code as int, grp.end_char_code + 1)
        } else {
            Seq::empty()
        }
    }
}

/// The code points that one subtable maps to `g`, in the order the
/// subtable lists them.
pub open spec fn subtable_matches_glyph(st: CmapSubtable, g: u16) -> Seq<u32> {
    match st {
        CmapSubtable::Format0 { glyph_id_array, .. } => byte_matches(
            glyph_id_array@,
            g as u8,
            256,
        ),
        CmapSubtable::Format4 { segments, .. } => format4_matches(
            segments@,
            g,
            segments@.len() as int,
        ),
        CmapSubtable::Format12 { groups, .. } => format12_matches(
            groups@,
            g,
            groups@.len() as int,
        ),
        CmapSubtable::Format6 { first_code, glyph_id_array, .. } => unit_matches(
            glyph_id_array@,
            g,
            first_code as int,
            glyph_id_array@.len() as int,
        ),
        CmapSubtable::Format10 { start_char_code, glyph_id_array, .. } => unit_matches(
            glyph_id_array@,
            g,
            start_char_code as int,
            glyph_id_array@.len() as int,
        ),
        CmapSubtable::Format13 { groups, .. } => format13_matches(
            groups@,
            g,
            groups@.len() as int,
        ),
        CmapSubtable::Format14 { .. } => Seq::empty(),
    }
}

/// The code points that the first `k` subtables map to `g`.
pub open spec fn all_matches(subs: Seq<CmapSubtable>, g: u16, k: int) -> Seq<u32>
    decreases k,
{
    if k <= 0 {
        Seq::empty()
    } else {
        all_matches(subs, g, k - 1) + subtable_matches_glyph(subs[k - 1], g)
    }
}

pub open spec fn strictly_increasing(s: Seq<u32>) -> bool {
    forall|i: int, j: int| 0 <= i < j < s.len() ==> s[i] < s[j]
}

impl Cmap {
    /// The glyph of the first subtable that maps the code point.
    pub fn map_codepoint(&self, codepoint: u32) -> (r: Option<u16>)
        ensures
            r == cmap_lookup(self.subtables@, codepoint),
    {
        let n = self.subtables.len();
        let mut i: usize = 0;
        proof {
            assert(self.subtables@.subrange(0, n as int) =~= self.subtables@);
        }
        while i < n
            invariant
                n == self.subtables@.len(),
                i <= n,
                cmap_lookup(self.subtables@, codepoint) == cmap_lookup(
                    self.subtables@.subrange(i as int, n as int),
                    codepoint,
                ),
            decreases n - i,
        {
            proof {
                let rest = self.subtables@.subrange(i as int, n as int);
                assert(rest[0] == self.subtables@[i as int]);
                assert(rest.drop_first() =~= self.subtables@.subrange(i + 1, n as int));
            }
            if let Some(gid) = self.subtables[i].map(codepoint) {
                return Some(gid);
            }
            i += 1;
        }
        None
    }

    /// Every code point that some subtable maps to the glyph, in increasing
    /// order, each once.
    pub fn glyph_codepoints(&self, glyph_id: u16) -> (cps: Vec<u32>)
        ensures
            strictly_increasing(cps@),
            forall|c: u32|
                cps@.contains(c) <==> all_matches(
                    self.subtables@,
                    glyph_id,
                    self.subtables@.len() as int,
                ).contains(c),
    {
        let n = self.subtables.len();
        let mut cps: Vec<u32> = Vec::new();
        let mut i: usize = 0;
        while i < n
            invariant
                n == self.subtables@.len(),
                i <= n,
                strictly_increasing(cps@),
                forall|c: u32|
                    cps@.contains(c) <==> all_matches(
                        self.subtables@,
                        glyph_id,
                        i as int,
                    ).contains(c),
            decreases n - i,
        {
            let found = self.subtables[i].codepoints_for_glyph(glyph_id);
            let ghost before = all_matches(self.subtables@, glyph_id, i as int);
            let m = found.len();
            let mut j: usize = 0;
            while j < m
                invariant
                    m == found@.len(),
                    j <= m,
                    strictly_increasing(cps@),
                    forall|c: u32|
                        cps@.contains(c) <==> (before.contains(c) || found@.subrange(
                            0,
                            j as int,
                        ).contains(c)),
                decreases m - j,
            {
                let ghost prev = cps@;
                insert_sorted(&mut cps, found[j]);
                proof {
                    assert forall|c: u32|
                        #![trigger cps@.contains(c)]
                        cps@.contains(c) <==> (before.contains(c) || found@.subrange(
                            0,
                            j + 1,
                        ).contains(c)) by {
                        let pre = found@.subrange(0, j as int);
                        let post = found@.subrange(0, j + 1);
                        assert(post =~= pre.push(found@[j as int]));
                        assert(prev.contains(c) <==> (before.contains(c) || pre.contains(c)));
                        assert(cps@.contains(c) <==> (prev.contains(c) || c == found@[j as int]));
                        if pre.contains(c) {
                            let w = choose|w: int| 0 <= w < pre.len() && pre[w] == c;
                            assert(post[w] == c);
                        }
                        if post.contains(c) && c != found@[j as int] {
                            let w = choose|w: int| 0 <= w < post.len() && post[w] == c;
                            assert(pre[w] == c);
                        }
                        if c == found@[j as int] {
                            assert(post[j as int] == c);
                        }
                    }
                }
                j += 1;
            }
            proof {
                assert(found@.subrange(0, m as int) =~= found@);
                let next = all_matches(self.subtables@, glyph_id, i + 1);
                assert(next =~= before + found@);
                assert forall|c: u32| next.contains(c) <==> (before.contains(c) || found@.contains(c)) by {
                    if next.contains(c) {
                        let w = choose|w: int| 0 <= w < next.len() && next[w] == c;
                        if w < before.len() {
                            assert(before[w] == c);
                        } else {
                            assert(found@[w - before.len()] == c);
                        }
                    }
                    if before.contains(c) {
                        let w = choose|w: int| 0 <= w < before.len() && before[w] == c;
                        assert(next[w] == c);
                    }
                    if found@.contains(c) {
                        let w = choose|w: int| 0 <= w < found@.len() && found@[w] == c;
                        assert(next[before.len() + w] == c);
                    }
                }
                assert forall|c: u32|
                    #![trigger cps@.contains(c)]
                    cps@.contains(c) <==> next.contains(c) by {
                    assert(cps@.contains(c) <==> (before.contains(c) || found@.subrange(
                        0,
                        m as int,
                    ).contains(c)));
                }
            }
            i += 1;
        }
        cps
    }
}

/// Inserts `x` into a strictly increasing vector, unless it is there.
#[verifier::spinoff_prover]
pub(crate) fn insert_sorted(v: &mut Vec<u32>, x: u32)
    requires
        strictly_increasing(old(v)@),
    ensures
        strictly_increasing(final(v)@),
        forall|c: u32| final(v)@.contains(c) <==> (old(v)@.contains(c) || c == x),
{
    let n = v.len();
    let mut i: usize = 0;
    while i < n && v[i] < x
        invariant
            n == v@.len(),
            i <= n,
            v@ == old(v)@,
            strictly_increasing(v@),
            forall|k: int| 0 <= k < i ==> v@[k] < x,
        decreases n - i,
    {
        i += 1;
    }
    if i < n && v[i] == x {
        return;
    }
    let ghost before = v@;
    v.insert(i, x);
    proof {
        assert(before == old(v)@);
        assert forall|c: u32|
            #![trigger v@.contains(c)]
            v@.contains(c) <==> (before.contains(c) || c == x) by {
            if v@.contains(c) {
                let w = choose|w: int| 0 <= w < v@.len() && v@[w] == c;
                if w < i {
                    assert(before[w] == c);
                } else if w > i {
                    assert(before[w - 1] == c);
                }
            }
            if before.contains(c) {
                let w = choose|w: int| 0 <= w < before.len() && before[w] == c;
                if w < i {
                    assert(v@[w] == c);
                } else {
                    assert(v@[w + 1] == c);
                }
            }
            if c == x {
                assert(v@[i as int] == c);
            }
        }
        assert forall|a: int, b: int| 0 <= a < b < v@.len() implies v@[a] < v@[b] by {
            if b < i {
            } else if a < i && b == i {
            } else if a < i {
                assert(before[a] < before[b - 1]);
            } else if a == i {
                assert(before[i as int] >= x);
                assert(before[i as int] != x);
                if b - 1 > i {
                    assert(before[i as int] < before[b - 1]);
                }
            } else {
                assert(before[a - 1] < before[b - 1]);
            }
        }
    }
}

/// Adds a signed delta to a 16-bit code, wrapping to 16 bits.
fn add_delta(cp: u32, delta: i16) -> (r: u16)
    requires
        cp <= 0xFFFF,
    ensures
        r == wrap16(cp + delta),
{
    let v: i32 = cp as i32 + delta as i32;
    if v < 0 {
        (v + 65536) as u16
    } else if v >= 65536 {
        (v - 65536) as u16
    } else {
        v as u16
    }
}

fn format4_map(segments: &Vec<Format4Segment>, cp: u32) -> (r: Option<u16>)
    requires
        cp <= 0xFFFF,
    ensures
        r == format4_lookup(segments@, cp as int),
{
    let n = segments.len();
    let mut i: usize = 0;
    proof {
        assert(segments@.subrange(0, n as int) =~= segments@);
    }
    while i < n
        invariant
            n == segments@.len(),
            i <= n,
            cp <= 0xFFFF,
            format4_lookup(segments@, cp as int) == format4_lookup(
                segments@.subrange(i as int, n as int),
                cp as int,
            ),
        decreases n - i,
    {
        proof {
            let rest = segments@.subrange(i as int, n as int);
            assert(rest[0] == segments@[i as int]);
            assert(rest.drop_first() =~= segments@.subrange(i + 1, n as int));
        }
        let seg = segments[i];
        if cp >= seg.start_code as u32 && cp <= seg.end_code as u32 && seg.id_range_offset == 0 {
            return Some(add_delta(cp, seg.id_delta));
        }
        i += 1;
    }
    None
}

fn format12_map(groups: &Vec<SequentialMapGroup>, cp: u32) -> (r: Option<u16>)
    ensures
        r == format12_lookup(groups@, cp as int),
{
    let n = groups.len();
    let mut i: usize = 0;
    proof {
        assert(groups@.subrange(0, n as int) =~= groups@);
    }
    while i < n
        invariant
            n == groups@.len(),
            i <= n,
            format12_lookup(groups@, cp as int) == format12_lookup(
                groups@.subrange(i as int, n as int),
                cp as int,
            ),
        decreases n - i,
    {
        proof {
            let rest = groups@.subrange(i as int, n as int);
            assert(rest[0] == groups@[i as int]);
            assert(rest.drop_first() =~= groups@.subrange(i + 1, n as int));
        }
        let g = groups[i];
        if cp >= g.start_char_code && cp <= g.end_char_code {
            let sum: u64 = g.start_glyph_id as u64 + (cp - g.start_char_code) as u64;
            return Some((sum % 0x10000) as u16);
        }
        i += 1;
    }
    None
}

fn format13_map(groups: &Vec<ConstantMapGroup>, cp: u32) -> (r: Option<u16>)
    ensures
        r == format13_lookup(groups@, cp as int),
{
    let n = groups.len();
    let mut i: usize = 0;
    proof {
        assert(groups@.subrange(0, n as int) =~= groups@);
    }
    while i < n
        invariant
            n == groups@.len(),
            i <= n,
            format13_lookup(groups@, cp as int) == format13_lookup(
                groups@.subrange(i as int, n as int),
                cp as int,
            ),
        decreases n - i,
    {
        proof {
            let rest = groups@.subrange(i as int, n as int);
            assert(rest[0] == groups@[i as int]);
            assert(rest.drop_first() =~= groups@.subrange(i + 1, n as int));
        }
        let g = groups[i];
        if cp >= g.start_char_code && cp <= g.end_char_code {
            return Some((g.glyph_id % 0x10000) as u16);
        }
        i += 1;
    }
    None
}

fn trimmed_map(first: u32, glyphs: &Vec<u16>, cp: u32) -> (r: Option<u16>)
    ensures
        r == trimmed_lookup(first as int, glyphs@, cp as int),
{
    if cp >= first {
        let idx = (cp - first) as usize;
        if idx < glyphs.len() {
            return Some(glyphs[idx]);
        }
    }
    None
}

fn byte_positions(a: &[u8; 256], v: u8) -> (r: Vec<u32>)
    ensures
        r@ == byte_matches(a@, v, 256),
{
    let mut r: Vec<u32> = Vec::new();
    let mut i: usize = 0;
    while i < 256
        invariant
            i <= 256,
            a@.len() == 256,
            r@ == byte_matches(a@, v, i as int),
        decreases 256 - i,
    {
        if a[i] == v {
            r.push(i as u32);
        }
        i += 1;
    }
    r
}

/// `base + i` (wrapping) for each index `i` whose unit is `v`.
fn unit_positions(a: &Vec<u16>, v: u16, base: u32) -> (r: Vec<u32>)
    ensures
        r@ == unit_matches(a@, v, base as int, a@.len() as int),
{
    let n = a.len();
    let mut r: Vec<u32> = Vec::new();
    let mut i: usize = 0;
    while i < n
        invariant
            n == a@.len(),
            i <= n,
            r@ == unit_matches(a@, v, base as int, i as int),
        decreases n - i,
    {
        if a[i] == v {
            let low = (i as u64 % 0x1_0000_0000) as u32;
            let cp = base.wrapping_add(low);
            proof {
                vstd::arithmetic::div_mod::lemma_add_mod_noop_right(
                    base as int,
                    i as int,
                    0x1_0000_0000,
                );
                assert(cp == wrap32(base + i));
            }
            r.push(cp);
        }
        i += 1;
    }
    r
}

fn segment_positions(seg: Format4Segment, g: u16, out: &mut Vec<u32>)
    ensures
        final(out)@ == old(out)@ + segment_matches(seg, g, seg.end_code + 1),
{
    let mut c: u32 = seg.start_code as u32;
    let ghost base = out@;
    proof {
        assert(base + segment_matches(seg, g, c as int) =~= base);
    }
    while c <= seg.end_code as u32
        invariant
            seg.start_code <= c,
            c <= seg.end_code + 1 || c == seg.start_code,
            c <= 0x10000,
            out@ == base + segment_matches(seg, g, c as int),
        decreases 0x10000 - c,
    {
        if add_delta(c, seg.id_delta) == g {
            out.push(c);
        }
        c += 1;
        proof {
            assert(out@ =~= base + segment_matches(seg, g, c as int));
        }
    }
    proof {
        if seg.start_code > seg.end_code {
            assert(segment_matches(seg, g, seg.end_code + 1) =~= Seq::empty());
        }
        assert(out@ =~= base + segment_matches(seg, g, seg.end_code + 1));
    }
}

fn format4_positions(segments: &Vec<Format4Segment>, g: u16) -> (r: Vec<u32>)
    ensures
        r@ == format4_matches(segments@, g, segments@.len() as int),
{
    let n = segments.len();
    let mut r: Vec<u32> = Vec::new();
    let mut i: usize = 0;
    while i < n
        invariant
            n == segments@.len(),
            i <= n,
            r@ == format4_matches(segments@, g, i as int),
        decreases n - i,
    {
        let seg = segments[i];
        if seg.id_range_offset == 0 {
            segment_positions(seg, g, &mut r);
        }
        i += 1;
        proof {
            assert(r@ =~= format4_matches(segments@, g, i as int));
        }
    }
    r
}

#[verifier::spinoff_prover]
#[verifier::rlimit(30)]
fn format12_positions(groups: &Vec<SequentialMapGroup>, g: u16) -> (r: Vec<u32>)
    ensures
        r@ == format12_matches(groups@, g, groups@.len() as int),
{
    let n = groups.len();
    let mut r: Vec<u32> = Vec::new();
    let mut i: usize = 0;
    while i < n
        invariant
            n == groups@.len(),
            i <= n,
            r@ == format12_matches(groups@, g, i as int),
        decreases n - i,
    {
        let grp = groups[i];
        let span = grp.end_char_code.wrapping_sub(grp.start_char_code);
        let last_glyph = grp.start_glyph_id.wrapping_add(span);
        let gid = g as u32;
        proof {
            assert(span == wrap32(grp.end_char_code - grp.start_char_code));
            assert(last_glyph == wrap32(grp.start_glyph_id + span));
        }
        if gid >= grp.start_glyph_id && gid <= last_glyph {
            let cp = grp.start_char_code.wrapping_add(gid - grp.start_glyph_id);
            proof {
                assert(cp == wrap32(grp.start_char_code + (g - grp.start_glyph_id)));
            }
            r.push(cp);
        }
        i += 1;
        proof {
            assert(r@ =~= format12_matches(groups@, g, i as int));
        }
    }
    r
}

fn format13_positions(groups: &Vec<ConstantMapGroup>, g: u16) -> (r: Vec<u32>)
    ensures
        r@ == format13_matches(groups@, g, groups@.len() as int),
{
    let n = groups.len();
    let mut r: Vec<u32> = Vec::new();
    let mut i: usize = 0;
    while i < n
        invariant
            n == groups@.len(),
            i <= n,
            r@ == format13_matches(groups@, g, i as int),
        decreases n - i,
    {
        let grp = groups[i];
        if grp.glyph_id == g as u32 {
            let ghost base = r@;
            let mut c: u64 = grp.start_char_code as u64;
            proof {
                assert(base + code_range(grp.start_char_code as int, c as int) =~= base);
            }
            while c <= grp.end_char_code as u64
                invariant
                    grp.start_char_code <= c,
                    c <= grp.end_char_code + 1 || c == grp.start_char_code,
                    c <= 0x1_0000_0000,
                    r@ == base + code_range(grp.start_char_code as int, c as int),
                decreases 0x1_0000_0000 - c,
            {
                r.push(c as u32);
                c += 1;
                proof {
                    assert(r@ =~= base + code_range(grp.start_char_code as int, c as int));
                }
            }
            proof {
                assert(r@ =~= base + code_range(
                    grp.start_char_code as int,
                    grp.end_char_code + 1,
                ));
            }
        }
        i += 1;
        proof {
            assert(r@ =~= format13_matches(groups@, g, i as int));
        }
    }
    r
}

impl CmapSubtable {
    /// The glyph this subtable gives a code point. Arithmetic on glyph
    /// indices wraps to 16 bits.
    pub fn map(&self, codepoint: u32) -> (r: Option<u16>)
        ensures
            r == subtable_lookup(*self, codepoint),
    {
        match self {
            CmapSubtable::Format0 { glyph_id_array, .. } => {
                if codepoint < 256 {
                    Some(glyph_id_array[codepoint as usize] as u16)
                } else {
                    None
                }
            },
            CmapSubtable::Format4 { segments, .. } => {
                if codepoint > 0xFFFF {
                    return None;
                }
                format4_map(segments, codepoint)
            },
            CmapSubtable::Format12 { groups, .. } => format12_map(groups, codepoint),
            CmapSubtable::Format6 { first_code, glyph_id_array, .. } => trimmed_map(
                *first_code as u32,
                glyph_id_array,
                codepoint,
            ),
            CmapSubtable::Format10 { start_char_code, glyph_id_array, .. } => trimmed_map(
                *start_char_code,
                glyph_id_array,
                codepoint,
            ),
            CmapSubtable::Format13 { groups, .. } => format13_map(groups, codepoint),
            CmapSubtable::Format14 { .. } => None,
        }
    }

    /// The code points this subtable maps to the glyph, in the order it
    /// lists them. Code point arithmetic wraps to 32 bits.
    pub fn codepoints_for_glyph(&self, glyph_id: u16) -> (r: Vec<u32>)
        ensures
            r@ == subtable_matches_glyph(*self, glyph_id),
    {
        match self {
            CmapSubtable::Format0 { glyph_id_array, .. } => byte_positions(
                glyph_id_array,
                glyph_id as u8,
            ),
            CmapSubtable::Format4 { segments, .. } => format4_positions(segments, glyph_id),
            CmapSubtable::Format12 { groups, .. } => format12_positions(groups, glyph_id),
            CmapSubtable::Format6 { first_code, glyph_id_array, .. } => unit_positions(
                glyph_id_array,
                glyph_id,
                *first_code as u32,
            ),
            CmapSubtable::Format10 { start_char_code, glyph_id_array, .. } => unit_positions(
                glyph_id_array,
                glyph_id,
                *start_char_code,
            ),
            CmapSubtable::Format13 { groups, .. } => format13_positions(groups, glyph_id),
            CmapSubtable::Format14 { .. } => Vec::new(),
        }
    }
}

/// The encoding record spelled by the eight bytes at `i`.
pub open spec fn record_at(s: Seq<u8>, i: int) -> EncodingRecord {
    EncodingRecord {
        platform_id: be_u16(s, i),
        encoding_id: be_u16(s, i + 2),
        subtable_offset: be_u32(s, i + 4),
    }
}

/// Where the subtable of record `k` of the table at `off` starts.
pub open spec fn subtable_start(s: Seq<u8>, off: int, k: int) -> int {
    off + be_u32(s, off + 8 + 8 * k)
}

/// The header, the encoding records and every subtable they point to lie
/// inside the buffer, and every subtable has a supported format.
pub open spec fn cmap_fits(s: Seq<u8>, off: int) -> bool {
    let n = be_u16(s, off + 2);
    &&& off + 4 + 8 * n <= s.len()
    &&& forall|k: int| 0 <= k < n ==> #[trigger] subtable_fits(s, subtable_start(s, off, k))
}

/// `c` is the table spelled by the bytes at `off`: one subtable per
/// encoding record, in record order.
pub open spec fn cmap_parsed(c: Cmap, s: Seq<u8>, off: int) -> bool {
    let n = be_u16(s, off + 2);
    &&& c.version == be_u16(s, off)
    &&& c.num_tables == n
    &&& c.records@.len() == n
    &&& c.subtables@.len() == n
    &&& forall|k: int| 0 <= k < n ==> #[trigger] c.records@[k] == record_at(s, off + 4 + 8 * k)
    &&& forall|k: int|
        0 <= k < n ==> #[trigger] subtable_parsed(c.subtables@[k], s, subtable_start(s, off, k))
}

/// Total size of the first `k` subtables as written.
#[verifier::opaque]
pub open spec fn subtables_total(subs: Seq<CmapSubtable>, k: int) -> int
    decreases k,
{
    if k <= 0 {
        0
    } else {
        subtables_total(subs, k - 1) + padded_subtable(subs[k - 1]).len()
    }
}

/// The header size, reduced to 32 bits as `write` stores it.
pub open spec fn header_word(nrec: int) -> int {
    (4 + 8 * nrec) % 0x1_0000_0000
}

impl Cmap {
    /// The offset `write` gives subtable `k`: right after the header and
    /// the subtables before it.
    pub open spec fn subtable_position(self, k: int) -> u32 {
        (header_word(self.records@.len() as int) + subtables_total(self.subtables@, k)) as u32
    }

    pub open spec fn records_bytes(self, k: int) -> Seq<u8>
        decreases k,
    {
        if k <= 0 {
            Seq::empty()
        } else {
            self.records_bytes(k - 1) + u16_bytes(self.records@[k - 1].platform_id) + u16_bytes(
                self.records@[k - 1].encoding_id,
            ) + u32_bytes(self.subtable_position(k - 1))
        }
    }

    pub open spec fn subtables_bytes(self, k: int) -> Seq<u8>
        decreases k,
    {
        if k <= 0 {
            Seq::empty()
        } else {
            self.subtables_bytes(k - 1) + padded_subtable(self.subtables@[k - 1])
        }
    }

    /// The header, one record per encoding record (its offset recomputed),
    /// then every subtable, padded.
    #[verifier::opaque]
    pub open spec fn encode(self) -> Seq<u8> {
        let n = self.records@.len();
        u16_bytes(self.version) + u16_bytes(n as u16) + self.records_bytes(n as int)
            + self.subtables_bytes(self.subtables@.len() as int)
    }
}

/// One subtable more adds its padded size.
pub(crate) proof fn lemma_subtables_total_step(subs: Seq<CmapSubtable>, k: int)
    ensures
        subtables_total(subs, 0) == 0,
        k > 0 ==> subtables_total(subs, k) == subtables_total(subs, k - 1) + padded_subtable(
            subs[k - 1],
        ).len(),
{
    reveal(subtables_total);
}

pub(crate) proof fn lemma_subtables_total_monotone(subs: Seq<CmapSubtable>, a: int, b: int)
    requires
        0 <= a <= b,
    ensures
        subtables_total(subs, a) <= subtables_total(subs, b),
    decreases b - a,
{
    if a < b {
        lemma_subtables_total_monotone(subs, a, b - 1);
        lemma_subtables_total_step(subs, b);
    }
}

impl Table for Cmap {
    /// Every record has a subtable, each subtable's length fields fit, and
    /// the subtable offsets fit in 32 bits.
    open spec fn writable(&self) -> bool {
        &&& self.records@.len() <= self.subtables@.len()
        &&& 4 + 8 * self.records@.len() <= usize::MAX
        &&& header_word(self.records@.len() as int) + subtables_total(
            self.subtables@,
            self.subtables@.len() as int,
        ) <= u32::MAX
        &&& forall|k: int|
            0 <= k < self.subtables@.len() ==> #[trigger] subtable_writable(self.subtables@[k])
    }

    /// `cmap`
    fn tag() -> (t: Tag)
        ensures
            t.0@ == seq![0x63u8, 0x6d, 0x61, 0x70],
    {
        Tag([0x63, 0x6d, 0x61, 0x70])
    }

    /// Reads the header, the encoding records, then the subtable of each
    /// record in order.
    fn parse(buf: &[u8], offset: usize) -> (r: Result<Self, FontError>)
        ensures
            match r {
                Ok(c) => cmap_fits(buf@, offset as int) && cmap_parsed(c, buf@, offset as int),
                Err(e) => {
                    &&& !cmap_fits(buf@, offset as int)
                    &&& match e {
                        FontError::UnsupportedCmapFormat(f) => exists|k: int|
                            0 <= k < be_u16(buf@, offset + 2) && subtable_start(
                                buf@,
                                offset as int,
                                k,
                            ) + 2 <= buf@.len() && f == be_u16(
                                buf@,
                                #[trigger] subtable_start(buf@, offset as int, k),
                            ) && !supported_format(f),
                        FontError::OutOfBounds { .. } => true,
                        _ => false,
                    }
                },
            },
    {
        let ghost s = buf@;
        let mut p = Parser::new(buf, offset);
        let version = p.u16()?;
        let num_tables = p.u16()?;
        let mut records: Vec<EncodingRecord> = Vec::new();
        let mut k: u16 = 0;
        while k < num_tables
            invariant
                s == buf@,
                p.data() == s,
                p.pos() <= s.len(),
                version == be_u16(s, offset as int),
                num_tables == be_u16(s, offset + 2),
                k <= num_tables,
                p.pos() == offset + 4 + 8 * k,
                records@.len() == k,
                forall|i: int| 0 <= i < k ==> #[trigger] records@[i] == record_at(s, offset + 4 + 8 * i),
            decreases num_tables - k,
        {
            let platform_id = p.u16()?;
            let encoding_id = p.u16()?;
            let subtable_offset = p.u32()?;
            records.push(EncodingRecord { platform_id, encoding_id, subtable_offset });
            k += 1;
        }
        let mut subtables: Vec<CmapSubtable> = Vec::new();
        k = 0;
        while k < num_tables
            invariant
                s == buf@,
                offset + 4 + 8 * num_tables <= s.len(),
                version == be_u16(s, offset as int),
                num_tables == be_u16(s, offset + 2),
                k <= num_tables,
                records@.len() == num_tables,
                forall|i: int|
                    0 <= i < num_tables ==> #[trigger] records@[i] == record_at(
                        s,
                        offset + 4 + 8 * i,
                    ),
                subtables@.len() == k,
                forall|i: int| 0 <= i < k ==> #[trigger] subtable_fits(s, subtable_start(s, offset as int, i)),
                forall|i: int|
                    0 <= i < k ==> #[trigger] subtable_parsed(
                        subtables@[i],
                        s,
                        subtable_start(s, offset as int, i),
                    ),
            decreases num_tables - k,
        {
            let ghost start = subtable_start(s, offset as int, k as int);
            let rec = records[k as usize];
            assert(rec == record_at(s, offset + 4 + 8 * k));
            let at = match offset.checked_add(rec.subtable_offset as usize) {
                Some(a) => a,
                None => {
                    proof {
                        assert(buf@.len() == buf.len());
                        assert(!subtable_fits(s, start));
                    }
                    return Err(
                        FontError::OutOfBounds {
                            offset,
                            length: rec.subtable_offset as usize,
                            buf_len: buf.len(),
                        },
                    );
                },
            };
            let st = parse_subtable(buf, at)?;
            let ghost before = subtables@;
            subtables.push(st);
            proof {
                assert forall|i: int| 0 <= i < k + 1 implies #[trigger] subtable_parsed(
                    subtables@[i],
                    s,
                    subtable_start(s, offset as int, i),
                ) by {
                    if i < k {
                        assert(subtables@[i] == before[i]);
                    }
                }
            }
            k += 1;
        }
        Ok(Cmap { version, num_tables, records, subtables })
    }

    fn write(&self, w: &mut Writer) -> (r: Result<(), FontError>)
        ensures
            r is Ok,
            final(w)@ == old(w)@ + self.encode(),
    {
        let ns = self.subtables.len();
        let mut data: Vec<Vec<u8>> = Vec::new();
        let mut i: usize = 0;
        while i < ns
            invariant
                ns == self.subtables@.len(),
                i <= ns,
                forall|k: int|
                    0 <= k < ns ==> #[trigger] subtable_writable(self.subtables@[k]),
                data@.len() == i,
                forall|k: int| 0 <= k < i ==> (#[trigger] data@[k])@ == padded_subtable(self.subtables@[k]),
            decreases ns - i,
        {
            data.push(encode_subtable(&self.subtables[i]));
            i += 1;
        }
        let nr = self.records.len();
        let header_size = 4 + nr * 8;
        let mut offsets: Vec<u32> = Vec::new();
        let mut current_offset = (header_size as u64 % 0x1_0000_0000) as u32;
        proof {
            lemma_subtables_total_monotone(self.subtables@, 0, ns as int);
            lemma_subtables_total_step(self.subtables@, 0);
        }
        i = 0;
        while i < ns
            invariant
                ns == self.subtables@.len(),
                nr == self.records@.len(),
                i <= ns,
                header_word(nr as int) + subtables_total(self.subtables@, ns as int) <= u32::MAX,
                data@.len() == ns,
                forall|k: int| 0 <= k < ns ==> (#[trigger] data@[k])@ == padded_subtable(self.subtables@[k]),
                current_offset == header_word(nr as int) + subtables_total(self.subtables@, i as int),
                offsets@.len() == i,
                forall|k: int| 0 <= k < i ==> #[trigger] offsets@[k] == self.subtable_position(k),
            decreases ns - i,
        {
            proof {
                lemma_subtables_total_monotone(self.subtables@, i + 1, ns as int);
                lemma_subtables_total_step(self.subtables@, i + 1);
            }
            offsets.push(current_offset);
            current_offset += data[i].len() as u32;
            i += 1;
        }
        w.write_u16(self.version);
        w.write_u16(nr as u16);
        let ghost hdr = w@;
        i = 0;
        while i < nr
            invariant
                nr == self.records@.len(),
                nr <= ns,
                offsets@.len() == ns,
                forall|k: int| 0 <= k < ns ==> #[trigger] offsets@[k] == self.subtable_position(k),
                i <= nr,
                w@ == hdr + self.records_bytes(i as int),
            decreases nr - i,
        {
            w.write_u16(self.records[i].platform_id);
            w.write_u16(self.records[i].encoding_id);
            w.write_u32(offsets[i]);
            i += 1;
            proof {
                assert(w@ =~= hdr + self.records_bytes(i as int));
            }
        }
        let ghost mid = w@;
        i = 0;
        while i < ns
            invariant
                ns == self.subtables@.len(),
                i <= ns,
                data@.len() == ns,
                forall|k: int| 0 <= k < ns ==> (#[trigger] data@[k])@ == padded_subtable(self.subtables@[k]),
                w@ == mid + self.subtables_bytes(i as int),
            decreases ns - i,
        {
            w.write_bytes(data[i].as_slice());
            i += 1;
            proof {
                assert(w@ =~= mid + self.subtables_bytes(i as int));
            }
        }
        proof {
            reveal(Cmap::encode);
            assert(w@ =~= old(w)@ + self.encode());
        }
        Ok(())
    }
}

/// The glyph indices that the groups of a subtable produce fit in 16 bits,
/// so that lookups never wrap.
pub open spec fn glyph_ids_fit(st: CmapSubtable) -> bool {
    match st {
        CmapSubtable::Format12 { groups, .. } => forall|i: int|
            0 <= i < groups@.len() && #[trigger] groups@[i].start_char_code
                <= groups@[i].end_char_code ==> groups@[i].start_glyph_id + (
            groups@[i].end_char_code - groups@[i].start_char_code) <= 0xFFFF,
        CmapSubtable::Format13 { groups, .. } => forall|i: int|
            0 <= i < groups@.len() ==> #[trigger] groups@[i].glyph_id <= 0xFFFF,
        _ => true,
    }
}

proof fn lemma_byte_matches_contains(a: Seq<u8>, v: u8, k: int, i: int)
    requires
        0 <= i < k,
        a[i] == v,
        k <= 256,
    ensures
        byte_matches(a, v, k).contains(i as u32),
    decreases k,
{
    if i < k - 1 {
        lemma_byte_matches_contains(a, v, k - 1, i);
        let prev = byte_matches(a, v, k - 1);
        let w = choose|w: int| 0 <= w < prev.len() && prev[w] == i as u32;
        assert(byte_matches(a, v, k)[w] == i as u32);
    } else {
        let cur = byte_matches(a, v, k);
        assert(cur[cur.len() - 1] == i as u32);
    }
}

proof fn lemma_unit_matches_contains(a: Seq<u16>, v: u16, base: int, k: int, i: int)
    requires
        0 <= i < k,
        a[i] == v,
    ensures
        unit_matches(a, v, base, k).contains(wrap32(base + i)),
    decreases k,
{
    if i < k - 1 {
        lemma_unit_matches_contains(a, v, base, k - 1, i);
        let prev = unit_matches(a, v, base, k - 1);
        let w = choose|w: int| 0 <= w < prev.len() && prev[w] == wrap32(base + i);
        assert(unit_matches(a, v, base, k)[w] == wrap32(base + i));
    } else {
        let cur = unit_matches(a, v, base, k);
        assert(cur[cur.len() - 1] == wrap32(base + i));
    }
}

proof fn lemma_segment_matches_contains(seg: Format4Segment, g: u16, c: int, cp: int)
    requires
        seg.start_code <= cp < c,
        wrap16(cp + seg.id_delta) == g,
        0 <= cp <= 0xFFFF,
    ensures
        segment_matches(seg, g, c).contains(cp as u32),
    decreases c - seg.start_code,
{
    if cp < c - 1 {
        lemma_segment_matches_contains(seg, g, c - 1, cp);
        let prev = segment_matches(seg, g, c - 1);
        let w = choose|w: int| 0 <= w < prev.len() && prev[w] == cp as u32;
        assert(segment_matches(seg, g, c)[w] == cp as u32);
    } else {
        let cur = segment_matches(seg, g, c);
        assert(cur[cur.len() - 1] == cp as u32);
    }
}

/// An element of either part is an element of their concatenation.
proof fn lemma_concat_contains<A>(a: Seq<A>, b: Seq<A>, x: A)
    requires
        a.contains(x) || b.contains(x),
    ensures
        (a + b).contains(x),
{
    if a.contains(x) {
        let w = choose|w: int| 0 <= w < a.len() && a[w] == x;
        assert((a + b)[w] == x);
    } else {
        let w = choose|w: int| 0 <= w < b.len() && b[w] == x;
        assert((a + b)[a.len() + w] == x);
    }
}

proof fn lemma_format4_matches_contains(segs: Seq<Format4Segment>, g: u16, k: int, j: int, cp: int)
    requires
        0 <= j < k <= segs.len(),
        segs[j].start_code <= cp <= segs[j].end_code,
        segs[j].id_range_offset == 0,
        wrap16(cp + segs[j].id_delta) == g,
    ensures
        format4_matches(segs, g, k).contains(cp as u32),
    decreases k,
{
    if j < k - 1 {
        lemma_format4_matches_contains(segs, g, k - 1, j, cp);
        lemma_concat_contains(
            format4_matches(segs, g, k - 1),
            segment_matches(segs[k - 1], g, segs[k - 1].end_code + 1),
            cp as u32,
        );
        if segs[k - 1].id_range_offset != 0 {
            assert(format4_matches(segs, g, k) =~= format4_matches(segs, g, k - 1));
        }
    } else {
        lemma_segment_matches_contains(segs[j], g, segs[j].end_code + 1, cp);
        lemma_concat_contains(
            format4_matches(segs, g, k - 1),
            segment_matches(segs[j], g, segs[j].end_code + 1),
            cp as u32,
        );
    }
}

proof fn lemma_format4_lookup_found(segs: Seq<Format4Segment>, cp: int, g: u16) -> (j: int)
    requires
        format4_lookup(segs, cp) == Some(g),
    ensures
        0 <= j < segs.len(),
        segs[j].start_code <= cp <= segs[j].end_code,
        segs[j].id_range_offset == 0,
        wrap16(cp + segs[j].id_delta) == g,
    decreases segs.len(),
{
    if segs[0].start_code <= cp <= segs[0].end_code && segs[0].id_range_offset == 0 {
        0
    } else {
        let j = lemma_format4_lookup_found(segs.drop_first(), cp, g);
        j + 1
    }
}

proof fn lemma_format12_lookup_found(groups: Seq<SequentialMapGroup>, cp: int, g: u16) -> (j: int)
    requires
        format12_lookup(groups, cp) == Some(g),
    ensures
        0 <= j < groups.len(),
        groups[j].start_char_code <= cp <= groups[j].end_char_code,
        g == wrap16(groups[j].start_glyph_id + (cp - groups[j].start_char_code)),
    decreases groups.len(),
{
    if groups[0].start_char_code <= cp <= groups[0].end_char_code {
        0
    } else {
        let j = lemma_format12_lookup_found(groups.drop_first(), cp, g);
        j + 1
    }
}

proof fn lemma_format13_lookup_found(groups: Seq<ConstantMapGroup>, cp: int, g: u16) -> (j: int)
    requires
        format13_lookup(groups, cp) == Some(g),
    ensures
        0 <= j < groups.len(),
        groups[j].start_char_code <= cp <= groups[j].end_char_code,
        g == wrap16(groups[j].glyph_id as int),
    decreases groups.len(),
{
    if groups[0].start_char_code <= cp <= groups[0].end_char_code {
        0
    } else {
        let j = lemma_format13_lookup_found(groups.drop_first(), cp, g);
        j + 1
    }
}

proof fn lemma_format12_matches_contains(groups: Seq<SequentialMapGroup>, g: u16, k: int, j: int, cp: u32)
    requires
        0 <= j < k <= groups.len(),
        group12_match(groups[j], g).contains(cp),
    ensures
        format12_matches(groups, g, k).contains(cp),
    decreases k,
{
    if j < k - 1 {
        lemma_format12_matches_contains(groups, g, k - 1, j, cp);
    }
    lemma_concat_contains(format12_matches(groups, g, k - 1), group12_match(groups[k - 1], g), cp);
}

proof fn lemma_format13_matches_contains(groups: Seq<ConstantMapGroup>, g: u16, k: int, j: int, cp: u32)
    requires
        0 <= j < k <= groups.len(),
        groups[j].glyph_id == g as u32,
        groups[j].start_char_code <= cp <= groups[j].end_char_code,
    ensures
        format13_matches(groups, g, k).contains(cp),
    decreases k,
{
    let grp = groups[j];
    if j < k - 1 {
        lemma_format13_matches_contains(groups, g, k - 1, j, cp);
        let last = groups[k - 1];
        lemma_concat_contains(
            format13_matches(groups, g, k - 1),
            if last.glyph_id == g as u32 {
                code_range(last.start_char_code as int, last.end_char_code + 1)
            } else {
                Seq::empty()
            },
            cp,
        );
    } else {
        let r = code_range(grp.start_char_code as int, grp.end_char_code + 1);
        assert(r[cp - grp.start_char_code] == cp);
        lemma_concat_contains(format13_matches(groups, g, k - 1), r, cp);
    }
}

/// A subtable lists among the code points of a glyph every code point it
/// maps to that glyph.
#[verifier::spinoff_prover]
#[verifier::rlimit(60)]
pub proof fn lemma_subtable_lookup_reversed(st: CmapSubtable, cp: u32, g: u16)
    requires
        glyph_ids_fit(st),
        subtable_lookup(st, cp) == Some(g),
    ensures
        subtable_matches_glyph(st, g).contains(cp),
{
    match st {
        CmapSubtable::Format0 { glyph_id_array, .. } => {
            assert(glyph_id_array@[cp as int] == g as u8);
            lemma_byte_matches_contains(glyph_id_array@, g as u8, 256, cp as int);
        },
        CmapSubtable::Format4 { segments, .. } => {
            let j = lemma_format4_lookup_found(segments@, cp as int, g);
            lemma_format4_matches_contains(segments@, g, segments@.len() as int, j, cp as int);
        },
        CmapSubtable::Format12 { groups, .. } => {
            let j = lemma_format12_lookup_found(groups@, cp as int, g);
            let grp = groups@[j];
            assert(grp.start_glyph_id + (grp.end_char_code - grp.start_char_code) <= 0xFFFF);
            assert(group12_match(grp, g)[0] == cp);
            lemma_format12_matches_contains(groups@, g, groups@.len() as int, j, cp);
        },
        CmapSubtable::Format6 { first_code, glyph_id_array, .. } => {
            lemma_unit_matches_contains(
                glyph_id_array@,
                g,
                first_code as int,
                glyph_id_array@.len() as int,
                cp - first_code,
            );
        },
        CmapSubtable::Format10 { start_char_code, glyph_id_array, .. } => {
            lemma_unit_matches_contains(
                glyph_id_array@,
                g,
                start_char_code as int,
                glyph_id_array@.len() as int,
                cp - start_char_code,
            );
        },
        CmapSubtable::Format13 { groups, .. } => {
            let j = lemma_format13_lookup_found(groups@, cp as int, g);
            assert(groups@[j].glyph_id <= 0xFFFF);
            lemma_format13_matches_contains(groups@, g, groups@.len() as int, j, cp);
        },
        CmapSubtable::Format14 { .. } => {},
    }
}

proof fn lemma_all_matches_contains(subs: Seq<CmapSubtable>, g: u16, k: int, j: int, cp: u32)
    requires
        0 <= j < k <= subs.len(),
        subtable_matches_glyph(subs[j], g).contains(cp),
    ensures
        all_matches(subs, g, k).contains(cp),
    decreases k,
{
    if j < k - 1 {
        lemma_all_matches_contains(subs, g, k - 1, j, cp);
    }
    lemma_concat_contains(all_matches(subs, g, k - 1), subtable_matches_glyph(subs[k - 1], g), cp);
}

proof fn lemma_cmap_lookup_found(subs: Seq<CmapSubtable>, cp: u32, g: u16) -> (j: int)
    requires
        cmap_lookup(subs, cp) == Some(g),
    ensures
        0 <= j < subs.len(),
        subtable_lookup(subs[j], cp) == Some(g),
    decreases subs.len(),
{
    if subtable_lookup(subs[0], cp) is Some {
        0
    } else {
        let j = lemma_cmap_lookup_found(subs.drop_first(), cp, g);
        j + 1
    }
}

/// Reverse lookup covers forward lookup: when the groups' glyph indices
/// fit in 16 bits, every code point that `map_codepoint` sends to a glyph
/// is among that glyph's `glyph_codepoints`.
pub proof fn lemma_reverse_lookup_covers_lookup(c: Cmap, cp: u32, g: u16)
    requires
        forall|k: int| 0 <= k < c.subtables@.len() ==> #[trigger] glyph_ids_fit(c.subtables@[k]),
        cmap_lookup(c.subtables@, cp) == Some(g),
    ensures
        all_matches(c.subtables@, g, c.subtables@.len() as int).contains(cp),
{
    let j = lemma_cmap_lookup_found(c.subtables@, cp, g);
    assert(glyph_ids_fit(c.subtables@[j]));
    lemma_subtable_lookup_reversed(c.subtables@[j], cp, g);
    lemma_all_matches_contains(c.subtables@, g, c.subtables@.len() as int, j, cp);
}

} // verus!
