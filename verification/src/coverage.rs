//! Which code points a character map covers, for per-block reports.
use vstd::prelude::*;
use crate::tables::cmap::{insert_sorted, strictly_increasing, Cmap, CmapSubtable};

verus! {

/// The subtable lists the code point: a nonzero entry of a byte table, or
/// inside a range of a segmented or sequential table. Other formats list
/// none here.
pub open spec fn covers(st: CmapSubtable, cp: u32) -> bool {
    match st {
        CmapSubtable::Format0 { glyph_id_array, .. } => cp < 256 && glyph_id_array@[cp as int] != 0,
        CmapSubtable::Format12 { groups, .. } => exists|i: int|
            0 <= i < groups@.len() && groups@[i].start_char_code <= cp <= #[trigger] groups@[i].end_char_code,
        CmapSubtable::Format4 { segments, .. } => exists|i: int|
            0 <= i < segments@.len() && segments@[i].start_code <= cp <= #[trigger] segments@[i].end_code,
        _ => false,
    }
}

/// The code point lies in segment `i` of a segmented (format 4) subtable,
/// from its start code to its end code, both included.
pub open spec fn in_format4_segment(st: CmapSubtable, i: int, cp: u32) -> bool {
    st matches CmapSubtable::Format4 { segments, .. } && 0 <= i < segments@.len()
        && segments@[i].start_code <= cp && cp <= segments@[i].end_code
}

/// The code point lies in group `i` of a sequential (format 12) subtable,
/// both ends included.
pub open spec fn in_format12_group(st: CmapSubtable, i: int, cp: u32) -> bool {
    st matches CmapSubtable::Format12 { groups, .. } && 0 <= i < groups@.len()
        && groups@[i].start_char_code <= cp && cp <= groups@[i].end_char_code
}

/// Every code point of a format 4 segment's range is covered, whatever the
/// segment's delta and range offset; so is every code point of a format 12
/// group's range, and every code below 256 whose format 0 entry is nonzero.
pub proof fn lemma_ranges_covered(st: CmapSubtable, i: int, cp: u32)
    ensures
        in_format4_segment(st, i, cp) ==> covers(st, cp),
        in_format12_group(st, i, cp) ==> covers(st, cp),
        st matches CmapSubtable::Format0 { glyph_id_array, .. } ==> (cp < 256
            && glyph_id_array@[cp as int] != 0 ==> covers(st, cp)),
{
}

/// Adds every code point from `start` to `end` (both included).
fn add_range(v: &mut Vec<u32>, start: u32, end: u32)
    requires
        strictly_increasing(old(v)@),
    ensures
        strictly_increasing(final(v)@),
        forall|c: u32| final(v)@.contains(c) <==> (old(v)@.contains(c) || (start <= c <= end)),
{
    if start > end {
        return;
    }
    let mut cp: u64 = start as u64;
    while cp <= end as u64
        invariant
            start <= end,
            start <= cp <= end as u64 + 1,
            strictly_increasing(v@),
            forall|c: u32| v@.contains(c) <==> (old(v)@.contains(c) || (start <= c < cp)),
        decreases end as u64 + 1 - cp,
    {
        insert_sorted(v, cp as u32);
        cp += 1;
    }
}

/// Adds the code points one subtable covers.
fn add_subtable(v: &mut Vec<u32>, st: &CmapSubtable)
    requires
        strictly_increasing(old(v)@),
    ensures
        strictly_increasing(final(v)@),
        forall|c: u32| #[trigger] final(v)@.contains(c) <==> (old(v)@.contains(c) || covers(*st, c)),
{
    match st {
        CmapSubtable::Format0 { glyph_id_array, .. } => {
            let mut cp: usize = 0;
            while cp < 256
                invariant
                    cp <= 256,
                    strictly_increasing(v@),
                    forall|c: u32|
                        #[trigger] v@.contains(c) <==> (old(v)@.contains(c) || (c < cp
                            && glyph_id_array@[c as int] != 0)),
                decreases 256 - cp,
            {
                let ghost v0 = v@;
                if glyph_id_array[cp] != 0 {
                    insert_sorted(v, cp as u32);
                }
                proof {
                    assert forall|c: u32|
                        #[trigger] v@.contains(c) <==> (old(v)@.contains(c) || (c < cp + 1
                            && glyph_id_array@[c as int] != 0)) by {
                        assert(v0.contains(c) <==> (old(v)@.contains(c) || (c < cp
                            && glyph_id_array@[c as int] != 0)));
                    }
                }
                cp += 1;
            }
        },
        CmapSubtable::Format12 { groups, .. } => {
            let m = groups.len();
            let mut j: usize = 0;
            while j < m
                invariant
                    m == groups@.len(),
                    j <= m,
                    strictly_increasing(v@),
                    forall|c: u32|
                        v@.contains(c) <==> (old(v)@.contains(c) || exists|i: int|
                            0 <= i < j && groups@[i].start_char_code <= c
                                <= #[trigger] groups@[i].end_char_code),
                decreases m - j,
            {
                let ghost v0 = v@;
                add_range(v, groups[j].start_char_code, groups[j].end_char_code);
                proof {
                    assert forall|c: u32|
                        v@.contains(c) <==> (old(v)@.contains(c) || exists|i: int|
                            0 <= i < j + 1 && groups@[i].start_char_code <= c
                                <= #[trigger] groups@[i].end_char_code) by {
                        assert(v0.contains(c) <==> (old(v)@.contains(c) || exists|i: int|
                            0 <= i < j && groups@[i].start_char_code <= c
                                <= #[trigger] groups@[i].end_char_code));
                        if exists|i: int|
                            0 <= i < j + 1 && groups@[i].start_char_code <= c
                                <= #[trigger] groups@[i].end_char_code {
                            let i = choose|i: int|
                                0 <= i < j + 1 && groups@[i].start_char_code <= c
                                    <= #[trigger] groups@[i].end_char_code;
                            if i < j {
                                assert(v0.contains(c));
                            }
                        }
                    }
                }
                j += 1;
            }
            proof {
                assert forall|c: u32| v@.contains(c) <==> (old(v)@.contains(c) || covers(*st, c)) by {}
            }
        },
        CmapSubtable::Format4 { segments, .. } => {
            let m = segments.len();
            let mut j: usize = 0;
            while j < m
                invariant
                    m == segments@.len(),
                    j <= m,
                    strictly_increasing(v@),
                    forall|c: u32|
                        v@.contains(c) <==> (old(v)@.contains(c) || exists|i: int|
                            0 <= i < j && segments@[i].start_code <= c
                                <= #[trigger] segments@[i].end_code),
                decreases m - j,
            {
                let ghost v0 = v@;
                add_range(v, segments[j].start_code as u32, segments[j].end_code as u32);
                proof {
                    assert forall|c: u32|
                        v@.contains(c) <==> (old(v)@.contains(c) || exists|i: int|
                            0 <= i < j + 1 && segments@[i].start_code <= c
                                <= #[trigger] segments@[i].end_code) by {
                        assert(v0.contains(c) <==> (old(v)@.contains(c) || exists|i: int|
                            0 <= i < j && segments@[i].start_code <= c
                                <= #[trigger] segments@[i].end_code));
                        if exists|i: int|
                            0 <= i < j + 1 && segments@[i].start_code <= c
                                <= #[trigger] segments@[i].end_code {
                            let i = choose|i: int|
                                0 <= i < j + 1 && segments@[i].start_code <= c
                                    <= #[trigger] segments@[i].end_code;
                            if i < j {
                                assert(v0.contains(c));
                            }
                        }
                    }
                }
                j += 1;
            }
        },
        _ => {},
    }
}

/// The code points the map covers, in increasing order, each once.
pub fn covered_codepoints(cmap: &Cmap) -> (v: Vec<u32>)
    ensures
        strictly_increasing(v@),
        forall|c: u32|
            #[trigger] v@.contains(c) <==> exists|i: int|
                0 <= i < cmap.subtables@.len() && covers(#[trigger] cmap.subtables@[i], c),
        forall|k: int, i: int, c: u32|
            0 <= k < cmap.subtables@.len() && #[trigger] in_format4_segment(cmap.subtables@[k], i, c)
                ==> v@.contains(c),
        forall|k: int, i: int, c: u32|
            0 <= k < cmap.subtables@.len() && #[trigger] in_format12_group(cmap.subtables@[k], i, c)
                ==> v@.contains(c),
{
    let mut v: Vec<u32> = Vec::new();
    let n = cmap.subtables.len();
    let mut k: usize = 0;
    while k < n
        invariant
            n == cmap.subtables@.len(),
            k <= n,
            strictly_increasing(v@),
            forall|c: u32|
                #[trigger] v@.contains(c) <==> exists|i: int|
                    0 <= i < k && covers(#[trigger] cmap.subtables@[i], c),
        decreases n - k,
    {
        let ghost before = v@;
        add_subtable(&mut v, &cmap.subtables[k]);
        proof {
            assert forall|c: u32| #[trigger] v@.contains(c) <==> exists|i: int|
                0 <= i < k + 1 && covers(#[trigger] cmap.subtables@[i], c) by {
                assert(before.contains(c) <==> exists|i: int|
                    0 <= i < k && covers(#[trigger] cmap.subtables@[i], c));
                if exists|i: int| 0 <= i < k + 1 && covers(#[trigger] cmap.subtables@[i], c) {
                    let i = choose|i: int| 0 <= i < k + 1 && covers(#[trigger] cmap.subtables@[i], c);
                    if i < k {
                        assert(before.contains(c));
                    }
                }
            }
        }
        k += 1;
    }
    proof {
        assert forall|k: int, i: int, c: u32|
            0 <= k < cmap.subtables@.len() && #[trigger] in_format4_segment(cmap.subtables@[k], i, c)
                implies v@.contains(c) by {
            lemma_ranges_covered(cmap.subtables@[k], i, c);
        }
        assert forall|k: int, i: int, c: u32|
            0 <= k < cmap.subtables@.len() && #[trigger] in_format12_group(cmap.subtables@[k], i, c)
                implies v@.contains(c) by {
            lemma_ranges_covered(cmap.subtables@[k], i, c);
        }
    }
    v
}

/// How many of the code points lie from `start` to `end` (both included).
pub open spec fn count_between(cps: Seq<u32>, start: u32, end: u32) -> nat
    decreases cps.len(),
{
    if cps.len() == 0 {
        0
    } else {
        count_between(cps.drop_last(), start, end) + if start <= cps.last() <= end {
            1nat
        } else {
            0nat
        }
    }
}

/// The number of code points in a block.
pub fn count_in_block(cps: &[u32], start: u32, end: u32) -> (n: usize)
    ensures
        n == count_between(cps@, start, end),
{
    let len = cps.len();
    let mut n: usize = 0;
    let mut i: usize = 0;
    while i < len
        invariant
            len == cps@.len(),
            i <= len,
            n == count_between(cps@.subrange(0, i as int), start, end),
            n <= i,
        decreases len - i,
    {
        proof {
            let sub = cps@.subrange(0, i + 1);
            assert(sub.drop_last() =~= cps@.subrange(0, i as int));
        }
        if start <= cps[i] && cps[i] <= end {
            n += 1;
        }
        i += 1;
    }
    proof {
        assert(cps@.subrange(0, len as int) =~= cps@);
    }
    n
}

} // verus!
