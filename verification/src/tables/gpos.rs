//! `GPOS`: glyph positioning, read for its pair kerning and otherwise kept
//! as raw bytes.
use vstd::prelude::*;
use crate::codec::{be_i16, be_u16};
use crate::error::{FontError, Tag};
use crate::parse::{offset_add, Parser};
use crate::write::Writer;

verus! {

broadcast use crate::codec::group_codec;

#[derive(Debug, Clone, Copy, PartialEq, Eq, Structural)]
pub struct GposKernPair {
    pub left: u16,
    pub right: u16,
    pub x_advance: i16,
}

#[derive(Debug, Clone, PartialEq)]
pub struct Gpos {
    pub kerning: Vec<GposKernPair>,
    /// The bytes the table was read from.
    pub raw: Vec<u8>,
}

/// `off + k`, saturating at `usize::MAX` as the reader does.
pub open spec fn sat_add(off: int, k: int) -> int {
    if off + k <= usize::MAX { off + k } else { usize::MAX as int }
}

/// The glyphs `a`, `a + 1`, ..., `b`.
pub open spec fn glyph_range(a: u16, b: u16) -> Seq<u16> {
    if a <= b {
        Seq::new((b - a + 1) as nat, |i: int| (a + i) as u16)
    } else {
        Seq::empty()
    }
}

/// The glyphs of the first `k` ranges of a format 2 coverage table whose
/// range records start at `at`.
pub open spec fn coverage_ranges(s: Seq<u8>, at: int, k: int) -> Seq<u16>
    decreases k,
{
    if k <= 0 {
        Seq::empty()
    } else {
        coverage_ranges(s, at, k - 1) + glyph_range(
            be_u16(s, at + 6 * (k - 1)),
            be_u16(s, at + 6 * (k - 1) + 2),
        )
    }
}

/// The glyphs a coverage table at `off` lists; nothing when the table runs
/// past the data or has another format.
pub open spec fn coverage_of(s: Seq<u8>, off: int) -> Seq<u16> {
    let n = be_u16(s, off + 2) as int;
    if off + 4 > s.len() {
        Seq::empty()
    } else if be_u16(s, off) == 1 {
        if off + 4 + 2 * n <= s.len() {
            Seq::new(n as nat, |i: int| be_u16(s, off + 4 + 2 * i))
        } else {
            Seq::empty()
        }
    } else if be_u16(s, off) == 2 {
        if off + 4 + 6 * n <= s.len() {
            coverage_ranges(s, off + 4, n)
        } else {
            Seq::empty()
        }
    } else {
        Seq::empty()
    }
}

/// Past an optional 16-bit value at `p` that the reader skips when the bit
/// is set and the value is there.
pub open spec fn skip16(s: Seq<u8>, p: int, bit: bool) -> int {
    if bit && p + 2 <= s.len() { p + 2 } else { p }
}

/// Past the values of the first value record that come before x advance.
pub open spec fn skip_before_advance(s: Seq<u8>, p: int, vf1: u16) -> int {
    skip16(s, skip16(s, p, vf1 & 0x0001u16 != 0), vf1 & 0x0002u16 != 0)
}

/// Past the rest of the first value record.
pub open spec fn skip_first_rest(s: Seq<u8>, p: int, vf1: u16) -> int {
    skip16(
        s,
        skip16(
            s,
            skip16(
                s,
                skip16(s, skip16(s, p, vf1 & 0x0008u16 != 0), vf1 & 0x0010u16 != 0),
                vf1 & 0x0020u16 != 0,
            ),
            vf1 & 0x0040u16 != 0,
        ),
        vf1 & 0x0080u16 != 0,
    )
}

/// Past the second value record.
pub open spec fn skip_second(s: Seq<u8>, b: int, vf2: u16) -> int {
    let a = skip16(
        s,
        skip16(
            s,
            skip16(
                s,
                skip16(s, skip16(s, b, vf2 & 0x0001u16 != 0), vf2 & 0x0002u16 != 0),
                vf2 & 0x0004u16 != 0,
            ),
            vf2 & 0x0008u16 != 0,
        ),
        vf2 & 0x0010u16 != 0,
    );
    skip16(
        s,
        skip16(s, skip16(s, a, vf2 & 0x0020u16 != 0), vf2 & 0x0040u16 != 0),
        vf2 & 0x0080u16 != 0,
    )
}

/// Past the rest of the first value record and all of the second.
pub open spec fn skip_after_advance(s: Seq<u8>, p: int, vf1: u16, vf2: u16) -> int {
    skip_second(s, skip_first_rest(s, p, vf1), vf2)
}

/// The pairs of a pair set read from `p` on, `remaining` records to go:
/// reading stops at the first right glyph or x advance past the data.
pub open spec fn pair_set_pairs(
    s: Seq<u8>,
    p: int,
    remaining: int,
    left: u16,
    vf1: u16,
    vf2: u16,
) -> Seq<GposKernPair>
    decreases remaining,
{
    if remaining <= 0 || p + 2 > s.len() {
        Seq::empty()
    } else {
        let right = be_u16(s, p);
        let q = skip_before_advance(s, p + 2, vf1);
        let has_adv = vf1 & 0x0004u16 != 0;
        if has_adv && q + 2 > s.len() {
            Seq::empty()
        } else {
            let x_advance = if has_adv { be_i16(s, q) } else { 0i16 };
            let r = skip_after_advance(s, if has_adv { q + 2 } else { q }, vf1, vf2);
            seq![GposKernPair { left, right, x_advance }] + pair_set_pairs(
                s,
                r,
                remaining - 1,
                left,
                vf1,
                vf2,
            )
        }
    }
}

/// The pairs of pair sets `i` and on of the pair adjustment subtable at
/// `off`; the left glyph of set `i` is entry `i` of the coverage (0 past
/// its end).
pub open spec fn pair_sets_pairs(s: Seq<u8>, off: int, cov: Seq<u16>, i: int, count: int) -> Seq<
    GposKernPair,
>
    decreases count - i,
{
    if i >= count || off + 12 + 2 * i > s.len() {
        Seq::empty()
    } else {
        let at = sat_add(off, be_u16(s, off + 10 + 2 * i) as int);
        let left = if i < cov.len() { cov[i] } else { 0u16 };
        pair_set_pairs(s, at + 2, be_u16(s, at) as int, left, be_u16(s, off + 4), be_u16(s, off + 6))
            + pair_sets_pairs(
            s,
            off,
            cov,
            i + 1,
            count,
        )
    }
}

/// The pairs of the pair adjustment subtable at `off` (format 1 only).
pub open spec fn pair_pos_pairs(s: Seq<u8>, off: int) -> Seq<GposKernPair> {
    if off + 8 > s.len() || be_u16(s, off) != 1 || off + 10 > s.len() {
        Seq::empty()
    } else {
        let cov = coverage_of(s, sat_add(off, be_u16(s, off + 2) as int));
        pair_sets_pairs(s, off, cov, 0, be_u16(s, off + 8) as int)
    }
}

/// The pairs of subtables `i` and on of the lookup at `off` (pair
/// adjustment lookups only).
pub open spec fn lookup_subtables_pairs(s: Seq<u8>, off: int, i: int, count: int) -> Seq<
    GposKernPair,
>
    decreases count - i,
{
    if i >= count || off + 8 + 2 * i > s.len() {
        Seq::empty()
    } else {
        pair_pos_pairs(s, sat_add(off, be_u16(s, off + 6 + 2 * i) as int))
            + lookup_subtables_pairs(s, off, i + 1, count)
    }
}

pub open spec fn lookup_pairs(s: Seq<u8>, off: int) -> Seq<GposKernPair> {
    if off + 6 > s.len() || be_u16(s, off) != 2 {
        Seq::empty()
    } else {
        lookup_subtables_pairs(s, off, 0, be_u16(s, off + 4) as int)
    }
}

pub open spec fn lookups_pairs(s: Seq<u8>, off: int, i: int, count: int) -> Seq<GposKernPair>
    decreases count - i,
{
    if i >= count || off + 4 + 2 * i > s.len() {
        Seq::empty()
    } else {
        lookup_pairs(s, sat_add(off, be_u16(s, off + 2 + 2 * i) as int)) + lookups_pairs(
            s,
            off,
            i + 1,
            count,
        )
    }
}

/// The kerning pairs of every pair adjustment lookup of the lookup list at
/// `off`, in order.
pub open spec fn lookup_list_pairs(s: Seq<u8>, off: int) -> Seq<GposKernPair> {
    if off + 2 > s.len() {
        Seq::empty()
    } else {
        lookups_pairs(s, off, 0, be_u16(s, off) as int)
    }
}

/// The kerning pairs that `parse` collects from a table.
pub open spec fn gpos_kerning(s: Seq<u8>) -> Seq<GposKernPair> {
    let llo = be_u16(s, 8) as int;
    if be_u16(s, 0) >= 1 && llo > 0 && llo < s.len() {
        lookup_list_pairs(s, llo)
    } else {
        Seq::empty()
    }
}

/// Skips an optional 16-bit value, as a read whose failure is ignored.
fn skip_opt(p: &mut Parser, bit: bool)
    ensures
        final(p).data() == old(p).data(),
        final(p).pos() == skip16(old(p).data(), old(p).pos(), bit),
{
    if bit {
        let _ = p.u16();
    }
}

fn skip_before(p: &mut Parser, vf1: u16)
    ensures
        final(p).data() == old(p).data(),
        final(p).pos() == skip_before_advance(old(p).data(), old(p).pos(), vf1),
{
    skip_opt(p, vf1 & 0x0001 != 0);
    skip_opt(p, vf1 & 0x0002 != 0);
}

fn skip_rest(p: &mut Parser, vf1: u16)
    ensures
        final(p).data() == old(p).data(),
        final(p).pos() == skip_first_rest(old(p).data(), old(p).pos(), vf1),
{
    skip_opt(p, vf1 & 0x0008 != 0);
    skip_opt(p, vf1 & 0x0010 != 0);
    skip_opt(p, vf1 & 0x0020 != 0);
    skip_opt(p, vf1 & 0x0040 != 0);
    skip_opt(p, vf1 & 0x0080 != 0);
}

fn skip_value2(p: &mut Parser, vf2: u16)
    ensures
        final(p).data() == old(p).data(),
        final(p).pos() == skip_second(old(p).data(), old(p).pos(), vf2),
{
    skip_opt(p, vf2 & 0x0001 != 0);
    skip_opt(p, vf2 & 0x0002 != 0);
    skip_opt(p, vf2 & 0x0004 != 0);
    skip_opt(p, vf2 & 0x0008 != 0);
    skip_opt(p, vf2 & 0x0010 != 0);
    skip_opt(p, vf2 & 0x0020 != 0);
    skip_opt(p, vf2 & 0x0040 != 0);
    skip_opt(p, vf2 & 0x0080 != 0);
}

/// Reads one pair value record; `None` where the right glyph or the x
/// advance runs past the data.
fn read_pair(p: &mut Parser, left: u16, vf1: u16, vf2: u16, remaining: u16) -> (r: Option<GposKernPair>)
    requires
        remaining > 0,
    ensures
        final(p).data() == old(p).data(),
        match r {
            Some(pair) => pair_set_pairs(old(p).data(), old(p).pos(), remaining as int, left, vf1, vf2)
                == seq![pair] + pair_set_pairs(
                final(p).data(),
                final(p).pos(),
                remaining - 1,
                left,
                vf1,
                vf2,
            ),
            None => pair_set_pairs(old(p).data(), old(p).pos(), remaining as int, left, vf1, vf2)
                == Seq::<GposKernPair>::empty(),
        },
{
    let right = match p.u16() {
        Ok(v) => v,
        Err(_) => {
            return None;
        },
    };
    skip_before(p, vf1);
    let mut x_advance: i16 = 0;
    if vf1 & 0x0004 != 0 {
        x_advance = match p.i16() {
            Ok(v) => v,
            Err(_) => {
                return None;
            },
        };
    }
    skip_rest(p, vf1);
    skip_value2(p, vf2);
    Some(GposKernPair { left, right, x_advance })
}

fn parse_pair_set(
    data: &[u8],
    offset: usize,
    left_glyph: u16,
    value_format1: u16,
    value_format2: u16,
    kerning: &mut Vec<GposKernPair>,
)
    ensures
        final(kerning)@ == old(kerning)@ + pair_set_pairs(
            data@,
            offset + 2,
            be_u16(data@, offset as int) as int,
            left_glyph,
            value_format1,
            value_format2,
        ),
{
    let ghost s = data@;
    let mut p = Parser::new(data, offset);
    let pair_value_count = match p.u16() {
        Ok(v) => v,
        Err(_) => {
            assert(kerning@ =~= old(kerning)@ + pair_set_pairs(
                s,
                offset + 2,
                be_u16(s, offset as int) as int,
                left_glyph,
                value_format1,
                value_format2,
            ));
            return ;
        },
    };
    let ghost total = pair_set_pairs(
        s,
        offset + 2,
        pair_value_count as int,
        left_glyph,
        value_format1,
        value_format2,
    );
    let ghost mut done: Seq<GposKernPair> = Seq::empty();
    let mut k: u16 = 0;
    while k < pair_value_count
        invariant
            p.data() == s,
            s == data@,
            pair_value_count == be_u16(s, offset as int),
            total == pair_set_pairs(
                s,
                offset + 2,
                pair_value_count as int,
                left_glyph,
                value_format1,
                value_format2,
            ),
            k <= pair_value_count,
            kerning@ == old(kerning)@ + done,
            total == done + pair_set_pairs(
                s,
                p.pos(),
                pair_value_count - k,
                left_glyph,
                value_format1,
                value_format2,
            ),
        decreases pair_value_count - k,
    {
        let pair = match read_pair(&mut p, left_glyph, value_format1, value_format2, pair_value_count - k) {
            Some(pair) => pair,
            None => {
                proof {
                    assert(total =~= done);
                }
                return ;
            },
        };
        kerning.push(pair);
        proof {
            done = done.push(pair);
            assert(kerning@ =~= old(kerning)@ + done);
        }
        k += 1;
    }
    proof {
        assert(total =~= done);
    }
}


fn coverage_range(out: &mut Vec<u16>, a: u16, b: u16)
    ensures
        final(out)@ == old(out)@ + glyph_range(a, b),
{
    let ghost base = out@;
    let mut g: u32 = a as u32;
    proof {
        assert(base + glyph_range(a, b).take(0) =~= base);
    }
    while g <= b as u32
        invariant
            a <= g,
            g <= b + 1 || g == a,
            g <= 0x10000,
            a <= b ==> out@ == base + glyph_range(a, b).take(g - a),
            a > b ==> out@ == base,
        decreases 0x10000 - g,
    {
        out.push(g as u16);
        g += 1;
        proof {
            assert(out@ =~= base + glyph_range(a, b).take(g - a));
        }
    }
    proof {
        if a <= b {
            assert(glyph_range(a, b).take(b - a + 1) =~= glyph_range(a, b));
        } else {
            assert(out@ =~= base + glyph_range(a, b));
        }
    }
}

/// The glyphs of the coverage table at `offset`, nothing where it cannot
/// be read.
fn parse_coverage(data: &[u8], offset: usize) -> (v: Vec<u16>)
    ensures
        v@ == coverage_of(data@, offset as int),
{
    let ghost s = data@;
    let mut p = Parser::new(data, offset);
    let format = match p.u16() {
        Ok(v) => v,
        Err(_) => {
            return Vec::new();
        },
    };
    let count = match p.u16() {
        Ok(v) => v,
        Err(_) => {
            return Vec::new();
        },
    };
    let mut glyphs: Vec<u16> = Vec::new();
    if format == 1 {
        let mut k: u16 = 0;
        while k < count
            invariant
                p.data() == s,
                s == data@,
                p.pos() <= s.len(),
                format == be_u16(s, offset as int),
                count == be_u16(s, offset + 2),
                offset + 4 <= s.len(),
                k <= count,
                p.pos() == offset + 4 + 2 * k,
                format == 1,
                glyphs@ == Seq::new(k as nat, |i: int| be_u16(s, offset + 4 + 2 * i)),
            decreases count - k,
        {
            let g = match p.u16() {
                Ok(v) => v,
                Err(_) => {
                    return Vec::new();
                },
            };
            glyphs.push(g);
            k += 1;
            proof {
                assert(glyphs@ =~= Seq::new(k as nat, |i: int| be_u16(s, offset + 4 + 2 * i)));
            }
        }
        glyphs
    } else if format == 2 {
        let mut k: u16 = 0;
        while k < count
            invariant
                p.data() == s,
                s == data@,
                p.pos() <= s.len(),
                format == be_u16(s, offset as int),
                count == be_u16(s, offset + 2),
                offset + 4 <= s.len(),
                k <= count,
                p.pos() == offset + 4 + 6 * k,
                format == 2,
                glyphs@ == coverage_ranges(s, offset + 4, k as int),
            decreases count - k,
        {
            let a = match p.u16() {
                Ok(v) => v,
                Err(_) => {
                    assert(offset + 4 + 6 * count > s.len());
                    return Vec::new();
                },
            };
            let b = match p.u16() {
                Ok(v) => v,
                Err(_) => {
                    return Vec::new();
                },
            };
            match p.u16() {
                Ok(_) => {},
                Err(_) => {
                    assert(offset + 4 + 6 * count > s.len());
                    return Vec::new();
                },
            }
            coverage_range(&mut glyphs, a, b);
            k += 1;
            proof {
                assert(glyphs@ =~= coverage_ranges(s, offset + 4, k as int));
            }
        }
        glyphs
    } else {
        glyphs
    }
}

fn parse_pair_pos_subtable(data: &[u8], offset: usize, kerning: &mut Vec<GposKernPair>)
    ensures
        final(kerning)@ == old(kerning)@ + pair_pos_pairs(data@, offset as int),
{
    let ghost s = data@;
    let mut p = Parser::new(data, offset);
    let (pos_format, coverage_offset, value_format1, value_format2) = match (
        p.u16(),
        p.u16(),
        p.u16(),
        p.u16(),
    ) {
        (Ok(a), Ok(b), Ok(c), Ok(d)) => (a, b, c, d),
        _ => {
            assert(kerning@ =~= old(kerning)@ + pair_pos_pairs(s, offset as int));
            return ;
        },
    };
    let coverage = parse_coverage(data, offset_add(offset, coverage_offset as usize));
    if pos_format != 1 {
        assert(kerning@ =~= old(kerning)@ + pair_pos_pairs(s, offset as int));
        return ;
    }
    let pair_set_count = match p.u16() {
        Ok(v) => v,
        Err(_) => {
            assert(kerning@ =~= old(kerning)@ + pair_pos_pairs(s, offset as int));
            return ;
        },
    };
    let ghost cov = coverage@;
    let mut i: u16 = 0;
    while i < pair_set_count
        invariant
            p.data() == s,
            s == data@,
            cov == coverage@,
            cov == coverage_of(s, sat_add(offset as int, be_u16(s, offset + 2) as int)),
            value_format1 == be_u16(s, offset + 4),
            value_format2 == be_u16(s, offset + 6),
            pair_set_count == be_u16(s, offset + 8),
            be_u16(s, offset as int) == 1,
            offset + 10 <= s.len(),
            i <= pair_set_count,
            p.pos() == offset + 10 + 2 * i,
            old(kerning)@ + pair_pos_pairs(s, offset as int) == kerning@ + pair_sets_pairs(
                s,
                offset as int,
                cov,
                i as int,
                pair_set_count as int,
            ),
        decreases pair_set_count - i,
    {
        let pair_set_offset = match p.u16() {
            Ok(v) => v,
            Err(_) => {
                assert(kerning@ =~= old(kerning)@ + pair_pos_pairs(s, offset as int));
                return ;
            },
        };
        let left_glyph = if (i as usize) < coverage.len() {
            coverage[i as usize]
        } else {
            0
        };
        let ghost before = kerning@;
        parse_pair_set(
            data,
            offset_add(offset, pair_set_offset as usize),
            left_glyph,
            value_format1,
            value_format2,
            kerning,
        );
        i += 1;
        proof {
            assert(old(kerning)@ + pair_pos_pairs(s, offset as int) =~= kerning@ + pair_sets_pairs(
                s,
                offset as int,
                cov,
                i as int,
                pair_set_count as int,
            ));
        }
    }
    assert(kerning@ =~= old(kerning)@ + pair_pos_pairs(s, offset as int));
}

fn parse_lookup(data: &[u8], offset: usize, kerning: &mut Vec<GposKernPair>)
    ensures
        final(kerning)@ == old(kerning)@ + lookup_pairs(data@, offset as int),
{
    let ghost s = data@;
    let mut p = Parser::new(data, offset);
    let (lookup_type, subtable_count) = match (p.u16(), p.u16(), p.u16()) {
        (Ok(a), Ok(_), Ok(c)) => (a, c),
        _ => {
            assert(kerning@ =~= old(kerning)@ + lookup_pairs(s, offset as int));
            return ;
        },
    };
    if lookup_type != 2 {
        assert(kerning@ =~= old(kerning)@ + lookup_pairs(s, offset as int));
        return ;
    }
    let mut i: u16 = 0;
    while i < subtable_count
        invariant
            p.data() == s,
            s == data@,
            be_u16(s, offset as int) == 2,
            subtable_count == be_u16(s, offset + 4),
            offset + 6 <= s.len(),
            i <= subtable_count,
            p.pos() == offset + 6 + 2 * i,
            old(kerning)@ + lookup_pairs(s, offset as int) == kerning@ + lookup_subtables_pairs(
                s,
                offset as int,
                i as int,
                subtable_count as int,
            ),
        decreases subtable_count - i,
    {
        let subtable_offset = match p.u16() {
            Ok(v) => v,
            Err(_) => {
                assert(kerning@ =~= old(kerning)@ + lookup_pairs(s, offset as int));
                return ;
            },
        };
        parse_pair_pos_subtable(data, offset_add(offset, subtable_offset as usize), kerning);
        i += 1;
        proof {
            assert(old(kerning)@ + lookup_pairs(s, offset as int) =~= kerning@
                + lookup_subtables_pairs(s, offset as int, i as int, subtable_count as int));
        }
    }
    assert(kerning@ =~= old(kerning)@ + lookup_pairs(s, offset as int));
}

fn parse_lookup_list(data: &[u8], offset: usize, kerning: &mut Vec<GposKernPair>)
    ensures
        final(kerning)@ == old(kerning)@ + lookup_list_pairs(data@, offset as int),
{
    let ghost s = data@;
    let mut p = Parser::new(data, offset);
    let lookup_count = match p.u16() {
        Ok(v) => v,
        Err(_) => {
            assert(kerning@ =~= old(kerning)@ + lookup_list_pairs(s, offset as int));
            return ;
        },
    };
    let mut i: u16 = 0;
    while i < lookup_count
        invariant
            p.data() == s,
            s == data@,
            lookup_count == be_u16(s, offset as int),
            offset + 2 <= s.len(),
            i <= lookup_count,
            p.pos() == offset + 2 + 2 * i,
            old(kerning)@ + lookup_list_pairs(s, offset as int) == kerning@ + lookups_pairs(
                s,
                offset as int,
                i as int,
                lookup_count as int,
            ),
        decreases lookup_count - i,
    {
        let lookup_offset = match p.u16() {
            Ok(v) => v,
            Err(_) => {
                assert(kerning@ =~= old(kerning)@ + lookup_list_pairs(s, offset as int));
                return ;
            },
        };
        parse_lookup(data, offset_add(offset, lookup_offset as usize), kerning);
        i += 1;
        proof {
            assert(old(kerning)@ + lookup_list_pairs(s, offset as int) =~= kerning@
                + lookups_pairs(s, offset as int, i as int, lookup_count as int));
        }
    }
    assert(kerning@ =~= old(kerning)@ + lookup_list_pairs(s, offset as int));
}

impl Gpos {
    /// The kerning pairs, in the order they were read.
    pub open spec fn pairs(self) -> Seq<GposKernPair> {
        self.kerning@
    }


    /// The bytes the table was read from, which `write` writes back.
    pub open spec fn raw(self) -> Seq<u8> {
        self.raw@
    }

    /// `GPOS`
    pub fn tag() -> (t: Tag)
        ensures
            t.0@ == seq![0x47u8, 0x50, 0x4f, 0x53],
    {
        Tag([0x47, 0x50, 0x4f, 0x53])
    }

    /// Reads the header and the pair kerning of format 1 pair adjustment
    /// lookups; everything after the header that cannot be read is passed
    /// over. The bytes are kept.
    pub fn parse(data: &[u8]) -> (r: Result<Self, FontError>)
        ensures
            match r {
                Ok(g) => data@.len() >= 10 && g.pairs() == gpos_kerning(data@) && g.raw()
                    == data@,
                Err(e) => data@.len() < 10 && e is OutOfBounds,
            },
    {
        let raw = vstd::slice::slice_to_vec(data);
        let mut kerning: Vec<GposKernPair> = Vec::new();
        let mut p = Parser::new(data, 0);
        let major_version = p.u16()?;
        let _minor_version = p.u16()?;
        let _script_list_offset = p.u16()?;
        let _feature_list_offset = p.u16()?;
        let lookup_list_offset = p.u16()? as usize;
        if major_version >= 1 && lookup_list_offset > 0 && lookup_list_offset < data.len() {
            parse_lookup_list(data, lookup_list_offset, &mut kerning);
        }
        proof {
            assert(kerning@ =~= gpos_kerning(data@));
        }
        Ok(Gpos { kerning, raw })
    }

    pub fn write(&self, writer: &mut Writer) -> (r: Result<(), FontError>)
        ensures
            r is Ok,
            final(writer)@ == old(writer)@ + self.raw(),
    {
        writer.write_bytes(self.raw.as_slice());
        Ok(())
    }
}

} // verus!
