//! Copies of tables that keep every byte and field, for operations that
//! build a new font from parts of an old one.
use vstd::prelude::*;
use crate::error::Tag;
use crate::font::{entries_view, vec_view};
use crate::font_build::{copy_glyph, same_glyph};
use crate::tables::glyf::{GlyfTable, Glyph};
use crate::tables::hmtx::Hmtx;
use crate::tables::loca::LocaTable;
use crate::tables::name::{records_view, Name, NameRecord};
use crate::tables::post::Post;
use crate::tables::var::{Gvar, Hvar};

verus! {

/// A copy of optional table bytes.
pub fn copy_opt_bytes(o: &Option<Vec<u8>>) -> (r: Option<Vec<u8>>)
    ensures
        vec_view(r) == vec_view(*o),
{
    match o {
        Some(v) => Some(vstd::slice::slice_to_vec(v.as_slice())),
        None => None,
    }
}

/// A copy of a list of strings.
pub fn copy_strings(v: &Vec<String>) -> (r: Vec<String>)
    ensures
        r@ == v@,
{
    let mut out: Vec<String> = Vec::new();
    let n = v.len();
    let mut i: usize = 0;
    while i < n
        invariant
            n == v@.len(),
            i <= n,
            out@ == v@.subrange(0, i as int),
        decreases n - i,
    {
        out.push(v[i].clone());
        i += 1;
        proof {
            assert(out@ =~= v@.subrange(0, i as int));
        }
    }
    proof {
        assert(v@.subrange(0, n as int) =~= v@);
    }
    out
}

/// The glyph names of a `post` table, when it lists them.
pub open spec fn names_of(p: Post) -> Option<Seq<String>> {
    match p.names {
        Some(v) => Some(v@),
        None => None,
    }
}

/// Two `post` tables with the same fields and glyph names.
pub open spec fn same_post(a: Post, b: Post) -> bool {
    &&& a.version == b.version
    &&& a.italic_angle == b.italic_angle
    &&& a.underline_position == b.underline_position
    &&& a.underline_thickness == b.underline_thickness
    &&& a.is_fixed_pitch == b.is_fixed_pitch
    &&& a.min_mem_type42 == b.min_mem_type42
    &&& a.max_mem_type42 == b.max_mem_type42
    &&& a.min_mem_type1 == b.min_mem_type1
    &&& a.max_mem_type1 == b.max_mem_type1
    &&& names_of(a) == names_of(b)
}

pub fn copy_post(p: &Post) -> (r: Post)
    ensures
        same_post(r, *p),
{
    Post {
        version: p.version,
        italic_angle: p.italic_angle,
        underline_position: p.underline_position,
        underline_thickness: p.underline_thickness,
        is_fixed_pitch: p.is_fixed_pitch,
        min_mem_type42: p.min_mem_type42,
        max_mem_type42: p.max_mem_type42,
        min_mem_type1: p.min_mem_type1,
        max_mem_type1: p.max_mem_type1,
        names: match &p.names {
            Some(v) => Some(copy_strings(v)),
            None => None,
        },
    }
}

/// Two `name` tables with the same header and records.
pub open spec fn same_name(a: Name, b: Name) -> bool {
    &&& a.format == b.format
    &&& a.count == b.count
    &&& a.string_offset == b.string_offset
    &&& records_view(a.records@) == records_view(b.records@)
}

pub fn copy_name(n: &Name) -> (r: Name)
    ensures
        same_name(r, *n),
{
    let mut records: Vec<NameRecord> = Vec::new();
    let m = n.records.len();
    let mut i: usize = 0;
    while i < m
        invariant
            m == n.records@.len(),
            i <= m,
            records@.len() == i,
            records_view(records@) == records_view(n.records@.subrange(0, i as int)),
        decreases m - i,
    {
        let rec = &n.records[i];
        let ghost before = records@;
        records.push(
            NameRecord {
                platform_id: rec.platform_id,
                encoding_id: rec.encoding_id,
                language_id: rec.language_id,
                name_id: rec.name_id,
                string: rec.string.clone(),
            },
        );
        i += 1;
        proof {
            assert forall|j: int| 0 <= j < i implies #[trigger] records_view(records@)[j] == records_view(
                n.records@.subrange(0, i as int),
            )[j] by {
                if j < i - 1 {
                    assert(records@[j] == before[j]);
                    assert(records_view(before)[j] == records_view(n.records@.subrange(0, i - 1))[j]);
                }
            }
            assert(records_view(records@) =~= records_view(n.records@.subrange(0, i as int)));
        }
    }
    proof {
        assert(n.records@.subrange(0, m as int) =~= n.records@);
    }
    Name { format: n.format, count: n.count, string_offset: n.string_offset, records }
}

/// Two variation tables with the same versions and bytes.
pub open spec fn hvar_view(v: Option<Hvar>) -> Option<(u16, u16, Seq<u8>)> {
    match v {
        Some(t) => Some((t.major_version, t.minor_version, t.raw@)),
        None => None,
    }
}

pub open spec fn gvar_view(v: Option<Gvar>) -> Option<(u16, u16, Seq<u8>)> {
    match v {
        Some(t) => Some((t.major_version, t.minor_version, t.raw@)),
        None => None,
    }
}

pub fn copy_hvar(v: &Option<Hvar>) -> (r: Option<Hvar>)
    ensures
        hvar_view(r) == hvar_view(*v),
{
    match v {
        Some(t) => Some(
            Hvar {
                major_version: t.major_version,
                minor_version: t.minor_version,
                raw: vstd::slice::slice_to_vec(t.raw.as_slice()),
            },
        ),
        None => None,
    }
}

pub fn copy_gvar(v: &Option<Gvar>) -> (r: Option<Gvar>)
    ensures
        gvar_view(r) == gvar_view(*v),
{
    match v {
        Some(t) => Some(
            Gvar {
                major_version: t.major_version,
                minor_version: t.minor_version,
                raw: vstd::slice::slice_to_vec(t.raw.as_slice()),
            },
        ),
        None => None,
    }
}

/// A copy of tagged raw tables.
pub fn copy_raw(v: &Vec<(Tag, Vec<u8>)>) -> (r: Vec<(Tag, Vec<u8>)>)
    ensures
        entries_view(r@) == entries_view(v@),
{
    let mut out: Vec<(Tag, Vec<u8>)> = Vec::new();
    let n = v.len();
    let mut i: usize = 0;
    while i < n
        invariant
            n == v@.len(),
            i <= n,
            out@.len() == i,
            entries_view(out@) == entries_view(v@.subrange(0, i as int)),
        decreases n - i,
    {
        let t = v[i].0;
        let ghost before = out@;
        out.push((t, vstd::slice::slice_to_vec(v[i].1.as_slice())));
        i += 1;
        proof {
            assert forall|j: int| 0 <= j < i implies #[trigger] entries_view(out@)[j] == entries_view(
                v@.subrange(0, i as int),
            )[j] by {
                if j < i - 1 {
                    assert(out@[j] == before[j]);
                    assert(entries_view(before)[j] == entries_view(v@.subrange(0, i - 1))[j]);
                }
            }
            assert(entries_view(out@) =~= entries_view(v@.subrange(0, i as int)));
        }
    }
    proof {
        assert(v@.subrange(0, n as int) =~= v@);
    }
    out
}

pub fn copy_hmtx(h: &Hmtx) -> (r: Hmtx)
    ensures
        r.h_metrics@ == h.h_metrics@,
        r.left_side_bearings@ == h.left_side_bearings@,
{
    Hmtx {
        h_metrics: vstd::slice::slice_to_vec(h.h_metrics.as_slice()),
        left_side_bearings: vstd::slice::slice_to_vec(h.left_side_bearings.as_slice()),
    }
}

pub fn copy_loca(l: &Option<LocaTable>) -> (r: Option<LocaTable>)
    ensures
        match (r, *l) {
            (Some(a), Some(b)) => a.format == b.format && a.offsets@ == b.offsets@,
            (None, None) => true,
            _ => false,
        },
{
    match l {
        Some(t) => Some(LocaTable { offsets: vstd::slice::slice_to_vec(t.offsets.as_slice()), format: t.format }),
        None => None,
    }
}

pub fn copy_glyf(g: &Option<GlyfTable>) -> (r: Option<GlyfTable>)
    ensures
        match (r, *g) {
            (Some(a), Some(b)) => a.glyphs@.len() == b.glyphs@.len() && forall|i: int|
                0 <= i < a.glyphs@.len() ==> same_glyph(#[trigger] a.glyphs@[i], b.glyphs@[i]),
            (None, None) => true,
            _ => false,
        },
{
    match g {
        Some(t) => {
            let mut glyphs: Vec<Glyph> = Vec::new();
            let n = t.glyphs.len();
            let mut i: usize = 0;
            while i < n
                invariant
                    n == t.glyphs@.len(),
                    i <= n,
                    glyphs@.len() == i,
                    forall|j: int| 0 <= j < i ==> same_glyph(#[trigger] glyphs@[j], t.glyphs@[j]),
                decreases n - i,
            {
                let c = copy_glyph(&t.glyphs[i]);
                glyphs.push(c);
                i += 1;
            }
            Some(GlyfTable { glyphs })
        },
        None => None,
    }
}

} // verus!
