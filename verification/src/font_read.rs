//! Reading a font file: the table directory, then each table it names.
use vstd::prelude::*;
use crate::codec::{be_u16, be_u32};
use crate::error::{FontError, Tag};
use crate::font::{entries_view, first_with_tag, lemma_first_with_tag, vec_view, Font, SfntVersion, TableRecord};
use crate::parse::{tag_at, Parser};
use crate::tables::cff::{cff_parsed, Cff};
use crate::tables::cmap::{cmap_fits, cmap_parsed, Cmap};
use crate::tables::colr::{colr_fits, colr_parsed, Colr};
use crate::tables::cpal::{cpal_fits, cpal_parsed, palettes_fit, Cpal};
use crate::tables::fvar::{fvar_fits, fvar_parsed, Fvar};
use crate::tables::glyf::GlyfTable;
use crate::tables::glyf_read::glyph_readable;
use crate::tables::gpos::{gpos_kerning, Gpos};
use crate::tables::gsub::Gsub;
use crate::tables::head::{Head, HEAD_SIZE};
use crate::tables::hhea::{Hhea, HHEA_SIZE};
use crate::tables::hmtx::{hmtx_parsed, Hmtx};
use crate::tables::kern::{kern_fits, kern_parsed, Kern};
use crate::tables::loca::LocaTable;
use crate::tables::maxp::{maxp_size, Maxp};
use crate::tables::name::{name_fits, record_matches, Name};
use crate::tables::os2::{os2_size, Os2};
use crate::tables::post::{post_fits, Post};
use crate::tables::stat::{stat_fits, stat_parsed, Stat};
use crate::tables::svg::{svg_fits, svg_parsed, Svg};
use crate::tables::var::{Gvar, Hvar};
use crate::tables::Table;

verus! {

/// The directory record at byte `i`.
pub open spec fn record_at(s: Seq<u8>, i: int) -> TableRecord {
    TableRecord {
        tag: tag_at(s, i),
        checksum: be_u32(s, i + 4),
        offset: be_u32(s, i + 8),
        length: be_u32(s, i + 12),
    }
}

/// The `n` directory records after the 12-byte header.
pub open spec fn records_of(s: Seq<u8>, n: nat) -> Seq<TableRecord> {
    Seq::new(n, |k: int| record_at(s, 12 + 16 * k))
}

/// The flavour named by the first word of a font file.
pub open spec fn version_of(word: u32) -> Option<SfntVersion> {
    if word == 0x00010000 {
        Some(SfntVersion::TrueType)
    } else if word == 0x4F54544F {
        Some(SfntVersion::Cff)
    } else {
        None
    }
}

/// The header names a known flavour and the whole directory is there.
pub open spec fn directory_fits(s: Seq<u8>) -> bool {
    &&& s.len() >= 12
    &&& version_of(be_u32(s, 0)) is Some
    &&& 12 + 16 * be_u16(s, 4) <= s.len()
}

pub open spec fn record_tags(recs: Seq<TableRecord>) -> Seq<(Seq<u8>, Seq<u8>)> {
    Seq::new(recs.len(), |i: int| (recs[i].tag.0@, Seq::<u8>::empty()))
}

/// The first record with tag `t`.
pub open spec fn find_spec(recs: Seq<TableRecord>, t: Seq<u8>) -> Option<TableRecord> {
    match first_with_tag(record_tags(recs), t) {
        Some(i) => Some(recs[i]),
        None => None,
    }
}

/// The bytes a record points at, when they lie inside the file.
pub open spec fn table_bytes(s: Seq<u8>, rec: TableRecord) -> Option<Seq<u8>> {
    if rec.offset + rec.length <= s.len() {
        Some(s.subrange(rec.offset as int, rec.offset + rec.length))
    } else {
        None
    }
}

/// The bytes of the first table tagged `t`, when it is there and inside
/// the file.
pub open spec fn opt_table(s: Seq<u8>, recs: Seq<TableRecord>, t: Seq<u8>) -> Option<Seq<u8>> {
    match find_spec(recs, t) {
        Some(r) => table_bytes(s, r),
        None => None,
    }
}

/// A hinting table kept as bytes: present when its record is, empty when
/// its bytes lie outside the file.
pub open spec fn hint_table(s: Seq<u8>, recs: Seq<TableRecord>, t: Seq<u8>) -> Option<Seq<u8>> {
    match find_spec(recs, t) {
        Some(r) => Some(
            match table_bytes(s, r) {
                Some(b) => b,
                None => Seq::empty(),
            },
        ),
        None => None,
    }
}

/// The tags that `read` decodes into fields of its own.
pub open spec fn known_tag(t: Seq<u8>) -> bool {
    ||| t == seq![0x68u8, 0x65, 0x61, 0x64]
    ||| t == seq![0x68u8, 0x68, 0x65, 0x61]
    ||| t == seq![0x6du8, 0x61, 0x78, 0x70]
    ||| t == seq![0x70u8, 0x6f, 0x73, 0x74]
    ||| t == seq![0x6eu8, 0x61, 0x6d, 0x65]
    ||| t == seq![0x63u8, 0x6d, 0x61, 0x70]
    ||| t == seq![0x4fu8, 0x53, 0x2f, 0x32]
    ||| t == seq![0x67u8, 0x6c, 0x79, 0x66]
    ||| t == seq![0x6cu8, 0x6f, 0x63, 0x61]
    ||| t == seq![0x68u8, 0x6d, 0x74, 0x78]
    ||| t == seq![0x6bu8, 0x65, 0x72, 0x6e]
    ||| t == seq![0x63u8, 0x76, 0x74, 0x20]
    ||| t == seq![0x70u8, 0x72, 0x65, 0x70]
    ||| t == seq![0x66u8, 0x70, 0x67, 0x6d]
    ||| t == seq![0x47u8, 0x50, 0x4f, 0x53]
    ||| t == seq![0x47u8, 0x53, 0x55, 0x42]
    ||| t == seq![0x48u8, 0x56, 0x41, 0x52]
    ||| t == seq![0x67u8, 0x76, 0x61, 0x72]
    ||| t == seq![0x66u8, 0x76, 0x61, 0x72]
    ||| t == seq![0x53u8, 0x54, 0x41, 0x54]
    ||| t == seq![0x43u8, 0x46, 0x46, 0x20]
}

/// Every record of a table that `read` keeps as raw bytes lies inside the
/// file.
pub open spec fn raw_fits(s: Seq<u8>, recs: Seq<TableRecord>) -> bool {
    forall|i: int|
        0 <= i < recs.len() && !known_tag(#[trigger] recs[i].tag.0@) ==> table_bytes(s, recs[i]) is Some
}

/// The tables `read` keeps as raw bytes, in directory order.
pub open spec fn raw_of(s: Seq<u8>, recs: Seq<TableRecord>) -> Seq<(Seq<u8>, Seq<u8>)>
    decreases recs.len(),
{
    if recs.len() == 0 {
        Seq::empty()
    } else {
        let r = recs.last();
        let before = raw_of(s, recs.drop_last());
        if known_tag(r.tag.0@) {
            before
        } else {
            before.push((r.tag.0@, s.subrange(r.offset as int, r.offset + r.length)))
        }
    }
}

/// `loca` holds the `n + 1` entries at `off`, long or short.
pub open spec fn loca_fits(s: Seq<u8>, off: int, n: int, long: bool) -> bool {
    off + (n + 1) * (if long { 4int } else { 2int }) <= s.len()
}

/// The glyph offsets of `loca`: long entries as they are, short entries
/// doubled.
pub open spec fn loca_offsets(s: Seq<u8>, off: int, n: nat, long: bool) -> Seq<u32> {
    Seq::new(
        n + 1,
        |k: int|
            if long {
                be_u32(s, off + 4 * k)
            } else {
                (be_u16(s, off + 2 * k) * 2) as u32
            },
    )
}

/// The version word, the table count and the directory records.
pub fn read_directory(buf: &[u8]) -> (r: Result<(SfntVersion, Vec<TableRecord>), FontError>)
    ensures
        match r {
            Ok((v, recs)) => {
                &&& directory_fits(buf@)
                &&& version_of(be_u32(buf@, 0)) == Some(v)
                &&& recs@ == records_of(buf@, be_u16(buf@, 4) as nat)
            },
            Err(e) => {
                &&& !directory_fits(buf@)
                &&& if buf@.len() >= 4 && version_of(be_u32(buf@, 0)) is None {
                    e matches FontError::InvalidTable { tag: t, .. } && t.0@ == seq![
                        0x73u8,
                        0x66,
                        0x6e,
                        0x74,
                    ]
                } else {
                    e is OutOfBounds
                }
            },
        },
{
    let ghost s = buf@;
    let mut p = Parser::new(buf, 0);
    let word = p.u32()?;
    let version = if word == 0x00010000 {
        SfntVersion::TrueType
    } else if word == 0x4F54544F {
        SfntVersion::Cff
    } else {
        let t = Tag([0x73, 0x66, 0x6e, 0x74]);
        assert(t.0@ =~= seq![0x73u8, 0x66, 0x6e, 0x74]);
        return Err(FontError::invalid_table(t, "invalid sfnt version"));
    };
    let num_tables = p.u16()?;
    let _search_range = p.u16()?;
    let _entry_selector = p.u16()?;
    let _range_shift = p.u16()?;
    let mut tables: Vec<TableRecord> = Vec::new();
    let mut k: u16 = 0;
    while k < num_tables
        invariant
            s == buf@,
            p.data() == s,
            s.len() >= 12,
            version_of(be_u32(s, 0)) == Some(version),
            num_tables == be_u16(s, 4),
            k <= num_tables,
            p.pos() == 12 + 16 * k,
            12 + 16 * k <= s.len(),
            tables@ == records_of(s, k as nat),
        decreases num_tables - k,
    {
        let ghost at = p.pos();
        let tag = p.tag()?;
        let checksum = p.u32()?;
        let offset = p.u32()?;
        let length = p.u32()?;
        tables.push(TableRecord { tag, checksum, offset, length });
        k += 1;
        proof {
            assert(tables@ =~= records_of(s, k as nat));
        }
    }
    Ok((version, tables))
}

/// The index of the first record with the given tag.
pub fn find_record(tables: &Vec<TableRecord>, tag: Tag) -> (r: Option<usize>)
    ensures
        match r {
            Some(i) => i < tables@.len() && first_with_tag(record_tags(tables@), tag.0@) == Some(
                i as int,
            ),
            None => first_with_tag(record_tags(tables@), tag.0@) is None,
        },
{
    let ghost rt = record_tags(tables@);
    let n = tables.len();
    let mut i: usize = 0;
    while i < n && !(tables[i].tag == tag)
        invariant
            n == tables@.len(),
            rt == record_tags(tables@),
            i <= n,
            forall|j: int| 0 <= j < i ==> #[trigger] rt[j].0 != tag.0@,
        decreases n - i,
    {
        i += 1;
    }
    proof {
        lemma_first_with_tag(rt, tag.0@, i as int);
    }
    if i < n {
        Some(i)
    } else {
        None
    }
}

/// A copy of the bytes a record points at, when they lie inside the file.
pub fn table_slice(buf: &[u8], rec: &TableRecord) -> (r: Option<Vec<u8>>)
    ensures
        vec_view(r) == table_bytes(buf@, *rec),
{
    let p = Parser::new(buf, rec.offset as usize);
    match p.slice(rec.length as usize) {
        Ok(d) => Some(vstd::slice::slice_to_vec(d)),
        Err(_) => None,
    }
}

/// The bytes of the first table tagged `tag`, when present and inside the
/// file.
pub fn opt_bytes(buf: &[u8], tables: &Vec<TableRecord>, tag: Tag) -> (r: Option<Vec<u8>>)
    ensures
        vec_view(r) == opt_table(buf@, tables@, tag.0@),
{
    match find_record(tables, tag) {
        Some(i) => table_slice(buf, &tables[i]),
        None => None,
    }
}

/// A hinting table's bytes: empty when they lie outside the file.
pub fn hint_bytes(buf: &[u8], tables: &Vec<TableRecord>, tag: Tag) -> (r: Option<Vec<u8>>)
    ensures
        vec_view(r) == hint_table(buf@, tables@, tag.0@),
{
    match find_record(tables, tag) {
        Some(i) => match table_slice(buf, &tables[i]) {
            Some(d) => Some(d),
            None => Some(Vec::new()),
        },
        None => None,
    }
}

fn tag_is(t: &Tag, a: u8, b: u8, c: u8, d: u8) -> (r: bool)
    ensures
        r == (t.0@ == seq![a, b, c, d]),
{
    let r = t.0[0] == a && t.0[1] == b && t.0[2] == c && t.0[3] == d;
    proof {
        if r {
            assert(t.0@ =~= seq![a, b, c, d]);
        }
    }
    r
}

/// Whether `read` decodes this table into a field of its own.
pub fn is_known(t: &Tag) -> (r: bool)
    ensures
        r == known_tag(t.0@),
{
    tag_is(t, 0x68, 0x65, 0x61, 0x64) || tag_is(t, 0x68, 0x68, 0x65, 0x61) || tag_is(
        t,
        0x6d,
        0x61,
        0x78,
        0x70,
    ) || tag_is(t, 0x70, 0x6f, 0x73, 0x74) || tag_is(t, 0x6e, 0x61, 0x6d, 0x65) || tag_is(
        t,
        0x63,
        0x6d,
        0x61,
        0x70,
    ) || tag_is(t, 0x4f, 0x53, 0x2f, 0x32) || tag_is(t, 0x67, 0x6c, 0x79, 0x66) || tag_is(
        t,
        0x6c,
        0x6f,
        0x63,
        0x61,
    ) || tag_is(t, 0x68, 0x6d, 0x74, 0x78) || tag_is(t, 0x6b, 0x65, 0x72, 0x6e) || tag_is(
        t,
        0x63,
        0x76,
        0x74,
        0x20,
    ) || tag_is(t, 0x70, 0x72, 0x65, 0x70) || tag_is(t, 0x66, 0x70, 0x67, 0x6d) || tag_is(
        t,
        0x47,
        0x50,
        0x4f,
        0x53,
    ) || tag_is(t, 0x47, 0x53, 0x55, 0x42) || tag_is(t, 0x48, 0x56, 0x41, 0x52) || tag_is(
        t,
        0x67,
        0x76,
        0x61,
        0x72,
    ) || tag_is(t, 0x66, 0x76, 0x61, 0x72) || tag_is(t, 0x53, 0x54, 0x41, 0x54) || tag_is(
        t,
        0x43,
        0x46,
        0x46,
        0x20,
    )
}

/// The tables that `read` keeps as raw bytes.
pub fn collect_raw(buf: &[u8], tables: &Vec<TableRecord>) -> (r: Result<
    Vec<(Tag, Vec<u8>)>,
    FontError,
>)
    ensures
        match r {
            Ok(v) => raw_fits(buf@, tables@) && entries_view(v@) == raw_of(buf@, tables@),
            Err(e) => !raw_fits(buf@, tables@) && e is OutOfBounds,
        },
{
    let ghost s = buf@;
    let n = tables.len();
    let mut out: Vec<(Tag, Vec<u8>)> = Vec::new();
    let mut i: usize = 0;
    proof {
        assert(entries_view(out@) =~= raw_of(s, tables@.subrange(0, 0)));
    }
    while i < n
        invariant
            s == buf@,
            n == tables@.len(),
            i <= n,
            raw_fits(s, tables@.subrange(0, i as int)),
            entries_view(out@) == raw_of(s, tables@.subrange(0, i as int)),
        decreases n - i,
    {
        let rec = &tables[i];
        let ghost sub = tables@.subrange(0, i + 1);
        proof {
            assert(sub.drop_last() =~= tables@.subrange(0, i as int));
            assert(sub.last() == tables@[i as int]);
        }
        if !is_known(&rec.tag) {
            let p = Parser::new(buf, rec.offset as usize);
            let data = match p.slice(rec.length as usize) {
                Ok(d) => d,
                Err(e) => {
                    proof {
                        assert(!known_tag(tables@[i as int].tag.0@));
                        assert(table_bytes(s, tables@[i as int]) is None);
                    }
                    return Err(e);
                },
            };
            out.push((rec.tag, vstd::slice::slice_to_vec(data)));
            proof {
                assert(entries_view(out@) =~= raw_of(s, sub));
            }
        }
        i += 1;
        proof {
            assert forall|j: int| 0 <= j < sub.len() && !known_tag(#[trigger] sub[j].tag.0@) implies table_bytes(
                s,
                sub[j],
            ) is Some by {
                if j < i - 1 {
                    assert(sub[j] == tables@.subrange(0, i - 1)[j]);
                }
            }
        }
    }
    proof {
        assert(tables@.subrange(0, n as int) =~= tables@);
    }
    Ok(out)
}

/// The `loca` entries at `offset` for `num_glyphs` glyphs, long or short.
fn parse_loca(buf: &[u8], offset: usize, num_glyphs: usize, long_format: bool) -> (r: Result<
    LocaTable,
    FontError,
>)
    requires
        num_glyphs <= 0xFFFF,
    ensures
        match r {
            Ok(l) => {
                &&& loca_fits(buf@, offset as int, num_glyphs as int, long_format)
                &&& l.offsets@ == loca_offsets(buf@, offset as int, num_glyphs as nat, long_format)
                &&& l.format == if long_format {
                    1u16
                } else {
                    0u16
                }
            },
            Err(e) => !loca_fits(buf@, offset as int, num_glyphs as int, long_format)
                && e is OutOfBounds,
        },
{
    let ghost s = buf@;
    let mut p = Parser::new(buf, offset);
    let mut offsets: Vec<u32> = Vec::new();
    let w: usize = if long_format {
        4
    } else {
        2
    };
    let mut k: usize = 0;
    while k <= num_glyphs
        invariant
            s == buf@,
            p.data() == s,
            num_glyphs <= 0xFFFF,
            w == (if long_format { 4usize } else { 2usize }),
            k <= num_glyphs + 1,
            p.pos() == offset + w * k,
            k > 0 ==> offset + w * k <= s.len(),
            offsets@ == loca_offsets(s, offset as int, num_glyphs as nat, long_format).subrange(
                0,
                k as int,
            ),
        decreases num_glyphs + 1 - k,
    {
        if long_format {
            let v = match p.u32() {
                Ok(v) => v,
                Err(e) => {
                    return Err(e);
                },
            };
            offsets.push(v);
        } else {
            let v = match p.u16() {
                Ok(v) => v,
                Err(e) => {
                    return Err(e);
                },
            };
            offsets.push(v as u32 * 2);
        }
        k += 1;
        proof {
            assert(offsets@ =~= loca_offsets(s, offset as int, num_glyphs as nat, long_format).subrange(
                0,
                k as int,
            ));
        }
    }
    proof {
        assert(offsets@ =~= loca_offsets(s, offset as int, num_glyphs as nat, long_format));
    }
    Ok(
        LocaTable {
            offsets,
            format: if long_format {
                1
            } else {
                0
            },
        },
    )
}


/// The eight tables every font must have.
pub open spec fn required_tag(t: Seq<u8>) -> bool {
    ||| t == seq![0x68u8, 0x65, 0x61, 0x64]
    ||| t == seq![0x68u8, 0x68, 0x65, 0x61]
    ||| t == seq![0x6du8, 0x61, 0x78, 0x70]
    ||| t == seq![0x70u8, 0x6f, 0x73, 0x74]
    ||| t == seq![0x6eu8, 0x61, 0x6d, 0x65]
    ||| t == seq![0x63u8, 0x6d, 0x61, 0x70]
    ||| t == seq![0x4fu8, 0x53, 0x2f, 0x32]
    ||| t == seq![0x68u8, 0x6d, 0x74, 0x78]
}

/// Where the first table tagged `tag` starts; missing-table error when
/// there is none.
fn required_offset(tables: &Vec<TableRecord>, tag: Tag) -> (r: Result<usize, FontError>)
    ensures
        match r {
            Ok(off) => find_spec(tables@, tag.0@) matches Some(rec) && off == rec.offset,
            Err(e) => find_spec(tables@, tag.0@) is None && e == FontError::MissingTable(tag),
        },
{
    match find_record(tables, tag) {
        Some(i) => Ok(tables[i].offset as usize),
        None => Err(FontError::MissingTable(tag)),
    }
}

/// Where the first table tagged `tag` starts, if there is one.
fn optional_offset(tables: &Vec<TableRecord>, tag: Tag) -> (r: Option<usize>)
    ensures
        match r {
            Some(off) => find_spec(tables@, tag.0@) matches Some(rec) && off == rec.offset,
            None => find_spec(tables@, tag.0@) is None,
        },
{
    match find_record(tables, tag) {
        Some(i) => Some(tables[i].offset as usize),
        None => None,
    }
}

/// `GPOS` as `read` keeps it: decoded when its bytes are there and hold a
/// header.
pub open spec fn gpos_read(g: Option<Gpos>, s: Seq<u8>, recs: Seq<TableRecord>) -> bool {
    match opt_table(s, recs, seq![0x47u8, 0x50, 0x4f, 0x53]) {
        Some(d) => if d.len() >= 10 {
            g matches Some(x) && x.raw() == d && x.pairs() == gpos_kerning(d)
        } else {
            g is None
        },
        None => g is None,
    }
}

pub open spec fn gsub_read(g: Option<Gsub>, s: Seq<u8>, recs: Seq<TableRecord>) -> bool {
    match opt_table(s, recs, seq![0x47u8, 0x53, 0x55, 0x42]) {
        Some(d) => if d.len() >= 10 {
            g matches Some(x) && Gsub::parsed_from(x, d)
        } else {
            g is None
        },
        None => g is None,
    }
}

pub open spec fn hvar_read(v: Option<Hvar>, s: Seq<u8>, recs: Seq<TableRecord>) -> bool {
    match opt_table(s, recs, seq![0x48u8, 0x56, 0x41, 0x52]) {
        Some(d) => if d.len() >= 4 {
            v matches Some(x) && x.raw@ == d && x.major_version == be_u16(d, 0)
                && x.minor_version == be_u16(d, 2)
        } else {
            v is None
        },
        None => v is None,
    }
}

pub open spec fn gvar_read(v: Option<Gvar>, s: Seq<u8>, recs: Seq<TableRecord>) -> bool {
    match opt_table(s, recs, seq![0x67u8, 0x76, 0x61, 0x72]) {
        Some(d) => if d.len() >= 4 {
            v matches Some(x) && x.raw@ == d && x.major_version == be_u16(d, 0)
                && x.minor_version == be_u16(d, 2)
        } else {
            v is None
        },
        None => v is None,
    }
}

pub open spec fn fvar_read(v: Option<Fvar>, s: Seq<u8>, recs: Seq<TableRecord>) -> bool {
    match opt_table(s, recs, seq![0x66u8, 0x76, 0x61, 0x72]) {
        Some(d) => if fvar_fits(d) {
            v matches Some(x) && fvar_parsed(x, d)
        } else {
            v is None
        },
        None => v is None,
    }
}

pub open spec fn stat_read(v: Option<Stat>, s: Seq<u8>, recs: Seq<TableRecord>) -> bool {
    match opt_table(s, recs, seq![0x53u8, 0x54, 0x41, 0x54]) {
        Some(d) => if stat_fits(d) {
            v matches Some(x) && stat_parsed(x, d)
        } else {
            v is None
        },
        None => v is None,
    }
}

pub open spec fn cff_read(v: Option<Cff>, s: Seq<u8>, recs: Seq<TableRecord>) -> bool {
    match opt_table(s, recs, seq![0x43u8, 0x46, 0x46, 0x20]) {
        Some(d) => if d.len() >= 3 && (d.len() >= 4 || d[0] == 2) {
            v matches Some(x) && cff_parsed(x, d)
        } else {
            v is None
        },
        None => v is None,
    }
}

fn read_gpos(buf: &[u8], tables: &Vec<TableRecord>) -> (r: Option<Gpos>)
    ensures
        gpos_read(r, buf@, tables@),
{
    match opt_bytes(buf, tables, Gpos::tag()) {
        Some(d) => match Gpos::parse(d.as_slice()) {
            Ok(g) => Some(g),
            Err(_) => None,
        },
        None => None,
    }
}

fn read_gsub(buf: &[u8], tables: &Vec<TableRecord>) -> (r: Option<Gsub>)
    ensures
        gsub_read(r, buf@, tables@),
{
    match opt_bytes(buf, tables, Gsub::tag()) {
        Some(d) => match Gsub::parse(d.as_slice()) {
            Ok(g) => Some(g),
            Err(_) => None,
        },
        None => None,
    }
}

fn read_hvar(buf: &[u8], tables: &Vec<TableRecord>) -> (r: Option<Hvar>)
    ensures
        hvar_read(r, buf@, tables@),
{
    match opt_bytes(buf, tables, Hvar::tag()) {
        Some(d) => match Hvar::parse(d.as_slice()) {
            Ok(g) => Some(g),
            Err(_) => None,
        },
        None => None,
    }
}

fn read_gvar(buf: &[u8], tables: &Vec<TableRecord>) -> (r: Option<Gvar>)
    ensures
        gvar_read(r, buf@, tables@),
{
    match opt_bytes(buf, tables, Gvar::tag()) {
        Some(d) => match Gvar::parse(d.as_slice()) {
            Ok(g) => Some(g),
            Err(_) => None,
        },
        None => None,
    }
}

fn read_fvar(buf: &[u8], tables: &Vec<TableRecord>) -> (r: Option<Fvar>)
    ensures
        fvar_read(r, buf@, tables@),
{
    match opt_bytes(buf, tables, Fvar::tag()) {
        Some(d) => match Fvar::parse(d.as_slice()) {
            Ok(g) => Some(g),
            Err(_) => None,
        },
        None => None,
    }
}

fn read_stat(buf: &[u8], tables: &Vec<TableRecord>) -> (r: Option<Stat>)
    ensures
        stat_read(r, buf@, tables@),
{
    match opt_bytes(buf, tables, Stat::tag()) {
        Some(d) => match Stat::parse(d.as_slice()) {
            Ok(g) => Some(g),
            Err(_) => None,
        },
        None => None,
    }
}

fn read_cff(buf: &[u8], tables: &Vec<TableRecord>) -> (r: Option<Cff>)
    ensures
        cff_read(r, buf@, tables@),
{
    match opt_bytes(buf, tables, Cff::tag()) {
        Some(d) => match Cff::parse(d.as_slice()) {
            Ok(g) => Some(g),
            Err(_) => None,
        },
        None => None,
    }
}

/// `COLR` as `read` keeps it: decoded at its offset when the header and
/// both record arrays lie inside the file.
pub open spec fn colr_read(v: Option<Colr>, s: Seq<u8>, recs: Seq<TableRecord>) -> bool {
    match find_spec(recs, seq![0x43u8, 0x4f, 0x4c, 0x52]) {
        Some(r) => if colr_fits(s, r.offset as int) {
            v matches Some(c) && colr_parsed(c, s, r.offset as int)
        } else {
            v is None
        },
        None => v is None,
    }
}

fn read_colr(buf: &[u8], tables: &Vec<TableRecord>) -> (r: Option<Colr>)
    ensures
        colr_read(r, buf@, tables@),
{
    match optional_offset(tables, Colr::tag()) {
        Some(off) => match Colr::parse(buf, off) {
            Ok(c) => Some(c),
            Err(_) => None,
        },
        None => None,
    }
}

/// `CPAL` as `read` keeps it: decoded at its offset when the header, the
/// palette index array and the color records lie inside the file and every
/// palette stays within the color records.
pub open spec fn cpal_read(v: Option<Cpal>, s: Seq<u8>, recs: Seq<TableRecord>) -> bool {
    match find_spec(recs, seq![0x43u8, 0x50, 0x41, 0x4c]) {
        Some(r) => if cpal_fits(s, r.offset as int) && palettes_fit(s, r.offset as int) {
            v matches Some(c) && cpal_parsed(c, s, r.offset as int)
        } else {
            v is None
        },
        None => v is None,
    }
}

fn read_cpal(buf: &[u8], tables: &Vec<TableRecord>) -> (r: Option<Cpal>)
    ensures
        cpal_read(r, buf@, tables@),
{
    match optional_offset(tables, Cpal::tag()) {
        Some(off) => match Cpal::parse(buf, off) {
            Ok(c) => Some(c),
            Err(_) => None,
        },
        None => None,
    }
}

/// `SVG ` as `read` keeps it: decoded at its offset when the header, the
/// document records and every document lie inside the file.
pub open spec fn svg_read(v: Option<Svg>, s: Seq<u8>, recs: Seq<TableRecord>) -> bool {
    match find_spec(recs, seq![0x53u8, 0x56, 0x47, 0x20]) {
        Some(r) => if svg_fits(s, r.offset as int) {
            v matches Some(x) && svg_parsed(x, s, r.offset as int)
        } else {
            v is None
        },
        None => v is None,
    }
}

fn read_svg(buf: &[u8], tables: &Vec<TableRecord>) -> (r: Option<Svg>)
    ensures
        svg_read(r, buf@, tables@),
{
    match optional_offset(tables, Svg::tag()) {
        Some(off) => match Svg::parse(buf, off) {
            Ok(c) => Some(c),
            Err(_) => None,
        },
        None => None,
    }
}

/// The required tables as `read` decodes them.
pub open spec fn required_read(f: Font, s: Seq<u8>) -> bool {
    let recs = f.tables@;
    &&& find_spec(recs, seq![0x68u8, 0x65, 0x61, 0x64]) matches Some(r) && r.offset + HEAD_SIZE
        <= s.len() && f.head == Head::decode(s.subrange(r.offset as int, r.offset + HEAD_SIZE))
    &&& find_spec(recs, seq![0x68u8, 0x68, 0x65, 0x61]) matches Some(r) && r.offset + HHEA_SIZE
        <= s.len() && f.hhea == Hhea::decode(s.subrange(r.offset as int, r.offset + HHEA_SIZE))
    &&& find_spec(recs, seq![0x6du8, 0x61, 0x78, 0x70]) matches Some(r) && f.maxp == Maxp::decode(
        s.subrange(r.offset as int, s.len() as int),
    )
    &&& find_spec(recs, seq![0x70u8, 0x6f, 0x73, 0x74]) matches Some(r) && f.post.header_matches(
        s.subrange(r.offset as int, s.len() as int),
    )
    &&& find_spec(recs, seq![0x6eu8, 0x61, 0x6d, 0x65]) matches Some(r) && f.name.format == be_u16(
        s,
        r.offset as int,
    ) && f.name.count == be_u16(s, r.offset + 2) && f.name.records@.len() == f.name.count
        && f.name.string_offset == be_u16(s, r.offset + 4) && forall|i: int|
        0 <= i < f.name.records@.len() ==> record_matches(
            #[trigger] f.name.records@[i],
            s,
            r.offset + 6 + 12 * i,
            r.offset + f.name.string_offset,
        )
    &&& find_spec(recs, seq![0x63u8, 0x6d, 0x61, 0x70]) matches Some(r) && cmap_parsed(
        f.cmap,
        s,
        r.offset as int,
    )
    &&& find_spec(recs, seq![0x4fu8, 0x53, 0x2f, 0x32]) matches Some(r) && f.os2 == Os2::decode(
        s.subrange(r.offset as int, s.len() as int),
    )
    &&& find_spec(recs, seq![0x68u8, 0x6d, 0x74, 0x78]) matches Some(r) && hmtx_parsed(
        f.hmtx,
        s,
        r.offset as int,
        f.hhea.number_of_hmetrics,
        f.maxp.num_glyphs,
    )
    &&& f.hmtx.h_metrics@.len() == f.hhea.number_of_hmetrics
}

/// The optional tables as `read` keeps them.
pub open spec fn optional_read(f: Font, s: Seq<u8>) -> bool {
    let recs = f.tables@;
    &&& (f.kern is Some) == (find_spec(recs, seq![0x6bu8, 0x65, 0x72, 0x6e]) is Some)
    &&& f.kern matches Some(k) ==> find_spec(recs, seq![0x6bu8, 0x65, 0x72, 0x6e]) matches Some(r)
        && kern_parsed(k, s, r.offset as int)
    &&& vec_view(f.cvt) == hint_table(s, recs, seq![0x63u8, 0x76, 0x74, 0x20])
    &&& vec_view(f.prep) == hint_table(s, recs, seq![0x70u8, 0x72, 0x65, 0x70])
    &&& vec_view(f.fpgm) == hint_table(s, recs, seq![0x66u8, 0x70, 0x67, 0x6d])
    &&& gpos_read(f.gpos, s, recs)
    &&& gsub_read(f.gsub, s, recs)
    &&& hvar_read(f.hvar, s, recs)
    &&& gvar_read(f.gvar, s, recs)
    &&& fvar_read(f.fvar, s, recs)
    &&& stat_read(f.stat, s, recs)
    &&& cff_read(f.cff, s, recs)
    &&& colr_read(f.colr, s, recs)
    &&& cpal_read(f.cpal, s, recs)
    &&& svg_read(f.svg, s, recs)
}

/// `glyf` and `loca` as `read` decodes them: both or neither, `loca` with
/// `maxp`'s glyph count and `head`'s offset format.
pub open spec fn outlines_read(f: Font, s: Seq<u8>) -> bool {
    let recs = f.tables@;
    match (
        find_spec(recs, seq![0x67u8, 0x6c, 0x79, 0x66]),
        find_spec(recs, seq![0x6cu8, 0x6f, 0x63, 0x61]),
    ) {
        (Some(_), Some(l)) => {
            let long = f.head.index_to_loc_format == 1;
            &&& f.loca matches Some(loca) && loca.offsets@ == loca_offsets(
                s,
                l.offset as int,
                f.maxp.num_glyphs as nat,
                long,
            ) && loca.format == (if long {
                1u16
            } else {
                0u16
            })
            &&& f.glyf matches Some(g) && g.glyphs@.len() == f.maxp.num_glyphs
        },
        _ => f.loca is None && f.glyf is None,
    }
}

/// What `read` gives back for a file it accepts.
pub open spec fn read_ok(f: Font, s: Seq<u8>) -> bool {
    &&& directory_fits(s)
    &&& version_of(be_u32(s, 0)) == Some(f.sfnt_version)
    &&& f.tables@ == records_of(s, be_u16(s, 4) as nat)
    &&& required_read(f, s)
    &&& optional_read(f, s)
    &&& outlines_read(f, s)
    &&& raw_fits(s, f.tables@)
    &&& entries_view(f.raw_tables@) == raw_of(s, f.tables@)
}

/// The offset of the first table tagged `tag` in the directory.
pub open spec fn offset_of(recs: Seq<TableRecord>, tag: Seq<u8>) -> int {
    find_spec(recs, tag)->0.offset as int
}

/// Every read that `read` makes on `s` succeeds: the directory; the eight
/// required tables, listed and each inside the file (`hmtx` with the
/// counts of `hhea` and `maxp`); `kern` when it is listed; `loca` and each
/// glyph of `glyf` when both are listed; and the bytes of every table kept
/// raw.
pub open spec fn read_succeeds(s: Seq<u8>) -> bool {
    let recs = records_of(s, be_u16(s, 4) as nat);
    let head_at = offset_of(recs, seq![0x68u8, 0x65, 0x61, 0x64]);
    let hhea_at = offset_of(recs, seq![0x68u8, 0x68, 0x65, 0x61]);
    let maxp_at = offset_of(recs, seq![0x6du8, 0x61, 0x78, 0x70]);
    let os2_at = offset_of(recs, seq![0x4fu8, 0x53, 0x2f, 0x32]);
    let hmtx_at = offset_of(recs, seq![0x68u8, 0x6d, 0x74, 0x78]);
    let glyf_at = offset_of(recs, seq![0x67u8, 0x6c, 0x79, 0x66]);
    let loca_at = offset_of(recs, seq![0x6cu8, 0x6f, 0x63, 0x61]);
    let head = Head::decode(s.subrange(head_at, head_at + HEAD_SIZE));
    let hhea = Hhea::decode(s.subrange(hhea_at, hhea_at + HHEA_SIZE));
    let maxp = Maxp::decode(s.subrange(maxp_at, s.len() as int));
    let os2 = Os2::decode(s.subrange(os2_at, s.len() as int));
    let nh = hhea.number_of_hmetrics;
    let ng = maxp.num_glyphs;
    let extra = if ng > nh {
        ng - nh
    } else {
        0
    };
    let long = head.index_to_loc_format == 1;
    let offs = loca_offsets(s, loca_at, ng as nat, long);
    &&& directory_fits(s)
    &&& forall|t: Seq<u8>| required_tag(t) ==> #[trigger] find_spec(recs, t) is Some
    &&& head_at + HEAD_SIZE <= s.len()
    &&& hhea_at + HHEA_SIZE <= s.len()
    &&& maxp_at + maxp_size(maxp.version) <= s.len()
    &&& post_fits(s, offset_of(recs, seq![0x70u8, 0x6f, 0x73, 0x74]))
    &&& name_fits(s, offset_of(recs, seq![0x6eu8, 0x61, 0x6d, 0x65]))
    &&& cmap_fits(s, offset_of(recs, seq![0x63u8, 0x6d, 0x61, 0x70]))
    &&& os2_at + 78 <= s.len() && os2_at + os2_size(os2.version) <= s.len()
    &&& nh + extra > 0 ==> hmtx_at + 4 * nh + 2 * extra <= s.len()
    &&& find_spec(recs, seq![0x6bu8, 0x65, 0x72, 0x6e]) is Some ==> kern_fits(
        s,
        offset_of(recs, seq![0x6bu8, 0x65, 0x72, 0x6e]),
    )
    &&& find_spec(recs, seq![0x67u8, 0x6c, 0x79, 0x66]) is Some && find_spec(
        recs,
        seq![0x6cu8, 0x6f, 0x63, 0x61],
    ) is Some ==> {
        &&& loca_fits(s, loca_at, ng as int, long)
        &&& forall|i: int|
            0 <= i < ng ==> #[trigger] glyph_readable(s, glyf_at, offs[i] as int, offs[i + 1] as int)
    }
    &&& raw_fits(s, recs)
}

/// What `read` says of a file it refuses: the directory's own error when
/// the directory does not fit; a missing-table error only for a required
/// table that the directory does not list.
pub open spec fn read_error(e: FontError, s: Seq<u8>) -> bool {
    &&& !directory_fits(s) ==> if s.len() >= 4 && version_of(be_u32(s, 0)) is None {
        e matches FontError::InvalidTable { tag: t, .. } && t.0@ == seq![0x73u8, 0x66, 0x6e, 0x74]
    } else {
        e is OutOfBounds
    }
    &&& e matches FontError::MissingTable(t) ==> directory_fits(s) && required_tag(t.0@) && find_spec(
        records_of(s, be_u16(s, 4) as nat),
        t.0@,
    ) is None
}

impl Font {
    /// Reads a font file: the directory, the required tables, the optional
    /// tables it knows, `glyf` with `loca`, and every other table as raw
    /// bytes.
    pub fn read(buf: &[u8]) -> (r: Result<Font, FontError>)
        ensures
            r is Ok <==> read_succeeds(buf@),
            match r {
                Ok(f) => read_ok(f, buf@),
                Err(e) => read_error(e, buf@),
            },
    {
        let (sfnt_version, tables) = read_directory(buf)?;
        let head = Head::parse(buf, required_offset(&tables, Head::tag())?)?;
        let hhea = Hhea::parse(buf, required_offset(&tables, Hhea::tag())?)?;
        let maxp = Maxp::parse(buf, required_offset(&tables, Maxp::tag())?)?;
        let post = Post::parse(buf, required_offset(&tables, Post::tag())?)?;
        let name = Name::parse(buf, required_offset(&tables, Name::tag())?)?;
        let cmap = Cmap::parse(buf, required_offset(&tables, Cmap::tag())?)?;
        let os2 = Os2::parse(buf, required_offset(&tables, Os2::tag())?)?;
        let hmtx_off = required_offset(&tables, Hmtx::tag())?;
        let hmtx = Hmtx::parse_with_count(buf, hmtx_off, hhea.number_of_hmetrics, maxp.num_glyphs)?;
        let kern = match optional_offset(&tables, Kern::tag()) {
            Some(off) => Some(Kern::parse(buf, off)?),
            None => None,
        };
        let cvt = hint_bytes(buf, &tables, Tag([0x63, 0x76, 0x74, 0x20]));
        let prep = hint_bytes(buf, &tables, Tag([0x70, 0x72, 0x65, 0x70]));
        let fpgm = hint_bytes(buf, &tables, Tag([0x66, 0x70, 0x67, 0x6d]));
        let gpos = read_gpos(buf, &tables);
        let gsub = read_gsub(buf, &tables);
        let hvar = read_hvar(buf, &tables);
        let gvar = read_gvar(buf, &tables);
        let fvar = read_fvar(buf, &tables);
        let stat = read_stat(buf, &tables);
        let cff = read_cff(buf, &tables);
        let colr = read_colr(buf, &tables);
        let cpal = read_cpal(buf, &tables);
        let svg = read_svg(buf, &tables);
        let (glyf, loca) = match (
            optional_offset(&tables, GlyfTable::tag()),
            optional_offset(&tables, LocaTable::tag()),
        ) {
            (Some(glyf_off), Some(loca_off)) => {
                let long_format = head.index_to_loc_format == 1;
                let loca = parse_loca(buf, loca_off, maxp.num_glyphs as usize, long_format)?;
                let glyf = match GlyfTable::parse_with_loca(buf, &loca, glyf_off) {
                    Ok(g) => g,
                    Err(e) => {
                        proof {
                            let offs = loca.offsets@;
                            let i = choose|i: int|
                                0 <= i < offs.len() - 1 && !#[trigger] glyph_readable(
                                    buf@,
                                    glyf_off as int,
                                    offs[i] as int,
                                    offs[i + 1] as int,
                                );
                            assert(0 <= i < maxp.num_glyphs);
                            let recs = records_of(buf@, be_u16(buf@, 4) as nat);
                            assert(recs == tables@);
                            assert(glyf_off == offset_of(recs, seq![0x67u8, 0x6c, 0x79, 0x66]));
                            assert(loca_off == offset_of(recs, seq![0x6cu8, 0x6f, 0x63, 0x61]));
                            let head_at = offset_of(recs, seq![0x68u8, 0x65, 0x61, 0x64]);
                            let maxp_at = offset_of(recs, seq![0x6du8, 0x61, 0x78, 0x70]);
                            assert(head == Head::decode(buf@.subrange(head_at, head_at + HEAD_SIZE)));
                            assert(maxp == Maxp::decode(buf@.subrange(maxp_at, buf@.len() as int)));
                            assert(offs == loca_offsets(buf@, loca_off as int, maxp.num_glyphs as nat, long_format));
                            assert(!glyph_readable(buf@, glyf_off as int, offs[i] as int, offs[i + 1] as int));
                            assert(!read_succeeds(buf@));
                        }
                        return Err(e);
                    },
                };
                (Some(glyf), Some(loca))
            },
            _ => (None, None),
        };
        let raw_tables = collect_raw(buf, &tables)?;
        Ok(
            Font {
                sfnt_version,
                tables,
                head,
                hhea,
                maxp,
                post,
                name,
                cmap,
                os2,
                glyf,
                loca,
                hmtx,
                kern,
                cvt,
                prep,
                fpgm,
                gpos,
                gsub,
                hvar,
                gvar,
                fvar,
                stat,
                cff,
                colr,
                cpal,
                svg,
                raw_tables,
            },
        )
    }
}

} // verus!
