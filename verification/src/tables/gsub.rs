//! `GSUB`: glyph substitution, read into its script, feature and lookup
//! lists and otherwise kept as raw bytes.
use vstd::prelude::*;
use vstd::utf8::{decode_utf8, valid_utf8};
use crate::codec::{be_i16, be_u16};
use crate::error::{FontError, Tag};
use crate::parse::{offset_add, Parser};
use crate::tables::gpos::{glyph_range, sat_add};
use crate::text::{str_eq, utf8_lossy};
use crate::write::Writer;

verus! {

broadcast use crate::codec::group_codec;

#[derive(Debug, Clone, PartialEq)]
pub struct Gsub {
    pub scripts: Vec<ScriptRecord>,
    pub features: Vec<FeatureRecord>,
    pub lookups: Vec<Lookup>,
    /// The bytes the table was read from.
    pub raw: Vec<u8>,
}

#[derive(Debug, Clone, PartialEq)]
pub struct ScriptRecord {
    pub script_tag: String,
    pub default_lang_sys: Option<LangSys>,
    pub lang_sys_records: Vec<LangSysRecord>,
}

#[derive(Debug, Clone, PartialEq)]
pub struct LangSysRecord {
    pub lang_sys_tag: String,
    pub lang_sys: LangSys,
}

#[derive(Debug, Clone, PartialEq)]
pub struct LangSys {
    pub required_feature_index: u16,
    pub lookup_indices: Vec<u16>,
}

#[derive(Debug, Clone, PartialEq)]
pub struct FeatureRecord {
    pub feature_tag: String,
    pub feature: Feature,
}

#[derive(Debug, Clone, PartialEq)]
pub struct Feature {
    pub feature_params: u16,
    pub lookup_indices: Vec<u16>,
}

#[derive(Debug, Clone, PartialEq)]
pub struct Lookup {
    pub lookup_type: u16,
    pub lookup_flag: u16,
    pub subtables: Vec<Subtable>,
}

#[derive(Debug, Clone, PartialEq)]
pub enum Subtable {
    SingleSubst { coverage: Coverage, delta: i16 },
    MultipleSubst { coverage: Coverage, sequences: Vec<Vec<u16>> },
    AlternateSubst { coverage: Coverage, alternate_sets: Vec<Vec<u16>> },
    LigatureSubst { coverage: Coverage, ligature_sets: Vec<LigatureSet> },
    Passthrough { coverage: Coverage },
}

#[derive(Debug, Clone, PartialEq)]
pub struct Coverage {
    pub format: u16,
    pub glyphs: Vec<u16>,
}

#[derive(Debug, Clone, PartialEq)]
pub struct LigatureSet {
    pub ligatures: Vec<Ligature>,
}

#[derive(Debug, Clone, PartialEq)]
pub struct Ligature {
    pub lig_glyph: u16,
    pub components: Vec<u16>,
}

/// `t` is the four-byte tag at `pos` read as text: the decoded characters
/// where the bytes are valid UTF-8.
pub open spec fn tag_text(t: String, s: Seq<u8>, pos: int) -> bool {
    valid_utf8(s.subrange(pos, pos + 4)) ==> t@ == decode_utf8(s.subrange(pos, pos + 4))
}

/// The `n` 16-bit values at `at`.
pub open spec fn u16s_at(s: Seq<u8>, at: int, n: int) -> Seq<u16> {
    Seq::new(n as nat, |i: int| be_u16(s, at + 2 * i))
}

/// A list of `n` 16-bit values preceded by its 16-bit count at `off`
/// (after `skip` other bytes) lies inside the data.
pub open spec fn counted_fits(s: Seq<u8>, off: int, skip: int) -> bool {
    off + skip + 2 <= s.len() && off + skip + 2 + 2 * be_u16(s, off + skip) <= s.len()
}

pub open spec fn lang_sys_fits(s: Seq<u8>, off: int) -> bool {
    counted_fits(s, off, 4)
}

pub open spec fn lang_sys_parsed(l: LangSys, s: Seq<u8>, off: int) -> bool {
    &&& l.required_feature_index == be_u16(s, off + 2)
    &&& l.lookup_indices@ == u16s_at(s, off + 6, be_u16(s, off + 4) as int)
}

/// A list of `n` six-byte records (tag and offset) after a count at `off`
/// lies inside the data.
pub open spec fn records_fit(s: Seq<u8>, off: int) -> bool {
    off + 2 <= s.len() && off + 2 + 6 * be_u16(s, off) <= s.len()
}

/// The offset of record `i` of a record list at `off`.
pub open spec fn record_offset(s: Seq<u8>, off: int, i: int) -> int {
    be_u16(s, off + 2 + 6 * i + 4) as int
}

/// The script table at `at`: its default language system (when its
/// offset is not 0) and its language system records all lie inside the
/// data.
pub open spec fn script_fits(s: Seq<u8>, at: int) -> bool {
    let d = be_u16(s, at) as int;
    &&& records_fit(s, at + 2)
    &&& (d > 0 ==> lang_sys_fits(s, sat_add(at, d)))
    &&& forall|j: int|
        0 <= j < be_u16(s, at + 2) ==> #[trigger] lang_sys_fits(
            s,
            sat_add(at, record_offset(s, at + 2, j)),
        )
}

pub open spec fn script_parsed(
    default_lang_sys: Option<LangSys>,
    records: Seq<LangSysRecord>,
    s: Seq<u8>,
    at: int,
) -> bool {
    let d = be_u16(s, at) as int;
    let n = be_u16(s, at + 2) as int;
    &&& (d == 0 ==> default_lang_sys is None)
    &&& (d > 0 ==> (default_lang_sys matches Some(l) && lang_sys_parsed(l, s, sat_add(at, d))))
    &&& records.len() == n
    &&& forall|j: int|
        0 <= j < n ==> {
            let rec = #[trigger] records[j];
            &&& tag_text(rec.lang_sys_tag, s, at + 4 + 6 * j)
            &&& lang_sys_parsed(rec.lang_sys, s, sat_add(at, record_offset(s, at + 2, j)))
        }
}

pub open spec fn script_list_fits(s: Seq<u8>, off: int) -> bool {
    &&& records_fit(s, off)
    &&& forall|i: int|
        0 <= i < be_u16(s, off) ==> #[trigger] script_fits(s, sat_add(off, record_offset(s, off, i)))
}

pub open spec fn script_list_parsed(v: Seq<ScriptRecord>, s: Seq<u8>, off: int) -> bool {
    &&& v.len() == be_u16(s, off)
    &&& forall|i: int|
        0 <= i < v.len() ==> {
            &&& tag_text(#[trigger] v[i].script_tag, s, off + 2 + 6 * i)
            &&& script_parsed(
                v[i].default_lang_sys,
                v[i].lang_sys_records@,
                s,
                sat_add(off, record_offset(s, off, i)),
            )
        }
}

/// The feature records are there (their tags are kept even when a
/// feature's own table is not).
pub open spec fn feature_list_fits(s: Seq<u8>, off: int) -> bool {
    records_fit(s, off)
}

/// Each feature with its tag, and its table when that is inside the data
/// (an empty feature otherwise).
pub open spec fn feature_list_parsed(v: Seq<FeatureRecord>, s: Seq<u8>, off: int) -> bool {
    &&& v.len() == be_u16(s, off)
    &&& forall|i: int| 0 <= i < v.len() ==> feature_record_parsed(#[trigger] v[i], s, off, i)
}

/// The `i`-th feature record of the list at `off`.
pub open spec fn feature_record_parsed(r: FeatureRecord, s: Seq<u8>, off: int, i: int) -> bool {
    let at = sat_add(off, record_offset(s, off, i));
    &&& tag_text(r.feature_tag, s, off + 2 + 6 * i)
    &&& if counted_fits(s, at, 2) {
        &&& r.feature.feature_params == be_u16(s, at)
        &&& r.feature.lookup_indices@ == u16s_at(s, at + 4, be_u16(s, at + 2) as int)
    } else {
        r.feature.feature_params == 0 && r.feature.lookup_indices@.len() == 0
    }
}

/// The glyphs of the first `k` ranges of a format 2 coverage whose range
/// records start at `at`.
pub open spec fn gsub_ranges(s: Seq<u8>, at: int, k: int) -> Seq<u16>
    decreases k,
{
    if k <= 0 {
        Seq::empty()
    } else {
        gsub_ranges(s, at, k - 1) + glyph_range(
            be_u16(s, at + 6 * (k - 1)),
            be_u16(s, at + 6 * (k - 1) + 2),
        )
    }
}

/// Size of the coverage table at `off` by its format.
pub open spec fn coverage_size(s: Seq<u8>, off: int) -> int {
    let f = be_u16(s, off);
    if f == 1 {
        4 + 2 * be_u16(s, off + 2)
    } else if f == 2 {
        4 + 6 * be_u16(s, off + 2)
    } else {
        4
    }
}

/// The coverage table at `off` lies inside the data (a table of another
/// format is only its format word).
pub open spec fn coverage_fits(s: Seq<u8>, off: int) -> bool {
    let f = be_u16(s, off);
    &&& off + 2 <= s.len()
    &&& (f == 1 || f == 2) ==> off + coverage_size(s, off) <= s.len()
}

pub open spec fn coverage_parsed(c: Coverage, s: Seq<u8>, off: int) -> bool {
    let f = be_u16(s, off);
    let n = be_u16(s, off + 2) as int;
    &&& c.format == f
    &&& c.glyphs@ == if f == 1 {
        u16s_at(s, off + 4, n)
    } else if f == 2 {
        gsub_ranges(s, off + 4, n)
    } else {
        Seq::empty()
    }
}

/// The lists of 16-bit values that the offsets at `at` (a count, then the
/// offsets) point to, relative to `base`, lie inside the data.
pub open spec fn offset_lists_fit(s: Seq<u8>, base: int, at: int) -> bool {
    &&& at + 2 <= s.len()
    &&& at + 2 + 2 * be_u16(s, at) <= s.len()
    &&& forall|i: int|
        0 <= i < be_u16(s, at) ==> #[trigger] counted_fits(
            s,
            sat_add(base, be_u16(s, at + 2 + 2 * i) as int),
            0,
        )
}

pub open spec fn offset_lists_parsed(v: Seq<Vec<u16>>, s: Seq<u8>, base: int, at: int) -> bool {
    &&& v.len() == be_u16(s, at)
    &&& forall|i: int|
        0 <= i < v.len() ==> {
            let o = sat_add(base, be_u16(s, at + 2 + 2 * i) as int);
            (#[trigger] v[i])@ == u16s_at(s, o + 2, be_u16(s, o) as int)
        }
}

/// The ligature table at `at`: a glyph, a component count of at least
/// one, then the components after the first.
pub open spec fn ligature_fits(s: Seq<u8>, at: int) -> bool {
    let n = be_u16(s, at + 2) as int;
    at + 4 <= s.len() && n >= 1 && at + 4 + 2 * (n - 1) <= s.len()
}

pub open spec fn ligature_parsed(l: Ligature, s: Seq<u8>, at: int) -> bool {
    l.lig_glyph == be_u16(s, at) && l.components@ == u16s_at(
        s,
        at + 4,
        be_u16(s, at + 2) - 1,
    )
}

pub open spec fn ligature_set_fits(s: Seq<u8>, at: int) -> bool {
    &&& at + 2 <= s.len()
    &&& at + 2 + 2 * be_u16(s, at) <= s.len()
    &&& forall|i: int|
        0 <= i < be_u16(s, at) ==> #[trigger] ligature_fits(
            s,
            sat_add(at, be_u16(s, at + 2 + 2 * i) as int),
        )
}

pub open spec fn ligature_set_parsed(v: LigatureSet, s: Seq<u8>, at: int) -> bool {
    &&& v.ligatures@.len() == be_u16(s, at)
    &&& forall|i: int|
        0 <= i < v.ligatures@.len() ==> ligature_parsed(
            #[trigger] v.ligatures@[i],
            s,
            sat_add(at, be_u16(s, at + 2 + 2 * i) as int),
        )
}

pub open spec fn ligature_sets_fit(s: Seq<u8>, base: int, at: int) -> bool {
    &&& at + 2 <= s.len()
    &&& at + 2 + 2 * be_u16(s, at) <= s.len()
    &&& forall|i: int|
        0 <= i < be_u16(s, at) ==> #[trigger] ligature_set_fits(
            s,
            sat_add(base, be_u16(s, at + 2 + 2 * i) as int),
        )
}

pub open spec fn ligature_sets_parsed(v: Seq<LigatureSet>, s: Seq<u8>, base: int, at: int) -> bool {
    &&& v.len() == be_u16(s, at)
    &&& forall|i: int|
        0 <= i < v.len() ==> ligature_set_parsed(
            #[trigger] v[i],
            s,
            sat_add(base, be_u16(s, at + 2 + 2 * i) as int),
        )
}

/// The subtable at `off` of a lookup of type `t`: its coverage, then the
/// type's data right after the coverage, all inside the data.
pub open spec fn subtable_fits(s: Seq<u8>, off: int, t: u16) -> bool {
    let b = sat_add(off, coverage_size(s, off));
    &&& coverage_fits(s, off)
    &&& if t == 1 {
        b + 2 <= s.len() && (be_u16(s, b) == 1 ==> b + 4 <= s.len())
    } else if t == 2 || t == 3 {
        offset_lists_fit(s, b, b + 2)
    } else if t == 4 {
        ligature_sets_fit(s, b, b + 2)
    } else {
        true
    }
}

pub open spec fn subtable_parsed(st: Subtable, s: Seq<u8>, off: int, t: u16) -> bool {
    let b = sat_add(off, coverage_size(s, off));
    match st {
        Subtable::SingleSubst { coverage, delta } => {
            &&& t == 1
            &&& be_u16(s, b) == 1
            &&& coverage_parsed(coverage, s, off)
            &&& delta == be_i16(s, b + 2)
        },
        Subtable::MultipleSubst { coverage, sequences } => {
            &&& t == 2
            &&& coverage_parsed(coverage, s, off)
            &&& offset_lists_parsed(sequences@, s, b, b + 2)
        },
        Subtable::AlternateSubst { coverage, alternate_sets } => {
            &&& t == 3
            &&& coverage_parsed(coverage, s, off)
            &&& offset_lists_parsed(alternate_sets@, s, b, b + 2)
        },
        Subtable::LigatureSubst { coverage, ligature_sets } => {
            &&& t == 4
            &&& coverage_parsed(coverage, s, off)
            &&& ligature_sets_parsed(ligature_sets@, s, b, b + 2)
        },
        Subtable::Passthrough { coverage } => {
            &&& (t == 1 && be_u16(s, b) != 1) || (t != 1 && t != 2 && t != 3 && t != 4)
            &&& coverage_parsed(coverage, s, off)
        },
    }
}

pub open spec fn lookup_fits(s: Seq<u8>, off: int) -> bool {
    &&& counted_fits(s, off, 4)
    &&& forall|i: int|
        0 <= i < be_u16(s, off + 4) ==> #[trigger] subtable_fits(
            s,
            sat_add(off, be_u16(s, off + 6 + 2 * i) as int),
            be_u16(s, off),
        )
}

pub open spec fn lookup_parsed(l: Lookup, s: Seq<u8>, off: int) -> bool {
    &&& l.lookup_type == be_u16(s, off)
    &&& l.lookup_flag == be_u16(s, off + 2)
    &&& l.subtables@.len() == be_u16(s, off + 4)
    &&& forall|i: int|
        0 <= i < l.subtables@.len() ==> subtable_parsed(
            #[trigger] l.subtables@[i],
            s,
            sat_add(off, be_u16(s, off + 6 + 2 * i) as int),
            be_u16(s, off),
        )
}

pub open spec fn lookup_list_fits(s: Seq<u8>, off: int) -> bool {
    &&& counted_fits(s, off, 0)
    &&& forall|i: int|
        0 <= i < be_u16(s, off) ==> #[trigger] lookup_fits(
            s,
            sat_add(off, be_u16(s, off + 2 + 2 * i) as int),
        )
}

pub open spec fn lookup_list_parsed(v: Seq<Lookup>, s: Seq<u8>, off: int) -> bool {
    &&& v.len() == be_u16(s, off)
    &&& forall|i: int|
        0 <= i < v.len() ==> lookup_parsed(
            #[trigger] v[i],
            s,
            sat_add(off, be_u16(s, off + 2 + 2 * i) as int),
        )
}

/// A list offset that `parse` follows: inside the table and not 0.
pub open spec fn offset_followed(s: Seq<u8>, o: int) -> bool {
    0 < o < s.len()
}

/// The feature tags that name ligature features.
pub open spec fn is_ligature_tag(t: Seq<char>) -> bool {
    t == "liga"@ || t == "dlig"@ || t == "clig"@
}

/// Reads `n` 16-bit values.
fn read_u16s(p: &mut Parser, n: u16) -> (r: Result<Vec<u16>, FontError>)
    requires
        old(p).pos() <= old(p).data().len(),
    ensures
        final(p).data() == old(p).data(),
        match r {
            Ok(v) => {
                &&& old(p).pos() + 2 * n <= old(p).data().len()
                &&& v@ == u16s_at(old(p).data(), old(p).pos(), n as int)
                &&& final(p).pos() == old(p).pos() + 2 * n
            },
            Err(_) => old(p).pos() + 2 * n > old(p).data().len(),
        },
{
    let ghost s = p.data();
    let ghost start = p.pos();
    let mut v: Vec<u16> = Vec::new();
    let mut k: u16 = 0;
    while k < n
        invariant
            p.data() == s,
            s == old(p).data(),
            start == old(p).pos(),
            k <= n,
            p.pos() == start + 2 * k,
            p.pos() <= s.len(),
            v@ == u16s_at(s, start, k as int),
        decreases n - k,
    {
        let x = p.u16()?;
        v.push(x);
        k += 1;
        proof {
            assert(v@ =~= u16s_at(s, start, k as int));
        }
    }
    proof {
        if n == 0 {
            assert(v@ =~= u16s_at(s, start, 0));
        }
    }
    Ok(v)
}

fn parse_lang_sys(data: &[u8], offset: usize) -> (r: Result<LangSys, FontError>)
    ensures
        match r {
            Ok(l) => lang_sys_fits(data@, offset as int) && lang_sys_parsed(l, data@, offset as int),
            Err(_) => !lang_sys_fits(data@, offset as int),
        },
{
    let mut p = Parser::new(data, offset);
    let _lookup_order = p.u16()?;
    let required_feature_index = p.u16()?;
    let feature_index_count = p.u16()?;
    let lookup_indices = read_u16s(&mut p, feature_index_count)?;
    Ok(LangSys { required_feature_index, lookup_indices })
}

/// Reads the tags and offsets of a record list at `offset`.
fn read_records(data: &[u8], offset: usize) -> (r: Result<(Vec<String>, Vec<u16>), FontError>)
    ensures
        match r {
            Ok((tags, offs)) => {
                &&& records_fit(data@, offset as int)
                &&& tags@.len() == be_u16(data@, offset as int)
                &&& offs@.len() == be_u16(data@, offset as int)
                &&& forall|i: int|
                    0 <= i < tags@.len() ==> tag_text(
                        #[trigger] tags@[i],
                        data@,
                        offset + 2 + 6 * i,
                    )
                &&& forall|i: int|
                    0 <= i < offs@.len() ==> #[trigger] offs@[i] == record_offset(
                        data@,
                        offset as int,
                        i,
                    )
            },
            Err(_) => !records_fit(data@, offset as int),
        },
{
    let ghost s = data@;
    let mut p = Parser::new(data, offset);
    let count = p.u16()?;
    let mut tags: Vec<String> = Vec::new();
    let mut offs: Vec<u16> = Vec::new();
    let mut k: u16 = 0;
    while k < count
        invariant
            p.data() == s,
            s == data@,
            count == be_u16(s, offset as int),
            offset + 2 <= s.len(),
            k <= count,
            p.pos() == offset + 2 + 6 * k,
            p.pos() <= s.len(),
            tags@.len() == k,
            offs@.len() == k,
            forall|i: int| 0 <= i < k ==> tag_text(#[trigger] tags@[i], s, offset + 2 + 6 * i),
            forall|i: int| 0 <= i < k ==> #[trigger] offs@[i] == record_offset(s, offset as int, i),
        decreases count - k,
    {
        let tag_bytes = p.slice(4)?;
        let t = utf8_lossy(tag_bytes);
        proof {
            p.lemma_bounds();
        }
        p.advance(4);
        let o = p.u16()?;
        tags.push(t);
        offs.push(o);
        k += 1;
    }
    Ok((tags, offs))
}

fn parse_script(data: &[u8], at: usize) -> (r: Result<(Option<LangSys>, Vec<LangSysRecord>), FontError>)
    ensures
        match r {
            Ok((d, recs)) => script_fits(data@, at as int) && script_parsed(
                d,
                recs@,
                data@,
                at as int,
            ),
            Err(_) => !script_fits(data@, at as int),
        },
{
    let ghost s = data@;
    let mut sp = Parser::new(data, at);
    let default_lang_sys_offset = sp.u16()?;
    let lang_sys_count = sp.u16()?;
    let default_lang_sys = if default_lang_sys_offset > 0 {
        Some(parse_lang_sys(data, offset_add(at, default_lang_sys_offset as usize))?)
    } else {
        None
    };
    let mut lang_sys_records: Vec<LangSysRecord> = Vec::new();
    let mut j: u16 = 0;
    while j < lang_sys_count
        invariant
            sp.data() == s,
            s == data@,
            lang_sys_count == be_u16(s, at + 2),
            at + 4 <= s.len(),
            j <= lang_sys_count,
            sp.pos() == at + 4 + 6 * j,
            sp.pos() <= s.len(),
            lang_sys_records@.len() == j,
            forall|i: int|
                0 <= i < j ==> #[trigger] lang_sys_fits(
                    s,
                    sat_add(at as int, record_offset(s, at + 2, i)),
                ),
            forall|i: int|
                0 <= i < j ==> {
                    let rec = #[trigger] lang_sys_records@[i];
                    &&& tag_text(rec.lang_sys_tag, s, at + 4 + 6 * i)
                    &&& lang_sys_parsed(
                        rec.lang_sys,
                        s,
                        sat_add(at as int, record_offset(s, at + 2, i)),
                    )
                },
        decreases lang_sys_count - j,
    {
        let tag_bytes = sp.slice(4)?;
        let lang_tag = utf8_lossy(tag_bytes);
        proof {
            sp.lemma_bounds();
        }
        sp.advance(4);
        let lang_sys_off = sp.u16()?;
        let target = offset_add(at, lang_sys_off as usize);
        proof {
            let canon = sat_add(at as int, record_offset(s, at + 2, j as int));
            assert(target == canon);
            if !lang_sys_fits(s, canon) {
                assert(!script_fits(s, at as int));
            }
        }
        let lang_sys = parse_lang_sys(data, target)?;
        lang_sys_records.push(LangSysRecord { lang_sys_tag: lang_tag, lang_sys });
        j += 1;
    }
    Ok((default_lang_sys, lang_sys_records))
}

fn parse_script_list(data: &[u8], offset: usize) -> (r: Result<Vec<ScriptRecord>, FontError>)
    ensures
        match r {
            Ok(v) => script_list_fits(data@, offset as int) && script_list_parsed(
                v@,
                data@,
                offset as int,
            ),
            Err(_) => !script_list_fits(data@, offset as int),
        },
{
    let ghost s = data@;
    let (tags, offs) = read_records(data, offset)?;
    let n = offs.len();
    let mut records: Vec<ScriptRecord> = Vec::new();
    let mut i: usize = 0;
    while i < n
        invariant
            s == data@,
            records_fit(s, offset as int),
            n == be_u16(s, offset as int),
            tags@.len() == n,
            offs@.len() == n,
            forall|k: int| 0 <= k < n ==> tag_text(#[trigger] tags@[k], s, offset + 2 + 6 * k),
            forall|k: int| 0 <= k < n ==> #[trigger] offs@[k] == record_offset(s, offset as int, k),
            i <= n,
            records@.len() == i,
            forall|k: int|
                0 <= k < i ==> #[trigger] script_fits(
                    s,
                    sat_add(offset as int, record_offset(s, offset as int, k)),
                ),
            forall|k: int|
                0 <= k < i ==> {
                    &&& tag_text(#[trigger] records@[k].script_tag, s, offset + 2 + 6 * k)
                    &&& script_parsed(
                        records@[k].default_lang_sys,
                        records@[k].lang_sys_records@,
                        s,
                        sat_add(offset as int, record_offset(s, offset as int, k)),
                    )
                },
        decreases n - i,
    {
        let target = offset_add(offset, offs[i] as usize);
        proof {
            let canon = sat_add(offset as int, record_offset(s, offset as int, i as int));
            assert(target == canon);
            if !script_fits(s, canon) {
                assert(!script_list_fits(s, offset as int));
            }
        }
        let (default_lang_sys, lang_sys_records) = parse_script(data, target)?;
        records.push(
            ScriptRecord { script_tag: tags[i].clone(), default_lang_sys, lang_sys_records },
        );
        i += 1;
    }
    proof {
        assert forall|k: int| 0 <= k < records@.len() implies {
            &&& tag_text(#[trigger] records@[k].script_tag, s, offset + 2 + 6 * k)
            &&& script_parsed(
                records@[k].default_lang_sys,
                records@[k].lang_sys_records@,
                s,
                sat_add(offset as int, record_offset(s, offset as int, k)),
            )
        } by {}
        assert(script_list_fits(s, offset as int));
        assert(script_list_parsed(records@, s, offset as int));
    }
    Ok(records)
}

/// A feature table at `at`: its parameters and lookup indices.
fn parse_feature(data: &[u8], at: usize) -> (r: Result<Feature, FontError>)
    ensures
        match r {
            Ok(f) => counted_fits(data@, at as int, 2) && f.feature_params == be_u16(data@, at as int)
                && f.lookup_indices@ == u16s_at(data@, at + 4, be_u16(data@, at + 2) as int),
            Err(_) => !counted_fits(data@, at as int, 2),
        },
{
    let mut p = Parser::new(data, at);
    let feature_params = p.u16()?;
    let lookup_index_count = p.u16()?;
    let lookup_indices = read_u16s(&mut p, lookup_index_count)?;
    Ok(Feature { feature_params, lookup_indices })
}

fn parse_feature_list(data: &[u8], offset: usize) -> (r: Result<Vec<FeatureRecord>, FontError>)
    ensures
        match r {
            Ok(v) => feature_list_fits(data@, offset as int) && feature_list_parsed(
                v@,
                data@,
                offset as int,
            ),
            Err(_) => !feature_list_fits(data@, offset as int),
        },
{
    let ghost s = data@;
    let (tags, offs) = read_records(data, offset)?;
    let n = offs.len();
    let mut records: Vec<FeatureRecord> = Vec::new();
    let mut i: usize = 0;
    while i < n
        invariant
            s == data@,
            records_fit(s, offset as int),
            n == be_u16(s, offset as int),
            tags@.len() == n,
            offs@.len() == n,
            forall|k: int| 0 <= k < n ==> tag_text(#[trigger] tags@[k], s, offset + 2 + 6 * k),
            forall|k: int| 0 <= k < n ==> #[trigger] offs@[k] == record_offset(s, offset as int, k),
            i <= n,
            records@.len() == i,
            forall|k: int|
                0 <= k < i ==> feature_record_parsed(#[trigger] records@[k], s, offset as int, k),
        decreases n - i,
    {
        let at = offset_add(offset, offs[i] as usize);
        proof {
            let canon = sat_add(offset as int, record_offset(s, offset as int, i as int));
            assert(at == canon);
        }
        let feature = match parse_feature(data, at) {
            Ok(f) => f,
            Err(_) => Feature { feature_params: 0, lookup_indices: Vec::new() },
        };
        assert(if counted_fits(s, at as int, 2) {
            &&& feature.feature_params == be_u16(s, at as int)
            &&& feature.lookup_indices@ == u16s_at(s, at + 4, be_u16(s, at + 2) as int)
        } else {
            feature.feature_params == 0 && feature.lookup_indices@.len() == 0
        });
        let ghost old_r = records@;
        let ghost canon_at = at as int;
        assert(canon_at == sat_add(offset as int, record_offset(s, offset as int, i as int)));
        let tag = tags[i].clone();
        assert(tag_text(tag, s, offset + 2 + 6 * i));
        records.push(FeatureRecord { feature_tag: tag, feature });
        i += 1;
        proof {
            assert forall|k: int| 0 <= k < i implies feature_record_parsed(
                #[trigger] records@[k],
                s,
                offset as int,
                k,
            ) by {
                if k < i - 1 {
                    assert(records@[k] == old_r[k]);
                } else {
                    assert(k == i - 1);
                    assert(sat_add(offset as int, record_offset(s, offset as int, k)) == canon_at);
                }
            }
        }
    }
    proof {
        assert(feature_list_fits(s, offset as int));
        assert(feature_list_parsed(records@, s, offset as int));
    }
    Ok(records)
}

fn parse_coverage(data: &[u8], offset: usize) -> (r: Result<Coverage, FontError>)
    ensures
        match r {
            Ok(c) => coverage_fits(data@, offset as int) && coverage_parsed(c, data@, offset as int),
            Err(_) => !coverage_fits(data@, offset as int),
        },
{
    let ghost s = data@;
    let mut p = Parser::new(data, offset);
    let format = p.u16()?;
    if format == 1 {
        let count = p.u16()?;
        let glyphs = read_u16s(&mut p, count)?;
        Ok(Coverage { format, glyphs })
    } else if format == 2 {
        let count = p.u16()?;
        let mut glyphs: Vec<u16> = Vec::new();
        let mut k: u16 = 0;
        while k < count
            invariant
                p.data() == s,
                s == data@,
                format == be_u16(s, offset as int),
                format == 2,
                count == be_u16(s, offset + 2),
                offset + 4 <= s.len(),
                k <= count,
                p.pos() == offset + 4 + 6 * k,
                p.pos() <= s.len(),
                glyphs@ == gsub_ranges(s, offset + 4, k as int),
            decreases count - k,
        {
            let a = p.u16()?;
            let b = p.u16()?;
            let _index = p.u16()?;
            push_range(&mut glyphs, a, b);
            k += 1;
            proof {
                assert(glyphs@ =~= gsub_ranges(s, offset + 4, k as int));
            }
        }
        Ok(Coverage { format, glyphs })
    } else {
        Ok(Coverage { format, glyphs: Vec::new() })
    }
}

fn push_range(out: &mut Vec<u16>, a: u16, b: u16)
    ensures
        final(out)@ == old(out)@ + glyph_range(a, b),
{
    let ghost base = out@;
    let mut g: u32 = a as u32;
    proof {
        assert(base + glyph_range(a, b).take(0) =~= base);
    }
    while g <= b as u32
        invariant
            a <= g,
            g <= b + 1 || g == a,
            g <= 0x10000,
            a <= b ==> out@ == base + glyph_range(a, b).take(g - a),
            a > b ==> out@ == base,
        decreases 0x10000 - g,
    {
        out.push(g as u16);
        g += 1;
        proof {
            assert(out@ =~= base + glyph_range(a, b).take(g - a));
        }
    }
    proof {
        if a <= b {
            assert(glyph_range(a, b).take(b - a + 1) =~= glyph_range(a, b));
        } else {
            assert(out@ =~= base + glyph_range(a, b));
        }
    }
}

/// The size of the coverage table at `offset`, read from its format and
/// count.
fn read_coverage_size(data: &[u8], offset: usize) -> (r: Result<usize, FontError>)
    requires
        coverage_fits(data@, offset as int),
    ensures
        r matches Ok(n) && n == coverage_size(data@, offset as int),
{
    let mut p = Parser::new(data, offset);
    let format = p.u16()?;
    if format == 1 {
        let count = p.u16()?;
        Ok(4 + count as usize * 2)
    } else if format == 2 {
        let count = p.u16()?;
        Ok(4 + count as usize * 6)
    } else {
        Ok(4)
    }
}

/// Reads the counted lists of 16-bit values that the offsets at `at`
/// point to, relative to `base`.
fn parse_offset_lists(data: &[u8], base: usize, at: usize) -> (r: Result<Vec<Vec<u16>>, FontError>)
    ensures
        match r {
            Ok(v) => offset_lists_fit(data@, base as int, at as int) && offset_lists_parsed(
                v@,
                data@,
                base as int,
                at as int,
            ),
            Err(_) => !offset_lists_fit(data@, base as int, at as int),
        },
{
    let ghost s = data@;
    let mut p = Parser::new(data, at);
    let count = p.u16()?;
    let offs = read_u16s(&mut p, count)?;
    let mut lists: Vec<Vec<u16>> = Vec::new();
    let mut i: usize = 0;
    let n = offs.len();
    while i < n
        invariant
            s == data@,
            n == count,
            count == be_u16(s, at as int),
            at + 2 + 2 * count <= s.len(),
            offs@ == u16s_at(s, at + 2, count as int),
            i <= n,
            lists@.len() == i,
            forall|k: int|
                0 <= k < i ==> #[trigger] counted_fits(
                    s,
                    sat_add(base as int, be_u16(s, at + 2 + 2 * k) as int),
                    0,
                ),
            forall|k: int|
                0 <= k < i ==> {
                    let o = sat_add(base as int, be_u16(s, at + 2 + 2 * k) as int);
                    (#[trigger] lists@[k])@ == u16s_at(s, o + 2, be_u16(s, o) as int)
                },
        decreases n - i,
    {
        assert(offs@[i as int] == be_u16(s, at + 2 + 2 * i));
        let target = offset_add(base, offs[i] as usize);
        proof {
            let canon = sat_add(base as int, be_u16(s, at + 2 + 2 * i) as int);
            assert(target == canon);
            if !counted_fits(s, canon, 0) {
                assert(!offset_lists_fit(s, base as int, at as int));
            }
        }
        let mut sp = Parser::new(data, target);
        let glyph_count = sp.u16()?;
        let list = read_u16s(&mut sp, glyph_count)?;
        lists.push(list);
        i += 1;
    }
    Ok(lists)
}

fn parse_ligature(data: &[u8], at: usize) -> (r: Result<Ligature, FontError>)
    ensures
        match r {
            Ok(l) => ligature_fits(data@, at as int) && ligature_parsed(l, data@, at as int),
            Err(_) => !ligature_fits(data@, at as int),
        },
{
    let mut p = Parser::new(data, at);
    let lig_glyph = p.u16()?;
    let comp_count = p.u16()?;
    if comp_count == 0 {
        return Err(FontError::OutOfBounds { offset: at, length: 0, buf_len: data.len() });
    }
    let components = read_u16s(&mut p, comp_count - 1)?;
    Ok(Ligature { lig_glyph, components })
}

fn parse_ligature_set(data: &[u8], at: usize) -> (r: Result<LigatureSet, FontError>)
    ensures
        match r {
            Ok(l) => ligature_set_fits(data@, at as int) && ligature_set_parsed(
                l,
                data@,
                at as int,
            ),
            Err(_) => !ligature_set_fits(data@, at as int),
        },
{
    let ghost s = data@;
    let mut p = Parser::new(data, at);
    let lig_count = p.u16()?;
    let offs = read_u16s(&mut p, lig_count)?;
    let mut ligatures: Vec<Ligature> = Vec::new();
    let n = offs.len();
    let mut i: usize = 0;
    while i < n
        invariant
            s == data@,
            n == lig_count,
            lig_count == be_u16(s, at as int),
            at + 2 + 2 * lig_count <= s.len(),
            offs@ == u16s_at(s, at + 2, lig_count as int),
            i <= n,
            ligatures@.len() == i,
            forall|k: int|
                0 <= k < i ==> #[trigger] ligature_fits(
                    s,
                    sat_add(at as int, be_u16(s, at + 2 + 2 * k) as int),
                ),
            forall|k: int|
                0 <= k < i ==> ligature_parsed(
                    #[trigger] ligatures@[k],
                    s,
                    sat_add(at as int, be_u16(s, at + 2 + 2 * k) as int),
                ),
        decreases n - i,
    {
        assert(offs@[i as int] == be_u16(s, at + 2 + 2 * i));
        let target = offset_add(at, offs[i] as usize);
        proof {
            let canon = sat_add(at as int, be_u16(s, at + 2 + 2 * i) as int);
            assert(target == canon);
            if !ligature_fits(s, canon) {
                assert(!ligature_set_fits(s, at as int));
            }
        }
        let lig = parse_ligature(data, target)?;
        ligatures.push(lig);
        i += 1;
    }
    Ok(LigatureSet { ligatures })
}

fn parse_ligature_sets(data: &[u8], base: usize, at: usize) -> (r: Result<Vec<LigatureSet>, FontError>)
    ensures
        match r {
            Ok(v) => ligature_sets_fit(data@, base as int, at as int) && ligature_sets_parsed(
                v@,
                data@,
                base as int,
                at as int,
            ),
            Err(_) => !ligature_sets_fit(data@, base as int, at as int),
        },
{
    let ghost s = data@;
    let mut p = Parser::new(data, at);
    let count = p.u16()?;
    let offs = read_u16s(&mut p, count)?;
    let mut sets: Vec<LigatureSet> = Vec::new();
    let n = offs.len();
    let mut i: usize = 0;
    while i < n
        invariant
            s == data@,
            n == count,
            count == be_u16(s, at as int),
            at + 2 + 2 * count <= s.len(),
            offs@ == u16s_at(s, at + 2, count as int),
            i <= n,
            sets@.len() == i,
            forall|k: int|
                0 <= k < i ==> #[trigger] ligature_set_fits(
                    s,
                    sat_add(base as int, be_u16(s, at + 2 + 2 * k) as int),
                ),
            forall|k: int|
                0 <= k < i ==> ligature_set_parsed(
                    #[trigger] sets@[k],
                    s,
                    sat_add(base as int, be_u16(s, at + 2 + 2 * k) as int),
                ),
        decreases n - i,
    {
        assert(offs@[i as int] == be_u16(s, at + 2 + 2 * i));
        let target = offset_add(base, offs[i] as usize);
        proof {
            let canon = sat_add(base as int, be_u16(s, at + 2 + 2 * i) as int);
            assert(target == canon);
            if !ligature_set_fits(s, canon) {
                assert(!ligature_sets_fit(s, base as int, at as int));
            }
        }
        let set = parse_ligature_set(data, target)?;
        sets.push(set);
        i += 1;
    }
    Ok(sets)
}

fn parse_subtable(data: &[u8], offset: usize, lookup_type: u16) -> (r: Result<Subtable, FontError>)
    ensures
        match r {
            Ok(st) => subtable_fits(data@, offset as int, lookup_type) && subtable_parsed(
                st,
                data@,
                offset as int,
                lookup_type,
            ),
            Err(_) => !subtable_fits(data@, offset as int, lookup_type),
        },
{
    let coverage = parse_coverage(data, offset)?;
    let coverage_size = match read_coverage_size(data, offset) {
        Ok(n) => n,
        Err(e) => {
            return Err(e);
        },
    };
    proof {
        assert(data@.len() == data.len());
    }
    let b = offset_add(offset, coverage_size);
    if lookup_type == 1 {
        let mut p = Parser::new(data, b);
        let format = p.u16()?;
        if format == 1 {
            let delta = p.i16()?;
            Ok(Subtable::SingleSubst { coverage, delta })
        } else {
            Ok(Subtable::Passthrough { coverage })
        }
    } else if lookup_type == 2 {
        let mut p = Parser::new(data, b);
        let _format = p.u16()?;
        let sequences = parse_offset_lists(data, b, b + 2)?;
        Ok(Subtable::MultipleSubst { coverage, sequences })
    } else if lookup_type == 3 {
        let mut p = Parser::new(data, b);
        let _format = p.u16()?;
        let alternate_sets = parse_offset_lists(data, b, b + 2)?;
        Ok(Subtable::AlternateSubst { coverage, alternate_sets })
    } else if lookup_type == 4 {
        let mut p = Parser::new(data, b);
        let _format = p.u16()?;
        let ligature_sets = parse_ligature_sets(data, b, b + 2)?;
        Ok(Subtable::LigatureSubst { coverage, ligature_sets })
    } else {
        Ok(Subtable::Passthrough { coverage })
    }
}

fn parse_lookup(data: &[u8], offset: usize) -> (r: Result<Lookup, FontError>)
    ensures
        match r {
            Ok(l) => lookup_fits(data@, offset as int) && lookup_parsed(l, data@, offset as int),
            Err(_) => !lookup_fits(data@, offset as int),
        },
{
    let ghost s = data@;
    let mut p = Parser::new(data, offset);
    let lookup_type = p.u16()?;
    let lookup_flag = p.u16()?;
    let subtable_count = p.u16()?;
    let offs = read_u16s(&mut p, subtable_count)?;
    let mut subtables: Vec<Subtable> = Vec::new();
    let n = offs.len();
    let mut i: usize = 0;
    while i < n
        invariant
            s == data@,
            n == subtable_count,
            lookup_type == be_u16(s, offset as int),
            lookup_flag == be_u16(s, offset + 2),
            subtable_count == be_u16(s, offset + 4),
            counted_fits(s, offset as int, 4),
            offs@ == u16s_at(s, offset + 6, subtable_count as int),
            i <= n,
            subtables@.len() == i,
            forall|k: int|
                0 <= k < i ==> #[trigger] subtable_fits(
                    s,
                    sat_add(offset as int, be_u16(s, offset + 6 + 2 * k) as int),
                    lookup_type,
                ),
            forall|k: int|
                0 <= k < i ==> subtable_parsed(
                    #[trigger] subtables@[k],
                    s,
                    sat_add(offset as int, be_u16(s, offset + 6 + 2 * k) as int),
                    lookup_type,
                ),
        decreases n - i,
    {
        assert(offs@[i as int] == be_u16(s, offset + 6 + 2 * i));
        let target = offset_add(offset, offs[i] as usize);
        proof {
            let canon = sat_add(offset as int, be_u16(s, offset + 6 + 2 * i) as int);
            assert(target == canon);
            if !subtable_fits(s, canon, lookup_type) {
                assert(!lookup_fits(s, offset as int));
            }
        }
        let st = parse_subtable(data, target, lookup_type)?;
        subtables.push(st);
        i += 1;
    }
    Ok(Lookup { lookup_type, lookup_flag, subtables })
}

fn parse_lookup_list(data: &[u8], offset: usize) -> (r: Result<Vec<Lookup>, FontError>)
    ensures
        match r {
            Ok(v) => lookup_list_fits(data@, offset as int) && lookup_list_parsed(
                v@,
                data@,
                offset as int,
            ),
            Err(_) => !lookup_list_fits(data@, offset as int),
        },
{
    let ghost s = data@;
    let mut p = Parser::new(data, offset);
    let count = p.u16()?;
    let offs = read_u16s(&mut p, count)?;
    let mut lookups: Vec<Lookup> = Vec::new();
    let n = offs.len();
    let mut i: usize = 0;
    while i < n
        invariant
            s == data@,
            n == count,
            count == be_u16(s, offset as int),
            counted_fits(s, offset as int, 0),
            offs@ == u16s_at(s, offset + 2, count as int),
            i <= n,
            lookups@.len() == i,
            forall|k: int|
                0 <= k < i ==> #[trigger] lookup_fits(
                    s,
                    sat_add(offset as int, be_u16(s, offset + 2 + 2 * k) as int),
                ),
            forall|k: int|
                0 <= k < i ==> lookup_parsed(
                    #[trigger] lookups@[k],
                    s,
                    sat_add(offset as int, be_u16(s, offset + 2 + 2 * k) as int),
                ),
        decreases n - i,
    {
        assert(offs@[i as int] == be_u16(s, offset + 2 + 2 * i));
        let target = offset_add(offset, offs[i] as usize);
        proof {
            let canon = sat_add(offset as int, be_u16(s, offset + 2 + 2 * i) as int);
            assert(target == canon);
            if !lookup_fits(s, canon) {
                assert(!lookup_list_fits(s, offset as int));
            }
        }
        let l = parse_lookup(data, target)?;
        lookups.push(l);
        i += 1;
    }
    Ok(lookups)
}

/// Whether a feature tag names a ligature feature.
fn is_ligature_feature(t: &String) -> (b: bool)
    ensures
        b == is_ligature_tag(t@),
{
    let s = t.as_str();
    let liga = "liga";
    let dlig = "dlig";
    let clig = "clig";
    proof {
        reveal_strlit("liga");
        reveal_strlit("dlig");
        reveal_strlit("clig");
    }
    str_eq(s, liga) || str_eq(s, dlig) || str_eq(s, clig)
}

impl Gsub {
    /// The bytes the table was read from, which `write` writes back.
    pub open spec fn raw(self) -> Seq<u8> {
        self.raw@
    }

    pub open spec fn script_records(self) -> Seq<ScriptRecord> {
        self.scripts@
    }

    pub open spec fn feature_records(self) -> Seq<FeatureRecord> {
        self.features@
    }

    pub open spec fn lookup_records(self) -> Seq<Lookup> {
        self.lookups@
    }


    /// `GSUB`
    pub fn tag() -> (t: Tag)
        ensures
            t.0@ == seq![0x47u8, 0x53, 0x55, 0x42],
    {
        Tag([0x47, 0x53, 0x55, 0x42])
    }

    /// What `parse` reads from table bytes of at least ten bytes: the
    /// header, then each list whose offset is inside the table and not 0
    /// (the script and feature lists only from version 1 on), a list that
    /// cannot be read left empty; the bytes are kept.
    pub open spec fn parsed_from(g: Gsub, s: Seq<u8>) -> bool {
        let slo = be_u16(s, 4) as int;
        let flo = be_u16(s, 6) as int;
        let llo = be_u16(s, 8) as int;
        &&& g.raw() == s
        &&& if be_u16(s, 0) >= 1 && offset_followed(s, slo) && script_list_fits(s, slo) {
            script_list_parsed(g.script_records(), s, slo)
        } else {
            g.script_records().len() == 0
        }
        &&& if be_u16(s, 0) >= 1 && offset_followed(s, flo) && feature_list_fits(s, flo) {
            feature_list_parsed(g.feature_records(), s, flo)
        } else {
            g.feature_records().len() == 0
        }
        &&& if offset_followed(s, llo) && lookup_list_fits(s, llo) {
            lookup_list_parsed(g.lookup_records(), s, llo)
        } else {
            g.lookup_records().len() == 0
        }
    }

    /// Reads the header, then each list whose offset is inside the table
    /// and not 0 (the script and feature lists only from version 1 on); a
    /// list that cannot be read is left empty. The bytes are kept.
    pub fn parse(data: &[u8]) -> (r: Result<Self, FontError>)
        ensures
            match r {
                Ok(g) => data@.len() >= 10 && Gsub::parsed_from(g, data@),
                Err(e) => data@.len() < 10 && e is OutOfBounds,
            },
    {
        let raw = vstd::slice::slice_to_vec(data);
        let mut p = Parser::new(data, 0);
        let major_version = p.u16()?;
        let _minor_version = p.u16()?;
        let script_list_offset = p.u16()? as usize;
        let feature_list_offset = p.u16()? as usize;
        let lookup_list_offset = p.u16()? as usize;
        let scripts = if major_version >= 1 && script_list_offset > 0 && script_list_offset
            < data.len() {
            match parse_script_list(data, script_list_offset) {
                Ok(v) => v,
                Err(_) => Vec::new(),
            }
        } else {
            Vec::new()
        };
        let features = if major_version >= 1 && feature_list_offset > 0 && feature_list_offset
            < data.len() {
            match parse_feature_list(data, feature_list_offset) {
                Ok(v) => v,
                Err(_) => Vec::new(),
            }
        } else {
            Vec::new()
        };
        let lookups = if lookup_list_offset > 0 && lookup_list_offset < data.len() {
            match parse_lookup_list(data, lookup_list_offset) {
                Ok(v) => v,
                Err(_) => Vec::new(),
            }
        } else {
            Vec::new()
        };
        Ok(Gsub { scripts, features, lookups, raw })
    }

    /// Whether some feature is `liga`, `dlig` or `clig`.
    pub fn has_ligatures(&self) -> (b: bool)
        ensures
            b == exists|i: int|
                0 <= i < self.feature_records().len() && is_ligature_tag(
                    #[trigger] self.feature_records()[i].feature_tag@,
                ),
    {
        let n = self.features.len();
        let mut i: usize = 0;
        while i < n
            invariant
                n == self.features@.len(),
                i <= n,
                forall|k: int| 0 <= k < i ==> !is_ligature_tag(#[trigger] self.features@[k].feature_tag@),
            decreases n - i,
        {
            if is_ligature_feature(&self.features[i].feature_tag) {
                assert(self.feature_records()[i as int] == self.features@[i as int]);
                return true;
            }
            i += 1;
        }
        false
    }

    pub fn write(&self, writer: &mut Writer) -> (r: Result<(), FontError>)
        ensures
            r is Ok,
            final(writer)@ == old(writer)@ + self.raw(),
    {
        writer.write_bytes(self.raw.as_slice());
        Ok(())
    }
}

} // verus!
