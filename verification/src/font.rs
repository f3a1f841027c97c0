//! A whole font file: the table directory and every table it holds.
use vstd::prelude::*;
use crate::codec::{u16_bytes, u32_bytes, whole_word_checksum};
use crate::error::{FontError, Tag};
use crate::parse::checksum_whole_words;
use crate::tables::cff::Cff;
use crate::tables::cmap::Cmap;
use crate::tables::colr::Colr;
use crate::tables::cpal::Cpal;
use crate::tables::fvar::Fvar;
use crate::tables::glyf::{glyphs_bytes, GlyfTable};
use crate::tables::gpos::Gpos;
use crate::tables::gsub::Gsub;
use crate::tables::head::Head;
use crate::tables::hhea::Hhea;
use crate::tables::hmtx::Hmtx;
use crate::tables::kern::Kern;
use crate::tables::loca::{encode_offsets, prefix_sum, LocaTable};
use crate::tables::maxp::Maxp;
use crate::tables::name::Name;
use crate::tables::os2::Os2;
use crate::tables::post::Post;
use crate::tables::stat::Stat;
use crate::tables::svg::Svg;
use crate::tables::var::{Gvar, Hvar};
use crate::tables::Table;
use crate::write::{pad_len, zeros, Writer};

verus! {



#[derive(Debug, Clone, Copy, PartialEq, Eq, Structural)]
pub enum SfntVersion {
    TrueType,
    Cff,
}

#[derive(Debug, Clone, Copy, PartialEq, Eq)]
pub struct TableRecord {
    pub tag: Tag,
    pub checksum: u32,
    pub offset: u32,
    pub length: u32,
}

#[derive(Debug, Clone)]
pub struct Font {
    pub sfnt_version: SfntVersion,
    pub tables: Vec<TableRecord>,
    pub head: Head,
    pub hhea: Hhea,
    pub maxp: Maxp,
    pub post: Post,
    pub name: Name,
    pub cmap: Cmap,
    pub os2: Os2,
    pub glyf: Option<GlyfTable>,
    pub loca: Option<LocaTable>,
    pub hmtx: Hmtx,
    pub kern: Option<Kern>,
    pub cvt: Option<Vec<u8>>,
    pub prep: Option<Vec<u8>>,
    pub fpgm: Option<Vec<u8>>,
    pub gpos: Option<Gpos>,
    pub gsub: Option<Gsub>,
    pub hvar: Option<Hvar>,
    pub gvar: Option<Gvar>,
    pub fvar: Option<Fvar>,
    pub stat: Option<Stat>,
    pub cff: Option<Cff>,
    pub colr: Option<Colr>,
    pub cpal: Option<Cpal>,
    pub svg: Option<Svg>,
    pub raw_tables: Vec<(Tag, Vec<u8>)>,
}

/// A table as the file holds it: its tag and its bytes, zero-padded to a
/// multiple of four.
pub open spec fn entry(tag: Seq<u8>, data: Seq<u8>) -> (Seq<u8>, Seq<u8>) {
    (tag, data + zeros(pad_len(data.len())))
}

/// The sort key of a tag: its bytes read as a big-endian number, which
/// orders tags as their bytes do.
pub open spec fn tag_key(t: Seq<u8>) -> int {
    t[0] * 0x100_0000 + t[1] * 0x1_0000 + t[2] * 0x100 + t[3]
}

/// `x` put after every entry whose tag does not sort after its own.
pub open spec fn insert_by_tag(s: Seq<(Seq<u8>, Seq<u8>)>, x: (Seq<u8>, Seq<u8>)) -> Seq<
    (Seq<u8>, Seq<u8>),
>
    decreases s.len(),
{
    if s.len() == 0 {
        seq![x]
    } else if tag_key(s.last().0) <= tag_key(x.0) {
        s.push(x)
    } else {
        insert_by_tag(s.drop_last(), x).push(s.last())
    }
}

/// The entries stably sorted by tag.
pub open spec fn sort_by_tag(s: Seq<(Seq<u8>, Seq<u8>)>) -> Seq<(Seq<u8>, Seq<u8>)>
    decreases s.len(),
{
    if s.len() == 0 {
        Seq::empty()
    } else {
        insert_by_tag(sort_by_tag(s.drop_last()), s.last())
    }
}

pub open spec fn sorted_by_tag(s: Seq<(Seq<u8>, Seq<u8>)>) -> bool {
    forall|i: int, j: int| 0 <= i <= j < s.len() ==> tag_key(s[i].0) <= tag_key(s[j].0)
}

/// How many entries of a sorted list have tags that do not sort after `t`.
pub open spec fn count_not_after(s: Seq<(Seq<u8>, Seq<u8>)>, t: Seq<u8>) -> int
    decreases s.len(),
{
    if s.len() == 0 {
        0
    } else if tag_key(s.last().0) <= tag_key(t) {
        s.len() as int
    } else {
        count_not_after(s.drop_last(), t)
    }
}

pub open spec fn some_entry(tag: Seq<u8>, data: Option<Seq<u8>>) -> Seq<(Seq<u8>, Seq<u8>)> {
    match data {
        Some(d) => seq![entry(tag, d)],
        None => Seq::empty(),
    }
}

pub open spec fn vec_view(v: Option<Vec<u8>>) -> Option<Seq<u8>> {
    match v {
        Some(d) => Some(d@),
        None => None,
    }
}

/// The glyph sizes of a `glyf` table.
pub open spec fn glyph_sizes(g: GlyfTable) -> Seq<usize> {
    Seq::new(g.glyphs@.len(), |i: int| g.glyphs@[i].encode().len() as usize)
}

/// The offsets of `loca` for a `glyf` table: where each glyph starts,
/// then the end.
pub open spec fn glyph_offsets(g: GlyfTable) -> Seq<u32> {
    Seq::new(g.glyphs@.len() + 1, |i: int| prefix_sum(glyph_sizes(g), i) as u32)
}

pub open spec fn raw_entries(raw: Seq<(Tag, Vec<u8>)>) -> Seq<(Seq<u8>, Seq<u8>)> {
    Seq::new(raw.len(), |i: int| entry(raw[i].0.0@, raw[i].1@))
}

pub open spec fn head_tag() -> Seq<u8> {
    seq![0x68u8, 0x65, 0x61, 0x64]
}

impl Font {
    /// The `head` that `write` stores before the checksum adjustment is
    /// computed: the adjustment zeroed, and long `loca` offsets when the
    /// font has `glyf`.
    pub open spec fn written_head(self) -> Head {
        if self.glyf is Some {
            Head { check_sum_adjustment: 0, index_to_loc_format: 1, ..self.head }
        } else {
            Head { check_sum_adjustment: 0, ..self.head }
        }
    }

    /// The bytes of `head` as `write` stores them.
    #[verifier::opaque]
    pub open spec fn head_data(self) -> Seq<u8> {
        self.written_head().encode()
    }

    /// The bytes of `hhea` as `write` stores them.
    #[verifier::opaque]
    pub open spec fn hhea_data(self) -> Seq<u8> {
        self.hhea.encode()
    }

    /// The bytes of `maxp` as `write` stores them.
    #[verifier::opaque]
    pub open spec fn maxp_data(self) -> Seq<u8> {
        self.maxp.encode()
    }

    /// The bytes of `post` as `write` stores them.
    #[verifier::opaque]
    pub open spec fn post_data(self) -> Seq<u8> {
        self.post.encode()
    }

    /// The bytes of `name` as `write` stores them.
    #[verifier::opaque]
    pub open spec fn name_data(self) -> Seq<u8> {
        self.name.encode()
    }

    /// The bytes of `cmap` as `write` stores them.
    #[verifier::opaque]
    pub open spec fn cmap_data(self) -> Seq<u8> {
        self.cmap.encode()
    }

    /// The bytes of `os2` as `write` stores them.
    #[verifier::opaque]
    pub open spec fn os2_data(self) -> Seq<u8> {
        self.os2.encode()
    }

    /// The bytes of `hmtx` as `write` stores them.
    #[verifier::opaque]
    pub open spec fn hmtx_data(self) -> Seq<u8> {
        self.hmtx.encode()
    }

    /// The required tables, in the order `write` gathers them.
    pub open spec fn base_tables(self) -> Seq<(Seq<u8>, Seq<u8>)> {
        seq![
            entry(head_tag(), self.head_data()),
            entry(seq![0x68u8, 0x68, 0x65, 0x61], self.hhea_data()),
            entry(seq![0x6du8, 0x61, 0x78, 0x70], self.maxp_data()),
            entry(seq![0x70u8, 0x6f, 0x73, 0x74], self.post_data()),
            entry(seq![0x6eu8, 0x61, 0x6d, 0x65], self.name_data()),
            entry(seq![0x63u8, 0x6d, 0x61, 0x70], self.cmap_data()),
            entry(seq![0x4fu8, 0x53, 0x2f, 0x32], self.os2_data()),
            entry(seq![0x68u8, 0x6d, 0x74, 0x78], self.hmtx_data()),
        ]
    }

    pub open spec fn kern_data(self) -> Option<Seq<u8>> {
        match self.kern {
            Some(k) => Some(k.encode()),
            None => None,
        }
    }

    pub open spec fn gpos_data(self) -> Option<Seq<u8>> {
        match self.gpos {
            Some(g) => Some(g.raw()),
            None => None,
        }
    }

    pub open spec fn gsub_data(self) -> Option<Seq<u8>> {
        match self.gsub {
            Some(g) => Some(g.raw()),
            None => None,
        }
    }

    pub open spec fn hvar_data(self) -> Option<Seq<u8>> {
        match self.hvar {
            Some(v) => Some(v.raw@),
            None => None,
        }
    }

    pub open spec fn gvar_data(self) -> Option<Seq<u8>> {
        match self.gvar {
            Some(v) => Some(v.raw@),
            None => None,
        }
    }

    pub open spec fn fvar_data(self) -> Option<Seq<u8>> {
        match self.fvar {
            Some(v) => Some(v.encode()),
            None => None,
        }
    }

    pub open spec fn stat_data(self) -> Option<Seq<u8>> {
        match self.stat {
            Some(v) => Some(v.encode()),
            None => None,
        }
    }

    pub open spec fn cff_data(self) -> Option<Seq<u8>> {
        match self.cff {
            Some(v) => Some(v.raw@),
            None => None,
        }
    }

    pub open spec fn colr_data(self) -> Option<Seq<u8>> {
        match self.colr {
            Some(v) => Some(v.encode()),
            None => None,
        }
    }

    pub open spec fn cpal_data(self) -> Option<Seq<u8>> {
        match self.cpal {
            Some(v) => Some(v.encode()),
            None => None,
        }
    }

    pub open spec fn svg_data(self) -> Option<Seq<u8>> {
        match self.svg {
            Some(v) => Some(v.encode()),
            None => None,
        }
    }

    /// The optional tables the font has, in the order `write` gathers them.
    #[verifier::opaque]
    pub open spec fn optional_tables(self) -> Seq<(Seq<u8>, Seq<u8>)> {
        some_entry(seq![0x6bu8, 0x65, 0x72, 0x6e], self.kern_data()) + some_entry(
            seq![0x63u8, 0x76, 0x74, 0x20],
            vec_view(self.cvt),
        ) + some_entry(seq![0x70u8, 0x72, 0x65, 0x70], vec_view(self.prep)) + some_entry(
            seq![0x66u8, 0x70, 0x67, 0x6d],
            vec_view(self.fpgm),
        ) + some_entry(seq![0x47u8, 0x50, 0x4f, 0x53], self.gpos_data()) + some_entry(
            seq![0x47u8, 0x53, 0x55, 0x42],
            self.gsub_data(),
        ) + some_entry(seq![0x48u8, 0x56, 0x41, 0x52], self.hvar_data()) + some_entry(
            seq![0x67u8, 0x76, 0x61, 0x72],
            self.gvar_data(),
        ) + some_entry(seq![0x66u8, 0x76, 0x61, 0x72], self.fvar_data()) + some_entry(
            seq![0x53u8, 0x54, 0x41, 0x54],
            self.stat_data(),
        ) + some_entry(seq![0x43u8, 0x46, 0x46, 0x20], self.cff_data()) + some_entry(
            seq![0x43u8, 0x4f, 0x4c, 0x52],
            self.colr_data(),
        ) + some_entry(seq![0x43u8, 0x50, 0x41, 0x4c], self.cpal_data()) + some_entry(
            seq![0x53u8, 0x56, 0x47, 0x20],
            self.svg_data(),
        )
    }

    /// `glyf` and a `loca` rebuilt from the glyph sizes, when the font has
    /// `glyf`.
    pub open spec fn glyph_tables(self) -> Seq<(Seq<u8>, Seq<u8>)> {
        match self.glyf {
            Some(g) => seq![
                entry(
                    seq![0x67u8, 0x6c, 0x79, 0x66],
                    glyphs_bytes(g.glyphs@, g.glyphs@.len() as int),
                ),
                entry(seq![0x6cu8, 0x6f, 0x63, 0x61], encode_offsets(glyph_offsets(g), 1)),
            ],
            None => Seq::empty(),
        }
    }

    /// The tables that `write` stores, in the order it gathers them.
    pub open spec fn table_list(self) -> Seq<(Seq<u8>, Seq<u8>)> {
        self.base_tables() + self.optional_tables() + self.glyph_tables() + raw_entries(
            self.raw_tables@,
        )
    }
}

/// The sum of the sizes of the first `k` entries.
pub open spec fn sizes_before(s: Seq<(Seq<u8>, Seq<u8>)>, k: int) -> int
    decreases k,
{
    if k <= 0 {
        0
    } else {
        sizes_before(s, k - 1) + s[k - 1].1.len()
    }
}

/// The directory records of the sorted entries: tag, checksum, offset
/// (after the header and directory and the entries before), length.
pub open spec fn directory(s: Seq<(Seq<u8>, Seq<u8>)>, k: int) -> Seq<u8>
    decreases k,
{
    if k <= 0 {
        Seq::empty()
    } else {
        let e = s[k - 1];
        directory(s, k - 1) + e.0 + u32_bytes(whole_word_checksum(e.1)) + u32_bytes(
            (12 + 16 * s.len() + sizes_before(s, k - 1)) as u32,
        ) + u32_bytes(e.1.len() as u32)
    }
}

pub open spec fn bodies(s: Seq<(Seq<u8>, Seq<u8>)>, k: int) -> Seq<u8>
    decreases k,
{
    if k <= 0 {
        Seq::empty()
    } else {
        bodies(s, k - 1) + s[k - 1].1
    }
}

/// The index of the first entry with this tag, if any.
pub open spec fn first_with_tag(s: Seq<(Seq<u8>, Seq<u8>)>, t: Seq<u8>) -> Option<int>
    decreases s.len(),
{
    if s.len() == 0 {
        None
    } else {
        match first_with_tag(s.drop_last(), t) {
            Some(i) => Some(i),
            None => if s.last().0 == t {
                Some(s.len() - 1)
            } else {
                None
            },
        }
    }
}

pub open spec fn sfnt_word(v: SfntVersion) -> u32 {
    match v {
        SfntVersion::TrueType => 0x00010000,
        SfntVersion::Cff => 0x4F54544F,
    }
}

/// The font file before the checksum adjustment: header, directory and
/// tables, sorted by tag.
pub open spec fn unadjusted_file(v: SfntVersion, s: Seq<(Seq<u8>, Seq<u8>)>) -> Seq<u8> {
    sfnt_header(v, s.len()) + directory(s, s.len() as int) + bodies(s, s.len() as int)
}

/// The sfnt header for `n` tables: version, count, and the binary-search
/// fields.
pub open spec fn sfnt_header(v: SfntVersion, n: nat) -> Seq<u8> {
    let es = crate::math::log2_floor(n);
    u32_bytes(sfnt_word(v)) + u16_bytes(n as u16) + u16_bytes(crate::math::pow2(es) as u16)
        + u16_bytes(es as u16) + u16_bytes((16 * n - crate::math::pow2(es)) as u16)
}

/// The value that makes a file whose words sum to `sum` sum to
/// 0xB1B0AFBA instead, modulo 2^32.
pub open spec fn adjustment(sum: u32) -> u32 {
    if sum <= 0xB1B0AFBA {
        (0xB1B0AFBA - sum) as u32
    } else {
        (0xB1B0AFBA + 0x1_0000_0000 - sum) as u32
    }
}

/// The file with `head`'s checksum adjustment (at offset 8 of the first
/// `head` table) set so that the whole file sums to 0xB1B0AFBA.
pub open spec fn adjusted_file(v: SfntVersion, s: Seq<(Seq<u8>, Seq<u8>)>) -> Seq<u8> {
    let buf = unadjusted_file(v, s);
    let adj = adjustment(whole_word_checksum(buf));
    match first_with_tag(s, head_tag()) {
        Some(i) => {
            let at = 12 + 16 * s.len() + sizes_before(s, i) + 8;
            if at + 4 <= buf.len() {
                buf.subrange(0, at) + u32_bytes(adj) + buf.subrange(at + 4, buf.len() as int)
            } else {
                buf
            }
        },
        None => buf,
    }
}

/// The limits of the sfnt header: the table count fits the binary-search
/// fields, and every offset fits 32 bits.
pub open spec fn file_fits(s: Seq<(Seq<u8>, Seq<u8>)>) -> bool {
    &&& 1 <= s.len() <= 4095
    &&& 12 + 16 * s.len() + sizes_before(s, s.len() as int) <= u32::MAX
}

proof fn lemma_sizes_before_monotone(s: Seq<(Seq<u8>, Seq<u8>)>, j: int, k: int)
    requires
        0 <= j <= k,
    ensures
        0 <= sizes_before(s, j) <= sizes_before(s, k),
    decreases k,
{
    if j < k {
        lemma_sizes_before_monotone(s, j, k - 1);
    } else if k > 0 {
        lemma_sizes_before_monotone(s, 0, k - 1);
    }
}

pub(crate) proof fn lemma_first_with_tag(s: Seq<(Seq<u8>, Seq<u8>)>, t: Seq<u8>, i: int)
    requires
        0 <= i <= s.len(),
        forall|j: int| 0 <= j < i ==> #[trigger] s[j].0 != t,
        i < s.len() ==> s[i].0 == t,
    ensures
        first_with_tag(s, t) == (if i < s.len() {
            Some(i)
        } else {
            None::<int>
        }),
    decreases s.len(),
{
    if s.len() > 0 {
        let d = s.drop_last();
        let m = if i < d.len() {
            i
        } else {
            d.len() as int
        };
        assert forall|j: int| 0 <= j < m implies #[trigger] d[j].0 != t by {
            assert(d[j] == s[j]);
        }
        if i < d.len() {
            assert(d[i] == s[i]);
        }
        lemma_first_with_tag(d, t, m);
    }
}

pub open spec fn entries_view(v: Seq<(Tag, Vec<u8>)>) -> Seq<(Seq<u8>, Seq<u8>)> {
    Seq::new(v.len(), |i: int| (v[i].0.0@, v[i].1@))
}

/// The whole-word checksum of a table's bytes.
fn calc_checksum(data: &[u8]) -> (sum: u32)
    ensures
        sum == whole_word_checksum(data@),
{
    checksum_whole_words(data)
}

/// The bytes zero-padded to a multiple of four.
fn pad4(v: Vec<u8>) -> (r: Vec<u8>)
    ensures
        r@ == v@ + zeros(pad_len(v@.len())),
{
    let mut r = v;
    let ghost base = r@;
    while r.len() % 4 != 0
        invariant
            base.len() <= r@.len() <= base.len() + 3,
            r@ == base + zeros((r@.len() - base.len()) as nat),
            (r@.len() - base.len()) <= pad_len(base.len()),
            (r@.len() % 4 != 0) ==> (r@.len() - base.len()) < pad_len(base.len()),
        decreases 4 - (r@.len() - base.len()),
    {
        r.push(0);
        proof {
            assert(r@ =~= base + zeros((r@.len() - base.len()) as nat));
        }
    }
    proof {
        assert(r@.len() - base.len() == pad_len(base.len()));
    }
    r
}

fn push_entry(out: &mut Vec<(Tag, Vec<u8>)>, tag: Tag, data: Vec<u8>)
    ensures
        entries_view(final(out)@) == entries_view(old(out)@).push(entry(tag.0@, data@)),
{
    let padded = pad4(data);
    out.push((tag, padded));
    proof {
        assert(entries_view(out@) =~= entries_view(old(out)@).push(entry(tag.0@, data@)));
    }
}



impl Font {
    /// Every table the font can write: each within its own limits, the
    /// glyphs' total size within 32 bits.
    #[verifier::opaque]
    pub open spec fn writable(self) -> bool {
        &&& self.written_head().writable()
        &&& self.hhea.writable()
        &&& self.maxp.writable()
        &&& self.post.writable()
        &&& self.name.writable()
        &&& self.cmap.writable()
        &&& self.os2.writable()
        &&& self.hmtx.writable()
        &&& (self.kern matches Some(k) ==> k.writable())
        &&& (self.fvar matches Some(v) ==> v.writable())
        &&& (self.stat matches Some(v) ==> v.writable())
        &&& (self.cff matches Some(v) ==> v.writable())
        &&& (self.colr matches Some(v) ==> v.writable())
        &&& (self.cpal matches Some(v) ==> v.writable())
        &&& (self.svg matches Some(v) ==> v.writable())
        &&& (self.glyf matches Some(g) ==> prefix_sum(glyph_sizes(g), g.glyphs@.len() as int)
            <= u32::MAX)
    }

    /// The tables in the order `write` gathers them, each padded.
    fn collect_tables(&self) -> (out: Vec<(Tag, Vec<u8>)>)
        requires
            self.writable(),
        ensures
            entries_view(out@) == self.table_list(),
    {
        proof {
            reveal(Font::writable);
        }
        let mut out = self.collect_base();
        self.collect_optional(&mut out);
        self.collect_glyphs(&mut out);
        let n = self.raw_tables.len();
        let ghost before = entries_view(out@);
        let mut i: usize = 0;
        while i < n
            invariant
                n == self.raw_tables@.len(),
                i <= n,
                entries_view(out@) == before + raw_entries(self.raw_tables@).subrange(0, i as int),
            decreases n - i,
        {
            let (tag, data) = &self.raw_tables[i];
            let copy = vstd::slice::slice_to_vec(data.as_slice());
            push_entry(&mut out, *tag, copy);
            i += 1;
            proof {
                assert(entries_view(out@) =~= before + raw_entries(self.raw_tables@).subrange(
                    0,
                    i as int,
                ));
            }
        }
        proof {
            assert(raw_entries(self.raw_tables@).subrange(0, n as int) =~= raw_entries(
                self.raw_tables@,
            ));
        }
        out
    }
}


fn push_some(out: &mut Vec<(Tag, Vec<u8>)>, tag: Tag, data: Option<Vec<u8>>)
    ensures
        entries_view(final(out)@) == entries_view(old(out)@) + some_entry(tag.0@, vec_view(data)),
{
    match data {
        Some(d) => push_entry(out, tag, d),
        None => {},
    }
    proof {
        assert(entries_view(out@) =~= entries_view(old(out)@) + some_entry(tag.0@, vec_view(data)));
    }
}

impl Font {
    fn kern_bytes(&self) -> (r: Option<Vec<u8>>)
        requires
            self.kern matches Some(x) ==> x.writable(),
        ensures
            vec_view(r) == self.kern_data(),
    {
        match &self.kern {
            Some(x) => {
                let mut w = Writer::new();
                let _ = x.write(&mut w);
                Some(w.into_vec())
            },
            None => None,
        }
    }

    fn gpos_bytes(&self) -> (r: Option<Vec<u8>>)
        ensures
            vec_view(r) == self.gpos_data(),
    {
        match &self.gpos {
            Some(x) => {
                let mut w = Writer::new();
                let _ = x.write(&mut w);
                Some(w.into_vec())
            },
            None => None,
        }
    }

    fn gsub_bytes(&self) -> (r: Option<Vec<u8>>)
        ensures
            vec_view(r) == self.gsub_data(),
    {
        match &self.gsub {
            Some(x) => {
                let mut w = Writer::new();
                let _ = x.write(&mut w);
                Some(w.into_vec())
            },
            None => None,
        }
    }

    fn hvar_bytes(&self) -> (r: Option<Vec<u8>>)
        ensures
            vec_view(r) == self.hvar_data(),
    {
        match &self.hvar {
            Some(x) => {
                let mut w = Writer::new();
                let _ = x.write(&mut w);
                Some(w.into_vec())
            },
            None => None,
        }
    }

    fn gvar_bytes(&self) -> (r: Option<Vec<u8>>)
        ensures
            vec_view(r) == self.gvar_data(),
    {
        match &self.gvar {
            Some(x) => {
                let mut w = Writer::new();
                let _ = x.write(&mut w);
                Some(w.into_vec())
            },
            None => None,
        }
    }

    fn fvar_bytes(&self) -> (r: Option<Vec<u8>>)
        requires
            self.fvar matches Some(x) ==> x.writable(),
        ensures
            vec_view(r) == self.fvar_data(),
    {
        match &self.fvar {
            Some(x) => {
                let mut w = Writer::new();
                let _ = x.write(&mut w);
                Some(w.into_vec())
            },
            None => None,
        }
    }

    fn stat_bytes(&self) -> (r: Option<Vec<u8>>)
        requires
            self.stat matches Some(x) ==> x.writable(),
        ensures
            vec_view(r) == self.stat_data(),
    {
        match &self.stat {
            Some(x) => {
                let mut w = Writer::new();
                let _ = x.write(&mut w);
                Some(w.into_vec())
            },
            None => None,
        }
    }

    fn cff_bytes(&self) -> (r: Option<Vec<u8>>)
        requires
            self.cff matches Some(x) ==> x.writable(),
        ensures
            vec_view(r) == self.cff_data(),
    {
        match &self.cff {
            Some(x) => {
                let mut w = Writer::new();
                let _ = x.write(&mut w);
                Some(w.into_vec())
            },
            None => None,
        }
    }

    fn colr_bytes(&self) -> (r: Option<Vec<u8>>)
        requires
            self.colr matches Some(x) ==> x.writable(),
        ensures
            vec_view(r) == self.colr_data(),
    {
        match &self.colr {
            Some(x) => {
                let mut w = Writer::new();
                let _ = x.write(&mut w);
                Some(w.into_vec())
            },
            None => None,
        }
    }

    fn cpal_bytes(&self) -> (r: Option<Vec<u8>>)
        requires
            self.cpal matches Some(x) ==> x.writable(),
        ensures
            vec_view(r) == self.cpal_data(),
    {
        match &self.cpal {
            Some(x) => {
                let mut w = Writer::new();
                let _ = x.write(&mut w);
                Some(w.into_vec())
            },
            None => None,
        }
    }

    fn svg_bytes(&self) -> (r: Option<Vec<u8>>)
        requires
            self.svg matches Some(x) ==> x.writable(),
        ensures
            vec_view(r) == self.svg_data(),
    {
        match &self.svg {
            Some(x) => {
                let mut w = Writer::new();
                let _ = x.write(&mut w);
                Some(w.into_vec())
            },
            None => None,
        }
    }

    fn copy_opt(v: &Option<Vec<u8>>) -> (r: Option<Vec<u8>>)
        ensures
            vec_view(r) == vec_view(*v),
    {
        match v {
            Some(d) => Some(vstd::slice::slice_to_vec(d.as_slice())),
            None => None,
        }
    }

    fn head_bytes(&self) -> (r: Vec<u8>)
        requires
            self.written_head().writable(),
        ensures
            r@ == self.head_data(),
    {
        reveal(Font::head_data);
        let mut head = self.head.clone();
        head.check_sum_adjustment = 0;
        if self.glyf.is_some() {
            head.index_to_loc_format = 1;
        }
        assert(head == self.written_head());
        let mut w = Writer::new();
        let _ = head.write(&mut w);
        w.into_vec()
    }

    fn hhea_bytes(&self) -> (r: Vec<u8>)
        requires
            self.hhea.writable(),
        ensures
            r@ == self.hhea_data(),
    {
        reveal(Font::hhea_data);
        let mut w = Writer::new();
        let _ = self.hhea.write(&mut w);
        w.into_vec()
    }

    fn maxp_bytes(&self) -> (r: Vec<u8>)
        requires
            self.maxp.writable(),
        ensures
            r@ == self.maxp_data(),
    {
        reveal(Font::maxp_data);
        let mut w = Writer::new();
        let _ = self.maxp.write(&mut w);
        w.into_vec()
    }

    fn post_bytes(&self) -> (r: Vec<u8>)
        requires
            self.post.writable(),
        ensures
            r@ == self.post_data(),
    {
        reveal(Font::post_data);
        let mut w = Writer::new();
        let _ = self.post.write(&mut w);
        w.into_vec()
    }

    fn name_bytes(&self) -> (r: Vec<u8>)
        requires
            self.name.writable(),
        ensures
            r@ == self.name_data(),
    {
        reveal(Font::name_data);
        let mut w = Writer::new();
        let _ = self.name.write(&mut w);
        w.into_vec()
    }

    fn cmap_bytes(&self) -> (r: Vec<u8>)
        requires
            self.cmap.writable(),
        ensures
            r@ == self.cmap_data(),
    {
        reveal(Font::cmap_data);
        let mut w = Writer::new();
        let _ = self.cmap.write(&mut w);
        w.into_vec()
    }

    fn os2_bytes(&self) -> (r: Vec<u8>)
        requires
            self.os2.writable(),
        ensures
            r@ == self.os2_data(),
    {
        reveal(Font::os2_data);
        let mut w = Writer::new();
        let _ = self.os2.write(&mut w);
        w.into_vec()
    }

    fn hmtx_bytes(&self) -> (r: Vec<u8>)
        requires
            self.hmtx.writable(),
        ensures
            r@ == self.hmtx_data(),
    {
        reveal(Font::hmtx_data);
        let mut w = Writer::new();
        let _ = self.hmtx.write(&mut w);
        w.into_vec()
    }

    fn collect_base(&self) -> (out: Vec<(Tag, Vec<u8>)>)
        requires
            self.written_head().writable(),
            self.hhea.writable(),
            self.maxp.writable(),
            self.post.writable(),
            self.name.writable(),
            self.cmap.writable(),
            self.os2.writable(),
            self.hmtx.writable(),
        ensures
            entries_view(out@) == self.base_tables(),
    {
        let mut out: Vec<(Tag, Vec<u8>)> = Vec::new();
        assert(entries_view(out@) =~= Seq::empty());
        push_entry(&mut out, Head::tag(), self.head_bytes());
        push_entry(&mut out, Hhea::tag(), self.hhea_bytes());
        push_entry(&mut out, Maxp::tag(), self.maxp_bytes());
        push_entry(&mut out, Post::tag(), self.post_bytes());
        push_entry(&mut out, Name::tag(), self.name_bytes());
        push_entry(&mut out, Cmap::tag(), self.cmap_bytes());
        push_entry(&mut out, Os2::tag(), self.os2_bytes());
        push_entry(&mut out, Hmtx::tag(), self.hmtx_bytes());
        proof {
            assert(entries_view(out@) =~= self.base_tables());
        }
        out
    }

    fn collect_optional(&self, out: &mut Vec<(Tag, Vec<u8>)>)
        requires
            self.kern matches Some(k) ==> k.writable(),
            self.fvar matches Some(v) ==> v.writable(),
            self.stat matches Some(v) ==> v.writable(),
            self.cff matches Some(v) ==> v.writable(),
            self.colr matches Some(v) ==> v.writable(),
            self.cpal matches Some(v) ==> v.writable(),
            self.svg matches Some(v) ==> v.writable(),
        ensures
            entries_view(final(out)@) == entries_view(old(out)@) + self.optional_tables(),
    {
        let ghost start = entries_view(out@);
        push_some(out, Kern::tag(), self.kern_bytes());
        let ghost mut partial = some_entry(seq![0x6bu8, 0x65, 0x72, 0x6e], self.kern_data());
        push_some(out, Tag([0x63, 0x76, 0x74, 0x20]), Self::copy_opt(&self.cvt));
        proof {
            vstd::seq_lib::lemma_concat_associative(start, partial, some_entry(seq![0x63u8, 0x76, 0x74, 0x20], vec_view(self.cvt)));
            partial = partial + some_entry(seq![0x63u8, 0x76, 0x74, 0x20], vec_view(self.cvt));
        }
        push_some(out, Tag([0x70, 0x72, 0x65, 0x70]), Self::copy_opt(&self.prep));
        proof {
            vstd::seq_lib::lemma_concat_associative(start, partial, some_entry(seq![0x70u8, 0x72, 0x65, 0x70], vec_view(self.prep)));
            partial = partial + some_entry(seq![0x70u8, 0x72, 0x65, 0x70], vec_view(self.prep));
        }
        push_some(out, Tag([0x66, 0x70, 0x67, 0x6d]), Self::copy_opt(&self.fpgm));
        proof {
            vstd::seq_lib::lemma_concat_associative(start, partial, some_entry(seq![0x66u8, 0x70, 0x67, 0x6d], vec_view(self.fpgm)));
            partial = partial + some_entry(seq![0x66u8, 0x70, 0x67, 0x6d], vec_view(self.fpgm));
        }
        push_some(out, Gpos::tag(), self.gpos_bytes());
        proof {
            vstd::seq_lib::lemma_concat_associative(start, partial, some_entry(seq![0x47u8, 0x50, 0x4f, 0x53], self.gpos_data()));
            partial = partial + some_entry(seq![0x47u8, 0x50, 0x4f, 0x53], self.gpos_data());
        }
        push_some(out, Gsub::tag(), self.gsub_bytes());
        proof {
            vstd::seq_lib::lemma_concat_associative(start, partial, some_entry(seq![0x47u8, 0x53, 0x55, 0x42], self.gsub_data()));
            partial = partial + some_entry(seq![0x47u8, 0x53, 0x55, 0x42], self.gsub_data());
        }
        push_some(out, Hvar::tag(), self.hvar_bytes());
        proof {
            vstd::seq_lib::lemma_concat_associative(start, partial, some_entry(seq![0x48u8, 0x56, 0x41, 0x52], self.hvar_data()));
            partial = partial + some_entry(seq![0x48u8, 0x56, 0x41, 0x52], self.hvar_data());
        }
        push_some(out, Gvar::tag(), self.gvar_bytes());
        proof {
            vstd::seq_lib::lemma_concat_associative(start, partial, some_entry(seq![0x67u8, 0x76, 0x61, 0x72], self.gvar_data()));
            partial = partial + some_entry(seq![0x67u8, 0x76, 0x61, 0x72], self.gvar_data());
        }
        push_some(out, Fvar::tag(), self.fvar_bytes());
        proof {
            vstd::seq_lib::lemma_concat_associative(start, partial, some_entry(seq![0x66u8, 0x76, 0x61, 0x72], self.fvar_data()));
            partial = partial + some_entry(seq![0x66u8, 0x76, 0x61, 0x72], self.fvar_data());
        }
        push_some(out, Stat::tag(), self.stat_bytes());
        proof {
            vstd::seq_lib::lemma_concat_associative(start, partial, some_entry(seq![0x53u8, 0x54, 0x41, 0x54], self.stat_data()));
            partial = partial + some_entry(seq![0x53u8, 0x54, 0x41, 0x54], self.stat_data());
        }
        push_some(out, Cff::tag(), self.cff_bytes());
        proof {
            vstd::seq_lib::lemma_concat_associative(start, partial, some_entry(seq![0x43u8, 0x46, 0x46, 0x20], self.cff_data()));
            partial = partial + some_entry(seq![0x43u8, 0x46, 0x46, 0x20], self.cff_data());
        }
        push_some(out, Colr::tag(), self.colr_bytes());
        proof {
            vstd::seq_lib::lemma_concat_associative(start, partial, some_entry(seq![0x43u8, 0x4f, 0x4c, 0x52], self.colr_data()));
            partial = partial + some_entry(seq![0x43u8, 0x4f, 0x4c, 0x52], self.colr_data());
        }
        push_some(out, Cpal::tag(), self.cpal_bytes());
        proof {
            vstd::seq_lib::lemma_concat_associative(start, partial, some_entry(seq![0x43u8, 0x50, 0x41, 0x4c], self.cpal_data()));
            partial = partial + some_entry(seq![0x43u8, 0x50, 0x41, 0x4c], self.cpal_data());
        }
        push_some(out, Svg::tag(), self.svg_bytes());
        proof {
            vstd::seq_lib::lemma_concat_associative(start, partial, some_entry(seq![0x53u8, 0x56, 0x47, 0x20], self.svg_data()));
            partial = partial + some_entry(seq![0x53u8, 0x56, 0x47, 0x20], self.svg_data());
        }
        assert(partial == self.optional_tables()) by {
            reveal(Font::optional_tables);
        }
    }

    fn collect_glyphs(&self, out: &mut Vec<(Tag, Vec<u8>)>)
        requires
            self.glyf matches Some(g) ==> prefix_sum(glyph_sizes(g), g.glyphs@.len() as int)
                <= u32::MAX,
        ensures
            entries_view(final(out)@) == entries_view(old(out)@) + self.glyph_tables(),
    {
        match &self.glyf {
            Some(glyf) => {
                let mut glyf_w = Writer::new();
                let mut sizes: Vec<usize> = Vec::new();
                let n = glyf.glyphs.len();
                let mut i: usize = 0;
                while i < n
                    invariant
                        n == glyf.glyphs@.len(),
                        i <= n,
                        glyf_w@ == glyphs_bytes(glyf.glyphs@, i as int),
                        sizes@ == glyph_sizes(*glyf).subrange(0, i as int),
                    decreases n - i,
                {
                    let start = glyf_w.len();
                    glyf.glyphs[i].write(&mut glyf_w);
                    sizes.push(glyf_w.len() - start);
                    i += 1;
                    proof {
                        assert(sizes@ =~= glyph_sizes(*glyf).subrange(0, i as int));
                    }
                }
                proof {
                    assert(sizes@ =~= glyph_sizes(*glyf));
                }
                push_entry(out, GlyfTable::tag(), glyf_w.into_vec());
                let new_loca = LocaTable::from_glyph_sizes(sizes.as_slice(), true);
                let mut w = Writer::new();
                let _ = new_loca.write(&mut w);
                proof {
                    assert(new_loca.offsets@ =~= glyph_offsets(*glyf));
                }
                push_entry(out, LocaTable::tag(), w.into_vec());
            },
            None => {},
        }
        proof {
            assert(entries_view(out@) =~= entries_view(old(out)@) + self.glyph_tables());
        }
    }
}


/// The sort key of a tag.
fn key_of(t: &Tag) -> (k: u32)
    ensures
        k == tag_key(t.0@),
{
    t.0[0] as u32 * 0x100_0000 + t.0[1] as u32 * 0x1_0000 + t.0[2] as u32 * 0x100 + t.0[3] as u32
}

pub(crate) proof fn lemma_insert_by_tag(s: Seq<(Seq<u8>, Seq<u8>)>, x: (Seq<u8>, Seq<u8>), p: int)
    requires
        0 <= p <= s.len(),
        forall|i: int| 0 <= i < p ==> tag_key(#[trigger] s[i].0) <= tag_key(x.0),
        forall|i: int| p <= i < s.len() ==> tag_key(#[trigger] s[i].0) > tag_key(x.0),
    ensures
        insert_by_tag(s, x) == s.insert(p, x),
    decreases s.len(),
{
    if s.len() == 0 {
        assert(s.insert(p, x) =~= seq![x]);
    } else if tag_key(s.last().0) <= tag_key(x.0) {
        assert(p == s.len());
        assert(s.insert(p, x) =~= s.push(x));
    } else {
        assert(p < s.len());
        let d = s.drop_last();
        assert forall|i: int| 0 <= i < p implies tag_key(#[trigger] d[i].0) <= tag_key(x.0) by {
            assert(d[i] == s[i]);
        }
        assert forall|i: int| p <= i < d.len() implies tag_key(#[trigger] d[i].0) > tag_key(x.0) by {
            assert(d[i] == s[i]);
        }
        lemma_insert_by_tag(d, x, p);
        assert(d.insert(p, x).push(s.last()) =~= s.insert(p, x));
    }
}

proof fn lemma_sort_len(s: Seq<(Seq<u8>, Seq<u8>)>)
    ensures
        sort_by_tag(s).len() == s.len(),
    decreases s.len(),
{
    if s.len() > 0 {
        lemma_sort_len(s.drop_last());
        lemma_insert_len(sort_by_tag(s.drop_last()), s.last());
    }
}

proof fn lemma_insert_len(s: Seq<(Seq<u8>, Seq<u8>)>, x: (Seq<u8>, Seq<u8>))
    ensures
        insert_by_tag(s, x).len() == s.len() + 1,
    decreases s.len(),
{
    if s.len() > 0 && tag_key(s.last().0) > tag_key(x.0) {
        lemma_insert_len(s.drop_last(), x);
    }
}

/// The entries stably sorted by tag.
fn sort_entries(v: Vec<(Tag, Vec<u8>)>) -> (r: Vec<(Tag, Vec<u8>)>)
    ensures
        entries_view(r@) == sort_by_tag(entries_view(v@)),
{
    let ghost orig = entries_view(v@);
    let n = v.len();
    let mut input = v;
    let mut out: Vec<(Tag, Vec<u8>)> = Vec::new();
    let mut k: usize = 0;
    proof {
        assert(entries_view(out@) =~= sort_by_tag(orig.subrange(0, 0)));
        assert(entries_view(input@) =~= orig.subrange(0, n as int));
    }
    while k < n
        invariant
            n == orig.len(),
            k <= n,
            input@.len() == n - k,
            entries_view(input@) == orig.subrange(k as int, n as int),
            entries_view(out@) == sort_by_tag(orig.subrange(0, k as int)),
            sorted_by_tag(entries_view(out@)),
        decreases n - k,
    {
        let ghost before = entries_view(out@);
        let ghost inp = input@;
        let x = input.remove(0);
        proof {
            assert(entries_view(inp)[0] == orig[k as int]);
            assert forall|j: int| 0 <= j < input@.len() implies #[trigger] entries_view(input@)[j]
                == orig[k + 1 + j] by {
                assert(input@[j] == inp[j + 1]);
                assert(entries_view(inp)[j + 1] == orig[k + 1 + j]);
            }
            assert(entries_view(input@) =~= orig.subrange(k + 1, n as int));
            assert((x.0.0@, x.1@) == orig[k as int]);
        }
        let xk = key_of(&x.0);
        let m = out.len();
        let mut p: usize = 0;
        while p < m && key_of(&out[p].0) <= xk
            invariant
                m == out@.len(),
                p <= m,
                before == entries_view(out@),
                forall|i: int| 0 <= i < p ==> tag_key(#[trigger] before[i].0) <= xk,
            decreases m - p,
        {
            p += 1;
        }
        proof {
            assert forall|i: int| p <= i < before.len() implies tag_key(#[trigger] before[i].0) > xk by {
                assert(tag_key(before[p as int].0) > xk);
                assert(tag_key(before[p as int].0) <= tag_key(before[i].0));
            }
            lemma_insert_by_tag(before, orig[k as int], p as int);
            let sub = orig.subrange(0, k + 1);
            assert(sub.drop_last() =~= orig.subrange(0, k as int));
            assert(sub.last() == orig[k as int]);
        }
        out.insert(p, x);
        proof {
            assert(entries_view(out@) =~= before.insert(p as int, orig[k as int]));
            let after = entries_view(out@);
            assert forall|i: int, j: int| 0 <= i <= j < after.len() implies tag_key(after[i].0)
                <= tag_key(after[j].0) by {
                if i < p && j < p {
                    assert(after[i] == before[i] && after[j] == before[j]);
                } else if i < p && j == p {
                    assert(after[i] == before[i]);
                } else if i < p {
                    assert(after[i] == before[i] && after[j] == before[j - 1]);
                } else if i == p && j > p {
                    assert(after[j] == before[j - 1]);
                } else if i > p {
                    assert(after[i] == before[i - 1] && after[j] == before[j - 1]);
                }
            }
        }
        k += 1;
    }
    proof {
        assert(orig.subrange(0, n as int) =~= orig);
    }
    out
}


fn write_header(w: &mut Writer, version: SfntVersion, n: usize)
    requires
        1 <= n <= 4095,
    ensures
        final(w)@ == old(w)@ + sfnt_header(version, n as nat),
{
    proof {
        crate::math::lemma_log2_floor_bounds(n as nat);
    }
    let num_tables = n as u16;
    let e = crate::math::ilog2(n as u32);
    let search_range = crate::math::pow2_u16(e);
    let range_shift = num_tables * 16 - search_range;
    match version {
        SfntVersion::TrueType => w.write_u32(0x00010000),
        SfntVersion::Cff => w.write_u32(0x4F54544F),
    }
    w.write_u16(num_tables);
    w.write_u16(search_range);
    w.write_u16(e as u16);
    w.write_u16(range_shift);
    proof {
        assert(w@ =~= old(w)@ + sfnt_header(version, n as nat));
    }
}

/// Writes the directory records and gives back each table's offset.
fn write_directory(w: &mut Writer, s: &Vec<(Tag, Vec<u8>)>) -> (offsets: Vec<u32>)
    requires
        file_fits(entries_view(s@)),
    ensures
        final(w)@ == old(w)@ + directory(entries_view(s@), s@.len() as int),
        offsets@.len() == s@.len(),
        forall|j: int|
            0 <= j < s@.len() ==> #[trigger] offsets@[j] == 12 + 16 * s@.len() + sizes_before(
                entries_view(s@),
                j,
            ),
{
    let ghost es = entries_view(s@);
    let ghost start = w@;
    let n = s.len();
    let mut offsets: Vec<u32> = Vec::new();
    let mut offset: u32 = 12 + 16 * (n as u32);
    let mut k: usize = 0;
    while k < n
        invariant
            n == es.len(),
            es == entries_view(s@),
            file_fits(es),
            k <= n,
            w@ == start + directory(es, k as int),
            offset == 12 + 16 * n + sizes_before(es, k as int),
            offsets@.len() == k,
            forall|j: int| 0 <= j < k ==> #[trigger] offsets@[j] == 12 + 16 * n + sizes_before(es, j),
        decreases n - k,
    {
        let tag = &s[k].0;
        let data = &s[k].1;
        proof {
            lemma_sizes_before_monotone(es, k + 1, n as int);
            assert(es[k as int] == (tag.0@, data@));
        }
        let c = calc_checksum(data.as_slice());
        w.write_tag(&tag.0);
        w.write_u32(c);
        w.write_u32(offset);
        w.write_u32(data.len() as u32);
        offsets.push(offset);
        offset = offset + data.len() as u32;
        k += 1;
        proof {
            assert(w@ =~= start + directory(es, k as int));
        }
    }
    offsets
}

fn write_bodies(w: &mut Writer, s: &Vec<(Tag, Vec<u8>)>)
    ensures
        final(w)@ == old(w)@ + bodies(entries_view(s@), s@.len() as int),
{
    let ghost es = entries_view(s@);
    let ghost start = w@;
    let n = s.len();
    let mut k: usize = 0;
    while k < n
        invariant
            n == es.len(),
            es == entries_view(s@),
            k <= n,
            w@ == start + bodies(es, k as int),
        decreases n - k,
    {
        let data = &s[k].1;
        proof {
            assert(es[k as int].1 == data@);
        }
        w.write_bytes(data.as_slice());
        k += 1;
        proof {
            assert(w@ =~= start + bodies(es, k as int));
        }
    }
}

/// The index of the first table tagged `head`, if any.
fn find_head(s: &Vec<(Tag, Vec<u8>)>) -> (r: Option<usize>)
    ensures
        match r {
            Some(i) => i < s@.len() && first_with_tag(entries_view(s@), head_tag()) == Some(
                i as int,
            ),
            None => first_with_tag(entries_view(s@), head_tag()) is None,
        },
{
    let ghost es = entries_view(s@);
    let n = s.len();
    let head = Head::tag();
    assert(head.0@ =~= head_tag());
    let mut i: usize = 0;
    while i < n && !(s[i].0 == head)
        invariant
            n == es.len(),
            es == entries_view(s@),
            i <= n,
            head.0@ == head_tag(),
            forall|j: int| 0 <= j < i ==> #[trigger] es[j].0 != head_tag(),
        decreases n - i,
    {
        proof {
            assert(es[i as int].0 == s@[i as int].0.0@);
        }
        i += 1;
    }
    proof {
        if i < n {
            assert(es[i as int].0 == s@[i as int].0.0@);
        }
        lemma_first_with_tag(es, head_tag(), i as int);
    }
    if i < n {
        Some(i)
    } else {
        None
    }
}

/// Overwrites the four bytes at `at` with `v`, big-endian.
fn put_u32(buf: &mut Vec<u8>, at: usize, v: u32)
    requires
        at + 4 <= old(buf)@.len(),
    ensures
        final(buf)@ == old(buf)@.subrange(0, at as int) + u32_bytes(v) + old(buf)@.subrange(
            at + 4,
            old(buf)@.len() as int,
        ),
{
    let n = buf.len();
    assert(at + 4 <= n);
    buf.set(at, (v / 16777216) as u8);
    buf.set(at + 1, ((v / 65536) % 256) as u8);
    buf.set(at + 2, ((v / 256) % 256) as u8);
    buf.set(at + 3, (v % 256) as u8);
    proof {
        assert(buf@ =~= old(buf)@.subrange(0, at as int) + u32_bytes(v) + old(buf)@.subrange(
            at + 4,
            old(buf)@.len() as int,
        ));
    }
}

/// The file for the sorted, padded tables: header, directory, tables, and
/// the checksum adjustment in `head`.
/// The header, directory and tables, with each table's offset.
fn unadjusted(version: SfntVersion, s: &Vec<(Tag, Vec<u8>)>) -> (r: (Vec<u8>, Vec<u32>))
    requires
        file_fits(entries_view(s@)),
    ensures
        r.0@ == unadjusted_file(version, entries_view(s@)),
        r.1@.len() == s@.len(),
        forall|j: int|
            0 <= j < s@.len() ==> #[trigger] r.1@[j] == 12 + 16 * s@.len() + sizes_before(
                entries_view(s@),
                j,
            ),
{
    let ghost es = entries_view(s@);
    let mut w = Writer::new();
    write_header(&mut w, version, s.len());
    let offsets = write_directory(&mut w, s);
    write_bodies(&mut w, s);
    let buf = w.into_vec();
    proof {
        assert(buf@ =~= unadjusted_file(version, es));
    }
    (buf, offsets)
}

/// The file for the sorted, padded tables: header, directory, tables, and
/// the checksum adjustment in `head`.
fn assemble(version: SfntVersion, s: &Vec<(Tag, Vec<u8>)>) -> (buf: Vec<u8>)
    requires
        file_fits(entries_view(s@)),
    ensures
        buf@ == adjusted_file(version, entries_view(s@)),
{
    let ghost es = entries_view(s@);
    let (mut buf, offsets) = unadjusted(version, s);
    let whole = calc_checksum(buf.as_slice());
    let adj: u32 = if whole <= 0xB1B0AFBA {
        0xB1B0AFBA - whole
    } else {
        (0xB1B0AFBAu64 + 0x1_0000_0000 - whole as u64) as u32
    };
    assert(adj == adjustment(whole_word_checksum(buf@)));
    let ghost u = buf@;
    match find_head(s) {
        Some(i) => {
            let at: u64 = offsets[i] as u64 + 8;
            assert(at == 12 + 16 * es.len() + sizes_before(es, i as int) + 8);
            if at + 4 <= buf.len() as u64 {
                put_u32(&mut buf, at as usize, adj);
                assert(buf@ == u.subrange(0, at as int) + u32_bytes(adj) + u.subrange(
                    at + 4,
                    u.len() as int,
                ));
            }
            assert(first_with_tag(es, head_tag()) == Some(i as int));
            assert(buf@ == adjusted_file(version, es));
        },
        None => {
            assert(buf@ == adjusted_file(version, es));
        },
    }
    buf
}

impl Font {
    /// The font file: every table the font holds, padded to four bytes and
    /// sorted by tag (stably), behind the sfnt header and the table
    /// directory, with `head`'s checksum adjustment set so that the whole
    /// file sums to 0xB1B0AFBA (the old adjustment is zeroed first).
    pub fn write(&self) -> (r: Result<Vec<u8>, FontError>)
        requires
            self.writable(),
            file_fits(sort_by_tag(self.table_list())),
        ensures
            r matches Ok(b) && b@ == adjusted_file(self.sfnt_version, sort_by_tag(self.table_list())),
            r matches Ok(b) && b@.len() % 4 == 0 && whole_word_checksum(b@) == 0xB1B0AFBA,
    {
        let entries = self.collect_tables();
        let sorted = sort_entries(entries);
        proof {
            crate::write_read::lemma_written_font_sums_to_magic(*self);
        }
        Ok(assemble(self.sfnt_version, &sorted))
    }
}

} // verus!
