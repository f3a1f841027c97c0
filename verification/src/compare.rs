//! A structural comparison of two fonts.
use vstd::prelude::*;
use crate::error::Tag;
use crate::font::{Font, TableRecord};
use crate::font_read::{find_record, find_spec};
use crate::tables::name::{find_name, opt_view};
use crate::text::str_eq;
use crate::font::first_with_tag;
use crate::font_read::record_tags;
use crate::write_read::lemma_first_props;

verus! {

/// One way in which two fonts differ.
#[derive(Debug, Clone)]
pub enum FontDiff {
    /// A table that only the first font lists.
    OnlyInFirst(Tag),
    /// A table that only the second font lists.
    OnlyInSecond(Tag),
    /// A table that both list, with its length in the first and in the
    /// second.
    TableLength(Tag, u32, u32),
    /// The family names (name 1), when they differ.
    Family(Option<String>, Option<String>),
    /// The subfamily names (name 2), when they differ.
    Subfamily(Option<String>, Option<String>),
    /// The glyph counts of `maxp`, when they differ.
    GlyphCount(u16, u16),
    /// The units per em of `head`, when they differ.
    UnitsPerEm(u16, u16),
}

/// A difference with its tags and names as plain values.
pub enum FontDiffView {
    OnlyInFirst(Seq<u8>),
    OnlyInSecond(Seq<u8>),
    TableLength(Seq<u8>, u32, u32),
    Family(Option<Seq<char>>, Option<Seq<char>>),
    Subfamily(Option<Seq<char>>, Option<Seq<char>>),
    GlyphCount(u16, u16),
    UnitsPerEm(u16, u16),
}

impl View for FontDiff {
    type V = FontDiffView;

    open spec fn view(&self) -> FontDiffView {
        match self {
            FontDiff::OnlyInFirst(t) => FontDiffView::OnlyInFirst(t.0@),
            FontDiff::OnlyInSecond(t) => FontDiffView::OnlyInSecond(t.0@),
            FontDiff::TableLength(t, a, b) => FontDiffView::TableLength(t.0@, *a, *b),
            FontDiff::Family(a, b) => FontDiffView::Family(opt_view(*a), opt_view(*b)),
            FontDiff::Subfamily(a, b) => FontDiffView::Subfamily(opt_view(*a), opt_view(*b)),
            FontDiff::GlyphCount(a, b) => FontDiffView::GlyphCount(*a, *b),
            FontDiff::UnitsPerEm(a, b) => FontDiffView::UnitsPerEm(*a, *b),
        }
    }
}

/// Some record of the list has this tag.
pub open spec fn tag_listed(recs: Seq<TableRecord>, t: Seq<u8>) -> bool {
    exists|j: int| 0 <= j < recs.len() && (#[trigger] recs[j]).tag.0@ == t
}

/// The tags of `a` that `b` does not list, each once, in the order of
/// their first record in `a`; marked as only in the first font when
/// `first`, else as only in the second.
pub open spec fn only_in(a: Seq<TableRecord>, b: Seq<TableRecord>, first: bool) -> Seq<FontDiffView>
    decreases a.len(),
{
    if a.len() == 0 {
        Seq::empty()
    } else {
        let t = a.last().tag.0@;
        let rest = only_in(a.drop_last(), b, first);
        if !tag_listed(a.drop_last(), t) && find_spec(b, t) is None {
            rest.push(
                if first {
                    FontDiffView::OnlyInFirst(t)
                } else {
                    FontDiffView::OnlyInSecond(t)
                },
            )
        } else {
            rest
        }
    }
}

/// The tags that both list whose first records differ in length, in the
/// order of their first record in `a`.
pub open spec fn length_diffs(a: Seq<TableRecord>, b: Seq<TableRecord>) -> Seq<FontDiffView>
    decreases a.len(),
{
    if a.len() == 0 {
        Seq::empty()
    } else {
        let r = a.last();
        let rest = length_diffs(a.drop_last(), b);
        match find_spec(b, r.tag.0@) {
            Some(q) => if !tag_listed(a.drop_last(), r.tag.0@) && q.length != r.length {
                rest.push(FontDiffView::TableLength(r.tag.0@, r.length, q.length))
            } else {
                rest
            },
            None => rest,
        }
    }
}

/// A one-element list when `c` holds, else an empty one.
pub open spec fn when(c: bool, d: FontDiffView) -> Seq<FontDiffView> {
    if c {
        seq![d]
    } else {
        Seq::empty()
    }
}

/// The differences of two fonts: the tables only in the first, those only
/// in the second, those listed by both with different lengths, then the
/// family and subfamily names, the glyph counts and the units per em
/// where they differ.
pub open spec fn font_diffs(a: Font, b: Font) -> Seq<FontDiffView> {
    let fa = find_name(a.name.records@, 1);
    let fb = find_name(b.name.records@, 1);
    let sa = find_name(a.name.records@, 2);
    let sb = find_name(b.name.records@, 2);
    only_in(a.tables@, b.tables@, true) + only_in(b.tables@, a.tables@, false) + length_diffs(
        a.tables@,
        b.tables@,
    ) + when(fa != fb, FontDiffView::Family(fa, fb)) + when(sa != sb, FontDiffView::Subfamily(sa, sb))
        + when(
        a.maxp.num_glyphs != b.maxp.num_glyphs,
        FontDiffView::GlyphCount(a.maxp.num_glyphs, b.maxp.num_glyphs),
    ) + when(
        a.head.units_per_em != b.head.units_per_em,
        FontDiffView::UnitsPerEm(a.head.units_per_em, b.head.units_per_em),
    )
}

/// The views of a list of differences.
pub open spec fn diff_views(d: Seq<FontDiff>) -> Seq<FontDiffView> {
    Seq::new(d.len(), |i: int| d[i]@)
}

/// A difference that names a table only one font lists.
pub open spec fn is_table_listing(v: FontDiffView) -> bool {
    v is OnlyInFirst || v is OnlyInSecond
}

/// No difference of the list names a table only one font lists.
pub open spec fn no_listing(s: Seq<FontDiffView>) -> bool {
    forall|k: int| 0 <= k < s.len() ==> !is_table_listing(#[trigger] s[k])
}

proof fn lemma_find_none(b: Seq<TableRecord>, t: Seq<u8>)
    ensures
        find_spec(b, t) is None <==> !tag_listed(b, t),
{
    let s = record_tags(b);
    lemma_first_props(s, t);
    match first_with_tag(s, t) {
        Some(i) => {
            assert(s[i].0 == b[i].tag.0@);
        },
        None => {
            if tag_listed(b, t) {
                let j = choose|j: int| 0 <= j < b.len() && (#[trigger] b[j]).tag.0@ == t;
                assert(s[j].0 == b[j].tag.0@);
            }
        },
    }
}

proof fn lemma_push_contains(s: Seq<FontDiffView>, x: FontDiffView, v: FontDiffView)
    ensures
        s.push(x).contains(v) <==> (s.contains(v) || x == v),
{
    let p = s.push(x);
    if p.contains(v) {
        let k = choose|k: int| 0 <= k < p.len() && p[k] == v;
        if k < s.len() {
            assert(s[k] == v);
        }
    }
    if s.contains(v) {
        let k = choose|k: int| 0 <= k < s.len() && s[k] == v;
        assert(p[k] == v);
    }
    if x == v {
        assert(p[s.len() as int] == v);
    }
}

proof fn lemma_concat_contains(x: Seq<FontDiffView>, y: Seq<FontDiffView>, v: FontDiffView)
    ensures
        (x + y).contains(v) <==> (x.contains(v) || y.contains(v)),
{
    let p = x + y;
    if p.contains(v) {
        let k = choose|k: int| 0 <= k < p.len() && p[k] == v;
        if k < x.len() {
            assert(x[k] == v);
        } else {
            assert(y[k - x.len()] == v);
        }
    }
    if x.contains(v) {
        let k = choose|k: int| 0 <= k < x.len() && x[k] == v;
        assert(p[k] == v);
    }
    if y.contains(v) {
        let k = choose|k: int| 0 <= k < y.len() && y[k] == v;
        assert(p[k + x.len()] == v);
    }
}

proof fn lemma_listed_last(a: Seq<TableRecord>, t: Seq<u8>)
    requires
        a.len() > 0,
    ensures
        tag_listed(a, t) <==> (tag_listed(a.drop_last(), t) || a.last().tag.0@ == t),
{
    let d = a.drop_last();
    if tag_listed(a, t) {
        let j = choose|j: int| 0 <= j < a.len() && (#[trigger] a[j]).tag.0@ == t;
        if j < d.len() {
            assert(d[j] == a[j]);
        }
    }
    if tag_listed(d, t) {
        let j = choose|j: int| 0 <= j < d.len() && (#[trigger] d[j]).tag.0@ == t;
        assert(a[j] == d[j]);
    }
    if a.last().tag.0@ == t {
        assert(a[a.len() - 1] == a.last());
    }
}

proof fn lemma_only_in_contains(a: Seq<TableRecord>, b: Seq<TableRecord>, first: bool, t: Seq<u8>)
    ensures
        only_in(a, b, first).contains(FontDiffView::OnlyInFirst(t)) <==> (first && tag_listed(a, t)
            && !tag_listed(b, t)),
        only_in(a, b, first).contains(FontDiffView::OnlyInSecond(t)) <==> (!first && tag_listed(
            a,
            t,
        ) && !tag_listed(b, t)),
    decreases a.len(),
{
    if a.len() > 0 {
        let d = a.drop_last();
        let u = a.last().tag.0@;
        lemma_only_in_contains(d, b, first, t);
        lemma_find_none(b, u);
        lemma_listed_last(a, t);
        let rest = only_in(d, b, first);
        let x = if first {
            FontDiffView::OnlyInFirst(u)
        } else {
            FontDiffView::OnlyInSecond(u)
        };
        lemma_push_contains(rest, x, FontDiffView::OnlyInFirst(t));
        lemma_push_contains(rest, x, FontDiffView::OnlyInSecond(t));
    }
}

proof fn lemma_lengths_no_listing(a: Seq<TableRecord>, b: Seq<TableRecord>)
    ensures
        no_listing(length_diffs(a, b)),
    decreases a.len(),
{
    if a.len() > 0 {
        lemma_lengths_no_listing(a.drop_last(), b);
    }
}

proof fn lemma_append_no_listing(x: Seq<FontDiffView>, y: Seq<FontDiffView>, v: FontDiffView)
    requires
        no_listing(y),
        is_table_listing(v),
    ensures
        (x + y).contains(v) <==> x.contains(v),
{
    lemma_concat_contains(x, y, v);
    if y.contains(v) {
        let k = choose|k: int| 0 <= k < y.len() && y[k] == v;
        assert(!is_table_listing(y[k]));
    }
}

proof fn lemma_diffs_listing(a: Font, b: Font, v: FontDiffView)
    requires
        is_table_listing(v),
    ensures
        font_diffs(a, b).contains(v) <==> (only_in(a.tables@, b.tables@, true).contains(v)
            || only_in(b.tables@, a.tables@, false).contains(v)),
{
    let fa = find_name(a.name.records@, 1);
    let fb = find_name(b.name.records@, 1);
    let sa = find_name(a.name.records@, 2);
    let sb = find_name(b.name.records@, 2);
    let p1 = only_in(a.tables@, b.tables@, true);
    let p2 = only_in(b.tables@, a.tables@, false);
    let p3 = length_diffs(a.tables@, b.tables@);
    let w1 = when(fa != fb, FontDiffView::Family(fa, fb));
    let w2 = when(sa != sb, FontDiffView::Subfamily(sa, sb));
    let w3 = when(
        a.maxp.num_glyphs != b.maxp.num_glyphs,
        FontDiffView::GlyphCount(a.maxp.num_glyphs, b.maxp.num_glyphs),
    );
    let w4 = when(
        a.head.units_per_em != b.head.units_per_em,
        FontDiffView::UnitsPerEm(a.head.units_per_em, b.head.units_per_em),
    );
    lemma_lengths_no_listing(a.tables@, b.tables@);
    assert(no_listing(w1) && no_listing(w2) && no_listing(w3) && no_listing(w4));
    lemma_append_no_listing(p1 + p2 + p3 + w1 + w2 + w3, w4, v);
    lemma_append_no_listing(p1 + p2 + p3 + w1 + w2, w3, v);
    lemma_append_no_listing(p1 + p2 + p3 + w1, w2, v);
    lemma_append_no_listing(p1 + p2 + p3, w1, v);
    lemma_append_no_listing(p1 + p2, p3, v);
    lemma_concat_contains(p1, p2, v);
}

/// A comparison lists a table as only in the first font exactly when some
/// record of the first font has its tag and no record of the second does,
/// and as only in the second font in the mirrored case; so comparing `b`
/// with `a` lists the same tables as comparing `a` with `b`, with the two
/// sides swapped.
pub proof fn lemma_compare_lists_tables(a: Font, b: Font)
    ensures
        forall|t: Seq<u8>|
            #[trigger] font_diffs(a, b).contains(FontDiffView::OnlyInFirst(t)) <==> (tag_listed(
                a.tables@,
                t,
            ) && !tag_listed(b.tables@, t)),
        forall|t: Seq<u8>|
            #[trigger] font_diffs(a, b).contains(FontDiffView::OnlyInSecond(t)) <==> (tag_listed(
                b.tables@,
                t,
            ) && !tag_listed(a.tables@, t)),
        forall|t: Seq<u8>|
            #[trigger] font_diffs(a, b).contains(FontDiffView::OnlyInFirst(t)) <==> font_diffs(
                b,
                a,
            ).contains(FontDiffView::OnlyInSecond(t)),
{
    assert forall|t: Seq<u8>|
        #![trigger font_diffs(a, b).contains(FontDiffView::OnlyInFirst(t))]
        (font_diffs(a, b).contains(FontDiffView::OnlyInFirst(t)) <==> (tag_listed(a.tables@, t)
            && !tag_listed(b.tables@, t))) && (font_diffs(b, a).contains(
            FontDiffView::OnlyInSecond(t),
        ) <==> (tag_listed(a.tables@, t) && !tag_listed(b.tables@, t))) by {
        lemma_diffs_listing(a, b, FontDiffView::OnlyInFirst(t));
        lemma_diffs_listing(b, a, FontDiffView::OnlyInSecond(t));
        lemma_only_in_contains(a.tables@, b.tables@, true, t);
        lemma_only_in_contains(b.tables@, a.tables@, false, t);
        lemma_only_in_contains(b.tables@, a.tables@, true, t);
        lemma_only_in_contains(a.tables@, b.tables@, false, t);
    }
    assert forall|t: Seq<u8>|
        #[trigger] font_diffs(a, b).contains(FontDiffView::OnlyInSecond(t)) <==> (tag_listed(
            b.tables@,
            t,
        ) && !tag_listed(a.tables@, t)) by {
        lemma_diffs_listing(a, b, FontDiffView::OnlyInSecond(t));
        lemma_only_in_contains(a.tables@, b.tables@, true, t);
        lemma_only_in_contains(b.tables@, a.tables@, false, t);
    }
}

/// Which kind of difference this is, as a number from 0 to 6 in the order
/// of the variants.
pub open spec fn diff_kind(v: FontDiffView) -> int {
    match v {
        FontDiffView::OnlyInFirst(_) => 0,
        FontDiffView::OnlyInSecond(_) => 1,
        FontDiffView::TableLength(_, _, _) => 2,
        FontDiffView::Family(_, _) => 3,
        FontDiffView::Subfamily(_, _) => 4,
        FontDiffView::GlyphCount(_, _) => 5,
        FontDiffView::UnitsPerEm(_, _) => 6,
    }
}

/// No difference of the list is of kind `k`.
pub open spec fn none_of_kind(s: Seq<FontDiffView>, k: int) -> bool {
    forall|i: int| 0 <= i < s.len() ==> diff_kind(#[trigger] s[i]) != k
}

/// The length of the first record with this tag, if any.
pub open spec fn first_length(recs: Seq<TableRecord>, t: Seq<u8>) -> Option<u32> {
    match find_spec(recs, t) {
        Some(r) => Some(r.length),
        None => None,
    }
}

proof fn lemma_kind_skip(x: Seq<FontDiffView>, y: Seq<FontDiffView>, v: FontDiffView)
    ensures
        none_of_kind(y, diff_kind(v)) ==> ((x + y).contains(v) <==> x.contains(v)),
        none_of_kind(x, diff_kind(v)) ==> ((x + y).contains(v) <==> y.contains(v)),
{
    lemma_concat_contains(x, y, v);
    if y.contains(v) {
        let k = choose|k: int| 0 <= k < y.len() && y[k] == v;
        assert(diff_kind(y[k]) == diff_kind(v));
    }
    if x.contains(v) {
        let k = choose|k: int| 0 <= k < x.len() && x[k] == v;
        assert(diff_kind(x[k]) == diff_kind(v));
    }
}

proof fn lemma_find_last(a: Seq<TableRecord>, t: Seq<u8>)
    requires
        a.len() > 0,
    ensures
        find_spec(a, t) == (if find_spec(a.drop_last(), t) is Some {
            find_spec(a.drop_last(), t)
        } else if a.last().tag.0@ == t {
            Some(a.last())
        } else {
            None
        }),
{
    let d = a.drop_last();
    let s = record_tags(a);
    assert(s.drop_last() =~= record_tags(d));
    assert(s.last() == (a.last().tag.0@, Seq::<u8>::empty()));
    match first_with_tag(record_tags(d), t) {
        Some(i) => {
            lemma_first_props(record_tags(d), t);
            assert(d[i] == a[i]);
        },
        None => {},
    }
}

proof fn lemma_only_in_kinds(a: Seq<TableRecord>, b: Seq<TableRecord>, first: bool)
    ensures
        forall|k: int| 2 <= k <= 6 ==> none_of_kind(#[trigger] only_in(a, b, first), k),
    decreases a.len(),
{
    if a.len() > 0 {
        lemma_only_in_kinds(a.drop_last(), b, first);
        let s = only_in(a, b, first);
        let rest = only_in(a.drop_last(), b, first);
        assert forall|k: int| 2 <= k <= 6 implies none_of_kind(#[trigger] only_in(a, b, first), k) by {
            assert forall|i: int| 0 <= i < s.len() implies diff_kind(#[trigger] s[i]) != k by {
                if i < rest.len() {
                    assert(s[i] == rest[i]);
                    assert(none_of_kind(rest, k));
                }
            }
        }
    }
}

proof fn lemma_lengths_kind(a: Seq<TableRecord>, b: Seq<TableRecord>)
    ensures
        forall|i: int| 0 <= i < length_diffs(a, b).len() ==> diff_kind(#[trigger] length_diffs(a, b)[i]) == 2,
    decreases a.len(),
{
    if a.len() > 0 {
        lemma_lengths_kind(a.drop_last(), b);
        let s = length_diffs(a, b);
        let rest = length_diffs(a.drop_last(), b);
        assert forall|i: int| 0 <= i < s.len() implies diff_kind(#[trigger] s[i]) == 2 by {
            if i < rest.len() {
                assert(s[i] == rest[i]);
            }
        }
    }
}

proof fn lemma_length_diffs_contains(a: Seq<TableRecord>, b: Seq<TableRecord>, t: Seq<u8>, la: u32, lb: u32)
    ensures
        length_diffs(a, b).contains(FontDiffView::TableLength(t, la, lb)) <==> (first_length(a, t)
            == Some(la) && first_length(b, t) == Some(lb) && la != lb),
    decreases a.len(),
{
    let v = FontDiffView::TableLength(t, la, lb);
    if a.len() > 0 {
        let d = a.drop_last();
        let r = a.last();
        let u = r.tag.0@;
        lemma_length_diffs_contains(d, b, t, la, lb);
        lemma_find_last(a, t);
        lemma_find_none(d, u);
        lemma_find_none(d, t);
        let rest = length_diffs(d, b);
        match find_spec(b, u) {
            Some(q) => {
                let x = FontDiffView::TableLength(u, r.length, q.length);
                lemma_push_contains(rest, x, v);
            },
            None => {},
        }
    }
}

/// A comparison lists a table's lengths exactly when both fonts list the
/// tag and the first records with it differ in length, giving the two
/// lengths; it lists the family names, the subfamily names, the glyph
/// counts and the units per em of the two fonts exactly when they differ.
pub proof fn lemma_compare_lists_values(a: Font, b: Font)
    ensures
        forall|t: Seq<u8>, la: u32, lb: u32|
            #[trigger] font_diffs(a, b).contains(FontDiffView::TableLength(t, la, lb)) <==> (
            first_length(a.tables@, t) == Some(la) && first_length(b.tables@, t) == Some(lb) && la
                != lb),
        forall|x: Option<Seq<char>>, y: Option<Seq<char>>|
            #[trigger] font_diffs(a, b).contains(FontDiffView::Family(x, y)) <==> (x == find_name(
                a.name.records@,
                1,
            ) && y == find_name(b.name.records@, 1) && x != y),
        forall|x: Option<Seq<char>>, y: Option<Seq<char>>|
            #[trigger] font_diffs(a, b).contains(FontDiffView::Subfamily(x, y)) <==> (x == find_name(
                a.name.records@,
                2,
            ) && y == find_name(b.name.records@, 2) && x != y),
        forall|x: u16, y: u16|
            #[trigger] font_diffs(a, b).contains(FontDiffView::GlyphCount(x, y)) <==> (x
                == a.maxp.num_glyphs && y == b.maxp.num_glyphs && x != y),
        forall|x: u16, y: u16|
            #[trigger] font_diffs(a, b).contains(FontDiffView::UnitsPerEm(x, y)) <==> (x
                == a.head.units_per_em && y == b.head.units_per_em && x != y),
{
    let fa = find_name(a.name.records@, 1);
    let fb = find_name(b.name.records@, 1);
    let sa = find_name(a.name.records@, 2);
    let sb = find_name(b.name.records@, 2);
    let p1 = only_in(a.tables@, b.tables@, true);
    let p2 = only_in(b.tables@, a.tables@, false);
    let p3 = length_diffs(a.tables@, b.tables@);
    let w1 = when(fa != fb, FontDiffView::Family(fa, fb));
    let w2 = when(sa != sb, FontDiffView::Subfamily(sa, sb));
    let w3 = when(
        a.maxp.num_glyphs != b.maxp.num_glyphs,
        FontDiffView::GlyphCount(a.maxp.num_glyphs, b.maxp.num_glyphs),
    );
    let w4 = when(
        a.head.units_per_em != b.head.units_per_em,
        FontDiffView::UnitsPerEm(a.head.units_per_em, b.head.units_per_em),
    );
    lemma_only_in_kinds(a.tables@, b.tables@, true);
    lemma_only_in_kinds(b.tables@, a.tables@, false);
    lemma_lengths_kind(a.tables@, b.tables@);
    assert(font_diffs(a, b) == p1 + p2 + p3 + w1 + w2 + w3 + w4);
    assert forall|v: FontDiffView| 2 <= #[trigger] diff_kind(v) <= 6 implies (font_diffs(a, b).contains(v)
        <==> (p3 + w1 + w2 + w3 + w4).contains(v)) by {
        let k = diff_kind(v);
        assert(none_of_kind(p1, k) && none_of_kind(p2, k));
        assert(p1 + p2 + p3 + w1 + w2 + w3 + w4 =~= (p1 + p2) + (p3 + w1 + w2 + w3 + w4));
        assert(none_of_kind(p1 + p2, k)) by {
            assert forall|i: int| 0 <= i < (p1 + p2).len() implies diff_kind(#[trigger] (p1 + p2)[i]) != k by {
                if i < p1.len() {
                    assert((p1 + p2)[i] == p1[i]);
                } else {
                    assert((p1 + p2)[i] == p2[i - p1.len()]);
                }
            }
        }
        lemma_kind_skip(p1 + p2, p3 + w1 + w2 + w3 + w4, v);
    }
    assert forall|v: FontDiffView| 3 <= #[trigger] diff_kind(v) <= 6 implies ((p3 + w1 + w2 + w3
        + w4).contains(v) <==> (w1 + w2 + w3 + w4).contains(v)) by {
        assert(p3 + w1 + w2 + w3 + w4 =~= p3 + (w1 + w2 + w3 + w4));
        assert(none_of_kind(p3, diff_kind(v)));
        lemma_kind_skip(p3, w1 + w2 + w3 + w4, v);
    }
    assert forall|v: FontDiffView| #[trigger] diff_kind(v) == 2 implies ((p3 + w1 + w2 + w3
        + w4).contains(v) <==> p3.contains(v)) by {
        assert(p3 + w1 + w2 + w3 + w4 =~= p3 + (w1 + w2 + w3 + w4));
        assert(none_of_kind(w1 + w2 + w3 + w4, 2));
        lemma_kind_skip(p3, w1 + w2 + w3 + w4, v);
    }
    assert forall|v: FontDiffView| 3 <= #[trigger] diff_kind(v) <= 6 implies ((w1 + w2 + w3
        + w4).contains(v) <==> (w1.contains(v) || w2.contains(v) || w3.contains(v) || w4.contains(v))) by {
        lemma_concat_contains(w1, w2, v);
        lemma_concat_contains(w1 + w2, w3, v);
        lemma_concat_contains(w1 + w2 + w3, w4, v);
    }
    assert forall|t: Seq<u8>, la: u32, lb: u32|
        #[trigger] font_diffs(a, b).contains(FontDiffView::TableLength(t, la, lb)) <==> (
        first_length(a.tables@, t) == Some(la) && first_length(b.tables@, t) == Some(lb) && la
            != lb) by {
        let v = FontDiffView::TableLength(t, la, lb);
        assert(diff_kind(v) == 2);
        lemma_length_diffs_contains(a.tables@, b.tables@, t, la, lb);
    }
    assert forall|x: Option<Seq<char>>, y: Option<Seq<char>>|
        #[trigger] font_diffs(a, b).contains(FontDiffView::Family(x, y)) <==> (x == fa && y == fb
            && x != y) by {
        let v = FontDiffView::Family(x, y);
        assert(diff_kind(v) == 3);
        if fa != fb && x == fa && y == fb {
            assert(w1[0] == v);
        }
    }
    assert forall|x: Option<Seq<char>>, y: Option<Seq<char>>|
        #[trigger] font_diffs(a, b).contains(FontDiffView::Subfamily(x, y)) <==> (x == sa && y == sb
            && x != y) by {
        let v = FontDiffView::Subfamily(x, y);
        assert(diff_kind(v) == 4);
        if sa != sb && x == sa && y == sb {
            assert(w2[0] == v);
        }
    }
    assert forall|x: u16, y: u16|
        #[trigger] font_diffs(a, b).contains(FontDiffView::GlyphCount(x, y)) <==> (x
            == a.maxp.num_glyphs && y == b.maxp.num_glyphs && x != y) by {
        let v = FontDiffView::GlyphCount(x, y);
        assert(diff_kind(v) == 5);
        if x == a.maxp.num_glyphs && y == b.maxp.num_glyphs && x != y {
            assert(w3[0] == v);
        }
    }
    assert forall|x: u16, y: u16|
        #[trigger] font_diffs(a, b).contains(FontDiffView::UnitsPerEm(x, y)) <==> (x
            == a.head.units_per_em && y == b.head.units_per_em && x != y) by {
        let v = FontDiffView::UnitsPerEm(x, y);
        assert(diff_kind(v) == 6);
        if x == a.head.units_per_em && y == b.head.units_per_em && x != y {
            assert(w4[0] == v);
        }
    }
}

/// Whether a record before `end` has this tag.
fn listed_before(recs: &Vec<TableRecord>, end: usize, tag: Tag) -> (r: bool)
    requires
        end <= recs@.len(),
    ensures
        r == tag_listed(recs@.subrange(0, end as int), tag.0@),
{
    let mut j: usize = 0;
    while j < end
        invariant
            end <= recs@.len(),
            j <= end,
            forall|k: int| 0 <= k < j ==> recs@[k].tag.0@ != tag.0@,
        decreases end - j,
    {
        if recs[j].tag == tag {
            proof {
                assert(recs@.subrange(0, end as int)[j as int] == recs@[j as int]);
            }
            return true;
        }
        j += 1;
    }
    proof {
        let p = recs@.subrange(0, end as int);
        assert forall|k: int| 0 <= k < p.len() implies (#[trigger] p[k]).tag.0@ != tag.0@ by {
            assert(p[k] == recs@[k]);
        }
    }
    false
}

fn push_only_in(d: &mut Vec<FontDiff>, a: &Vec<TableRecord>, b: &Vec<TableRecord>, first: bool)
    ensures
        diff_views(final(d)@) == diff_views(old(d)@) + only_in(a@, b@, first),
{
    let ghost start = diff_views(d@);
    let n = a.len();
    let mut i: usize = 0;
    proof {
        assert(a@.subrange(0, 0) =~= Seq::<TableRecord>::empty());
        assert(diff_views(d@) =~= start + only_in(a@.subrange(0, 0), b@, first));
    }
    while i < n
        invariant
            n == a@.len(),
            i <= n,
            diff_views(d@) == start + only_in(a@.subrange(0, i as int), b@, first),
        decreases n - i,
    {
        let tag = a[i].tag;
        let seen = listed_before(a, i, tag);
        let elsewhere = find_record(b, tag);
        let ghost before = d@;
        proof {
            let p = a@.subrange(0, i + 1);
            assert(p.drop_last() =~= a@.subrange(0, i as int));
            assert(p.last() == a@[i as int]);
        }
        if !seen && elsewhere.is_none() {
            if first {
                d.push(FontDiff::OnlyInFirst(tag));
            } else {
                d.push(FontDiff::OnlyInSecond(tag));
            }
            proof {
                assert(diff_views(d@) =~= diff_views(before).push(d@[d@.len() - 1]@));
            }
        }
        i += 1;
    }
    proof {
        assert(a@.subrange(0, n as int) =~= a@);
    }
}

fn push_length_diffs(d: &mut Vec<FontDiff>, a: &Vec<TableRecord>, b: &Vec<TableRecord>)
    ensures
        diff_views(final(d)@) == diff_views(old(d)@) + length_diffs(a@, b@),
{
    let ghost start = diff_views(d@);
    let n = a.len();
    let mut i: usize = 0;
    proof {
        assert(a@.subrange(0, 0) =~= Seq::<TableRecord>::empty());
        assert(diff_views(d@) =~= start + length_diffs(a@.subrange(0, 0), b@));
    }
    while i < n
        invariant
            n == a@.len(),
            i <= n,
            diff_views(d@) == start + length_diffs(a@.subrange(0, i as int), b@),
        decreases n - i,
    {
        let tag = a[i].tag;
        let seen = listed_before(a, i, tag);
        let ghost before = d@;
        proof {
            let p = a@.subrange(0, i + 1);
            assert(p.drop_last() =~= a@.subrange(0, i as int));
            assert(p.last() == a@[i as int]);
        }
        if !seen {
            match find_record(b, tag) {
                Some(k) => {
                    if b[k].length != a[i].length {
                        d.push(FontDiff::TableLength(tag, a[i].length, b[k].length));
                        proof {
                            assert(diff_views(d@) =~= diff_views(before).push(d@[d@.len() - 1]@));
                        }
                    }
                },
                None => {},
            }
        }
        i += 1;
    }
    proof {
        assert(a@.subrange(0, n as int) =~= a@);
    }
}

/// Whether two optional strings are equal.
fn same_text(a: &Option<String>, b: &Option<String>) -> (r: bool)
    ensures
        r == (opt_view(*a) == opt_view(*b)),
{
    match (a, b) {
        (Some(x), Some(y)) => str_eq(x.as_str(), y.as_str()),
        (None, None) => true,
        _ => false,
    }
}

/// The structural differences between two fonts, as `font_diffs` lists
/// them.
pub fn compare_fonts(a: &Font, b: &Font) -> (d: Vec<FontDiff>)
    ensures
        diff_views(d@) == font_diffs(*a, *b),
        forall|t: Seq<u8>|
            #[trigger] diff_views(d@).contains(FontDiffView::OnlyInFirst(t)) <==> (tag_listed(
                a.tables@,
                t,
            ) && !tag_listed(b.tables@, t)),
        forall|t: Seq<u8>|
            #[trigger] diff_views(d@).contains(FontDiffView::OnlyInSecond(t)) <==> (tag_listed(
                b.tables@,
                t,
            ) && !tag_listed(a.tables@, t)),
{
    let mut d: Vec<FontDiff> = Vec::new();
    proof {
        assert(diff_views(d@) =~= Seq::<FontDiffView>::empty());
    }
    push_only_in(&mut d, &a.tables, &b.tables, true);
    push_only_in(&mut d, &b.tables, &a.tables, false);
    push_length_diffs(&mut d, &a.tables, &b.tables);
    let ghost tables_part = diff_views(d@);
    let fa = a.name.family_name();
    let fb = b.name.family_name();
    if !same_text(&fa, &fb) {
        d.push(FontDiff::Family(fa, fb));
    }
    let ghost p1 = diff_views(d@);
    proof {
        assert(p1 =~= tables_part + when(
            find_name(a.name.records@, 1) != find_name(b.name.records@, 1),
            FontDiffView::Family(find_name(a.name.records@, 1), find_name(b.name.records@, 1)),
        ));
    }
    let sa = a.name.subfamily_name();
    let sb = b.name.subfamily_name();
    if !same_text(&sa, &sb) {
        d.push(FontDiff::Subfamily(sa, sb));
    }
    let ghost p2 = diff_views(d@);
    proof {
        assert(p2 =~= p1 + when(
            find_name(a.name.records@, 2) != find_name(b.name.records@, 2),
            FontDiffView::Subfamily(find_name(a.name.records@, 2), find_name(b.name.records@, 2)),
        ));
    }
    if a.maxp.num_glyphs != b.maxp.num_glyphs {
        d.push(FontDiff::GlyphCount(a.maxp.num_glyphs, b.maxp.num_glyphs));
    }
    let ghost p3 = diff_views(d@);
    proof {
        assert(p3 =~= p2 + when(
            a.maxp.num_glyphs != b.maxp.num_glyphs,
            FontDiffView::GlyphCount(a.maxp.num_glyphs, b.maxp.num_glyphs),
        ));
    }
    if a.head.units_per_em != b.head.units_per_em {
        d.push(FontDiff::UnitsPerEm(a.head.units_per_em, b.head.units_per_em));
    }
    proof {
        assert(diff_views(d@) =~= p3 + when(
            a.head.units_per_em != b.head.units_per_em,
            FontDiffView::UnitsPerEm(a.head.units_per_em, b.head.units_per_em),
        ));
        assert(diff_views(d@) =~= font_diffs(*a, *b));
        lemma_compare_lists_tables(*a, *b);
    }
    d
}

} // verus!
