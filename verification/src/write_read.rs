//! What reading gives back of a written font: the stable sort keeps the
//! first table of each tag, the directory lists the sorted tables, and
//! the tables other than `head` come back byte for byte.
use vstd::prelude::*;
use crate::codec::{be_u16, be_u32, padded_word, u32_bytes, whole_word_checksum, word_sum, wrapping_add_u32};
use crate::font::{
    bodies, count_not_after, directory, entry, first_with_tag, insert_by_tag, raw_entries, sfnt_header,
    sizes_before, some_entry, sort_by_tag, vec_view, sorted_by_tag, tag_key, unadjusted_file, Font, SfntVersion,
};
use crate::font::{adjusted_file, adjustment, file_fits, head_tag};
use crate::font::entries_view;
use crate::font_read::{
    directory_fits, find_spec, known_tag, offset_of, raw_fits, raw_of, read_ok, read_succeeds,
    record_at, record_tags, records_of, required_tag, table_bytes, version_of,
};
use crate::tables::head::Head;
use crate::tables::hhea::Hhea;
use crate::tables::maxp::Maxp;
use crate::tables::os2::Os2;
use crate::tables::post::Post;
use crate::tables::post_round::{lemma_post_fits_at, post_round_trips};
use crate::tables::glyf_round::{lemma_outlines_fit_at, outlines_round_trip};
use crate::tables::glyf::{glyphs_bytes, GlyfTable};
use crate::tables::glyf_read::glyph_readable;
use crate::tables::loca::encode_offsets;
use crate::font::glyph_offsets;
use crate::font_read::{loca_fits, loca_offsets};
use crate::tables::hmtx::{extra_glyphs, lemma_hmtx_len};
use crate::tables::maxp::maxp_size;
use crate::tables::os2::os2_size;
use crate::tables::post::post_fits;
use crate::tables::name::name_fits;
use crate::tables::cmap::cmap_fits;
use crate::tables::kern::{kern_fits, lemma_kern_fits_at, Kern};
use crate::tables::Table;
use crate::tables::cmap::{cmap_parsed, Cmap};
use crate::tables::name_round::{
    lemma_name_read_back_at, name_parsed, name_read_back, name_round_trips,
};
use crate::tables::cmap_round::{
    cmap_read_back, cmap_round_trips, lemma_cmap_read_back_at, lemma_placed_concat, lemma_placed_facts,
    placed,
};
use crate::write::{pad_len, zeros};

verus! {

/// What the first entry with a tag is: one with that tag, and none before
/// it; or no entry with that tag at all.
pub proof fn lemma_first_props(s: Seq<(Seq<u8>, Seq<u8>)>, t: Seq<u8>)
    ensures
        match first_with_tag(s, t) {
            Some(i) => 0 <= i < s.len() && s[i].0 == t && forall|j: int| 0 <= j < i ==> #[trigger] s[j].0 != t,
            None => forall|j: int| 0 <= j < s.len() ==> #[trigger] s[j].0 != t,
        },
    decreases s.len(),
{
    if s.len() > 0 {
        let d = s.drop_last();
        lemma_first_props(d, t);
        assert forall|j: int| 0 <= j < d.len() implies d[j] == s[j] by {}
    }
}

/// Only the tags decide where the first entry with a tag is.
pub proof fn lemma_first_same_tags(a: Seq<(Seq<u8>, Seq<u8>)>, b: Seq<(Seq<u8>, Seq<u8>)>, t: Seq<u8>)
    requires
        a.len() == b.len(),
        forall|i: int| 0 <= i < a.len() ==> #[trigger] a[i].0 == b[i].0,
    ensures
        first_with_tag(a, t) == first_with_tag(b, t),
    decreases a.len(),
{
    if a.len() > 0 {
        let (da, db) = (a.drop_last(), b.drop_last());
        assert forall|i: int| 0 <= i < da.len() implies #[trigger] da[i].0 == db[i].0 by {
            assert(da[i] == a[i] && db[i] == b[i]);
        }
        lemma_first_same_tags(da, db, t);
        assert(a.last().0 == b.last().0);
    }
}

/// In a sorted list, the entries whose tags do not sort after `t` come
/// first, and the count says how many there are.
proof fn lemma_count_split(s: Seq<(Seq<u8>, Seq<u8>)>, t: Seq<u8>)
    requires
        sorted_by_tag(s),
    ensures
        0 <= count_not_after(s, t) <= s.len(),
        forall|i: int| 0 <= i < count_not_after(s, t) ==> tag_key(#[trigger] s[i].0) <= tag_key(t),
        forall|i: int| count_not_after(s, t) <= i < s.len() ==> tag_key(#[trigger] s[i].0) > tag_key(t),
    decreases s.len(),
{
    if s.len() > 0 {
        let d = s.drop_last();
        assert(sorted_by_tag(d)) by {
            assert forall|i: int, j: int| 0 <= i <= j < d.len() implies tag_key(d[i].0) <= tag_key(d[j].0) by {
                assert(d[i] == s[i] && d[j] == s[j]);
            }
        }
        lemma_count_split(d, t);
        if tag_key(s.last().0) <= tag_key(t) {
            assert forall|i: int| 0 <= i < s.len() implies tag_key(#[trigger] s[i].0) <= tag_key(t) by {
                assert(tag_key(s[i].0) <= tag_key(s[s.len() - 1].0));
            }
        } else {
            assert forall|i: int| 0 <= i < count_not_after(s, t) implies tag_key(#[trigger] s[i].0) <= tag_key(t) by {
                assert(d[i] == s[i]);
            }
            assert forall|i: int| count_not_after(s, t) <= i < s.len() implies tag_key(#[trigger] s[i].0) > tag_key(t) by {
                if i < d.len() {
                    assert(d[i] == s[i]);
                }
            }
        }
    }
}

/// Where `insert_by_tag` puts an entry into a sorted list, and that the
/// list stays sorted.
proof fn lemma_insert_sorted(s: Seq<(Seq<u8>, Seq<u8>)>, x: (Seq<u8>, Seq<u8>))
    requires
        sorted_by_tag(s),
    ensures
        insert_by_tag(s, x) == s.insert(count_not_after(s, x.0), x),
        sorted_by_tag(insert_by_tag(s, x)),
{
    let c = count_not_after(s, x.0);
    lemma_count_split(s, x.0);
    crate::font::lemma_insert_by_tag(s, x, c);
    let r = s.insert(c, x);
    assert forall|i: int, j: int| 0 <= i <= j < r.len() implies tag_key(r[i].0) <= tag_key(r[j].0) by {
        if i < c && j < c {
            assert(tag_key(s[i].0) <= tag_key(s[j].0));
        } else if i < c && j > c {
            assert(tag_key(s[i].0) <= tag_key(s[j - 1].0));
        } else if i > c && j > c {
            assert(tag_key(s[i - 1].0) <= tag_key(s[j - 1].0));
        }
    }
}

/// The stable sort by tag keeps, for every tag, the first entry with it:
/// the sorted list's first entry with a tag is the list's first one.
pub proof fn lemma_sort_keeps_first(l: Seq<(Seq<u8>, Seq<u8>)>, t: Seq<u8>)
    ensures
        sorted_by_tag(sort_by_tag(l)),
        sort_by_tag(l).len() == l.len(),
        match first_with_tag(l, t) {
            Some(i) => first_with_tag(sort_by_tag(l), t) matches Some(j) && sort_by_tag(l)[j] == l[i],
            None => first_with_tag(sort_by_tag(l), t) is None,
        },
    decreases l.len(),
{
    if l.len() == 0 {
        assert(sorted_by_tag(sort_by_tag(l)));
    } else {
        let d = l.drop_last();
        let x = l.last();
        lemma_sort_keeps_first(d, t);
        let sd = sort_by_tag(d);
        lemma_insert_sorted(sd, x);
        let c = count_not_after(sd, x.0);
        lemma_count_split(sd, x.0);
        let r = sort_by_tag(l);
        assert(r == sd.insert(c, x));
        lemma_first_props(d, t);
        lemma_first_props(sd, t);
        match first_with_tag(d, t) {
            Some(i) => {
                let j = first_with_tag(sd, t)->0;
                assert(d[i] == l[i]);
                if j < c {
                    assert forall|k: int| 0 <= k < j implies #[trigger] r[k].0 != t by {
                        assert(r[k] == sd[k]);
                    }
                    crate::font::lemma_first_with_tag(r, t, j);
                } else {
                    assert(x.0 != t) by {
                        if x.0 == t {
                            assert(tag_key(sd[j].0) > tag_key(x.0));
                        }
                    }
                    assert forall|k: int| 0 <= k < j + 1 implies #[trigger] r[k].0 != t by {
                        if k < c {
                            assert(r[k] == sd[k]);
                        } else if k > c {
                            assert(r[k] == sd[k - 1]);
                        }
                    }
                    assert(r[j + 1] == sd[j]);
                    crate::font::lemma_first_with_tag(r, t, j + 1);
                }
            },
            None => {
                assert forall|k: int| 0 <= k < c implies #[trigger] r[k].0 != t by {
                    assert(r[k] == sd[k]);
                }
                if x.0 == t {
                    assert forall|k: int| 0 <= k < l.len() - 1 implies #[trigger] l[k].0 != t by {
                        assert(d[k] == l[k]);
                    }
                    crate::font::lemma_first_with_tag(l, t, l.len() - 1);
                    crate::font::lemma_first_with_tag(r, t, c);
                } else {
                    assert forall|k: int| 0 <= k < r.len() implies #[trigger] r[k].0 != t by {
                        if k < c {
                            assert(r[k] == sd[k]);
                        } else if k > c {
                            assert(r[k] == sd[k - 1]);
                        }
                    }
                    assert forall|k: int| 0 <= k < l.len() implies #[trigger] l[k].0 != t by {
                        if k < d.len() {
                            assert(d[k] == l[k]);
                        }
                    }
                    crate::font::lemma_first_with_tag(l, t, l.len() as int);
                    crate::font::lemma_first_with_tag(r, t, r.len() as int);
                }
            },
        }
    }
}

/// Every tag of a table list is four bytes long, and every table is
/// padded to a multiple of four bytes.
pub open spec fn tags_of_four(s: Seq<(Seq<u8>, Seq<u8>)>) -> bool {
    forall|i: int| 0 <= i < s.len() ==> (#[trigger] s[i]).0.len() == 4 && s[i].1.len() % 4 == 0
}

proof fn lemma_entry_padded(t: Seq<u8>, d: Seq<u8>)
    ensures
        entry(t, d).1.len() % 4 == 0,
        entry(t, d).0 == t,
{
}

/// The directory record that `write` emits for the `k`-th sorted table.
pub open spec fn dir_entry(s: Seq<(Seq<u8>, Seq<u8>)>, k: int) -> Seq<u8> {
    s[k].0 + u32_bytes(whole_word_checksum(s[k].1)) + u32_bytes(
        (12 + 16 * s.len() + sizes_before(s, k)) as u32,
    ) + u32_bytes(s[k].1.len() as u32)
}

proof fn lemma_directory_prefix(s: Seq<(Seq<u8>, Seq<u8>)>, k: int, m: int)
    requires
        0 <= k <= m <= s.len(),
        tags_of_four(s),
    ensures
        directory(s, m).len() == 16 * m,
        directory(s, m).subrange(0, 16 * k) == directory(s, k),
    decreases m,
{
    if m > 0 {
        assert(s[m - 1].0.len() == 4);
        lemma_directory_prefix(s, if k < m { k } else { m - 1 }, m - 1);
        if k < m {
            assert(directory(s, m).subrange(0, 16 * k) =~= directory(s, m - 1).subrange(0, 16 * k));
        } else {
            assert(directory(s, m).subrange(0, 16 * k) =~= directory(s, m));
        }
    }
}

proof fn lemma_sizes_before_monotone(s: Seq<(Seq<u8>, Seq<u8>)>, j: int, k: int)
    requires
        0 <= j <= k <= s.len(),
    ensures
        0 <= sizes_before(s, j) <= sizes_before(s, k),
    decreases k,
{
    if j < k {
        lemma_sizes_before_monotone(s, j, k - 1);
    } else if k > 0 {
        lemma_sizes_before_monotone(s, 0, k - 1);
    }
}

proof fn lemma_bodies_prefix(s: Seq<(Seq<u8>, Seq<u8>)>, k: int, m: int)
    requires
        0 <= k <= m <= s.len(),
    ensures
        bodies(s, m).len() == sizes_before(s, m),
        bodies(s, m).subrange(0, sizes_before(s, k)) == bodies(s, k),
    decreases m,
{
    if m > 0 {
        lemma_bodies_prefix(s, if k < m { k } else { m - 1 }, m - 1);
        lemma_sizes_before_monotone(s, if k < m { k } else { m - 1 }, m - 1);
        if k < m {
            assert(bodies(s, m).subrange(0, sizes_before(s, k)) =~= bodies(s, m - 1).subrange(0, sizes_before(s, k)));
        } else {
            assert(bodies(s, m).subrange(0, sizes_before(s, k)) =~= bodies(s, m));
        }
    }
}

proof fn lemma_body_at(s: Seq<(Seq<u8>, Seq<u8>)>, k: int)
    requires
        0 <= k < s.len(),
    ensures
        0 <= sizes_before(s, k),
        sizes_before(s, k) + s[k].1.len() == sizes_before(s, k + 1) <= sizes_before(s, s.len() as int),
        bodies(s, s.len() as int).subrange(sizes_before(s, k), sizes_before(s, k) + s[k].1.len()) == s[k].1,
{
    let n = s.len() as int;
    let p = sizes_before(s, k);
    let l = s[k].1.len() as int;
    lemma_sizes_before_monotone(s, k + 1, n);
    lemma_sizes_before_monotone(s, 0, k);
    lemma_bodies_prefix(s, k + 1, n);
    lemma_bodies_prefix(s, k, k);
    assert(bodies(s, n).subrange(p, p + l) =~= bodies(s, n).subrange(0, sizes_before(s, k + 1)).subrange(p, p + l));
    assert(bodies(s, k + 1).subrange(p, p + l) =~= s[k].1);
}

proof fn lemma_dir_entry_fields(s: Seq<(Seq<u8>, Seq<u8>)>, k: int)
    requires
        0 <= k < s.len(),
        tags_of_four(s),
    ensures
        ({
            let d = directory(s, s.len() as int);
            &&& d.len() == 16 * s.len()
            &&& forall|j: int| 0 <= j < 4 ==> #[trigger] d[16 * k + j] == s[k].0[j]
            &&& be_u32(d, 16 * k + 8) == (12 + 16 * s.len() + sizes_before(s, k)) as u32
            &&& be_u32(d, 16 * k + 12) == s[k].1.len() as u32
        }),
{
    let n = s.len() as int;
    let d = directory(s, n);
    let e = dir_entry(s, k);
    lemma_directory_prefix(s, 0, n);
    lemma_directory_prefix(s, k + 1, n);
    lemma_directory_prefix(s, k, k + 1);
    assert(s[k].0.len() == 4);
    assert(directory(s, k + 1) =~= directory(s, k) + e);
    assert(d.subrange(16 * k, 16 * k + 16) =~= e) by {
        assert(d.subrange(16 * k, 16 * k + 16) =~= d.subrange(0, 16 * (k + 1)).subrange(16 * k, 16 * k + 16));
        assert((directory(s, k) + e).subrange(16 * k, 16 * k + 16) =~= e);
    }
    assert forall|j: int| 0 <= j < 4 implies #[trigger] d[16 * k + j] == s[k].0[j] by {
        assert(d.subrange(16 * k, 16 * k + 16)[j] == d[16 * k + j]);
    }
    let cs = u32_bytes(whole_word_checksum(s[k].1));
    let off = (12 + 16 * n + sizes_before(s, k)) as u32;
    let len = s[k].1.len() as u32;
    crate::codec::lemma_be_u32_subrange(d, 16 * k, 16 * k + 16, 8);
    crate::codec::lemma_be_u32_subrange(d, 16 * k, 16 * k + 16, 12);
    assert(e =~= (s[k].0 + cs) + (u32_bytes(off) + u32_bytes(len)));
    crate::codec::lemma_be_u32_add_right(s[k].0 + cs, u32_bytes(off) + u32_bytes(len), 8);
    crate::codec::lemma_be_u32_add_left(u32_bytes(off), u32_bytes(len), 0);
    crate::codec::lemma_be_u32_bytes(off);
    assert(e =~= (s[k].0 + cs + u32_bytes(off)) + u32_bytes(len));
    crate::codec::lemma_be_u32_add_right(s[k].0 + cs + u32_bytes(off), u32_bytes(len), 12);
    crate::codec::lemma_be_u32_bytes(len);
}

/// The `k`-th record of the file `write` lays out before the checksum
/// adjustment, and the bytes it points at.
proof fn lemma_unadjusted_record(v: SfntVersion, s: Seq<(Seq<u8>, Seq<u8>)>, k: int)
    requires
        0 <= k < s.len() <= 4095,
        tags_of_four(s),
        12 + 16 * s.len() + sizes_before(s, s.len() as int) <= u32::MAX,
    ensures
        ({
            let u = unadjusted_file(v, s);
            let r = record_at(u, 12 + 16 * k);
            &&& r.tag.0@ == s[k].0
            &&& r.offset == 12 + 16 * s.len() + sizes_before(s, k)
            &&& r.length == s[k].1.len()
            &&& r.offset + r.length <= u.len()
            &&& u.subrange(r.offset as int, r.offset + r.length) == s[k].1
        }),
{
    let n = s.len() as int;
    let h = sfnt_header(v, s.len());
    assert(h.len() == 12);
    lemma_bodies_prefix(s, 0, n);
    lemma_dir_entry_fields(s, k);
    lemma_body_at(s, k);
    assert(s[k].0.len() == 4);
    assert(s[k].1.len() <= u32::MAX);
    crate::sfnt::lemma_record_in(h, directory(s, n), bodies(s, n), n, k, s[k].0, s[k].1, sizes_before(s, k));
}

proof fn lemma_four_concat(a: Seq<(Seq<u8>, Seq<u8>)>, b: Seq<(Seq<u8>, Seq<u8>)>)
    requires
        tags_of_four(a),
        tags_of_four(b),
    ensures
        tags_of_four(a + b),
{
    assert forall|i: int| 0 <= i < (a + b).len() implies (#[trigger] (a + b)[i]).0.len() == 4 by {
        if i < a.len() {
            assert((a + b)[i] == a[i]);
        } else {
            assert((a + b)[i] == b[i - a.len()]);
        }
    }
}

proof fn lemma_some_entry_four(t: Seq<u8>, d: Option<Seq<u8>>)
    requires
        t.len() == 4,
    ensures
        tags_of_four(some_entry(t, d)),
{
    if let Some(x) = d {
        lemma_entry_padded(t, x);
    }
}

/// Every table `write` gathers has a four-byte tag.
#[verifier::spinoff_prover]
#[verifier::rlimit(80)]
proof fn lemma_table_list_four(f: Font)
    ensures
        tags_of_four(f.table_list()),
{
    let base = f.base_tables();
    assert(tags_of_four(base)) by {
        lemma_entry_padded(head_tag(), f.head_data());
        lemma_entry_padded(seq![0x68u8, 0x68, 0x65, 0x61], f.hhea_data());
        lemma_entry_padded(seq![0x6du8, 0x61, 0x78, 0x70], f.maxp_data());
        lemma_entry_padded(seq![0x70u8, 0x6f, 0x73, 0x74], f.post_data());
        lemma_entry_padded(seq![0x6eu8, 0x61, 0x6d, 0x65], f.name_data());
        lemma_entry_padded(seq![0x63u8, 0x6d, 0x61, 0x70], f.cmap_data());
        lemma_entry_padded(seq![0x4fu8, 0x53, 0x2f, 0x32], f.os2_data());
        lemma_entry_padded(seq![0x68u8, 0x6d, 0x74, 0x78], f.hmtx_data());
        assert forall|i: int| 0 <= i < base.len() implies (#[trigger] base[i]).0.len() == 4 && base[i].1.len()
            % 4 == 0 by {}
    }
    let t1 = seq![0x6bu8, 0x65, 0x72, 0x6e];
    let t2 = seq![0x63u8, 0x76, 0x74, 0x20];
    let t3 = seq![0x70u8, 0x72, 0x65, 0x70];
    let t4 = seq![0x66u8, 0x70, 0x67, 0x6d];
    let t5 = seq![0x47u8, 0x50, 0x4f, 0x53];
    let t6 = seq![0x47u8, 0x53, 0x55, 0x42];
    let t7 = seq![0x48u8, 0x56, 0x41, 0x52];
    let t8 = seq![0x67u8, 0x76, 0x61, 0x72];
    let t9 = seq![0x66u8, 0x76, 0x61, 0x72];
    let t10 = seq![0x53u8, 0x54, 0x41, 0x54];
    let t11 = seq![0x43u8, 0x46, 0x46, 0x20];
    let t12 = seq![0x43u8, 0x4f, 0x4c, 0x52];
    let t13 = seq![0x43u8, 0x50, 0x41, 0x4c];
    let t14 = seq![0x53u8, 0x56, 0x47, 0x20];
    let e1 = some_entry(t1, f.kern_data());
    let e2 = some_entry(t2, crate::font::vec_view(f.cvt));
    let e3 = some_entry(t3, crate::font::vec_view(f.prep));
    let e4 = some_entry(t4, crate::font::vec_view(f.fpgm));
    let e5 = some_entry(t5, f.gpos_data());
    let e6 = some_entry(t6, f.gsub_data());
    let e7 = some_entry(t7, f.hvar_data());
    let e8 = some_entry(t8, f.gvar_data());
    let e9 = some_entry(t9, f.fvar_data());
    let e10 = some_entry(t10, f.stat_data());
    let e11 = some_entry(t11, f.cff_data());
    let e12 = some_entry(t12, f.colr_data());
    let e13 = some_entry(t13, f.cpal_data());
    let e14 = some_entry(t14, f.svg_data());
    lemma_some_entry_four(t1, f.kern_data());
    lemma_some_entry_four(t2, crate::font::vec_view(f.cvt));
    lemma_some_entry_four(t3, crate::font::vec_view(f.prep));
    lemma_some_entry_four(t4, crate::font::vec_view(f.fpgm));
    lemma_some_entry_four(t5, f.gpos_data());
    lemma_some_entry_four(t6, f.gsub_data());
    lemma_some_entry_four(t7, f.hvar_data());
    lemma_some_entry_four(t8, f.gvar_data());
    lemma_some_entry_four(t9, f.fvar_data());
    lemma_some_entry_four(t10, f.stat_data());
    lemma_some_entry_four(t11, f.cff_data());
    lemma_some_entry_four(t12, f.colr_data());
    lemma_some_entry_four(t13, f.cpal_data());
    lemma_some_entry_four(t14, f.svg_data());
    lemma_four_concat(e1, e2);
    lemma_four_concat(e1 + e2, e3);
    lemma_four_concat(e1 + e2 + e3, e4);
    lemma_four_concat(e1 + e2 + e3 + e4, e5);
    lemma_four_concat(e1 + e2 + e3 + e4 + e5, e6);
    lemma_four_concat(e1 + e2 + e3 + e4 + e5 + e6, e7);
    lemma_four_concat(e1 + e2 + e3 + e4 + e5 + e6 + e7, e8);
    lemma_four_concat(e1 + e2 + e3 + e4 + e5 + e6 + e7 + e8, e9);
    lemma_four_concat(e1 + e2 + e3 + e4 + e5 + e6 + e7 + e8 + e9, e10);
    lemma_four_concat(e1 + e2 + e3 + e4 + e5 + e6 + e7 + e8 + e9 + e10, e11);
    lemma_four_concat(e1 + e2 + e3 + e4 + e5 + e6 + e7 + e8 + e9 + e10 + e11, e12);
    lemma_four_concat(e1 + e2 + e3 + e4 + e5 + e6 + e7 + e8 + e9 + e10 + e11 + e12, e13);
    lemma_four_concat(e1 + e2 + e3 + e4 + e5 + e6 + e7 + e8 + e9 + e10 + e11 + e12 + e13, e14);
    let opt = f.optional_tables();
    assert(opt == e1 + e2 + e3 + e4 + e5 + e6 + e7 + e8 + e9 + e10 + e11 + e12 + e13 + e14) by {
        reveal(Font::optional_tables);
    }
    let g = f.glyph_tables();
    assert(tags_of_four(g)) by {
        match f.glyf {
            Some(gl) => {
                lemma_entry_padded(
                    seq![0x67u8, 0x6c, 0x79, 0x66],
                    crate::tables::glyf::glyphs_bytes(gl.glyphs@, gl.glyphs@.len() as int),
                );
                lemma_entry_padded(
                    seq![0x6cu8, 0x6f, 0x63, 0x61],
                    crate::tables::loca::encode_offsets(crate::font::glyph_offsets(gl), 1),
                );
            },
            None => {},
        }
        assert forall|i: int| 0 <= i < g.len() implies (#[trigger] g[i]).0.len() == 4 && g[i].1.len() % 4
            == 0 by {}
    }
    let raw = raw_entries(f.raw_tables@);
    assert(tags_of_four(raw)) by {
        assert forall|i: int| 0 <= i < raw.len() implies (#[trigger] raw[i]).0.len() == 4 && raw[i].1.len() % 4
            == 0 by {
            lemma_entry_padded(f.raw_tables@[i].0.0@, f.raw_tables@[i].1@);
            assert(raw[i] == entry(f.raw_tables@[i].0.0@, f.raw_tables@[i].1@));
        }
    }
    lemma_four_concat(base, opt);
    lemma_four_concat(base + opt, g);
    lemma_four_concat(base + opt + g, raw);
}

/// Sorting keeps every tag four bytes long.
proof fn lemma_sort_four(l: Seq<(Seq<u8>, Seq<u8>)>)
    requires
        tags_of_four(l),
    ensures
        tags_of_four(sort_by_tag(l)),
    decreases l.len(),
{
    if l.len() > 0 {
        let d = l.drop_last();
        assert(tags_of_four(d)) by {
            assert forall|i: int| 0 <= i < d.len() implies (#[trigger] d[i]).0.len() == 4 by {
                assert(d[i] == l[i]);
            }
        }
        lemma_sort_four(d);
        lemma_sort_keeps_first(d, Seq::empty());
        let sd = sort_by_tag(d);
        lemma_insert_sorted(sd, l.last());
        let r = sort_by_tag(l);
        let c = count_not_after(sd, l.last().0);
        lemma_count_split(sd, l.last().0);
        assert(l.last().0.len() == 4);
        assert forall|i: int| 0 <= i < r.len() implies (#[trigger] r[i]).0.len() == 4 by {
            if i < c {
                assert(r[i] == sd[i]);
            } else if i > c {
                assert(r[i] == sd[i - 1]);
            }
        }
    }
}

/// Four bytes replaced in the middle of a sequence leave the rest as it
/// was.
proof fn lemma_patch_keeps(u: Seq<u8>, at: int, w: Seq<u8>, lo: int, hi: int)
    requires
        w.len() == 4,
        0 <= at,
        at + 4 <= u.len(),
        0 <= lo <= hi <= u.len(),
        hi <= at || lo >= at + 4,
    ensures
        ({
            let a = u.subrange(0, at) + w + u.subrange(at + 4, u.len() as int);
            &&& a.len() == u.len()
            &&& a.subrange(lo, hi) == u.subrange(lo, hi)
        }),
{
    let a = u.subrange(0, at) + w + u.subrange(at + 4, u.len() as int);
    assert forall|j: int| 0 <= j < hi - lo implies #[trigger] a.subrange(lo, hi)[j] == u.subrange(lo, hi)[j] by {
        assert(a[lo + j] == u[lo + j]);
    }
    assert(a.subrange(lo, hi) =~= u.subrange(lo, hi));
}

/// Two files that agree on their first `m` bytes have the same directory
/// records there.
proof fn lemma_prefix_records(a: Seq<u8>, u: Seq<u8>, m: int, i: int)
    requires
        m <= a.len(),
        m <= u.len(),
        a.subrange(0, m) == u.subrange(0, m),
        0 <= i,
        i + 16 <= m,
    ensures
        record_at(a, i) == record_at(u, i),
{
    let p = u.subrange(0, m);
    assert(a =~= p + a.subrange(m, a.len() as int));
    assert(u =~= p + u.subrange(m, u.len() as int));
    crate::codec::lemma_be_u32_add_left(p, a.subrange(m, a.len() as int), i + 4);
    crate::codec::lemma_be_u32_add_left(p, u.subrange(m, u.len() as int), i + 4);
    crate::codec::lemma_be_u32_add_left(p, a.subrange(m, a.len() as int), i + 8);
    crate::codec::lemma_be_u32_add_left(p, u.subrange(m, u.len() as int), i + 8);
    crate::codec::lemma_be_u32_add_left(p, a.subrange(m, a.len() as int), i + 12);
    crate::codec::lemma_be_u32_add_left(p, u.subrange(m, u.len() as int), i + 12);
    assert(a[i] == u[i] && a[i + 1] == u[i + 1] && a[i + 2] == u[i + 2] && a[i + 3] == u[i + 3]) by {
        assert(a[i] == a.subrange(0, m)[i] && u[i] == u.subrange(0, m)[i]);
        assert(a[i + 1] == a.subrange(0, m)[i + 1] && u[i + 1] == u.subrange(0, m)[i + 1]);
        assert(a[i + 2] == a.subrange(0, m)[i + 2] && u[i + 2] == u.subrange(0, m)[i + 2]);
        assert(a[i + 3] == a.subrange(0, m)[i + 3] && u[i + 3] == u.subrange(0, m)[i + 3]);
    }
}

/// The table count in the header `write` emits.
proof fn lemma_header_count(v: SfntVersion, n: nat, rest: Seq<u8>)
    requires
        n <= 4095,
    ensures
        sfnt_header(v, n).len() == 12,
        be_u16(sfnt_header(v, n) + rest, 4) == n,
{
    let es = crate::math::log2_floor(n);
    let a = u32_bytes(crate::font::sfnt_word(v));
    let c = crate::codec::u16_bytes(n as u16);
    let b = crate::codec::u16_bytes(crate::math::pow2(es) as u16) + crate::codec::u16_bytes(es as u16)
        + crate::codec::u16_bytes((16 * n - crate::math::pow2(es)) as u16);
    assert(sfnt_header(v, n) + rest =~= a + (c + (b + rest)));
    crate::codec::lemma_be_u16_add_right(a, c + (b + rest), 4);
    crate::codec::lemma_be_u16_add_left(c, b + rest, 0);
    crate::codec::lemma_be_u16_bytes(n as u16);
}

/// A `head` whose checksum adjustment bytes were replaced reads back with
/// the new adjustment and every other field as before.
proof fn lemma_head_patched(e: Seq<u8>, w: Seq<u8>)
    requires
        e.len() == 54,
        w.len() == 4,
    ensures
        Head::decode(e.subrange(0, 8) + w + e.subrange(12, 54)) == (Head {
            check_sum_adjustment: be_u32(w, 0),
            ..Head::decode(e)
        }),
{
    let x = e.subrange(0, 8) + w + e.subrange(12, 54);
    reveal(be_u16);
    reveal(be_u32);
    assert forall|j: int| 0 <= j < 8 || 12 <= j < 54 implies #[trigger] x[j] == e[j] by {}
    assert forall|j: int| 0 <= j < 4 implies #[trigger] x[8 + j] == w[j] by {}
}

/// The tag of `hhea`.
pub open spec fn hhea_tag() -> Seq<u8> {
    seq![0x68u8, 0x68, 0x65, 0x61]
}

/// The tag of `maxp`.
pub open spec fn maxp_tag() -> Seq<u8> {
    seq![0x6du8, 0x61, 0x78, 0x70]
}

/// The tag of `post`.
pub open spec fn post_tag() -> Seq<u8> {
    seq![0x70u8, 0x6f, 0x73, 0x74]
}

/// The tag of `OS/2`.
pub open spec fn os2_tag() -> Seq<u8> {
    seq![0x4fu8, 0x53, 0x2f, 0x32]
}

/// The fixed part of two `post` tables is the same.
pub open spec fn same_post_header(a: Post, b: Post) -> bool {
    &&& a.version == b.version
    &&& a.italic_angle == b.italic_angle
    &&& a.underline_position == b.underline_position
    &&& a.underline_thickness == b.underline_thickness
    &&& a.is_fixed_pitch == b.is_fixed_pitch
    &&& a.min_mem_type42 == b.min_mem_type42
    &&& a.max_mem_type42 == b.max_mem_type42
    &&& a.min_mem_type1 == b.min_mem_type1
    &&& a.max_mem_type1 == b.max_mem_type1
}

/// The first tables `write` gathers: `head`, `hhea`, `maxp`, `post`,
/// `name`, `cmap`, `OS/2`.
proof fn lemma_list_front(f: Font)
    ensures
        f.table_list().len() >= 8,
        f.table_list()[0] == entry(head_tag(), f.head_data()),
        f.table_list()[1] == entry(hhea_tag(), f.hhea_data()),
        f.table_list()[2] == entry(maxp_tag(), f.maxp_data()),
        f.table_list()[3] == entry(post_tag(), f.post_data()),
        f.table_list()[4] == entry(seq![0x6eu8, 0x61, 0x6d, 0x65], f.name_data()),
        f.table_list()[5] == entry(seq![0x63u8, 0x6d, 0x61, 0x70], f.cmap_data()),
        f.table_list()[6] == entry(os2_tag(), f.os2_data()),
{
    let base = f.base_tables();
    let x = base + f.optional_tables();
    let y = x + f.glyph_tables();
    let l = f.table_list();
    assert(l == y + raw_entries(f.raw_tables@));
    assert(base.len() == 8);
    assert(x[0] == base[0] && x[1] == base[1] && x[2] == base[2] && x[3] == base[3] && x[6] == base[6]);
    assert(y[0] == x[0] && y[1] == x[1] && y[2] == x[2] && y[3] == x[3] && y[6] == x[6]);
    assert(l[0] == y[0] && l[1] == y[1] && l[2] == y[2] && l[3] == y[3] && l[6] == y[6]);
    assert(x[4] == base[4] && y[4] == x[4] && l[4] == y[4]);
    assert(x[5] == base[5] && y[5] == x[5] && l[5] == y[5]);
}

/// The bytes `write` stores for `head` and `hhea`, padded.
proof fn lemma_front_data(f: Font)
    ensures
        entry(head_tag(), f.head_data()).1 == f.written_head().encode() + zeros(2),
        f.written_head().encode().len() == 54,
        entry(hhea_tag(), f.hhea_data()).1 == f.hhea.encode(),
        f.hhea.encode().len() == 36,
{
    reveal(Font::head_data);
    reveal(Font::hhea_data);
    crate::tables::head::lemma_head_roundtrip(f.written_head());
    crate::tables::hhea::lemma_hhea_roundtrip(f.hhea);
    assert(f.hhea.encode() + zeros(0) =~= f.hhea.encode());
}

/// Where `head` and `hhea` stand in the sorted list `write` lays out, and
/// what they hold there.
proof fn lemma_sorted_head_hhea(l: Seq<(Seq<u8>, Seq<u8>)>)
    requires
        tags_of_four(l),
        l.len() >= 2,
        l[0].0 == head_tag(),
        l[1].0 == hhea_tag(),
    ensures
        ({
            let s = sort_by_tag(l);
            &&& tags_of_four(s)
            &&& s.len() == l.len()
            &&& first_with_tag(s, head_tag()) matches Some(i) && 0 <= i < s.len() && s[i] == l[0]
            &&& first_with_tag(s, hhea_tag()) matches Some(j) && 0 <= j < s.len() && s[j] == l[1]
        }),
{
    lemma_sort_four(l);
    crate::font::lemma_first_with_tag(l, head_tag(), 0);
    assert(head_tag()[1] != hhea_tag()[1]);
    crate::font::lemma_first_with_tag(l, hhea_tag(), 1);
    lemma_sort_keeps_first(l, head_tag());
    lemma_sort_keeps_first(l, hhea_tag());
    lemma_first_props(sort_by_tag(l), head_tag());
    lemma_first_props(sort_by_tag(l), hhea_tag());
}

/// The layout of the adjusted file: the unadjusted one with the four
/// bytes at offset 8 of the first `head` replaced.
proof fn lemma_adjusted_layout(v: SfntVersion, s: Seq<(Seq<u8>, Seq<u8>)>, ih: int)
    requires
        file_fits(s),
        tags_of_four(s),
        first_with_tag(s, head_tag()) == Some(ih),
        0 <= ih < s.len(),
        s[ih].1.len() == 56,
    ensures
        ({
            let n = s.len() as int;
            let u = unadjusted_file(v, s);
            let at = 12 + 16 * n + sizes_before(s, ih) + 8;
            &&& u.len() == 12 + 16 * n + sizes_before(s, n)
            &&& 12 + 16 * n + 8 <= at
            &&& at + 4 <= u.len()
            &&& adjusted_file(v, s) == u.subrange(0, at) + u32_bytes(adjustment(whole_word_checksum(u)))
                + u.subrange(at + 4, u.len() as int)
            &&& be_u16(u, 4) == n
        }),
{
    let n = s.len() as int;
    lemma_directory_prefix(s, 0, n);
    lemma_bodies_prefix(s, 0, n);
    lemma_header_count(v, s.len(), directory(s, n) + bodies(s, n));
    assert(unadjusted_file(v, s) =~= sfnt_header(v, s.len()) + (directory(s, n) + bodies(s, n)));
    lemma_body_at(s, ih);
    lemma_sizes_before_monotone(s, 0, ih);
}

/// The directory of the adjusted file lists the sorted tables, where the
/// unadjusted file put them.
proof fn lemma_adjusted_records(v: SfntVersion, s: Seq<(Seq<u8>, Seq<u8>)>, ih: int)
    requires
        file_fits(s),
        tags_of_four(s),
        first_with_tag(s, head_tag()) == Some(ih),
        0 <= ih < s.len(),
        s[ih].1.len() == 56,
    ensures
        ({
            let n = s.len() as int;
            let a = adjusted_file(v, s);
            let recs = records_of(a, s.len());
            &&& be_u16(a, 4) == n
            &&& forall|k: int|
                0 <= k < n ==> (#[trigger] recs[k]).tag.0@ == s[k].0 && recs[k].offset == 12 + 16 * n
                    + sizes_before(s, k) && recs[k].length == s[k].1.len()
        }),
{
    let n = s.len() as int;
    let u = unadjusted_file(v, s);
    let a = adjusted_file(v, s);
    let at = 12 + 16 * n + sizes_before(s, ih) + 8;
    let w = u32_bytes(adjustment(whole_word_checksum(u)));
    lemma_adjusted_layout(v, s, ih);
    lemma_patch_keeps(u, at, w, 0, 12 + 16 * n);
    let m = 12 + 16 * n;
    let p = u.subrange(0, m);
    assert(a =~= p + a.subrange(m, a.len() as int));
    assert(u =~= p + u.subrange(m, u.len() as int));
    crate::codec::lemma_be_u16_add_left(p, a.subrange(m, a.len() as int), 4);
    crate::codec::lemma_be_u16_add_left(p, u.subrange(m, u.len() as int), 4);
    let recs = records_of(a, s.len());
    assert forall|k: int| 0 <= k < n implies (#[trigger] recs[k]).tag.0@ == s[k].0 && recs[k].offset == 12 + 16
        * n + sizes_before(s, k) && recs[k].length == s[k].1.len() by {
        lemma_prefix_records(a, u, m, 12 + 16 * k);
        lemma_unadjusted_record(v, s, k);
    }
}

/// A table other than the first `head` comes out of the adjusted file as
/// it went in.
proof fn lemma_adjusted_table(v: SfntVersion, s: Seq<(Seq<u8>, Seq<u8>)>, ih: int, k: int)
    requires
        file_fits(s),
        tags_of_four(s),
        first_with_tag(s, head_tag()) == Some(ih),
        0 <= ih < s.len(),
        s[ih].1.len() == 56,
        0 <= k < s.len(),
        k != ih,
    ensures
        ({
            let o = 12 + 16 * s.len() + sizes_before(s, k);
            let a = adjusted_file(v, s);
            &&& o + s[k].1.len() <= a.len()
            &&& a.subrange(o, o + s[k].1.len()) == s[k].1
        }),
{
    let n = s.len() as int;
    let u = unadjusted_file(v, s);
    let at = 12 + 16 * n + sizes_before(s, ih) + 8;
    let w = u32_bytes(adjustment(whole_word_checksum(u)));
    let o = 12 + 16 * n + sizes_before(s, k);
    lemma_adjusted_layout(v, s, ih);
    lemma_body_at(s, ih);
    lemma_body_at(s, k);
    lemma_sizes_before_monotone(s, if k < ih { k + 1 } else { ih + 1 }, if k < ih { ih } else { k });
    lemma_patch_keeps(u, at, w, o, o + s[k].1.len());
    lemma_unadjusted_record(v, s, k);
}

/// The bytes of a padded `head` after its adjustment was replaced.
proof fn lemma_patched_bytes(u: Seq<u8>, o: int, w: Seq<u8>, e: Seq<u8>)
    requires
        0 <= o,
        o + 56 <= u.len(),
        w.len() == 4,
        e.len() == 54,
        u.subrange(o, o + 56) == e + zeros(2),
    ensures
        ({
            let a = u.subrange(0, o + 8) + w + u.subrange(o + 12, u.len() as int);
            a.subrange(o, o + 54) == e.subrange(0, 8) + w + e.subrange(12, 54)
        }),
{
    let a = u.subrange(0, o + 8) + w + u.subrange(o + 12, u.len() as int);
    assert forall|j: int| 0 <= j < 54 implies #[trigger] a.subrange(o, o + 54)[j] == (e.subrange(0, 8) + w
        + e.subrange(12, 54))[j] by {
        assert(u[o + j] == u.subrange(o, o + 56)[j]);
    }
    assert(a.subrange(o, o + 54) =~= e.subrange(0, 8) + w + e.subrange(12, 54));
}

/// The first `head` comes out of the adjusted file with its adjustment
/// bytes replaced.
#[verifier::spinoff_prover]
proof fn lemma_adjusted_head(v: SfntVersion, s: Seq<(Seq<u8>, Seq<u8>)>, ih: int, e: Seq<u8>)
    requires
        file_fits(s),
        tags_of_four(s),
        first_with_tag(s, head_tag()) == Some(ih),
        0 <= ih < s.len(),
        e.len() == 54,
        s[ih].1 == e + zeros(2),
    ensures
        ({
            let o = 12 + 16 * s.len() + sizes_before(s, ih);
            let a = adjusted_file(v, s);
            let w = u32_bytes(adjustment(whole_word_checksum(unadjusted_file(v, s))));
            &&& o + 54 <= a.len()
            &&& a.subrange(o, o + 54) == e.subrange(0, 8) + w + e.subrange(12, 54)
        }),
{
    let n = s.len() as int;
    let u = unadjusted_file(v, s);
    let o = 12 + 16 * n + sizes_before(s, ih);
    let w = u32_bytes(adjustment(whole_word_checksum(u)));
    lemma_adjusted_layout(v, s, ih);
    lemma_unadjusted_record(v, s, ih);
    lemma_patched_bytes(u, o, w, e);
}

/// What `read` states of the directory and of the fixed-size tables of
/// a file it read.
proof fn lemma_read_parts(g: Font, a: Seq<u8>)
    requires
        read_ok(g, a),
    ensures
        g.tables@ == records_of(a, be_u16(a, 4) as nat),
        find_spec(g.tables@, head_tag()) matches Some(r) && r.offset + 54 <= a.len() && g.head
            == Head::decode(a.subrange(r.offset as int, r.offset + 54)),
        find_spec(g.tables@, hhea_tag()) matches Some(r) && r.offset + 36 <= a.len() && g.hhea
            == Hhea::decode(a.subrange(r.offset as int, r.offset + 36)),
        find_spec(g.tables@, maxp_tag()) matches Some(r) && g.maxp == Maxp::decode(
            a.subrange(r.offset as int, a.len() as int),
        ),
        find_spec(g.tables@, post_tag()) matches Some(r) && g.post.header_matches(
            a.subrange(r.offset as int, a.len() as int),
        ),
        find_spec(g.tables@, os2_tag()) matches Some(r) && g.os2 == Os2::decode(
            a.subrange(r.offset as int, a.len() as int),
        ),
        entries_view(g.raw_tables@) == raw_of(a, g.tables@),
{
}

/// The entries of a list whose tags `read` does not know, in order.
pub open spec fn unknown_entries(s: Seq<(Seq<u8>, Seq<u8>)>) -> Seq<(Seq<u8>, Seq<u8>)>
    decreases s.len(),
{
    if s.len() == 0 {
        Seq::empty()
    } else if known_tag(s.last().0) {
        unknown_entries(s.drop_last())
    } else {
        unknown_entries(s.drop_last()).push(s.last())
    }
}

/// Raw tables read through records that point at the entries' bytes,
/// but for one entry whose tag is known.
proof fn lemma_raw_of_listed(
    a: Seq<u8>,
    recs: Seq<crate::font::TableRecord>,
    s: Seq<(Seq<u8>, Seq<u8>)>,
    ih: int,
    k: int,
)
    requires
        recs.len() == s.len(),
        0 <= k <= s.len(),
        0 <= ih < s.len(),
        known_tag(s[ih].0),
        forall|j: int| 0 <= j < s.len() ==> (#[trigger] recs[j]).tag.0@ == s[j].0,
        forall|j: int|
            0 <= j < s.len() && j != ih ==> a.subrange((#[trigger] recs[j]).offset as int, recs[j].offset
                + recs[j].length) == s[j].1,
    ensures
        raw_of(a, recs.subrange(0, k)) == unknown_entries(s.subrange(0, k)),
    decreases k,
{
    if k > 0 {
        lemma_raw_of_listed(a, recs, s, ih, k - 1);
        assert(recs.subrange(0, k).drop_last() =~= recs.subrange(0, k - 1));
        assert(s.subrange(0, k).drop_last() =~= s.subrange(0, k - 1));
        assert(recs.subrange(0, k).last() == recs[k - 1]);
        assert(s.subrange(0, k).last() == s[k - 1]);
        assert(recs[k - 1].tag.0@ == s[k - 1].0);
    }
}

/// The record of a table other than the first `head` points at its bytes
/// in the adjusted file.
proof fn lemma_adjusted_entry(v: SfntVersion, s: Seq<(Seq<u8>, Seq<u8>)>, ih: int, j: int)
    requires
        file_fits(s),
        tags_of_four(s),
        first_with_tag(s, head_tag()) == Some(ih),
        0 <= ih < s.len(),
        s[ih].1.len() == 56,
        0 <= j < s.len(),
        j != ih,
    ensures
        ({
            let a = adjusted_file(v, s);
            let r = records_of(a, s.len())[j];
            a.subrange(r.offset as int, r.offset + r.length) == s[j].1
        }),
{
    let a = adjusted_file(v, s);
    let recs = records_of(a, s.len());
    lemma_adjusted_records(v, s, ih);
    lemma_adjusted_table(v, s, ih, j);
    let r = recs[j];
    assert(r.offset == 12 + 16 * s.len() + sizes_before(s, j));
    assert(r.length == s[j].1.len());
}

/// The tables `read` keeps as raw bytes from the adjusted file are the
/// unknown-tag entries of the sorted list, bytes as they were.
proof fn lemma_raw_read(v: SfntVersion, s: Seq<(Seq<u8>, Seq<u8>)>, ih: int)
    requires
        file_fits(s),
        tags_of_four(s),
        first_with_tag(s, head_tag()) == Some(ih),
        0 <= ih < s.len(),
        s[ih].0 == head_tag(),
        s[ih].1.len() == 56,
    ensures
        raw_of(adjusted_file(v, s), records_of(adjusted_file(v, s), s.len())) == unknown_entries(s),
{
    let a = adjusted_file(v, s);
    let recs = records_of(a, s.len());
    lemma_adjusted_records(v, s, ih);
    assert forall|j: int| 0 <= j < s.len() && j != ih implies a.subrange(
        (#[trigger] recs[j]).offset as int,
        recs[j].offset + recs[j].length,
    ) == s[j].1 by {
        lemma_adjusted_entry(v, s, ih, j);
    }
    assert(known_tag(s[ih].0));
    assert forall|j: int| 0 <= j < s.len() implies (#[trigger] recs[j]).tag.0@ == s[j].0 by {}
    lemma_raw_of_listed(a, recs, s, ih, s.len() as int);
    assert(recs.subrange(0, s.len() as int) =~= recs);
    assert(s.subrange(0, s.len() as int) =~= s);
}


/// A table of the list other than `head`, the first with its tag, is
/// found again by its tag in the file laid out from the sorted list, with
/// its bytes as they were.
proof fn lemma_listed_table(v: SfntVersion, l: Seq<(Seq<u8>, Seq<u8>)>, idx: int, t: Seq<u8>)
    requires
        tags_of_four(l),
        file_fits(sort_by_tag(l)),
        l.len() >= 1,
        l[0].0 == head_tag(),
        l[0].1.len() == 56,
        1 <= idx < l.len(),
        l[idx].0 == t,
        forall|j: int| 0 <= j < idx ==> #[trigger] l[j].0 != t,
    ensures
        ({
            let s = sort_by_tag(l);
            let a = adjusted_file(v, s);
            let recs = records_of(a, s.len());
            &&& find_spec(recs, t) matches Some(r) && r.offset + l[idx].1.len() <= a.len() && a.subrange(
                r.offset as int,
                r.offset + l[idx].1.len(),
            ) == l[idx].1
        }),
{
    lemma_sort_four(l);
    crate::font::lemma_first_with_tag(l, head_tag(), 0);
    crate::font::lemma_first_with_tag(l, t, idx);
    lemma_sort_keeps_first(l, head_tag());
    lemma_sort_keeps_first(l, t);
    let s = sort_by_tag(l);
    let n = s.len() as int;
    lemma_first_props(s, head_tag());
    lemma_first_props(s, t);
    let ih = first_with_tag(s, head_tag())->0;
    let k = first_with_tag(s, t)->0;
    assert(t != head_tag()) by {
        assert(l[0].0 != t);
    }
    let a = adjusted_file(v, s);
    lemma_adjusted_records(v, s, ih);
    let recs = records_of(a, s.len());
    let rt = record_tags(recs);
    assert forall|j: int| 0 <= j < n implies #[trigger] rt[j].0 == s[j].0 by {
        assert(recs[j].tag.0@ == s[j].0);
    }
    lemma_first_same_tags(rt, s, t);
    assert(find_spec(recs, t) == Some(recs[k]));
    lemma_adjusted_table(v, s, ih, k);
}

/// Reading back the file laid out from a table list whose first entries
/// are the encodings of `hd` and `hh`.
#[verifier::rlimit(40)]
proof fn lemma_list_reads_back(v: SfntVersion, l: Seq<(Seq<u8>, Seq<u8>)>, g: Font, hd: Head, hh: Hhea)
    requires
        tags_of_four(l),
        l.len() >= 2,
        l[0] == (head_tag(), hd.encode() + zeros(2)),
        hd.encode().len() == 54,
        l[1] == (hhea_tag(), hh.encode()),
        hh.encode().len() == 36,
        file_fits(sort_by_tag(l)),
        g.tables@ == records_of(adjusted_file(v, sort_by_tag(l)), be_u16(adjusted_file(v, sort_by_tag(l)), 4) as nat),
        find_spec(g.tables@, head_tag()) matches Some(r) && r.offset + 54 <= adjusted_file(v, sort_by_tag(l)).len() && g.head
            == Head::decode(adjusted_file(v, sort_by_tag(l)).subrange(r.offset as int, r.offset + 54)),
        find_spec(g.tables@, hhea_tag()) matches Some(r) && r.offset + 36 <= adjusted_file(v, sort_by_tag(l)).len() && g.hhea
            == Hhea::decode(adjusted_file(v, sort_by_tag(l)).subrange(r.offset as int, r.offset + 36)),
    ensures
        g.tables@ == records_of(adjusted_file(v, sort_by_tag(l)), sort_by_tag(l).len()),
        ({
            let s = sort_by_tag(l);
            &&& g.tables@.len() == s.len()
            &&& forall|k: int|
                0 <= k < s.len() ==> (#[trigger] g.tables@[k]).tag.0@ == s[k].0 && g.tables@[k].length
                    == s[k].1.len()
            &&& g.hhea == Hhea::decode(hh.encode())
            &&& g.head == (Head {
                check_sum_adjustment: adjustment(whole_word_checksum(unadjusted_file(v, s))),
                ..Head::decode(hd.encode())
            })
        }),
{
    lemma_sorted_head_hhea(l);
    let s = sort_by_tag(l);
    let n = s.len() as int;
    let ih = first_with_tag(s, head_tag())->0;
    let jh = first_with_tag(s, hhea_tag())->0;
    let a = adjusted_file(v, s);
    let e = hd.encode();
    let w = u32_bytes(adjustment(whole_word_checksum(unadjusted_file(v, s))));
    lemma_adjusted_records(v, s, ih);
    let recs = records_of(a, s.len());
    assert(g.tables@ == recs);
    let rt = record_tags(recs);
    assert forall|k: int| 0 <= k < n implies #[trigger] rt[k].0 == s[k].0 by {
        assert(recs[k].tag.0@ == s[k].0);
    }
    lemma_first_same_tags(rt, s, hhea_tag());
    lemma_first_same_tags(rt, s, head_tag());
    assert(find_spec(recs, hhea_tag()) == Some(recs[jh]));
    assert(find_spec(recs, head_tag()) == Some(recs[ih]));
    assert(head_tag()[1] != hhea_tag()[1]);
    lemma_adjusted_table(v, s, ih, jh);
    lemma_adjusted_head(v, s, ih, e);
    lemma_head_patched(e, w);
    crate::codec::lemma_be_u32_bytes(adjustment(whole_word_checksum(unadjusted_file(v, s))));
}

/// What follows an offset: the bytes known to stand there, then the rest.
proof fn lemma_tail_after(a: Seq<u8>, o: int, body: Seq<u8>)
    requires
        0 <= o,
        o + body.len() <= a.len(),
        a.subrange(o, o + body.len()) == body,
    ensures
        a.subrange(o, a.len() as int) == body + a.subrange(o + body.len(), a.len() as int),
{
    assert forall|j: int| 0 <= j < body.len() implies a[o + j] == body[j] by {
        assert(a.subrange(o, o + body.len())[j] == a[o + j]);
    }
    assert(a.subrange(o, a.len() as int) =~= body + a.subrange(o + body.len(), a.len() as int));
}

/// What must hold of a table list for its fixed-size tables to be found
/// again: the first seven entries are those `write` gathers first.
pub open spec fn front_tables(l: Seq<(Seq<u8>, Seq<u8>)>, mx: Maxp, ps: Post, os: Os2) -> bool {
    &&& tags_of_four(l)
    &&& file_fits(sort_by_tag(l))
    &&& l.len() >= 7
    &&& l[0].0 == head_tag()
    &&& l[0].1.len() == 56
    &&& l[1].0 == hhea_tag()
    &&& l[2] == (maxp_tag(), mx.encode() + zeros(pad_len(mx.encode().len())))
    &&& l[3] == (post_tag(), ps.encode() + zeros(pad_len(ps.encode().len())))
    &&& l[4].0 == seq![0x6eu8, 0x61, 0x6d, 0x65]
    &&& l[5].0 == seq![0x63u8, 0x6d, 0x61, 0x70]
    &&& l[6] == (os2_tag(), os.encode() + zeros(pad_len(os.encode().len())))
}

#[verifier::spinoff_prover]
#[verifier::rlimit(30)]
proof fn lemma_maxp_read_back(v: SfntVersion, l: Seq<(Seq<u8>, Seq<u8>)>, g: Font, mx: Maxp, ps: Post, os: Os2)
    requires
        front_tables(l, mx, ps, os),
        g.tables@ == records_of(adjusted_file(v, sort_by_tag(l)), sort_by_tag(l).len()),
        find_spec(g.tables@, maxp_tag()) matches Some(r) && g.maxp == Maxp::decode(
            adjusted_file(v, sort_by_tag(l)).subrange(r.offset as int, adjusted_file(v, sort_by_tag(l)).len() as int),
        ),
    ensures
        g.maxp == Maxp::decode(mx.encode()),
{
    let a = adjusted_file(v, sort_by_tag(l));
    assert forall|j: int| 0 <= j < 2 implies #[trigger] l[j].0 != maxp_tag() by {
        assert(l[j].0[0] != maxp_tag()[0]);
    }
    lemma_listed_table(v, l, 2, maxp_tag());
    let r = find_spec(g.tables@, maxp_tag())->0;
    let em = mx.encode();
    lemma_tail_after(a, r.offset as int, l[2].1);
    let rest = a.subrange(r.offset + l[2].1.len(), a.len() as int);
    assert(l[2].1 + rest =~= em + (zeros(pad_len(em.len())) + rest));
    crate::tables::maxp::lemma_maxp_prefix(mx, zeros(pad_len(em.len())) + rest);
}

/// The `name` that a successful read holds is the one its directory points at.
proof fn lemma_read_name_part(g: Font, a: Seq<u8>)
    requires
        read_ok(g, a),
    ensures
        find_spec(g.tables@, seq![0x6eu8, 0x61, 0x6d, 0x65]) matches Some(r) && name_parsed(
            g.name,
            a,
            r.offset as int,
        ),
{
}

/// The `name` read from a written font is the font's own.
#[verifier::spinoff_prover]
#[verifier::rlimit(100)]
proof fn lemma_font_name_read_back(f: Font, g: Font)
    requires
        file_fits(sort_by_tag(f.table_list())),
        g.tables@ == records_of(
            adjusted_file(f.sfnt_version, sort_by_tag(f.table_list())),
            sort_by_tag(f.table_list()).len(),
        ),
        find_spec(g.tables@, seq![0x6eu8, 0x61, 0x6d, 0x65]) matches Some(r) && name_parsed(
            g.name,
            adjusted_file(f.sfnt_version, sort_by_tag(f.table_list())),
            r.offset as int,
        ),
    ensures
        name_round_trips(f.name) ==> name_read_back(g.name, f.name),
{
    let l = f.table_list();
    let v = f.sfnt_version;
    if name_round_trips(f.name) {
        lemma_table_list_four(f);
        lemma_list_front(f);
        lemma_front_data(f);
        assert(f.name_data() == f.name.encode()) by {
            reveal(Font::name_data);
        }
        let t = seq![0x6eu8, 0x61, 0x6d, 0x65];
        assert forall|j: int| 0 <= j < 4 implies #[trigger] l[j].0 != t by {
            assert(l[0].0 == head_tag());
            assert(l[1].0 == hhea_tag());
            assert(l[2].0 == maxp_tag());
            assert(l[3].0 == post_tag());
            assert(l[j].0[0] != t[0]);
        }
        let a = adjusted_file(v, sort_by_tag(l));
        lemma_listed_table(v, l, 4, t);
        let r = find_spec(g.tables@, t)->0;
        let en = f.name.encode();
        assert(placed(a, r.offset as int, en + zeros(pad_len(en.len())))) by {
            reveal(placed);
        }
        lemma_placed_concat(a, r.offset as int, en, zeros(pad_len(en.len())));
        lemma_name_read_back_at(f.name, a, r.offset as int);
    }
}

/// The `cmap` that a successful read holds is the one its directory points at.
proof fn lemma_read_cmap_part(g: Font, a: Seq<u8>)
    requires
        read_ok(g, a),
    ensures
        find_spec(g.tables@, seq![0x63u8, 0x6d, 0x61, 0x70]) matches Some(r) && cmap_parsed(
            g.cmap,
            a,
            r.offset as int,
        ),
{
}

/// The `cmap` read from a written font is the font's own.
#[verifier::spinoff_prover]
#[verifier::rlimit(100)]
proof fn lemma_font_cmap_read_back(f: Font, g: Font)
    requires
        file_fits(sort_by_tag(f.table_list())),
        g.tables@ == records_of(
            adjusted_file(f.sfnt_version, sort_by_tag(f.table_list())),
            sort_by_tag(f.table_list()).len(),
        ),
        find_spec(g.tables@, seq![0x63u8, 0x6d, 0x61, 0x70]) matches Some(r) && cmap_parsed(
            g.cmap,
            adjusted_file(f.sfnt_version, sort_by_tag(f.table_list())),
            r.offset as int,
        ),
    ensures
        cmap_round_trips(f.cmap) ==> cmap_read_back(g.cmap, f.cmap),
{
    let l = f.table_list();
    let v = f.sfnt_version;
    if cmap_round_trips(f.cmap) {
        lemma_table_list_four(f);
        lemma_list_front(f);
        lemma_front_data(f);
        assert(f.cmap_data() == f.cmap.encode()) by {
            reveal(Font::cmap_data);
        }
        assert forall|j: int| 0 <= j < 5 implies (#[trigger] l[j].0)[0] != 0x63u8 by {
            assert(l[0].0 == head_tag());
            assert(l[1].0 == hhea_tag());
            assert(l[2].0 == maxp_tag());
            assert(l[3].0 == post_tag());
        }
        lemma_cmap_read_back(v, l, g, f.cmap);
    }
}

/// The `cmap` read from a written file is the one written.
#[verifier::spinoff_prover]
#[verifier::rlimit(30)]
proof fn lemma_cmap_read_back(v: SfntVersion, l: Seq<(Seq<u8>, Seq<u8>)>, g: Font, c: Cmap)
    requires
        tags_of_four(l),
        file_fits(sort_by_tag(l)),
        l.len() >= 6,
        l[0].0 == head_tag(),
        l[0].1.len() == 56,
        forall|j: int| 0 <= j < 5 ==> (#[trigger] l[j].0)[0] != 0x63u8,
        l[5] == entry(seq![0x63u8, 0x6d, 0x61, 0x70], c.encode()),
        cmap_round_trips(c),
        g.tables@ == records_of(adjusted_file(v, sort_by_tag(l)), sort_by_tag(l).len()),
        find_spec(g.tables@, seq![0x63u8, 0x6d, 0x61, 0x70]) matches Some(r) && cmap_parsed(
            g.cmap,
            adjusted_file(v, sort_by_tag(l)),
            r.offset as int,
        ),
    ensures
        cmap_read_back(g.cmap, c),
{
    let a = adjusted_file(v, sort_by_tag(l));
    let t = seq![0x63u8, 0x6d, 0x61, 0x70];
    assert forall|j: int| 0 <= j < 5 implies #[trigger] l[j].0 != t by {
        assert(l[j].0[0] != t[0]);
    }
    lemma_listed_table(v, l, 5, t);
    let r = find_spec(g.tables@, t)->0;
    let ec = c.encode();
    assert(placed(a, r.offset as int, ec + zeros(pad_len(ec.len())))) by {
        reveal(placed);
    }
    lemma_placed_concat(a, r.offset as int, ec, zeros(pad_len(ec.len())));
    lemma_cmap_read_back_at(c, a, r.offset as int);
}

#[verifier::spinoff_prover]
#[verifier::rlimit(30)]
proof fn lemma_post_read_back(v: SfntVersion, l: Seq<(Seq<u8>, Seq<u8>)>, g: Font, mx: Maxp, ps: Post, os: Os2)
    requires
        front_tables(l, mx, ps, os),
        g.tables@ == records_of(adjusted_file(v, sort_by_tag(l)), sort_by_tag(l).len()),
        find_spec(g.tables@, post_tag()) matches Some(r) && g.post.header_matches(
            adjusted_file(v, sort_by_tag(l)).subrange(r.offset as int, adjusted_file(v, sort_by_tag(l)).len() as int),
        ),
    ensures
        same_post_header(g.post, ps),
{
    let a = adjusted_file(v, sort_by_tag(l));
    assert forall|j: int| 0 <= j < 3 implies #[trigger] l[j].0 != post_tag() by {
        assert(l[j].0[0] != post_tag()[0]);
    }
    lemma_listed_table(v, l, 3, post_tag());
    let r = find_spec(g.tables@, post_tag())->0;
    let ep = ps.encode();
    lemma_tail_after(a, r.offset as int, l[3].1);
    let rest = a.subrange(r.offset + l[3].1.len(), a.len() as int);
    assert(l[3].1 + rest =~= ep + (zeros(pad_len(ep.len())) + rest));
    crate::tables::post::lemma_post_prefix(ps, zeros(pad_len(ep.len())) + rest);
}

#[verifier::spinoff_prover]
#[verifier::rlimit(30)]
proof fn lemma_os2_read_back(v: SfntVersion, l: Seq<(Seq<u8>, Seq<u8>)>, g: Font, mx: Maxp, ps: Post, os: Os2)
    requires
        front_tables(l, mx, ps, os),
        os.fields_match_version(),
        g.tables@ == records_of(adjusted_file(v, sort_by_tag(l)), sort_by_tag(l).len()),
        find_spec(g.tables@, os2_tag()) matches Some(r) && g.os2 == Os2::decode(
            adjusted_file(v, sort_by_tag(l)).subrange(r.offset as int, adjusted_file(v, sort_by_tag(l)).len() as int),
        ),
    ensures
        g.os2 == os,
{
    let a = adjusted_file(v, sort_by_tag(l));
    assert forall|j: int| 0 <= j < 6 implies #[trigger] l[j].0 != os2_tag() by {
        assert(l[j].0[0] != os2_tag()[0]);
    }
    lemma_listed_table(v, l, 6, os2_tag());
    let r = find_spec(g.tables@, os2_tag())->0;
    let eo = os.encode();
    lemma_tail_after(a, r.offset as int, l[6].1);
    let rest = a.subrange(r.offset + l[6].1.len(), a.len() as int);
    assert(l[6].1 + rest =~= eo + (zeros(pad_len(eo.len())) + rest));
    crate::tables::os2::lemma_os2_prefix(os, zeros(pad_len(eo.len())) + rest);
}

/// Reading a font that `write` wrote gives back its `hhea`; its `head`
/// as written (long `loca` offsets when it has outlines) with the
/// checksum adjustment that makes the file sum to 0xB1B0AFBA; its `maxp`
/// as that table's bytes read (the same `maxp` when its limits are present
/// exactly for version 1.0); the fixed part of its `post`; its `OS/2`
/// when the optional fields are present exactly for its version; a
/// directory that lists the written tables in tag order with their
/// lengths; as raw tables, the written tables whose tags it does not
/// know, in tag order, each padded to four bytes; and its `cmap` and its
/// `name`, field for field, when each can be read back on its own.
pub proof fn lemma_written_font_reads_back(f: Font, g: Font)
    requires
        file_fits(sort_by_tag(f.table_list())),
        read_ok(g, adjusted_file(f.sfnt_version, sort_by_tag(f.table_list()))),
    ensures
        ({
            let s = sort_by_tag(f.table_list());
            &&& g.tables@.len() == s.len()
            &&& forall|k: int|
                0 <= k < s.len() ==> (#[trigger] g.tables@[k]).tag.0@ == s[k].0 && g.tables@[k].length
                    == s[k].1.len()
            &&& g.hhea == f.hhea
            &&& g.head == (Head {
                check_sum_adjustment: adjustment(whole_word_checksum(unadjusted_file(f.sfnt_version, s))),
                ..f.written_head()
            })
        }),
        g.maxp == Maxp::decode(f.maxp.encode()),
        f.maxp.limits_match_version() ==> g.maxp == f.maxp,
        same_post_header(g.post, f.post),
        f.os2.fields_match_version() ==> g.os2 == f.os2,
        entries_view(g.raw_tables@) == unknown_entries(sort_by_tag(f.table_list())),
        cmap_round_trips(f.cmap) ==> cmap_read_back(g.cmap, f.cmap),
        name_round_trips(f.name) ==> name_read_back(g.name, f.name),
{
    let l = f.table_list();
    let v = f.sfnt_version;
    lemma_table_list_four(f);
    lemma_list_front(f);
    lemma_front_data(f);
    reveal(Font::maxp_data);
    reveal(Font::post_data);
    reveal(Font::os2_data);
    lemma_read_parts(g, adjusted_file(v, sort_by_tag(l)));
    lemma_list_reads_back(v, l, g, f.written_head(), f.hhea);
    crate::tables::hhea::lemma_hhea_roundtrip(f.hhea);
    crate::tables::head::lemma_head_roundtrip(f.written_head());
    assert(front_tables(l, f.maxp, f.post, f.os2));
    lemma_maxp_read_back(v, l, g, f.maxp, f.post, f.os2);
    lemma_post_read_back(v, l, g, f.maxp, f.post, f.os2);
    if f.os2.fields_match_version() {
        lemma_os2_read_back(v, l, g, f.maxp, f.post, f.os2);
    }
    if f.maxp.limits_match_version() {
        crate::tables::maxp::lemma_maxp_roundtrip(f.maxp);
    }
    lemma_read_cmap_part(g, adjusted_file(v, sort_by_tag(l)));
    lemma_font_cmap_read_back(f, g);
    lemma_read_name_part(g, adjusted_file(v, sort_by_tag(l)));
    lemma_font_name_read_back(f, g);
    lemma_sorted_head_hhea(l);
    let s = sort_by_tag(l);
    let ih = first_with_tag(s, head_tag())->0;
    lemma_raw_read(v, s, ih);
}

proof fn lemma_sizes_aligned(s: Seq<(Seq<u8>, Seq<u8>)>, k: int)
    requires
        tags_of_four(s),
        0 <= k <= s.len(),
    ensures
        sizes_before(s, k) % 4 == 0,
    decreases k,
{
    if k > 0 {
        lemma_sizes_aligned(s, k - 1);
        assert(s[k - 1].1.len() % 4 == 0);
    }
}

proof fn lemma_padded_word_be(s: Seq<u8>, i: int)
    requires
        0 <= i,
        i + 4 <= s.len(),
    ensures
        padded_word(s, i) == be_u32(s, i),
{
    reveal(be_u32);
}

/// A wrapping sum is the plain sum less 2^32 when it wraps.
proof fn lemma_wrapping(a: u32, b: u32)
    ensures
        wrapping_add_u32(a, b) as int == a + b || wrapping_add_u32(a, b) as int == a + b - 0x1_0000_0000,
{
}

/// Whether two integers differ by a multiple of 2^32, the difference
/// being `d`.
proof fn lemma_shift_mod(x: int, d: int)
    requires
        x % 0x1_0000_0000 == 0,
        d == 0 || d == 0x1_0000_0000 || d == -0x1_0000_0000,
    ensures
        (x + d) % 0x1_0000_0000 == 0,
{
    if d == 0x1_0000_0000 {
        vstd::arithmetic::div_mod::lemma_mod_add_multiples_vanish(x, 0x1_0000_0000);
    } else if d == -0x1_0000_0000 {
        vstd::arithmetic::div_mod::lemma_mod_sub_multiples_vanish(x, 0x1_0000_0000);
    }
}

/// Replacing one aligned word changes the wrapping sum of the words by
/// the difference of the two words.
proof fn lemma_word_sum_patch(s: Seq<u8>, t: Seq<u8>, p: int, m: nat)
    requires
        s.len() == t.len(),
        0 <= p,
        p % 4 == 0,
        p + 4 <= s.len(),
        4 * m <= s.len(),
        forall|i: int| 0 <= i < s.len() && !(p <= i < p + 4) ==> #[trigger] s[i] == t[i],
    ensures
        4 * m <= p ==> word_sum(t, m) == word_sum(s, m),
        4 * m > p ==> (word_sum(t, m) as int - word_sum(s, m) as int - padded_word(t, p) as int
            + padded_word(s, p) as int) % 0x1_0000_0000 == 0,
    decreases m,
{
    if m > 0 {
        let i = 4 * (m - 1);
        let m1 = (m - 1) as nat;
        lemma_word_sum_patch(s, t, p, m1);
        let ws = word_sum(s, m1);
        let wt = word_sum(t, m1);
        let xs = padded_word(s, i);
        let xt = padded_word(t, i);
        lemma_wrapping(ws, xs);
        lemma_wrapping(wt, xt);
        if i != p {
            assert(i + 4 <= p || i >= p + 4);
            assert(s[i] == t[i] && s[i + 1] == t[i + 1] && s[i + 2] == t[i + 2] && s[i + 3] == t[i + 3]);
            assert(xs == xt);
            if i > p {
                let x = wt as int - ws as int - padded_word(t, p) as int + padded_word(s, p) as int;
                let d = (word_sum(t, m) as int - wt - xt) - (word_sum(s, m) as int - ws - xs);
                lemma_shift_mod(x, d);
                assert(word_sum(t, m) as int - word_sum(s, m) as int - padded_word(t, p) as int + padded_word(
                    s,
                    p,
                ) as int == x + d);
            }
        } else {
            assert(wt == ws);
            let d = (word_sum(t, m) as int - wt - xt) - (word_sum(s, m) as int - ws - xs);
            lemma_shift_mod(0, d);
            assert(word_sum(t, m) as int - word_sum(s, m) as int - xt as int + xs as int == 0 + d);
        }
    }
}

/// The sum of a file whose zero adjustment word was replaced by the
/// adjustment for its sum.
proof fn lemma_patch_sum(u: Seq<u8>, at: int)
    requires
        u.len() % 4 == 0,
        0 <= at,
        at % 4 == 0,
        at + 4 <= u.len(),
        padded_word(u, at) == 0,
    ensures
        ({
            let adj = adjustment(word_sum(u, (u.len() / 4) as nat));
            let a = u.subrange(0, at) + u32_bytes(adj) + u.subrange(at + 4, u.len() as int);
            &&& a.len() == u.len()
            &&& word_sum(a, (a.len() / 4) as nat) == 0xB1B0AFBA
        }),
{
    let m = (u.len() / 4) as nat;
    let sum = word_sum(u, m);
    let adj = adjustment(sum);
    let w = u32_bytes(adj);
    let a = u.subrange(0, at) + w + u.subrange(at + 4, u.len() as int);
    assert(a =~= (u.subrange(0, at) + w) + u.subrange(at + 4, u.len() as int));
    crate::codec::lemma_be_u32_add_left(u.subrange(0, at) + w, u.subrange(at + 4, u.len() as int), at);
    crate::codec::lemma_be_u32_add_right(u.subrange(0, at), w, at);
    crate::codec::lemma_be_u32_bytes(adj);
    lemma_padded_word_be(a, at);
    assert(padded_word(a, at) == adj);
    assert forall|i: int| 0 <= i < u.len() && !(at <= i < at + 4) implies #[trigger] u[i] == a[i] by {}
    lemma_word_sum_patch(u, a, at, m);
    let x = word_sum(a, m) as int - sum as int - adj as int;
    assert(x % 0x1_0000_0000 == 0);
    assert(sum as int + adj as int == 0xB1B0AFBA || sum as int + adj as int == 0xB1B0AFBA + 0x1_0000_0000);
    assert(-0x1_0000_0000 < word_sum(a, m) as int - 0xB1B0AFBA < 0x1_0000_0000);
}

proof fn lemma_aligned(n: int, x: int)
    requires
        x % 4 == 0,
    ensures
        (12 + 16 * n + x) % 4 == 0,
        (12 + 16 * n + x + 8) % 4 == 0,
{
    assert((12 + 16 * n + x) % 4 == 0) by (nonlinear_arith)
        requires
            x % 4 == 0,
    ;
    assert((12 + 16 * n + x + 8) % 4 == 0) by (nonlinear_arith)
        requires
            x % 4 == 0,
    ;
}

/// The whole-word sum of a file whose zero adjustment word was replaced
/// by the adjustment for its sum.
proof fn lemma_adjusted_sum(u: Seq<u8>, a: Seq<u8>, at: int)
    requires
        u.len() % 4 == 0,
        0 <= at,
        at % 4 == 0,
        at + 4 <= u.len(),
        padded_word(u, at) == 0,
        a == u.subrange(0, at) + u32_bytes(adjustment(whole_word_checksum(u))) + u.subrange(
            at + 4,
            u.len() as int,
        ),
    ensures
        a.len() % 4 == 0,
        whole_word_checksum(a) == 0xB1B0AFBA,
{
    lemma_patch_sum(u, at);
}

/// The sum of the file laid out from a sorted table list whose first
/// `head` has a zero adjustment.
proof fn lemma_sorted_sums_to_magic(v: SfntVersion, s: Seq<(Seq<u8>, Seq<u8>)>, ih: int, hd: Head)
    requires
        tags_of_four(s),
        file_fits(s),
        first_with_tag(s, head_tag()) == Some(ih),
        0 <= ih < s.len(),
        s[ih].1 == hd.encode() + zeros(2),
        hd.encode().len() == 54,
        hd.check_sum_adjustment == 0,
    ensures
        adjusted_file(v, s).len() % 4 == 0,
        whole_word_checksum(adjusted_file(v, s)) == 0xB1B0AFBA,
{
    let n = s.len() as int;
    lemma_adjusted_layout(v, s, ih);
    lemma_sizes_aligned(s, ih);
    lemma_sizes_aligned(s, n);
    lemma_aligned(n, sizes_before(s, n));
    lemma_aligned(n, sizes_before(s, ih));
    lemma_zero_adjustment_word(v, s, ih, hd);
    lemma_adjusted_sum(unadjusted_file(v, s), adjusted_file(v, s), 12 + 16 * n + sizes_before(s, ih) + 8);
}

/// The sum of the file laid out from a table list whose first entry is a
/// `head` with a zero adjustment.
proof fn lemma_list_sums_to_magic(v: SfntVersion, l: Seq<(Seq<u8>, Seq<u8>)>, hd: Head)
    requires
        tags_of_four(l),
        l.len() >= 2,
        l[0] == (head_tag(), hd.encode() + zeros(2)),
        hd.encode().len() == 54,
        hd.check_sum_adjustment == 0,
        l[1].0 == hhea_tag(),
        file_fits(sort_by_tag(l)),
    ensures
        adjusted_file(v, sort_by_tag(l)).len() % 4 == 0,
        whole_word_checksum(adjusted_file(v, sort_by_tag(l))) == 0xB1B0AFBA,
{
    lemma_sorted_head_hhea(l);
    let s = sort_by_tag(l);
    let ih = first_with_tag(s, head_tag())->0;
    lemma_sorted_sums_to_magic(v, s, ih, hd);
}

/// A written font sums to 0xB1B0AFBA, counted in 32-bit words with
/// wrap-around, and its length is a multiple of four: `write` zeroes the
/// old checksum adjustment of `head` before it sums the file.
pub proof fn lemma_written_font_sums_to_magic(f: Font)
    requires
        file_fits(sort_by_tag(f.table_list())),
    ensures
        adjusted_file(f.sfnt_version, sort_by_tag(f.table_list())).len() % 4 == 0,
        whole_word_checksum(adjusted_file(f.sfnt_version, sort_by_tag(f.table_list()))) == 0xB1B0AFBA,
{
    let l = f.table_list();
    lemma_table_list_four(f);
    lemma_list_front(f);
    lemma_front_data(f);
    assert(f.written_head().check_sum_adjustment == 0);
    lemma_list_sums_to_magic(f.sfnt_version, l, f.written_head());
}

/// The adjustment word of the unadjusted file is zero when `head` was
/// written with a zero adjustment.
proof fn lemma_zero_adjustment_word(v: SfntVersion, s: Seq<(Seq<u8>, Seq<u8>)>, ih: int, hd: Head)
    requires
        file_fits(s),
        tags_of_four(s),
        0 <= ih < s.len(),
        s[ih].1 == hd.encode() + zeros(2),
        hd.check_sum_adjustment == 0,
    ensures
        padded_word(unadjusted_file(v, s), 12 + 16 * s.len() + sizes_before(s, ih) + 8) == 0,
{
    let u = unadjusted_file(v, s);
    let oi = 12 + 16 * s.len() + sizes_before(s, ih);
    let e = hd.encode();
    crate::tables::head::lemma_head_roundtrip(hd);
    assert(be_u32(e, 8) == 0) by {
        assert(Head::decode(e).check_sum_adjustment == be_u32(e, 8));
    }
    lemma_unadjusted_record(v, s, ih);
    assert(u.subrange(oi, oi + 56) == e + zeros(2));
    crate::codec::lemma_be_u32_subrange(u, oi, oi + 56, 8);
    crate::codec::lemma_be_u32_add_left(e, zeros(2), 8);
    lemma_padded_word_be(u, oi + 8);
}

/// The directory of the file written from a table list: the count of its
/// entries, a known flavour, and records that each lie inside the file.
#[verifier::spinoff_prover]
proof fn lemma_written_directory(v: SfntVersion, l: Seq<(Seq<u8>, Seq<u8>)>)
    requires
        tags_of_four(l),
        file_fits(sort_by_tag(l)),
        l.len() >= 1,
        l[0].0 == head_tag(),
        l[0].1.len() == 56,
    ensures
        ({
            let s = sort_by_tag(l);
            let a = adjusted_file(v, s);
            let recs = records_of(a, be_u16(a, 4) as nat);
            &&& be_u16(a, 4) == s.len()
            &&& directory_fits(a)
            &&& forall|k: int| 0 <= k < recs.len() ==> #[trigger] table_bytes(a, recs[k]) is Some
        }),
{
    lemma_sort_four(l);
    crate::font::lemma_first_with_tag(l, head_tag(), 0);
    lemma_sort_keeps_first(l, head_tag());
    let s = sort_by_tag(l);
    let n = s.len() as int;
    lemma_first_props(s, head_tag());
    let ih = first_with_tag(s, head_tag())->0;
    let u = unadjusted_file(v, s);
    let a = adjusted_file(v, s);
    let at = 12 + 16 * n + sizes_before(s, ih) + 8;
    let w = u32_bytes(adjustment(whole_word_checksum(u)));
    lemma_adjusted_layout(v, s, ih);
    lemma_adjusted_records(v, s, ih);
    lemma_patch_keeps(u, at, w, 0, 12);
    let recs = records_of(a, be_u16(a, 4) as nat);
    assert forall|k: int| 0 <= k < recs.len() implies #[trigger] table_bytes(a, recs[k]) is Some by {
        lemma_body_at(s, k);
    }
    let p = u.subrange(0, 12);
    assert(a =~= p + a.subrange(12, a.len() as int));
    assert(u =~= p + u.subrange(12, u.len() as int));
    crate::codec::lemma_be_u32_add_left(p, a.subrange(12, a.len() as int), 0);
    crate::codec::lemma_be_u32_add_left(p, u.subrange(12, u.len() as int), 0);
    let hw = u32_bytes(crate::font::sfnt_word(v));
    assert(u =~= hw + u.subrange(4, u.len() as int));
    crate::codec::lemma_be_u32_add_left(hw, u.subrange(4, u.len() as int), 0);
    crate::codec::lemma_be_u32_bytes(crate::font::sfnt_word(v));
    assert(version_of(be_u32(a, 0)) is Some);
}

/// A table of the list other than `head`, the first with its tag, is
/// found by the directory that `read` reads, and its bytes lie where the
/// directory points.
#[verifier::spinoff_prover]
proof fn lemma_table_placed(v: SfntVersion, l: Seq<(Seq<u8>, Seq<u8>)>, idx: int, t: Seq<u8>)
    requires
        tags_of_four(l),
        file_fits(sort_by_tag(l)),
        l[0].0 == head_tag(),
        l[0].1.len() == 56,
        1 <= idx < l.len(),
        l[idx].0 == t,
        forall|j: int| 0 <= j < idx ==> #[trigger] l[j].0 != t,
    ensures
        ({
            let a = adjusted_file(v, sort_by_tag(l));
            let recs = records_of(a, be_u16(a, 4) as nat);
            &&& find_spec(recs, t) is Some
            &&& placed(a, offset_of(recs, t), l[idx].1)
        }),
{
    lemma_written_directory(v, l);
    lemma_listed_table(v, l, idx, t);
    let a = adjusted_file(v, sort_by_tag(l));
    let recs = records_of(a, be_u16(a, 4) as nat);
    let r = find_spec(recs, t)->0;
    assert(placed(a, r.offset as int, l[idx].1)) by {
        reveal(placed);
    }
}

/// A tag that no entry of the list has is not found in the file.
#[verifier::spinoff_prover]
proof fn lemma_table_absent(v: SfntVersion, l: Seq<(Seq<u8>, Seq<u8>)>, t: Seq<u8>)
    requires
        tags_of_four(l),
        file_fits(sort_by_tag(l)),
        l.len() >= 1,
        l[0].0 == head_tag(),
        l[0].1.len() == 56,
        forall|j: int| 0 <= j < l.len() ==> #[trigger] l[j].0 != t,
    ensures
        ({
            let a = adjusted_file(v, sort_by_tag(l));
            find_spec(records_of(a, be_u16(a, 4) as nat), t) is None
        }),
{
    lemma_written_directory(v, l);
    lemma_sort_four(l);
    crate::font::lemma_first_with_tag(l, head_tag(), 0);
    lemma_sort_keeps_first(l, head_tag());
    lemma_sort_keeps_first(l, t);
    lemma_first_props(l, t);
    let s = sort_by_tag(l);
    let n = s.len() as int;
    lemma_first_props(s, head_tag());
    let ih = first_with_tag(s, head_tag())->0;
    let a = adjusted_file(v, s);
    lemma_adjusted_records(v, s, ih);
    let recs = records_of(a, s.len());
    let rt = record_tags(recs);
    assert forall|j: int| 0 <= j < n implies #[trigger] rt[j].0 == s[j].0 by {
        assert(recs[j].tag.0@ == s[j].0);
    }
    lemma_first_same_tags(rt, s, t);
}

/// No entry of the list has the tag `t`.
pub open spec fn tags_avoid(s: Seq<(Seq<u8>, Seq<u8>)>, t: Seq<u8>) -> bool {
    forall|j: int| 0 <= j < s.len() ==> #[trigger] s[j].0 != t
}

proof fn lemma_avoid_concat(a: Seq<(Seq<u8>, Seq<u8>)>, b: Seq<(Seq<u8>, Seq<u8>)>, t: Seq<u8>)
    requires
        tags_avoid(a, t),
        tags_avoid(b, t),
    ensures
        tags_avoid(a + b, t),
{
    assert forall|j: int| 0 <= j < (a + b).len() implies #[trigger] (a + b)[j].0 != t by {
        if j < a.len() {
            assert((a + b)[j] == a[j]);
        } else {
            assert((a + b)[j] == b[j - a.len()]);
        }
    }
}

proof fn lemma_some_entry_avoid(u: Seq<u8>, d: Option<Seq<u8>>, t: Seq<u8>)
    requires
        u != t,
    ensures
        tags_avoid(some_entry(u, d), t),
{
}

/// The optional tables that `write` gathers have none of the tags `glyf`
/// and `loca`, nor `kern` when the font has no `kern`.
#[verifier::spinoff_prover]
#[verifier::rlimit(60)]
proof fn lemma_optional_avoid(f: Font, t: Seq<u8>)
    requires
        t == seq![0x67u8, 0x6c, 0x79, 0x66] || t == seq![0x6cu8, 0x6f, 0x63, 0x61] || (t == seq![
            0x6bu8,
            0x65,
            0x72,
            0x6e,
        ] && f.kern is None),
    ensures
        tags_avoid(f.optional_tables(), t),
{
    let t1 = seq![0x6bu8, 0x65, 0x72, 0x6e];
    let t2 = seq![0x63u8, 0x76, 0x74, 0x20];
    let t3 = seq![0x70u8, 0x72, 0x65, 0x70];
    let t4 = seq![0x66u8, 0x70, 0x67, 0x6d];
    let t5 = seq![0x47u8, 0x50, 0x4f, 0x53];
    let t6 = seq![0x47u8, 0x53, 0x55, 0x42];
    let t7 = seq![0x48u8, 0x56, 0x41, 0x52];
    let t8 = seq![0x67u8, 0x76, 0x61, 0x72];
    let t9 = seq![0x66u8, 0x76, 0x61, 0x72];
    let t10 = seq![0x53u8, 0x54, 0x41, 0x54];
    let t11 = seq![0x43u8, 0x46, 0x46, 0x20];
    let t12 = seq![0x43u8, 0x4f, 0x4c, 0x52];
    let t13 = seq![0x43u8, 0x50, 0x41, 0x4c];
    let t14 = seq![0x53u8, 0x56, 0x47, 0x20];
    let e1 = some_entry(t1, f.kern_data());
    let e2 = some_entry(t2, vec_view(f.cvt));
    let e3 = some_entry(t3, vec_view(f.prep));
    let e4 = some_entry(t4, vec_view(f.fpgm));
    let e5 = some_entry(t5, f.gpos_data());
    let e6 = some_entry(t6, f.gsub_data());
    let e7 = some_entry(t7, f.hvar_data());
    let e8 = some_entry(t8, f.gvar_data());
    let e9 = some_entry(t9, f.fvar_data());
    let e10 = some_entry(t10, f.stat_data());
    let e11 = some_entry(t11, f.cff_data());
    let e12 = some_entry(t12, f.colr_data());
    let e13 = some_entry(t13, f.cpal_data());
    let e14 = some_entry(t14, f.svg_data());
    assert(tags_avoid(e1, t)) by {
        if f.kern is None {
            assert(e1.len() == 0);
        } else {
            assert(t1[0] != t[0] || t1[1] != t[1]);
        }
    }
    assert(t2[0] != t[0]);
    assert(t3[0] != t[0]);
    assert(t4[0] != t[0]);
    assert(t5[0] != t[0]);
    assert(t6[0] != t[0]);
    assert(t7[0] != t[0]);
    assert(t8[0] != t[0] || t8[1] != t[1]);
    assert(t9[0] != t[0]);
    assert(t10[0] != t[0]);
    assert(t11[0] != t[0]);
    assert(t12[0] != t[0]);
    assert(t13[0] != t[0]);
    assert(t14[0] != t[0]);
    lemma_some_entry_avoid(t2, vec_view(f.cvt), t);
    lemma_some_entry_avoid(t3, vec_view(f.prep), t);
    lemma_some_entry_avoid(t4, vec_view(f.fpgm), t);
    lemma_some_entry_avoid(t5, f.gpos_data(), t);
    lemma_some_entry_avoid(t6, f.gsub_data(), t);
    lemma_some_entry_avoid(t7, f.hvar_data(), t);
    lemma_some_entry_avoid(t8, f.gvar_data(), t);
    lemma_some_entry_avoid(t9, f.fvar_data(), t);
    lemma_some_entry_avoid(t10, f.stat_data(), t);
    lemma_some_entry_avoid(t11, f.cff_data(), t);
    lemma_some_entry_avoid(t12, f.colr_data(), t);
    lemma_some_entry_avoid(t13, f.cpal_data(), t);
    lemma_some_entry_avoid(t14, f.svg_data(), t);
    lemma_avoid_concat(e1, e2, t);
    lemma_avoid_concat(e1 + e2, e3, t);
    lemma_avoid_concat(e1 + e2 + e3, e4, t);
    lemma_avoid_concat(e1 + e2 + e3 + e4, e5, t);
    lemma_avoid_concat(e1 + e2 + e3 + e4 + e5, e6, t);
    lemma_avoid_concat(e1 + e2 + e3 + e4 + e5 + e6, e7, t);
    lemma_avoid_concat(e1 + e2 + e3 + e4 + e5 + e6 + e7, e8, t);
    lemma_avoid_concat(e1 + e2 + e3 + e4 + e5 + e6 + e7 + e8, e9, t);
    lemma_avoid_concat(e1 + e2 + e3 + e4 + e5 + e6 + e7 + e8 + e9, e10, t);
    lemma_avoid_concat(e1 + e2 + e3 + e4 + e5 + e6 + e7 + e8 + e9 + e10, e11, t);
    lemma_avoid_concat(e1 + e2 + e3 + e4 + e5 + e6 + e7 + e8 + e9 + e10 + e11, e12, t);
    lemma_avoid_concat(e1 + e2 + e3 + e4 + e5 + e6 + e7 + e8 + e9 + e10 + e11 + e12, e13, t);
    lemma_avoid_concat(e1 + e2 + e3 + e4 + e5 + e6 + e7 + e8 + e9 + e10 + e11 + e12 + e13, e14, t);
    assert(f.optional_tables() == e1 + e2 + e3 + e4 + e5 + e6 + e7 + e8 + e9 + e10 + e11 + e12 + e13
        + e14) by {
        reveal(Font::optional_tables);
    }
}

/// Raw tables whose tags `read` does not know avoid every tag it knows.
proof fn lemma_raw_avoid(f: Font, t: Seq<u8>)
    requires
        known_tag(t),
        forall|i: int| 0 <= i < f.raw_tables@.len() ==> !known_tag(#[trigger] f.raw_tables@[i].0.0@),
    ensures
        tags_avoid(raw_entries(f.raw_tables@), t),
{
    assert forall|j: int| 0 <= j < f.raw_tables@.len() implies #[trigger] raw_entries(f.raw_tables@)[j].0
        != t by {
        assert(!known_tag(f.raw_tables@[j].0.0@));
    }
}

/// Where `write` gathers each table: the eight required ones first,
/// then the optional ones, then `glyf` and `loca`, then the raw tables.
#[verifier::spinoff_prover]
proof fn lemma_list_parts(f: Font)
    ensures
        ({
            let l = f.table_list();
            let opt = f.optional_tables();
            let gt = f.glyph_tables();
            let raw = raw_entries(f.raw_tables@);
            &&& l == f.base_tables() + opt + gt + raw
            &&& l.len() == 8 + opt.len() + gt.len() + raw.len()
            &&& l[7] == entry(seq![0x68u8, 0x6d, 0x74, 0x78], f.hmtx_data())
            &&& forall|j: int| 0 <= j < opt.len() ==> #[trigger] l[8 + j] == opt[j]
            &&& forall|j: int| 0 <= j < gt.len() ==> #[trigger] l[8 + opt.len() + j] == gt[j]
        }),
{
    let base = f.base_tables();
    let opt = f.optional_tables();
    let gt = f.glyph_tables();
    let raw = raw_entries(f.raw_tables@);
    let l = f.table_list();
    assert(l == base + opt + gt + raw);
    assert(base.len() == 8);
    assert(l[7] == base[7]);
    assert forall|j: int| 0 <= j < opt.len() implies #[trigger] l[8 + j] == opt[j] by {
        assert((base + opt)[8 + j] == opt[j]);
        assert((base + opt + gt)[8 + j] == (base + opt)[8 + j]);
    }
    assert forall|j: int| 0 <= j < gt.len() implies #[trigger] l[8 + opt.len() + j] == gt[j] by {
        assert((base + opt + gt)[8 + opt.len() + j] == gt[j]);
    }
}

/// The `head` that `read` finds in a written file lies inside it, with the
/// `loca` format that `write` gave it.
#[verifier::spinoff_prover]
#[verifier::rlimit(40)]
proof fn lemma_head_found(f: Font)
    requires
        file_fits(sort_by_tag(f.table_list())),
    ensures
        ({
            let a = adjusted_file(f.sfnt_version, sort_by_tag(f.table_list()));
            let recs = records_of(a, be_u16(a, 4) as nat);
            let at = offset_of(recs, head_tag());
            &&& find_spec(recs, head_tag()) is Some
            &&& at + 54 <= a.len()
            &&& Head::decode(a.subrange(at, at + 54)).index_to_loc_format
                == f.written_head().index_to_loc_format
        }),
{
    let l = f.table_list();
    let v = f.sfnt_version;
    lemma_table_list_four(f);
    lemma_list_front(f);
    lemma_front_data(f);
    lemma_written_directory(v, l);
    assert(l[1].0 == hhea_tag());
    lemma_sorted_head_hhea(l);
    let s = sort_by_tag(l);
    let n = s.len() as int;
    let ih = first_with_tag(s, head_tag())->0;
    let a = adjusted_file(v, s);
    let e = f.written_head().encode();
    let w = u32_bytes(adjustment(whole_word_checksum(unadjusted_file(v, s))));
    lemma_adjusted_records(v, s, ih);
    let recs = records_of(a, s.len());
    let rt = record_tags(recs);
    assert forall|k: int| 0 <= k < n implies #[trigger] rt[k].0 == s[k].0 by {
        assert(recs[k].tag.0@ == s[k].0);
    }
    lemma_first_same_tags(rt, s, head_tag());
    assert(find_spec(recs, head_tag()) == Some(recs[ih]));
    lemma_adjusted_head(v, s, ih, e);
    lemma_head_patched(e, w);
    crate::tables::head::lemma_head_roundtrip(f.written_head());
}

/// The `hhea` that `read` finds in a written file lies inside it and
/// reads as the font's own.
#[verifier::spinoff_prover]
proof fn lemma_hhea_found(f: Font)
    requires
        file_fits(sort_by_tag(f.table_list())),
    ensures
        ({
            let a = adjusted_file(f.sfnt_version, sort_by_tag(f.table_list()));
            let recs = records_of(a, be_u16(a, 4) as nat);
            let at = offset_of(recs, hhea_tag());
            &&& find_spec(recs, hhea_tag()) is Some
            &&& at + 36 <= a.len()
            &&& Hhea::decode(a.subrange(at, at + 36)) == f.hhea
        }),
{
    let l = f.table_list();
    let v = f.sfnt_version;
    lemma_table_list_four(f);
    lemma_list_front(f);
    lemma_front_data(f);
    assert forall|j: int| 0 <= j < 1 implies #[trigger] l[j].0 != hhea_tag() by {
        assert(l[j].0[1] != hhea_tag()[1]);
    }
    lemma_table_placed(v, l, 1, hhea_tag());
    let a = adjusted_file(v, sort_by_tag(l));
    let recs = records_of(a, be_u16(a, 4) as nat);
    lemma_placed_facts(a, offset_of(recs, hhea_tag()), l[1].1);
    crate::tables::hhea::lemma_hhea_roundtrip(f.hhea);
}

/// The `maxp` that `read` finds in a written file reads as the font's own,
/// and its size for its version lies inside the file.
#[verifier::spinoff_prover]
proof fn lemma_maxp_found(f: Font)
    requires
        file_fits(sort_by_tag(f.table_list())),
        f.maxp.limits_match_version(),
    ensures
        ({
            let a = adjusted_file(f.sfnt_version, sort_by_tag(f.table_list()));
            let recs = records_of(a, be_u16(a, 4) as nat);
            let at = offset_of(recs, maxp_tag());
            &&& find_spec(recs, maxp_tag()) is Some
            &&& Maxp::decode(a.subrange(at, a.len() as int)) == f.maxp
            &&& at + maxp_size(f.maxp.version) <= a.len()
        }),
{
    let l = f.table_list();
    let v = f.sfnt_version;
    lemma_table_list_four(f);
    lemma_list_front(f);
    lemma_front_data(f);
    assert forall|j: int| 0 <= j < 2 implies #[trigger] l[j].0 != maxp_tag() by {
        assert(l[j].0[0] != maxp_tag()[0]);
    }
    lemma_table_placed(v, l, 2, maxp_tag());
    let a = adjusted_file(v, sort_by_tag(l));
    let recs = records_of(a, be_u16(a, 4) as nat);
    let at = offset_of(recs, maxp_tag());
    reveal(Font::maxp_data);
    let em = f.maxp.encode();
    lemma_placed_facts(a, at, l[2].1);
    lemma_tail_after(a, at, l[2].1);
    let rest = a.subrange(at + l[2].1.len(), a.len() as int);
    assert(l[2].1 + rest =~= em + (zeros(pad_len(em.len())) + rest));
    crate::tables::maxp::lemma_maxp_prefix(f.maxp, zeros(pad_len(em.len())) + rest);
    crate::tables::maxp::lemma_maxp_roundtrip(f.maxp);
}

/// The `OS/2` that `read` finds in a written file reads as the font's own,
/// and its size for its version lies inside the file.
#[verifier::spinoff_prover]
#[verifier::rlimit(100)]
proof fn lemma_os2_found(f: Font)
    requires
        file_fits(sort_by_tag(f.table_list())),
        f.os2.fields_match_version(),
    ensures
        ({
            let a = adjusted_file(f.sfnt_version, sort_by_tag(f.table_list()));
            let recs = records_of(a, be_u16(a, 4) as nat);
            let at = offset_of(recs, os2_tag());
            &&& find_spec(recs, os2_tag()) is Some
            &&& Os2::decode(a.subrange(at, a.len() as int)) == f.os2
            &&& at + 78 <= a.len()
            &&& at + os2_size(f.os2.version) <= a.len()
        }),
{
    let l = f.table_list();
    let v = f.sfnt_version;
    lemma_table_list_four(f);
    lemma_list_front(f);
    lemma_front_data(f);
    assert forall|j: int| 0 <= j < 6 implies #[trigger] l[j].0 != os2_tag() by {
        assert(l[j].0[0] != os2_tag()[0]);
    }
    lemma_table_placed(v, l, 6, os2_tag());
    let a = adjusted_file(v, sort_by_tag(l));
    let recs = records_of(a, be_u16(a, 4) as nat);
    let at = offset_of(recs, os2_tag());
    reveal(Font::os2_data);
    let eo = f.os2.encode();
    lemma_placed_facts(a, at, l[6].1);
    lemma_tail_after(a, at, l[6].1);
    let rest = a.subrange(at + l[6].1.len(), a.len() as int);
    assert(l[6].1 + rest =~= eo + (zeros(pad_len(eo.len())) + rest));
    crate::tables::os2::lemma_os2_prefix(f.os2, zeros(pad_len(eo.len())) + rest);
    crate::tables::os2::lemma_os2_roundtrip(f.os2);
}

/// The `post` that `read` finds in a written file fits what it reads.
#[verifier::spinoff_prover]
proof fn lemma_post_found(f: Font)
    requires
        file_fits(sort_by_tag(f.table_list())),
        post_round_trips(f.post),
    ensures
        ({
            let a = adjusted_file(f.sfnt_version, sort_by_tag(f.table_list()));
            let recs = records_of(a, be_u16(a, 4) as nat);
            let at = offset_of(recs, post_tag());
            &&& find_spec(recs, post_tag()) is Some
            &&& post_fits(a, at)
        }),
{
    let l = f.table_list();
    let v = f.sfnt_version;
    let t = post_tag();
    lemma_table_list_four(f);
    lemma_list_front(f);
    lemma_list_parts(f);
    lemma_front_data(f);
    assert forall|j: int| 0 <= j < 3 implies #[trigger] l[j].0 != t by {
        assert(l[j].0[0] != t[0]);
    }
    lemma_table_placed(v, l, 3, t);
    let a = adjusted_file(v, sort_by_tag(l));
    let recs = records_of(a, be_u16(a, 4) as nat);
    let at = offset_of(recs, t);
    let d = f.post_data();
    assert(l[3].1 == d + zeros(pad_len(d.len())));
    lemma_placed_concat(a, at, d, zeros(pad_len(d.len())));
    reveal(Font::post_data);
    lemma_post_fits_at(f.post, a, at);
}

/// The `name` that `read` finds in a written file fits what it reads.
#[verifier::spinoff_prover]
proof fn lemma_name_found(f: Font)
    requires
        file_fits(sort_by_tag(f.table_list())),
        name_round_trips(f.name),
    ensures
        ({
            let a = adjusted_file(f.sfnt_version, sort_by_tag(f.table_list()));
            let recs = records_of(a, be_u16(a, 4) as nat);
            let at = offset_of(recs, seq![0x6eu8, 0x61, 0x6d, 0x65]);
            &&& find_spec(recs, seq![0x6eu8, 0x61, 0x6d, 0x65]) is Some
            &&& name_fits(a, at)
        }),
{
    let l = f.table_list();
    let v = f.sfnt_version;
    let t = seq![0x6eu8, 0x61, 0x6d, 0x65];
    lemma_table_list_four(f);
    lemma_list_front(f);
    lemma_list_parts(f);
    lemma_front_data(f);
    assert forall|j: int| 0 <= j < 4 implies #[trigger] l[j].0 != t by {
        assert(l[j].0[0] != t[0]);
    }
    lemma_table_placed(v, l, 4, t);
    let a = adjusted_file(v, sort_by_tag(l));
    let recs = records_of(a, be_u16(a, 4) as nat);
    let at = offset_of(recs, t);
    let d = f.name_data();
    assert(l[4].1 == d + zeros(pad_len(d.len())));
    lemma_placed_concat(a, at, d, zeros(pad_len(d.len())));
    reveal(Font::name_data);
    lemma_name_read_back_at(f.name, a, at);
}

/// The `cmap` that `read` finds in a written file fits what it reads.
#[verifier::spinoff_prover]
proof fn lemma_cmap_found(f: Font)
    requires
        file_fits(sort_by_tag(f.table_list())),
        cmap_round_trips(f.cmap),
    ensures
        ({
            let a = adjusted_file(f.sfnt_version, sort_by_tag(f.table_list()));
            let recs = records_of(a, be_u16(a, 4) as nat);
            let at = offset_of(recs, seq![0x63u8, 0x6d, 0x61, 0x70]);
            &&& find_spec(recs, seq![0x63u8, 0x6d, 0x61, 0x70]) is Some
            &&& cmap_fits(a, at)
        }),
{
    let l = f.table_list();
    let v = f.sfnt_version;
    let t = seq![0x63u8, 0x6d, 0x61, 0x70];
    lemma_table_list_four(f);
    lemma_list_front(f);
    lemma_list_parts(f);
    lemma_front_data(f);
    assert forall|j: int| 0 <= j < 5 implies #[trigger] l[j].0 != t by {
        assert(l[j].0[0] != t[0]);
    }
    lemma_table_placed(v, l, 5, t);
    let a = adjusted_file(v, sort_by_tag(l));
    let recs = records_of(a, be_u16(a, 4) as nat);
    let at = offset_of(recs, t);
    let d = f.cmap_data();
    assert(l[5].1 == d + zeros(pad_len(d.len())));
    lemma_placed_concat(a, at, d, zeros(pad_len(d.len())));
    reveal(Font::cmap_data);
    lemma_cmap_read_back_at(f.cmap, a, at);
}

/// The `hmtx` that `read` finds in a written file lies inside it, whole.
#[verifier::spinoff_prover]
proof fn lemma_hmtx_found(f: Font)
    requires
        file_fits(sort_by_tag(f.table_list())),
    ensures
        ({
            let a = adjusted_file(f.sfnt_version, sort_by_tag(f.table_list()));
            let recs = records_of(a, be_u16(a, 4) as nat);
            let at = offset_of(recs, seq![0x68u8, 0x6d, 0x74, 0x78]);
            &&& find_spec(recs, seq![0x68u8, 0x6d, 0x74, 0x78]) is Some
            &&& at + 4 * f.hmtx.h_metrics@.len() + 2 * f.hmtx.left_side_bearings@.len() <= a.len()
        }),
{
    let l = f.table_list();
    let v = f.sfnt_version;
    let t = seq![0x68u8, 0x6d, 0x74, 0x78];
    lemma_table_list_four(f);
    lemma_list_front(f);
    lemma_list_parts(f);
    lemma_front_data(f);
    assert forall|j: int| 0 <= j < 7 implies #[trigger] l[j].0 != t by {
        assert(l[j].0[0] != t[0] || l[j].0[1] != t[1]);
    }
    lemma_table_placed(v, l, 7, t);
    let a = adjusted_file(v, sort_by_tag(l));
    let recs = records_of(a, be_u16(a, 4) as nat);
    let at = offset_of(recs, t);
    let d = f.hmtx_data();
    assert(l[7].1 == d + zeros(pad_len(d.len())));
    lemma_placed_concat(a, at, d, zeros(pad_len(d.len())));
    reveal(Font::hmtx_data);
    lemma_hmtx_len(f.hmtx);
    lemma_placed_facts(a, at, d);
}

/// With no `kern` (or no `glyf`), and raw tables whose tags `read` does
/// not know, no table that `write` gathers has that tag.
#[verifier::spinoff_prover]
proof fn lemma_list_avoid(f: Font, t: Seq<u8>)
    requires
        (t == seq![0x6bu8, 0x65, 0x72, 0x6e] && f.kern is None) || (t == seq![
            0x67u8,
            0x6c,
            0x79,
            0x66,
        ] && f.glyf is None),
        forall|i: int| 0 <= i < f.raw_tables@.len() ==> !known_tag(#[trigger] f.raw_tables@[i].0.0@),
    ensures
        tags_avoid(f.table_list(), t),
{
    let base = f.base_tables();
    let gt = f.glyph_tables();
    lemma_list_parts(f);
    assert(tags_avoid(base, t)) by {
        assert forall|j: int| 0 <= j < base.len() implies #[trigger] base[j].0 != t by {
            assert(base[j].0[0] != t[0]);
        }
    }
    lemma_optional_avoid(f, t);
    assert(tags_avoid(gt, t)) by {
        if f.glyf is Some {
            assert(gt[0].0[0] != t[0]);
            assert(gt[1].0[0] != t[0]);
        }
    }
    lemma_raw_avoid(f, t);
    lemma_avoid_concat(base, f.optional_tables(), t);
    lemma_avoid_concat(base + f.optional_tables(), gt, t);
    lemma_avoid_concat(base + f.optional_tables() + gt, raw_entries(f.raw_tables@), t);
}

/// A table the font writes, the first with its tag, lies in the written
/// file where the directory that `read` reads points, without its padding.
#[verifier::spinoff_prover]
proof fn lemma_entry_at(f: Font, idx: int, t: Seq<u8>, d: Seq<u8>)
    requires
        file_fits(sort_by_tag(f.table_list())),
        1 <= idx < f.table_list().len(),
        f.table_list()[idx] == entry(t, d),
        forall|j: int| 0 <= j < idx ==> #[trigger] f.table_list()[j].0 != t,
    ensures
        ({
            let a = adjusted_file(f.sfnt_version, sort_by_tag(f.table_list()));
            let recs = records_of(a, be_u16(a, 4) as nat);
            &&& find_spec(recs, t) is Some
            &&& placed(a, offset_of(recs, t), d)
        }),
{
    let l = f.table_list();
    lemma_table_list_four(f);
    lemma_list_front(f);
    lemma_front_data(f);
    lemma_table_placed(f.sfnt_version, l, idx, t);
    let a = adjusted_file(f.sfnt_version, sort_by_tag(l));
    let recs = records_of(a, be_u16(a, 4) as nat);
    lemma_placed_concat(a, offset_of(recs, t), d, zeros(pad_len(d.len())));
}

/// Where `write` puts a `kern` that the font has.
#[verifier::spinoff_prover]
proof fn lemma_kern_entry(f: Font, k: Kern)
    requires
        f.kern == Some(k),
    ensures
        f.table_list()[8] == entry(seq![0x6bu8, 0x65, 0x72, 0x6e], k.encode()),
        8 < f.table_list().len(),
        forall|j: int| 0 <= j < 8 ==> #[trigger] f.table_list()[j].0 != seq![0x6bu8, 0x65, 0x72, 0x6e],
{
    let l = f.table_list();
    let t = seq![0x6bu8, 0x65, 0x72, 0x6e];
    lemma_list_front(f);
    lemma_list_parts(f);
    let opt = f.optional_tables();
    assert(opt[0] == entry(t, k.encode()) && opt.len() >= 1) by {
        reveal(Font::optional_tables);
    }
    assert forall|j: int| 0 <= j < 8 implies #[trigger] l[j].0 != t by {
        assert(l[j].0[0] != t[0]);
    }
}

/// A `kern` that the font has fits what `read` reads where it finds it.
proof fn lemma_kern_present(f: Font, k: Kern)
    requires
        file_fits(sort_by_tag(f.table_list())),
        f.kern == Some(k),
        k.writable(),
        k.subtables@.len() <= u16::MAX,
    ensures
        ({
            let a = adjusted_file(f.sfnt_version, sort_by_tag(f.table_list()));
            let recs = records_of(a, be_u16(a, 4) as nat);
            kern_fits(a, offset_of(recs, seq![0x6bu8, 0x65, 0x72, 0x6e]))
        }),
{
    let t = seq![0x6bu8, 0x65, 0x72, 0x6e];
    lemma_kern_entry(f, k);
    lemma_entry_at(f, 8, t, k.encode());
    let a = adjusted_file(f.sfnt_version, sort_by_tag(f.table_list()));
    let recs = records_of(a, be_u16(a, 4) as nat);
    let at = offset_of(recs, t);
    lemma_placed_facts(a, at, k.encode());
    lemma_kern_fits_at(k, a, at);
}

/// With no `kern` (or no `glyf`), and raw tables whose tags `read` does
/// not know, `read` finds no table with that tag in the written file.
#[verifier::spinoff_prover]
proof fn lemma_tag_absent(f: Font, t: Seq<u8>)
    requires
        file_fits(sort_by_tag(f.table_list())),
        (t == seq![0x6bu8, 0x65, 0x72, 0x6e] && f.kern is None) || (t == seq![
            0x67u8,
            0x6c,
            0x79,
            0x66,
        ] && f.glyf is None),
        forall|i: int| 0 <= i < f.raw_tables@.len() ==> !known_tag(#[trigger] f.raw_tables@[i].0.0@),
    ensures
        ({
            let a = adjusted_file(f.sfnt_version, sort_by_tag(f.table_list()));
            find_spec(records_of(a, be_u16(a, 4) as nat), t) is None
        }),
{
    let l = f.table_list();
    lemma_table_list_four(f);
    lemma_list_front(f);
    lemma_front_data(f);
    lemma_list_avoid(f, t);
    lemma_table_absent(f.sfnt_version, l, t);
}

/// The `kern` that `read` finds in a written file, if any, fits what it
/// reads.
#[verifier::spinoff_prover]
proof fn lemma_kern_found(f: Font)
    requires
        file_fits(sort_by_tag(f.table_list())),
        f.kern matches Some(k) ==> k.writable() && k.subtables@.len() <= u16::MAX,
        forall|i: int| 0 <= i < f.raw_tables@.len() ==> !known_tag(#[trigger] f.raw_tables@[i].0.0@),
    ensures
        ({
            let a = adjusted_file(f.sfnt_version, sort_by_tag(f.table_list()));
            let recs = records_of(a, be_u16(a, 4) as nat);
            let t = seq![0x6bu8, 0x65, 0x72, 0x6e];
            find_spec(recs, t) is Some ==> kern_fits(a, offset_of(recs, t))
        }),
{
    match f.kern {
        Some(k) => {
            lemma_kern_present(f, k);
        },
        None => {
            lemma_tag_absent(f, seq![0x6bu8, 0x65, 0x72, 0x6e]);
        },
    }
}

/// Where `write` puts `glyf` and `loca` for a font that has outlines.
#[verifier::spinoff_prover]
proof fn lemma_glyf_entries(f: Font, g: GlyfTable)
    requires
        f.glyf == Some(g),
    ensures
        ({
            let l = f.table_list();
            let i0 = 8 + f.optional_tables().len() as int;
            &&& 1 <= i0
            &&& i0 + 1 < l.len()
            &&& l[i0] == entry(seq![0x67u8, 0x6c, 0x79, 0x66], glyphs_bytes(g.glyphs@, g.glyphs@.len() as int))
            &&& l[i0 + 1] == entry(seq![0x6cu8, 0x6f, 0x63, 0x61], encode_offsets(glyph_offsets(g), 1))
            &&& forall|j: int| 0 <= j < i0 ==> #[trigger] l[j].0 != seq![0x67u8, 0x6c, 0x79, 0x66]
            &&& forall|j: int| 0 <= j < i0 + 1 ==> #[trigger] l[j].0 != seq![0x6cu8, 0x6f, 0x63, 0x61]
        }),
{
    let l = f.table_list();
    let tg = seq![0x67u8, 0x6c, 0x79, 0x66];
    let tl = seq![0x6cu8, 0x6f, 0x63, 0x61];
    let opt = f.optional_tables();
    let i0 = 8 + opt.len() as int;
    lemma_list_parts(f);
    lemma_optional_avoid(f, tg);
    lemma_optional_avoid(f, tl);
    let base = f.base_tables();
    assert(l[i0] == f.glyph_tables()[0]);
    assert(l[i0 + 1] == f.glyph_tables()[1]);
    assert forall|j: int| 0 <= j < i0 implies #[trigger] l[j].0 != tg && l[j].0 != tl by {
        if j < 8 {
            assert(l[j] == base[j]);
            assert(base[j].0[0] != tg[0]);
            assert(base[j].0[0] != tl[0]);
        } else {
            assert(l[8 + (j - 8)] == opt[j - 8]);
        }
    }
    assert(l[i0].0[0] != tl[0]);
}

/// The `glyf` and `loca` that `read` finds in a written file with outlines
/// fit what it reads: the offsets, with the glyph count of `maxp` and the
/// offset format of `head`, and every glyph between them.
#[verifier::spinoff_prover]
proof fn lemma_outlines_present(f: Font, g: GlyfTable)
    requires
        file_fits(sort_by_tag(f.table_list())),
        f.glyf == Some(g),
        outlines_round_trip(g),
        g.glyphs@.len() == f.maxp.num_glyphs,
        f.maxp.limits_match_version(),
    ensures
        ({
            let a = adjusted_file(f.sfnt_version, sort_by_tag(f.table_list()));
            let recs = records_of(a, be_u16(a, 4) as nat);
            let head_at = offset_of(recs, seq![0x68u8, 0x65, 0x61, 0x64]);
            let maxp_at = offset_of(recs, seq![0x6du8, 0x61, 0x78, 0x70]);
            let glyf_at = offset_of(recs, seq![0x67u8, 0x6c, 0x79, 0x66]);
            let loca_at = offset_of(recs, seq![0x6cu8, 0x6f, 0x63, 0x61]);
            let head = Head::decode(a.subrange(head_at, head_at + 54));
            let ng = Maxp::decode(a.subrange(maxp_at, a.len() as int)).num_glyphs;
            let long = head.index_to_loc_format == 1;
            let offs = loca_offsets(a, loca_at, ng as nat, long);
            &&& loca_fits(a, loca_at, ng as int, long)
            &&& forall|i: int|
                0 <= i < ng ==> #[trigger] glyph_readable(a, glyf_at, offs[i] as int, offs[i + 1] as int)
        }),
{
    let l = f.table_list();
    let tg = seq![0x67u8, 0x6c, 0x79, 0x66];
    let tl = seq![0x6cu8, 0x6f, 0x63, 0x61];
    lemma_head_found(f);
    lemma_maxp_found(f);
    lemma_glyf_entries(f, g);
    let i0 = 8 + f.optional_tables().len() as int;
    lemma_entry_at(f, i0, tg, glyphs_bytes(g.glyphs@, g.glyphs@.len() as int));
    lemma_entry_at(f, i0 + 1, tl, encode_offsets(glyph_offsets(g), 1));
    let a = adjusted_file(f.sfnt_version, sort_by_tag(l));
    let recs = records_of(a, be_u16(a, 4) as nat);
    assert(head_tag() == seq![0x68u8, 0x65, 0x61, 0x64]);
    assert(maxp_tag() == seq![0x6du8, 0x61, 0x78, 0x70]);
    lemma_outlines_fit_at(g, a, offset_of(recs, tg), offset_of(recs, tl));
}

/// The `glyf` and `loca` that `read` finds in a written file, when it
/// finds both, fit what it reads.
#[verifier::spinoff_prover]
proof fn lemma_outlines_found(f: Font)
    requires
        file_fits(sort_by_tag(f.table_list())),
        f.glyf matches Some(g) ==> outlines_round_trip(g) && g.glyphs@.len() == f.maxp.num_glyphs,
        f.maxp.limits_match_version(),
        forall|i: int| 0 <= i < f.raw_tables@.len() ==> !known_tag(#[trigger] f.raw_tables@[i].0.0@),
    ensures
        ({
            let a = adjusted_file(f.sfnt_version, sort_by_tag(f.table_list()));
            let recs = records_of(a, be_u16(a, 4) as nat);
            let head_at = offset_of(recs, seq![0x68u8, 0x65, 0x61, 0x64]);
            let maxp_at = offset_of(recs, seq![0x6du8, 0x61, 0x78, 0x70]);
            let glyf_at = offset_of(recs, seq![0x67u8, 0x6c, 0x79, 0x66]);
            let loca_at = offset_of(recs, seq![0x6cu8, 0x6f, 0x63, 0x61]);
            let head = Head::decode(a.subrange(head_at, head_at + 54));
            let ng = Maxp::decode(a.subrange(maxp_at, a.len() as int)).num_glyphs;
            let long = head.index_to_loc_format == 1;
            let offs = loca_offsets(a, loca_at, ng as nat, long);
            find_spec(recs, seq![0x67u8, 0x6c, 0x79, 0x66]) is Some && find_spec(
                recs,
                seq![0x6cu8, 0x6f, 0x63, 0x61],
            ) is Some ==> {
                &&& loca_fits(a, loca_at, ng as int, long)
                &&& forall|i: int|
                    0 <= i < ng ==> #[trigger] glyph_readable(a, glyf_at, offs[i] as int, offs[i + 1] as int)
            }
        }),
{
    match f.glyf {
        Some(g) => {
            lemma_outlines_present(f, g);
        },
        None => {
            lemma_tag_absent(f, seq![0x67u8, 0x6c, 0x79, 0x66]);
        },
    }
}

/// What a font needs for `read` to read back what `write` writes of it:
/// each table's own round-trip conditions (16- and 32-bit fields that hold
/// their counts, 24-bit values, names of at most 255 bytes, optional
/// fields present exactly for their version); an `hmtx` that holds the
/// metrics and bearings that `hhea` and `maxp` count; outlines with as
/// many glyphs as `maxp` counts, each readable from its bytes; and raw
/// tables whose tags `read` does not take for tables it knows.
pub open spec fn font_round_trips(f: Font) -> bool {
    &&& name_round_trips(f.name)
    &&& cmap_round_trips(f.cmap)
    &&& post_round_trips(f.post)
    &&& f.maxp.limits_match_version()
    &&& f.os2.fields_match_version()
    &&& 4 * f.hhea.number_of_hmetrics + 2 * extra_glyphs(f.hhea.number_of_hmetrics, f.maxp.num_glyphs)
        <= 4 * f.hmtx.h_metrics@.len() + 2 * f.hmtx.left_side_bearings@.len()
    &&& f.kern matches Some(k) ==> k.subtables@.len() <= u16::MAX
    &&& f.glyf matches Some(g) ==> outlines_round_trip(g) && g.glyphs@.len() == f.maxp.num_glyphs
    &&& forall|i: int| 0 <= i < f.raw_tables@.len() ==> !known_tag(#[trigger] f.raw_tables@[i].0.0@)
}

/// The directory and the fixed-size tables of a written font are as
/// `read` needs them.
#[verifier::spinoff_prover]
#[verifier::rlimit(100)]
proof fn lemma_reads_front(f: Font)
    requires
        file_fits(sort_by_tag(f.table_list())),
        font_round_trips(f),
    ensures
        ({
            let s = adjusted_file(f.sfnt_version, sort_by_tag(f.table_list()));
            let recs = records_of(s, be_u16(s, 4) as nat);
            let head_at = offset_of(recs, seq![0x68u8, 0x65, 0x61, 0x64]);
            let hhea_at = offset_of(recs, seq![0x68u8, 0x68, 0x65, 0x61]);
            let maxp_at = offset_of(recs, seq![0x6du8, 0x61, 0x78, 0x70]);
            let os2_at = offset_of(recs, seq![0x4fu8, 0x53, 0x2f, 0x32]);
            let maxp = Maxp::decode(s.subrange(maxp_at, s.len() as int));
            let os2 = Os2::decode(s.subrange(os2_at, s.len() as int));
            &&& directory_fits(s)
            &&& forall|t: Seq<u8>| required_tag(t) ==> #[trigger] find_spec(recs, t) is Some
            &&& head_at + 54 <= s.len()
            &&& hhea_at + 36 <= s.len()
            &&& maxp_at + maxp_size(maxp.version) <= s.len()
            &&& os2_at + 78 <= s.len() && os2_at + os2_size(os2.version) <= s.len()
            &&& raw_fits(s, recs)
        }),
{
    let l = f.table_list();
    let v = f.sfnt_version;
    let a = adjusted_file(v, sort_by_tag(l));
    let recs = records_of(a, be_u16(a, 4) as nat);
    lemma_table_list_four(f);
    lemma_list_front(f);
    lemma_front_data(f);
    lemma_written_directory(v, l);
    lemma_head_found(f);
    lemma_hhea_found(f);
    lemma_maxp_found(f);
    lemma_post_found(f);
    lemma_name_found(f);
    lemma_cmap_found(f);
    lemma_os2_found(f);
    lemma_hmtx_found(f);
    assert(head_tag() == seq![0x68u8, 0x65, 0x61, 0x64]);
    assert(hhea_tag() == seq![0x68u8, 0x68, 0x65, 0x61]);
    assert(maxp_tag() == seq![0x6du8, 0x61, 0x78, 0x70]);
    assert(post_tag() == seq![0x70u8, 0x6f, 0x73, 0x74]);
    assert(os2_tag() == seq![0x4fu8, 0x53, 0x2f, 0x32]);
    assert forall|t: Seq<u8>| required_tag(t) implies #[trigger] find_spec(recs, t) is Some by {}
}

/// The tables of variable size of a written font fit what `read` reads.
#[verifier::spinoff_prover]
#[verifier::rlimit(100)]
proof fn lemma_reads_tables(f: Font)
    requires
        file_fits(sort_by_tag(f.table_list())),
        font_round_trips(f),
        f.kern matches Some(k) ==> k.writable(),
    ensures
        ({
            let s = adjusted_file(f.sfnt_version, sort_by_tag(f.table_list()));
            let recs = records_of(s, be_u16(s, 4) as nat);
            let hhea_at = offset_of(recs, seq![0x68u8, 0x68, 0x65, 0x61]);
            let maxp_at = offset_of(recs, seq![0x6du8, 0x61, 0x78, 0x70]);
            let hmtx_at = offset_of(recs, seq![0x68u8, 0x6d, 0x74, 0x78]);
            let hhea = Hhea::decode(s.subrange(hhea_at, hhea_at + 36));
            let maxp = Maxp::decode(s.subrange(maxp_at, s.len() as int));
            let nh = hhea.number_of_hmetrics;
            let ng = maxp.num_glyphs;
            let extra = if ng > nh {
                ng - nh
            } else {
                0
            };
            &&& post_fits(s, offset_of(recs, seq![0x70u8, 0x6f, 0x73, 0x74]))
            &&& name_fits(s, offset_of(recs, seq![0x6eu8, 0x61, 0x6d, 0x65]))
            &&& cmap_fits(s, offset_of(recs, seq![0x63u8, 0x6d, 0x61, 0x70]))
            &&& nh + extra > 0 ==> hmtx_at + 4 * nh + 2 * extra <= s.len()
            &&& find_spec(recs, seq![0x6bu8, 0x65, 0x72, 0x6e]) is Some ==> kern_fits(
                s,
                offset_of(recs, seq![0x6bu8, 0x65, 0x72, 0x6e]),
            )
        }),
{
    lemma_hhea_found(f);
    lemma_maxp_found(f);
    lemma_post_found(f);
    lemma_name_found(f);
    lemma_cmap_found(f);
    lemma_hmtx_found(f);
    lemma_kern_found(f);
    assert(hhea_tag() == seq![0x68u8, 0x68, 0x65, 0x61]);
    assert(maxp_tag() == seq![0x6du8, 0x61, 0x78, 0x70]);
    assert(post_tag() == seq![0x70u8, 0x6f, 0x73, 0x74]);
}

/// Reading a written font succeeds: for a font that `write` can write and
/// whose tables can each be read back, `read` accepts the bytes `write`
/// produces (the directory, every table it reads, and every raw table).
#[verifier::spinoff_prover]
#[verifier::rlimit(100)]
pub proof fn lemma_written_font_reads(f: Font)
    requires
        f.writable(),
        file_fits(sort_by_tag(f.table_list())),
        font_round_trips(f),
    ensures
        read_succeeds(adjusted_file(f.sfnt_version, sort_by_tag(f.table_list()))),
{
    assert(f.kern matches Some(k) ==> k.writable()) by {
        reveal(Font::writable);
    }
    lemma_reads_front(f);
    lemma_reads_tables(f);
    lemma_outlines_found(f);
}

/// The checksum field of directory entry `k`.
#[verifier::spinoff_prover]
proof fn lemma_dir_checksum(s: Seq<(Seq<u8>, Seq<u8>)>, k: int)
    requires
        0 <= k < s.len(),
        tags_of_four(s),
    ensures
        be_u32(directory(s, s.len() as int), 16 * k + 4) == whole_word_checksum(s[k].1),
{
    let n = s.len() as int;
    let d = directory(s, n);
    let e = dir_entry(s, k);
    let cs = u32_bytes(whole_word_checksum(s[k].1));
    lemma_dir_entry_fields(s, k);
    lemma_directory_prefix(s, 0, n);
    lemma_directory_prefix(s, k + 1, n);
    lemma_directory_prefix(s, k, k + 1);
    assert(directory(s, k + 1) =~= directory(s, k) + e);
    assert(d.subrange(16 * k, 16 * k + 16) =~= e) by {
        assert(d.subrange(16 * k, 16 * k + 16) =~= d.subrange(0, 16 * (k + 1)).subrange(16 * k, 16 * k + 16));
        assert((directory(s, k) + e).subrange(16 * k, 16 * k + 16) =~= e);
    }
    crate::codec::lemma_be_u32_subrange(d, 16 * k, 16 * k + 16, 4);
    let off = (12 + 16 * n + sizes_before(s, k)) as u32;
    let len = s[k].1.len() as u32;
    assert(s[k].0.len() == 4);
    assert(e =~= s[k].0 + (cs + (u32_bytes(off) + u32_bytes(len))));
    crate::codec::lemma_be_u32_add_right(s[k].0, cs + (u32_bytes(off) + u32_bytes(len)), 4);
    crate::codec::lemma_be_u32_add_left(cs, u32_bytes(off) + u32_bytes(len), 0);
    crate::codec::lemma_be_u32_bytes(whole_word_checksum(s[k].1));
}

/// The checksum that the directory `write` lays out gives table `k`: the
/// word sum of its padded bytes.
#[verifier::spinoff_prover]
proof fn lemma_record_checksum(v: SfntVersion, s: Seq<(Seq<u8>, Seq<u8>)>, ih: int, k: int)
    requires
        file_fits(s),
        tags_of_four(s),
        first_with_tag(s, head_tag()) == Some(ih),
        0 <= ih < s.len(),
        s[ih].1.len() == 56,
        0 <= k < s.len(),
    ensures
        record_at(adjusted_file(v, s), 12 + 16 * k).checksum == whole_word_checksum(s[k].1),
{
    let n = s.len() as int;
    let u = unadjusted_file(v, s);
    let a = adjusted_file(v, s);
    let at = 12 + 16 * n + sizes_before(s, ih) + 8;
    let w = u32_bytes(adjustment(whole_word_checksum(u)));
    let h = sfnt_header(v, s.len());
    let d = directory(s, n);
    let b = bodies(s, n);
    lemma_adjusted_layout(v, s, ih);
    lemma_patch_keeps(u, at, w, 0, 12 + 16 * n);
    lemma_prefix_records(a, u, 12 + 16 * n, 12 + 16 * k);
    lemma_directory_prefix(s, 0, n);
    lemma_dir_checksum(s, k);
    assert(h.len() == 12);
    assert(u == h + d + b);
    crate::codec::lemma_be_u32_add_left(h + d, b, 12 + 16 * k + 4);
    crate::codec::lemma_be_u32_add_right(h, d, 12 + 16 * k + 4);
}

/// The directory of the file written from a table list: per record, its
/// tag, an offset that is a multiple of four, bytes inside the file, the
/// padded length and the word sum of those bytes; and records in
/// ascending tag order.
#[verifier::spinoff_prover]
#[verifier::rlimit(60)]
proof fn lemma_list_directory_facts(v: SfntVersion, l: Seq<(Seq<u8>, Seq<u8>)>)
    requires
        tags_of_four(l),
        file_fits(sort_by_tag(l)),
        l.len() >= 2,
        l[0].0 == head_tag(),
        l[0].1.len() == 56,
        l[1].0 == hhea_tag(),
    ensures
        ({
            let s = sort_by_tag(l);
            let a = adjusted_file(v, s);
            let recs = records_of(a, be_u16(a, 4) as nat);
            &&& recs.len() == s.len()
            &&& forall|k: int|
                0 <= k < s.len() ==> {
                    &&& (#[trigger] recs[k]).tag.0@ == s[k].0
                    &&& recs[k].offset % 4 == 0
                    &&& recs[k].offset + recs[k].length <= a.len()
                    &&& recs[k].length == s[k].1.len()
                    &&& recs[k].checksum == whole_word_checksum(s[k].1)
                }
            &&& forall|k: int|
                0 <= k < s.len() && s[k].0 != head_tag() ==> a.subrange(
                    (#[trigger] recs[k]).offset as int,
                    recs[k].offset + recs[k].length,
                ) == s[k].1
        }),
{
    lemma_written_directory(v, l);
    lemma_sorted_head_hhea(l);
    let s = sort_by_tag(l);
    let n = s.len() as int;
    lemma_first_props(s, head_tag());
    let ih = first_with_tag(s, head_tag())->0;
    let a = adjusted_file(v, s);
    lemma_adjusted_records(v, s, ih);
    let recs = records_of(a, s.len());
    assert forall|k: int| 0 <= k < n implies {
        &&& (#[trigger] recs[k]).tag.0@ == s[k].0
        &&& recs[k].offset % 4 == 0
        &&& recs[k].offset + recs[k].length <= a.len()
        &&& recs[k].length == s[k].1.len()
        &&& recs[k].checksum == whole_word_checksum(s[k].1)
    } by {
        lemma_sizes_aligned(s, k);
        lemma_body_at(s, k);
        lemma_record_checksum(v, s, ih, k);
        lemma_adjusted_layout(v, s, ih);
        assert(recs[k] == record_at(a, 12 + 16 * k));
    }
    assert forall|k: int| 0 <= k < n && s[k].0 != head_tag() implies a.subrange(
        (#[trigger] recs[k]).offset as int,
        recs[k].offset + recs[k].length,
    ) == s[k].1 by {
        lemma_adjusted_table(v, s, ih, k);
    }
}

/// The directory of a written font, as `read` reads it: one record per
/// table, in ascending tag order; each record's offset a multiple of four,
/// its bytes inside the file, its length that of the padded table, and
/// its checksum the word sum of those bytes (for `head`, the bytes with
/// its checksum adjustment zeroed); every table but `head` holds exactly
/// the bytes written for it.
#[verifier::spinoff_prover]
pub proof fn lemma_written_directory_facts(f: Font)
    requires
        file_fits(sort_by_tag(f.table_list())),
    ensures
        ({
            let s = sort_by_tag(f.table_list());
            let a = adjusted_file(f.sfnt_version, s);
            let recs = records_of(a, be_u16(a, 4) as nat);
            &&& recs.len() == s.len()
            &&& forall|k: int|
                0 <= k < s.len() ==> {
                    &&& (#[trigger] recs[k]).tag.0@ == s[k].0
                    &&& recs[k].offset % 4 == 0
                    &&& recs[k].offset + recs[k].length <= a.len()
                    &&& recs[k].length == s[k].1.len()
                    &&& recs[k].checksum == whole_word_checksum(s[k].1)
                }
            &&& forall|k: int|
                0 <= k < s.len() && s[k].0 != head_tag() ==> a.subrange(
                    (#[trigger] recs[k]).offset as int,
                    recs[k].offset + recs[k].length,
                ) == s[k].1
            &&& sorted_by_tag(s)
            &&& find_spec(recs, head_tag()) matches Some(r) && r.checksum == whole_word_checksum(
                f.written_head().encode() + zeros(2),
            ) && f.written_head().check_sum_adjustment == 0
        }),
{
    let l = f.table_list();
    let v = f.sfnt_version;
    lemma_table_list_four(f);
    lemma_list_front(f);
    lemma_front_data(f);
    assert(l[1].0 == hhea_tag());
    lemma_list_directory_facts(v, l);
    lemma_sorted_head_hhea(l);
    lemma_sort_keeps_first(l, head_tag());
    let s = sort_by_tag(l);
    let n = s.len() as int;
    let ih = first_with_tag(s, head_tag())->0;
    let a = adjusted_file(v, s);
    let recs = records_of(a, be_u16(a, 4) as nat);
    let rt = record_tags(recs);
    assert forall|k: int| 0 <= k < n implies #[trigger] rt[k].0 == s[k].0 by {
        assert(recs[k].tag.0@ == s[k].0);
    }
    lemma_first_same_tags(rt, s, head_tag());
    assert(find_spec(recs, head_tag()) == Some(recs[ih]));
}

} // verus!
