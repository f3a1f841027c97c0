//! What unpacking gives back of packing: a WOFF file written for a table
//! list unpacks to the plain font file laid out from the same list.
use vstd::prelude::*;
use crate::codec::{be_u16, be_u32, checksum, padded_word, u16_bytes, u32_bytes, word_sum};
use crate::sfnt::{four_byte_tags, plain_bodies, plain_dir, plain_sfnt};
use crate::woff::{
    lengths, orig_lengths, padded_total, woff_bodies, woff_dir, woff_file, woff_fits, woff_header,
    woff_in_file, woff_num_tables, woff_padded_sum, woff_piece, woff_readable, woff_record,
    woff_sfnt, woff_sfnt_bodies, woff_sfnt_dir, woff_sfnt_header, woff_writable, zlib_inflated,
    WOFF_SIGNATURE,
};
use crate::woff2::{
    brotli_inflated, concat_data, dir_at, entry_at, lens_sum, read_known_code, slices_at, tag_code,
    uint_at, uint_bytes, woff2_file, woff2_payload, woff2_stream, woff2_tables, write_dir, write_entry,
    write_index_from, WOFF2_SIGNATURE,
};
use crate::write::{pad_len, zeros};

verus! {

/// Zero bytes that round a table up to four bytes leave its checksum as it
/// was.
pub proof fn lemma_checksum_padded(t: Seq<u8>)
    ensures
        checksum(t) == checksum(t + zeros(pad_len(t.len()))),
{
    let z = t + zeros(pad_len(t.len()));
    let m = ((t.len() + 3) / 4) as nat;
    assert(z.len() == 4 * m);
    assert((z.len() + 3) / 4 == m);
    assert(z.subrange(0, t.len() as int) =~= t);
    assert forall|j: int| t.len() <= j < z.len() implies #[trigger] z[j] == 0 by {}
    lemma_word_sum_same(t, z, m);
}

proof fn lemma_word_sum_same(t: Seq<u8>, z: Seq<u8>, m: nat)
    requires
        t.len() <= z.len(),
        z.subrange(0, t.len() as int) == t,
        forall|j: int| t.len() <= j < z.len() ==> #[trigger] z[j] == 0,
    ensures
        word_sum(t, m) == word_sum(z, m),
    decreases m,
{
    if m > 0 {
        lemma_word_sum_same(t, z, (m - 1) as nat);
        let i = 4 * (m - 1);
        assert forall|j: int| 0 <= j < t.len() implies #[trigger] z[j] == t[j] by {
            assert(z.subrange(0, t.len() as int)[j] == z[j]);
        }
        assert(i + 0 < t.len() ==> z[i + 0] == t[i + 0]);
        assert(i + 1 < t.len() ==> z[i + 1] == t[i + 1]);
        assert(i + 2 < t.len() ==> z[i + 2] == t[i + 2]);
        assert(i + 3 < t.len() ==> z[i + 3] == t[i + 3]);
        assert(t.len() <= i + 0 < z.len() ==> z[i + 0] == 0);
        assert(t.len() <= i + 1 < z.len() ==> z[i + 1] == 0);
        assert(t.len() <= i + 2 < z.len() ==> z[i + 2] == 0);
        assert(t.len() <= i + 3 < z.len() ==> z[i + 3] == 0);
        assert(padded_word(t, i) == padded_word(z, i));
    }
}

proof fn lemma_woff_dir_prefix(tabs: Seq<(Seq<u8>, Seq<u8>)>, comps: Seq<Seq<u8>>, k: int, m: int)
    requires
        0 <= k <= m <= tabs.len(),
        four_byte_tags(tabs),
    ensures
        woff_dir(tabs, comps, m).len() == 20 * m,
        woff_dir(tabs, comps, m).subrange(0, 20 * k) == woff_dir(tabs, comps, k),
    decreases m,
{
    if m > 0 {
        assert(tabs[m - 1].0.len() == 4);
        lemma_woff_dir_prefix(tabs, comps, if k < m { k } else { m - 1 }, m - 1);
        if k < m {
            assert(woff_dir(tabs, comps, m).subrange(0, 20 * k) =~= woff_dir(tabs, comps, m - 1).subrange(
                0,
                20 * k,
            ));
        } else {
            assert(woff_dir(tabs, comps, m).subrange(0, 20 * k) =~= woff_dir(tabs, comps, m));
        }
    }
}

/// The WOFF directory entry of the `k`-th table.
pub open spec fn woff_entry(tabs: Seq<(Seq<u8>, Seq<u8>)>, comps: Seq<Seq<u8>>, k: int) -> Seq<u8> {
    tabs[k].0 + u32_bytes((44 + 20 * tabs.len() + padded_total(lengths(comps), k)) as u32) + u32_bytes(
        comps[k].len() as u32,
    ) + u32_bytes(tabs[k].1.len() as u32) + u32_bytes(checksum(tabs[k].1))
}

/// The four words after a four-byte tag.
proof fn lemma_tag_words(a: Seq<u8>, w1: u32, w2: u32, w3: u32, w4: u32)
    requires
        a.len() == 4,
    ensures
        ({
            let e = a + u32_bytes(w1) + u32_bytes(w2) + u32_bytes(w3) + u32_bytes(w4);
            &&& e.len() == 20
            &&& e.subrange(0, 4) == a
            &&& be_u32(e, 4) == w1
            &&& be_u32(e, 8) == w2
            &&& be_u32(e, 12) == w3
            &&& be_u32(e, 16) == w4
        }),
{
    let (b1, b2, b3, b4) = (u32_bytes(w1), u32_bytes(w2), u32_bytes(w3), u32_bytes(w4));
    let e = a + b1 + b2 + b3 + b4;
    assert(e.subrange(0, 4) =~= a);
    assert(e =~= a + (b1 + (b2 + b3 + b4)));
    crate::codec::lemma_be_u32_add_right(a, b1 + (b2 + b3 + b4), 4);
    crate::codec::lemma_be_u32_add_left(b1, b2 + b3 + b4, 0);
    crate::codec::lemma_be_u32_bytes(w1);
    assert(e =~= (a + b1) + (b2 + (b3 + b4)));
    crate::codec::lemma_be_u32_add_right(a + b1, b2 + (b3 + b4), 8);
    crate::codec::lemma_be_u32_add_left(b2, b3 + b4, 0);
    crate::codec::lemma_be_u32_bytes(w2);
    assert(e =~= (a + b1 + b2) + (b3 + b4));
    crate::codec::lemma_be_u32_add_right(a + b1 + b2, b3 + b4, 12);
    crate::codec::lemma_be_u32_add_left(b3, b4, 0);
    crate::codec::lemma_be_u32_bytes(w3);
    crate::codec::lemma_be_u32_add_right(a + b1 + b2 + b3, b4, 16);
    crate::codec::lemma_be_u32_bytes(w4);
}

proof fn lemma_woff_entry_at(tabs: Seq<(Seq<u8>, Seq<u8>)>, comps: Seq<Seq<u8>>, k: int)
    requires
        0 <= k < tabs.len(),
        four_byte_tags(tabs),
    ensures
        woff_dir(tabs, comps, tabs.len() as int).len() == 20 * tabs.len(),
        woff_dir(tabs, comps, tabs.len() as int).subrange(20 * k, 20 * k + 20) == woff_entry(tabs, comps, k),
{
    let n = tabs.len() as int;
    let d = woff_dir(tabs, comps, n);
    let e = woff_entry(tabs, comps, k);
    lemma_woff_dir_prefix(tabs, comps, k + 1, n);
    lemma_woff_dir_prefix(tabs, comps, k, k + 1);
    assert(tabs[k].0.len() == 4);
    assert(woff_dir(tabs, comps, k + 1) =~= woff_dir(tabs, comps, k) + e);
    assert(d.subrange(20 * k, 20 * k + 20) =~= d.subrange(0, 20 * (k + 1)).subrange(20 * k, 20 * k + 20));
    assert((woff_dir(tabs, comps, k) + e).subrange(20 * k, 20 * k + 20) =~= e);
}

proof fn lemma_woff_entry_fields(tabs: Seq<(Seq<u8>, Seq<u8>)>, comps: Seq<Seq<u8>>, k: int)
    requires
        0 <= k < tabs.len(),
        four_byte_tags(tabs),
    ensures
        ({
            let d = woff_dir(tabs, comps, tabs.len() as int);
            &&& d.len() == 20 * tabs.len()
            &&& forall|j: int| 0 <= j < 4 ==> #[trigger] d[20 * k + j] == tabs[k].0[j]
            &&& be_u32(d, 20 * k + 4) == (44 + 20 * tabs.len() + padded_total(lengths(comps), k)) as u32
            &&& be_u32(d, 20 * k + 8) == comps[k].len() as u32
            &&& be_u32(d, 20 * k + 12) == tabs[k].1.len() as u32
            &&& be_u32(d, 20 * k + 16) == checksum(tabs[k].1)
        }),
{
    let n = tabs.len() as int;
    let d = woff_dir(tabs, comps, n);
    let e = woff_entry(tabs, comps, k);
    lemma_woff_entry_at(tabs, comps, k);
    assert(tabs[k].0.len() == 4);
    lemma_tag_words(
        tabs[k].0,
        (44 + 20 * n + padded_total(lengths(comps), k)) as u32,
        comps[k].len() as u32,
        tabs[k].1.len() as u32,
        checksum(tabs[k].1),
    );
    assert forall|j: int| 0 <= j < 4 implies #[trigger] d[20 * k + j] == tabs[k].0[j] by {
        assert(d.subrange(20 * k, 20 * k + 20)[j] == d[20 * k + j]);
        assert(e.subrange(0, 4)[j] == e[j]);
    }
    crate::codec::lemma_be_u32_subrange(d, 20 * k, 20 * k + 20, 4);
    crate::codec::lemma_be_u32_subrange(d, 20 * k, 20 * k + 20, 8);
    crate::codec::lemma_be_u32_subrange(d, 20 * k, 20 * k + 20, 12);
    crate::codec::lemma_be_u32_subrange(d, 20 * k, 20 * k + 20, 16);
}

proof fn lemma_woff_bodies_prefix(comps: Seq<Seq<u8>>, k: int, m: int)
    requires
        0 <= k <= m <= comps.len(),
    ensures
        woff_bodies(comps, m).len() == padded_total(lengths(comps), m),
        woff_bodies(comps, m).subrange(0, padded_total(lengths(comps), k)) == woff_bodies(comps, k),
    decreases m,
{
    if m > 0 {
        lemma_woff_bodies_prefix(comps, if k < m { k } else { m - 1 }, m - 1);
        assert forall|i: int| 0 <= i < comps.len() implies #[trigger] lengths(comps)[i] >= 0 by {}
        crate::woff::lemma_padded_total_monotone(lengths(comps), if k < m { k } else { m - 1 }, m - 1);
        assert(lengths(comps)[m - 1] == comps[m - 1].len());
        if k < m {
            assert(woff_bodies(comps, m).subrange(0, padded_total(lengths(comps), k)) =~= woff_bodies(
                comps,
                m - 1,
            ).subrange(0, padded_total(lengths(comps), k)));
        } else {
            assert(woff_bodies(comps, m).subrange(0, padded_total(lengths(comps), k)) =~= woff_bodies(
                comps,
                m,
            ));
        }
    }
}

proof fn lemma_woff_body_at(comps: Seq<Seq<u8>>, k: int)
    requires
        0 <= k < comps.len(),
    ensures
        0 <= padded_total(lengths(comps), k),
        padded_total(lengths(comps), k) + comps[k].len() <= padded_total(lengths(comps), comps.len() as int),
        woff_bodies(comps, comps.len() as int).subrange(
            padded_total(lengths(comps), k),
            padded_total(lengths(comps), k) + comps[k].len(),
        ) == comps[k],
{
    let n = comps.len() as int;
    let lens = lengths(comps);
    let p = padded_total(lens, k);
    let l = comps[k].len() as int;
    assert forall|i: int| 0 <= i < comps.len() implies #[trigger] lens[i] >= 0 by {}
    crate::woff::lemma_padded_total_monotone(lens, k + 1, n);
    crate::woff::lemma_padded_total_monotone(lens, 0, k);
    lemma_woff_bodies_prefix(comps, k + 1, n);
    lemma_woff_bodies_prefix(comps, k, k);
    assert(lens[k] == l);
    assert(woff_bodies(comps, n).subrange(p, p + l) =~= woff_bodies(comps, n).subrange(
        0,
        padded_total(lens, k + 1),
    ).subrange(p, p + l));
    assert(woff_bodies(comps, k + 1).subrange(p, p + l) =~= comps[k]);
}

proof fn lemma_woff_header(n: int, total: int, sfnt_size: int)
    requires
        1 <= n <= 4095,
    ensures
        woff_header(n, total, sfnt_size).len() == 44,
        be_u32(woff_header(n, total, sfnt_size), 0) == WOFF_SIGNATURE,
        be_u16(woff_header(n, total, sfnt_size), 12) == n,
{
    let h = woff_header(n, total, sfnt_size);
    let a = u32_bytes(WOFF_SIGNATURE);
    let b = u32_bytes(0x00010000) + u32_bytes(total as u32);
    let c = u16_bytes(n as u16);
    let rest = u16_bytes(0) + u32_bytes(sfnt_size as u32) + u16_bytes(1) + u16_bytes(0) + u32_bytes(0)
        + u32_bytes(0) + u32_bytes(0) + u32_bytes(0) + u32_bytes(0);
    assert(h =~= a + (b + (c + rest)));
    crate::codec::lemma_be_u32_add_left(a, b + (c + rest), 0);
    crate::codec::lemma_be_u32_bytes(WOFF_SIGNATURE);
    assert(h =~= (a + b) + (c + rest));
    crate::codec::lemma_be_u16_add_right(a + b, c + rest, 12);
    crate::codec::lemma_be_u16_add_left(c, rest, 0);
    crate::codec::lemma_be_u16_bytes(n as u16);
}

/// Reading the `k`-th WOFF record of a header, directory and bodies put end
/// to end, from what the directory holds there.
proof fn lemma_woff_record_in(
    h: Seq<u8>,
    d: Seq<u8>,
    b: Seq<u8>,
    n: int,
    k: int,
    tag: Seq<u8>,
    comp: Seq<u8>,
    p: int,
)
    requires
        h.len() == 44,
        0 <= k < n,
        d.len() == 20 * n,
        tag.len() == 4,
        forall|j: int| 0 <= j < 4 ==> #[trigger] d[20 * k + j] == tag[j],
        be_u32(d, 20 * k + 4) == 44 + 20 * n + p,
        be_u32(d, 20 * k + 8) == comp.len(),
        0 <= p,
        p + comp.len() <= b.len(),
        b.subrange(p, p + comp.len() as int) == comp,
    ensures
        ({
            let s = h + d + b;
            let r = woff_record(s, k);
            &&& r.tag.0@ == tag
            &&& r.offset == 44 + 20 * n + p
            &&& r.comp_length == comp.len()
            &&& r.orig_length == be_u32(d, 20 * k + 12)
            &&& r.orig_checksum == be_u32(d, 20 * k + 16)
            &&& woff_in_file(s, k)
            &&& s.subrange(r.offset as int, r.offset + r.comp_length) == comp
        }),
{
    let hd = h + d;
    let s = hd + b;
    let i = 44 + 20 * k;
    let r = woff_record(s, k);
    assert(r.tag.0@ =~= tag) by {
        assert forall|j: int| 0 <= j < 4 implies r.tag.0@[j] == tag[j] by {
            assert(s[i + j] == d[20 * k + j]);
        }
    }
    crate::codec::lemma_be_u32_add_left(hd, b, i + 4);
    crate::codec::lemma_be_u32_add_right(h, d, i + 4);
    crate::codec::lemma_be_u32_add_left(hd, b, i + 8);
    crate::codec::lemma_be_u32_add_right(h, d, i + 8);
    crate::codec::lemma_be_u32_add_left(hd, b, i + 12);
    crate::codec::lemma_be_u32_add_right(h, d, i + 12);
    crate::codec::lemma_be_u32_add_left(hd, b, i + 16);
    crate::codec::lemma_be_u32_add_right(h, d, i + 16);
    let off = r.offset as int;
    let len = comp.len() as int;
    assert(off == hd.len() + p);
    assert forall|j: int| 0 <= j < len implies #[trigger] s.subrange(off, off + len)[j] == comp[j] by {
        assert(s[off + j] == b[p + j]);
        assert(b.subrange(p, p + len)[j] == b[p + j]);
    }
    assert(s.subrange(off, off + len) =~= comp);
}

/// The `k`-th record of a WOFF file written for these tables, whatever its
/// header holds.
proof fn lemma_woff_record_of(tabs: Seq<(Seq<u8>, Seq<u8>)>, comps: Seq<Seq<u8>>, k: int, h: Seq<u8>)
    requires
        woff_writable(tabs, comps),
        four_byte_tags(tabs),
        0 <= k < tabs.len(),
        h.len() == 44,
    ensures
        ({
            let s = h + woff_dir(tabs, comps, tabs.len() as int) + woff_bodies(comps, tabs.len() as int);
            let r = woff_record(s, k);
            &&& r.tag.0@ == tabs[k].0
            &&& r.comp_length == comps[k].len()
            &&& r.orig_length == tabs[k].1.len()
            &&& r.orig_checksum == checksum(tabs[k].1)
            &&& woff_in_file(s, k)
            &&& s.subrange(r.offset as int, r.offset + r.comp_length) == comps[k]
        }),
{
    let n = tabs.len() as int;
    lemma_woff_entry_fields(tabs, comps, k);
    lemma_woff_body_at(comps, k);
    lemma_woff_bodies_prefix(comps, 0, n);
    assert(tabs[k].0.len() == 4);
    assert forall|i: int| 0 <= i < n implies #[trigger] orig_lengths(tabs)[i] >= 0 by {}
    crate::woff::lemma_padded_total_monotone(orig_lengths(tabs), k + 1, n);
    crate::woff::lemma_padded_total_monotone(orig_lengths(tabs), 0, k);
    assert(orig_lengths(tabs)[k] == tabs[k].1.len());
    assert(tabs[k].1.len() <= u32::MAX);
    lemma_woff_record_in(
        h,
        woff_dir(tabs, comps, n),
        woff_bodies(comps, n),
        n,
        k,
        tabs[k].0,
        comps[k],
        padded_total(lengths(comps), k),
    );
}

/// The tables unpack: each compressed form inflates to the table, and none
/// is stored at its own length (which would read as uncompressed).
pub open spec fn inflates_back(tabs: Seq<(Seq<u8>, Seq<u8>)>, comps: Seq<Seq<u8>>) -> bool {
    forall|i: int|
        0 <= i < tabs.len() ==> zlib_inflated(#[trigger] comps[i]) == Some(tabs[i].1) && comps[i].len()
            != tabs[i].1.len()
}

proof fn lemma_woff_sums(tabs: Seq<(Seq<u8>, Seq<u8>)>, comps: Seq<Seq<u8>>, h: Seq<u8>, k: int)
    requires
        woff_writable(tabs, comps),
        four_byte_tags(tabs),
        0 <= k <= tabs.len(),
        h.len() == 44,
    ensures
        woff_padded_sum(
            h + woff_dir(tabs, comps, tabs.len() as int) + woff_bodies(comps, tabs.len() as int),
            k,
        ) == padded_total(orig_lengths(tabs), k),
    decreases k,
{
    if k > 0 {
        lemma_woff_sums(tabs, comps, h, k - 1);
        lemma_woff_record_of(tabs, comps, k - 1, h);
        assert(orig_lengths(tabs)[k - 1] == tabs[k - 1].1.len());
    }
}

proof fn lemma_woff_pieces(tabs: Seq<(Seq<u8>, Seq<u8>)>, comps: Seq<Seq<u8>>, h: Seq<u8>, k: int)
    requires
        woff_writable(tabs, comps),
        four_byte_tags(tabs),
        inflates_back(tabs, comps),
        0 <= k < tabs.len(),
        h.len() == 44,
    ensures
        woff_piece(
            h + woff_dir(tabs, comps, tabs.len() as int) + woff_bodies(comps, tabs.len() as int),
            k,
        ) == Some(tabs[k].1),
{
    lemma_woff_record_of(tabs, comps, k, h);
    assert(zlib_inflated(comps[k]) == Some(tabs[k].1) && comps[k].len() != tabs[k].1.len());
}

proof fn lemma_woff_sfnt_dir_is(tabs: Seq<(Seq<u8>, Seq<u8>)>, comps: Seq<Seq<u8>>, h: Seq<u8>, k: int)
    requires
        woff_writable(tabs, comps),
        four_byte_tags(tabs),
        0 <= k <= tabs.len(),
        h.len() == 44,
        be_u16(h, 12) == tabs.len(),
    ensures
        woff_sfnt_dir(
            h + woff_dir(tabs, comps, tabs.len() as int) + woff_bodies(comps, tabs.len() as int),
            k,
        ) == plain_dir(tabs, k),
    decreases k,
{
    let n = tabs.len() as int;
    let d = woff_dir(tabs, comps, n);
    let b = woff_bodies(comps, n);
    let s = h + d + b;
    crate::codec::lemma_be_u16_add_left(h + d, b, 12);
    crate::codec::lemma_be_u16_add_left(h, d, 12);
    assert(woff_num_tables(s) == n);
    if k > 0 {
        lemma_woff_sfnt_dir_is(tabs, comps, h, k - 1);
        lemma_woff_record_of(tabs, comps, k - 1, h);
        lemma_woff_sums(tabs, comps, h, k - 1);
        lemma_checksum_padded(tabs[k - 1].1);
        let r = woff_record(s, k - 1);
        assert(r.tag.0@ == tabs[k - 1].0);
    }
}

proof fn lemma_woff_sfnt_bodies_is(tabs: Seq<(Seq<u8>, Seq<u8>)>, comps: Seq<Seq<u8>>, h: Seq<u8>, k: int)
    requires
        woff_writable(tabs, comps),
        four_byte_tags(tabs),
        inflates_back(tabs, comps),
        0 <= k <= tabs.len(),
        h.len() == 44,
    ensures
        woff_sfnt_bodies(
            h + woff_dir(tabs, comps, tabs.len() as int) + woff_bodies(comps, tabs.len() as int),
            k,
        ) == plain_bodies(tabs, k),
    decreases k,
{
    if k > 0 {
        lemma_woff_sfnt_bodies_is(tabs, comps, h, k - 1);
        lemma_woff_pieces(tabs, comps, h, k - 1);
    }
}

/// A WOFF file written for a table list, each table compressed with zlib,
/// is one that `read_woff` takes in full, and it unpacks to the font file
/// that `build_sfnt` lays out from the same list. Left out: a table whose
/// zlib stream is exactly as long as the table, which the format reads as
/// stored uncompressed.
pub proof fn lemma_woff_unpacks(tabs: Seq<(Seq<u8>, Seq<u8>)>, comps: Seq<Seq<u8>>)
    requires
        woff_writable(tabs, comps),
        four_byte_tags(tabs),
        inflates_back(tabs, comps),
    ensures
        ({
            let s = woff_file(tabs, comps);
            &&& woff_fits(s)
            &&& woff_readable(s)
            &&& forall|k: int| 0 <= k < tabs.len() ==> #[trigger] woff_piece(s, k) == Some(tabs[k].1)
            &&& woff_sfnt(s) == plain_sfnt(tabs)
        }),
{
    let n = tabs.len() as int;
    let origs = Seq::new(tabs.len(), |i: int| tabs[i].1.len() as int);
    let total = 44 + 20 * n + padded_total(lengths(comps), n);
    let size = 12 + 16 * n + padded_total(origs, n);
    let h = woff_header(n, total, size);
    let d = woff_dir(tabs, comps, n);
    let b = woff_bodies(comps, n);
    let s = h + d + b;
    assert(woff_file(tabs, comps) == s);
    assert(origs =~= orig_lengths(tabs));
    lemma_woff_header(n, total, size);
    lemma_woff_dir_prefix(tabs, comps, 0, n);
    crate::codec::lemma_be_u32_add_left(h + d, b, 0);
    crate::codec::lemma_be_u32_add_left(h, d, 0);
    crate::codec::lemma_be_u16_add_left(h + d, b, 12);
    crate::codec::lemma_be_u16_add_left(h, d, 12);
    assert(woff_num_tables(s) == n);
    assert(woff_fits(s));
    lemma_woff_sums(tabs, comps, h, n);
    assert forall|k: int| 0 <= k < n implies #[trigger] woff_in_file(s, k) by {
        lemma_woff_record_of(tabs, comps, k, h);
    }
    assert(woff_readable(s));
    assert forall|k: int| 0 <= k < n implies #[trigger] woff_piece(s, k) == Some(tabs[k].1) by {
        lemma_woff_pieces(tabs, comps, h, k);
    }
    lemma_woff_sfnt_dir_is(tabs, comps, h, n);
    lemma_woff_sfnt_bodies_is(tabs, comps, h, n);
    let e = crate::math::log2_floor(n as nat);
    assert(woff_sfnt_header(n) =~= u32_bytes(0x00010000) + u16_bytes(n as u16) + u16_bytes(
        (crate::math::pow2(e) * 16) as u16,
    ) + u16_bytes(e as u16) + u16_bytes((n * 16 - crate::math::pow2(e) * 16) as u16));
    assert(woff_sfnt(s) =~= plain_sfnt(tabs));
}

proof fn lemma_uint_at_skip(d: Seq<u8>, q: int)
    requires
        0 <= q <= d.len(),
    ensures
        uint_at(d, q) == uint_at(d.subrange(q, d.len() as int), 0),
{
    let e = d.subrange(q, d.len() as int);
    assert(q + 1 <= d.len() ==> e[0] == d[q]);
    assert(q + 2 <= d.len() ==> e[1] == d[q + 1]);
    assert(q + 3 <= d.len() ==> e[2] == d[q + 2]);
    assert(q + 4 <= d.len() ==> e[3] == d[q + 3]);
}

proof fn lemma_write_index_range(code: u32, i: int)
    requires
        0 <= i,
    ensures
        write_index_from(code, i) matches Some(j) ==> i <= j < 56,
    decreases 56 - i,
{
    if i < 56 {
        lemma_write_index_range(code, i + 1);
    }
}

/// The tag a reader gives back for a tag that `write_woff2` writes: the
/// same four bytes, unless the tag's type number reads as another tag.
pub open spec fn tag_reads_back(t: Seq<u8>) -> bool {
    match write_index_from(tag_code(t), 0) {
        Some(i) => u32_bytes(read_known_code(i as u8)) == t,
        None => true,
    }
}

proof fn lemma_entry_reads_back(d: Seq<u8>, p: int, t: Seq<u8>, len: nat)
    requires
        t.len() == 4,
        len < 0x4000_0000,
        tag_reads_back(t),
        0 <= p,
        p + write_entry(t, len).len() <= d.len(),
        d.subrange(p, p + write_entry(t, len).len()) == write_entry(t, len),
    ensures
        entry_at(d, p) == Some((t, len as u32, p + write_entry(t, len).len())),
{
    let e = write_entry(t, len);
    let ub = uint_bytes(len as u32);
    let end = p + e.len();
    let rest = d.subrange(end, d.len() as int);
    lemma_write_index_range(tag_code(t), 0);
    crate::woff2::lemma_uint_roundtrip(len as u32, rest);
    match write_index_from(tag_code(t), 0) {
        Some(i) => {
            assert(e == seq![i as u8] + ub);
            assert(d[p] == e[0]);
            assert((i as u8) % 64 == i && (i as u8) / 64 == 0);
            lemma_uint_at_skip(d, p + 1);
            assert(d.subrange(p + 1, d.len() as int) =~= ub + rest) by {
                assert forall|j: int| 0 <= j < ub.len() implies d[p + 1 + j] == ub[j] by {
                    assert(d[p + 1 + j] == d.subrange(p, end)[1 + j]);
                }
            }
        },
        None => {
            assert(e == seq![0x3Fu8] + t + ub);
            assert(d[p] == e[0]);
            assert(d.subrange(p + 1, p + 5) =~= t) by {
                assert forall|j: int| 0 <= j < 4 implies d[p + 1 + j] == t[j] by {
                    assert(d[p + 1 + j] == d.subrange(p, end)[1 + j]);
                }
            }
            lemma_uint_at_skip(d, p + 5);
            assert(d.subrange(p + 5, d.len() as int) =~= ub + rest) by {
                assert forall|j: int| 0 <= j < ub.len() implies d[p + 5 + j] == ub[j] by {
                    assert(d[p + 5 + j] == d.subrange(p, end)[5 + j]);
                }
            }
        },
    }
}

/// Tag and length of each of the first `k` tables, as the WOFF2 directory
/// lists them.
pub open spec fn listed_lengths(tabs: Seq<(Seq<u8>, Seq<u8>)>, k: int) -> Seq<(Seq<u8>, u32)> {
    Seq::new(k as nat, |i: int| (tabs[i].0, tabs[i].1.len() as u32))
}

/// What `write_woff2` needs of each table to read it back: a four-byte tag
/// that reads back as itself, and a length below 2^30.
pub open spec fn woff2_listable(tabs: Seq<(Seq<u8>, Seq<u8>)>) -> bool {
    forall|i: int|
        0 <= i < tabs.len() ==> (#[trigger] tabs[i]).0.len() == 4 && tabs[i].1.len() < 0x4000_0000
            && tag_reads_back(tabs[i].0)
}

proof fn lemma_write_dir_prefix(tabs: Seq<(Seq<u8>, Seq<u8>)>, k: int, m: int)
    requires
        0 <= k <= m <= tabs.len(),
    ensures
        write_dir(tabs, k).len() <= write_dir(tabs, m).len(),
        write_dir(tabs, m).subrange(0, write_dir(tabs, k).len() as int) == write_dir(tabs, k),
    decreases m,
{
    if k < m {
        lemma_write_dir_prefix(tabs, k, m - 1);
        assert(write_dir(tabs, m).subrange(0, write_dir(tabs, k).len() as int) =~= write_dir(tabs, m - 1).subrange(
            0,
            write_dir(tabs, k).len() as int,
        ));
    } else {
        assert(write_dir(tabs, m).subrange(0, write_dir(tabs, k).len() as int) =~= write_dir(tabs, m));
    }
}

proof fn lemma_concat_prefix(tabs: Seq<(Seq<u8>, Seq<u8>)>, k: int, m: int)
    requires
        0 <= k <= m <= tabs.len(),
    ensures
        concat_data(tabs, k).len() <= concat_data(tabs, m).len(),
        concat_data(tabs, m).subrange(0, concat_data(tabs, k).len() as int) == concat_data(tabs, k),
    decreases m,
{
    if k < m {
        lemma_concat_prefix(tabs, k, m - 1);
        assert(concat_data(tabs, m).subrange(0, concat_data(tabs, k).len() as int) =~= concat_data(
            tabs,
            m - 1,
        ).subrange(0, concat_data(tabs, k).len() as int));
    } else {
        assert(concat_data(tabs, m).subrange(0, concat_data(tabs, k).len() as int) =~= concat_data(tabs, m));
    }
}

proof fn lemma_lens_sum(tabs: Seq<(Seq<u8>, Seq<u8>)>, k: int)
    requires
        0 <= k <= tabs.len(),
        woff2_listable(tabs),
    ensures
        lens_sum(listed_lengths(tabs, k)) == concat_data(tabs, k).len(),
    decreases k,
{
    if k > 0 {
        lemma_lens_sum(tabs, k - 1);
        assert(listed_lengths(tabs, k).drop_last() =~= listed_lengths(tabs, k - 1));
        assert(tabs[k - 1].1.len() < 0x4000_0000);
    }
}

proof fn lemma_dir_reads(tabs: Seq<(Seq<u8>, Seq<u8>)>, k: int)
    requires
        0 <= k <= tabs.len(),
        woff2_listable(tabs),
    ensures
        dir_at(woff2_payload(tabs), k) == Some((listed_lengths(tabs, k), write_dir(tabs, k).len() as int)),
    decreases k,
{
    if k > 0 {
        let n = tabs.len() as int;
        let d = woff2_payload(tabs);
        lemma_dir_reads(tabs, k - 1);
        lemma_write_dir_prefix(tabs, k, n);
        let t = tabs[k - 1];
        assert(t.0.len() == 4 && t.1.len() < 0x4000_0000 && tag_reads_back(t.0));
        let e = write_entry(t.0, t.1.len());
        let p = write_dir(tabs, k - 1).len() as int;
        assert(write_dir(tabs, k) == write_dir(tabs, k - 1) + e);
        assert(d.subrange(p, p + e.len()) =~= e) by {
            assert forall|j: int| 0 <= j < e.len() implies d[p + j] == e[j] by {
                assert(d[p + j] == write_dir(tabs, n)[p + j]);
                assert(write_dir(tabs, n).subrange(0, write_dir(tabs, k).len() as int)[p + j] == write_dir(
                    tabs,
                    k,
                )[p + j]);
            }
        }
        lemma_entry_reads_back(d, p, t.0, t.1.len());
        assert(listed_lengths(tabs, k - 1).push((t.0, t.1.len() as u32)) =~= listed_lengths(tabs, k));
    }
}

proof fn lemma_slices_read(tabs: Seq<(Seq<u8>, Seq<u8>)>, k: int)
    requires
        0 <= k <= tabs.len(),
        woff2_listable(tabs),
    ensures
        slices_at(
            woff2_payload(tabs),
            listed_lengths(tabs, k),
            write_dir(tabs, tabs.len() as int).len() as int,
        ) == Some(tabs.subrange(0, k)),
    decreases k,
{
    let n = tabs.len() as int;
    let d = woff2_payload(tabs);
    let w = write_dir(tabs, n).len() as int;
    if k == 0 {
        assert(tabs.subrange(0, 0) =~= Seq::<(Seq<u8>, Seq<u8>)>::empty());
    } else {
        lemma_slices_read(tabs, k - 1);
        assert(listed_lengths(tabs, k).drop_last() =~= listed_lengths(tabs, k - 1));
        lemma_lens_sum(tabs, k - 1);
        lemma_concat_prefix(tabs, k, n);
        let c = concat_data(tabs, k - 1).len() as int;
        let t = tabs[k - 1];
        assert(t.1.len() < 0x4000_0000);
        assert(concat_data(tabs, k) == concat_data(tabs, k - 1) + t.1);
        let off = w + c;
        assert(d.subrange(off, off + t.1.len()) =~= t.1) by {
            assert forall|j: int| 0 <= j < t.1.len() implies d[off + j] == t.1[j] by {
                assert(d[off + j] == concat_data(tabs, n)[c + j]);
                assert(concat_data(tabs, n).subrange(0, concat_data(tabs, k).len() as int)[c + j]
                    == concat_data(tabs, k)[c + j]);
            }
        }
        assert(tabs.subrange(0, k - 1).push((t.0, t.1)) =~= tabs.subrange(0, k));
    }
}

proof fn lemma_woff2_header(tabs: Seq<(Seq<u8>, Seq<u8>)>, comp: Seq<u8>)
    requires
        tabs.len() <= u16::MAX,
        48 + comp.len() <= u32::MAX,
    ensures
        ({
            let s = woff2_file(tabs, comp);
            &&& s.len() == 48 + comp.len()
            &&& be_u32(s, 0) == WOFF2_SIGNATURE
            &&& be_u16(s, 12) == tabs.len()
            &&& be_u32(s, 20) == comp.len()
            &&& s.subrange(48, 48 + comp.len() as int) == comp
        }),
{
    let n = tabs.len() as int;
    let s = woff2_file(tabs, comp);
    let sig = u32_bytes(WOFF2_SIGNATURE);
    let a = u32_bytes(0x00010000) + u32_bytes((48 + comp.len()) as u32);
    let cnt = u16_bytes(n as u16);
    let b = u16_bytes(0) + u32_bytes(
        (12 + 16 * n + padded_total(orig_lengths(tabs), n)) as u32,
    );
    let cl = u32_bytes(comp.len() as u32);
    let tail = u16_bytes(1) + u16_bytes(0) + u32_bytes(0) + u32_bytes(0) + u32_bytes(0) + u32_bytes(0)
        + u32_bytes(0);
    let h = sig + a + cnt + b + cl + tail;
    assert(s =~= h + comp);
    assert(h.len() == 48);
    assert(s =~= sig + (a + cnt + b + cl + tail + comp));
    crate::codec::lemma_be_u32_add_left(sig, a + cnt + b + cl + tail + comp, 0);
    crate::codec::lemma_be_u32_bytes(WOFF2_SIGNATURE);
    assert(s =~= (sig + a) + (cnt + (b + cl + tail + comp)));
    crate::codec::lemma_be_u16_add_right(sig + a, cnt + (b + cl + tail + comp), 12);
    crate::codec::lemma_be_u16_add_left(cnt, b + cl + tail + comp, 0);
    crate::codec::lemma_be_u16_bytes(n as u16);
    assert(s =~= (sig + a + cnt + b) + (cl + (tail + comp)));
    crate::codec::lemma_be_u32_add_right(sig + a + cnt + b, cl + (tail + comp), 20);
    crate::codec::lemma_be_u32_add_left(cl, tail + comp, 0);
    crate::codec::lemma_be_u32_bytes(comp.len() as u32);
    assert(s.subrange(48, 48 + comp.len() as int) =~= comp);
}

/// A WOFF2 file written for a table list unpacks to the same list, tags
/// and bytes, in the order given, when Brotli gives back what it
/// compressed. Left out: a tag whose type number reads back as another
/// tag, and a table of 2^30 bytes or more, whose length the directory
/// cannot hold.
pub proof fn lemma_woff2_unpacks(tabs: Seq<(Seq<u8>, Seq<u8>)>, comp: Seq<u8>)
    requires
        tabs.len() <= u16::MAX,
        woff2_listable(tabs),
        48 + comp.len() <= u32::MAX,
        brotli_inflated(comp) == Some(woff2_payload(tabs)),
    ensures
        crate::woff2::woff2_header_ok(woff2_file(tabs, comp)),
        crate::woff2::woff2_readable(woff2_file(tabs, comp)),
        woff2_tables(woff2_file(tabs, comp)) == Some(tabs),
{
    let n = tabs.len() as int;
    let s = woff2_file(tabs, comp);
    lemma_woff2_header(tabs, comp);
    assert(woff2_stream(s) == comp);
    lemma_dir_reads(tabs, n);
    lemma_slices_read(tabs, n);
    assert(tabs.subrange(0, n) =~= tabs);
    assert(woff2_payload(tabs) == write_dir(tabs, n) + concat_data(tabs, n));
}

} // verus!
