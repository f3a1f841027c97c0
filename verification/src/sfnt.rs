//! A font file as a plain list of tables: taking one apart, and putting
//! one together without decoding any table.
use vstd::prelude::*;
use crate::codec::{be_u16, be_u32, checksum, u16_bytes, u32_bytes};
use crate::error::{FontError, Tag};
use crate::font_read::{record_at, table_bytes};
use crate::math::{log2_floor, pow2};
use crate::parse::Parser;
use crate::woff::{orig_lengths, padded_total, tables_view};
use crate::write::{pad_len, zeros, Writer};

verus! {

/// The bytes of each directory record, in directory order.
pub open spec fn listed_tables(s: Seq<u8>, n: nat) -> Seq<(Seq<u8>, Seq<u8>)> {
    Seq::new(
        n,
        |k: int|
            {
                let r = record_at(s, 12 + 16 * k);
                (r.tag.0@, s.subrange(r.offset as int, r.offset + r.length))
            },
    )
}

/// Every record's table lies inside the file.
pub open spec fn listed_fit(s: Seq<u8>, n: nat) -> bool {
    forall|k: int| 0 <= k < n ==> #[trigger] table_bytes(s, record_at(s, 12 + 16 * k)) is Some
}

/// The tables of a font file as its directory lists them: tag and bytes
/// of each, without decoding any.
pub fn sfnt_tables(buf: &[u8]) -> (r: Result<Vec<(Tag, Vec<u8>)>, FontError>)
    ensures
        match r {
            Ok(v) => {
                let n = be_u16(buf@, 4) as nat;
                &&& 12 + 16 * n <= buf@.len()
                &&& listed_fit(buf@, n)
                &&& tables_view(v@) == listed_tables(buf@, n)
            },
            Err(e) => e is OutOfBounds && (buf@.len() < 12 || 12 + 16 * be_u16(buf@, 4) > buf@.len()
                || !listed_fit(buf@, be_u16(buf@, 4) as nat)),
        },
{
    let ghost s = buf@;
    let mut p = Parser::new(buf, 0);
    let _sfnt_version = p.u32()?;
    let num_tables = p.u16()?;
    let _search_range = p.u16()?;
    let _entry_selector = p.u16()?;
    let _range_shift = p.u16()?;
    let mut out: Vec<(Tag, Vec<u8>)> = Vec::new();
    let mut k: u16 = 0;
    while k < num_tables
        invariant
            s == buf@,
            p.data() == s,
            s.len() >= 12,
            num_tables == be_u16(s, 4),
            k <= num_tables,
            p.pos() == 12 + 16 * k,
            12 + 16 * k <= s.len(),
            listed_fit(s, k as nat),
            out@.len() == k,
            tables_view(out@) == listed_tables(s, k as nat),
        decreases num_tables - k,
    {
        let ghost at = p.pos();
        let tag = match p.tag() {
            Ok(t) => t,
            Err(e) => {
                return Err(e);
            },
        };
        let _checksum = match p.u32() {
            Ok(v) => v,
            Err(e) => {
                return Err(e);
            },
        };
        let offset = match p.u32() {
            Ok(v) => v,
            Err(e) => {
                return Err(e);
            },
        };
        let length = match p.u32() {
            Ok(v) => v,
            Err(e) => {
                return Err(e);
            },
        };
        let q = Parser::new(buf, offset as usize);
        let data = match q.slice(length as usize) {
            Ok(d) => d,
            Err(e) => {
                proof {
                    assert(table_bytes(s, record_at(s, 12 + 16 * k)) is None);
                }
                return Err(e);
            },
        };
        let ghost old_out = out@;
        proof {
            assert(at == 12 + 16 * k);
            assert(record_at(s, at).tag == tag);
            assert(record_at(s, at).offset == offset);
            assert(record_at(s, at).length == length);
            assert(data@ == s.subrange(offset as int, offset + length));
        }
        out.push((tag, vstd::slice::slice_to_vec(data)));
        k += 1;
        proof {
            assert forall|j: int| 0 <= j < k implies #[trigger] tables_view(out@)[j] == listed_tables(
                s,
                k as nat,
            )[j] by {
                if j < k - 1 {
                    assert(out@[j] == old_out[j]);
                    assert(tables_view(old_out)[j] == listed_tables(s, (k - 1) as nat)[j]);
                }
            }
            assert(tables_view(out@) =~= listed_tables(s, k as nat));
        }
    }
    Ok(out)
}

/// The directory entries for the tables, each padded to four bytes and
/// laid out one after the other from `start`.
pub open spec fn plain_dir(tabs: Seq<(Seq<u8>, Seq<u8>)>, k: int) -> Seq<u8>
    decreases k,
{
    if k <= 0 {
        Seq::empty()
    } else {
        let t = tabs[k - 1];
        plain_dir(tabs, k - 1) + t.0 + u32_bytes(checksum(t.1 + zeros(pad_len(t.1.len()))))
            + u32_bytes((12 + 16 * tabs.len() + padded_total(orig_lengths(tabs), k - 1)) as u32)
            + u32_bytes(t.1.len() as u32)
    }
}

/// The tables, each padded to four bytes.
pub open spec fn plain_bodies(tabs: Seq<(Seq<u8>, Seq<u8>)>, k: int) -> Seq<u8>
    decreases k,
{
    if k <= 0 {
        Seq::empty()
    } else {
        plain_bodies(tabs, k - 1) + tabs[k - 1].1 + zeros(pad_len(tabs[k - 1].1.len()))
    }
}

/// The TrueType file for a table list, taken as it comes: header (with
/// the search range counted in bytes), directory, padded tables.
pub open spec fn plain_sfnt(tabs: Seq<(Seq<u8>, Seq<u8>)>) -> Seq<u8> {
    let n = tabs.len();
    let e = log2_floor(n);
    let sr = pow2(e) * 16;
    u32_bytes(0x00010000) + u16_bytes(n as u16) + u16_bytes(sr as u16) + u16_bytes(e as u16)
        + u16_bytes((n * 16 - sr) as u16) + plain_dir(tabs, n as int) + plain_bodies(tabs, n as int)
}

/// The directory entry of the `k`-th table.
pub open spec fn plain_entry(tabs: Seq<(Seq<u8>, Seq<u8>)>, k: int) -> Seq<u8> {
    let t = tabs[k];
    t.0 + u32_bytes(checksum(t.1 + zeros(pad_len(t.1.len())))) + u32_bytes(
        (12 + 16 * tabs.len() + padded_total(orig_lengths(tabs), k)) as u32,
    ) + u32_bytes(t.1.len() as u32)
}

/// Every tag is four bytes long.
pub open spec fn four_byte_tags(tabs: Seq<(Seq<u8>, Seq<u8>)>) -> bool {
    forall|i: int| 0 <= i < tabs.len() ==> (#[trigger] tabs[i]).0.len() == 4
}

proof fn lemma_plain_dir_prefix(tabs: Seq<(Seq<u8>, Seq<u8>)>, k: int, m: int)
    requires
        0 <= k <= m <= tabs.len(),
        four_byte_tags(tabs),
    ensures
        plain_dir(tabs, m).len() == 16 * m,
        plain_dir(tabs, m).subrange(0, 16 * k) == plain_dir(tabs, k),
    decreases m,
{
    if m > 0 {
        assert(tabs[m - 1].0.len() == 4);
        lemma_plain_dir_prefix(tabs, if k < m { k } else { m - 1 }, m - 1);
        if k < m {
            assert(plain_dir(tabs, m).subrange(0, 16 * k) =~= plain_dir(tabs, m - 1).subrange(0, 16 * k));
        } else {
            assert(plain_dir(tabs, m).subrange(0, 16 * k) =~= plain_dir(tabs, m));
        }
    }
}

proof fn lemma_plain_bodies_prefix(tabs: Seq<(Seq<u8>, Seq<u8>)>, k: int, m: int)
    requires
        0 <= k <= m <= tabs.len(),
    ensures
        plain_bodies(tabs, m).len() == padded_total(orig_lengths(tabs), m),
        plain_bodies(tabs, m).subrange(0, padded_total(orig_lengths(tabs), k)) == plain_bodies(tabs, k),
    decreases m,
{
    if m > 0 {
        lemma_plain_bodies_prefix(tabs, if k < m { k } else { m - 1 }, m - 1);
        assert forall|i: int| 0 <= i < tabs.len() implies #[trigger] orig_lengths(tabs)[i] >= 0 by {}
        crate::woff::lemma_padded_total_monotone(orig_lengths(tabs), if k < m { k } else { m - 1 }, m - 1);
        assert(orig_lengths(tabs)[m - 1] == tabs[m - 1].1.len());
        if k < m {
            assert(plain_bodies(tabs, m).subrange(0, padded_total(orig_lengths(tabs), k))
                =~= plain_bodies(tabs, m - 1).subrange(0, padded_total(orig_lengths(tabs), k)));
        } else {
            assert(plain_bodies(tabs, m).subrange(0, padded_total(orig_lengths(tabs), k))
                =~= plain_bodies(tabs, m));
        }
    }
}

proof fn lemma_plain_entry_at(tabs: Seq<(Seq<u8>, Seq<u8>)>, k: int)
    requires
        0 <= k < tabs.len(),
        four_byte_tags(tabs),
    ensures
        plain_dir(tabs, tabs.len() as int).subrange(16 * k, 16 * k + 16) == plain_entry(tabs, k),
{
    let n = tabs.len() as int;
    lemma_plain_dir_prefix(tabs, k + 1, n);
    lemma_plain_dir_prefix(tabs, k, k + 1);
    assert(tabs[k].0.len() == 4);
    assert(plain_dir(tabs, k + 1) =~= plain_dir(tabs, k) + plain_entry(tabs, k));
    assert(plain_dir(tabs, n).subrange(16 * k, 16 * k + 16) =~= plain_dir(tabs, n).subrange(0, 16 * (k
        + 1)).subrange(16 * k, 16 * k + 16));
    assert((plain_dir(tabs, k) + plain_entry(tabs, k)).subrange(16 * k, 16 * k + 16) =~= plain_entry(
        tabs,
        k,
    ));
}

proof fn lemma_plain_body_at(tabs: Seq<(Seq<u8>, Seq<u8>)>, k: int)
    requires
        0 <= k < tabs.len(),
    ensures
        padded_total(orig_lengths(tabs), k) + tabs[k].1.len() <= padded_total(
            orig_lengths(tabs),
            tabs.len() as int,
        ),
        plain_bodies(tabs, tabs.len() as int).subrange(
            padded_total(orig_lengths(tabs), k),
            padded_total(orig_lengths(tabs), k) + tabs[k].1.len(),
        ) == tabs[k].1,
{
    let n = tabs.len() as int;
    let lens = orig_lengths(tabs);
    let p = padded_total(lens, k);
    let l = tabs[k].1.len() as int;
    assert forall|i: int| 0 <= i < tabs.len() implies #[trigger] lens[i] >= 0 by {}
    crate::woff::lemma_padded_total_monotone(lens, k + 1, n);
    lemma_plain_bodies_prefix(tabs, k + 1, n);
    lemma_plain_bodies_prefix(tabs, k, k);
    assert(lens[k] == l);
    assert(plain_bodies(tabs, n).subrange(p, p + l) =~= plain_bodies(tabs, n).subrange(
        0,
        padded_total(lens, k + 1),
    ).subrange(p, p + l));
    assert(plain_bodies(tabs, k + 1).subrange(p, p + l) =~= tabs[k].1);
}

/// The header, directory and bodies that a table list lays out to.
pub open spec fn plain_header(n: nat) -> Seq<u8> {
    let e = log2_floor(n);
    let sr = pow2(e) * 16;
    u32_bytes(0x00010000) + u16_bytes(n as u16) + u16_bytes(sr as u16) + u16_bytes(e as u16)
        + u16_bytes((n * 16 - sr) as u16)
}

proof fn lemma_plain_entry_fields(tabs: Seq<(Seq<u8>, Seq<u8>)>, k: int)
    requires
        0 <= k < tabs.len(),
        four_byte_tags(tabs),
    ensures
        ({
            let d = plain_dir(tabs, tabs.len() as int);
            &&& d.len() == 16 * tabs.len()
            &&& forall|j: int| 0 <= j < 4 ==> #[trigger] d[16 * k + j] == tabs[k].0[j]
            &&& be_u32(d, 16 * k + 8) == (12 + 16 * tabs.len() + padded_total(orig_lengths(tabs), k)) as u32
            &&& be_u32(d, 16 * k + 12) == tabs[k].1.len() as u32
        }),
{
    let n = tabs.len() as int;
    let d = plain_dir(tabs, n);
    let ent = plain_entry(tabs, k);
    lemma_plain_dir_prefix(tabs, 0, n);
    lemma_plain_entry_at(tabs, k);
    assert(tabs[k].0.len() == 4);
    let off = (12 + 16 * n + padded_total(orig_lengths(tabs), k)) as u32;
    let len = tabs[k].1.len() as u32;
    let cs = u32_bytes(checksum(tabs[k].1 + zeros(pad_len(tabs[k].1.len()))));
    assert forall|j: int| 0 <= j < 4 implies #[trigger] d[16 * k + j] == tabs[k].0[j] by {
        assert(d.subrange(16 * k, 16 * k + 16)[j] == d[16 * k + j]);
    }
    crate::codec::lemma_be_u32_subrange(d, 16 * k, 16 * k + 16, 8);
    crate::codec::lemma_be_u32_subrange(d, 16 * k, 16 * k + 16, 12);
    assert(ent =~= (tabs[k].0 + cs) + (u32_bytes(off) + u32_bytes(len)));
    crate::codec::lemma_be_u32_add_right(tabs[k].0 + cs, u32_bytes(off) + u32_bytes(len), 8);
    crate::codec::lemma_be_u32_add_left(u32_bytes(off), u32_bytes(len), 0);
    crate::codec::lemma_be_u32_bytes(off);
    assert(ent =~= (tabs[k].0 + cs + u32_bytes(off)) + u32_bytes(len));
    crate::codec::lemma_be_u32_add_right(tabs[k].0 + cs + u32_bytes(off), u32_bytes(len), 12);
    crate::codec::lemma_be_u32_bytes(len);
}

/// Reading the `k`-th record of a header, directory and bodies put end to
/// end, from what the directory holds there.
pub(crate) proof fn lemma_record_in(
    h: Seq<u8>,
    d: Seq<u8>,
    b: Seq<u8>,
    n: int,
    k: int,
    tag: Seq<u8>,
    body: Seq<u8>,
    p: int,
)
    requires
        h.len() == 12,
        0 <= k < n,
        d.len() == 16 * n,
        tag.len() == 4,
        forall|j: int| 0 <= j < 4 ==> #[trigger] d[16 * k + j] == tag[j],
        be_u32(d, 16 * k + 8) == 12 + 16 * n + p,
        be_u32(d, 16 * k + 12) == body.len(),
        0 <= p,
        p + body.len() <= b.len(),
        b.subrange(p, p + body.len() as int) == body,
    ensures
        ({
            let s = h + d + b;
            let r = record_at(s, 12 + 16 * k);
            &&& table_bytes(s, r) is Some
            &&& (r.tag.0@, s.subrange(r.offset as int, r.offset + r.length)) == (tag, body)
            &&& r.offset == 12 + 16 * n + p
            &&& r.length == body.len()
        }),
{
    let hd = h + d;
    let s = hd + b;
    let i = 12 + 16 * k;
    let r = record_at(s, i);
    assert(r.tag.0@ =~= tag) by {
        assert forall|j: int| 0 <= j < 4 implies r.tag.0@[j] == tag[j] by {
            assert(s[i + j] == d[16 * k + j]);
        }
    }
    crate::codec::lemma_be_u32_add_left(hd, b, i + 8);
    crate::codec::lemma_be_u32_add_right(h, d, i + 8);
    crate::codec::lemma_be_u32_add_left(hd, b, i + 12);
    crate::codec::lemma_be_u32_add_right(h, d, i + 12);
    let off = r.offset as int;
    let len = body.len() as int;
    assert(off == hd.len() + p);
    assert forall|j: int| 0 <= j < len implies #[trigger] s.subrange(off, off + len)[j] == body[j] by {
        assert(s[off + j] == b[p + j]);
        assert(b.subrange(p, p + len)[j] == b[p + j]);
    }
    assert(s.subrange(off, off + len) =~= body);
}

proof fn lemma_plain_record(tabs: Seq<(Seq<u8>, Seq<u8>)>, k: int, h: Seq<u8>)
    requires
        0 <= k < tabs.len() <= 4095,
        four_byte_tags(tabs),
        12 + 16 * tabs.len() + padded_total(orig_lengths(tabs), tabs.len() as int) <= u32::MAX,
        h.len() == 12,
    ensures
        ({
            let s = h + plain_dir(tabs, tabs.len() as int) + plain_bodies(tabs, tabs.len() as int);
            let r = record_at(s, 12 + 16 * k);
            &&& table_bytes(s, r) is Some
            &&& (r.tag.0@, s.subrange(r.offset as int, r.offset + r.length)) == tabs[k]
        }),
{
    let n = tabs.len() as int;
    let lens = orig_lengths(tabs);
    lemma_plain_bodies_prefix(tabs, 0, n);
    lemma_plain_entry_fields(tabs, k);
    lemma_plain_body_at(tabs, k);
    assert(tabs[k].0.len() == 4);
    assert forall|i: int| 0 <= i < n implies #[trigger] lens[i] >= 0 by {}
    crate::woff::lemma_padded_total_monotone(lens, 0, k);
    lemma_record_in(
        h,
        plain_dir(tabs, n),
        plain_bodies(tabs, n),
        n,
        k,
        tabs[k].0,
        tabs[k].1,
        padded_total(lens, k),
    );
}

/// Taking apart a file laid out from a table list gives the list back:
/// every record's table lies inside the file, and the directory lists the
/// tables, tags and bytes, in the order given.
pub proof fn lemma_plain_sfnt_lists(tabs: Seq<(Seq<u8>, Seq<u8>)>)
    requires
        1 <= tabs.len() <= 4095,
        four_byte_tags(tabs),
        12 + 16 * tabs.len() + padded_total(orig_lengths(tabs), tabs.len() as int) <= u32::MAX,
    ensures
        ({
            let s = plain_sfnt(tabs);
            let n = tabs.len();
            &&& be_u16(s, 4) == n
            &&& 12 + 16 * n <= s.len()
            &&& listed_fit(s, n)
            &&& listed_tables(s, n) == tabs
        }),
{
    broadcast use crate::codec::lemma_be_u16_add_left, crate::codec::lemma_be_u16_add_right, crate::codec::lemma_be_u16_bytes;

    let n = tabs.len();
    let s = plain_sfnt(tabs);
    let h = plain_header(n);
    let d = plain_dir(tabs, n as int);
    let b = plain_bodies(tabs, n as int);
    assert(s =~= h + d + b);
    assert(h.len() == 12);
    lemma_plain_dir_prefix(tabs, 0, n as int);
    lemma_plain_bodies_prefix(tabs, 0, n as int);
    assert(be_u16(s, 4) == n) by {
        let e = log2_floor(n);
        let sr = pow2(e) * 16;
        assert(be_u16(h + d + b, 4) == be_u16(h + d, 4));
        assert(be_u16(h + d, 4) == be_u16(h, 4));
        assert(h =~= (u32_bytes(0x00010000) + u16_bytes(n as u16)) + (u16_bytes(sr as u16) + u16_bytes(
            e as u16,
        ) + u16_bytes((n * 16 - sr) as u16)));
        assert(be_u16(h, 4) == be_u16(u32_bytes(0x00010000) + u16_bytes(n as u16), 4));
        assert(be_u16(u32_bytes(0x00010000) + u16_bytes(n as u16), 4) == be_u16(u16_bytes(n as u16), 0));
    }
    assert forall|k: int| 0 <= k < n implies #[trigger] table_bytes(s, record_at(s, 12 + 16 * k)) is Some by {
        lemma_plain_record(tabs, k, h);
    }
    assert forall|k: int| 0 <= k < n implies #[trigger] listed_tables(s, n)[k] == tabs[k] by {
        lemma_plain_record(tabs, k, h);
    }
    assert(listed_tables(s, n) =~= tabs);
}

/// The checksum of the bytes padded to four.
fn padded_checksum(data: &[u8]) -> (c: u32)
    ensures
        c == checksum(data@ + zeros(pad_len(data@.len()))),
{
    let mut padded = vstd::slice::slice_to_vec(data);
    let ghost base = padded@;
    while padded.len() % 4 != 0
        invariant
            base.len() <= padded@.len() <= base.len() + 3,
            padded@ == base + zeros((padded@.len() - base.len()) as nat),
            (padded@.len() - base.len()) <= pad_len(base.len()),
            (padded@.len() % 4 != 0) ==> (padded@.len() - base.len()) < pad_len(base.len()),
        decreases 4 - (padded@.len() - base.len()),
    {
        padded.push(0);
        proof {
            assert(padded@ =~= base + zeros((padded@.len() - base.len()) as nat));
        }
    }
    crate::parse::checksum_table(padded.as_slice())
}

/// Lays out a TrueType file for the tables as they come, without sorting
/// or decoding them.
pub fn build_sfnt(tables: &[(Tag, Vec<u8>)]) -> (r: Vec<u8>)
    requires
        1 <= tables@.len() <= 4095,
        12 + 16 * tables@.len() + padded_total(orig_lengths(tables_view(tables@)), tables@.len() as int)
            <= u32::MAX,
    ensures
        r@ == plain_sfnt(tables_view(tables@)),
{
    let ghost tabs = tables_view(tables@);
    let ghost n = tabs.len() as int;
    let count = tables.len();
    proof {
        crate::math::lemma_log2_floor_bounds(count as nat);
        assert forall|i: int| 0 <= i < n implies #[trigger] orig_lengths(tabs)[i] >= 0 by {}
        crate::woff::lemma_padded_total_monotone(orig_lengths(tabs), 0, n);
    }
    let num_tables = count as u16;
    let e = crate::math::ilog2(count as u32);
    let search_range = crate::math::pow2_u16(e) * 16;
    let mut w = Writer::new();
    w.write_u32(0x00010000);
    w.write_u16(num_tables);
    w.write_u16(search_range);
    w.write_u16(e as u16);
    w.write_u16(num_tables * 16 - search_range);
    let ghost head = w@;
    let mut offset: u32 = 12 + 16 * count as u32;
    let mut k: usize = 0;
    while k < count
        invariant
            tabs == tables_view(tables@),
            n == tabs.len(),
            count == n,
            12 + 16 * n + padded_total(orig_lengths(tabs), n) <= u32::MAX,
            k <= count,
            offset == 12 + 16 * n + padded_total(orig_lengths(tabs), k as int),
            w@ == head + plain_dir(tabs, k as int),
        decreases count - k,
    {
        proof {
            assert forall|i: int| 0 <= i < n implies #[trigger] orig_lengths(tabs)[i] >= 0 by {}
            crate::woff::lemma_padded_total_monotone(orig_lengths(tabs), k + 1, n);
        }
        let tag = &tables[k].0;
        let data = &tables[k].1;
        let len = data.len();
        assert(orig_lengths(tabs)[k as int] == len);
        assert(tabs[k as int] == (tag.0@, data@));
        let c = padded_checksum(data.as_slice());
        w.write_tag(&tag.0);
        w.write_u32(c);
        w.write_u32(offset);
        w.write_u32(len as u32);
        offset = offset + len as u32 + ((4 - len % 4) % 4) as u32;
        k += 1;
        proof {
            assert(w@ =~= head + plain_dir(tabs, k as int));
        }
    }
    let ghost dir = w@;
    let mut k: usize = 0;
    while k < count
        invariant
            tabs == tables_view(tables@),
            count == tabs.len(),
            k <= count,
            w@ == dir + plain_bodies(tabs, k as int),
        decreases count - k,
    {
        let data = &tables[k].1;
        assert(tabs[k as int].1 == data@);
        let len = data.len();
        w.write_bytes(data.as_slice());
        let pad = (4 - len % 4) % 4;
        let ghost mid = w@;
        let mut m: usize = 0;
        while m < pad
            invariant
                pad == pad_len(len as nat),
                m <= pad,
                w@ == mid + zeros(m as nat),
            decreases pad - m,
        {
            w.write_u8(0);
            m += 1;
            proof {
                assert(w@ =~= mid + zeros(m as nat));
            }
        }
        k += 1;
        proof {
            assert(w@ =~= dir + plain_bodies(tabs, k as int));
        }
    }
    proof {
        assert(w@ =~= plain_sfnt(tabs));
    }
    w.into_vec()
}

} // verus!
