//! WOFF 1.0: sfnt tables compressed one by one with zlib.
use vstd::prelude::*;
use std::io::{Read, Write};
use crate::codec::{be_u16, be_u32, checksum, u16_bytes, u32_bytes};
use crate::error::{FontError, Tag};
use crate::math::{log2_floor, pow2};
use crate::parse::{tag_at, Parser};
use crate::write::{pad_len, zeros, Writer};

verus! {

/// `wOFF`.
pub const WOFF_SIGNATURE: u32 = 0x774F4646;

#[derive(Debug, Clone, Copy)]
pub struct WoffTableRecord {
    pub tag: Tag,
    pub offset: u32,
    pub comp_length: u32,
    pub orig_length: u32,
    pub orig_checksum: u32,
}

/// What zlib inflates `data` to, read to its end: `None` when reading
/// fails.
pub uninterp spec fn zlib_inflated(data: Seq<u8>) -> Option<Seq<u8>>;

/// The zlib stream that flate2 writes for `data` at the default level.
pub uninterp spec fn zlib_deflated(data: Seq<u8>) -> Seq<u8>;

/// flate2's `ZlibDecoder` over `data`, read to the end. The contract says
/// that the outcome is a function of `data` alone, named
/// `zlib_inflated`; it says nothing of which bytes come out.
#[verifier::external_body]
fn zlib_decompress(data: &[u8]) -> (r: Result<Vec<u8>, std::io::Error>)
    ensures
        match r {
            Ok(v) => zlib_inflated(data@) == Some(v@),
            Err(_) => zlib_inflated(data@) is None,
        },
{
    let mut decoder = flate2::read::ZlibDecoder::new(data);
    let mut out = Vec::new();
    decoder.read_to_end(&mut out).map(|_| out)
}

/// flate2's `ZlibEncoder` at the default level over a `Vec`, fed `data`
/// and finished. The contract names the stream it writes `zlib_deflated`
/// and says that zlib inflates it back to `data` (the format is lossless),
/// and that it succeeds: the `Vec` it writes into never fails or writes
/// nothing, flate2 turns miniz_oxide's buffer error into a status, and
/// miniz_oxide's parameter error comes only from a call after the stream
/// has finished, which `write_all` and `finish` do not make.
#[verifier::external_body]
fn zlib_compress(data: &[u8]) -> (r: Result<Vec<u8>, std::io::Error>)
    ensures
        r is Ok,
        r matches Ok(v) ==> v@ == zlib_deflated(data@) && zlib_inflated(v@) == Some(data@),
{
    let mut encoder = flate2::write::ZlibEncoder::new(Vec::new(), flate2::Compression::default());
    encoder.write_all(data)?;
    encoder.finish()
}

/// Where the `k`-th WOFF table record starts.
pub open spec fn woff_rec(k: int) -> int {
    44 + 20 * k
}

pub open spec fn woff_num_tables(s: Seq<u8>) -> int {
    be_u16(s, 12) as int
}

/// The `k`-th table record of a WOFF file.
pub open spec fn woff_record(s: Seq<u8>, k: int) -> WoffTableRecord {
    WoffTableRecord {
        tag: tag_at(s, woff_rec(k)),
        offset: be_u32(s, woff_rec(k) + 4),
        comp_length: be_u32(s, woff_rec(k) + 8),
        orig_length: be_u32(s, woff_rec(k) + 12),
        orig_checksum: be_u32(s, woff_rec(k) + 16),
    }
}

/// The signature is right and the header and records are there.
pub open spec fn woff_fits(s: Seq<u8>) -> bool {
    s.len() >= 44 && be_u32(s, 0) == WOFF_SIGNATURE && woff_rec(woff_num_tables(s)) <= s.len()
}

/// The sum of the first `k` original lengths, each padded to four bytes.
pub open spec fn woff_padded_sum(s: Seq<u8>, k: int) -> int
    decreases k,
{
    if k <= 0 {
        0
    } else {
        let l = woff_record(s, k - 1).orig_length;
        woff_padded_sum(s, k - 1) + l + pad_len(l as nat)
    }
}

/// The inputs on which `read_woff` runs to its end: at least one and at
/// most 4095 tables, sfnt offsets within 32 bits, and each compressed
/// table inside the file.
pub open spec fn woff_readable(s: Seq<u8>) -> bool {
    let n = woff_num_tables(s);
    woff_fits(s) ==> {
        &&& 1 <= n <= 4095
        &&& 12 + 16 * n + woff_padded_sum(s, n) <= u32::MAX
        &&& forall|k: int| 0 <= k < n ==> #[trigger] woff_in_file(s, k)
    }
}

/// The `k`-th compressed table lies inside the file.
pub open spec fn woff_in_file(s: Seq<u8>, k: int) -> bool {
    woff_record(s, k).offset + woff_record(s, k).comp_length <= s.len()
}

/// The bytes of the `k`-th table once decompressed: inflated when its
/// compressed and original lengths differ, as stored otherwise.
pub open spec fn woff_piece(s: Seq<u8>, k: int) -> Option<Seq<u8>> {
    piece_of(s, woff_record(s, k))
}

/// The decompressed bytes of the table a record points at.
pub open spec fn piece_of(s: Seq<u8>, r: WoffTableRecord) -> Option<Seq<u8>> {
    let data = s.subrange(r.offset as int, r.offset + r.comp_length);
    if r.comp_length != r.orig_length {
        zlib_inflated(data)
    } else {
        Some(data)
    }
}

/// The sfnt header `read_woff` writes for `n` tables.
pub open spec fn woff_sfnt_header(n: int) -> Seq<u8> {
    let e = log2_floor(n as nat);
    let sr = pow2(e);
    u32_bytes(0x00010000) + u16_bytes(n as u16) + u16_bytes((sr * 16) as u16) + u16_bytes(
        e as u16,
    ) + u16_bytes((n * 16 - sr * 16) as u16)
}

/// The sfnt directory for the first `k` WOFF records.
pub open spec fn woff_sfnt_dir(s: Seq<u8>, k: int) -> Seq<u8>
    decreases k,
{
    if k <= 0 {
        Seq::empty()
    } else {
        woff_sfnt_dir(s, k - 1) + sfnt_dir_entry(
            woff_record(s, k - 1),
            (12 + 16 * woff_num_tables(s) + woff_padded_sum(s, k - 1)) as u32,
        )
    }
}

/// The sfnt directory entry for a WOFF record whose table lands at `off`.
pub open spec fn sfnt_dir_entry(r: WoffTableRecord, off: u32) -> Seq<u8> {
    r.tag.0@ + u32_bytes(r.orig_checksum) + u32_bytes(off) + u32_bytes(r.orig_length)
}

/// The first `k` decompressed tables, each padded to four bytes.
pub open spec fn woff_sfnt_bodies(s: Seq<u8>, k: int) -> Seq<u8>
    decreases k,
{
    if k <= 0 {
        Seq::empty()
    } else {
        let d = woff_piece(s, k - 1).unwrap();
        woff_sfnt_bodies(s, k - 1) + d + zeros(pad_len(d.len()))
    }
}

/// The sfnt file that a WOFF file unpacks to.
pub open spec fn woff_sfnt(s: Seq<u8>) -> Seq<u8> {
    let n = woff_num_tables(s);
    woff_sfnt_header(n) + woff_sfnt_dir(s, n) + woff_sfnt_bodies(s, n)
}

proof fn lemma_woff_padded_sum_monotone(s: Seq<u8>, j: int, k: int)
    requires
        0 <= j <= k,
    ensures
        0 <= woff_padded_sum(s, j) <= woff_padded_sum(s, k),
    decreases k,
{
    if j < k {
        lemma_woff_padded_sum_monotone(s, j, k - 1);
    } else if k > 0 {
        lemma_woff_padded_sum_monotone(s, 0, k - 1);
    }
}

fn read_woff_records(buf: &[u8]) -> (r: Result<Vec<WoffTableRecord>, FontError>)
    ensures
        match r {
            Ok(recs) => woff_fits(buf@) && recs@ == Seq::new(
                woff_num_tables(buf@) as nat,
                |k: int| woff_record(buf@, k),
            ),
            Err(e) => {
                &&& !woff_fits(buf@)
                &&& if buf@.len() >= 4 && be_u32(buf@, 0) != WOFF_SIGNATURE {
                    e matches FontError::InvalidTable { tag: t, reason } && t.0@ == seq![
                        0x73u8,
                        0x66,
                        0x6e,
                        0x74,
                    ] && reason@ == "not a WOFF file"@
                } else {
                    e is OutOfBounds
                }
            },
        },
{
    let ghost s = buf@;
    let mut p = Parser::new(buf, 0);
    let signature = p.u32()?;
    if signature != WOFF_SIGNATURE {
        let t = Tag([0x73, 0x66, 0x6e, 0x74]);
        assert(t.0@ =~= seq![0x73u8, 0x66, 0x6e, 0x74]);
        return Err(FontError::invalid_table(t, "not a WOFF file"));
    }
    let _flavor = p.u32()?;
    let _length = p.u32()?;
    let num_tables = p.u16()?;
    let _reserved = p.u16()?;
    let _total_sfnt_size = p.u32()?;
    let _major_version = p.u16()?;
    let _minor_version = p.u16()?;
    let _meta_offset = p.u32()?;
    let _meta_length = p.u32()?;
    let _meta_orig_length = p.u32()?;
    let _priv_offset = p.u32()?;
    let _priv_length = p.u32()?;
    let mut records: Vec<WoffTableRecord> = Vec::new();
    let mut k: u16 = 0;
    while k < num_tables
        invariant
            s == buf@,
            p.data() == s,
            s.len() >= 44,
            be_u32(s, 0) == WOFF_SIGNATURE,
            num_tables == be_u16(s, 12),
            k <= num_tables,
            p.pos() == woff_rec(k as int),
            woff_rec(k as int) <= s.len(),
            records@ == Seq::new(k as nat, |j: int| woff_record(s, j)),
        decreases num_tables - k,
    {
        let tag = p.tag()?;
        let offset = p.u32()?;
        let comp_length = p.u32()?;
        let orig_length = p.u32()?;
        let orig_checksum = p.u32()?;
        records.push(WoffTableRecord { tag, offset, comp_length, orig_length, orig_checksum });
        k += 1;
        proof {
            assert(records@ =~= Seq::new(k as nat, |j: int| woff_record(s, j)));
        }
    }
    Ok(records)
}

/// The decompressed bytes of one table.
fn unpack_table(buf: &[u8], rec: WoffTableRecord) -> (r: Result<Vec<u8>, std::io::Error>)
    requires
        rec.offset + rec.comp_length <= buf@.len(),
    ensures
        match r {
            Ok(v) => piece_of(buf@, rec) == Some(v@),
            Err(_) => piece_of(buf@, rec) is None,
        },
{
    let blen = buf.len();
    assert(rec.offset + rec.comp_length <= blen);
    let start = rec.offset as usize;
    let end = start + rec.comp_length as usize;
    let data = vstd::slice::slice_subrange(buf, start, end);
    if rec.comp_length != rec.orig_length {
        zlib_decompress(data)
    } else {
        Ok(vstd::slice::slice_to_vec(data))
    }
}

/// Appends the bytes, then zeros up to a multiple of four bytes of them.
fn append_padded(out: &mut Vec<u8>, piece: &Vec<u8>)
    ensures
        final(out)@ == old(out)@ + piece@ + zeros(pad_len(piece@.len())),
{
    let mut j: usize = 0;
    let plen = piece.len();
    while j < plen
        invariant
            plen == piece@.len(),
            j <= plen,
            out@ == old(out)@ + piece@.subrange(0, j as int),
        decreases plen - j,
    {
        out.push(piece[j]);
        j += 1;
        proof {
            assert(out@ =~= old(out)@ + piece@.subrange(0, j as int));
        }
    }
    let ghost mid = out@;
    let mut m: usize = 0;
    let pad = (4 - plen % 4) % 4;
    while m < pad
        invariant
            pad == pad_len(plen as nat),
            m <= pad,
            out@ == mid + zeros(m as nat),
        decreases pad - m,
    {
        out.push(0);
        m += 1;
        proof {
            assert(out@ =~= mid + zeros(m as nat));
        }
    }
    proof {
        assert(piece@.subrange(0, plen as int) =~= piece@);
    }
}

/// Writes the sfnt directory for the WOFF records.
#[verifier::rlimit(40)]
fn write_woff_dir(sfnt: &mut Writer, records: &Vec<WoffTableRecord>, Ghost(s): Ghost<Seq<u8>>)
    requires
        woff_fits(s),
        1 <= woff_num_tables(s) <= 4095,
        12 + 16 * woff_num_tables(s) + woff_padded_sum(s, woff_num_tables(s)) <= u32::MAX,
        records@ == Seq::new(woff_num_tables(s) as nat, |j: int| woff_record(s, j)),
    ensures
        final(sfnt)@ == old(sfnt)@ + woff_sfnt_dir(s, woff_num_tables(s)),
{
    let ghost n = woff_num_tables(s);
    let count = records.len();
    let mut current_offset: u32 = 12 + 16 * count as u32;
    let mut k: usize = 0;
    while k < count
        invariant
            n == woff_num_tables(s),
            count == n,
            1 <= n <= 4095,
            12 + 16 * n + woff_padded_sum(s, n) <= u32::MAX,
            records@ == Seq::new(n as nat, |j: int| woff_record(s, j)),
            k <= count,
            current_offset == 12 + 16 * n + woff_padded_sum(s, k as int),
            sfnt@ == old(sfnt)@ + woff_sfnt_dir(s, k as int),
        decreases count - k,
    {
        let rec = records[k];
        proof {
            lemma_woff_padded_sum_monotone(s, k + 1, n);
            assert(rec == woff_record(s, k as int));
        }
        let ghost before = sfnt@;
        sfnt.write_tag(&rec.tag.0);
        sfnt.write_u32(rec.orig_checksum);
        sfnt.write_u32(current_offset);
        sfnt.write_u32(rec.orig_length);
        proof {
            assert(sfnt@ =~= before + sfnt_dir_entry(rec, current_offset));
        }
        let pad = (4 - rec.orig_length % 4) % 4;
        current_offset = current_offset + rec.orig_length + pad;
        k += 1;
    }
}

/// Unpacks a WOFF file into the sfnt file it holds: an sfnt header and
/// directory for the WOFF records, then each table decompressed and padded
/// to four bytes.
/// Whether `read_woff` can be called on these bytes: callers that hold no
/// proof of `woff_readable` test it here first.
pub fn woff_can_read(buf: &[u8]) -> (b: bool)
    ensures
        b == woff_readable(buf@),
{
    let ghost s = buf@;
    let records = match read_woff_records(buf) {
        Ok(recs) => recs,
        Err(_) => return true,
    };
    let n = records.len();
    if n < 1 || n > 4095 {
        return false;
    }
    let len = buf.len() as u64;
    let mut sum: u64 = 0;
    let mut all_in = true;
    let mut k: usize = 0;
    while k < n
        invariant
            s == buf@,
            woff_fits(s),
            n == woff_num_tables(s),
            1 <= n <= 4095,
            len == s.len(),
            records@ == Seq::new(woff_num_tables(s) as nat, |j: int| woff_record(s, j)),
            k <= n,
            sum == woff_padded_sum(s, k as int),
            sum <= k * 0x1_0000_0003,
            all_in <==> forall|j: int| 0 <= j < k ==> #[trigger] woff_in_file(s, j),
        decreases n - k,
    {
        let rec = &records[k];
        assert(*rec == woff_record(s, k as int));
        let l = rec.orig_length as u64;
        sum = sum + l + (4 - l % 4) % 4;
        let inside = rec.offset as u64 + rec.comp_length as u64 <= len;
        assert(inside == woff_in_file(s, k as int));
        all_in = all_in && inside;
        proof {
            assert((forall|j: int| 0 <= j < k + 1 ==> #[trigger] woff_in_file(s, j)) <==> ((forall|
                j: int,
            | 0 <= j < k ==> #[trigger] woff_in_file(s, j)) && woff_in_file(s, k as int))) by {
                if forall|j: int| 0 <= j < k ==> #[trigger] woff_in_file(s, j) {
                    if woff_in_file(s, k as int) {
                        assert forall|j: int| 0 <= j < k + 1 implies #[trigger] woff_in_file(s, j) by {}
                    }
                }
            }
        }
        k += 1;
    }
    12 + 16 * (n as u64) + sum <= 0xFFFF_FFFF && all_in
}

pub fn read_woff(buf: &[u8]) -> (r: Result<Vec<u8>, FontError>)
    requires
        woff_readable(buf@),
    ensures
        match r {
            Ok(v) => {
                &&& woff_fits(buf@)
                &&& forall|k: int| 0 <= k < woff_num_tables(buf@) ==> #[trigger] woff_piece(buf@, k) is Some
                &&& v@ == woff_sfnt(buf@)
            },
            Err(e) => {
                ||| !woff_fits(buf@) && (if buf@.len() >= 4 && be_u32(buf@, 0) != WOFF_SIGNATURE {
                    e matches FontError::InvalidTable { tag: t, reason } && t.0@ == seq![
                        0x73u8,
                        0x66,
                        0x6e,
                        0x74,
                    ] && reason@ == "not a WOFF file"@
                } else {
                    e is OutOfBounds
                })
                ||| woff_fits(buf@) && e is Io && exists|k: int|
                    0 <= k < woff_num_tables(buf@) && #[trigger] woff_piece(buf@, k) is None
            },
        },
{
    let ghost s = buf@;
    let records = read_woff_records(buf)?;
    let ghost n = woff_num_tables(s);
    let num_tables = records.len() as u16;
    assert(num_tables == n);
    proof {
        crate::math::lemma_log2_floor_bounds(n as nat);
        lemma_woff_padded_sum_monotone(s, 0, n);
    }
    let e = crate::math::ilog2(num_tables as u32);
    let search_range = crate::math::pow2_u16(e);
    let mut sfnt = Writer::new();
    sfnt.write_u32(0x00010000);
    sfnt.write_u16(num_tables);
    sfnt.write_u16(search_range * 16);
    sfnt.write_u16(e as u16);
    sfnt.write_u16(num_tables * 16 - search_range * 16);
    proof {
        assert(sfnt@ =~= woff_sfnt_header(n));
    }
    write_woff_dir(&mut sfnt, &records, Ghost(s));
    let mut result = sfnt.into_vec();
    let ghost head = result@;
    let count = records.len();
    let mut k: usize = 0;
    while k < count
        invariant
            s == buf@,
            woff_readable(s),
            woff_fits(s),
            n == woff_num_tables(s),
            count == n,
            records@ == Seq::new(n as nat, |j: int| woff_record(s, j)),
            k <= count,
            forall|j: int| 0 <= j < k ==> #[trigger] woff_piece(s, j) is Some,
            result@ == head + woff_sfnt_bodies(s, k as int),
        decreases count - k,
    {
        let rec = records[k];
        assert(rec == woff_record(s, k as int));
        assert(woff_in_file(s, k as int));
        let piece = match unpack_table(buf, rec) {
            Ok(v) => v,
            Err(err) => {
                assert(woff_piece(s, k as int) is None);
                return Err(FontError::Io(err));
            },
        };
        append_padded(&mut result, &piece);
        k += 1;
        proof {
            assert(result@ =~= head + woff_sfnt_bodies(s, k as int));
        }
    }
    Ok(result)
}


/// Sum of the first `k` lengths, each padded to four bytes.
pub open spec fn padded_total(lens: Seq<int>, k: int) -> int
    decreases k,
{
    if k <= 0 {
        0
    } else {
        padded_total(lens, k - 1) + lens[k - 1] + pad_len(lens[k - 1] as nat)
    }
}

pub(crate) proof fn lemma_padded_total_monotone(lens: Seq<int>, j: int, k: int)
    requires
        0 <= j <= k <= lens.len(),
        forall|i: int| 0 <= i < lens.len() ==> #[trigger] lens[i] >= 0,
    ensures
        0 <= padded_total(lens, j) <= padded_total(lens, k),
    decreases k,
{
    if j < k {
        lemma_padded_total_monotone(lens, j, k - 1);
    } else if k > 0 {
        lemma_padded_total_monotone(lens, 0, k - 1);
    }
}

/// The lengths of the byte strings.
pub open spec fn lengths(v: Seq<Seq<u8>>) -> Seq<int> {
    Seq::new(v.len(), |i: int| v[i].len() as int)
}

/// The WOFF directory entries for the first `k` tables, given their
/// compressed forms.
pub open spec fn woff_dir(tabs: Seq<(Seq<u8>, Seq<u8>)>, comps: Seq<Seq<u8>>, k: int) -> Seq<u8>
    decreases k,
{
    if k <= 0 {
        Seq::empty()
    } else {
        let n = tabs.len();
        woff_dir(tabs, comps, k - 1) + tabs[k - 1].0 + u32_bytes(
            (44 + 20 * n + padded_total(lengths(comps), k - 1)) as u32,
        ) + u32_bytes(comps[k - 1].len() as u32) + u32_bytes(tabs[k - 1].1.len() as u32)
            + u32_bytes(checksum(tabs[k - 1].1))
    }
}

/// The first `k` compressed tables, each padded to four bytes.
pub open spec fn woff_bodies(comps: Seq<Seq<u8>>, k: int) -> Seq<u8>
    decreases k,
{
    if k <= 0 {
        Seq::empty()
    } else {
        woff_bodies(comps, k - 1) + comps[k - 1] + zeros(pad_len(comps[k - 1].len()))
    }
}

/// The 44-byte WOFF header for `n` tables, the whole file's length and the
/// unpacked sfnt size.
pub open spec fn woff_header(n: int, total: int, sfnt_size: int) -> Seq<u8> {
    u32_bytes(WOFF_SIGNATURE) + u32_bytes(0x00010000) + u32_bytes(total as u32) + u16_bytes(
        n as u16,
    ) + u16_bytes(0) + u32_bytes(sfnt_size as u32) + u16_bytes(1) + u16_bytes(0) + u32_bytes(0)
        + u32_bytes(0) + u32_bytes(0) + u32_bytes(0) + u32_bytes(0)
}

/// The WOFF file for the tables with these compressed forms.
pub open spec fn woff_file(tabs: Seq<(Seq<u8>, Seq<u8>)>, comps: Seq<Seq<u8>>) -> Seq<u8> {
    let n = tabs.len() as int;
    let origs = Seq::new(tabs.len(), |i: int| tabs[i].1.len() as int);
    woff_header(
        n,
        44 + 20 * n + padded_total(lengths(comps), n),
        12 + 16 * n + padded_total(origs, n),
    ) + woff_dir(tabs, comps, n) + woff_bodies(comps, n)
}

/// The original lengths of the tables.
pub open spec fn orig_lengths(tabs: Seq<(Seq<u8>, Seq<u8>)>) -> Seq<int> {
    Seq::new(tabs.len(), |i: int| tabs[i].1.len() as int)
}

/// The limits of a WOFF file whose sizes are known: a table count that the
/// sfnt header fields hold, and every offset and total within 32 bits.
pub open spec fn woff_writable(tabs: Seq<(Seq<u8>, Seq<u8>)>, comps: Seq<Seq<u8>>) -> bool {
    let n = tabs.len() as int;
    &&& 1 <= n <= 4095
    &&& comps.len() == n
    &&& 44 + 20 * n + padded_total(lengths(comps), n) <= u32::MAX
    &&& 12 + 16 * n + padded_total(orig_lengths(tabs), n) <= u32::MAX
}

pub open spec fn tables_view(tables: Seq<(Tag, Vec<u8>)>) -> Seq<(Seq<u8>, Seq<u8>)> {
    Seq::new(tables.len(), |i: int| (tables[i].0.0@, tables[i].1@))
}

pub open spec fn comps_view(c: Seq<Vec<u8>>) -> Seq<Seq<u8>> {
    Seq::new(c.len(), |i: int| c[i]@)
}

/// Lays out a WOFF file for tables whose compressed forms are given.
pub fn assemble_woff(tables: &[(Tag, Vec<u8>)], compressed: &Vec<Vec<u8>>) -> (r: Vec<u8>)
    requires
        woff_writable(tables_view(tables@), comps_view(compressed@)),
    ensures
        r@ == woff_file(tables_view(tables@), comps_view(compressed@)),
{
    let ghost tabs = tables_view(tables@);
    let ghost comps = comps_view(compressed@);
    let ghost n = tabs.len() as int;
    let count = tables.len();
    proof {
        assert forall|i: int| 0 <= i < n implies #[trigger] lengths(comps)[i] >= 0 by {}
        assert forall|i: int| 0 <= i < n implies #[trigger] orig_lengths(tabs)[i] >= 0 by {}
        lemma_padded_total_monotone(lengths(comps), 0, n);
        lemma_padded_total_monotone(orig_lengths(tabs), 0, n);
    }
    let mut total: u32 = 44 + 20 * count as u32;
    let mut sfnt_size: u32 = 12 + 16 * count as u32;
    let mut k: usize = 0;
    while k < count
        invariant
            tabs == tables_view(tables@),
            comps == comps_view(compressed@),
            n == tabs.len(),
            count == n,
            woff_writable(tabs, comps),
            k <= count,
            total == 44 + 20 * n + padded_total(lengths(comps), k as int),
            sfnt_size == 12 + 16 * n + padded_total(orig_lengths(tabs), k as int),
        decreases count - k,
    {
        proof {
            assert forall|i: int| 0 <= i < n implies #[trigger] lengths(comps)[i] >= 0 by {}
            assert forall|i: int| 0 <= i < n implies #[trigger] orig_lengths(tabs)[i] >= 0 by {}
            lemma_padded_total_monotone(lengths(comps), k + 1, n);
            lemma_padded_total_monotone(orig_lengths(tabs), k + 1, n);
        }
        let cl = compressed[k].len();
        let ol = tables[k].1.len();
        assert(lengths(comps)[k as int] == cl);
        assert(orig_lengths(tabs)[k as int] == ol);
        total = total + cl as u32 + ((4 - cl % 4) % 4) as u32;
        sfnt_size = sfnt_size + ol as u32 + ((4 - ol % 4) % 4) as u32;
        k += 1;
    }
    let mut w = Writer::new();
    w.write_u32(WOFF_SIGNATURE);
    w.write_u32(0x00010000);
    w.write_u32(total);
    w.write_u16(count as u16);
    w.write_u16(0);
    w.write_u32(sfnt_size);
    w.write_u16(1);
    w.write_u16(0);
    w.write_u32(0);
    w.write_u32(0);
    w.write_u32(0);
    w.write_u32(0);
    w.write_u32(0);
    proof {
        assert(w@ =~= woff_header(
            n,
            44 + 20 * n + padded_total(lengths(comps), n),
            12 + 16 * n + padded_total(orig_lengths(tabs), n),
        ));
    }
    write_woff_entries(&mut w, tables, compressed);
    let ghost dir = w@;
    let mut k: usize = 0;
    while k < count
        invariant
            comps == comps_view(compressed@),
            count == comps.len(),
            k <= count,
            w@ == dir + woff_bodies(comps, k as int),
        decreases count - k,
    {
        let cl = compressed[k].len();
        w.write_bytes(compressed[k].as_slice());
        let pad = (4 - cl % 4) % 4;
        let ghost mid = w@;
        let mut m: usize = 0;
        while m < pad
            invariant
                pad == pad_len(cl as nat),
                m <= pad,
                w@ == mid + zeros(m as nat),
            decreases pad - m,
        {
            w.write_u8(0);
            m += 1;
            proof {
                assert(w@ =~= mid + zeros(m as nat));
            }
        }
        k += 1;
        proof {
            assert(compressed@[k - 1]@ == comps[k - 1]);
            assert(w@ =~= dir + woff_bodies(comps, k as int));
        }
    }
    proof {
        assert(orig_lengths(tabs) =~= Seq::new(tabs.len(), |i: int| tabs[i].1.len() as int));
    }
    w.into_vec()
}

fn write_woff_entries(w: &mut Writer, tables: &[(Tag, Vec<u8>)], compressed: &Vec<Vec<u8>>)
    requires
        woff_writable(tables_view(tables@), comps_view(compressed@)),
    ensures
        final(w)@ == old(w)@ + woff_dir(
            tables_view(tables@),
            comps_view(compressed@),
            tables@.len() as int,
        ),
{
    let ghost tabs = tables_view(tables@);
    let ghost comps = comps_view(compressed@);
    let ghost n = tabs.len() as int;
    let count = tables.len();
    let mut offset: u32 = 44 + 20 * count as u32;
    let mut k: usize = 0;
    while k < count
        invariant
            tabs == tables_view(tables@),
            comps == comps_view(compressed@),
            n == tabs.len(),
            count == n,
            woff_writable(tabs, comps),
            k <= count,
            offset == 44 + 20 * n + padded_total(lengths(comps), k as int),
            w@ == old(w)@ + woff_dir(tabs, comps, k as int),
        decreases count - k,
    {
        proof {
            assert forall|i: int| 0 <= i < n implies #[trigger] lengths(comps)[i] >= 0 by {}
            lemma_padded_total_monotone(lengths(comps), k + 1, n);
        }
        let tag = &tables[k].0;
        let data = &tables[k].1;
        let cl = compressed[k].len();
        assert(lengths(comps)[k as int] == cl);
        let c = crate::parse::checksum_table(data.as_slice());
        let ghost before = w@;
        w.write_tag(&tag.0);
        w.write_u32(offset);
        w.write_u32(cl as u32);
        w.write_u32(data.len() as u32);
        w.write_u32(c);
        offset = offset + cl as u32 + ((4 - cl % 4) % 4) as u32;
        k += 1;
        proof {
            assert(tabs[k - 1] == (tag.0@, data@));
            assert(w@ =~= old(w)@ + woff_dir(tabs, comps, k as int));
        }
    }
}

/// Packs sfnt tables into a WOFF file, each table compressed with zlib.
/// A file too large for the 32-bit offsets of the format is refused.
pub fn write_woff(tables: &[(Tag, Vec<u8>)]) -> (r: Result<Vec<u8>, FontError>)
    requires
        1 <= tables@.len() <= 4095,
    ensures
        ({
            let tabs = tables_view(tables@);
            let comps = Seq::new(tabs.len(), |i: int| zlib_deflated(tabs[i].1));
            match r {
                Ok(v) => {
                    &&& woff_writable(tabs, comps)
                    &&& v@ == woff_file(tabs, comps)
                    &&& forall|i: int| 0 <= i < tabs.len() ==> zlib_inflated(#[trigger] comps[i]) == Some(tabs[i].1)
                },
                Err(e) => {
                    &&& !woff_writable(tabs, comps)
                    &&& e matches FontError::InvalidTable { tag: t, reason }
                    &&& t.0@ == seq![0x77u8, 0x4f, 0x46, 0x46]
                    &&& reason@ == "tables too large for WOFF offsets"@
                },
            }
        }),
{
    let ghost tabs = tables_view(tables@);
    let count = tables.len();
    let mut compressed: Vec<Vec<u8>> = Vec::new();
    let mut k: usize = 0;
    while k < count
        invariant
            tabs == tables_view(tables@),
            count == tabs.len(),
            k <= count,
            compressed@.len() == k,
            comps_view(compressed@) == Seq::new(k as nat, |i: int| zlib_deflated(tabs[i].1)),
            forall|i: int| 0 <= i < k ==> zlib_inflated(zlib_deflated(#[trigger] tabs[i].1)) == Some(tabs[i].1),
        decreases count - k,
    {
        let ghost old_c = compressed@;
        let res = zlib_compress(tables[k].1.as_slice());
        let c = match res {
            Ok(c) => {
                assert(c@ == zlib_deflated(tables@[k as int].1@));
                assert(old_c.len() == k);
                c
            },
            Err(e) => {
                return Err(FontError::Io(e));
            },
        };
        assert(tabs[k as int].1 == tables@[k as int].1@);
        compressed.push(c);
        k += 1;
        proof {
            assert forall|i: int| 0 <= i < k implies #[trigger] comps_view(compressed@)[i] == zlib_deflated(
                tabs[i].1,
            ) by {
                if i < k - 1 {
                    assert(compressed@[i] == old_c[i]);
                    assert(comps_view(old_c)[i] == zlib_deflated(tabs[i].1));
                }
            }
            assert(comps_view(compressed@) =~= Seq::new(k as nat, |i: int| zlib_deflated(tabs[i].1)));
            assert forall|i: int| 0 <= i < k implies zlib_inflated(zlib_deflated(#[trigger] tabs[i].1)) == Some(
                tabs[i].1,
            ) by {
                if i == k - 1 {
                    assert(zlib_inflated(c@) == Some(tables@[i].1@));
                }
            }
        }
    }
    if !woff_fits_sizes(tables, &compressed) {
        let t = Tag([0x77, 0x4f, 0x46, 0x46]);
        return Err(FontError::invalid_table(t, "tables too large for WOFF offsets"));
    }
    Ok(assemble_woff(tables, &compressed))
}

/// Whether the sizes fit the 32-bit fields of a WOFF file.
fn woff_fits_sizes(tables: &[(Tag, Vec<u8>)], compressed: &Vec<Vec<u8>>) -> (r: bool)
    requires
        1 <= tables@.len() <= 4095,
        compressed@.len() == tables@.len(),
    ensures
        r == woff_writable(tables_view(tables@), comps_view(compressed@)),
{
    let ghost tabs = tables_view(tables@);
    let ghost comps = comps_view(compressed@);
    let ghost n = tabs.len() as int;
    let count = tables.len();
    let mut total: u64 = 44 + 20 * count as u64;
    let mut sfnt_size: u64 = 12 + 16 * count as u64;
    let mut k: usize = 0;
    while k < count
        invariant
            tabs == tables_view(tables@),
            comps == comps_view(compressed@),
            n == tabs.len(),
            count == n,
            comps.len() == n,
            1 <= n <= 4095,
            k <= count,
            total == 44 + 20 * n + padded_total(lengths(comps), k as int),
            sfnt_size == 12 + 16 * n + padded_total(orig_lengths(tabs), k as int),
            total <= u32::MAX && sfnt_size <= u32::MAX,
        decreases count - k,
    {
        let cl = compressed[k].len() as u64;
        let ol = tables[k].1.len() as u64;
        assert(lengths(comps)[k as int] == cl);
        assert(orig_lengths(tabs)[k as int] == ol);
        if cl > u32::MAX as u64 || ol > u32::MAX as u64 {
            proof {
                assert forall|i: int| 0 <= i < n implies #[trigger] lengths(comps)[i] >= 0 by {}
                assert forall|i: int| 0 <= i < n implies #[trigger] orig_lengths(tabs)[i] >= 0 by {}
                lemma_padded_total_monotone(lengths(comps), k + 1, n);
                lemma_padded_total_monotone(orig_lengths(tabs), k + 1, n);
            }
            return false;
        }
        total = total + cl + (4 - cl % 4) % 4;
        sfnt_size = sfnt_size + ol + (4 - ol % 4) % 4;
        k += 1;
        if total > u32::MAX as u64 || sfnt_size > u32::MAX as u64 {
            proof {
                assert forall|i: int| 0 <= i < n implies #[trigger] lengths(comps)[i] >= 0 by {}
                assert forall|i: int| 0 <= i < n implies #[trigger] orig_lengths(tabs)[i] >= 0 by {}
                lemma_padded_total_monotone(lengths(comps), k as int, n);
                lemma_padded_total_monotone(orig_lengths(tabs), k as int, n);
            }
            return false;
        }
    }
    true
}

} // verus!
