//! Reading back a written `name` table.
use vstd::prelude::*;
use vstd::utf8::{decode_utf8, encode_utf8, valid_utf8};
use crate::codec::{be_u16, u16_bytes, units_bytes};
use crate::tables::cmap_round::{
    lemma_placed_concat, lemma_placed_facts, lemma_placed_u16, lemma_placed_units, placed,
};
use crate::tables::name::{
    encode_records, encode_strings, encoded_string, is_utf16, name_fits, name_record_fits,
    record_matches, string_offset_of, utf16be_units, Name, NameRecord,
};
use crate::text::{utf16_char, utf16_encoding, well_formed_utf16};

verus! {

broadcast use crate::codec::group_codec;

/// Each character has at least one code unit, and a first unit that tells
/// whether it is one unit or a surrogate pair.
proof fn lemma_utf16_char_facts(c: char)
    ensures
        (c as u32) < 0x10000 ==> utf16_char(c).len() == 1 && utf16_char(c)[0] == c as u32,
        (c as u32) >= 0x10000 ==> utf16_char(c).len() == 2 && 0xD800 <= utf16_char(c)[0] < 0xDC00,
        (c as u32) < 0x10000 ==> !(0xD800 <= c as u32 <= 0xDFFF),
{
    vstd::utf8::char_is_scalar(c);
}

/// Different characters have different code units.
proof fn lemma_utf16_char_injective(a: char, b: char)
    requires
        utf16_char(a) == utf16_char(b),
    ensures
        a == b,
{
    lemma_utf16_char_facts(a);
    lemma_utf16_char_facts(b);
    let va = a as u32;
    let vb = b as u32;
    if va >= 0x10000 && vb >= 0x10000 {
        let wa = (va - 0x10000) as u32;
        let wb = (vb - 0x10000) as u32;
        assert(utf16_char(a)[0] == utf16_char(b)[0]);
        assert(utf16_char(a)[1] == utf16_char(b)[1]);
        assert(wa / 1024 == wb / 1024);
        assert(wa % 1024 == wb % 1024);
        assert(wa == 1024 * (wa / 1024) + wa % 1024);
        assert(wb == 1024 * (wb / 1024) + wb % 1024);
    } else {
        assert(utf16_char(a)[0] == utf16_char(b)[0]);
    }
    vstd::utf8::char_u32_cast(a, va);
    vstd::utf8::char_u32_cast(b, vb);
}

/// UTF-16 encoding loses nothing: two texts with the same code units are
/// the same text.
pub proof fn lemma_utf16_encoding_injective(a: Seq<char>, b: Seq<char>)
    requires
        utf16_encoding(a) == utf16_encoding(b),
    ensures
        a == b,
    decreases a.len(),
{
    if a.len() == 0 {
        if b.len() > 0 {
            lemma_utf16_char_facts(b[0]);
            assert(utf16_encoding(b).len() > 0);
        }
        assert(a =~= b);
    } else if b.len() == 0 {
        lemma_utf16_char_facts(a[0]);
        assert(utf16_encoding(a).len() > 0);
    } else {
        let ua = utf16_char(a[0]);
        let ub = utf16_char(b[0]);
        let ea = utf16_encoding(a);
        lemma_utf16_char_facts(a[0]);
        lemma_utf16_char_facts(b[0]);
        assert(ea[0] == ua[0]);
        assert(ea[0] == ub[0]);
        assert(ua.len() == ub.len());
        assert(ua =~= ea.subrange(0, ua.len() as int));
        assert(ub =~= ea.subrange(0, ub.len() as int));
        lemma_utf16_char_injective(a[0], b[0]);
        assert(utf16_encoding(a.drop_first()) =~= ea.subrange(ua.len() as int, ea.len() as int));
        assert(utf16_encoding(b.drop_first()) =~= ea.subrange(ub.len() as int, ea.len() as int));
        lemma_utf16_encoding_injective(a.drop_first(), b.drop_first());
        assert(a =~= seq![a[0]] + a.drop_first());
        assert(b =~= seq![b[0]] + b.drop_first());
    }
}

/// Big-endian units written as bytes read back as the same units.
proof fn lemma_units_read_back(u: Seq<u16>)
    ensures
        utf16be_units(units_bytes(u)) == u,
{
    let b = units_bytes(u);
    assert(placed(b, 0, b)) by {
        reveal(placed);
        assert(b.subrange(0, b.len() as int) =~= b);
    }
    lemma_placed_units(b, 0, u);
    assert forall|i: int| 0 <= i < u.len() implies #[trigger] utf16be_units(b)[i] == u[i] by {
        assert(be_u16(b, 0 + 2 * i) == u[i]);
    }
    assert(utf16be_units(b) =~= u);
}

/// The string lengths that `write` stores fit 16 bits, as do the offsets
/// and the header.
pub open spec fn name_round_trips(n: Name) -> bool {
    &&& 6 + 12 * n.records@.len() <= u16::MAX
    &&& string_offset_of(n.records@, n.records@.len() as int) <= u16::MAX
    &&& forall|k: int|
        0 <= k < n.records@.len() ==> (#[trigger] encoded_string(n.records@[k])).len()
            <= u16::MAX
}

proof fn lemma_offsets_exact(recs: Seq<NameRecord>, j: int, k: int)
    requires
        0 <= j <= k <= recs.len(),
        forall|i: int| 0 <= i < recs.len() ==> (#[trigger] encoded_string(recs[i])).len() <= u16::MAX,
    ensures
        string_offset_of(recs, j) <= string_offset_of(recs, k),
        j < k ==> string_offset_of(recs, j) + encoded_string(recs[j]).len() <= string_offset_of(
            recs,
            k,
        ),
    decreases k,
{
    if j < k {
        lemma_offsets_exact(recs, j, k - 1);
    }
}

proof fn lemma_placed_name_records(recs: Seq<NameRecord>, s: Seq<u8>, pos: int, k: int)
    requires
        0 <= k <= recs.len(),
        placed(s, pos, encode_records(recs, k)),
    ensures
        encode_records(recs, k).len() == 12 * k,
        forall|i: int|
            0 <= i < k ==> {
                &&& #[trigger] be_u16(s, pos + 12 * i) == recs[i].platform_id
                &&& be_u16(s, pos + 12 * i + 2) == recs[i].encoding_id
                &&& be_u16(s, pos + 12 * i + 4) == recs[i].language_id
                &&& be_u16(s, pos + 12 * i + 6) == recs[i].name_id
                &&& be_u16(s, pos + 12 * i + 8) == encoded_string(recs[i]).len() as u16
                &&& be_u16(s, pos + 12 * i + 10) == string_offset_of(recs, i) as u16
            },
    decreases k,
{
    if k > 0 {
        let r = recs[k - 1];
        let a = encode_records(recs, k - 1);
        let f1 = u16_bytes(r.platform_id);
        let f2 = u16_bytes(r.encoding_id);
        let f3 = u16_bytes(r.language_id);
        let f4 = u16_bytes(r.name_id);
        let f5 = u16_bytes(encoded_string(r).len() as u16);
        let f6 = u16_bytes(string_offset_of(recs, k - 1) as u16);
        lemma_placed_concat(s, pos, a + f1 + f2 + f3 + f4 + f5, f6);
        lemma_placed_concat(s, pos, a + f1 + f2 + f3 + f4, f5);
        lemma_placed_concat(s, pos, a + f1 + f2 + f3, f4);
        lemma_placed_concat(s, pos, a + f1 + f2, f3);
        lemma_placed_concat(s, pos, a + f1, f2);
        lemma_placed_concat(s, pos, a, f1);
        lemma_placed_name_records(recs, s, pos, k - 1);
        let q = pos + a.len();
        lemma_placed_u16(s, q, r.platform_id);
        lemma_placed_u16(s, q + 2, r.encoding_id);
        lemma_placed_u16(s, q + 4, r.language_id);
        lemma_placed_u16(s, q + 6, r.name_id);
        lemma_placed_u16(s, q + 8, encoded_string(r).len() as u16);
        lemma_placed_u16(s, q + 10, string_offset_of(recs, k - 1) as u16);
        assert forall|i: int| 0 <= i < k implies {
            &&& #[trigger] be_u16(s, pos + 12 * i) == recs[i].platform_id
            &&& be_u16(s, pos + 12 * i + 2) == recs[i].encoding_id
            &&& be_u16(s, pos + 12 * i + 4) == recs[i].language_id
            &&& be_u16(s, pos + 12 * i + 6) == recs[i].name_id
            &&& be_u16(s, pos + 12 * i + 8) == encoded_string(recs[i]).len() as u16
            &&& be_u16(s, pos + 12 * i + 10) == string_offset_of(recs, i) as u16
        } by {
            if i < k - 1 {
                assert(be_u16(s, pos + 12 * i) == recs[i].platform_id);
            }
        }
    }
}

proof fn lemma_placed_name_strings(recs: Seq<NameRecord>, s: Seq<u8>, pos: int, k: int)
    requires
        0 <= k <= recs.len(),
        forall|i: int| 0 <= i < recs.len() ==> (#[trigger] encoded_string(recs[i])).len() <= u16::MAX,
        placed(s, pos, encode_strings(recs, k)),
    ensures
        encode_strings(recs, k).len() == string_offset_of(recs, k),
        forall|i: int|
            0 <= i < k ==> placed(
                s,
                pos + string_offset_of(recs, i),
                #[trigger] encoded_string(recs[i]),
            ),
    decreases k,
{
    if k > 0 {
        lemma_placed_concat(s, pos, encode_strings(recs, k - 1), encoded_string(recs[k - 1]));
        lemma_placed_name_strings(recs, s, pos, k - 1);
        assert(encoded_string(recs[k - 1]).len() <= u16::MAX);
    }
}

/// A written record's string reads back as it was.
proof fn lemma_string_back(r: NameRecord, r2: NameRecord, bytes: Seq<u8>)
    requires
        bytes == encoded_string(r),
        r2.platform_id == r.platform_id,
        r2.encoding_id == r.encoding_id,
        if is_utf16(r2.platform_id, r2.encoding_id) {
            if well_formed_utf16(utf16be_units(bytes)) {
                utf16_encoding(r2.string@) == utf16be_units(bytes)
            } else {
                r2.string@ == Seq::<char>::empty()
            }
        } else {
            valid_utf8(bytes) ==> r2.string@ == decode_utf8(bytes)
        },
    ensures
        r2.string@ == r.string@,
{
    reveal(encoded_string);
    if is_utf16(r.platform_id, r.encoding_id) {
        lemma_units_read_back(utf16_encoding(r.string@));
        assert(well_formed_utf16(utf16be_units(bytes))) by {
            reveal(well_formed_utf16);
        }
        lemma_utf16_encoding_injective(r2.string@, r.string@);
    } else {
        vstd::utf8::encode_utf8_valid_utf8(r.string@);
        vstd::utf8::encode_utf8_decode_utf8(r.string@);
    }
}

/// The five parts of a `name` table written at `off`, each where it lies.
#[verifier::spinoff_prover]
proof fn lemma_name_split(n: Name, s: Seq<u8>, off: int)
    requires
        placed(s, off, n.encode()),
    ensures
        placed(s, off, u16_bytes(n.format)),
        placed(s, off + 2, u16_bytes(n.records@.len() as u16)),
        placed(s, off + 4, u16_bytes((6 + n.records@.len() * 12) as u16)),
        placed(s, off + 6, encode_records(n.records@, n.records@.len() as int)),
        placed(
            s,
            off + 6 + encode_records(n.records@, n.records@.len() as int).len() as int,
            encode_strings(n.records@, n.records@.len() as int),
        ),
{
    let recs = n.records@;
    let k = recs.len() as int;
    let a = u16_bytes(n.format);
    let b = u16_bytes(k as u16);
    let c = u16_bytes((6 + k * 12) as u16);
    let r = encode_records(recs, k);
    let t = encode_strings(recs, k);
    assert(n.encode() == a + b + c + r + t) by {
        reveal(Name::encode);
    }
    lemma_placed_concat(s, off, a + b + c + r, t);
    lemma_placed_concat(s, off, a + b + c, r);
    lemma_placed_concat(s, off, a + b, c);
    lemma_placed_concat(s, off, a, b);
}

/// Where the header, the records and the strings of a `name` table written
/// at `off` lie.
#[verifier::spinoff_prover]
proof fn lemma_name_layout(n: Name, s: Seq<u8>, off: int)
    requires
        name_round_trips(n),
        placed(s, off, n.encode()),
    ensures
        0 <= off,
        off + 6 + 12 * n.records@.len() + string_offset_of(n.records@, n.records@.len() as int)
            <= s.len(),
        be_u16(s, off) == n.format,
        be_u16(s, off + 2) == n.records@.len(),
        be_u16(s, off + 4) == 6 + 12 * n.records@.len(),
        forall|i: int|
            0 <= i < n.records@.len() ==> {
                &&& #[trigger] be_u16(s, off + 6 + 12 * i) == n.records@[i].platform_id
                &&& be_u16(s, off + 6 + 12 * i + 2) == n.records@[i].encoding_id
                &&& be_u16(s, off + 6 + 12 * i + 4) == n.records@[i].language_id
                &&& be_u16(s, off + 6 + 12 * i + 6) == n.records@[i].name_id
                &&& be_u16(s, off + 6 + 12 * i + 8) == encoded_string(n.records@[i]).len() as u16
                &&& be_u16(s, off + 6 + 12 * i + 10) == string_offset_of(n.records@, i) as u16
            },
        forall|i: int|
            0 <= i < n.records@.len() ==> placed(
                s,
                off + 6 + 12 * n.records@.len() + string_offset_of(n.records@, i),
                #[trigger] encoded_string(n.records@[i]),
            ),
{
    let recs = n.records@;
    let k = recs.len() as int;
    lemma_name_split(n, s, off);
    lemma_placed_facts(s, off, u16_bytes(n.format));
    lemma_placed_u16(s, off, n.format);
    lemma_placed_u16(s, off + 2, k as u16);
    lemma_placed_u16(s, off + 4, (6 + k * 12) as u16);
    lemma_placed_name_records(recs, s, off + 6, k);
    lemma_placed_name_strings(recs, s, off + 6 + 12 * k, k);
    lemma_placed_facts(s, off + 6 + 12 * k, encode_strings(recs, k));
}

/// A `name` table written at `off` fits what `parse` reads there.
#[verifier::spinoff_prover]
proof fn lemma_name_fits_written(n: Name, s: Seq<u8>, off: int)
    requires
        name_round_trips(n),
        placed(s, off, n.encode()),
    ensures
        name_fits(s, off),
{
    let recs = n.records@;
    let k = recs.len() as int;
    lemma_name_layout(n, s, off);
    lemma_offsets_exact(recs, 0, k);
    assert forall|i: int| 0 <= i < be_u16(s, off + 2) implies #[trigger] name_record_fits(s, off, i) by {
        assert(be_u16(s, off + 6 + 12 * i) == recs[i].platform_id);
        lemma_offsets_exact(recs, i, k);
        lemma_offsets_exact(recs, 0, i);
        assert(encoded_string(recs[i]).len() <= u16::MAX);
    }
}

/// Record `i` of a `name` table written at `off` reads back as it was.
#[verifier::spinoff_prover]
proof fn lemma_name_record_back(n: Name, s: Seq<u8>, off: int, r2: NameRecord, i: int)
    requires
        name_round_trips(n),
        placed(s, off, n.encode()),
        0 <= i < n.records@.len(),
        record_matches(r2, s, off + 6 + 12 * i, off + 6 + 12 * n.records@.len() as int),
    ensures
        r2.platform_id == n.records@[i].platform_id,
        r2.encoding_id == n.records@[i].encoding_id,
        r2.language_id == n.records@[i].language_id,
        r2.name_id == n.records@[i].name_id,
        r2.string@ == n.records@[i].string@,
{
    let recs = n.records@;
    let k = recs.len() as int;
    lemma_name_layout(n, s, off);
    assert(be_u16(s, off + 6 + 12 * i) == recs[i].platform_id);
    lemma_offsets_exact(recs, i, k);
    lemma_offsets_exact(recs, 0, i);
    assert(encoded_string(recs[i]).len() <= u16::MAX);
    let start = off + 6 + 12 * k + string_offset_of(recs, i);
    let len = encoded_string(recs[i]).len() as int;
    assert(placed(s, start, encoded_string(recs[i])));
    lemma_placed_facts(s, start, encoded_string(recs[i]));
    lemma_string_back(recs[i], r2, s.subrange(start, start + len));
}

/// `p` is the `name` table that `parse` makes of the bytes at `off`.
pub open spec fn name_parsed(p: Name, s: Seq<u8>, off: int) -> bool {
    &&& p.format == be_u16(s, off)
    &&& p.string_offset == be_u16(s, off + 4)
    &&& p.records@.len() == be_u16(s, off + 2)
    &&& forall|i: int|
        0 <= i < p.records@.len() ==> #[trigger] record_matches(
            p.records@[i],
            s,
            off + 6 + 12 * i,
            off + p.string_offset,
        )
}

/// `p` is `n` as read back: the format, and each record's IDs and string.
pub open spec fn name_read_back(p: Name, n: Name) -> bool {
    &&& p.format == n.format
    &&& p.records@.len() == n.records@.len()
    &&& forall|i: int|
        0 <= i < n.records@.len() ==> {
            &&& (#[trigger] p.records@[i]).platform_id == n.records@[i].platform_id
            &&& p.records@[i].encoding_id == n.records@[i].encoding_id
            &&& p.records@[i].language_id == n.records@[i].language_id
            &&& p.records@[i].name_id == n.records@[i].name_id
            &&& p.records@[i].string@ == n.records@[i].string@
        }
}

/// A `name` table written anywhere in a buffer fits what `parse` reads
/// there, and reads back as written.
#[verifier::spinoff_prover]
pub proof fn lemma_name_read_back_at(n: Name, s: Seq<u8>, off: int)
    requires
        name_round_trips(n),
        placed(s, off, n.encode()),
    ensures
        name_fits(s, off),
        forall|p: Name| #[trigger] name_parsed(p, s, off) ==> name_read_back(p, n),
{
    let recs = n.records@;
    let k = recs.len() as int;
    lemma_name_layout(n, s, off);
    lemma_name_fits_written(n, s, off);
    assert forall|p: Name| #[trigger] name_parsed(p, s, off) implies name_read_back(p, n) by {
        assert forall|i: int| 0 <= i < k implies {
            &&& (#[trigger] p.records@[i]).platform_id == recs[i].platform_id
            &&& p.records@[i].encoding_id == recs[i].encoding_id
            &&& p.records@[i].language_id == recs[i].language_id
            &&& p.records@[i].name_id == recs[i].name_id
            &&& p.records@[i].string@ == recs[i].string@
        } by {
            assert(record_matches(p.records@[i], s, off + 6 + 12 * i, off + p.string_offset));
            lemma_name_record_back(n, s, off, p.records@[i], i);
        }
    }
}

/// Reading a written `name` table gives it back: the bytes `write`
/// appends fit what `parse` needs, so it succeeds, and every table it can
/// return has the format, and each record's IDs and string.
pub proof fn lemma_name_round_trip(n: Name)
    requires
        name_round_trips(n),
    ensures
        name_fits(n.encode(), 0),
        forall|p: Name| #[trigger] name_parsed(p, n.encode(), 0) ==> name_read_back(p, n),
{
    assert(placed(n.encode(), 0, n.encode())) by {
        reveal(placed);
        assert(n.encode().subrange(0, n.encode().len() as int) =~= n.encode());
    }
    lemma_name_read_back_at(n, n.encode(), 0);
}

} // verus!
