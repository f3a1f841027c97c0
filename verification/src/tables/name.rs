//! `name`: the naming table.
use vstd::prelude::*;
use vstd::utf8::{decode_utf8, encode_utf8, valid_utf8};
use crate::codec::{be_u16, u16_bytes, units_bytes};
use crate::error::{FontError, Tag};
use crate::parse::Parser;
use crate::tables::Table;
use crate::text::{well_formed_utf16, utf16_encoding, utf16_or_empty, utf16_units, utf8_lossy};
use crate::write::Writer;

verus! {

broadcast use crate::codec::group_codec;

#[derive(Debug, Clone, PartialEq)]
pub struct NameRecord {
    pub platform_id: u16,
    pub encoding_id: u16,
    pub language_id: u16,
    pub name_id: u16,
    pub string: String,
}

#[derive(Debug, Clone, PartialEq)]
pub struct Name {
    pub format: u16,
    pub count: u16,
    pub string_offset: u16,
    pub records: Vec<NameRecord>,
}

/// The string of the first record with this name ID.
pub open spec fn find_name(records: Seq<NameRecord>, name_id: u16) -> Option<Seq<char>>
    decreases records.len(),
{
    if records.len() == 0 {
        None
    } else if records[0].name_id == name_id {
        Some(records[0].string@)
    } else {
        find_name(records.drop_first(), name_id)
    }
}

/// The view of an optional string.
pub open spec fn opt_view(s: Option<String>) -> Option<Seq<char>> {
    match s {
        Some(v) => Some(v@),
        None => None,
    }
}

/// Records of the Windows platform, and Unicode full-repertoire ones, hold
/// UTF-16BE text; the others are read as UTF-8.
pub open spec fn is_utf16(platform_id: u16, encoding_id: u16) -> bool {
    platform_id == 3 || (platform_id == 0 && encoding_id == 3)
}

/// The big-endian 16-bit units of a byte string (a trailing odd byte is
/// dropped).
pub open spec fn utf16be_units(b: Seq<u8>) -> Seq<u16> {
    Seq::new((b.len() / 2) as nat, |i: int| be_u16(b, 2 * i))
}


/// The bytes that `write` stores for a record's string.
#[verifier::opaque]
pub open spec fn encoded_string(r: NameRecord) -> Seq<u8> {
    if is_utf16(r.platform_id, r.encoding_id) {
        units_bytes(utf16_encoding(r.string@))
    } else {
        encode_utf8(r.string@)
    }
}

/// Offset of record `k`'s string in the string storage, as `write` keeps
/// it: each length truncated to 16 bits.
pub open spec fn string_offset_of(records: Seq<NameRecord>, k: int) -> int
    decreases k,
{
    if k <= 0 {
        0
    } else {
        string_offset_of(records, k - 1) + (encoded_string(records[k - 1]).len() as u16)
    }
}

pub open spec fn encode_records(records: Seq<NameRecord>, k: int) -> Seq<u8>
    decreases k,
{
    if k <= 0 {
        Seq::empty()
    } else {
        let r = records[k - 1];
        encode_records(records, k - 1) + u16_bytes(r.platform_id) + u16_bytes(r.encoding_id)
            + u16_bytes(r.language_id) + u16_bytes(r.name_id) + u16_bytes(
            encoded_string(r).len() as u16,
        ) + u16_bytes(string_offset_of(records, k - 1) as u16)
    }
}

pub open spec fn encode_strings(records: Seq<NameRecord>, k: int) -> Seq<u8>
    decreases k,
{
    if k <= 0 {
        Seq::empty()
    } else {
        encode_strings(records, k - 1) + encoded_string(records[k - 1])
    }
}

/// `rec` is the record spelled by the twelve bytes at `pos`, with its
/// string decoded from the storage at `storage`.
pub open spec fn record_matches(rec: NameRecord, s: Seq<u8>, pos: int, storage: int) -> bool {
    let length = be_u16(s, pos + 8) as int;
    let start = storage + be_u16(s, pos + 10);
    let bytes = s.subrange(start, start + length);
    &&& pos + 12 <= s.len()
    &&& start + length <= s.len()
    &&& rec.platform_id == be_u16(s, pos)
    &&& rec.encoding_id == be_u16(s, pos + 2)
    &&& rec.language_id == be_u16(s, pos + 4)
    &&& rec.name_id == be_u16(s, pos + 6)
    &&& if is_utf16(rec.platform_id, rec.encoding_id) {
        if well_formed_utf16(utf16be_units(bytes)) {
            utf16_encoding(rec.string@) == utf16be_units(bytes)
        } else {
            rec.string@ == Seq::<char>::empty()
        }
    } else {
        valid_utf8(bytes) ==> rec.string@ == decode_utf8(bytes)
    }
}

/// Record `i`, and the string it points at in the storage, lie inside
/// the buffer.
pub open spec fn name_record_fits(s: Seq<u8>, off: int, i: int) -> bool {
    let pos = off + 6 + 12 * i;
    &&& pos + 12 <= s.len()
    &&& off + be_u16(s, off + 4) + be_u16(s, pos + 10) + be_u16(s, pos + 8) <= s.len()
}

/// The header, every record it counts and their strings lie inside the
/// buffer.
pub open spec fn name_fits(s: Seq<u8>, off: int) -> bool {
    &&& off + 6 <= s.len()
    &&& forall|i: int| 0 <= i < be_u16(s, off + 2) ==> #[trigger] name_record_fits(s, off, i)
}

impl Name {
    /// The header (with the actual record count and the storage right
    /// after the records), the records, then the strings.
    #[verifier::opaque]
    pub open spec fn encode(self) -> Seq<u8> {
        let n = self.records@.len();
        u16_bytes(self.format) + u16_bytes(n as u16) + u16_bytes((6 + n * 12) as u16)
            + encode_records(self.records@, n as int) + encode_strings(self.records@, n as int)
    }

    pub fn family_name(&self) -> (s: Option<String>)
        ensures
            opt_view(s) == find_name(self.records@, 1),
    {
        self.find(1)
    }

    pub fn subfamily_name(&self) -> (s: Option<String>)
        ensures
            opt_view(s) == find_name(self.records@, 2),
    {
        self.find(2)
    }

    pub fn full_name(&self) -> (s: Option<String>)
        ensures
            opt_view(s) == find_name(self.records@, 4),
    {
        self.find(4)
    }

    pub fn version(&self) -> (s: Option<String>)
        ensures
            opt_view(s) == find_name(self.records@, 5),
    {
        self.find(5)
    }

    /// The string of the first record with this name ID.
    fn find(&self, name_id: u16) -> (s: Option<String>)
        ensures
            opt_view(s) == find_name(self.records@, name_id),
    {
        let n = self.records.len();
        let mut i: usize = 0;
        proof {
            assert(self.records@.subrange(0, n as int) =~= self.records@);
        }
        while i < n
            invariant
                n == self.records@.len(),
                i <= n,
                find_name(self.records@, name_id) == find_name(
                    self.records@.subrange(i as int, n as int),
                    name_id,
                ),
            decreases n - i,
        {
            proof {
                let rest = self.records@.subrange(i as int, n as int);
                assert(rest[0] == self.records@[i as int]);
                assert(rest.drop_first() =~= self.records@.subrange(i + 1, n as int));
            }
            if self.records[i].name_id == name_id {
                return Some(self.records[i].string.clone());
            }
            i += 1;
        }
        None
    }
}

/// The 16-bit big-endian units of `bytes`, a trailing odd byte dropped.
fn be_units(bytes: &[u8]) -> (u: Vec<u16>)
    ensures
        u@ == utf16be_units(bytes@),
{
    let len = bytes.len();
    let n = len / 2;
    let mut u: Vec<u16> = Vec::new();
    let mut i: usize = 0;
    let mut j: usize = 0;
    while i < n
        invariant
            len == bytes@.len(),
            n == len / 2,
            i <= n,
            j == 2 * i,
            j <= bytes@.len(),
            u@ == utf16be_units(bytes@).subrange(0, i as int),
        decreases n - i,
    {
        assert(j + 2 <= len);
        let mut p = Parser::new(bytes, j);
        let v = match p.u16() {
            Ok(v) => v,
            Err(_) => 0,
        };
        u.push(v);
        i += 1;
        j += 2;
        proof {
            assert(u@ =~= utf16be_units(bytes@).subrange(0, i as int));
        }
    }
    proof {
        assert(utf16be_units(bytes@).subrange(0, n as int) =~= utf16be_units(bytes@));
    }
    u
}

/// Big-endian bytes of 16-bit units.
fn units_to_bytes(units: &Vec<u16>) -> (b: Vec<u8>)
    ensures
        b@ == units_bytes(units@),
{
    let mut w = Writer::new();
    let n = units.len();
    let mut i: usize = 0;
    while i < n
        invariant
            n == units@.len(),
            i <= n,
            w@ == units_bytes(units@.subrange(0, i as int)),
        decreases n - i,
    {
        w.write_u16(units[i]);
        proof {
            let s = units@.subrange(0, i + 1);
            assert(s.drop_last() =~= units@.subrange(0, i as int));
        }
        i += 1;
    }
    proof {
        assert(units@.subrange(0, n as int) =~= units@);
    }
    w.into_vec()
}

/// The bytes `write` stores for a record's string.
fn encode_string(rec: &NameRecord) -> (b: Vec<u8>)
    ensures
        b@ == encoded_string(*rec),
{
    reveal(encoded_string);
    if rec.platform_id == 3 || (rec.platform_id == 0 && rec.encoding_id == 3) {
        let units = utf16_units(rec.string.as_str());
        units_to_bytes(&units)
    } else {
        vstd::slice::slice_to_vec(rec.string.as_str().as_bytes())
    }
}

impl Table for Name {
    /// The string offsets that `write` accumulates fit in 16 bits, and the
    /// header size fits in a `usize`.
    open spec fn writable(&self) -> bool {
        &&& string_offset_of(self.records@, self.records@.len() as int) <= u16::MAX
        &&& 6 + 12 * self.records@.len() <= usize::MAX
    }

    /// `name`
    fn tag() -> (t: Tag)
        ensures
            t.0@ == seq![0x6eu8, 0x61, 0x6d, 0x65],
    {
        Tag([0x6e, 0x61, 0x6d, 0x65])
    }

    /// Reads the header and `count` records; each record's string is read
    /// from the string storage, as UTF-16BE or as UTF-8 by its platform.
    fn parse(buf: &[u8], offset: usize) -> (r: Result<Self, FontError>)
        ensures
            match r {
                Ok(n) => {
                    &&& name_fits(buf@, offset as int)
                    &&& offset + 6 <= buf@.len()
                    &&& n.format == be_u16(buf@, offset as int)
                    &&& n.count == be_u16(buf@, offset + 2)
                    &&& n.string_offset == be_u16(buf@, offset + 4)
                    &&& n.records@.len() == n.count
                    &&& forall|i: int|
                        0 <= i < n.records@.len() ==> record_matches(
                            #[trigger] n.records@[i],
                            buf@,
                            offset + 6 + 12 * i,
                            offset + n.string_offset,
                        )
                },
                Err(e) => !name_fits(buf@, offset as int) && e is OutOfBounds,
            },
    {
        let ghost s = buf@;
        let ghost off = offset as int;
        let mut p = Parser::new(buf, offset);
        let format = p.u16()?;
        let count = p.u16()?;
        let string_offset = p.u16()?;
        proof {
            p.lemma_bounds();
        }
        let mut records: Vec<NameRecord> = Vec::new();
        let mut k: u16 = 0;
        while k < count
            invariant
                s == buf@,
                off == offset as int,
                count == be_u16(s, off + 2),
                string_offset == be_u16(s, off + 4),
                forall|i: int| 0 <= i < k ==> #[trigger] name_record_fits(s, off, i),
                k <= count,
                p.data() == buf@,
                offset + 6 <= buf@.len(),
                buf@.len() <= usize::MAX,
                p.pos() == offset + 6 + 12 * k,
                p.pos() <= buf@.len(),
                records@.len() == k,
                forall|i: int|
                    0 <= i < k ==> record_matches(
                        #[trigger] records@[i],
                        buf@,
                        offset + 6 + 12 * i,
                        offset + string_offset,
                    ),
            decreases count - k,
        {
            let ghost pos = p.pos();
            proof {
                assert(name_record_fits(s, off, k as int) == (pos + 12 <= s.len() && off
                    + string_offset + be_u16(s, pos + 10) + be_u16(s, pos + 8) <= s.len()));
            }
            let platform_id = p.u16()?;
            let encoding_id = p.u16()?;
            let language_id = p.u16()?;
            let name_id = p.u16()?;
            let length = p.u16()?;
            let string_offset_rel = p.u16()?;
            let abs_offset = match offset.checked_add(string_offset as usize) {
                Some(base) => match base.checked_add(string_offset_rel as usize) {
                    Some(a) => a,
                    None => {
                        return Err(
                            FontError::OutOfBounds {
                                offset: base,
                                length: length as usize,
                                buf_len: buf.len(),
                            },
                        );
                    },
                },
                None => {
                    return Err(
                        FontError::OutOfBounds {
                            offset,
                            length: length as usize,
                            buf_len: buf.len(),
                        },
                    );
                },
            };
            let bytes = Parser::new(buf, abs_offset).slice(length as usize)?;
            let text = if platform_id == 3 || (platform_id == 0 && encoding_id == 3) {
                let units = be_units(bytes);
                utf16_or_empty(units.as_slice())
            } else {
                utf8_lossy(bytes)
            };
            let rec = NameRecord { platform_id, encoding_id, language_id, name_id, string: text };
            proof {
                assert(name_record_fits(buf@, off, k as int));
            }
            proof {
                assert(record_matches(rec, buf@, pos, offset + string_offset));
            }
            let ghost before = records@;
            records.push(rec);
            proof {
                assert forall|i: int| 0 <= i < k + 1 implies record_matches(
                    #[trigger] records@[i],
                    buf@,
                    offset + 6 + 12 * i,
                    offset + string_offset,
                ) by {
                    if i < k {
                        assert(records@[i] == before[i]);
                    }
                }
            }
            k += 1;
        }
        Ok(Name { format, count, string_offset, records })
    }

    fn write(&self, w: &mut Writer) -> (r: Result<(), FontError>)
        ensures
            r is Ok,
            final(w)@ == old(w)@ + self.encode(),
    {
        let n = self.records.len();
        let mut encoded: Vec<Vec<u8>> = Vec::new();
        let mut string_offsets: Vec<u16> = Vec::new();
        let mut current_offset: u16 = 0;
        let mut i: usize = 0;
        proof {
            lemma_string_offset_monotone(self.records@, 0, n as int);
        }
        while i < n
            invariant
                n == self.records@.len(),
                i <= n,
                string_offset_of(self.records@, n as int) <= u16::MAX,
                current_offset == string_offset_of(self.records@, i as int),
                encoded@.len() == i,
                string_offsets@.len() == i,
                forall|k: int|
                    0 <= k < i ==> (#[trigger] encoded@[k])@ == encoded_string(self.records@[k]),
                forall|k: int|
                    0 <= k < i ==> #[trigger] string_offsets@[k] == string_offset_of(
                        self.records@,
                        k,
                    ),
            decreases n - i,
        {
            let bytes = encode_string(&self.records[i]);
            proof {
                lemma_string_offset_monotone(self.records@, i + 1, n as int);
            }
            string_offsets.push(current_offset);
            current_offset += bytes.len() as u16;
            encoded.push(bytes);
            i += 1;
        }
        let header_size = 6 + 12 * n;
        w.write_u16(self.format);
        w.write_u16(n as u16);
        w.write_u16(header_size as u16);
        let ghost hdr = w@;
        let mut j: usize = 0;
        while j < n
            invariant
                n == self.records@.len(),
                j <= n,
                encoded@.len() == n,
                string_offsets@.len() == n,
                forall|k: int|
                    0 <= k < n ==> (#[trigger] encoded@[k])@ == encoded_string(self.records@[k]),
                forall|k: int|
                    0 <= k < n ==> #[trigger] string_offsets@[k] == string_offset_of(
                        self.records@,
                        k,
                    ),
                w@ == hdr + encode_records(self.records@, j as int),
            decreases n - j,
        {
            let rec = &self.records[j];
            w.write_u16(rec.platform_id);
            w.write_u16(rec.encoding_id);
            w.write_u16(rec.language_id);
            w.write_u16(rec.name_id);
            w.write_u16(encoded[j].len() as u16);
            w.write_u16(string_offsets[j]);
            j += 1;
            proof {
                assert(w@ =~= hdr + encode_records(self.records@, j as int));
            }
        }
        let ghost mid = w@;
        let mut q: usize = 0;
        while q < n
            invariant
                n == self.records@.len(),
                q <= n,
                encoded@.len() == n,
                forall|k: int|
                    0 <= k < n ==> (#[trigger] encoded@[k])@ == encoded_string(self.records@[k]),
                w@ == mid + encode_strings(self.records@, q as int),
            decreases n - q,
        {
            w.write_bytes(encoded[q].as_slice());
            q += 1;
            proof {
                assert(w@ =~= mid + encode_strings(self.records@, q as int));
            }
        }
        proof {
            reveal(Name::encode);
            assert(w@ =~= old(w)@ + self.encode());
        }
        Ok(())
    }
}

proof fn lemma_string_offset_monotone(records: Seq<NameRecord>, a: int, b: int)
    requires
        0 <= a <= b,
    ensures
        string_offset_of(records, a) <= string_offset_of(records, b),
    decreases b - a,
{
    if a < b {
        lemma_string_offset_monotone(records, a, b - 1);
    }
}


/// A name record as values.
pub open spec fn record_view(r: NameRecord) -> (u16, u16, u16, u16, Seq<char>) {
    (r.platform_id, r.encoding_id, r.language_id, r.name_id, r.string@)
}

pub open spec fn records_view(s: Seq<NameRecord>) -> Seq<(u16, u16, u16, u16, Seq<char>)> {
    Seq::new(s.len(), |i: int| record_view(s[i]))
}

/// A record with this name ID, and for `windows_only` in the Windows
/// Unicode English (US) encoding.
pub open spec fn selects(r: NameRecord, name_id: u16, windows_only: bool) -> bool {
    r.name_id == name_id && (windows_only ==> r.platform_id == 3 && r.encoding_id == 1
        && r.language_id == 0x0409)
}

/// The records after setting a name: the selected records take the new
/// string; when none is selected, a Windows Unicode English (US) record
/// with it is added.
pub open spec fn names_set(
    recs: Seq<NameRecord>,
    name_id: u16,
    windows_only: bool,
    value: Seq<char>,
) -> Seq<(u16, u16, u16, u16, Seq<char>)> {
    if exists|i: int| 0 <= i < recs.len() && #[trigger] selects(recs[i], name_id, windows_only) {
        Seq::new(
            recs.len(),
            |i: int|
                if selects(recs[i], name_id, windows_only) {
                    (recs[i].platform_id, recs[i].encoding_id, recs[i].language_id, name_id, value)
                } else {
                    record_view(recs[i])
                },
        )
    } else {
        records_view(recs).push((3, 1, 0x0409, name_id, value))
    }
}

impl Name {
    /// Sets the string of the selected records, or adds a Windows record.
    pub fn set_matching(&mut self, name_id: u16, windows_only: bool, value: &str)
        ensures
            records_view(final(self).records@) == names_set(
                old(self).records@,
                name_id,
                windows_only,
                value@,
            ),
            final(self).format == old(self).format,
            final(self).count == old(self).count,
            final(self).string_offset == old(self).string_offset,
    {
        let ghost recs = self.records@;
        let n = self.records.len();
        let mut out: Vec<NameRecord> = Vec::new();
        let mut found = false;
        let mut i: usize = 0;
        while i < n
            invariant
                recs == self.records@,
                n == recs.len(),
                i <= n,
                out@.len() == i,
                found == exists|j: int| 0 <= j < i && #[trigger] selects(recs[j], name_id, windows_only),
                forall|j: int|
                    0 <= j < i ==> #[trigger] record_view(out@[j]) == if selects(
                        recs[j],
                        name_id,
                        windows_only,
                    ) {
                        (recs[j].platform_id, recs[j].encoding_id, recs[j].language_id, name_id, value@)
                    } else {
                        record_view(recs[j])
                    },
            decreases n - i,
        {
            let r = &self.records[i];
            let sel = r.name_id == name_id && (!windows_only || (r.platform_id == 3
                && r.encoding_id == 1 && r.language_id == 0x0409));
            let ghost old_out = out@;
            let string = if sel {
                found = true;
                value.to_owned()
            } else {
                r.string.clone()
            };
            out.push(
                NameRecord {
                    platform_id: r.platform_id,
                    encoding_id: r.encoding_id,
                    language_id: r.language_id,
                    name_id: r.name_id,
                    string,
                },
            );
            i += 1;
            proof {
                assert(sel == selects(recs[i - 1], name_id, windows_only));
                if sel {
                    assert(selects(recs[i - 1], name_id, windows_only));
                } else {
                    assert forall|j: int| 0 <= j < i && #[trigger] selects(recs[j], name_id, windows_only) implies j < i - 1 by {}
                }
                assert forall|j: int| 0 <= j < i implies #[trigger] record_view(out@[j]) == if selects(
                    recs[j],
                    name_id,
                    windows_only,
                ) {
                    (recs[j].platform_id, recs[j].encoding_id, recs[j].language_id, name_id, value@)
                } else {
                    record_view(recs[j])
                } by {
                    if j < i - 1 {
                        assert(out@[j] == old_out[j]);
                    }
                }
            }
        }
        if !found {
            out.push(
                NameRecord {
                    platform_id: 3,
                    encoding_id: 1,
                    language_id: 0x0409,
                    name_id,
                    string: value.to_owned(),
                },
            );
        }
        self.records = out;
        proof {
            if found {
                assert(records_view(self.records@) =~= names_set(recs, name_id, windows_only, value@));
            } else {
                assert forall|j: int| 0 <= j < n implies !#[trigger] selects(recs[j], name_id, windows_only) by {}
                assert(records_view(self.records@) =~= names_set(recs, name_id, windows_only, value@));
            }
        }
    }

    /// Sets the family name (name ID 1) in every record that has one, or
    /// adds a Windows record with it.
    pub fn set_family(&mut self, name: &str)
        ensures
            records_view(final(self).records@) == names_set(old(self).records@, 1, false, name@),
            final(self).format == old(self).format,
            final(self).count == old(self).count,
            final(self).string_offset == old(self).string_offset,
    {
        self.set_matching(1, false, name)
    }

    /// Sets the subfamily name (name ID 2) in every record that has one, or
    /// adds a Windows record with it.
    pub fn set_subfamily(&mut self, name: &str)
        ensures
            records_view(final(self).records@) == names_set(old(self).records@, 2, false, name@),
            final(self).format == old(self).format,
            final(self).count == old(self).count,
            final(self).string_offset == old(self).string_offset,
    {
        self.set_matching(2, false, name)
    }
}

} // verus!
