//! `SVG `: SVG documents for color glyphs.
use vstd::prelude::*;
use crate::codec::{be_u16, be_u32, u16_bytes, u32_bytes};
use crate::error::{FontError, Tag};
use crate::parse::{offset_add, Parser};
use crate::tables::Table;
use crate::write::Writer;

verus! {

broadcast use crate::codec::group_codec;

#[derive(Debug, Clone, PartialEq)]
pub struct Svg {
    pub version: u16,
    pub entries: Vec<SvgDocumentRecord>,
    pub documents: Vec<Vec<u8>>,
}

#[derive(Debug, Clone, Copy, PartialEq, Eq, Structural)]
pub struct SvgDocumentRecord {
    pub start_glyph_id: u16,
    pub end_glyph_id: u16,
    pub svg_doc_offset: u32,
    pub svg_doc_length: u32,
}

pub open spec fn record_at(s: Seq<u8>, i: int) -> SvgDocumentRecord {
    SvgDocumentRecord {
        start_glyph_id: be_u16(s, i),
        end_glyph_id: be_u16(s, i + 2),
        svg_doc_offset: be_u32(s, i + 4),
        svg_doc_length: be_u32(s, i + 8),
    }
}

/// `doc` holds the bytes that `rec` points at, relative to the document
/// list at `list`.
pub open spec fn doc_ok(doc: Vec<u8>, rec: SvgDocumentRecord, list: int, s: Seq<u8>) -> bool {
    let start = list + rec.svg_doc_offset;
    &&& start + rec.svg_doc_length <= s.len()
    &&& doc@ == s.subrange(start, start + rec.svg_doc_length)
}

/// Where document `i`'s bytes end: its record's offset and length added
/// to the document list at `list`.
pub open spec fn doc_end(s: Seq<u8>, list: int, i: int) -> int {
    list + be_u32(s, list + 2 + 12 * i + 4) + be_u32(s, list + 2 + 12 * i + 8)
}

/// The header, the record array and every document lie inside the buffer
/// (a document may not end at the last addressable byte).
pub open spec fn svg_fits(s: Seq<u8>, off: int) -> bool {
    let list = off + be_u32(s, off + 2);
    &&& off + 6 <= s.len()
    &&& list + 2 + 12 * be_u16(s, list) <= s.len()
    &&& forall|i: int|
        0 <= i < be_u16(s, list) ==> #[trigger] doc_end(s, list, i) < usize::MAX && doc_end(
            s,
            list,
            i,
        ) <= s.len()
}

/// What `parse` reads at `off`: the version, the records of the document
/// list, and the bytes each record points at.
pub open spec fn svg_parsed(svg: Svg, s: Seq<u8>, off: int) -> bool {
    let list = off + be_u32(s, off + 2);
    &&& svg.version == be_u16(s, off)
    &&& svg.entries@.len() == be_u16(s, list)
    &&& svg.documents@.len() == svg.entries@.len()
    &&& forall|i: int|
        0 <= i < svg.entries@.len() ==> #[trigger] svg.entries@[i] == record_at(s, list + 2 + 12 * i)
    &&& forall|i: int|
        0 <= i < svg.documents@.len() ==> doc_ok(#[trigger] svg.documents@[i], svg.entries@[i], list, s)
}

/// Length of document `i`, or 0 if there is none.
pub open spec fn doc_len(docs: Seq<Vec<u8>>, i: int) -> int {
    if 0 <= i < docs.len() { docs[i]@.len() as int } else { 0 }
}

/// Where document `i` is written, relative to the document list: after
/// the record array and the documents before it.
pub open spec fn doc_offset(num_entries: int, docs: Seq<Vec<u8>>, i: int) -> int
    decreases i,
{
    if i <= 0 {
        2 + 12 * num_entries
    } else {
        doc_offset(num_entries, docs, i - 1) + doc_len(docs, i - 1)
    }
}

pub proof fn lemma_doc_offset_monotone(n: int, docs: Seq<Vec<u8>>, a: int, b: int)
    requires
        a <= b,
    ensures
        doc_offset(n, docs, a) <= doc_offset(n, docs, b),
    decreases b - a,
{
    if a < b {
        lemma_doc_offset_monotone(n, docs, a, b - 1);
    }
}

pub open spec fn encode_records(entries: Seq<SvgDocumentRecord>, docs: Seq<Vec<u8>>, k: int) -> Seq<u8>
    decreases k,
{
    if k <= 0 {
        Seq::empty()
    } else {
        let r = entries[k - 1];
        encode_records(entries, docs, k - 1) + u16_bytes(r.start_glyph_id) + u16_bytes(
            r.end_glyph_id,
        ) + u32_bytes(doc_offset(entries.len() as int, docs, k - 1) as u32) + u32_bytes(
            doc_len(docs, k - 1) as u32,
        )
    }
}

pub open spec fn concat_docs(docs: Seq<Vec<u8>>) -> Seq<u8>
    decreases docs.len(),
{
    if docs.len() == 0 {
        Seq::empty()
    } else {
        concat_docs(docs.drop_last()) + docs.last()@
    }
}

impl Svg {
    /// The header, the record array (offsets and lengths recomputed from
    /// the documents), then the documents.
    pub open spec fn encode(self) -> Seq<u8> {
        u16_bytes(self.version) + u32_bytes(6) + u16_bytes(self.entries@.len() as u16)
            + encode_records(self.entries@, self.documents@, self.entries@.len() as int)
            + concat_docs(self.documents@)
    }
}

impl Table for Svg {
    open spec fn writable(&self) -> bool {
        doc_offset(self.entries@.len() as int, self.documents@, self.entries@.len() as int)
            <= u32::MAX
    }

    /// `SVG `
    fn tag() -> (t: Tag)
        ensures
            t.0@ == seq![0x53u8, 0x56, 0x47, 0x20],
    {
        Tag([0x53, 0x56, 0x47, 0x20])
    }

    /// Reads the header, the document records, and for each record the
    /// bytes of its document.
    fn parse(buf: &[u8], offset: usize) -> (r: Result<Self, FontError>)
        ensures
            match r {
                Ok(svg) => svg_fits(buf@, offset as int) && svg_parsed(svg, buf@, offset as int),
                Err(e) => !svg_fits(buf@, offset as int) && e is OutOfBounds,
            },
    {
        let ghost s = buf@;
        let ghost off = offset as int;
        let mut p = Parser::new(buf, offset);
        let version = p.u16()?;
        let offset_doc_list = p.u32()? as usize;
        proof {
            p.lemma_bounds();
        }
        let list = offset_add(offset, offset_doc_list);
        let mut dp = Parser::new(buf, list);
        let num_entries = dp.u16()?;
        let mut entries: Vec<SvgDocumentRecord> = Vec::new();
        let mut k: u16 = 0;
        while k < num_entries
            invariant
                s == buf@,
                off == offset as int,
                off + 6 <= s.len(),
                list == off + be_u32(s, off + 2),
                num_entries == be_u16(s, list as int),
                k <= num_entries,
                dp.data() == buf@,
                list + 2 <= buf@.len(),
                dp.pos() == list + 2 + 12 * k,
                dp.pos() <= buf@.len(),
                entries@.len() == k,
                forall|i: int|
                    0 <= i < k ==> list + 2 + 12 * i + 12 <= buf@.len() && #[trigger] entries@[i]
                        == record_at(buf@, list + 2 + 12 * i),
            decreases num_entries - k,
        {
            let start_glyph_id = match dp.u16() {
                Ok(v) => v,
                Err(e) => {
                    assert(!svg_fits(s, off));
                    return Err(e);
                },
            };
            let end_glyph_id = match dp.u16() {
                Ok(v) => v,
                Err(e) => {
                    assert(!svg_fits(s, off));
                    return Err(e);
                },
            };
            let svg_doc_offset = match dp.u32() {
                Ok(v) => v,
                Err(e) => {
                    assert(!svg_fits(s, off));
                    return Err(e);
                },
            };
            let svg_doc_length = match dp.u32() {
                Ok(v) => v,
                Err(e) => {
                    assert(!svg_fits(s, off));
                    return Err(e);
                },
            };
            entries.push(SvgDocumentRecord { start_glyph_id, end_glyph_id, svg_doc_offset, svg_doc_length });
            k += 1;
        }
        let mut documents: Vec<Vec<u8>> = Vec::new();
        let mut j: usize = 0;
        while j < entries.len()
            invariant
                s == buf@,
                off == offset as int,
                off + 6 <= s.len(),
                num_entries == be_u16(s, list as int),
                list + 2 + 12 * num_entries <= s.len(),
                j <= entries@.len(),
                list + 2 <= buf@.len(),
                entries@.len() == num_entries,
                list == offset + be_u32(buf@, offset + 2),
                forall|i: int|
                    0 <= i < num_entries ==> list + 2 + 12 * i + 12 <= buf@.len()
                        && #[trigger] entries@[i] == record_at(buf@, list + 2 + 12 * i),
                buf@.len() <= usize::MAX,
                documents@.len() == j,
                forall|i: int|
                    0 <= i < j ==> doc_ok(#[trigger] documents@[i], entries@[i], list as int, buf@),
                forall|i: int| 0 <= i < j ==> #[trigger] doc_end(s, list as int, i) < usize::MAX,
            decreases entries@.len() - j,
        {
            let rec = entries[j];
            let start = offset_add(list, rec.svg_doc_offset as usize);
            let end = offset_add(start, rec.svg_doc_length as usize);
            if end > buf.len() || end == usize::MAX {
                proof {
                    assert(record_at(s, list + 2 + 12 * j) == rec);
                    assert(!(doc_end(s, list as int, j as int) < usize::MAX && doc_end(s, list as int, j as int) <= s.len()));
                    assert(!svg_fits(s, off));
                }
                return Err(
                    FontError::OutOfBounds {
                        offset: start,
                        length: rec.svg_doc_length as usize,
                        buf_len: buf.len(),
                    },
                );
            }
            let doc = vstd::slice::slice_to_vec(vstd::slice::slice_subrange(buf, start, end));
            let ghost before = documents@;
            documents.push(doc);
            proof {
                assert(record_at(s, list + 2 + 12 * j) == rec);
                assert(doc_end(s, list as int, j as int) < usize::MAX);
                assert(doc_ok(documents@[j as int], entries@[j as int], list as int, buf@));
                assert forall|i: int| 0 <= i < j + 1 implies doc_ok(
                    #[trigger] documents@[i],
                    entries@[i],
                    list as int,
                    buf@,
                ) by {
                    if i < j {
                        assert(documents@[i] == before[i]);
                    }
                }
            }
            j += 1;
        }
        proof {
            assert forall|i: int| 0 <= i < num_entries implies #[trigger] doc_end(s, list as int, i) < usize::MAX
                && doc_end(s, list as int, i) <= s.len() by {
                assert(doc_ok(documents@[i], entries@[i], list as int, buf@));
                assert(entries@[i] == record_at(buf@, list + 2 + 12 * i));
            }
        }
        Ok(Svg { version, entries, documents })
    }

    fn write(&self, w: &mut Writer) -> (r: Result<(), FontError>)
        ensures
            r is Ok,
            final(w)@ == old(w)@ + self.encode(),
    {
        let n = self.entries.len();
        proof {
            lemma_doc_offset_monotone(n as int, self.documents@, 0, n as int);
        }
        let first_doc_offset: u32 = 2u32 + n as u32 * 12;
        w.write_u16(self.version);
        w.write_u32(6);
        w.write_u16(n as u16);
        let ghost hdr = w@;
        let mut current_doc_offset: u32 = first_doc_offset;
        let mut i: usize = 0;
        while i < n
            invariant
                n == self.entries@.len(),
                i <= n,
                doc_offset(n as int, self.documents@, n as int) <= u32::MAX,
                current_doc_offset == doc_offset(n as int, self.documents@, i as int),
                w@ == hdr + encode_records(self.entries@, self.documents@, i as int),
            decreases n - i,
        {
            let rec = &self.entries[i];
            let doc_len: u32 = if i < self.documents.len() {
                self.documents[i].len() as u32
            } else {
                0
            };
            proof {
                lemma_doc_offset_monotone(n as int, self.documents@, i + 1, n as int);
            }
            w.write_u16(rec.start_glyph_id);
            w.write_u16(rec.end_glyph_id);
            w.write_u32(current_doc_offset);
            w.write_u32(doc_len);
            current_doc_offset += doc_len;
            i += 1;
            proof {
                assert(w@ =~= hdr + encode_records(self.entries@, self.documents@, i as int));
            }
        }
        let ghost mid = w@;
        let m = self.documents.len();
        let mut j: usize = 0;
        while j < m
            invariant
                m == self.documents@.len(),
                j <= m,
                w@ == mid + concat_docs(self.documents@.subrange(0, j as int)),
            decreases m - j,
        {
            w.write_bytes(self.documents[j].as_slice());
            proof {
                let s = self.documents@.subrange(0, j + 1);
                assert(s.drop_last() =~= self.documents@.subrange(0, j as int));
            }
            j += 1;
            proof {
                assert(w@ =~= mid + concat_docs(self.documents@.subrange(0, j as int)));
            }
        }
        proof {
            assert(self.documents@.subrange(0, m as int) =~= self.documents@);
            assert(w@ =~= old(w)@ + self.encode());
        }
        Ok(())
    }
}

} // verus!
