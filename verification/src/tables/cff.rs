//! `CFF ` / `CFF2`: PostScript outlines. The bytes are kept whole; the
//! header, the Name INDEX and the first Top DICT are read for inspection.
use vstd::prelude::*;
use vstd::utf8::{decode_utf8, valid_utf8};
use crate::codec::{be_i16, be_i32, be_u16, be_u32};
use crate::error::{FontError, Tag};
use crate::parse::{offset_add, Parser};
use crate::tables::fvar::sat;
use crate::tables::Table;
use crate::text::{lossy_text, utf8_lossy};
use crate::write::Writer;

verus! {

broadcast use crate::codec::group_codec;

#[derive(Debug, Clone, PartialEq)]
pub struct Cff {
    pub is_cff2: bool,
    pub major_version: u8,
    pub minor_version: u8,
    pub header_size: u8,
    pub off_size: u8,
    pub name_index: Vec<String>,
    pub top_dict: Vec<TopDictEntry>,
    pub raw: Vec<u8>,
}

#[derive(Debug, Clone, PartialEq)]
pub struct TopDictEntry {
    pub operator: u16,
    pub operands: Vec<DictOperand>,
}

/// A Top DICT operand. Real numbers are passed over when a DICT is read,
/// so every operand read is an integer.
#[derive(Debug, Clone, Copy, PartialEq, Eq, Structural)]
pub enum DictOperand {
    Integer(i32),
}

/// `k` times an INDEX offset size (1, 2 or 4).
pub open spec fn times_osz(k: int, osz: int) -> int {
    if osz == 1 {
        k
    } else if osz == 2 {
        2 * k
    } else {
        4 * k
    }
}

/// The offset of width `osz` at `p`.
pub open spec fn off_at(s: Seq<u8>, p: int, osz: int) -> int {
    if osz == 1 {
        s[p] as int
    } else if osz == 2 {
        be_u16(s, p) as int
    } else {
        be_u32(s, p) as int
    }
}

pub open spec fn index_osz(s: Seq<u8>, off: int) -> int {
    s[off + 2] as int
}

/// Offset `k` of the INDEX at `off`.
pub open spec fn index_offset(s: Seq<u8>, off: int, k: int) -> int {
    off_at(s, off + 3 + times_osz(k, index_osz(s, off)), index_osz(s, off))
}

/// Where the object data of the INDEX at `off` starts.
pub open spec fn index_data_start(s: Seq<u8>, off: int) -> int {
    off + 3 + times_osz(be_u16(s, off) + 1, index_osz(s, off))
}

/// The INDEX at `off` can be read: its count, and unless that is 0, a
/// valid offset size, all offsets, and every object inside the data.
pub open spec fn index_fits(s: Seq<u8>, off: int) -> bool {
    let n = be_u16(s, off) as int;
    let ds = index_data_start(s, off);
    &&& off + 2 <= s.len()
    &&& n != 0 ==> {
        &&& off + 3 <= s.len()
        &&& (index_osz(s, off) == 1 || index_osz(s, off) == 2 || index_osz(s, off) == 4)
        &&& ds <= s.len()
        &&& forall|i: int|
            0 <= i < n ==> #[trigger] index_offset(s, off, i) <= index_offset(s, off, i + 1)
                && ds + index_offset(s, off, i + 1) - 1 <= s.len()
    }
}

/// Object `i` of the INDEX at `off`.
pub open spec fn index_entry(s: Seq<u8>, off: int, i: int) -> Seq<u8> {
    let ds = index_data_start(s, off);
    s.subrange(ds + index_offset(s, off, i) - 1, ds + index_offset(s, off, i + 1) - 1)
}

/// Where the INDEX at `off` ends, as reckoned from its count, offset size
/// and last offset; reads past the data count as 0 (and a missing offset
/// size as 1).
pub open spec fn index_end(s: Seq<u8>, off: int) -> int {
    let n = be_u16(s, off) as int;
    if off + 2 > s.len() || n == 0 {
        off + 2
    } else {
        let has_osz = off + 3 <= s.len();
        let osz = if has_osz { s[off + 2] as int } else { 1int };
        let lp = (if has_osz { off + 3 } else { off + 2 }) + n * osz;
        let last = if osz == 1 {
            if lp + 1 <= s.len() { s[lp] as int } else { 0int }
        } else if osz == 2 {
            if lp + 2 <= s.len() { be_u16(s, lp) as int } else { 0int }
        } else if osz == 4 {
            if lp + 4 <= s.len() { be_u32(s, lp) as int } else { 0int }
        } else {
            0int
        };
        off + 3 + (n + 1) * osz + last - 1
    }
}

/// The first position at or after `j` whose byte ends a real number (its
/// low nibble is 15), or the end of the data.
pub open spec fn skip_real(d: Seq<u8>, j: int) -> int
    decreases d.len() - j,
{
    if j >= d.len() || j < 0 {
        j
    } else if d[j] & 0x0Fu8 == 0x0Fu8 {
        j
    } else {
        skip_real(d, j + 1)
    }
}

/// The (operator, integer operands) entries of DICT data from `i` on,
/// `ops` the operands gathered so far. An operator takes the operands
/// before it; a two-byte operator 12 x is 1200 + x; real numbers are
/// passed over; data that ends inside an operand or operator ends the
/// reading.
pub open spec fn decode_dict(d: Seq<u8>, i: int, ops: Seq<i32>) -> Seq<(u16, Seq<i32>)>
    decreases d.len() + 1 - i,
{
    if i >= d.len() || i < 0 {
        Seq::empty()
    } else {
        let b0 = d[i];
        if b0 <= 21 {
            if b0 == 12 {
                if i + 1 >= d.len() {
                    Seq::empty()
                } else {
                    seq![((1200 + d[i + 1]) as u16, ops)] + decode_dict(d, i + 2, Seq::empty())
                }
            } else {
                seq![(b0 as u16, ops)] + decode_dict(d, i + 1, Seq::empty())
            }
        } else if b0 == 28 {
            if i + 2 < d.len() {
                decode_dict(d, i + 3, ops.push(be_i16(d, i + 1) as i32))
            } else {
                Seq::empty()
            }
        } else if b0 == 29 {
            if i + 4 < d.len() {
                decode_dict(d, i + 5, ops.push(be_i32(d, i + 1)))
            } else {
                Seq::empty()
            }
        } else if 32 <= b0 <= 246 {
            decode_dict(d, i + 1, ops.push((b0 - 139) as i32))
        } else if 247 <= b0 <= 250 {
            if i + 1 >= d.len() {
                Seq::empty()
            } else {
                decode_dict(d, i + 2, ops.push(((b0 - 247) * 256 + d[i + 1] + 108) as i32))
            }
        } else if 251 <= b0 <= 254 {
            if i + 1 >= d.len() {
                Seq::empty()
            } else {
                decode_dict(d, i + 2, ops.push((-(b0 - 251) * 256 - d[i + 1] - 108) as i32))
            }
        } else if b0 == 30 {
            proof {
                lemma_skip_real_bounds(d, i + 1);
            }
            decode_dict(d, skip_real(d, i + 1) + 1, ops)
        } else {
            decode_dict(d, i + 1, ops)
        }
    }
}

pub proof fn lemma_skip_real_bounds(d: Seq<u8>, j: int)
    requires
        0 <= j,
    ensures
        j <= skip_real(d, j),
        skip_real(d, j) <= if j <= d.len() { d.len() as int } else { j },
    decreases d.len() - j,
{
    if j < d.len() && d[j] & 0x0Fu8 != 0x0Fu8 {
        lemma_skip_real_bounds(d, j + 1);
    }
}

pub open spec fn operand_values(ops: Seq<DictOperand>) -> Seq<i32> {
    Seq::new(ops.len(), |k: int| match ops[k] {
        DictOperand::Integer(v) => v,
    })
}

pub open spec fn entry_model(e: TopDictEntry) -> (u16, Seq<i32>) {
    (e.operator, operand_values(e.operands@))
}

pub open spec fn entries_model(v: Seq<TopDictEntry>) -> Seq<(u16, Seq<i32>)> {
    Seq::new(v.len(), |k: int| entry_model(v[k]))
}

/// The CFF header and what `Cff::parse` reads after it.
pub open spec fn cff_parsed(c: Cff, s: Seq<u8>) -> bool {
    let cff2 = s[0] == 2;
    let ni = s[2] as int;
    let ti = sat(index_end(s, ni));
    &&& c.is_cff2 == cff2
    &&& c.major_version == s[0]
    &&& c.minor_version == s[1]
    &&& c.header_size == s[2]
    &&& c.off_size == if cff2 { 0u8 } else { s[3] }
    &&& c.raw@ == s
    &&& if !cff2 && index_fits(s, ni) {
        &&& c.name_index@.len() == be_u16(s, ni)
        &&& forall|i: int|
            0 <= i < c.name_index@.len() ==> (#[trigger] c.name_index@[i])@ == lossy_text(
                index_entry(s, ni, i),
            ) && (valid_utf8(index_entry(s, ni, i)) ==> c.name_index@[i]@ == decode_utf8(
                index_entry(s, ni, i),
            ))
        &&& if index_fits(s, ti) && be_u16(s, ti) > 0 {
            entries_model(c.top_dict@) == decode_dict(index_entry(s, ti, 0), 0, Seq::empty())
        } else {
            c.top_dict@.len() == 0
        }
    } else {
        c.name_index@.len() == 0 && c.top_dict@.len() == 0
    }
}

/// Reads an INDEX offset of the given width.
fn read_off(p: &mut Parser, osz: u8) -> (r: Result<u32, FontError>)
    requires
        osz == 1 || osz == 2 || osz == 4,
    ensures
        final(p).data() == old(p).data(),
        match r {
            Ok(v) => old(p).pos() + osz <= old(p).data().len() && v == off_at(
                old(p).data(),
                old(p).pos(),
                osz as int,
            ) && final(p).pos() == old(p).pos() + osz,
            Err(_) => old(p).pos() + osz > old(p).data().len(),
        },
{
    if osz == 1 {
        let v = p.u8()?;
        Ok(v as u32)
    } else if osz == 2 {
        let v = p.u16()?;
        Ok(v as u32)
    } else {
        p.u32()
    }
}

/// Reads the objects of the INDEX at `offset`; where the original format
/// leaves an object outside the data, this is an error.
#[verifier::spinoff_prover]
#[verifier::rlimit(40)]
fn parse_index<'a>(buf: &'a [u8], offset: usize) -> (r: Result<Vec<&'a [u8]>, FontError>)
    ensures
        match r {
            Ok(v) => {
                &&& index_fits(buf@, offset as int)
                &&& v@.len() == be_u16(buf@, offset as int)
                &&& forall|i: int|
                    0 <= i < v@.len() ==> (#[trigger] v@[i])@ == index_entry(buf@, offset as int, i)
            },
            Err(_) => !index_fits(buf@, offset as int),
        },
{
    let ghost s = buf@;
    let mut p = Parser::new(buf, offset);
    let count = p.u16()?;
    if count == 0 {
        return Ok(Vec::new());
    }
    let off_size = p.u8()?;
    if off_size != 1 && off_size != 2 && off_size != 4 {
        return Err(FontError::invalid_table(Tag([0x43, 0x46, 0x46, 0x20]), "Invalid offSize in INDEX"));
    }
    let ghost osz = off_size as int;
    let mut offsets: Vec<u32> = Vec::new();
    let mut k: usize = 0;
    let n = count as usize;
    while k <= n
        invariant
            p.data() == s,
            s == buf@,
            n == count,
            count == be_u16(s, offset as int),
            count != 0,
            off_size == index_osz(s, offset as int),
            off_size == 1 || off_size == 2 || off_size == 4,
            offset + 3 <= s.len(),
            osz == off_size as int,
            k <= n + 1,
            p.pos() == offset + 3 + times_osz(k as int, osz),
            p.pos() <= s.len(),
            offsets@.len() == k,
            forall|i: int| 0 <= i < k ==> #[trigger] offsets@[i] == index_offset(s, offset as int, i),
        decreases n + 1 - k,
    {
        let v = match read_off(&mut p, off_size) {
            Ok(v) => v,
            Err(e) => {
                proof {
                    assert(index_data_start(s, offset as int) > s.len());
                }
                return Err(e);
            },
        };
        offsets.push(v);
        k += 1;
    }
    proof {
        assert(buf@.len() == buf.len());
    }
    let data_start = p.offset();
    assert(data_start == index_data_start(s, offset as int));
    let mut entries: Vec<&'a [u8]> = Vec::new();
    let mut i: usize = 0;
    while i < n
        invariant
            s == buf@,
            s.len() <= usize::MAX,
            n == count,
            count == be_u16(s, offset as int),
            count != 0,
            off_size == index_osz(s, offset as int),
            off_size == 1 || off_size == 2 || off_size == 4,
            offset + 3 <= s.len(),
            data_start == index_data_start(s, offset as int),
            data_start <= s.len(),
            data_start >= 3,
            offsets@.len() == n + 1,
            forall|j: int| 0 <= j <= n ==> #[trigger] offsets@[j] == index_offset(s, offset as int, j),
            i <= n,
            entries@.len() == i,
            forall|j: int|
                0 <= j < i ==> #[trigger] index_offset(s, offset as int, j) <= index_offset(
                    s,
                    offset as int,
                    j + 1,
                ) && data_start + index_offset(s, offset as int, j + 1) - 1 <= s.len(),
            forall|j: int|
                0 <= j < i ==> (#[trigger] entries@[j])@ == index_entry(s, offset as int, j),
        decreases n - i,
    {
        let a = offsets[i] as usize;
        let b = offsets[i + 1] as usize;
        assert(a == index_offset(s, offset as int, i as int));
        assert(b == index_offset(s, offset as int, i + 1));
        if a > b || (b > 0 && b - 1 > buf.len() - data_start) {
            return Err(FontError::OutOfBounds { offset: data_start, length: b, buf_len: buf.len() });
        }
        let start = if a == 0 {
            data_start - 1
        } else {
            data_start + (a - 1)
        };
        let end = if b == 0 {
            data_start - 1
        } else {
            data_start + (b - 1)
        };
        entries.push(vstd::slice::slice_subrange(buf, start, end));
        i += 1;
    }
    Ok(entries)
}

/// Where the INDEX at `offset` ends, saturated to a `usize`.
fn find_index_end(buf: &[u8], offset: usize) -> (r: usize)
    ensures
        r == sat(index_end(buf@, offset as int)),
{
    let ghost s = buf@;
    proof {
        assert(buf@.len() == buf.len());
    }
    let mut p = Parser::new(buf, offset);
    let count = match p.u16() {
        Ok(v) => v,
        Err(_) => 0,
    };
    if count == 0 {
        return offset_add(offset, 2);
    }
    let off_size: u8 = match p.u8() {
        Ok(v) => v,
        Err(_) => 1,
    };
    let k: u128 = off_size as u128;
    let c: u128 = count as u128;
    assert((c + 1) * k <= 0x10000 * 0xFF) by (nonlinear_arith)
        requires
            c <= 0xFFFF,
            k <= 0xFF,
    ;
    let data_offset: u128 = offset as u128 + 3 + (c + 1) * k;
    assert(count as usize * off_size as usize <= 0xFFFF * 0xFF) by (nonlinear_arith)
        requires
            count <= 0xFFFF,
            off_size <= 0xFF,
    ;
    let lp = offset_add(p.offset(), count as usize * off_size as usize);
    p.seek(lp);
    let last: u128 = if off_size == 1 {
        match p.u8() {
            Ok(v) => v as u128,
            Err(_) => 0,
        }
    } else if off_size == 2 {
        match p.u16() {
            Ok(v) => v as u128,
            Err(_) => 0,
        }
    } else if off_size == 4 {
        match p.u32() {
            Ok(v) => v as u128,
            Err(_) => 0,
        }
    } else {
        0
    };
    let end: u128 = data_offset + last - 1;
    if end > usize::MAX as u128 {
        usize::MAX
    } else {
        end as usize
    }
}

/// Reads the (operator, operands) entries of DICT data.
fn parse_dict(data: &[u8]) -> (entries: Vec<TopDictEntry>)
    ensures
        entries_model(entries@) == decode_dict(data@, 0, Seq::empty()),
{
    let ghost d = data@;
    let len = data.len();
    let mut entries: Vec<TopDictEntry> = Vec::new();
    let mut operands: Vec<DictOperand> = Vec::new();
    let mut i: usize = 0;
    proof {
        assert(operand_values(operands@) =~= Seq::<i32>::empty());
        assert(entries_model(entries@) + decode_dict(d, 0, operand_values(operands@)) =~= decode_dict(
            d,
            0,
            Seq::empty(),
        ));
    }
    while i < len
        invariant
            len == d.len(),
            d == data@,
            i <= len,
            entries_model(entries@) + decode_dict(d, i as int, operand_values(operands@))
                == decode_dict(d, 0, Seq::empty()),
        ensures
            entries_model(entries@) == decode_dict(d, 0, Seq::empty()),
        decreases len - i,
    {
        let ghost before = entries_model(entries@);
        let ghost ops = operand_values(operands@);
        let b0 = data[i];
        if b0 <= 21 {
            let op: u16 = if b0 == 12 {
                if len - i <= 1 {
                    proof {
                        assert(before =~= decode_dict(d, 0, Seq::empty()));
                    }
                    break ;
                }
                1200 + data[i + 1] as u16
            } else {
                b0 as u16
            };
            let next = if b0 == 12 {
                i + 2
            } else {
                i + 1
            };
            let ghost at = i as int;
            let e = TopDictEntry { operator: op, operands };
            entries.push(e);
            operands = Vec::new();
            i = next;
            proof {
                assert(entries_model(entries@) =~= before.push((op, ops)));
                assert(operand_values(operands@) =~= Seq::<i32>::empty());
                let rest = decode_dict(d, i as int, Seq::empty());
                assert(decode_dict(d, at, ops) == seq![(op, ops)] + rest);
                assert(before.push((op, ops)) + rest =~= before + (seq![(op, ops)] + rest));
            }
        } else if b0 == 28 {
            if len - i > 2 {
                let v = (data[i + 1] as u16 * 256 + data[i + 2] as u16);
                let val = crate::parse::u16_to_i16(v) as i32;
                proof {
                    reveal(be_u16);
                    assert(v == be_u16(d, i + 1));
                }
                operands.push(DictOperand::Integer(val));
                i += 3;
                proof {
                    assert(operand_values(operands@) =~= ops.push(val));
                }
            } else {
                proof {
                    assert(before =~= decode_dict(d, 0, Seq::empty()));
                }
                break ;
            }
        } else if b0 == 29 {
            if len - i > 4 {
                let v = data[i + 1] as u32 * 16777216 + data[i + 2] as u32 * 65536 + data[i + 3] as u32
                    * 256 + data[i + 4] as u32;
                let val = crate::parse::u32_to_i32(v);
                proof {
                    reveal(be_u32);
                    assert(v == be_u32(d, i + 1));
                }
                operands.push(DictOperand::Integer(val));
                i += 5;
                proof {
                    assert(operand_values(operands@) =~= ops.push(val));
                }
            } else {
                proof {
                    assert(before =~= decode_dict(d, 0, Seq::empty()));
                }
                break ;
            }
        } else if b0 >= 32 && b0 <= 246 {
            let val = b0 as i32 - 139;
            operands.push(DictOperand::Integer(val));
            i += 1;
            proof {
                assert(operand_values(operands@) =~= ops.push(val));
            }
        } else if b0 >= 247 && b0 <= 250 {
            if len - i <= 1 {
                proof {
                    assert(before =~= decode_dict(d, 0, Seq::empty()));
                }
                break ;
            }
            let val = (b0 as i32 - 247) * 256 + data[i + 1] as i32 + 108;
            operands.push(DictOperand::Integer(val));
            i += 2;
            proof {
                assert(operand_values(operands@) =~= ops.push(val));
            }
        } else if b0 >= 251 && b0 <= 254 {
            if len - i <= 1 {
                proof {
                    assert(before =~= decode_dict(d, 0, Seq::empty()));
                }
                break ;
            }
            let val = -(b0 as i32 - 251) * 256 - data[i + 1] as i32 - 108;
            operands.push(DictOperand::Integer(val));
            i += 2;
            proof {
                assert(operand_values(operands@) =~= ops.push(val));
            }
        } else if b0 == 30 {
            let ghost start = i + 1;
            i += 1;
            while i < len && data[i] & 0x0F != 0x0F
                invariant
                    len == d.len(),
                    d == data@,
                    start <= i <= len,
                    skip_real(d, start as int) == skip_real(d, i as int),
                decreases len - i,
            {
                i += 1;
            }
            proof {
                lemma_skip_real_bounds(d, start as int);
                assert(skip_real(d, i as int) == i);
            }
            if i < len {
                i += 1;
            }
            proof {
                assert(decode_dict(d, start - 1, ops) == decode_dict(d, skip_real(d, start as int) + 1, ops));
                assert(decode_dict(d, i as int, ops) == decode_dict(d, skip_real(d, start as int) + 1, ops));
            }
        } else {
            i += 1;
        }
    }
    entries
}

impl Cff {
    /// Reads the header; for CFF (not CFF2) also the Name INDEX after the
    /// header and, if that can be read, the first DICT of the Top DICT
    /// INDEX after it. The bytes are kept whole.
    pub fn parse(data: &[u8]) -> (r: Result<Self, FontError>)
        ensures
            match r {
                Ok(c) => data@.len() >= (if data@[0] == 2 { 3int } else { 4int }) && cff_parsed(
                    c,
                    data@,
                ),
                Err(e) => (data@.len() < 3 || (data@.len() < 4 && data@[0] != 2))
                    && e is OutOfBounds,
            },
    {
        let ghost s = data@;
        let raw = vstd::slice::slice_to_vec(data);
        let mut p = Parser::new(data, 0);
        let major_version = p.u8()?;
        let minor_version = p.u8()?;
        let is_cff2 = major_version == 2;
        let header_size = p.u8()?;
        let off_size = if is_cff2 {
            0
        } else {
            p.u8()?
        };
        let mut name_index: Vec<String> = Vec::new();
        let mut top_dict: Vec<TopDictEntry> = Vec::new();
        if !is_cff2 {
            let name_idx_offset = header_size as usize;
            if let Ok(names) = parse_index(data, name_idx_offset) {
                let n = names.len();
                let mut i: usize = 0;
                while i < n
                    invariant
                        s == data@,
                        n == names@.len(),
                        i <= n,
                        name_index@.len() == i,
                        forall|j: int|
                            0 <= j < n ==> (#[trigger] names@[j])@ == index_entry(
                                s,
                                header_size as int,
                                j,
                            ),
                        forall|j: int|
                            0 <= j < i ==> (#[trigger] name_index@[j])@ == lossy_text(
                                index_entry(s, header_size as int, j),
                            ) && (valid_utf8(index_entry(s, header_size as int, j))
                                ==> name_index@[j]@ == decode_utf8(
                                index_entry(s, header_size as int, j),
                            )),
                    decreases n - i,
                {
                    name_index.push(utf8_lossy(names[i]));
                    i += 1;
                }
                let top_idx_offset = find_index_end(data, name_idx_offset);
                if let Ok(dict_data) = parse_index(data, top_idx_offset) {
                    if dict_data.len() > 0 {
                        top_dict = parse_dict(dict_data[0]);
                    }
                }
            }
        }
        Ok(
            Cff {
                is_cff2,
                major_version,
                minor_version,
                header_size,
                off_size,
                name_index,
                top_dict,
                raw,
            },
        )
    }

    /// Reads the table that fills the buffer from `offset` to its end (see
    /// [`Cff::parse`]).
    pub fn parse_at(buf: &[u8], offset: usize) -> (r: Result<Self, FontError>)
        ensures
            offset > buf@.len() ==> (r matches Err(e) && e is OutOfBounds),
            offset <= buf@.len() ==> {
                let s = buf@.subrange(offset as int, buf@.len() as int);
                match r {
                    Ok(c) => s.len() >= (if s[0] == 2 { 3int } else { 4int }) && cff_parsed(c, s),
                    Err(e) => (s.len() < 3 || (s.len() < 4 && s[0] != 2)) && e is OutOfBounds,
                }
            },
    {
        if offset > buf.len() {
            return Err(FontError::OutOfBounds { offset, length: 0, buf_len: buf.len() });
        }
        let data = Parser::new(buf, offset).slice(buf.len() - offset)?;
        Cff::parse(data)
    }
}

impl Table for Cff {
    open spec fn writable(&self) -> bool {
        true
    }

    /// `CFF `
    fn tag() -> (t: Tag)
        ensures
            t.0@ == seq![0x43u8, 0x46, 0x46, 0x20],
    {
        Tag([0x43, 0x46, 0x46, 0x20])
    }

    /// The same as [`Cff::parse_at`], whose contract states what it reads;
    /// the inherent `Cff::parse` shares this method's name.
    open spec fn parse_outcome(buf: Seq<u8>, offset: int, r: Result<Self, FontError>) -> bool {
        &&& offset > buf.len() ==> (r matches Err(e) && e is OutOfBounds)
        &&& offset <= buf.len() ==> {
            let s = buf.subrange(offset, buf.len() as int);
            match r {
                Ok(c) => s.len() >= (if s[0] == 2 { 3int } else { 4int }) && cff_parsed(c, s),
                Err(e) => (s.len() < 3 || (s.len() < 4 && s[0] != 2)) && e is OutOfBounds,
            }
        }
    }

    fn parse(buf: &[u8], offset: usize) -> (r: Result<Self, FontError>) {
        Cff::parse_at(buf, offset)
    }

    fn write(&self, w: &mut Writer) -> (r: Result<(), FontError>)
        ensures
            r is Ok,
            final(w)@ == old(w)@ + self.raw@,
    {
        w.write_bytes(self.raw.as_slice());
        Ok(())
    }
}

} // verus!
