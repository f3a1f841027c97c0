//! `STAT`: style attributes. Axis values are 16.16 fixed-point numbers,
//! held as their raw 32-bit values (65536 stands for 1.0).
use vstd::prelude::*;
use crate::codec::{be_i32, be_u16, be_u32, i32_bytes, u16_bytes, u32_bytes};
use crate::error::{FontError, Tag};
use crate::parse::{tag_at, Parser};
use crate::tables::fvar::sat;
use crate::tables::Table;
use crate::write::Writer;

verus! {

broadcast use crate::codec::group_codec;

#[derive(Debug, Clone, PartialEq)]
pub struct Stat {
    pub major_version: u16,
    pub minor_version: u16,
    pub design_axes: Vec<DesignAxisRecord>,
    pub axis_values: Vec<AxisValueRecord>,
    pub elided_fallback_name_id: Option<u16>,
}

#[derive(Debug, Clone, PartialEq)]
pub struct DesignAxisRecord {
    pub axis_tag: Tag,
    pub axis_name_id: u16,
    pub axis_ordering: u16,
}

#[derive(Debug, Clone, PartialEq)]
pub struct AxisValueRecord {
    pub format: u16,
    pub axis_index: u16,
    pub flags: u16,
    pub value_name_id: u16,
    pub value: i32,
    pub linked_value: Option<i32>,
    pub nominal_value: Option<i32>,
    pub range_min_value: Option<i32>,
    pub range_max_value: Option<i32>,
    /// Format 4: (axis index, value) pairs.
    pub axis_values: Vec<(u16, i32)>,
}

/// Version 1.1 and later headers end with the elided fallback name ID.
pub open spec fn has_elided(s: Seq<u8>) -> bool {
    be_u16(s, 0) == 1 && be_u16(s, 2) >= 1
}

pub open spec fn design_axis_pos(s: Seq<u8>, i: int) -> int {
    be_u32(s, 8) + i * be_u16(s, 4)
}

/// Size of the axis value table at `off`, by its format.
pub open spec fn value_size(s: Seq<u8>, off: int) -> int {
    let f = be_u16(s, off);
    8 + if f == 1 {
        4int
    } else if f == 2 {
        12int
    } else if f == 3 {
        8int
    } else if f == 4 {
        2 + 6 * be_u16(s, off + 8)
    } else {
        0int
    }
}

/// The offset of axis value table `k` (from the start of the table).
pub open spec fn value_offset_at(s: Seq<u8>, k: int) -> int {
    be_u16(s, be_u32(s, 14) + 4 + 2 * k) as int
}

/// The axis value array: its format and count, its offsets, and every
/// axis value table they point to, all inside the data.
pub open spec fn values_fit(s: Seq<u8>) -> bool {
    let avo = be_u32(s, 14) as int;
    let n = be_u16(s, avo + 2) as int;
    &&& avo + 4 <= s.len()
    &&& avo + 4 + 2 * n <= s.len()
    &&& forall|k: int|
        0 <= k < n ==> #[trigger] value_offset_at(s, k) + value_size(s, value_offset_at(s, k))
            <= s.len()
}

pub open spec fn stat_fits(s: Seq<u8>) -> bool {
    &&& 18 <= s.len()
    &&& has_elided(s) ==> 20 <= s.len()
    &&& forall|i: int| 0 <= i < be_u16(s, 6) ==> #[trigger] design_axis_pos(s, i) + 8 <= s.len()
    &&& be_u16(s, 12) > 0 ==> values_fit(s)
}

pub open spec fn design_axis_parsed(a: DesignAxisRecord, s: Seq<u8>, p: int) -> bool {
    a.axis_tag == tag_at(s, p) && a.axis_name_id == be_u16(s, p + 4) && a.axis_ordering == be_u16(
        s,
        p + 6,
    )
}

/// The axis value table at `off` as read: the fields its format has, the
/// others 0 or absent.
pub open spec fn value_parsed(r: AxisValueRecord, s: Seq<u8>, off: int) -> bool {
    let f = be_u16(s, off);
    &&& r.format == f
    &&& r.axis_index == be_u16(s, off + 2)
    &&& r.flags == be_u16(s, off + 4)
    &&& r.value_name_id == be_u16(s, off + 6)
    &&& r.value == if f == 1 || f == 3 { be_i32(s, off + 8) } else { 0i32 }
    &&& r.linked_value == if f == 3 { Some(be_i32(s, off + 12)) } else { None }
    &&& r.nominal_value == if f == 2 { Some(be_i32(s, off + 8)) } else { None }
    &&& r.range_min_value == if f == 2 { Some(be_i32(s, off + 12)) } else { None }
    &&& r.range_max_value == if f == 2 { Some(be_i32(s, off + 16)) } else { None }
    &&& r.axis_values@ == if f == 4 {
        Seq::new(
            be_u16(s, off + 8) as nat,
            |k: int| (be_u16(s, off + 10 + 6 * k), be_i32(s, off + 12 + 6 * k)),
        )
    } else {
        Seq::empty()
    }
}

pub open spec fn stat_parsed(t: Stat, s: Seq<u8>) -> bool {
    let avo = be_u32(s, 14) as int;
    &&& t.major_version == be_u16(s, 0)
    &&& t.minor_version == be_u16(s, 2)
    &&& t.elided_fallback_name_id == if has_elided(s) { Some(be_u16(s, 18)) } else { None }
    &&& t.design_axes@.len() == be_u16(s, 6)
    &&& forall|i: int|
        0 <= i < t.design_axes@.len() ==> design_axis_parsed(
            #[trigger] t.design_axes@[i],
            s,
            design_axis_pos(s, i),
        )
    &&& t.axis_values@.len() == if be_u16(s, 12) > 0 { be_u16(s, avo + 2) as int } else { 0 }
    &&& forall|k: int|
        0 <= k < t.axis_values@.len() ==> value_parsed(
            #[trigger] t.axis_values@[k],
            s,
            value_offset_at(s, k),
        )
}

pub open spec fn unwrap0(o: Option<i32>) -> i32 {
    match o {
        Some(v) => v,
        None => 0,
    }
}

pub open spec fn pairs_bytes(v: Seq<(u16, i32)>) -> Seq<u8>
    decreases v.len(),
{
    if v.len() == 0 {
        Seq::empty()
    } else {
        pairs_bytes(v.drop_last()) + u16_bytes(v.last().0) + i32_bytes(v.last().1)
    }
}

/// The bytes `write` stores for an axis value: its header, then the
/// fields its format has (absent values written as 0).
pub open spec fn value_bytes(r: AxisValueRecord) -> Seq<u8> {
    u16_bytes(r.format) + u16_bytes(r.axis_index) + u16_bytes(r.flags) + u16_bytes(
        r.value_name_id,
    ) + if r.format == 1 {
        i32_bytes(r.value)
    } else if r.format == 2 {
        i32_bytes(unwrap0(r.nominal_value)) + i32_bytes(unwrap0(r.range_min_value)) + i32_bytes(
            unwrap0(r.range_max_value),
        )
    } else if r.format == 3 {
        i32_bytes(r.value) + i32_bytes(unwrap0(r.linked_value))
    } else if r.format == 4 {
        u16_bytes(r.axis_values@.len() as u16) + pairs_bytes(r.axis_values@)
    } else {
        Seq::empty()
    }
}

pub open spec fn values_bytes(v: Seq<AxisValueRecord>, k: int) -> Seq<u8>
    decreases k,
{
    if k <= 0 {
        Seq::empty()
    } else {
        values_bytes(v, k - 1) + value_bytes(v[k - 1])
    }
}

pub open spec fn design_axes_bytes(a: Seq<DesignAxisRecord>, k: int) -> Seq<u8>
    decreases k,
{
    if k <= 0 {
        Seq::empty()
    } else {
        design_axes_bytes(a, k - 1) + a[k - 1].axis_tag.0@ + u16_bytes(a[k - 1].axis_name_id)
            + u16_bytes(a[k - 1].axis_ordering)
    }
}

impl Stat {
    pub open spec fn header_size(self) -> int {
        if self.elided_fallback_name_id is Some { 20 } else { 18 }
    }

    /// Where `write` puts the axis value array.
    pub open spec fn value_array_offset(self) -> int {
        self.header_size() + 8 * (self.design_axes@.len() as u16)
    }

    /// The offset `write` records for axis value `k`: counted from the
    /// start of the table, truncated to 16 bits.
    pub open spec fn written_value_offset(self, k: int) -> u16 {
        (self.value_array_offset() + 4 + 2 * (self.axis_values@.len() as u16) + values_bytes(
            self.axis_values@,
            k,
        ).len()) as u16
    }

    pub open spec fn offsets_bytes(self, k: int) -> Seq<u8>
        decreases k,
    {
        if k <= 0 {
            Seq::empty()
        } else {
            self.offsets_bytes(k - 1) + u16_bytes(self.written_value_offset(k - 1))
        }
    }

    /// The header (design axes right after it, the axis value array right
    /// after them), the design axes, the array's format, count and
    /// offsets, then the axis value tables.
    pub open spec fn encode(self) -> Seq<u8> {
        let nv = self.axis_values@.len() as int;
        u16_bytes(self.major_version) + u16_bytes(self.minor_version) + u16_bytes(8) + u16_bytes(
            self.design_axes@.len() as u16,
        ) + u32_bytes(self.header_size() as u32) + u16_bytes(nv as u16) + u32_bytes(
            self.value_array_offset() as u32,
        ) + match self.elided_fallback_name_id {
            Some(id) => u16_bytes(id),
            None => Seq::empty(),
        } + design_axes_bytes(self.design_axes@, self.design_axes@.len() as int) + u16_bytes(1)
            + u16_bytes(nv as u16) + self.offsets_bytes(nv) + values_bytes(self.axis_values@, nv)
    }
}

proof fn lemma_values_bytes_monotone(v: Seq<AxisValueRecord>, a: int, b: int)
    requires
        0 <= a <= b,
    ensures
        values_bytes(v, a).len() <= values_bytes(v, b).len(),
    decreases b - a,
{
    if a < b {
        lemma_values_bytes_monotone(v, a, b - 1);
    }
}

/// `base + i * size`, saturated to a `usize`.
fn position(base: u32, i: u16, size: u16) -> (r: usize)
    ensures
        r == sat(base + i * size),
{
    assert(i as u64 * size as u64 <= 0x1_0000 * 0x1_0000) by (nonlinear_arith)
        requires
            i <= 0xFFFF,
            size <= 0xFFFF,
    ;
    let v: u64 = base as u64 + i as u64 * size as u64;
    if v > usize::MAX as u64 {
        usize::MAX
    } else {
        v as usize
    }
}

fn parse_value(data: &[u8], off: usize) -> (r: Result<AxisValueRecord, FontError>)
    ensures
        match r {
            Ok(rec) => off + value_size(data@, off as int) <= data@.len() && value_parsed(
                rec,
                data@,
                off as int,
            ),
            Err(e) => off + value_size(data@, off as int) > data@.len() && e is OutOfBounds,
        },
{
    let ghost s = data@;
    let mut avp = Parser::new(data, off);
    let format = avp.u16()?;
    let axis_index = avp.u16()?;
    let flags = avp.u16()?;
    let value_name_id = avp.u16()?;
    let mut rec = AxisValueRecord {
        format,
        axis_index,
        flags,
        value_name_id,
        value: 0,
        linked_value: None,
        nominal_value: None,
        range_min_value: None,
        range_max_value: None,
        axis_values: Vec::new(),
    };
    if format == 1 {
        rec.value = avp.fixed()?;
    } else if format == 2 {
        rec.nominal_value = Some(avp.fixed()?);
        rec.range_min_value = Some(avp.fixed()?);
        rec.range_max_value = Some(avp.fixed()?);
    } else if format == 3 {
        rec.value = avp.fixed()?;
        rec.linked_value = Some(avp.fixed()?);
    } else if format == 4 {
        let axis_count = avp.u16()?;
        let mut k: u16 = 0;
        while k < axis_count
            invariant
                avp.data() == s,
                s == data@,
                format == 4,
                format == be_u16(s, off as int),
                axis_count == be_u16(s, off + 8),
                off + 10 <= s.len(),
                k <= axis_count,
                avp.pos() == off + 10 + 6 * k,
                avp.pos() <= s.len(),
                rec.format == format,
                rec.axis_index == be_u16(s, off + 2),
                rec.flags == be_u16(s, off + 4),
                rec.value_name_id == be_u16(s, off + 6),
                rec.value == 0,
                rec.linked_value is None,
                rec.nominal_value is None,
                rec.range_min_value is None,
                rec.range_max_value is None,
                rec.axis_values@ == Seq::new(
                    k as nat,
                    |j: int| (be_u16(s, off + 10 + 6 * j), be_i32(s, off + 12 + 6 * j)),
                ),
            decreases axis_count - k,
        {
            let idx = avp.u16()?;
            let val = avp.fixed()?;
            rec.axis_values.push((idx, val));
            k += 1;
            proof {
                assert(rec.axis_values@ =~= Seq::new(
                    k as nat,
                    |j: int| (be_u16(s, off + 10 + 6 * j), be_i32(s, off + 12 + 6 * j)),
                ));
            }
        }
    }
    proof {
        if format != 4 {
            assert(rec.axis_values@ =~= Seq::<(u16, i32)>::empty());
        }
    }
    Ok(rec)
}

impl Stat {
    /// Reads the header, the design axis records, and (when the header
    /// counts some) the axis value array and the tables it points to.
    pub fn parse(data: &[u8]) -> (r: Result<Self, FontError>)
        ensures
            match r {
                Ok(t) => stat_fits(data@) && stat_parsed(t, data@),
                Err(e) => !stat_fits(data@) && e is OutOfBounds,
            },
    {
        let ghost s = data@;
        let mut p = Parser::new(data, 0);
        let major_version = p.u16()?;
        let minor_version = p.u16()?;
        let design_axis_size = p.u16()?;
        let design_axis_count = p.u16()?;
        let design_axis_offset = p.u32()?;
        let axis_value_count = p.u16()?;
        let axis_value_offset = p.u32()?;
        let elided_fallback_name_id = if major_version == 1 && minor_version >= 1 {
            Some(p.u16()?)
        } else {
            None
        };
        let mut design_axes: Vec<DesignAxisRecord> = Vec::new();
        let mut i: u16 = 0;
        while i < design_axis_count
            invariant
                s == data@,
                18 <= s.len(),
                has_elided(s) ==> 20 <= s.len(),
                design_axis_size == be_u16(s, 4),
                design_axis_count == be_u16(s, 6),
                design_axis_offset == be_u32(s, 8),
                i <= design_axis_count,
                design_axes@.len() == i,
                forall|k: int| 0 <= k < i ==> #[trigger] design_axis_pos(s, k) + 8 <= s.len(),
                forall|k: int|
                    0 <= k < i ==> design_axis_parsed(
                        #[trigger] design_axes@[k],
                        s,
                        design_axis_pos(s, k),
                    ),
            decreases design_axis_count - i,
        {
            let at = position(design_axis_offset, i, design_axis_size);
            proof {
                assert(data@.len() == data.len());
            }
            let mut ap = Parser::new(data, at);
            let (axis_tag, axis_name_id, axis_ordering) = match (ap.tag(), ap.u16(), ap.u16()) {
                (Ok(a), Ok(b), Ok(c)) => (a, b, c),
                _ => {
                    assert(design_axis_pos(s, i as int) + 8 > s.len());
                    return Err(FontError::OutOfBounds { offset: at, length: 8, buf_len: data.len() });
                },
            };
            design_axes.push(DesignAxisRecord { axis_tag, axis_name_id, axis_ordering });
            i += 1;
        }
        let mut axis_values: Vec<AxisValueRecord> = Vec::new();
        if axis_value_count > 0 {
            let mut vp = Parser::new(data, axis_value_offset as usize);
            let count = match (vp.u16(), vp.u16()) {
                (Ok(_), Ok(c)) => c,
                _ => {
                    proof {
                        assert(!values_fit(s));
                    }
                    return Err(FontError::OutOfBounds {
                        offset: axis_value_offset as usize,
                        length: 4,
                        buf_len: data.len(),
                    });
                },
            };
            let mut offsets: Vec<u16> = Vec::new();
            let mut k: u16 = 0;
            while k < count
                invariant
                    vp.data() == s,
                    s == data@,
                    axis_value_offset == be_u32(s, 14),
                    count == be_u16(s, axis_value_offset + 2),
                    axis_value_offset + 4 <= s.len(),
                    be_u16(s, 12) > 0,
                    k <= count,
                    vp.pos() == axis_value_offset + 4 + 2 * k,
                    vp.pos() <= s.len(),
                    offsets@ == Seq::new(k as nat, |j: int| value_offset_at(s, j) as u16),
                decreases count - k,
            {
                let o = match vp.u16() {
                    Ok(o) => o,
                    Err(e) => {
                        proof {
                            assert(!values_fit(s));
                        }
                        return Err(e);
                    },
                };
                offsets.push(o);
                k += 1;
                proof {
                    assert(offsets@ =~= Seq::new(k as nat, |j: int| value_offset_at(s, j) as u16));
                }
            }
            let mut j: usize = 0;
            let n = offsets.len();
            while j < n
                invariant
                    s == data@,
                    axis_value_offset == be_u32(s, 14),
                    n == count,
                    count == be_u16(s, axis_value_offset + 2),
                    axis_value_offset + 4 + 2 * count <= s.len(),
                    be_u16(s, 12) > 0,
                    offsets@ == Seq::new(count as nat, |q: int| value_offset_at(s, q) as u16),
                    j <= n,
                    axis_values@.len() == j,
                    forall|q: int|
                        0 <= q < j ==> #[trigger] value_offset_at(s, q) + value_size(
                            s,
                            value_offset_at(s, q),
                        ) <= s.len(),
                    forall|q: int|
                        0 <= q < j ==> value_parsed(
                            #[trigger] axis_values@[q],
                            s,
                            value_offset_at(s, q),
                        ),
                decreases n - j,
            {
                let o = offsets[j];
                assert(o == value_offset_at(s, j as int));
                let rec = match parse_value(data, o as usize) {
                    Ok(rec) => rec,
                    Err(e) => {
                        proof {
                            assert(!values_fit(s));
                        }
                        return Err(e);
                    },
                };
                axis_values.push(rec);
                j += 1;
            }
        }
        Ok(Stat { major_version, minor_version, design_axes, axis_values, elided_fallback_name_id })
    }
}

fn write_pairs(w: &mut Writer, v: &Vec<(u16, i32)>)
    ensures
        final(w)@ == old(w)@ + pairs_bytes(v@),
{
    let n = v.len();
    let mut i: usize = 0;
    let ghost base = w@;
    while i < n
        invariant
            n == v@.len(),
            i <= n,
            w@ == base + pairs_bytes(v@.subrange(0, i as int)),
        decreases n - i,
    {
        let (idx, val) = v[i];
        w.write_u16(idx);
        w.write_fixed(val);
        proof {
            assert(v@.subrange(0, i + 1).drop_last() =~= v@.subrange(0, i as int));
        }
        i += 1;
    }
    proof {
        assert(v@.subrange(0, n as int) =~= v@);
    }
}

fn unwrap_or_zero(o: Option<i32>) -> (v: i32)
    ensures
        v == unwrap0(o),
{
    match o {
        Some(v) => v,
        None => 0,
    }
}

fn encode_value(rec: &AxisValueRecord) -> (v: Vec<u8>)
    ensures
        v@ == value_bytes(*rec),
{
    let mut vw = Writer::new();
    vw.write_u16(rec.format);
    vw.write_u16(rec.axis_index);
    vw.write_u16(rec.flags);
    vw.write_u16(rec.value_name_id);
    if rec.format == 1 {
        vw.write_fixed(rec.value);
    } else if rec.format == 2 {
        vw.write_fixed(unwrap_or_zero(rec.nominal_value));
        vw.write_fixed(unwrap_or_zero(rec.range_min_value));
        vw.write_fixed(unwrap_or_zero(rec.range_max_value));
    } else if rec.format == 3 {
        vw.write_fixed(rec.value);
        vw.write_fixed(unwrap_or_zero(rec.linked_value));
    } else if rec.format == 4 {
        vw.write_u16(rec.axis_values.len() as u16);
        write_pairs(&mut vw, &rec.axis_values);
    }
    proof {
        assert(vw@ =~= value_bytes(*rec));
    }
    vw.into_vec()
}

impl Stat {
    /// The axis value tables laid end to end, and where each starts.
    fn value_tables(&self) -> (r: (Vec<u8>, Vec<usize>))
        requires
            self.writable(),
        ensures
            r.0@ == values_bytes(self.axis_values@, self.axis_values@.len() as int),
            r.1@.len() == self.axis_values@.len(),
            forall|q: int|
                0 <= q < self.axis_values@.len() ==> #[trigger] r.1@[q] == values_bytes(
                    self.axis_values@,
                    q,
                ).len(),
    {
        let nv = self.axis_values.len();
        let mut value_data: Vec<u8> = Vec::new();
        let mut value_data_offsets: Vec<usize> = Vec::new();
        let mut k: usize = 0;
        proof {
            lemma_values_bytes_monotone(self.axis_values@, 0, nv as int);
        }
        while k < nv
            invariant
                nv == self.axis_values@.len(),
                k <= nv,
                self.writable(),
                value_data@ == values_bytes(self.axis_values@, k as int),
                value_data_offsets@.len() == k,
                forall|q: int|
                    0 <= q < k ==> #[trigger] value_data_offsets@[q] == values_bytes(
                        self.axis_values@,
                        q,
                    ).len(),
            decreases nv - k,
        {
            proof {
                lemma_values_bytes_monotone(self.axis_values@, k + 1, nv as int);
            }
            value_data_offsets.push(value_data.len());
            let bytes = encode_value(&self.axis_values[k]);
            let mut q: usize = 0;
            let ghost before = value_data@;
            while q < bytes.len()
                invariant
                    q <= bytes@.len(),
                    value_data@ == before + bytes@.subrange(0, q as int),
                decreases bytes@.len() - q,
            {
                value_data.push(bytes[q]);
                q += 1;
                proof {
                    assert(value_data@ =~= before + bytes@.subrange(0, q as int));
                }
            }
            k += 1;
            proof {
                assert(value_data@ =~= values_bytes(self.axis_values@, k as int));
            }
        }
        (value_data, value_data_offsets)
    }
}

impl Table for Stat {
    /// The offsets that `write` computes fit in a `usize`.
    open spec fn writable(&self) -> bool {
        self.value_array_offset() + 4 + 2 * (self.axis_values@.len() as u16) + values_bytes(
            self.axis_values@,
            self.axis_values@.len() as int,
        ).len() <= usize::MAX
    }

    /// `STAT`
    fn tag() -> (t: Tag)
        ensures
            t.0@ == seq![0x53u8, 0x54, 0x41, 0x54],
    {
        Tag([0x53, 0x54, 0x41, 0x54])
    }

    /// `STAT` is read with the inherent `Stat::parse`, which shares this
    /// method's name; this one always returns an invalid-table error for
    /// `STAT`.
    open spec fn parse_outcome(buf: Seq<u8>, offset: int, r: Result<Self, FontError>) -> bool {
        r matches Err(FontError::InvalidTable { tag: t, reason }) && t.0@ == seq![
            0x53u8,
            0x54,
            0x41,
            0x54,
        ] && reason@ == "STAT should be parsed via Stat::parse"@
    }

    fn parse(_buf: &[u8], _offset: usize) -> (r: Result<Self, FontError>) {
        Err(FontError::invalid_table(Self::tag(), "STAT should be parsed via Stat::parse"))
    }

    #[verifier::rlimit(50)]
    fn write(&self, w: &mut Writer) -> (r: Result<(), FontError>)
        ensures
            r is Ok,
            final(w)@ == old(w)@ + self.encode(),
    {
        let axis_count = self.design_axes.len() as u16;
        let value_count = self.axis_values.len() as u16;
        let header_size: usize = if self.elided_fallback_name_id.is_some() {
            20
        } else {
            18
        };
        let design_axis_offset = header_size;
        let axis_value_offset = design_axis_offset + axis_count as usize * 8;
        w.write_u16(self.major_version);
        w.write_u16(self.minor_version);
        w.write_u16(8);
        w.write_u16(axis_count);
        w.write_u32(design_axis_offset as u32);
        w.write_u16(value_count);
        w.write_u32(axis_value_offset as u32);
        match self.elided_fallback_name_id {
            Some(id) => w.write_u16(id),
            None => {},
        }
        let ghost hdr = w@;
        let na = self.design_axes.len();
        let mut i: usize = 0;
        while i < na
            invariant
                na == self.design_axes@.len(),
                i <= na,
                w@ == hdr + design_axes_bytes(self.design_axes@, i as int),
            decreases na - i,
        {
            let axis = &self.design_axes[i];
            w.write_tag(&axis.axis_tag.0);
            w.write_u16(axis.axis_name_id);
            w.write_u16(axis.axis_ordering);
            i += 1;
            proof {
                assert(w@ =~= hdr + design_axes_bytes(self.design_axes@, i as int));
            }
        }
        let nv = self.axis_values.len();
        let (value_data, value_data_offsets) = self.value_tables();
        w.write_u16(1);
        w.write_u16(value_count);
        let wrapper_size = 4 + value_count as usize * 2;
        let ghost mid = w@;
        let mut j: usize = 0;
        while j < nv
            invariant
                nv == self.axis_values@.len(),
                j <= nv,
                self.writable(),
                axis_value_offset == self.value_array_offset(),
                wrapper_size == 4 + 2 * (nv as u16),
                value_count == nv as u16,
                value_data_offsets@.len() == nv,
                forall|q: int|
                    0 <= q < nv ==> #[trigger] value_data_offsets@[q] == values_bytes(
                        self.axis_values@,
                        q,
                    ).len(),
                w@ == mid + self.offsets_bytes(j as int),
            decreases nv - j,
        {
            proof {
                lemma_values_bytes_monotone(self.axis_values@, j as int, nv as int);
            }
            let off = value_data_offsets[j];
            w.write_u16((axis_value_offset + wrapper_size + off) as u16);
            j += 1;
            proof {
                assert(w@ =~= mid + self.offsets_bytes(j as int));
            }
        }
        w.write_bytes(value_data.as_slice());
        proof {
            assert(w@ =~= old(w)@ + self.encode());
        }
        Ok(())
    }
}

} // verus!
