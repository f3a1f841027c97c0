//! `fvar`: the axes and named instances of a variable font. Axis values
//! and coordinates are 16.16 fixed-point numbers, held as their raw 32-bit
//! values (65536 stands for 1.0).
use vstd::prelude::*;
use crate::codec::{be_i32, be_u16, i32_bytes, u16_bytes};
use crate::error::{FontError, Tag};
use crate::parse::{tag_at, Parser};
use crate::tables::Table;
use crate::write::Writer;

verus! {

broadcast use crate::codec::group_codec;

#[derive(Debug, Clone, PartialEq)]
pub struct Fvar {
    pub major_version: u16,
    pub minor_version: u16,
    pub axes: Vec<AxisRecord>,
    pub instances: Vec<InstanceRecord>,
}

#[derive(Debug, Clone, PartialEq)]
pub struct AxisRecord {
    pub axis_tag: Tag,
    pub min_value: i32,
    pub default_value: i32,
    pub max_value: i32,
    pub flags: u16,
    pub axis_name_id: u16,
}

#[derive(Debug, Clone, PartialEq)]
pub struct InstanceRecord {
    pub subfamily_name_id: u16,
    pub flags: u16,
    pub coordinates: Vec<i32>,
    pub post_script_name_id: Option<u16>,
}

/// A position, or `usize::MAX` where it does not fit in a `usize`.
pub open spec fn sat(x: int) -> int {
    if x <= usize::MAX { x } else { usize::MAX as int }
}

/// Where axis record `i` starts.
pub open spec fn axis_pos(s: Seq<u8>, i: int) -> int {
    be_u16(s, 4) + i * be_u16(s, 10)
}

/// Where instance record `i` starts: after all the axis records.
pub open spec fn instance_pos(s: Seq<u8>, i: int) -> int {
    be_u16(s, 4) + be_u16(s, 8) * be_u16(s, 10) + i * be_u16(s, 14)
}

/// Instances carry a PostScript name ID when their size leaves room for
/// it.
pub open spec fn has_ps_name(s: Seq<u8>) -> bool {
    be_u16(s, 14) >= be_u16(s, 8) * 4 + 6
}

pub open spec fn instance_size_read(s: Seq<u8>) -> int {
    4 + 4 * be_u16(s, 8) + if has_ps_name(s) { 2int } else { 0int }
}

/// The header, every axis record and every instance record lie inside
/// the data.
pub open spec fn fvar_fits(s: Seq<u8>) -> bool {
    &&& 16 <= s.len()
    &&& forall|i: int| 0 <= i < be_u16(s, 8) ==> #[trigger] axis_pos(s, i) + 20 <= s.len()
    &&& forall|i: int|
        0 <= i < be_u16(s, 12) ==> #[trigger] instance_pos(s, i) + instance_size_read(s)
            <= s.len()
}

pub open spec fn axis_parsed(a: AxisRecord, s: Seq<u8>, p: int) -> bool {
    &&& a.axis_tag == tag_at(s, p)
    &&& a.min_value == be_i32(s, p + 4)
    &&& a.default_value == be_i32(s, p + 8)
    &&& a.max_value == be_i32(s, p + 12)
    &&& a.flags == be_u16(s, p + 16)
    &&& a.axis_name_id == be_u16(s, p + 18)
}

pub open spec fn instance_parsed(r: InstanceRecord, s: Seq<u8>, p: int) -> bool {
    let n = be_u16(s, 8) as int;
    &&& r.subfamily_name_id == be_u16(s, p)
    &&& r.flags == be_u16(s, p + 2)
    &&& r.coordinates@ == Seq::new(n as nat, |k: int| be_i32(s, p + 4 + 4 * k))
    &&& r.post_script_name_id == if has_ps_name(s) {
        Some(be_u16(s, p + 4 + 4 * n))
    } else {
        None
    }
}

pub open spec fn fvar_parsed(f: Fvar, s: Seq<u8>) -> bool {
    &&& f.major_version == be_u16(s, 0)
    &&& f.minor_version == be_u16(s, 2)
    &&& f.axes@.len() == be_u16(s, 8)
    &&& f.instances@.len() == be_u16(s, 12)
    &&& forall|i: int| 0 <= i < f.axes@.len() ==> axis_parsed(#[trigger] f.axes@[i], s, axis_pos(s, i))
    &&& forall|i: int|
        0 <= i < f.instances@.len() ==> instance_parsed(
            #[trigger] f.instances@[i],
            s,
            instance_pos(s, i),
        )
}

pub open spec fn fixed_list_bytes(v: Seq<i32>) -> Seq<u8>
    decreases v.len(),
{
    if v.len() == 0 {
        Seq::empty()
    } else {
        fixed_list_bytes(v.drop_last()) + i32_bytes(v.last())
    }
}

pub open spec fn axis_bytes(a: AxisRecord) -> Seq<u8> {
    a.axis_tag.0@ + i32_bytes(a.min_value) + i32_bytes(a.default_value) + i32_bytes(a.max_value)
        + u16_bytes(a.flags) + u16_bytes(a.axis_name_id)
}

pub open spec fn instance_bytes(r: InstanceRecord) -> Seq<u8> {
    u16_bytes(r.subfamily_name_id) + u16_bytes(r.flags) + fixed_list_bytes(r.coordinates@) + match r.post_script_name_id {
        Some(ps) => u16_bytes(ps),
        None => Seq::empty(),
    }
}

pub open spec fn axes_bytes(a: Seq<AxisRecord>, k: int) -> Seq<u8>
    decreases k,
{
    if k <= 0 {
        Seq::empty()
    } else {
        axes_bytes(a, k - 1) + axis_bytes(a[k - 1])
    }
}

pub open spec fn instances_bytes(r: Seq<InstanceRecord>, k: int) -> Seq<u8>
    decreases k,
{
    if k <= 0 {
        Seq::empty()
    } else {
        instances_bytes(r, k - 1) + instance_bytes(r[k - 1])
    }
}

/// Some instance carries a PostScript name ID.
pub open spec fn any_ps_name(r: Seq<InstanceRecord>) -> bool {
    exists|i: int| 0 <= i < r.len() && (#[trigger] r[i]).post_script_name_id is Some
}

impl Fvar {
    /// The size `write` gives each instance record.
    pub open spec fn written_instance_size(self) -> int {
        4 * (self.axes@.len() as u16) + if any_ps_name(self.instances@) { 6int } else { 4int }
    }

    /// The 16-byte header (axes right after it, 20 bytes each), the axes,
    /// then the instances.
    pub open spec fn encode(self) -> Seq<u8> {
        u16_bytes(self.major_version) + u16_bytes(self.minor_version) + u16_bytes(16) + u16_bytes(0)
            + u16_bytes(self.axes@.len() as u16) + u16_bytes(20) + u16_bytes(
            self.instances@.len() as u16,
        ) + u16_bytes(self.written_instance_size() as u16) + axes_bytes(
            self.axes@,
            self.axes@.len() as int,
        ) + instances_bytes(self.instances@, self.instances@.len() as int)
    }
}

/// `base + i * size`, saturated to a `usize`.
fn position(base: u64, i: u64, size: u64) -> (r: usize)
    requires
        base <= 0x1_0000_0000_0000,
        i <= 0x1_0000,
        size <= 0x1_0000,
    ensures
        r == sat(base + i * size),
{
    assert(i * size <= 0x1_0000 * 0x1_0000) by (nonlinear_arith)
        requires
            i <= 0x1_0000,
            size <= 0x1_0000,
    ;
    let v: u64 = base + i * size;
    if v > usize::MAX as u64 {
        usize::MAX
    } else {
        v as usize
    }
}

fn parse_axis(data: &[u8], at: usize) -> (r: Result<AxisRecord, FontError>)
    ensures
        match r {
            Ok(a) => at + 20 <= data@.len() && axis_parsed(a, data@, at as int),
            Err(e) => at + 20 > data@.len() && e is OutOfBounds,
        },
{
    let mut ap = Parser::new(data, at);
    let axis_tag = ap.tag()?;
    let min_value = ap.fixed()?;
    let default_value = ap.fixed()?;
    let max_value = ap.fixed()?;
    let flags = ap.u16()?;
    let axis_name_id = ap.u16()?;
    Ok(AxisRecord { axis_tag, min_value, default_value, max_value, flags, axis_name_id })
}

fn parse_instance(data: &[u8], at: usize, axis_count: u16, has_ps: bool) -> (r: Result<
    InstanceRecord,
    FontError,
>)
    ensures
        match r {
            Ok(rec) => {
                &&& at + 4 + 4 * axis_count + (if has_ps { 2int } else { 0int }) <= data@.len()
                &&& rec.subfamily_name_id == be_u16(data@, at as int)
                &&& rec.flags == be_u16(data@, at + 2)
                &&& rec.coordinates@ == Seq::new(
                    axis_count as nat,
                    |k: int| be_i32(data@, at + 4 + 4 * k),
                )
                &&& rec.post_script_name_id == if has_ps {
                    Some(be_u16(data@, at + 4 + 4 * axis_count))
                } else {
                    None
                }
            },
            Err(e) => at + 4 + 4 * axis_count + (if has_ps { 2int } else { 0int }) > data@.len()
                && e is OutOfBounds,
        },
{
    let ghost s = data@;
    let mut ip = Parser::new(data, at);
    let subfamily_name_id = ip.u16()?;
    let flags = ip.u16()?;
    let mut coordinates: Vec<i32> = Vec::new();
    let mut k: u16 = 0;
    while k < axis_count
        invariant
            ip.data() == s,
            s == data@,
            k <= axis_count,
            ip.pos() == at + 4 + 4 * k,
            ip.pos() <= s.len(),
            coordinates@ == Seq::new(k as nat, |j: int| be_i32(s, at + 4 + 4 * j)),
        decreases axis_count - k,
    {
        let c = ip.fixed()?;
        coordinates.push(c);
        k += 1;
        proof {
            assert(coordinates@ =~= Seq::new(k as nat, |j: int| be_i32(s, at + 4 + 4 * j)));
        }
    }
    let post_script_name_id = if has_ps {
        Some(ip.u16()?)
    } else {
        None
    };
    Ok(InstanceRecord { subfamily_name_id, flags, coordinates, post_script_name_id })
}

impl Fvar {
    /// Reads the header, the axis records and the instance records where
    /// the header places them.
    pub fn parse(data: &[u8]) -> (r: Result<Self, FontError>)
        ensures
            match r {
                Ok(f) => fvar_fits(data@) && fvar_parsed(f, data@),
                Err(e) => !fvar_fits(data@) && e is OutOfBounds,
            },
    {
        let ghost s = data@;
        let mut p = Parser::new(data, 0);
        let major_version = p.u16()?;
        let minor_version = p.u16()?;
        let axes_array_offset = p.u16()?;
        let _reserved = p.u16()?;
        let axis_count = p.u16()?;
        let axis_size = p.u16()?;
        let instance_count = p.u16()?;
        let instance_size = p.u16()?;
        let mut axes: Vec<AxisRecord> = Vec::new();
        let mut i: u16 = 0;
        while i < axis_count
            invariant
                s == data@,
                16 <= s.len(),
                axes_array_offset == be_u16(s, 4),
                axis_count == be_u16(s, 8),
                axis_size == be_u16(s, 10),
                i <= axis_count,
                axes@.len() == i,
                forall|k: int| 0 <= k < i ==> #[trigger] axis_pos(s, k) + 20 <= s.len(),
                forall|k: int| 0 <= k < i ==> axis_parsed(#[trigger] axes@[k], s, axis_pos(s, k)),
            decreases axis_count - i,
        {
            let at = position(axes_array_offset as u64, i as u64, axis_size as u64);
            let a = match parse_axis(data, at) {
                Ok(a) => a,
                Err(e) => {
                    proof {
                        assert(data@.len() == data.len());
                        assert(axis_pos(s, i as int) + 20 > s.len());
                    }
                    return Err(e);
                },
            };
            proof {
                assert(data@.len() == data.len());
                assert(at == axis_pos(s, i as int));
            }
            axes.push(a);
            i += 1;
        }
        let has_ps = instance_size as u32 >= axis_count as u32 * 4 + 6;
        assert(axis_count as u64 * axis_size as u64 <= 0x1_0000 * 0x1_0000) by (nonlinear_arith)
            requires
                axis_count <= 0xFFFF,
                axis_size <= 0xFFFF,
        ;
        let base: u64 = axes_array_offset as u64 + axis_count as u64 * axis_size as u64;
        let mut instances: Vec<InstanceRecord> = Vec::new();
        let mut j: u16 = 0;
        while j < instance_count
            invariant
                s == data@,
                16 <= s.len(),
                base == be_u16(s, 4) + be_u16(s, 8) * be_u16(s, 10),
                base <= 0x1_0000_0000_0000,
                axis_count == be_u16(s, 8),
                instance_count == be_u16(s, 12),
                instance_size == be_u16(s, 14),
                has_ps == has_ps_name(s),
                j <= instance_count,
                instances@.len() == j,
                forall|k: int|
                    0 <= k < j ==> #[trigger] instance_pos(s, k) + instance_size_read(s) <= s.len(),
                forall|k: int|
                    0 <= k < j ==> instance_parsed(#[trigger] instances@[k], s, instance_pos(s, k)),
            decreases instance_count - j,
        {
            let at = position(base, j as u64, instance_size as u64);
            let rec = match parse_instance(data, at, axis_count, has_ps) {
                Ok(rec) => rec,
                Err(e) => {
                    proof {
                        assert(data@.len() == data.len());
                        assert(instance_pos(s, j as int) + instance_size_read(s) > s.len());
                    }
                    return Err(e);
                },
            };
            proof {
                assert(data@.len() == data.len());
                assert(at == instance_pos(s, j as int));
            }
            instances.push(rec);
            j += 1;
        }
        Ok(Fvar { major_version, minor_version, axes, instances })
    }
}

fn write_fixed_list(w: &mut Writer, v: &Vec<i32>)
    ensures
        final(w)@ == old(w)@ + fixed_list_bytes(v@),
{
    let n = v.len();
    let mut i: usize = 0;
    let ghost base = w@;
    while i < n
        invariant
            n == v@.len(),
            i <= n,
            w@ == base + fixed_list_bytes(v@.subrange(0, i as int)),
        decreases n - i,
    {
        w.write_fixed(v[i]);
        proof {
            assert(v@.subrange(0, i + 1).drop_last() =~= v@.subrange(0, i as int));
        }
        i += 1;
    }
    proof {
        assert(v@.subrange(0, n as int) =~= v@);
    }
}

impl Table for Fvar {
    /// The instance size that `write` computes fits in 16 bits.
    open spec fn writable(&self) -> bool {
        self.written_instance_size() <= u16::MAX
    }

    /// `fvar`
    fn tag() -> (t: Tag)
        ensures
            t.0@ == seq![0x66u8, 0x76, 0x61, 0x72],
    {
        Tag([0x66, 0x76, 0x61, 0x72])
    }

    /// `fvar` is read with the inherent `Fvar::parse`, which shares this
    /// method's name; this one always returns an invalid-table error for
    /// `fvar`.
    open spec fn parse_outcome(buf: Seq<u8>, offset: int, r: Result<Self, FontError>) -> bool {
        r matches Err(FontError::InvalidTable { tag: t, reason }) && t.0@ == seq![
            0x66u8,
            0x76,
            0x61,
            0x72,
        ] && reason@ == "fvar should be parsed via Fvar::parse"@
    }

    fn parse(_buf: &[u8], _offset: usize) -> (r: Result<Self, FontError>) {
        Err(FontError::invalid_table(Self::tag(), "fvar should be parsed via Fvar::parse"))
    }

    fn write(&self, w: &mut Writer) -> (r: Result<(), FontError>)
        ensures
            r is Ok,
            final(w)@ == old(w)@ + self.encode(),
    {
        w.write_u16(self.major_version);
        w.write_u16(self.minor_version);
        let axis_count = self.axes.len() as u16;
        let instance_count = self.instances.len() as u16;
        let mut has_ps = false;
        let mut k: usize = 0;
        while k < self.instances.len()
            invariant
                k <= self.instances@.len(),
                has_ps == exists|i: int|
                    0 <= i < k && (#[trigger] self.instances@[i]).post_script_name_id is Some,
            decreases self.instances@.len() - k,
        {
            if self.instances[k].post_script_name_id.is_some() {
                has_ps = true;
            }
            k += 1;
        }
        let instance_size = if has_ps {
            axis_count * 4 + 6
        } else {
            axis_count * 4 + 4
        };
        w.write_u16(16);
        w.write_u16(0);
        w.write_u16(axis_count);
        w.write_u16(20);
        w.write_u16(instance_count);
        w.write_u16(instance_size);
        let ghost hdr = w@;
        let n = self.axes.len();
        let mut i: usize = 0;
        while i < n
            invariant
                n == self.axes@.len(),
                i <= n,
                w@ == hdr + axes_bytes(self.axes@, i as int),
            decreases n - i,
        {
            let axis = &self.axes[i];
            w.write_tag(&axis.axis_tag.0);
            w.write_fixed(axis.min_value);
            w.write_fixed(axis.default_value);
            w.write_fixed(axis.max_value);
            w.write_u16(axis.flags);
            w.write_u16(axis.axis_name_id);
            i += 1;
            proof {
                assert(w@ =~= hdr + axes_bytes(self.axes@, i as int));
            }
        }
        let ghost mid = w@;
        let m = self.instances.len();
        let mut j: usize = 0;
        while j < m
            invariant
                m == self.instances@.len(),
                j <= m,
                w@ == mid + instances_bytes(self.instances@, j as int),
            decreases m - j,
        {
            let inst = &self.instances[j];
            w.write_u16(inst.subfamily_name_id);
            w.write_u16(inst.flags);
            write_fixed_list(w, &inst.coordinates);
            match inst.post_script_name_id {
                Some(ps) => w.write_u16(ps),
                None => {},
            }
            j += 1;
            proof {
                assert(w@ =~= mid + instances_bytes(self.instances@, j as int));
            }
        }
        proof {
            assert(w@ =~= old(w)@ + self.encode());
        }
        Ok(())
    }
}

} // verus!
