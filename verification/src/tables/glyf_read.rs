//! Reading glyph outlines, located by `loca`.
use vstd::prelude::*;
use crate::codec::{be_i16, be_u16};
use crate::error::FontError;
use crate::tables::glyf::{
    CompositeComponent, CompositeGlyph, CompositeTransform, GlyfTable, Glyph, SimpleGlyph,
};
use crate::tables::loca::LocaTable;

verus! {

broadcast use crate::codec::group_codec;

/// The flags from `off` on, for points `j` up to `total`: a flag with bit 3
/// set is followed by a repeat count. Reading stops at the end of the
/// data. Gives the flags and where reading stopped.
pub open spec fn decode_flags(s: Seq<u8>, off: int, j: int, total: int) -> (Seq<u8>, int)
    decreases (if j < total { total - j } else { 0 }),
{
    if j >= total || off >= s.len() || off < 0 {
        (Seq::empty(), off)
    } else {
        let f = s[off];
        if f & 8u8 != 0 {
            if off + 1 >= s.len() {
                (seq![f], off + 1)
            } else {
                let r = s[off + 1];
                let rest = decode_flags(s, off + 2, j + r + 1, total);
                (seq![f] + Seq::new(r as nat, |_i: int| f) + rest.0, rest.1)
            }
        } else {
            let rest = decode_flags(s, off + 1, j + 1, total);
            (seq![f] + rest.0, rest.1)
        }
    }
}

/// The coordinates from `off` on for the flags from `k` on: a flag with
/// `short_bit` takes one byte, negated unless `same_bit` is set; a flag
/// with only `same_bit` repeats (a zero step); any other takes a signed
/// 16-bit value. Reading stops where the data ends. Gives the coordinates
/// and where reading stopped.
pub open spec fn decode_coords(
    s: Seq<u8>,
    off: int,
    flags: Seq<u8>,
    k: int,
    short_bit: u8,
    same_bit: u8,
) -> (Seq<i16>, int)
    decreases flags.len() - k,
{
    if k >= flags.len() || off >= s.len() || off < 0 {
        (Seq::empty(), off)
    } else {
        let f = flags[k];
        if f & short_bit != 0 {
            let v = s[off] as int;
            let c = if f & same_bit != 0 { v as i16 } else { (-v) as i16 };
            let rest = decode_coords(s, off + 1, flags, k + 1, short_bit, same_bit);
            (seq![c] + rest.0, rest.1)
        } else if f & same_bit != 0 {
            let rest = decode_coords(s, off, flags, k + 1, short_bit, same_bit);
            (seq![0i16] + rest.0, rest.1)
        } else if off + 2 > s.len() {
            (Seq::empty(), off)
        } else {
            let rest = decode_coords(s, off + 2, flags, k + 1, short_bit, same_bit);
            (seq![be_i16(s, off)] + rest.0, rest.1)
        }
    }
}

/// Bytes of a component's transformation, by its flags.
pub open spec fn transform_size(f: u16) -> int {
    if f & 0x0008u16 != 0 {
        2
    } else if f & 0x0040u16 != 0 {
        4
    } else if f & 0x0080u16 != 0 {
        8
    } else {
        0
    }
}

/// Bytes of a whole component, by its flags: flags, glyph index, two byte
/// or two word arguments, the transformation.
pub open spec fn component_size(f: u16) -> int {
    4 + (if f & 0x0001u16 != 0 { 4int } else { 2int }) + transform_size(f)
}

pub open spec fn byte_arg(b: u8) -> i16 {
    if b < 128 { b as i16 } else { (b - 256) as i16 }
}

/// The component spelled by the bytes at `off`.
pub open spec fn component_at(s: Seq<u8>, off: int) -> CompositeComponent {
    let f = be_u16(s, off);
    let a = off + 4;
    let words = f & 0x0001u16 != 0;
    let t = off + 4 + if words { 4int } else { 2int };
    CompositeComponent {
        glyph_index: be_u16(s, off + 2),
        flags: f,
        argument1: if words { be_i16(s, a) } else { byte_arg(s[a]) },
        argument2: if words { be_i16(s, a + 2) } else { byte_arg(s[a + 1]) },
        transformation: if f & 0x0008u16 != 0 {
            Some(CompositeTransform::Scale(be_i16(s, t)))
        } else if f & 0x0040u16 != 0 {
            Some(CompositeTransform::XyScale(be_i16(s, t), be_i16(s, t + 2)))
        } else if f & 0x0080u16 != 0 {
            Some(
                CompositeTransform::TwoByTwo(
                    be_i16(s, t),
                    be_i16(s, t + 2),
                    be_i16(s, t + 4),
                    be_i16(s, t + 6),
                ),
            )
        } else {
            None
        },
    }
}

/// The components from `off` on, while MORE_COMPONENTS is set, all inside
/// the data.
pub open spec fn components_fit(s: Seq<u8>, off: int) -> bool
    decreases s.len() - off,
{
    let f = be_u16(s, off);
    if off < 0 || off + component_size(f) > s.len() {
        false
    } else if f & 0x0020u16 != 0 {
        components_fit(s, off + component_size(f))
    } else {
        true
    }
}

pub open spec fn components_list(s: Seq<u8>, off: int) -> Seq<CompositeComponent>
    decreases s.len() - off,
{
    let f = be_u16(s, off);
    if off < 0 || off + component_size(f) > s.len() {
        Seq::empty()
    } else if f & 0x0020u16 != 0 {
        seq![component_at(s, off)] + components_list(s, off + component_size(f))
    } else {
        seq![component_at(s, off)]
    }
}

/// A glyph's data can be read: shorter than a header, simple, or
/// composite with all its components inside the data.
pub open spec fn glyph_fits(s: Seq<u8>) -> bool {
    s.len() < 10 || be_i16(s, 0) >= 0 || components_fit(s, 10)
}

/// The simple glyph `sg` as read from `s` (which holds the whole header,
/// end points, instruction length and instructions).
pub open spec fn simple_decoded(sg: SimpleGlyph, s: Seq<u8>) -> bool {
    let nc = be_i16(s, 0) as int;
    let il = be_u16(s, 10 + 2 * nc) as int;
    let off1 = 12 + 2 * nc;
    let total = (if nc == 0 { 0 } else { be_u16(s, 10 + 2 * (nc - 1)) as int }) + 1;
    let fl = decode_flags(s, off1 + il, 0, total);
    let xs = decode_coords(s, fl.1, fl.0, 0, 2u8, 0x10u8);
    let ys = decode_coords(s, xs.1, fl.0, 0, 4u8, 0x20u8);
    &&& sg.number_of_contours == be_i16(s, 0)
    &&& sg.x_min == be_i16(s, 2)
    &&& sg.y_min == be_i16(s, 4)
    &&& sg.x_max == be_i16(s, 6)
    &&& sg.y_max == be_i16(s, 8)
    &&& sg.end_pts_of_contours@ == Seq::new(nc as nat, |k: int| be_u16(s, 10 + 2 * k))
    &&& sg.instructions@ == s.subrange(off1, off1 + il)
    &&& sg.flags@ == fl.0
    &&& sg.x_coordinates@ == xs.0
    &&& sg.y_coordinates@ == ys.0
}

/// `g` is the glyph read from its data `s`: data shorter than a header,
/// or a simple glyph whose end points or instructions run past the data,
/// read as the empty glyph.
pub open spec fn glyph_decoded(g: Glyph, s: Seq<u8>) -> bool {
    if s.len() < 10 {
        g is Empty
    } else if be_i16(s, 0) >= 0 {
        let nc = be_i16(s, 0) as int;
        if s.len() < 12 + 2 * nc || 12 + 2 * nc + be_u16(s, 10 + 2 * nc) > s.len() {
            g is Empty
        } else {
            g matches Glyph::Simple(sg) && simple_decoded(sg, s)
        }
    } else {
        g matches Glyph::Composite(cg) && {
            &&& cg.x_min == be_i16(s, 2)
            &&& cg.y_min == be_i16(s, 4)
            &&& cg.x_max == be_i16(s, 6)
            &&& cg.y_max == be_i16(s, 8)
            &&& cg.components@ == components_list(s, 10)
        }
    }
}

fn u16_at(s: &[u8], i: usize) -> (v: u16)
    requires
        i + 2 <= s@.len(),
    ensures
        v == be_u16(s@, i as int),
{
    proof {
        reveal(be_u16);
    }
    s[i] as u16 * 256 + s[i + 1] as u16
}

/// A byte read as a signed 8-bit value.
fn byte_to_i16(b: u8) -> (v: i16)
    ensures
        v == byte_arg(b),
{
    if b < 128 {
        b as i16
    } else {
        b as i16 - 256
    }
}

fn i16_at(s: &[u8], i: usize) -> (v: i16)
    requires
        i + 2 <= s@.len(),
    ensures
        v == be_i16(s@, i as int),
{
    crate::parse::u16_to_i16(u16_at(s, i))
}

fn flags_of(s: &[u8], start: usize, total: usize) -> (r: (Vec<u8>, usize))
    requires
        start <= s@.len(),
        total <= 0x10000,
    ensures
        (r.0@, r.1 as int) == decode_flags(s@, start as int, 0, total as int),
        r.1 <= s@.len(),
{
    let ghost full = decode_flags(s@, start as int, 0, total as int);
    let len = s.len();
    let mut flags: Vec<u8> = Vec::new();
    let mut off = start;
    let mut j: usize = 0;
    let mut stop = false;
    while j < total && off < len && !stop
        invariant
            len == s@.len(),
            off <= len,
            total <= 0x10000,
            j <= total + 256,
            full == decode_flags(s@, start as int, 0, total as int),
            !stop ==> full == (
                flags@ + decode_flags(s@, off as int, j as int, total as int).0,
                decode_flags(s@, off as int, j as int, total as int).1,
            ),
            stop ==> full == (flags@, off as int),
        decreases (if stop { 0int } else { total + 257 - j }), len - off,
    {
        let ghost rest = decode_flags(s@, off as int, j as int, total as int);
        let flag = s[off];
        off += 1;
        flags.push(flag);
        if flag & 8u8 != 0 {
            if off >= len {
                stop = true;
                proof {
                    assert(full.0 =~= flags@);
                }
            } else {
                let repeat = s[off];
                off += 1;
                let ghost rest2 = decode_flags(s@, off as int, j + repeat + 1, total as int);
                let ghost mid = flags@;
                let mut r: u8 = 0;
                while r < repeat
                    invariant
                        r <= repeat,
                        flags@ == mid + Seq::new(r as nat, |_i: int| flag),
                    decreases repeat - r,
                {
                    flags.push(flag);
                    r += 1;
                    proof {
                        assert(flags@ =~= mid + Seq::new(r as nat, |_i: int| flag));
                    }
                }
                j += repeat as usize;
                proof {
                    assert(full.0 =~= flags@ + rest2.0);
                }
            }
        } else {
            proof {
                assert(full.0 =~= flags@ + decode_flags(s@, off as int, j + 1, total as int).0);
            }
        }
        j += 1;
    }
    (flags, off)
}

fn coords_of(s: &[u8], start: usize, flags: &Vec<u8>, short_bit: u8, same_bit: u8) -> (r: (
    Vec<i16>,
    usize,
))
    requires
        start <= s@.len(),
    ensures
        (r.0@, r.1 as int) == decode_coords(s@, start as int, flags@, 0, short_bit, same_bit),
        r.1 <= s@.len(),
{
    let ghost full = decode_coords(s@, start as int, flags@, 0, short_bit, same_bit);
    let len = s.len();
    let n = flags.len();
    let mut out: Vec<i16> = Vec::new();
    let mut off = start;
    let mut k: usize = 0;
    let mut stop = false;
    while k < n && off < len && !stop
        invariant
            len == s@.len(),
            n == flags@.len(),
            off <= len,
            k <= n,
            full == decode_coords(s@, start as int, flags@, 0, short_bit, same_bit),
            !stop ==> full == (
                out@ + decode_coords(s@, off as int, flags@, k as int, short_bit, same_bit).0,
                decode_coords(s@, off as int, flags@, k as int, short_bit, same_bit).1,
            ),
            stop ==> full == (out@, off as int),
        decreases n - k,
    {
        let f = flags[k];
        if f & short_bit != 0 {
            let v = s[off] as i16;
            off += 1;
            let c = if f & same_bit != 0 {
                v
            } else {
                -v
            };
            out.push(c);
            proof {
                assert(full.0 =~= out@ + decode_coords(
                    s@,
                    off as int,
                    flags@,
                    k + 1,
                    short_bit,
                    same_bit,
                ).0);
            }
        } else if f & same_bit != 0 {
            out.push(0);
            proof {
                assert(full.0 =~= out@ + decode_coords(
                    s@,
                    off as int,
                    flags@,
                    k + 1,
                    short_bit,
                    same_bit,
                ).0);
            }
        } else if len - off < 2 {
            stop = true;
            proof {
                assert(full.0 =~= out@);
            }
        } else {
            let v = i16_at(s, off);
            off += 2;
            out.push(v);
            proof {
                assert(full.0 =~= out@ + decode_coords(
                    s@,
                    off as int,
                    flags@,
                    k + 1,
                    short_bit,
                    same_bit,
                ).0);
            }
        }
        k += 1;
    }
    (out, off)
}

fn parse_simple(s: &[u8]) -> (g: Glyph)
    requires
        s@.len() >= 10,
        be_i16(s@, 0) >= 0,
    ensures
        glyph_decoded(g, s@),
{
    let len = s.len();
    let num_contours = i16_at(s, 0);
    let x_min = i16_at(s, 2);
    let y_min = i16_at(s, 4);
    let x_max = i16_at(s, 6);
    let y_max = i16_at(s, 8);
    let nc = num_contours as usize;
    if len < 10 + nc * 2 + 2 {
        return Glyph::Empty;
    }
    let mut end_pts: Vec<u16> = Vec::new();
    let mut offset: usize = 10;
    let mut k: usize = 0;
    while k < nc
        invariant
            len == s@.len(),
            nc == be_i16(s@, 0),
            len >= 12 + 2 * nc,
            k <= nc,
            offset == 10 + 2 * k,
            end_pts@ == Seq::new(k as nat, |i: int| be_u16(s@, 10 + 2 * i)),
        decreases nc - k,
    {
        let pt = u16_at(s, offset);
        end_pts.push(pt);
        offset += 2;
        k += 1;
        proof {
            assert(end_pts@ =~= Seq::new(k as nat, |i: int| be_u16(s@, 10 + 2 * i)));
        }
    }
    let instr_len = u16_at(s, offset);
    offset += 2;
    if offset + instr_len as usize > len {
        return Glyph::Empty;
    }
    let instructions = vstd::slice::slice_to_vec(
        vstd::slice::slice_subrange(s, offset, offset + instr_len as usize),
    );
    offset += instr_len as usize;
    let total_pts: usize = if nc == 0 {
        1
    } else {
        end_pts[nc - 1] as usize + 1
    };
    let (flags, off2) = flags_of(s, offset, total_pts);
    let (x_coords, off3) = coords_of(s, off2, &flags, 2u8, 0x10u8);
    let (y_coords, _off4) = coords_of(s, off3, &flags, 4u8, 0x20u8);
    let sg = SimpleGlyph {
        number_of_contours: num_contours,
        x_min,
        y_min,
        x_max,
        y_max,
        end_pts_of_contours: end_pts,
        instructions,
        flags,
        x_coordinates: x_coords,
        y_coordinates: y_coords,
    };
    proof {
        assert(simple_decoded(sg, s@));
    }
    Glyph::Simple(sg)
}

fn parse_composite(s: &[u8]) -> (r: Result<Glyph, FontError>)
    requires
        s@.len() >= 10,
        be_i16(s@, 0) < 0,
    ensures
        match r {
            Ok(g) => components_fit(s@, 10) && glyph_decoded(g, s@),
            Err(e) => !components_fit(s@, 10) && e is OutOfBounds,
        },
{
    let len = s.len();
    let x_min = i16_at(s, 2);
    let y_min = i16_at(s, 4);
    let x_max = i16_at(s, 6);
    let y_max = i16_at(s, 8);
    let mut offset: usize = 10;
    let mut components: Vec<CompositeComponent> = Vec::new();
    let mut has_more = true;
    while has_more
        invariant
            len == s@.len(),
            offset <= len,
            has_more ==> (components_fit(s@, 10) == components_fit(s@, offset as int)),
            has_more ==> components_list(s@, 10) == components@ + components_list(
                s@,
                offset as int,
            ),
            !has_more ==> components_fit(s@, 10),
            !has_more ==> components_list(s@, 10) == components@,
        decreases (if has_more { len - offset + 1 } else { 0 }),
    {
        if len - offset < 2 {
            return Err(FontError::OutOfBounds { offset, length: 2, buf_len: len });
        }
        let flags = u16_at(s, offset);
        let words = flags & 0x0001u16 != 0;
        let tsize: usize = if flags & 0x0008u16 != 0 {
            2
        } else if flags & 0x0040u16 != 0 {
            4
        } else if flags & 0x0080u16 != 0 {
            8
        } else {
            0
        };
        let size: usize = 4 + if words { 4 } else { 2 } + tsize;
        assert(size == component_size(flags));
        if len - offset < size {
            return Err(FontError::OutOfBounds { offset, length: size, buf_len: len });
        }
        let glyph_index = u16_at(s, offset + 2);
        let a = offset + 4;
        let arg1: i16;
        let arg2: i16;
        if words {
            arg1 = i16_at(s, a);
            arg2 = i16_at(s, a + 2);
        } else {
            arg1 = byte_to_i16(s[a]);
            arg2 = byte_to_i16(s[a + 1]);
        }
        let t = a + if words { 4 } else { 2 };
        let transformation = if flags & 0x0008u16 != 0 {
            Some(CompositeTransform::Scale(i16_at(s, t)))
        } else if flags & 0x0040u16 != 0 {
            Some(CompositeTransform::XyScale(i16_at(s, t), i16_at(s, t + 2)))
        } else if flags & 0x0080u16 != 0 {
            Some(
                CompositeTransform::TwoByTwo(
                    i16_at(s, t),
                    i16_at(s, t + 2),
                    i16_at(s, t + 4),
                    i16_at(s, t + 6),
                ),
            )
        } else {
            None
        };
        let comp = CompositeComponent {
            glyph_index,
            flags,
            argument1: arg1,
            argument2: arg2,
            transformation,
        };
        proof {
            assert(comp == component_at(s@, offset as int));
        }
        let ghost before = components@;
        components.push(comp);
        has_more = flags & 0x0020u16 != 0;
        proof {
            if has_more {
                assert(components_list(s@, offset as int) == seq![comp] + components_list(
                    s@,
                    offset + size,
                ));
                assert(components_list(s@, 10) =~= components@ + components_list(
                    s@,
                    offset + size,
                ));
            } else {
                assert(components_list(s@, 10) =~= components@);
            }
        }
        offset += size;
    }
    Ok(Glyph::Composite(CompositeGlyph { x_min, y_min, x_max, y_max, components }))
}

/// Reads one glyph from its data.
fn parse_glyph(s: &[u8]) -> (r: Result<Glyph, FontError>)
    ensures
        match r {
            Ok(g) => glyph_fits(s@) && glyph_decoded(g, s@),
            Err(e) => !glyph_fits(s@) && e is OutOfBounds,
        },
{
    if s.len() < 10 {
        return Ok(Glyph::Empty);
    }
    let num_contours = i16_at(s, 0);
    if num_contours >= 0 {
        Ok(parse_simple(s))
    } else {
        parse_composite(s)
    }
}

/// The data of glyph `i` lies inside the buffer (or is empty).
pub open spec fn glyph_range_fits(data: Seq<u8>, glyf_offset: int, a: int, b: int) -> bool {
    a == b || (a <= b && glyf_offset + b <= data.len())
}

/// Glyph `i` as `parse_with_loca` reads it from its range `[a, b)` of the
/// `glyf` table at `glyf_offset`: an empty range is the empty glyph.
pub open spec fn glyph_read(g: Glyph, data: Seq<u8>, glyf_offset: int, a: int, b: int) -> bool {
    if a == b {
        g is Empty
    } else {
        glyph_decoded(g, data.subrange(glyf_offset + a, glyf_offset + b))
    }
}

pub open spec fn glyph_readable(data: Seq<u8>, glyf_offset: int, a: int, b: int) -> bool {
    glyph_range_fits(data, glyf_offset, a, b) && (a == b || glyph_fits(
        data.subrange(glyf_offset + a, glyf_offset + b),
    ))
}

impl GlyfTable {
    /// Reads one glyph per consecutive pair of `loca` offsets. A glyph
    /// range that runs backwards or past the data, or a composite glyph
    /// whose components run past its data, is an out-of-bounds error.
    pub fn parse_with_loca(data: &[u8], loca: &LocaTable, glyf_offset: usize) -> (r: Result<
        Self,
        FontError,
    >)
        ensures
            ({
                let offs = loca.offsets@;
                let count = if offs.len() == 0 { 0 } else { offs.len() - 1 };
                match r {
                    Ok(t) => {
                        &&& t.glyphs@.len() == count
                        &&& forall|i: int|
                            0 <= i < count ==> #[trigger] glyph_readable(
                                data@,
                                glyf_offset as int,
                                offs[i] as int,
                                offs[i + 1] as int,
                            )
                        &&& forall|i: int|
                            0 <= i < count ==> #[trigger] glyph_read(
                                t.glyphs@[i],
                                data@,
                                glyf_offset as int,
                                offs[i] as int,
                                offs[i + 1] as int,
                            )
                    },
                    Err(e) => {
                        &&& e is OutOfBounds
                        &&& exists|i: int|
                            0 <= i < count && !#[trigger] glyph_readable(
                                data@,
                                glyf_offset as int,
                                offs[i] as int,
                                offs[i + 1] as int,
                            )
                    },
                }
            }),
    {
        let ghost offs = loca.offsets@;
        let n = loca.offsets.len();
        let count = if n == 0 {
            0
        } else {
            n - 1
        };
        let len = data.len();
        let mut glyphs: Vec<Glyph> = Vec::new();
        let mut i: usize = 0;
        while i < count
            invariant
                offs == loca.offsets@,
                n == offs.len(),
                count == (if n == 0 { 0 } else { n - 1 }),
                len == data@.len(),
                i <= count,
                glyphs@.len() == i,
                forall|k: int|
                    0 <= k < i ==> #[trigger] glyph_readable(
                        data@,
                        glyf_offset as int,
                        offs[k] as int,
                        offs[k + 1] as int,
                    ),
                forall|k: int|
                    0 <= k < i ==> #[trigger] glyph_read(
                        glyphs@[k],
                        data@,
                        glyf_offset as int,
                        offs[k] as int,
                        offs[k + 1] as int,
                    ),
            decreases count - i,
        {
            let start = loca.offsets[i] as usize;
            let end = loca.offsets[i + 1] as usize;
            let g = if start == end {
                Glyph::Empty
            } else {
                if start > end || end > len || glyf_offset > len - end {
                    proof {
                        assert(!glyph_readable(
                            data@,
                            glyf_offset as int,
                            offs[i as int] as int,
                            offs[i + 1] as int,
                        ));
                    }
                    return Err(FontError::OutOfBounds { offset: start, length: end, buf_len: len });
                }
                let slice = vstd::slice::slice_subrange(data, glyf_offset + start, glyf_offset + end);
                match parse_glyph(slice) {
                    Ok(g) => g,
                    Err(e) => {
                        proof {
                            assert(!glyph_readable(
                                data@,
                                glyf_offset as int,
                                offs[i as int] as int,
                                offs[i + 1] as int,
                            ));
                        }
                        return Err(e);
                    },
                }
            };
            let ghost before = glyphs@;
            glyphs.push(g);
            proof {
                assert forall|k: int| 0 <= k < i + 1 implies #[trigger] glyph_read(
                    glyphs@[k],
                    data@,
                    glyf_offset as int,
                    offs[k] as int,
                    offs[k + 1] as int,
                ) by {
                    if k < i {
                        assert(glyphs@[k] == before[k]);
                    }
                }
            }
            i += 1;
        }
        Ok(GlyfTable { glyphs })
    }
}

} // verus!
