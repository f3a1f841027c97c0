//! `glyf`: glyph outlines.
use vstd::prelude::*;
use crate::codec::{i16_bytes, u16_bytes, units_bytes};
use crate::error::{FontError, Tag};
use crate::tables::Table;
use crate::write::{i8_as_u8, Writer};

verus! {

broadcast use crate::codec::group_codec;

#[derive(Debug, Clone, PartialEq)]
pub struct GlyfTable {
    pub glyphs: Vec<Glyph>,
}

#[derive(Debug, Clone, PartialEq)]
pub enum Glyph {
    Empty,
    Simple(SimpleGlyph),
    Composite(CompositeGlyph),
}

#[derive(Debug, Clone, PartialEq)]
pub struct SimpleGlyph {
    pub number_of_contours: i16,
    pub x_min: i16,
    pub y_min: i16,
    pub x_max: i16,
    pub y_max: i16,
    pub end_pts_of_contours: Vec<u16>,
    pub instructions: Vec<u8>,
    pub flags: Vec<u8>,
    pub x_coordinates: Vec<i16>,
    pub y_coordinates: Vec<i16>,
}

#[derive(Debug, Clone, PartialEq)]
pub struct CompositeGlyph {
    pub x_min: i16,
    pub y_min: i16,
    pub x_max: i16,
    pub y_max: i16,
    pub components: Vec<CompositeComponent>,
}

#[derive(Debug, Clone, Copy, PartialEq, Eq, Structural)]
pub struct CompositeComponent {
    pub glyph_index: u16,
    pub flags: u16,
    pub argument1: i16,
    pub argument2: i16,
    pub transformation: Option<CompositeTransform>,
}

/// A component's transformation, each entry an F2Dot14 number held as its
/// raw 16-bit value (16384 stands for 1.0).
#[derive(Debug, Clone, Copy, PartialEq, Eq, Structural)]
pub enum CompositeTransform {
    Scale(i16),
    XyScale(i16, i16),
    TwoByTwo(i16, i16, i16, i16),
}

pub open spec fn i16s_bytes(v: Seq<i16>) -> Seq<u8>
    decreases v.len(),
{
    if v.len() == 0 {
        Seq::empty()
    } else {
        i16s_bytes(v.drop_last()) + i16_bytes(v.last())
    }
}

impl SimpleGlyph {
    /// The header, end points, instruction length and instructions, flags,
    /// then every coordinate as a 16-bit value.
    pub open spec fn encode(self) -> Seq<u8> {
        i16_bytes(self.number_of_contours) + i16_bytes(self.x_min) + i16_bytes(self.y_min)
            + i16_bytes(self.x_max) + i16_bytes(self.y_max) + units_bytes(
            self.end_pts_of_contours@,
        ) + u16_bytes(self.instructions@.len() as u16) + self.instructions@ + self.flags@
            + i16s_bytes(self.x_coordinates@) + i16s_bytes(self.y_coordinates@)
    }
}

/// Both arguments of a component fit in a signed byte.
pub open spec fn args_fit_byte(c: CompositeComponent) -> bool {
    -128 <= c.argument1 <= 127 && -128 <= c.argument2 <= 127
}

/// The flags written for a component: MORE_COMPONENTS set exactly when
/// another component follows, ARG_1_AND_2_ARE_WORDS set exactly when the
/// arguments do not fit in bytes.
pub open spec fn written_flags(c: CompositeComponent, more: bool) -> u16 {
    let f = if more {
        c.flags | 0x0020u16
    } else {
        c.flags & !0x0020u16
    };
    if args_fit_byte(c) {
        f & !0x0001u16
    } else {
        f | 0x0001u16
    }
}

pub open spec fn transform_bytes(t: Option<CompositeTransform>) -> Seq<u8> {
    match t {
        None => Seq::empty(),
        Some(CompositeTransform::Scale(s)) => i16_bytes(s),
        Some(CompositeTransform::XyScale(x, y)) => i16_bytes(x) + i16_bytes(y),
        Some(CompositeTransform::TwoByTwo(a, b, c, d)) => i16_bytes(a) + i16_bytes(b) + i16_bytes(
            c,
        ) + i16_bytes(d),
    }
}

pub open spec fn component_bytes(c: CompositeComponent, more: bool) -> Seq<u8> {
    u16_bytes(written_flags(c, more)) + u16_bytes(c.glyph_index) + if args_fit_byte(c) {
        seq![i8_as_u8(c.argument1 as i8), i8_as_u8(c.argument2 as i8)]
    } else {
        i16_bytes(c.argument1) + i16_bytes(c.argument2)
    } + transform_bytes(c.transformation)
}

pub open spec fn components_bytes(cs: Seq<CompositeComponent>, k: int) -> Seq<u8>
    decreases k,
{
    if k <= 0 {
        Seq::empty()
    } else {
        components_bytes(cs, k - 1) + component_bytes(cs[k - 1], k < cs.len())
    }
}

impl CompositeGlyph {
    /// The composite marker -1, the bounds, then each component.
    pub open spec fn encode(self) -> Seq<u8> {
        i16_bytes(-1i16) + i16_bytes(self.x_min) + i16_bytes(self.y_min) + i16_bytes(self.x_max)
            + i16_bytes(self.y_max) + components_bytes(
            self.components@,
            self.components@.len() as int,
        )
    }
}

impl Glyph {
    pub open spec fn encode(self) -> Seq<u8> {
        match self {
            Glyph::Empty => Seq::empty(),
            Glyph::Simple(g) => g.encode(),
            Glyph::Composite(g) => g.encode(),
        }
    }
}

pub open spec fn glyphs_bytes(gs: Seq<Glyph>, k: int) -> Seq<u8>
    decreases k,
{
    if k <= 0 {
        Seq::empty()
    } else {
        glyphs_bytes(gs, k - 1) + gs[k - 1].encode()
    }
}

/// The points of the first `k` contours, in order.
pub open spec fn all_points(cs: Seq<Seq<(i16, i16)>>, k: int) -> Seq<(i16, i16)>
    decreases k,
{
    if k <= 0 {
        Seq::empty()
    } else {
        all_points(cs, k - 1) + cs[k - 1]
    }
}

pub open spec fn contour_views(cs: Seq<Vec<(i16, i16)>>) -> Seq<Seq<(i16, i16)>> {
    Seq::new(cs.len(), |i: int| cs[i]@)
}

pub open spec fn min16(a: i16, b: i16) -> i16 {
    if a <= b { a } else { b }
}

pub open spec fn max16(a: i16, b: i16) -> i16 {
    if a >= b { a } else { b }
}

/// The least x of the points, `i16::MAX` for none.
pub open spec fn fold_min_x(p: Seq<(i16, i16)>) -> i16
    decreases p.len(),
{
    if p.len() == 0 { i16::MAX } else { min16(fold_min_x(p.drop_last()), p.last().0) }
}

pub open spec fn fold_min_y(p: Seq<(i16, i16)>) -> i16
    decreases p.len(),
{
    if p.len() == 0 { i16::MAX } else { min16(fold_min_y(p.drop_last()), p.last().1) }
}

pub open spec fn fold_max_x(p: Seq<(i16, i16)>) -> i16
    decreases p.len(),
{
    if p.len() == 0 { i16::MIN } else { max16(fold_max_x(p.drop_last()), p.last().0) }
}

pub open spec fn fold_max_y(p: Seq<(i16, i16)>) -> i16
    decreases p.len(),
{
    if p.len() == 0 { i16::MIN } else { max16(fold_max_y(p.drop_last()), p.last().1) }
}

/// The step from point `i - 1` (the origin for the first) to point `i`.
pub open spec fn delta_x(p: Seq<(i16, i16)>, i: int) -> int {
    p[i].0 - if i == 0 { 0 } else { p[i - 1].0 as int }
}

pub open spec fn delta_y(p: Seq<(i16, i16)>, i: int) -> int {
    p[i].1 - if i == 0 { 0 } else { p[i - 1].1 as int }
}

/// The point counts add up within 16 bits and every step between
/// consecutive points fits in 16 bits.
pub open spec fn points_encodable(cs: Seq<Seq<(i16, i16)>>) -> bool {
    let p = all_points(cs, cs.len() as int);
    &&& p.len() <= u16::MAX
    &&& forall|i: int| 0 <= i < p.len() ==> i16::MIN <= #[trigger] delta_x(p, i) <= i16::MAX
    &&& forall|i: int| 0 <= i < p.len() ==> i16::MIN <= #[trigger] delta_y(p, i) <= i16::MAX
}

proof fn lemma_all_points_len_monotone(cs: Seq<Seq<(i16, i16)>>, a: int, b: int)
    requires
        0 <= a <= b <= cs.len(),
    ensures
        all_points(cs, a).len() <= all_points(cs, b).len(),
        all_points(cs, b).subrange(0, all_points(cs, a).len() as int) =~= all_points(cs, a),
    decreases b - a,
{
    if a < b {
        lemma_all_points_len_monotone(cs, a, b - 1);
        let pb = all_points(cs, b - 1);
        assert(all_points(cs, b).subrange(0, pb.len() as int) =~= pb);
    }
}

impl Glyph {
    /// A simple glyph with the given closed contours, every point on the
    /// curve, coordinates stored as steps from the previous point; no
    /// contours give the empty glyph.
    pub fn from_points(contours: Vec<Vec<(i16, i16)>>) -> (g: Self)
        requires
            points_encodable(contour_views(contours@)),
        ensures
            contours@.len() == 0 ==> g is Empty,
            contours@.len() > 0 ==> (g matches Glyph::Simple(sg) && {
                let cs = contour_views(contours@);
                let p = all_points(cs, cs.len() as int);
                &&& sg.number_of_contours == contours@.len() as i16
                &&& sg.x_min == fold_min_x(p)
                &&& sg.y_min == fold_min_y(p)
                &&& sg.x_max == fold_max_x(p)
                &&& sg.y_max == fold_max_y(p)
                &&& sg.end_pts_of_contours@.len() == cs.len()
                &&& forall|k: int|
                    0 <= k < cs.len() ==> #[trigger] sg.end_pts_of_contours@[k] == if all_points(
                        cs,
                        k + 1,
                    ).len() == 0 {
                        0
                    } else {
                        all_points(cs, k + 1).len() - 1
                    }
                &&& sg.instructions@.len() == 0
                &&& sg.flags@ == Seq::new(p.len(), |i: int| 1u8)
                &&& sg.x_coordinates@.len() == p.len()
                &&& sg.y_coordinates@.len() == p.len()
                &&& forall|i: int| 0 <= i < p.len() ==> #[trigger] sg.x_coordinates@[i] == delta_x(p, i)
                &&& forall|i: int| 0 <= i < p.len() ==> #[trigger] sg.y_coordinates@[i] == delta_y(p, i)
            }),
    {
        if contours.len() == 0 {
            return Glyph::Empty;
        }
        let ghost cs = contour_views(contours@);
        let ghost all = all_points(cs, cs.len() as int);
        let n = contours.len();
        let mut end_pts: Vec<u16> = Vec::new();
        let mut flags: Vec<u8> = Vec::new();
        let mut xs: Vec<i16> = Vec::new();
        let mut ys: Vec<i16> = Vec::new();
        let mut x_min = i16::MAX;
        let mut y_min = i16::MAX;
        let mut x_max = i16::MIN;
        let mut y_max = i16::MIN;
        let mut total: u16 = 0;
        let mut prev_x: i16 = 0;
        let mut prev_y: i16 = 0;
        let mut c: usize = 0;
        while c < n
            invariant
                n == contours@.len(),
                cs == contour_views(contours@),
                all == all_points(cs, n as int),
                points_encodable(cs),
                c <= n,
                ({
                    let p = all_points(cs, c as int);
                    &&& total == p.len()
                    &&& x_min == fold_min_x(p)
                    &&& y_min == fold_min_y(p)
                    &&& x_max == fold_max_x(p)
                    &&& y_max == fold_max_y(p)
                    &&& (p.len() > 0 ==> prev_x == p.last().0 && prev_y == p.last().1)
                    &&& (p.len() == 0 ==> prev_x == 0 && prev_y == 0)
                    &&& flags@ == Seq::new(p.len(), |i: int| 1u8)
                    &&& xs@.len() == p.len()
                    &&& ys@.len() == p.len()
                    &&& forall|i: int| 0 <= i < p.len() ==> #[trigger] xs@[i] == delta_x(all, i)
                    &&& forall|i: int| 0 <= i < p.len() ==> #[trigger] ys@[i] == delta_y(all, i)
                }),
                end_pts@.len() == c,
                forall|k: int|
                    0 <= k < c ==> #[trigger] end_pts@[k] == if all_points(cs, k + 1).len() == 0 {
                        0
                    } else {
                        all_points(cs, k + 1).len() - 1
                    },
            decreases n - c,
        {
            let contour = &contours[c];
            let m = contour.len();
            let ghost before = all_points(cs, c as int);
            proof {
                lemma_all_points_len_monotone(cs, c + 1, n as int);
                assert(cs[c as int] == contour@);
                assert(all_points(cs, c + 1) == before + contour@);
            }
            let mut j: usize = 0;
            while j < m
                invariant
                    n == contours@.len(),
                    c < n,
                    cs == contour_views(contours@),
                    all == all_points(cs, n as int),
                    points_encodable(cs),
                    m == contour@.len(),
                    cs[c as int] == contour@,
                    before == all_points(cs, c as int),
                    all_points(cs, c + 1) == before + contour@,
                    all_points(cs, c + 1).len() <= all.len(),
                    all.subrange(0, all_points(cs, c + 1).len() as int) == all_points(cs, c + 1),
                    j <= m,
                    ({
                        let p = before + contour@.subrange(0, j as int);
                        &&& total == before.len()
                        &&& x_min == fold_min_x(p)
                        &&& y_min == fold_min_y(p)
                        &&& x_max == fold_max_x(p)
                        &&& y_max == fold_max_y(p)
                        &&& (p.len() > 0 ==> prev_x == p.last().0 && prev_y == p.last().1)
                        &&& (p.len() == 0 ==> prev_x == 0 && prev_y == 0)
                        &&& flags@ == Seq::new(p.len(), |i: int| 1u8)
                        &&& xs@.len() == p.len()
                        &&& ys@.len() == p.len()
                        &&& forall|i: int| 0 <= i < p.len() ==> #[trigger] xs@[i] == delta_x(all, i)
                        &&& forall|i: int| 0 <= i < p.len() ==> #[trigger] ys@[i] == delta_y(all, i)
                    }),
                decreases m - j,
            {
                let (x, y) = contour[j];
                let ghost p0 = before + contour@.subrange(0, j as int);
                let ghost p1 = before + contour@.subrange(0, j + 1);
                let ghost idx = p0.len() as int;
                proof {
                    assert(p1 =~= p0.push((x, y)));
                    assert(p1.drop_last() =~= p0);
                    let whole = before + contour@;
                    let l = all_points(cs, c + 1).len() as int;
                    assert(idx < l);
                    assert(all[idx] == all.subrange(0, l)[idx]);
                    assert(whole[idx] == p1[idx]);
                    assert(all[idx] == p1[idx]);
                    if idx > 0 {
                        assert(all[idx - 1] == all.subrange(0, l)[idx - 1]);
                        assert(whole[idx - 1] == p0[idx - 1]);
                        assert(all[idx - 1] == p0[idx - 1]);
                    }
                    assert(i16::MIN <= delta_x(all, idx) <= i16::MAX);
                    assert(i16::MIN <= delta_y(all, idx) <= i16::MAX);
                }
                if x < x_min {
                    x_min = x;
                }
                if y < y_min {
                    y_min = y;
                }
                if x > x_max {
                    x_max = x;
                }
                if y > y_max {
                    y_max = y;
                }
                let dx = x - prev_x;
                let dy = y - prev_y;
                prev_x = x;
                prev_y = y;
                flags.push(1u8);
                xs.push(dx);
                ys.push(dy);
                j += 1;
                proof {
                    assert(flags@ =~= Seq::new(p1.len(), |i: int| 1u8));
                }
            }
            proof {
                assert(contour@.subrange(0, m as int) =~= contour@);
            }
            total = total + m as u16;
            let e = if total == 0 { 0 } else { total - 1 };
            end_pts.push(e);
            c += 1;
        }
        Glyph::Simple(
            SimpleGlyph {
                number_of_contours: #[verifier::truncate] (n as i16),
                x_min,
                y_min,
                x_max,
                y_max,
                end_pts_of_contours: end_pts,
                instructions: Vec::new(),
                flags,
                x_coordinates: xs,
                y_coordinates: ys,
            },
        )
    }

    pub fn write(&self, w: &mut Writer)
        ensures
            final(w)@ == old(w)@ + self.encode(),
    {
        match self {
            Glyph::Empty => {
                assert(w@ =~= old(w)@ + self.encode());
            },
            Glyph::Simple(g) => g.write(w),
            Glyph::Composite(g) => g.write(w),
        }
    }
}

fn write_i16s(w: &mut Writer, v: &Vec<i16>)
    ensures
        final(w)@ == old(w)@ + i16s_bytes(v@),
{
    let n = v.len();
    let mut i: usize = 0;
    let ghost base = w@;
    while i < n
        invariant
            n == v@.len(),
            i <= n,
            w@ == base + i16s_bytes(v@.subrange(0, i as int)),
        decreases n - i,
    {
        w.write_i16(v[i]);
        proof {
            assert(v@.subrange(0, i + 1).drop_last() =~= v@.subrange(0, i as int));
        }
        i += 1;
    }
    proof {
        assert(v@.subrange(0, n as int) =~= v@);
    }
}

fn write_u16s(w: &mut Writer, v: &Vec<u16>)
    ensures
        final(w)@ == old(w)@ + units_bytes(v@),
{
    let n = v.len();
    let mut i: usize = 0;
    let ghost base = w@;
    while i < n
        invariant
            n == v@.len(),
            i <= n,
            w@ == base + units_bytes(v@.subrange(0, i as int)),
        decreases n - i,
    {
        w.write_u16(v[i]);
        proof {
            assert(v@.subrange(0, i + 1).drop_last() =~= v@.subrange(0, i as int));
        }
        i += 1;
    }
    proof {
        assert(v@.subrange(0, n as int) =~= v@);
    }
}

impl SimpleGlyph {
    /// Writes the glyph; coordinates are always 16-bit values.
    pub fn write(&self, w: &mut Writer)
        ensures
            final(w)@ == old(w)@ + self.encode(),
    {
        w.write_i16(self.number_of_contours);
        w.write_i16(self.x_min);
        w.write_i16(self.y_min);
        w.write_i16(self.x_max);
        w.write_i16(self.y_max);
        write_u16s(w, &self.end_pts_of_contours);
        w.write_u16(self.instructions.len() as u16);
        w.write_bytes(self.instructions.as_slice());
        w.write_bytes(self.flags.as_slice());
        write_i16s(w, &self.x_coordinates);
        write_i16s(w, &self.y_coordinates);
        proof {
            assert(w@ =~= old(w)@ + self.encode());
        }
    }
}

fn write_component(w: &mut Writer, comp: &CompositeComponent, more: bool)
    ensures
        final(w)@ == old(w)@ + component_bytes(*comp, more),
{
    let mut flags = comp.flags;
    if more {
        flags = flags | 0x0020u16;
    } else {
        flags = flags & !0x0020u16;
    }
    let args_fit_byte = comp.argument1 >= -128 && comp.argument1 <= 127 && comp.argument2 >= -128
        && comp.argument2 <= 127;
    if args_fit_byte {
        flags = flags & !0x0001u16;
    } else {
        flags = flags | 0x0001u16;
    }
    w.write_u16(flags);
    w.write_u16(comp.glyph_index);
    if args_fit_byte {
        w.write_i8(comp.argument1 as i8);
        w.write_i8(comp.argument2 as i8);
    } else {
        w.write_i16(comp.argument1);
        w.write_i16(comp.argument2);
    }
    match comp.transformation {
        None => {},
        Some(CompositeTransform::Scale(s)) => {
            w.write_i16(s);
        },
        Some(CompositeTransform::XyScale(x, y)) => {
            w.write_i16(x);
            w.write_i16(y);
        },
        Some(CompositeTransform::TwoByTwo(a, b, c, d)) => {
            w.write_i16(a);
            w.write_i16(b);
            w.write_i16(c);
            w.write_i16(d);
        },
    }
    proof {
        assert(w@ =~= old(w)@ + component_bytes(*comp, more));
    }
}

impl CompositeGlyph {
    /// Writes the glyph, setting MORE_COMPONENTS on all components but the
    /// last and choosing byte or word arguments by their values.
    pub fn write(&self, w: &mut Writer)
        ensures
            final(w)@ == old(w)@ + self.encode(),
    {
        w.write_i16(-1);
        w.write_i16(self.x_min);
        w.write_i16(self.y_min);
        w.write_i16(self.x_max);
        w.write_i16(self.y_max);
        let ghost hdr = w@;
        let n = self.components.len();
        let mut i: usize = 0;
        while i < n
            invariant
                n == self.components@.len(),
                i <= n,
                w@ == hdr + components_bytes(self.components@, i as int),
            decreases n - i,
        {
            write_component(w, &self.components[i], i < n - 1);
            i += 1;
            proof {
                assert(w@ =~= hdr + components_bytes(self.components@, i as int));
            }
        }
        proof {
            assert(w@ =~= old(w)@ + self.encode());
        }
    }
}

impl GlyfTable {
    /// Every glyph's bytes, one after the other.
    pub fn to_bytes(&self) -> (v: Vec<u8>)
        ensures
            v@ == glyphs_bytes(self.glyphs@, self.glyphs@.len() as int),
    {
        let mut w = Writer::new();
        self.write_into(&mut w);
        w.into_vec()
    }

    fn write_into(&self, w: &mut Writer)
        ensures
            final(w)@ == old(w)@ + glyphs_bytes(self.glyphs@, self.glyphs@.len() as int),
    {
        let n = self.glyphs.len();
        let mut i: usize = 0;
        while i < n
            invariant
                n == self.glyphs@.len(),
                i <= n,
                w@ == old(w)@ + glyphs_bytes(self.glyphs@, i as int),
            decreases n - i,
        {
            self.glyphs[i].write(w);
            i += 1;
            proof {
                assert(w@ =~= old(w)@ + glyphs_bytes(self.glyphs@, i as int));
            }
        }
    }
}

impl Table for GlyfTable {
    open spec fn writable(&self) -> bool {
        true
    }

    /// `glyf`
    fn tag() -> (t: Tag)
        ensures
            t.0@ == seq![0x67u8, 0x6c, 0x79, 0x66],
    {
        Tag([0x67, 0x6c, 0x79, 0x66])
    }

    /// `glyf` cannot be read without `loca`; this always fails.
    fn parse(_buf: &[u8], _offset: usize) -> (r: Result<Self, FontError>)
        ensures
            r matches Err(e) && e matches FontError::InvalidTable { tag: t, .. } && t.0@ == seq![
                0x67u8,
                0x6c,
                0x79,
                0x66,
            ],
    {
        Err(
            FontError::invalid_table(
                Self::tag(),
                "glyf requires loca table for parsing; use GlyfTable::parse_with_loca",
            ),
        )
    }

    fn write(&self, w: &mut Writer) -> (r: Result<(), FontError>)
        ensures
            r is Ok,
            final(w)@ == old(w)@ + glyphs_bytes(self.glyphs@, self.glyphs@.len() as int),
    {
        self.write_into(w);
        Ok(())
    }
}

} // verus!
