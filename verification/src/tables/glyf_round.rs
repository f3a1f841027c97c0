//! Written `glyf` and `loca` tables fit what `read` reads.
use vstd::prelude::*;
use crate::codec::{be_i16, be_u16, be_u32, i16_bytes, u16_bytes, u32_bytes};
use crate::font::{glyph_offsets, glyph_sizes};
use crate::font_read::{loca_fits, loca_offsets};
use crate::tables::cmap_round::{
    lemma_placed_concat, lemma_placed_facts, lemma_placed_u16, lemma_placed_u32, placed,
};
use crate::tables::glyf::{
    args_fit_byte, component_bytes, components_bytes, glyphs_bytes, transform_bytes, written_flags,
    CompositeComponent, CompositeGlyph, GlyfTable, Glyph,
};
use crate::tables::glyf_read::{component_size, components_fit, glyph_fits, glyph_readable, transform_size};
use crate::tables::loca::{encode_offsets, lemma_prefix_sum_monotone, prefix_sum};

verus! {

broadcast use crate::codec::group_codec;

/// A composite glyph that `read` can read back: it has a component, and
/// each component's flags announce a transformation of the size it has.
pub open spec fn composite_reads_back(cg: CompositeGlyph) -> bool {
    &&& cg.components@.len() >= 1
    &&& forall|i: int|
        0 <= i < cg.components@.len() ==> transform_size((#[trigger] cg.components@[i]).flags)
            == transform_bytes(cg.components@[i].transformation).len()
}

/// A glyph that `read` can read back from its written bytes: a simple
/// glyph with a contour count that does not mark it composite, or a
/// composite glyph as above.
pub open spec fn glyph_reads_back(g: Glyph) -> bool {
    match g {
        Glyph::Empty => true,
        Glyph::Simple(sg) => sg.number_of_contours >= 0,
        Glyph::Composite(cg) => composite_reads_back(cg),
    }
}

/// The flags `write` stores for a component keep its transformation bits,
/// and mark word arguments and a following component as they are.
proof fn lemma_written_flag_bits(c: CompositeComponent, more: bool)
    ensures
        ({
            let w = written_flags(c, more);
            &&& (w & 0x0001u16 != 0) == !args_fit_byte(c)
            &&& (w & 0x0020u16 != 0) == more
            &&& transform_size(w) == transform_size(c.flags)
        }),
{
    let f = c.flags;
    if more {
        if args_fit_byte(c) {
            assert((((f | 0x0020u16) & !0x0001u16) & 0x0001u16) == 0) by (bit_vector);
            assert((((f | 0x0020u16) & !0x0001u16) & 0x0020u16) != 0) by (bit_vector);
            assert((((f | 0x0020u16) & !0x0001u16) & 0x0008u16) == f & 0x0008u16) by (bit_vector);
            assert((((f | 0x0020u16) & !0x0001u16) & 0x0040u16) == f & 0x0040u16) by (bit_vector);
            assert((((f | 0x0020u16) & !0x0001u16) & 0x0080u16) == f & 0x0080u16) by (bit_vector);
        } else {
            assert((((f | 0x0020u16) | 0x0001u16) & 0x0001u16) != 0) by (bit_vector);
            assert((((f | 0x0020u16) | 0x0001u16) & 0x0020u16) != 0) by (bit_vector);
            assert((((f | 0x0020u16) | 0x0001u16) & 0x0008u16) == f & 0x0008u16) by (bit_vector);
            assert((((f | 0x0020u16) | 0x0001u16) & 0x0040u16) == f & 0x0040u16) by (bit_vector);
            assert((((f | 0x0020u16) | 0x0001u16) & 0x0080u16) == f & 0x0080u16) by (bit_vector);
        }
    } else {
        if args_fit_byte(c) {
            assert((((f & !0x0020u16) & !0x0001u16) & 0x0001u16) == 0) by (bit_vector);
            assert((((f & !0x0020u16) & !0x0001u16) & 0x0020u16) == 0) by (bit_vector);
            assert((((f & !0x0020u16) & !0x0001u16) & 0x0008u16) == f & 0x0008u16) by (bit_vector);
            assert((((f & !0x0020u16) & !0x0001u16) & 0x0040u16) == f & 0x0040u16) by (bit_vector);
            assert((((f & !0x0020u16) & !0x0001u16) & 0x0080u16) == f & 0x0080u16) by (bit_vector);
        } else {
            assert((((f & !0x0020u16) | 0x0001u16) & 0x0001u16) != 0) by (bit_vector);
            assert((((f & !0x0020u16) | 0x0001u16) & 0x0020u16) == 0) by (bit_vector);
            assert((((f & !0x0020u16) | 0x0001u16) & 0x0008u16) == f & 0x0008u16) by (bit_vector);
            assert((((f & !0x0020u16) | 0x0001u16) & 0x0040u16) == f & 0x0040u16) by (bit_vector);
            assert((((f & !0x0020u16) | 0x0001u16) & 0x0080u16) == f & 0x0080u16) by (bit_vector);
        }
    }
}

/// The components written before component `k` begin those written
/// before component `m`.
proof fn lemma_components_prefix(cs: Seq<CompositeComponent>, k: int, m: int)
    requires
        0 <= k <= m,
    ensures
        components_bytes(cs, k).len() <= components_bytes(cs, m).len(),
        components_bytes(cs, m).subrange(0, components_bytes(cs, k).len() as int)
            == components_bytes(cs, k),
    decreases m,
{
    if k < m {
        lemma_components_prefix(cs, k, m - 1);
        let a = components_bytes(cs, m - 1);
        let b = component_bytes(cs[m - 1], m < cs.len());
        assert((a + b).subrange(0, components_bytes(cs, k).len() as int) =~= a.subrange(
            0,
            components_bytes(cs, k).len() as int,
        ));
    } else {
        let a = components_bytes(cs, m);
        assert(a.subrange(0, a.len() as int) =~= a);
    }
}

/// The written components read one after another from component `i` on.
#[verifier::spinoff_prover]
proof fn lemma_components_fit_from(cg: CompositeGlyph, s: Seq<u8>, i: int)
    requires
        composite_reads_back(cg),
        0 <= i < cg.components@.len(),
        s.len() == 10 + components_bytes(cg.components@, cg.components@.len() as int).len(),
        s.subrange(10, s.len() as int) == components_bytes(cg.components@, cg.components@.len() as int),
    ensures
        components_fit(s, 10 + components_bytes(cg.components@, i).len() as int),
    decreases cg.components@.len() - i,
{
    let cs = cg.components@;
    let n = cs.len() as int;
    let more = i + 1 < n;
    let c = cs[i];
    let cb = component_bytes(c, more);
    let cl = cb.len() as int;
    let pos = 10 + components_bytes(cs, i).len() as int;
    lemma_components_prefix(cs, i + 1, n);
    assert(components_bytes(cs, i + 1) == components_bytes(cs, i) + cb);
    let whole = components_bytes(cs, n);
    assert(whole.subrange(components_bytes(cs, i).len() as int, components_bytes(cs, i + 1).len() as int)
        =~= cb) by {
        let la = components_bytes(cs, i).len() as int;
        let lb = components_bytes(cs, i + 1).len() as int;
        assert(whole.subrange(0, lb) == components_bytes(cs, i) + cb);
        assert forall|j: int| 0 <= j < cl implies #[trigger] whole.subrange(la, lb)[j] == cb[j] by {
            assert(whole.subrange(la, lb)[j] == whole[la + j]);
            assert(whole.subrange(0, lb)[la + j] == whole[la + j]);
            assert((components_bytes(cs, i) + cb)[la + j] == cb[j]);
        }
    }
    assert(s.subrange(pos, pos + cl) =~= cb) by {
        assert forall|j: int| 0 <= j < cb.len() implies s.subrange(pos, pos + cl)[j] == cb[j] by {
            assert(s[pos + j] == s.subrange(10, s.len() as int)[pos + j - 10]);
            assert(whole.subrange(components_bytes(cs, i).len() as int, components_bytes(cs, i + 1).len() as int)[j]
                == whole[components_bytes(cs, i).len() + j]);
        }
    }
    let w = written_flags(c, more);
    let rest = cb.subrange(2, cb.len() as int);
    assert(cb =~= u16_bytes(w) + rest);
    crate::codec::lemma_be_u16_add_left(u16_bytes(w), rest, 0);
    crate::codec::lemma_be_u16_subrange(s, pos, pos + cl, 0);
    lemma_written_flag_bits(c, more);
    assert(transform_size(c.flags) == transform_bytes(c.transformation).len());
    assert(component_size(w) == cb.len());
    if more {
        lemma_components_fit_from(cg, s, i + 1);
    }
}

/// A composite glyph as above reads back from its written bytes.
proof fn lemma_composite_fits(cg: CompositeGlyph)
    requires
        composite_reads_back(cg),
    ensures
        components_fit(cg.encode(), 10),
{
    let e = cg.encode();
    let n = cg.components@.len() as int;
    assert(e.subrange(10, e.len() as int) =~= components_bytes(cg.components@, n));
    lemma_components_fit_from(cg, e, 0);
}

/// What a written `glyf` table needs to be read back with the `loca`
/// written beside it: each glyph reads back, and the glyph sizes and their
/// sum fit the 32-bit offsets.
pub open spec fn outlines_round_trip(g: GlyfTable) -> bool {
    &&& prefix_sum(glyph_sizes(g), g.glyphs@.len() as int) <= u32::MAX
    &&& forall|i: int|
        0 <= i < g.glyphs@.len() ==> {
            &&& glyph_reads_back(#[trigger] g.glyphs@[i])
            &&& g.glyphs@[i].encode().len() <= u32::MAX
        }
}

/// Long offsets written in a row read back in order.
proof fn lemma_placed_long_offsets(s: Seq<u8>, pos: int, o: Seq<u32>)
    requires
        placed(s, pos, encode_offsets(o, 1)),
    ensures
        encode_offsets(o, 1).len() == 4 * o.len(),
        forall|i: int| 0 <= i < o.len() ==> #[trigger] be_u32(s, pos + 4 * i) == o[i],
    decreases o.len(),
{
    if o.len() > 0 {
        let d = o.drop_last();
        lemma_placed_concat(s, pos, encode_offsets(d, 1), u32_bytes(o.last()));
        lemma_placed_long_offsets(s, pos, d);
        lemma_placed_u32(s, pos + encode_offsets(d, 1).len(), o.last());
        assert forall|i: int| 0 <= i < o.len() implies #[trigger] be_u32(s, pos + 4 * i) == o[i] by {
            if i < d.len() {
                assert(be_u32(s, pos + 4 * i) == d[i]);
            }
        }
    }
}

/// The glyphs written in a row: glyph `i` after the sizes of those
/// before it.
proof fn lemma_placed_glyphs(g: GlyfTable, s: Seq<u8>, pos: int, k: int)
    requires
        0 <= k <= g.glyphs@.len(),
        forall|i: int| 0 <= i < g.glyphs@.len() ==> (#[trigger] g.glyphs@[i]).encode().len() <= u32::MAX,
        placed(s, pos, glyphs_bytes(g.glyphs@, k)),
    ensures
        glyphs_bytes(g.glyphs@, k).len() == prefix_sum(glyph_sizes(g), k),
        forall|i: int|
            0 <= i < k ==> placed(
                s,
                pos + prefix_sum(glyph_sizes(g), i),
                #[trigger] g.glyphs@[i].encode(),
            ),
    decreases k,
{
    if k > 0 {
        lemma_placed_concat(s, pos, glyphs_bytes(g.glyphs@, k - 1), g.glyphs@[k - 1].encode());
        lemma_placed_glyphs(g, s, pos, k - 1);
        assert(g.glyphs@[k - 1].encode().len() <= u32::MAX);
        assert(glyph_sizes(g)[k - 1] == g.glyphs@[k - 1].encode().len());
    }
}

/// A glyph's written bytes are readable.
proof fn lemma_glyph_fits(gl: Glyph)
    requires
        glyph_reads_back(gl),
    ensures
        gl.encode().len() == 0 || glyph_fits(gl.encode()),
{
    match gl {
        Glyph::Empty => {},
        Glyph::Simple(sg) => {
            let e = sg.encode();
            let h = i16_bytes(sg.number_of_contours);
            assert(e =~= h + e.subrange(2, e.len() as int));
            crate::codec::lemma_be_u16_add_left(h, e.subrange(2, e.len() as int), 0);
            assert(be_i16(e, 0) == sg.number_of_contours);
        },
        Glyph::Composite(cg) => {
            lemma_composite_fits(cg);
        },
    }
}

/// A `glyf` table and the long `loca` written for it, placed anywhere in a
/// buffer, fit what `read` reads: the offsets, and every glyph between
/// them.
#[verifier::spinoff_prover]
pub proof fn lemma_outlines_fit_at(g: GlyfTable, s: Seq<u8>, glyf_off: int, loca_off: int)
    requires
        outlines_round_trip(g),
        placed(s, glyf_off, glyphs_bytes(g.glyphs@, g.glyphs@.len() as int)),
        placed(s, loca_off, encode_offsets(glyph_offsets(g), 1)),
    ensures
        loca_fits(s, loca_off, g.glyphs@.len() as int, true),
        forall|i: int|
            0 <= i < g.glyphs@.len() ==> #[trigger] glyph_readable(
                s,
                glyf_off,
                loca_offsets(s, loca_off, g.glyphs@.len() as nat, true)[i] as int,
                loca_offsets(s, loca_off, g.glyphs@.len() as nat, true)[i + 1] as int,
            ),
{
    let n = g.glyphs@.len() as int;
    let sizes = glyph_sizes(g);
    let o = glyph_offsets(g);
    lemma_placed_long_offsets(s, loca_off, o);
    lemma_placed_facts(s, loca_off, encode_offsets(o, 1));
    assert forall|i: int| 0 <= i < n implies (#[trigger] g.glyphs@[i]).encode().len() <= u32::MAX by {
        assert(outlines_round_trip(g));
    }
    lemma_placed_glyphs(g, s, glyf_off, n);
    lemma_placed_facts(s, glyf_off, glyphs_bytes(g.glyphs@, n));
    let offs = loca_offsets(s, loca_off, n as nat, true);
    assert forall|i: int| 0 <= i < n implies #[trigger] glyph_readable(
        s,
        glyf_off,
        offs[i] as int,
        offs[i + 1] as int,
    ) by {
        lemma_prefix_sum_monotone(sizes, i + 1, n);
        lemma_prefix_sum_monotone(sizes, 0, i);
        assert(offs[i] == be_u32(s, loca_off + 4 * i));
        assert(offs[i + 1] == be_u32(s, loca_off + 4 * (i + 1)));
        assert(o[i] == prefix_sum(sizes, i) as u32);
        assert(o[i + 1] == prefix_sum(sizes, i + 1) as u32);
        assert(sizes[i] == g.glyphs@[i].encode().len());
        assert(glyph_reads_back(g.glyphs@[i]));
        lemma_glyph_fits(g.glyphs@[i]);
        let e = g.glyphs@[i].encode();
        let st = glyf_off + prefix_sum(sizes, i);
        assert(placed(s, st, e));
        lemma_placed_facts(s, st, e);
    }
}

} // verus!
