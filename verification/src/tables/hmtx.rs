//! `hmtx`: horizontal metrics.
use vstd::prelude::*;
use crate::codec::{be_i16, be_u16, i16_as_u16, i16_bytes, u16_as_i16, u16_bytes};
use crate::error::{FontError, Tag};
use crate::parse::Parser;
use crate::tables::Table;
use crate::write::Writer;

verus! {

broadcast use crate::codec::group_codec;

#[derive(Debug, Clone, Copy, PartialEq, Eq, Structural)]
pub struct LongHorMetricRecord {
    pub advance_width: u16,
    pub lsb: i16,
}

#[derive(Debug, Clone, PartialEq)]
pub struct Hmtx {
    pub h_metrics: Vec<LongHorMetricRecord>,
    /// Left side bearings of the glyphs past the last full metric.
    pub left_side_bearings: Vec<i16>,
}

/// The advance width and left side bearing of a glyph: its own metric if
/// it has one; otherwise the last advance width (0 if there is none) and
/// its entry among the extra bearings (0 if there is none).
pub open spec fn spec_metric_for_glyph(
    h_metrics: Seq<LongHorMetricRecord>,
    lsbs: Seq<i16>,
    glyph_id: int,
) -> (u16, i16) {
    if glyph_id < h_metrics.len() {
        (h_metrics[glyph_id].advance_width, h_metrics[glyph_id].lsb)
    } else {
        let idx = glyph_id - h_metrics.len();
        (
            if h_metrics.len() > 0 { h_metrics.last().advance_width } else { 0 },
            if idx < lsbs.len() { lsbs[idx] } else { 0 },
        )
    }
}

/// The metric record spelled by the four bytes at `i`.
pub open spec fn metric_at(s: Seq<u8>, i: int) -> LongHorMetricRecord {
    LongHorMetricRecord { advance_width: be_u16(s, i), lsb: be_i16(s, i + 2) }
}

/// The glyphs past the last full metric.
pub open spec fn extra_glyphs(num_h_metrics: u16, num_glyphs: u16) -> int {
    if num_glyphs > num_h_metrics {
        num_glyphs - num_h_metrics
    } else {
        0
    }
}

/// The metrics and bearings lie inside the buffer (nothing to read always
/// fits).
pub open spec fn hmtx_fits(s: Seq<u8>, off: int, num_h_metrics: u16, num_glyphs: u16) -> bool {
    let extra = extra_glyphs(num_h_metrics, num_glyphs);
    num_h_metrics + extra > 0 ==> off + 4 * num_h_metrics + 2 * extra <= s.len()
}

/// `h` holds the `num_h_metrics` metrics at `off` and the left side
/// bearings after them, one for each further glyph.
pub open spec fn hmtx_parsed(h: Hmtx, s: Seq<u8>, off: int, num_h_metrics: u16, num_glyphs: u16) -> bool {
    let extra = extra_glyphs(num_h_metrics, num_glyphs);
    &&& h.h_metrics@.len() == num_h_metrics
    &&& h.left_side_bearings@.len() == extra
    &&& forall|i: int|
        0 <= i < num_h_metrics ==> #[trigger] h.h_metrics@[i] == metric_at(s, off + 4 * i)
    &&& forall|j: int|
        0 <= j < extra ==> #[trigger] h.left_side_bearings@[j] == be_i16(
            s,
            off + 4 * num_h_metrics + 2 * j,
        )
}

proof fn lemma_encode_metrics(m: Seq<LongHorMetricRecord>, tail: Seq<u8>)
    ensures
        encode_metrics(m).len() == 4 * m.len(),
        forall|i: int| 0 <= i < m.len() ==> #[trigger] metric_at(encode_metrics(m) + tail, 4 * i) == m[i],
    decreases m.len(),
{
    if m.len() > 0 {
        let p = m.drop_last();
        let last = u16_bytes(m.last().advance_width) + i16_bytes(m.last().lsb);
        lemma_encode_metrics(p, last + tail);
        assert(encode_metrics(m) + tail =~= encode_metrics(p) + (last + tail));
        assert(u16_bytes(m.last().advance_width) + i16_bytes(m.last().lsb) + tail =~= u16_bytes(
            m.last().advance_width,
        ) + (i16_bytes(m.last().lsb) + tail));
        assert forall|i: int| 0 <= i < m.len() implies #[trigger] metric_at(encode_metrics(m) + tail, 4 * i)
            == m[i] by {
            if i < p.len() {
                assert(metric_at(encode_metrics(p) + (last + tail), 4 * i) == p[i]);
            }
        }
    }
}

proof fn lemma_encode_i16s(v: Seq<i16>, tail: Seq<u8>)
    ensures
        encode_i16s(v).len() == 2 * v.len(),
        forall|j: int| 0 <= j < v.len() ==> #[trigger] be_i16(encode_i16s(v) + tail, 2 * j) == v[j],
    decreases v.len(),
{
    if v.len() > 0 {
        let p = v.drop_last();
        let last = i16_bytes(v.last());
        lemma_encode_i16s(p, last + tail);
        assert(encode_i16s(v) + tail =~= encode_i16s(p) + (last + tail));
        assert forall|j: int| 0 <= j < v.len() implies #[trigger] be_i16(encode_i16s(v) + tail, 2 * j)
            == v[j] by {
            if j < p.len() {
                assert(be_i16(encode_i16s(p) + (last + tail), 2 * j) == p[j]);
            }
        }
    }
}

/// Reading back what `write` wrote, with the table's own metric count and
/// as many glyphs as metrics and bearings together, succeeds (`hmtx_fits`,
/// which is when `parse_with_count` returns `Ok`) and gives the same
/// metrics and left side bearings.
pub proof fn lemma_hmtx_round_trip(h: Hmtx)
    requires
        h.h_metrics@.len() + h.left_side_bearings@.len() <= u16::MAX,
    ensures
        hmtx_fits(
            h.encode(),
            0,
            h.h_metrics@.len() as u16,
            (h.h_metrics@.len() + h.left_side_bearings@.len()) as u16,
        ),
        forall|back: Hmtx|
            #[trigger] hmtx_parsed(
                back,
                h.encode(),
                0,
                h.h_metrics@.len() as u16,
                (h.h_metrics@.len() + h.left_side_bearings@.len()) as u16,
            ) ==> back.h_metrics@ == h.h_metrics@ && back.left_side_bearings@
                == h.left_side_bearings@,
{
    let m = encode_metrics(h.h_metrics@);
    let b = encode_i16s(h.left_side_bearings@);
    let nh = h.h_metrics@.len();
    let nhu = nh as u16;
    let ngu = (h.h_metrics@.len() + h.left_side_bearings@.len()) as u16;
    lemma_encode_metrics(h.h_metrics@, b);
    lemma_encode_i16s(h.left_side_bearings@, Seq::empty());
    assert(b + Seq::<u8>::empty() =~= b);
    assert forall|back: Hmtx| #[trigger] hmtx_parsed(back, h.encode(), 0, nhu, ngu) implies back.h_metrics@
        == h.h_metrics@ && back.left_side_bearings@ == h.left_side_bearings@ by {
        assert forall|i: int| 0 <= i < nh implies back.h_metrics@[i] == h.h_metrics@[i] by {
            assert(back.h_metrics@[i] == metric_at(h.encode(), 4 * i));
        }
        assert forall|j: int| 0 <= j < h.left_side_bearings@.len() implies back.left_side_bearings@[j]
            == h.left_side_bearings@[j] by {
            assert(back.left_side_bearings@[j] == be_i16(h.encode(), 4 * nh + 2 * j));
            assert(be_i16(b, 2 * j) == h.left_side_bearings@[j]);
        }
        assert(back.h_metrics@ =~= h.h_metrics@);
        assert(back.left_side_bearings@ =~= h.left_side_bearings@);
    }
}

proof fn lemma_u16_bytes_of_read(s: Seq<u8>, p: int)
    requires
        0 <= p,
        p + 2 <= s.len(),
    ensures
        u16_bytes(be_u16(s, p)) == s.subrange(p, p + 2),
        i16_bytes(be_i16(s, p)) == s.subrange(p, p + 2),
{
    reveal(be_u16);
    let v = be_u16(s, p);
    assert(v == s[p] * 256 + s[p + 1]);
    assert(i16_as_u16(u16_as_i16(v)) == v);
    assert(u16_bytes(v) =~= s.subrange(p, p + 2));
}

proof fn lemma_metrics_written_back(h: Seq<LongHorMetricRecord>, s: Seq<u8>, off: int)
    requires
        0 <= off,
        off + 4 * h.len() <= s.len(),
        forall|i: int| 0 <= i < h.len() ==> #[trigger] h[i] == metric_at(s, off + 4 * i),
    ensures
        encode_metrics(h) == s.subrange(off, off + 4 * h.len()),
    decreases h.len(),
{
    if h.len() > 0 {
        let n = h.len() - 1;
        let p = h.drop_last();
        assert forall|i: int| 0 <= i < p.len() implies #[trigger] p[i] == metric_at(s, off + 4 * i) by {
            assert(p[i] == h[i]);
        }
        lemma_metrics_written_back(p, s, off);
        let at = off + 4 * n;
        assert(h[n] == metric_at(s, at));
        lemma_u16_bytes_of_read(s, at);
        lemma_u16_bytes_of_read(s, at + 2);
        assert(encode_metrics(h) =~= s.subrange(off, at) + s.subrange(at, at + 2) + s.subrange(
            at + 2,
            at + 4,
        ));
        assert(s.subrange(off, at) + s.subrange(at, at + 2) + s.subrange(at + 2, at + 4)
            =~= s.subrange(off, off + 4 * h.len()));
    }
}

proof fn lemma_bearings_written_back(v: Seq<i16>, s: Seq<u8>, off: int)
    requires
        0 <= off,
        off + 2 * v.len() <= s.len(),
        forall|j: int| 0 <= j < v.len() ==> #[trigger] v[j] == be_i16(s, off + 2 * j),
    ensures
        encode_i16s(v) == s.subrange(off, off + 2 * v.len()),
    decreases v.len(),
{
    if v.len() > 0 {
        let n = v.len() - 1;
        let p = v.drop_last();
        assert forall|j: int| 0 <= j < p.len() implies #[trigger] p[j] == be_i16(s, off + 2 * j) by {
            assert(p[j] == v[j]);
        }
        lemma_bearings_written_back(p, s, off);
        let at = off + 2 * n;
        assert(v[n] == be_i16(s, at));
        lemma_u16_bytes_of_read(s, at);
        assert(encode_i16s(v) =~= s.subrange(off, at) + s.subrange(at, at + 2));
        assert(s.subrange(off, at) + s.subrange(at, at + 2) =~= s.subrange(off, off + 2 * v.len()));
    }
}

/// Writing a table that `parse_with_count` read gives back the bytes it
/// read: the metrics and the left side bearings (nothing when there is
/// nothing to read).
pub proof fn lemma_hmtx_written_back(h: Hmtx, s: Seq<u8>, off: int, num_h_metrics: u16, num_glyphs: u16)
    requires
        0 <= off,
        hmtx_fits(s, off, num_h_metrics, num_glyphs),
        hmtx_parsed(h, s, off, num_h_metrics, num_glyphs),
    ensures
        ({
            let need = 4 * num_h_metrics + 2 * extra_glyphs(num_h_metrics, num_glyphs);
            &&& need == 0 ==> h.encode().len() == 0
            &&& need > 0 ==> h.encode() == s.subrange(off, off + need)
        }),
{
    let nh = num_h_metrics as int;
    let extra = extra_glyphs(num_h_metrics, num_glyphs);
    if nh + extra > 0 {
        lemma_metrics_written_back(h.h_metrics@, s, off);
        lemma_bearings_written_back(h.left_side_bearings@, s, off + 4 * nh);
        assert(s.subrange(off, off + 4 * nh) + s.subrange(off + 4 * nh, off + 4 * nh + 2 * extra)
            =~= s.subrange(off, off + 4 * nh + 2 * extra));
    } else {
        lemma_encode_metrics(h.h_metrics@, Seq::empty());
        lemma_encode_i16s(h.left_side_bearings@, Seq::empty());
    }
}

pub open spec fn encode_metrics(m: Seq<LongHorMetricRecord>) -> Seq<u8>
    decreases m.len(),
{
    if m.len() == 0 {
        Seq::empty()
    } else {
        encode_metrics(m.drop_last()) + u16_bytes(m.last().advance_width) + i16_bytes(
            m.last().lsb,
        )
    }
}

pub open spec fn encode_i16s(v: Seq<i16>) -> Seq<u8>
    decreases v.len(),
{
    if v.len() == 0 {
        Seq::empty()
    } else {
        encode_i16s(v.drop_last()) + i16_bytes(v.last())
    }
}

impl Hmtx {
    pub open spec fn encode(self) -> Seq<u8> {
        encode_metrics(self.h_metrics@) + encode_i16s(self.left_side_bearings@)
    }

    pub fn metric_for_glyph(&self, glyph_id: u16) -> (m: (u16, i16))
        ensures
            m == spec_metric_for_glyph(
                self.h_metrics@,
                self.left_side_bearings@,
                glyph_id as int,
            ),
    {
        let n = self.h_metrics.len();
        if (glyph_id as usize) < n {
            let m = &self.h_metrics[glyph_id as usize];
            (m.advance_width, m.lsb)
        } else {
            let idx = glyph_id as usize - n;
            let aw = if n > 0 {
                self.h_metrics[n - 1].advance_width
            } else {
                0
            };
            let lsb = if idx < self.left_side_bearings.len() {
                self.left_side_bearings[idx]
            } else {
                0
            };
            (aw, lsb)
        }
    }

    /// Reads `num_h_metrics` full metrics and then one left side bearing for
    /// each further glyph up to `num_glyphs`.
    pub fn parse_with_count(buf: &[u8], offset: usize, num_h_metrics: u16, num_glyphs: u16) -> (r:
        Result<Self, FontError>)
        ensures
            match r {
                Ok(h) => hmtx_fits(buf@, offset as int, num_h_metrics, num_glyphs) && hmtx_parsed(
                    h,
                    buf@,
                    offset as int,
                    num_h_metrics,
                    num_glyphs,
                ),
                Err(e) => e is OutOfBounds && !hmtx_fits(
                    buf@,
                    offset as int,
                    num_h_metrics,
                    num_glyphs,
                ),
            },
    {
        let mut p = Parser::new(buf, offset);
        let mut h_metrics: Vec<LongHorMetricRecord> = Vec::new();
        let mut k: u16 = 0;
        let extra = num_glyphs.saturating_sub(num_h_metrics);
        while k < num_h_metrics
            invariant
                k <= num_h_metrics,
                p.data() == buf@,
                p.pos() == offset + 4 * k,
                k > 0 ==> p.pos() <= buf@.len(),
                h_metrics@.len() == k,
                forall|i: int|
                    0 <= i < k ==> #[trigger] h_metrics@[i] == metric_at(buf@, offset + 4 * i),
            decreases num_h_metrics - k,
        {
            let advance_width = p.u16()?;
            let lsb = p.i16()?;
            h_metrics.push(LongHorMetricRecord { advance_width, lsb });
            k += 1;
        }
        let mut left_side_bearings: Vec<i16> = Vec::new();
        let mut j: u16 = 0;
        while j < extra
            invariant
                j <= extra,
                extra == (if num_glyphs > num_h_metrics {
                    num_glyphs - num_h_metrics
                } else {
                    0
                }),
                p.data() == buf@,
                p.pos() == offset + 4 * num_h_metrics + 2 * j,
                num_h_metrics + j > 0 ==> p.pos() <= buf@.len(),
                left_side_bearings@.len() == j,
                forall|i: int|
                    0 <= i < j ==> #[trigger] left_side_bearings@[i] == be_i16(
                        buf@,
                        offset + 4 * num_h_metrics + 2 * i,
                    ),
            decreases extra - j,
        {
            let lsb = p.i16()?;
            left_side_bearings.push(lsb);
            j += 1;
        }
        Ok(Hmtx { h_metrics, left_side_bearings })
    }
}

impl Table for Hmtx {
    open spec fn writable(&self) -> bool {
        true
    }

    /// `hmtx`
    fn tag() -> (t: Tag)
        ensures
            t.0@ == seq![0x68u8, 0x6d, 0x74, 0x78],
    {
        Tag([0x68, 0x6d, 0x74, 0x78])
    }

    /// `hmtx` cannot be read without the metric count; this always fails.
    fn parse(_buf: &[u8], _offset: usize) -> (r: Result<Self, FontError>)
        ensures
            r matches Err(e) && e matches FontError::InvalidTable { tag: t, .. } && t.0@ == seq![
                0x68u8,
                0x6d,
                0x74,
                0x78,
            ],
    {
        Err(
            FontError::invalid_table(
                Self::tag(),
                "hmtx requires numberOfHMetrics; use Hmtx::parse_with_count",
            ),
        )
    }

    fn write(&self, w: &mut Writer) -> (r: Result<(), FontError>)
        ensures
            r is Ok,
            final(w)@ == old(w)@ + self.encode(),
    {
        let n = self.h_metrics.len();
        let mut i: usize = 0;
        while i < n
            invariant
                n == self.h_metrics@.len(),
                i <= n,
                w@ == old(w)@ + encode_metrics(self.h_metrics@.subrange(0, i as int)),
            decreases n - i,
        {
            w.write_u16(self.h_metrics[i].advance_width);
            w.write_i16(self.h_metrics[i].lsb);
            proof {
                let sub = self.h_metrics@.subrange(0, i + 1);
                assert(sub.drop_last() =~= self.h_metrics@.subrange(0, i as int));
            }
            i += 1;
            proof {
                assert(w@ =~= old(w)@ + encode_metrics(self.h_metrics@.subrange(0, i as int)));
            }
        }
        let ghost mid = w@;
        proof {
            assert(self.h_metrics@.subrange(0, n as int) =~= self.h_metrics@);
        }
        let m = self.left_side_bearings.len();
        let mut j: usize = 0;
        while j < m
            invariant
                m == self.left_side_bearings@.len(),
                j <= m,
                w@ == mid + encode_i16s(self.left_side_bearings@.subrange(0, j as int)),
            decreases m - j,
        {
            w.write_i16(self.left_side_bearings[j]);
            proof {
                let sub = self.left_side_bearings@.subrange(0, j + 1);
                assert(sub.drop_last() =~= self.left_side_bearings@.subrange(0, j as int));
            }
            j += 1;
            proof {
                assert(w@ =~= mid + encode_i16s(self.left_side_bearings@.subrange(0, j as int)));
            }
        }
        proof {
            assert(self.left_side_bearings@.subrange(0, m as int) =~= self.left_side_bearings@);
            assert(w@ =~= old(w)@ + self.encode());
        }
        Ok(())
    }
}

/// A written `hmtx` holds four bytes per metric and two per bearing.
pub proof fn lemma_hmtx_len(h: Hmtx)
    ensures
        h.encode().len() == 4 * h.h_metrics@.len() + 2 * h.left_side_bearings@.len(),
{
    lemma_encode_metrics(h.h_metrics@, encode_i16s(h.left_side_bearings@));
    lemma_encode_i16s(h.left_side_bearings@, Seq::empty());
}

} // verus!
