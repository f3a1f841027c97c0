//! `loca`: where each glyph starts in `glyf`.
use vstd::prelude::*;
use crate::codec::{u16_bytes, u32_bytes};
use crate::error::{FontError, Tag};
use crate::tables::Table;
use crate::write::Writer;

verus! {

#[derive(Debug, Clone, PartialEq)]
pub struct LocaTable {
    pub offsets: Vec<u32>,
    /// 0 for short offsets (stored halved), 1 for long offsets.
    pub format: u16,
}

/// Sum of the first `n` sizes.
pub open spec fn prefix_sum(sizes: Seq<usize>, n: int) -> int
    decreases n,
{
    if n <= 0 {
        0
    } else {
        prefix_sum(sizes, n - 1) + sizes[n - 1]
    }
}

pub proof fn lemma_prefix_sum_monotone(sizes: Seq<usize>, a: int, b: int)
    requires
        0 <= a <= b <= sizes.len(),
    ensures
        prefix_sum(sizes, a) <= prefix_sum(sizes, b),
    decreases b - a,
{
    if a < b {
        lemma_prefix_sum_monotone(sizes, a, b - 1);
    }
}

/// The bytes of a list of offsets in the given format.
pub open spec fn encode_offsets(offsets: Seq<u32>, format: u16) -> Seq<u8>
    decreases offsets.len(),
{
    if offsets.len() == 0 {
        Seq::empty()
    } else {
        let last = offsets.last();
        encode_offsets(offsets.drop_last(), format) + if format == 0 {
            u16_bytes((last / 2) as u16)
        } else {
            u32_bytes(last)
        }
    }
}

impl LocaTable {
    /// Offsets for glyphs of the given sizes laid end to end: the first is
    /// 0 and each next one adds a size. The long format is always used, so
    /// that odd sizes are not truncated.
    pub fn from_glyph_sizes(sizes: &[usize], _long_format: bool) -> (l: Self)
        requires
            prefix_sum(sizes@, sizes@.len() as int) <= u32::MAX,
        ensures
            l.format == 1,
            l.offsets@.len() == sizes@.len() + 1,
            forall|i: int| 0 <= i <= sizes@.len() ==> l.offsets@[i] == prefix_sum(sizes@, i),
    {
        let n = sizes.len();
        let mut offsets: Vec<u32> = Vec::new();
        let mut current: u32 = 0;
        offsets.push(current);
        let mut k: usize = 0;
        while k < n
            invariant
                n == sizes@.len(),
                k <= n,
                prefix_sum(sizes@, n as int) <= u32::MAX,
                current == prefix_sum(sizes@, k as int),
                offsets@.len() == k + 1,
                forall|i: int| 0 <= i <= k ==> offsets@[i] == prefix_sum(sizes@, i),
            decreases n - k,
        {
            proof {
                lemma_prefix_sum_monotone(sizes@, k + 1, n as int);
            }
            current += sizes[k] as u32;
            offsets.push(current);
            k += 1;
        }
        LocaTable { offsets, format: 1 }
    }
}

impl Table for LocaTable {
    open spec fn writable(&self) -> bool {
        true
    }

    /// `loca`
    fn tag() -> (t: Tag)
        ensures
            t.0@ == seq![0x6cu8, 0x6f, 0x63, 0x61],
    {
        Tag([0x6c, 0x6f, 0x63, 0x61])
    }

    /// `loca` cannot be read without the glyph count and offset format; this
    /// always fails.
    fn parse(_buf: &[u8], _offset: usize) -> (r: Result<Self, FontError>)
        ensures
            r matches Err(e) && e matches FontError::InvalidTable { tag: t, .. } && t.0@ == seq![
                0x6cu8,
                0x6f,
                0x63,
                0x61,
            ],
    {
        Err(
            FontError::invalid_table(
                Self::tag(),
                "loca requires numGlyphs and indexToLocFormat; use parse_with_info",
            ),
        )
    }

    /// Writes each offset, halved into 16 bits for format 0, as 32 bits
    /// otherwise.
    fn write(&self, w: &mut Writer) -> (r: Result<(), FontError>)
        ensures
            r is Ok,
            final(w)@ == old(w)@ + encode_offsets(self.offsets@, self.format),
    {
        let n = self.offsets.len();
        let mut i: usize = 0;
        while i < n
            invariant
                n == self.offsets@.len(),
                i <= n,
                w@ == old(w)@ + encode_offsets(self.offsets@.subrange(0, i as int), self.format),
            decreases n - i,
        {
            let off = self.offsets[i];
            if self.format == 0 {
                w.write_u16((off / 2) as u16);
            } else {
                w.write_u32(off);
            }
            proof {
                let sub = self.offsets@.subrange(0, i + 1);
                assert(sub.drop_last() =~= self.offsets@.subrange(0, i as int));
            }
            i += 1;
            proof {
                assert(w@ =~= old(w)@ + encode_offsets(
                    self.offsets@.subrange(0, i as int),
                    self.format,
                ));
            }
        }
        proof {
            assert(self.offsets@.subrange(0, n as int) =~= self.offsets@);
        }
        Ok(())
    }
}

} // verus!
