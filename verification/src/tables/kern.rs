//! `kern`: pair kerning (format 0 subtables).
use vstd::prelude::*;
use crate::codec::{be_i16, be_u16, i16_bytes, u16_bytes};
use crate::error::{FontError, Tag};
use crate::math::{ilog2, log2_floor, pow2, pow2_u16, lemma_log2_floor_bounds};
use crate::parse::Parser;
use crate::tables::Table;
use crate::write::Writer;

verus! {

broadcast use crate::codec::group_codec;

#[derive(Debug, Clone, PartialEq)]
pub struct KernSubtable {
    pub version: u16,
    pub length: u16,
    pub coverage: u16,
    pub pairs: Vec<KernPair>,
}

#[derive(Debug, Clone, Copy, PartialEq, Eq, Structural)]
pub struct KernPair {
    pub left: u16,
    pub right: u16,
    pub value: i16,
}

#[derive(Debug, Clone, PartialEq)]
pub struct Kern {
    pub version: u16,
    pub n_tables: u16,
    pub subtables: Vec<KernSubtable>,
}

/// The kerning value of the first pair, in subtable order, that matches.
pub open spec fn pairs_lookup(pairs: Seq<KernPair>, left: u16, right: u16) -> Option<i16>
    decreases pairs.len(),
{
    if pairs.len() == 0 {
        None
    } else if pairs[0].left == left && pairs[0].right == right {
        Some(pairs[0].value)
    } else {
        pairs_lookup(pairs.drop_first(), left, right)
    }
}

pub open spec fn subtables_lookup(subs: Seq<KernSubtable>, left: u16, right: u16) -> Option<i16>
    decreases subs.len(),
{
    if subs.len() == 0 {
        None
    } else {
        match pairs_lookup(subs[0].pairs@, left, right) {
            Some(v) => Some(v),
            None => subtables_lookup(subs.drop_first(), left, right),
        }
    }
}

/// The pair has these left and right glyphs.
pub open spec fn pair_matches(p: KernPair, left: u16, right: u16) -> bool {
    p.left == left && p.right == right
}

proof fn lemma_pairs_lookup(pairs: Seq<KernPair>, left: u16, right: u16)
    ensures
        match pairs_lookup(pairs, left, right) {
            Some(v) => exists|j: int|
                0 <= j < pairs.len() && pair_matches(#[trigger] pairs[j], left, right) && pairs[j].value
                    == v && forall|m: int| 0 <= m < j ==> !pair_matches(#[trigger] pairs[m], left, right),
            None => forall|j: int| 0 <= j < pairs.len() ==> !pair_matches(#[trigger] pairs[j], left, right),
        },
    decreases pairs.len(),
{
    if pairs.len() > 0 {
        let rest = pairs.drop_first();
        lemma_pairs_lookup(rest, left, right);
        if pair_matches(pairs[0], left, right) {
            assert(pair_matches(pairs[0], left, right));
        } else {
            match pairs_lookup(rest, left, right) {
                Some(v) => {
                    let j = choose|j: int|
                        0 <= j < rest.len() && pair_matches(#[trigger] rest[j], left, right)
                            && rest[j].value == v && forall|m: int|
                            0 <= m < j ==> !pair_matches(#[trigger] rest[m], left, right);
                    assert(pairs[j + 1] == rest[j]);
                    assert forall|m: int| 0 <= m < j + 1 implies !pair_matches(
                        #[trigger] pairs[m],
                        left,
                        right,
                    ) by {
                        if m > 0 {
                            assert(pairs[m] == rest[m - 1]);
                        }
                    }
                },
                None => {
                    assert forall|j: int| 0 <= j < pairs.len() implies !pair_matches(
                        #[trigger] pairs[j],
                        left,
                        right,
                    ) by {
                        if j > 0 {
                            assert(pairs[j] == rest[j - 1]);
                        }
                    }
                },
            }
        }
    }
}

/// A lookup finds a value exactly when some pair of some subtable has the
/// two glyphs, and the value it finds is that of the first such pair: in
/// the first subtable that has one, the first such pair of it.
pub proof fn lemma_lookup_first_pair(subs: Seq<KernSubtable>, left: u16, right: u16)
    ensures
        subtables_lookup(subs, left, right) is None <==> forall|i: int, j: int|
            0 <= i < subs.len() && 0 <= j < subs[i].pairs@.len() ==> !pair_matches(
                #[trigger] subs[i].pairs@[j],
                left,
                right,
            ),
        subtables_lookup(subs, left, right) matches Some(v) ==> exists|i: int, j: int|
            0 <= i < subs.len() && 0 <= j < subs[i].pairs@.len() && pair_matches(
                #[trigger] subs[i].pairs@[j],
                left,
                right,
            ) && subs[i].pairs@[j].value == v && (forall|m: int|
                0 <= m < j ==> !pair_matches(#[trigger] subs[i].pairs@[m], left, right)) && (forall|
                h: int,
                m: int,
            | 0 <= h < i && 0 <= m < subs[h].pairs@.len() ==> !pair_matches(
                #[trigger] subs[h].pairs@[m],
                left,
                right,
            )),
    decreases subs.len(),
{
    if subs.len() > 0 {
        let rest = subs.drop_first();
        lemma_lookup_first_pair(rest, left, right);
        lemma_pairs_lookup(subs[0].pairs@, left, right);
        match pairs_lookup(subs[0].pairs@, left, right) {
            Some(v) => {
                let j = choose|j: int|
                    0 <= j < subs[0].pairs@.len() && pair_matches(#[trigger] subs[0].pairs@[j], left, right)
                        && subs[0].pairs@[j].value == v && forall|m: int|
                        0 <= m < j ==> !pair_matches(#[trigger] subs[0].pairs@[m], left, right);
                assert(pair_matches(subs[0].pairs@[j], left, right));
            },
            None => {
                assert forall|h: int| 0 < h < subs.len() implies subs[h] == rest[h - 1] by {}
                match subtables_lookup(rest, left, right) {
                    Some(v) => {
                        let (i, j) = choose|i: int, j: int|
                            0 <= i < rest.len() && 0 <= j < rest[i].pairs@.len() && pair_matches(
                                #[trigger] rest[i].pairs@[j],
                                left,
                                right,
                            ) && rest[i].pairs@[j].value == v && (forall|m: int|
                                0 <= m < j ==> !pair_matches(#[trigger] rest[i].pairs@[m], left, right))
                                && (forall|h: int, m: int|
                                0 <= h < i && 0 <= m < rest[h].pairs@.len() ==> !pair_matches(
                                    #[trigger] rest[h].pairs@[m],
                                    left,
                                    right,
                                ));
                        assert(subs[i + 1] == rest[i]);
                        assert forall|h: int, m: int|
                            0 <= h < i + 1 && 0 <= m < subs[h].pairs@.len() implies !pair_matches(
                            #[trigger] subs[h].pairs@[m],
                            left,
                            right,
                        ) by {
                            if h > 0 {
                                assert(subs[h] == rest[h - 1]);
                            }
                        }
                        assert(pair_matches(subs[i + 1].pairs@[j], left, right));
                    },
                    None => {
                        assert forall|i: int, j: int|
                            0 <= i < subs.len() && 0 <= j < subs[i].pairs@.len() implies !pair_matches(
                            #[trigger] subs[i].pairs@[j],
                            left,
                            right,
                        ) by {
                            if i > 0 {
                                assert(subs[i] == rest[i - 1]);
                            }
                        }
                    },
                }
            },
        }
    }
}

/// The pair spelled by the six bytes at `i`.
pub open spec fn pair_at(s: Seq<u8>, i: int) -> KernPair {
    KernPair { left: be_u16(s, i), right: be_u16(s, i + 2), value: be_i16(s, i + 4) }
}

/// Where subtable `k` starts, relative to the table, given the subtables
/// before it.
pub open spec fn subtable_offset(subs: Seq<KernSubtable>, k: int) -> int
    decreases k,
{
    if k <= 0 {
        4
    } else {
        subtable_offset(subs, k - 1) + 14 + 6 * subs[k - 1].pairs@.len()
    }
}

/// `sub` is the subtable spelled by the bytes at `pos`.
pub open spec fn subtable_matches(sub: KernSubtable, s: Seq<u8>, pos: int) -> bool {
    &&& pos + 14 + 6 * sub.pairs@.len() <= s.len()
    &&& sub.version == be_u16(s, pos)
    &&& sub.length == be_u16(s, pos + 2)
    &&& sub.coverage == be_u16(s, pos + 4)
    &&& sub.pairs@.len() == be_u16(s, pos + 6)
    &&& forall|i: int|
        0 <= i < sub.pairs@.len() ==> #[trigger] sub.pairs@[i] == pair_at(s, pos + 14 + 6 * i)
}

/// Where subtable `k` starts when the subtables before it are read, each
/// header and pairs laid end to end, from the table at `off`.
pub open spec fn kern_sub_pos(s: Seq<u8>, off: int, k: int) -> int
    decreases k,
{
    if k <= 0 {
        off + 4
    } else {
        let p = kern_sub_pos(s, off, k - 1);
        p + 14 + 6 * be_u16(s, p + 6)
    }
}

/// Subtable `k`, header and pairs, lies inside the buffer.
pub open spec fn kern_sub_fits(s: Seq<u8>, off: int, k: int) -> bool {
    kern_sub_pos(s, off, k) + 14 + 6 * be_u16(s, kern_sub_pos(s, off, k) + 6) <= s.len()
}

/// The header and every subtable it counts lie inside the buffer.
pub open spec fn kern_fits(s: Seq<u8>, off: int) -> bool {
    &&& off + 4 <= s.len()
    &&& forall|k: int| 0 <= k < be_u16(s, off + 2) ==> #[trigger] kern_sub_fits(s, off, k)
}

/// What `parse` reads at `off`: the header, then the subtables laid end
/// to end.
pub open spec fn kern_parsed(k: Kern, s: Seq<u8>, off: int) -> bool {
    &&& off + 4 <= s.len()
    &&& k.version == be_u16(s, off)
    &&& k.n_tables == be_u16(s, off + 2)
    &&& k.subtables@.len() == k.n_tables
    &&& forall|i: int|
        0 <= i < k.subtables@.len() ==> subtable_matches(
            #[trigger] k.subtables@[i],
            s,
            off + subtable_offset(k.subtables@, i),
        )
}

pub open spec fn encode_pairs(pairs: Seq<KernPair>) -> Seq<u8>
    decreases pairs.len(),
{
    if pairs.len() == 0 {
        Seq::empty()
    } else {
        let p = pairs.last();
        encode_pairs(pairs.drop_last()) + u16_bytes(p.left) + u16_bytes(p.right) + i16_bytes(
            p.value,
        )
    }
}

/// The subtable header that `write` emits (the length and the search
/// fields are computed from the pair count) followed by the pairs.
pub open spec fn encode_subtable(sub: KernSubtable) -> Seq<u8> {
    let n = sub.pairs@.len();
    let sr = pow2(log2_floor(n));
    u16_bytes(sub.version) + u16_bytes((14 + n * 6) as u16) + u16_bytes(sub.coverage) + u16_bytes(
        n as u16,
    ) + u16_bytes((sr * 6) as u16) + u16_bytes(log2_floor(n) as u16) + u16_bytes(
        (n * 6 - sr * 6) as u16,
    ) + encode_pairs(sub.pairs@)
}

pub open spec fn encode_subtables(subs: Seq<KernSubtable>) -> Seq<u8>
    decreases subs.len(),
{
    if subs.len() == 0 {
        Seq::empty()
    } else {
        encode_subtables(subs.drop_last()) + encode_subtable(subs.last())
    }
}

/// The pair counts that `write` can express: at least one pair, and few
/// enough that six bytes per pair fit the 16-bit fields.
pub open spec fn writable_pair_count(n: nat) -> bool {
    1 <= n <= 10922
}

impl Kern {
    pub open spec fn encode(self) -> Seq<u8> {
        u16_bytes(self.version) + u16_bytes(self.subtables@.len() as u16) + encode_subtables(
            self.subtables@,
        )
    }

    /// The value of the first pair, searching the subtables in order, with
    /// these left and right glyphs.
    pub fn lookup(&self, left: u16, right: u16) -> (r: Option<i16>)
        ensures
            r == subtables_lookup(self.subtables@, left, right),
    {
        let n = self.subtables.len();
        let mut i: usize = 0;
        proof {
            assert(self.subtables@.subrange(0, n as int) =~= self.subtables@);
        }
        while i < n
            invariant
                n == self.subtables@.len(),
                i <= n,
                subtables_lookup(self.subtables@, left, right) == subtables_lookup(
                    self.subtables@.subrange(i as int, n as int),
                    left,
                    right,
                ),
            decreases n - i,
        {
            let found = find_pair(&self.subtables[i].pairs, left, right);
            proof {
                let rest = self.subtables@.subrange(i as int, n as int);
                assert(rest[0] == self.subtables@[i as int]);
                assert(rest.drop_first() =~= self.subtables@.subrange(i + 1, n as int));
            }
            if found.is_some() {
                return found;
            }
            i += 1;
        }
        None
    }
}

fn find_pair(pairs: &Vec<KernPair>, left: u16, right: u16) -> (r: Option<i16>)
    ensures
        r == pairs_lookup(pairs@, left, right),
{
    let m = pairs.len();
    let mut j: usize = 0;
    proof {
        assert(pairs@.subrange(0, m as int) =~= pairs@);
    }
    while j < m
        invariant
            m == pairs@.len(),
            j <= m,
            pairs_lookup(pairs@, left, right) == pairs_lookup(
                pairs@.subrange(j as int, m as int),
                left,
                right,
            ),
        decreases m - j,
    {
        let pair = &pairs[j];
        proof {
            let rest = pairs@.subrange(j as int, m as int);
            assert(rest[0] == pairs@[j as int]);
            assert(rest.drop_first() =~= pairs@.subrange(j + 1, m as int));
        }
        if pair.left == left && pair.right == right {
            return Some(pair.value);
        }
        j += 1;
    }
    None
}

impl Table for Kern {
    /// Every subtable has a pair count that `write` can express.
    open spec fn writable(&self) -> bool {
        forall|i: int|
            0 <= i < self.subtables@.len() ==> writable_pair_count(
                #[trigger] self.subtables@[i].pairs@.len(),
            )
    }
    /// `kern`
    fn tag() -> (t: Tag)
        ensures
            t.0@ == seq![0x6bu8, 0x65, 0x72, 0x6e],
    {
        Tag([0x6b, 0x65, 0x72, 0x6e])
    }

    /// Reads the header and `nTables` format 0 subtables laid end to end;
    /// the search fields of each subtable are skipped.
    fn parse(buf: &[u8], offset: usize) -> (r: Result<Self, FontError>)
        ensures
            match r {
                Ok(k) => kern_fits(buf@, offset as int) && kern_parsed(k, buf@, offset as int),
                Err(e) => !kern_fits(buf@, offset as int) && e is OutOfBounds,
            },
    {
        let ghost s = buf@;
        let ghost off = offset as int;
        let mut p = Parser::new(buf, offset);
        let version = p.u16()?;
        let n_tables = p.u16()?;
        let mut subtables: Vec<KernSubtable> = Vec::new();
        let mut t: u16 = 0;
        while t < n_tables
            invariant
                s == buf@,
                off == offset as int,
                p.pos() == kern_sub_pos(s, off, t as int),
                forall|i: int| 0 <= i < t ==> #[trigger] kern_sub_fits(s, off, i),
                t <= n_tables,
                p.data() == buf@,
                offset + 4 <= buf@.len(),
                version == be_u16(buf@, offset as int),
                n_tables == be_u16(buf@, offset + 2),
                subtables@.len() == t,
                p.pos() == offset + subtable_offset(subtables@, t as int),
                forall|i: int|
                    0 <= i < t ==> subtable_matches(
                        #[trigger] subtables@[i],
                        buf@,
                        offset + subtable_offset(subtables@, i),
                    ),
            decreases n_tables - t,
        {
            let ghost start = p.pos();
            proof {
                assert(kern_sub_fits(s, off, t as int) == (start + 14 + 6 * be_u16(s, start + 6)
                    <= s.len()));
            }
            let sub_version = p.u16()?;
            let length = p.u16()?;
            let coverage = p.u16()?;
            let n_pairs = p.u16()?;
            let _search_range = p.u16()?;
            let _entry_selector = p.u16()?;
            let _range_shift = p.u16()?;
            let mut pairs: Vec<KernPair> = Vec::new();
            let mut q: u16 = 0;
            while q < n_pairs
                invariant
                    s == buf@,
                    off == offset as int,
                    t < n_tables,
                    n_tables == be_u16(buf@, offset + 2),
                    n_pairs == be_u16(s, start + 6),
                    kern_sub_fits(s, off, t as int) == (start + 14 + 6 * n_pairs <= s.len()),
                    q <= n_pairs,
                    p.data() == buf@,
                    p.pos() == start + 14 + 6 * q,
                    p.pos() <= buf@.len(),
                    pairs@.len() == q,
                    forall|i: int|
                        0 <= i < q ==> #[trigger] pairs@[i] == pair_at(buf@, start + 14 + 6 * i),
                decreases n_pairs - q,
            {
                let left = p.u16()?;
                let right = p.u16()?;
                let value = p.i16()?;
                pairs.push(KernPair { left, right, value });
                q += 1;
            }
            proof {
                assert(kern_sub_fits(s, off, t as int));
                assert(kern_sub_pos(s, off, t + 1) == p.pos());
            }
            let sub = KernSubtable { version: sub_version, length, coverage, pairs };
            let ghost before = subtables@;
            subtables.push(sub);
            proof {
                assert(subtables@.subrange(0, t as int) =~= before);
                assert forall|i: int| 0 <= i <= t implies subtable_offset(subtables@, i)
                    == subtable_offset(before, i) || i == t + 1 by {
                    lemma_subtable_offset_prefix(before, subtables@, i);
                }
                lemma_subtable_offset_prefix(before, subtables@, t as int);
                assert forall|i: int| 0 <= i < t + 1 implies subtable_matches(
                    #[trigger] subtables@[i],
                    buf@,
                    offset + subtable_offset(subtables@, i),
                ) by {
                    lemma_subtable_offset_prefix(before, subtables@, i);
                }
            }
            t += 1;
        }
        Ok(Kern { version, n_tables, subtables })
    }

    /// Writes the header with the actual subtable count, then each
    /// subtable with its length and search fields computed from its pair
    /// count.
    fn write(&self, w: &mut Writer) -> (r: Result<(), FontError>)
        ensures
            r is Ok,
            final(w)@ == old(w)@ + self.encode(),
    {
        w.write_u16(self.version);
        w.write_u16(self.subtables.len() as u16);
        let ghost head = w@;
        let n = self.subtables.len();
        let mut i: usize = 0;
        while i < n
            invariant
                n == self.subtables@.len(),
                i <= n,
                forall|k: int|
                    0 <= k < self.subtables@.len() ==> writable_pair_count(
                        #[trigger] self.subtables@[k].pairs@.len(),
                    ),
                w@ == head + encode_subtables(self.subtables@.subrange(0, i as int)),
            decreases n - i,
        {
            let sub = &self.subtables[i];
            let ghost before = w@;
            write_subtable(sub, w);
            proof {
                let s = self.subtables@.subrange(0, i + 1);
                assert(s.drop_last() =~= self.subtables@.subrange(0, i as int));
            }
            i += 1;
            proof {
                assert(w@ =~= head + encode_subtables(self.subtables@.subrange(0, i as int)));
            }
        }
        proof {
            assert(self.subtables@.subrange(0, n as int) =~= self.subtables@);
            assert(w@ =~= old(w)@ + self.encode());
        }
        Ok(())
    }
}

proof fn lemma_subtable_offset_prefix(a: Seq<KernSubtable>, b: Seq<KernSubtable>, k: int)
    requires
        0 <= k <= a.len(),
        a.len() <= b.len(),
        forall|j: int| 0 <= j < a.len() ==> a[j] == b[j],
    ensures
        subtable_offset(a, k) == subtable_offset(b, k),
    decreases k,
{
    if k > 0 {
        lemma_subtable_offset_prefix(a, b, k - 1);
    }
}

fn write_subtable(sub: &KernSubtable, w: &mut Writer)
    requires
        writable_pair_count(sub.pairs@.len()),
    ensures
        final(w)@ == old(w)@ + encode_subtable(*sub),
{
    let n = sub.pairs.len();
    w.write_u16(sub.version);
    let length = 14 + n * 6;
    w.write_u16(length as u16);
    w.write_u16(sub.coverage);
    w.write_u16(n as u16);
    let e = ilog2(n as u32);
    proof {
        lemma_log2_floor_bounds(n as nat);
    }
    let search_range: u16 = pow2_u16(e);
    w.write_u16(search_range * 6);
    w.write_u16(e as u16);
    let range_shift = n as u16 * 6 - search_range * 6;
    w.write_u16(range_shift);
    let ghost hdr = w@;
    let mut j: usize = 0;
    while j < n
        invariant
            n == sub.pairs@.len(),
            j <= n,
            w@ == hdr + encode_pairs(sub.pairs@.subrange(0, j as int)),
        decreases n - j,
    {
        let pair = &sub.pairs[j];
        w.write_u16(pair.left);
        w.write_u16(pair.right);
        w.write_i16(pair.value);
        proof {
            let s = sub.pairs@.subrange(0, j + 1);
            assert(s.drop_last() =~= sub.pairs@.subrange(0, j as int));
        }
        j += 1;
        proof {
            assert(w@ =~= hdr + encode_pairs(sub.pairs@.subrange(0, j as int)));
        }
    }
    proof {
        assert(sub.pairs@.subrange(0, n as int) =~= sub.pairs@);
        assert(w@ =~= old(w)@ + encode_subtable(*sub));
    }
}


proof fn lemma_encode_pairs(pairs: Seq<KernPair>, tail: Seq<u8>)
    ensures
        encode_pairs(pairs).len() == 6 * pairs.len(),
        forall|j: int|
            0 <= j < pairs.len() ==> #[trigger] pair_at(encode_pairs(pairs) + tail, 6 * j) == pairs[j],
    decreases pairs.len(),
{
    if pairs.len() > 0 {
        let p = pairs.drop_last();
        let l = pairs.last();
        let last = u16_bytes(l.left) + u16_bytes(l.right) + i16_bytes(l.value);
        lemma_encode_pairs(p, last + tail);
        assert(encode_pairs(pairs) + tail =~= encode_pairs(p) + (last + tail));
        assert(last + tail =~= u16_bytes(l.left) + (u16_bytes(l.right) + (i16_bytes(l.value) + tail)));
        assert forall|j: int| 0 <= j < pairs.len() implies #[trigger] pair_at(encode_pairs(pairs) + tail, 6 * j)
            == pairs[j] by {
            if j < p.len() {
                assert(pair_at(encode_pairs(p) + (last + tail), 6 * j) == p[j]);
            }
        }
    }
}

/// The bytes of one written subtable, with whatever follows it.
#[verifier::opaque]
pub open spec fn subtable_written(sub: KernSubtable, s: Seq<u8>, pos: int) -> bool {
    let n = sub.pairs@.len();
    &&& pos + 14 + 6 * n <= s.len()
    &&& be_u16(s, pos) == sub.version
    &&& be_u16(s, pos + 2) == (14 + 6 * n) as u16
    &&& be_u16(s, pos + 4) == sub.coverage
    &&& be_u16(s, pos + 6) == n as u16
    &&& forall|j: int| 0 <= j < n ==> #[trigger] pair_at(s, pos + 14 + 6 * j) == sub.pairs@[j]
}

proof fn lemma_encode_subtable(sub: KernSubtable, tail: Seq<u8>)
    ensures
        encode_subtable(sub).len() == 14 + 6 * sub.pairs@.len(),
        subtable_written(sub, encode_subtable(sub) + tail, 0),
{
    reveal(subtable_written);
    reveal(subtable_written);
    let n = sub.pairs@.len();
    let sr = pow2(log2_floor(n));
    let head = u16_bytes(sub.version) + u16_bytes((14 + n * 6) as u16) + u16_bytes(sub.coverage)
        + u16_bytes(n as u16) + u16_bytes((sr * 6) as u16) + u16_bytes(log2_floor(n) as u16)
        + u16_bytes((n * 6 - sr * 6) as u16);
    lemma_encode_pairs(sub.pairs@, tail);
    let e = encode_subtable(sub) + tail;
    assert(e =~= head + (encode_pairs(sub.pairs@) + tail));
    assert(head.len() == 14);
    assert(be_u16(e, 0) == sub.version) by {
        assert(head.subrange(0, 2) =~= u16_bytes(sub.version));
        assert(e.subrange(0, 2) =~= u16_bytes(sub.version));
        crate::codec::lemma_be_u16_subrange(e, 0, 2, 0);
    }
    assert(be_u16(e, 2) == (14 + n * 6) as u16) by {
        assert(e.subrange(2, 4) =~= u16_bytes((14 + n * 6) as u16));
        crate::codec::lemma_be_u16_subrange(e, 2, 4, 0);
    }
    assert(be_u16(e, 4) == sub.coverage) by {
        assert(e.subrange(4, 6) =~= u16_bytes(sub.coverage));
        crate::codec::lemma_be_u16_subrange(e, 4, 6, 0);
    }
    assert(be_u16(e, 6) == n as u16) by {
        assert(e.subrange(6, 8) =~= u16_bytes(n as u16));
        crate::codec::lemma_be_u16_subrange(e, 6, 8, 0);
    }
    assert forall|j: int| 0 <= j < n implies #[trigger] pair_at(e, 14 + 6 * j) == sub.pairs@[j] by {
        assert(pair_at(encode_pairs(sub.pairs@) + tail, 6 * j) == sub.pairs@[j]);
        assert(pair_at(e, 14 + 6 * j) == pair_at(encode_pairs(sub.pairs@) + tail, 6 * j));
    }
}

/// A written subtable stays where it is, moved by what is put before it.
proof fn lemma_written_shift(sub: KernSubtable, a: Seq<u8>, b: Seq<u8>, pos: int)
    requires
        pos >= 0,
        subtable_written(sub, b, pos),
    ensures
        subtable_written(sub, a + b, a.len() + pos),
{
    reveal(subtable_written);
    let n = sub.pairs@.len();
    assert forall|j: int| 0 <= j < n implies #[trigger] pair_at(a + b, a.len() + pos + 14 + 6 * j)
        == sub.pairs@[j] by {
        assert(pair_at(b, pos + 14 + 6 * j) == sub.pairs@[j]);
    }
}

#[verifier::spinoff_prover]
proof fn lemma_encode_subtables(subs: Seq<KernSubtable>, tail: Seq<u8>)
    ensures
        encode_subtables(subs).len() == subtable_offset(subs, subs.len() as int) - 4,
        forall|i: int|
            0 <= i < subs.len() ==> subtable_written(
                #[trigger] subs[i],
                encode_subtables(subs) + tail,
                subtable_offset(subs, i) - 4,
            ),
    decreases subs.len(),
{
    if subs.len() > 0 {
        let p = subs.drop_last();
        let last = encode_subtable(subs.last());
        lemma_encode_subtables(p, last + tail);
        lemma_encode_subtable(subs.last(), tail);
        let a = encode_subtables(p);
        let e = encode_subtables(subs) + tail;
        assert(e =~= a + (last + tail));
        assert forall|i: int| 0 <= i < subs.len() implies subtable_written(
            #[trigger] subs[i],
            e,
            subtable_offset(subs, i) - 4,
        ) by {
            lemma_subtable_offset_prefix(p, subs, i);
            if i < p.len() {
                assert(subs[i] == p[i]);
                assert(subtable_written(p[i], a + (last + tail), subtable_offset(p, i) - 4));
            } else {
                lemma_written_shift(subs.last(), a, last + tail, 0);
            }
        }
        lemma_subtable_offset_prefix(p, subs, p.len() as int);
    }
}

/// Where subtable `i` of the bytes starts equals where it starts in the
/// written list, when each subtable's pair count is read back.
proof fn lemma_sub_pos_written(k: Kern, i: int)
    requires
        0 <= i <= k.subtables@.len(),
        forall|j: int|
            0 <= j < k.subtables@.len() ==> subtable_written(
                #[trigger] k.subtables@[j],
                k.encode(),
                subtable_offset(k.subtables@, j),
            ),
        forall|j: int| 0 <= j < k.subtables@.len() ==> (#[trigger] k.subtables@[j]).pairs@.len() <= 10922,
    ensures
        kern_sub_pos(k.encode(), 0, i) == subtable_offset(k.subtables@, i),
    decreases i,
{
    if i > 0 {
        lemma_sub_pos_written(k, i - 1);
        assert(subtable_written(k.subtables@[i - 1], k.encode(), subtable_offset(k.subtables@, i - 1)));
        reveal(subtable_written);
    }
}

/// The subtable offsets of two lists agree up to `i` when their pair
/// counts do.
proof fn lemma_same_offsets(a: Seq<KernSubtable>, b: Seq<KernSubtable>, i: int)
    requires
        0 <= i <= a.len(),
        a.len() == b.len(),
        forall|j: int| 0 <= j < a.len() ==> (#[trigger] a[j]).pairs@.len() == b[j].pairs@.len(),
    ensures
        subtable_offset(a, i) == subtable_offset(b, i),
    decreases i,
{
    if i > 0 {
        lemma_same_offsets(a, b, i - 1);
        assert(a[i - 1].pairs@.len() == b[i - 1].pairs@.len());
    }
}

/// A list read from written bytes has the written pair counts, subtable
/// by subtable, up to `j`.
proof fn lemma_same_offsets_upto(a: Seq<KernSubtable>, b: Seq<KernSubtable>, e: Seq<u8>, j: int)
    requires
        0 <= j < b.len(),
        a.len() == b.len(),
        forall|i: int| 0 <= i < a.len() ==> subtable_matches(#[trigger] a[i], e, subtable_offset(a, i)),
        forall|i: int|
            0 <= i < b.len() ==> subtable_written(#[trigger] b[i], e, subtable_offset(b, i)),
        forall|i: int| 0 <= i < b.len() ==> (#[trigger] b[i]).pairs@.len() <= 10922,
    ensures
        a[j].pairs@.len() == b[j].pairs@.len(),
        subtable_offset(a, j) == subtable_offset(b, j),
    decreases j,
{
    if j > 0 {
        lemma_same_offsets_upto(a, b, e, j - 1);
    }
    assert(subtable_matches(a[j], e, subtable_offset(a, j)));
    assert(subtable_written(b[j], e, subtable_offset(b, j)));
    reveal(subtable_written);
}

/// The written table holds its version and count at the start and each
/// subtable at its offset.
#[verifier::spinoff_prover]
proof fn lemma_kern_written(k: Kern)
    ensures
        be_u16(k.encode(), 0) == k.version,
        be_u16(k.encode(), 2) == k.subtables@.len() as u16,
        k.encode().len() >= 4,
        forall|j: int|
            0 <= j < k.subtables@.len() ==> subtable_written(
                #[trigger] k.subtables@[j],
                k.encode(),
                subtable_offset(k.subtables@, j),
            ),
{
    let subs = k.subtables@;
    let e = k.encode();
    let hdr = u16_bytes(k.version) + u16_bytes(subs.len() as u16);
    lemma_encode_subtables(subs, Seq::empty());
    let body = encode_subtables(subs);
    assert(body + Seq::<u8>::empty() =~= body);
    assert(e =~= hdr + body);
    assert(be_u16(e, 0) == k.version) by {
        assert(e.subrange(0, 2) =~= u16_bytes(k.version));
        crate::codec::lemma_be_u16_subrange(e, 0, 2, 0);
    }
    assert(be_u16(e, 2) == subs.len() as u16) by {
        assert(e.subrange(2, 4) =~= u16_bytes(subs.len() as u16));
        crate::codec::lemma_be_u16_subrange(e, 2, 4, 0);
    }
    assert forall|j: int| 0 <= j < subs.len() implies subtable_written(
        #[trigger] subs[j],
        e,
        subtable_offset(subs, j),
    ) by {
        assert(subtable_written(subs[j], body + Seq::<u8>::empty(), subtable_offset(subs, j) - 4));
        lemma_subtable_offset_at_least(subs, j);
        lemma_written_shift(subs[j], hdr, body, subtable_offset(subs, j) - 4);
    }
}

/// `back` holds what `k` was written with: its version, its subtable
/// count, and for each subtable its version, its coverage and its pairs,
/// with the length field that `write` computes.
pub open spec fn kern_read_back(back: Kern, k: Kern) -> bool {
    &&& back.version == k.version
    &&& back.n_tables == k.subtables@.len()
    &&& back.subtables@.len() == k.subtables@.len()
    &&& forall|i: int|
        0 <= i < k.subtables@.len() ==> {
            let b = #[trigger] back.subtables@[i];
            let o = k.subtables@[i];
            &&& b.version == o.version
            &&& b.coverage == o.coverage
            &&& b.pairs@ == o.pairs@
            &&& b.length == (14 + 6 * o.pairs@.len()) as u16
        }
}

/// Reading back a table that `write` wrote succeeds (`parse` returns `Ok`
/// exactly when `kern_fits` holds), and whatever it reads holds what the
/// table was written with; each subtable's length field is its size, 14
/// bytes and six per pair, truncated to 16 bits.
pub proof fn lemma_kern_round_trip(k: Kern)
    requires
        k.subtables@.len() <= u16::MAX,
        k.writable(),
    ensures
        kern_fits(k.encode(), 0),
        forall|back: Kern| #[trigger] kern_parsed(back, k.encode(), 0) ==> kern_read_back(back, k),
{
    let subs = k.subtables@;
    let e = k.encode();
    lemma_kern_written(k);
    assert forall|j: int| 0 <= j < subs.len() implies (#[trigger] subs[j]).pairs@.len() <= 10922 by {
        assert(writable_pair_count(subs[j].pairs@.len()));
    }
    assert forall|j: int| 0 <= j < subs.len() implies #[trigger] kern_sub_fits(e, 0, j) by {
        lemma_sub_pos_written(k, j);
        assert(subtable_written(subs[j], e, subtable_offset(subs, j)));
        reveal(subtable_written);
    }
    assert forall|back: Kern| #[trigger] kern_parsed(back, e, 0) implies kern_read_back(back, k) by {
        assert forall|i: int| 0 <= i < subs.len() implies {
            let b = #[trigger] back.subtables@[i];
            let o = subs[i];
            &&& b.version == o.version
            &&& b.coverage == o.coverage
            &&& b.pairs@ == o.pairs@
            &&& b.length == (14 + 6 * o.pairs@.len()) as u16
        } by {
            lemma_same_offsets_upto(back.subtables@, subs, e, i);
            lemma_subtable_read_back(back.subtables@[i], subs[i], e, subtable_offset(subs, i));
        }
    }
}

proof fn lemma_subtable_read_back(b: KernSubtable, o: KernSubtable, e: Seq<u8>, pos: int)
    requires
        subtable_matches(b, e, pos),
        subtable_written(o, e, pos),
        o.pairs@.len() <= 10922,
    ensures
        b.version == o.version,
        b.coverage == o.coverage,
        b.pairs@ == o.pairs@,
        b.length == (14 + 6 * o.pairs@.len()) as u16,
{
    reveal(subtable_written);
    assert(b.pairs@ =~= o.pairs@);
}

proof fn lemma_subtable_offset_at_least(subs: Seq<KernSubtable>, j: int)
    ensures
        subtable_offset(subs, j) >= 4,
    decreases j,
{
    if j > 0 {
        lemma_subtable_offset_at_least(subs, j - 1);
    }
}

/// The size and pair count a written subtable holds.
proof fn lemma_written_count(sub: KernSubtable, e: Seq<u8>, pos: int)
    requires
        subtable_written(sub, e, pos),
    ensures
        pos + 14 + 6 * sub.pairs@.len() <= e.len(),
        be_u16(e, pos + 6) == sub.pairs@.len() as u16,
{
    reveal(subtable_written);
}

/// Where subtable `i` of a table written at `off` starts, as `parse`
/// reckons it from the pair counts it reads.
#[verifier::spinoff_prover]
proof fn lemma_sub_pos_at(subs: Seq<KernSubtable>, e: Seq<u8>, s: Seq<u8>, off: int, i: int)
    requires
        0 <= i <= subs.len(),
        0 <= off,
        off + e.len() <= s.len(),
        s.subrange(off, off + e.len()) == e,
        forall|j: int|
            0 <= j < subs.len() ==> subtable_written(#[trigger] subs[j], e, subtable_offset(subs, j)),
        forall|j: int| 0 <= j < subs.len() ==> (#[trigger] subs[j]).pairs@.len() <= 10922,
    ensures
        kern_sub_pos(s, off, i) == off + subtable_offset(subs, i),
    decreases i,
{
    if i > 0 {
        lemma_sub_pos_at(subs, e, s, off, i - 1);
        let pos = subtable_offset(subs, i - 1);
        assert(subtable_written(subs[i - 1], e, pos));
        lemma_written_count(subs[i - 1], e, pos);
        lemma_subtable_offset_at_least(subs, i - 1);
        assert(be_u16(s.subrange(off, off + e.len()), pos + 6) == be_u16(s, off + pos + 6));
    }
}

/// A table that `write` wrote, standing anywhere in a buffer, fits what
/// `parse` reads there.
pub proof fn lemma_kern_fits_at(k: Kern, s: Seq<u8>, off: int)
    requires
        k.subtables@.len() <= u16::MAX,
        k.writable(),
        0 <= off,
        off + k.encode().len() <= s.len(),
        s.subrange(off, off + k.encode().len()) == k.encode(),
    ensures
        kern_fits(s, off),
{
    let subs = k.subtables@;
    let e = k.encode();
    lemma_kern_written(k);
    assert forall|j: int| 0 <= j < subs.len() implies (#[trigger] subs[j]).pairs@.len() <= 10922 by {
        assert(writable_pair_count(subs[j].pairs@.len()));
    }
    assert(be_u16(s.subrange(off, off + e.len()), 2) == be_u16(s, off + 2));
    assert forall|j: int| 0 <= j < be_u16(s, off + 2) implies #[trigger] kern_sub_fits(s, off, j) by {
        lemma_sub_pos_at(subs, e, s, off, j);
        let pos = subtable_offset(subs, j);
        assert(subtable_written(subs[j], e, pos));
        lemma_written_count(subs[j], e, pos);
        lemma_subtable_offset_at_least(subs, j);
        assert(be_u16(s.subrange(off, off + e.len()), pos + 6) == be_u16(s, off + pos + 6));
    }
}

} // verus!
