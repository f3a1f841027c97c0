//! A written `post` table fits what `parse` reads.
use vstd::prelude::*;
use crate::codec::{be_i32, be_u16, u16_bytes};
use crate::tables::cmap_round::{lemma_placed_concat, lemma_placed_facts, lemma_placed_u16, placed};
use crate::tables::post::{
    name_indices, pascal_strings, post_fits, post_index, post_name_fits, post_str_pos, utf8_of, Post,
    POST_V2,
};

verus! {

broadcast use crate::codec::group_codec;

/// What a written `post` needs to be read back: a version 2.0 table
/// carries its names, no more than the 16-bit indices from 258 can
/// number, each at most 255 bytes long.
pub open spec fn post_round_trips(p: Post) -> bool {
    p.version == POST_V2 ==> (p.names matches Some(names) && names@.len() + 258 <= 0x10000
        && forall|i: int| 0 <= i < names@.len() ==> utf8_of(#[trigger] names@[i]).len() <= 255)
}

/// A prefix of placed bytes is placed.
proof fn lemma_placed_prefix(s: Seq<u8>, pos: int, b: Seq<u8>, m: int)
    requires
        placed(s, pos, b),
        0 <= m <= b.len(),
    ensures
        placed(s, pos, b.subrange(0, m)),
{
    assert(b =~= b.subrange(0, m) + b.subrange(m, b.len() as int));
    lemma_placed_concat(s, pos, b.subrange(0, m), b.subrange(m, b.len() as int));
}

/// The strings of the first `k` names begin the strings of all of them.
proof fn lemma_pascal_prefix(names: Seq<String>, k: int)
    requires
        0 <= k <= names.len(),
    ensures
        pascal_strings(names.subrange(0, k)).len() <= pascal_strings(names).len(),
        pascal_strings(names).subrange(0, pascal_strings(names.subrange(0, k)).len() as int)
            == pascal_strings(names.subrange(0, k)),
    decreases names.len(),
{
    let n = names.len() as int;
    if k == n {
        assert(names.subrange(0, k) =~= names);
        assert(pascal_strings(names).subrange(0, pascal_strings(names).len() as int) =~= pascal_strings(names));
    } else {
        let d = names.drop_last();
        lemma_pascal_prefix(d, k);
        assert(d.subrange(0, k) =~= names.subrange(0, k));
        let last = names.last();
        let w = pascal_strings(d);
        let whole = w + seq![utf8_of(last).len() as u8] + utf8_of(last);
        assert(pascal_strings(names) == whole);
        let m = pascal_strings(names.subrange(0, k)).len() as int;
        assert(whole.subrange(0, m) =~= w.subrange(0, m));
    }
}

/// The strings of `j + 1` names: those of `j` names, then a length byte and
/// the bytes of name `j`.
proof fn lemma_pascal_step(names: Seq<String>, j: int)
    requires
        0 <= j < names.len(),
    ensures
        pascal_strings(names.subrange(0, j + 1)) == pascal_strings(names.subrange(0, j)) + seq![
            utf8_of(names[j]).len() as u8,
        ] + utf8_of(names[j]),
{
    let q = names.subrange(0, j + 1);
    assert(q.drop_last() =~= names.subrange(0, j));
    assert(q.last() == names[j]);
}

/// The name indices that `write` emits read back as 258, 259, ...
proof fn lemma_placed_indices(s: Seq<u8>, pos: int, n: nat)
    requires
        placed(s, pos, name_indices(n)),
        n + 258 <= 0x10000,
    ensures
        name_indices(n).len() == 2 * n,
        forall|j: int| 0 <= j < n ==> #[trigger] be_u16(s, pos + 2 * j) == 258 + j,
    decreases n,
{
    if n > 0 {
        let m = (n - 1) as nat;
        lemma_placed_concat(s, pos, name_indices(m), u16_bytes((258 + m) as u16));
        lemma_placed_indices(s, pos, m);
        lemma_placed_u16(s, pos + name_indices(m).len(), (258 + m) as u16);
        assert forall|j: int| 0 <= j < n implies #[trigger] be_u16(s, pos + 2 * j) == 258 + j by {
            if j < m {
                assert(be_u16(s, pos + 2 * j) == 258 + j);
            }
        }
    }
}

/// Where glyph `j`'s Pascal string starts, when every index before it is
/// 258 or more: after the strings of the names before it.
proof fn lemma_str_pos(s: Seq<u8>, off: int, names: Seq<String>, base: int, j: int)
    requires
        0 <= j <= names.len(),
        base == off + 34 + 2 * be_u16(s, off + 32),
        forall|i: int| 0 <= i < names.len() ==> #[trigger] post_index(s, off, i) >= 258,
        forall|i: int|
            0 <= i < names.len() ==> s[base + #[trigger] pascal_strings(names.subrange(0, i)).len()]
                == utf8_of(names[i]).len(),
    ensures
        post_str_pos(s, off, j) == base + pascal_strings(names.subrange(0, j)).len(),
    decreases j,
{
    if j > 0 {
        lemma_str_pos(s, off, names, base, j - 1);
        lemma_pascal_step(names, j - 1);
        assert(post_index(s, off, j - 1) >= 258);
        assert(s[base + pascal_strings(names.subrange(0, j - 1)).len()] == utf8_of(names[j - 1]).len());
    }
}

/// A `post` table written at `off` fits what `parse` reads there.
#[verifier::spinoff_prover]
#[verifier::rlimit(40)]
pub proof fn lemma_post_fits_at(p: Post, s: Seq<u8>, off: int)
    requires
        post_round_trips(p),
        placed(s, off, p.encode()),
    ensures
        post_fits(s, off),
{
    let h = p.encode_header();
    let bare = Post { names: None, ..p };
    crate::tables::post::lemma_post_header_roundtrip(bare);
    assert(bare.encode() == h);
    crate::tables::post::lemma_post_prefix(p, Seq::empty());
    assert(p.encode() + Seq::<u8>::empty() =~= p.encode());
    lemma_placed_facts(s, off, p.encode());
    assert(p.encode().len() >= 32);
    assert(be_i32(s.subrange(off, off + p.encode().len()), 0) == be_i32(s, off));
    if be_i32(s, off) == POST_V2 {
        let names = p.names->0@;
        let n = names.len();
        let c = u16_bytes(n as u16);
        let ix = name_indices(n);
        let ps = pascal_strings(names);
        assert(p.encode() == h + c + ix + ps);
        lemma_placed_concat(s, off, h + c + ix, ps);
        lemma_placed_concat(s, off, h + c, ix);
        lemma_placed_concat(s, off, h, c);
        lemma_placed_u16(s, off + 32, n as u16);
        lemma_placed_indices(s, off + 34, n);
        let base = off + 34 + 2 * n;
        lemma_placed_facts(s, base, ps);
        assert forall|i: int| 0 <= i < n implies #[trigger] post_index(s, off, i) >= 258 by {
            assert(be_u16(s, off + 34 + 2 * i) == 258 + i);
        }
        assert forall|i: int| 0 <= i < n implies s[base + #[trigger] pascal_strings(names.subrange(0, i)).len()]
            == utf8_of(names[i]).len() && base + pascal_strings(names.subrange(0, i + 1)).len() <= s.len() by {
            lemma_pascal_prefix(names, i + 1);
            lemma_pascal_step(names, i);
            let q = pascal_strings(names.subrange(0, i + 1));
            lemma_placed_prefix(s, base, ps, q.len() as int);
            assert(ps.subrange(0, q.len() as int) == q);
            let pp = pascal_strings(names.subrange(0, i));
            assert(q =~= pp + (seq![utf8_of(names[i]).len() as u8] + utf8_of(names[i])));
            lemma_placed_concat(s, base, pp, seq![utf8_of(names[i]).len() as u8] + utf8_of(names[i]));
            lemma_placed_facts(s, base + pp.len(), seq![utf8_of(names[i]).len() as u8] + utf8_of(names[i]));
            assert(utf8_of(names[i]).len() <= 255);
            assert(s[base + pp.len() + 0] == (seq![utf8_of(names[i]).len() as u8] + utf8_of(names[i]))[0]);
        }
        assert forall|j: int| 0 <= j < be_u16(s, off + 32) implies #[trigger] post_name_fits(s, off, j) by {
            lemma_str_pos(s, off, names, base, j);
            lemma_pascal_step(names, j);
            assert(s[base + pascal_strings(names.subrange(0, j)).len()] == utf8_of(names[j]).len());
        }
    }
}

} // verus!
