//! `post`: PostScript information and glyph names.
use vstd::prelude::*;
use vstd::utf8::encode_utf8;
use crate::codec::{be_i16, be_i32, be_u16, be_u32, i16_bytes, i32_bytes, u16_bytes, u32_bytes};
use crate::error::{FontError, Tag};
use crate::parse::Parser;
use crate::tables::Table;
use crate::text::{decimal, glyph_index_name, utf8_or_empty};
use vstd::utf8::{decode_utf8, valid_utf8};
use crate::write::Writer;

verus! {

broadcast use crate::codec::group_codec;

#[derive(Debug, Clone, PartialEq)]
pub struct Post {
    pub version: i32,
    pub italic_angle: i32,
    pub underline_position: i16,
    pub underline_thickness: i16,
    pub is_fixed_pitch: u32,
    pub min_mem_type42: u32,
    pub max_mem_type42: u32,
    pub min_mem_type1: u32,
    pub max_mem_type1: u32,
    pub names: Option<Vec<String>>,
}

/// Version 2.0 of `post`, the one that lists glyph names.
pub const POST_V2: i32 = 0x00020000;

/// Size of the fixed part of `post`.
pub const POST_HEADER_SIZE: usize = 32;

/// The UTF-8 bytes of a string.
pub open spec fn utf8_of(s: String) -> Seq<u8> {
    encode_utf8(s@)
}

/// The name index array that `write` emits for `n` names: 258, 259, ...
pub open spec fn name_indices(n: nat) -> Seq<u8>
    decreases n,
{
    if n == 0 {
        Seq::empty()
    } else {
        name_indices((n - 1) as nat) + u16_bytes((258 + (n - 1)) as u16)
    }
}

/// The names as Pascal strings: a length byte, then the UTF-8 bytes.
pub open spec fn pascal_strings(names: Seq<String>) -> Seq<u8>
    decreases names.len(),
{
    if names.len() == 0 {
        Seq::empty()
    } else {
        let last = names.last();
        pascal_strings(names.drop_last()) + seq![utf8_of(last).len() as u8] + utf8_of(last)
    }
}

/// The name index of glyph `j` in a version 2.0 table at `off`.
pub open spec fn post_index(s: Seq<u8>, off: int, j: int) -> u16 {
    be_u16(s, off + 34 + 2 * j)
}

/// Where the Pascal string read for glyph `j` starts: after the index
/// array and the strings of the glyphs before it whose index is 258 or
/// more.
pub open spec fn post_str_pos(s: Seq<u8>, off: int, j: int) -> int
    decreases j,
{
    if j <= 0 {
        off + 34 + 2 * be_u16(s, off + 32)
    } else {
        let p = post_str_pos(s, off, j - 1);
        if post_index(s, off, j - 1) < 258 {
            p
        } else {
            p + 1 + s[p]
        }
    }
}

/// The name of glyph `j` lies inside the buffer: a standard name always
/// does; a Pascal string needs its length byte and its bytes.
pub open spec fn post_name_fits(s: Seq<u8>, off: int, j: int) -> bool {
    let p = post_str_pos(s, off, j);
    post_index(s, off, j) < 258 || (p + 1 <= s.len() && p + 1 + s[p] <= s.len())
}

/// The fixed part lies inside the buffer, and for version 2.0 the glyph
/// count, the index array and every name too.
pub open spec fn post_fits(s: Seq<u8>, off: int) -> bool {
    &&& off + 32 <= s.len()
    &&& be_i32(s, off) == POST_V2 ==> {
        &&& off + 34 + 2 * be_u16(s, off + 32) <= s.len()
        &&& forall|j: int| 0 <= j < be_u16(s, off + 32) ==> #[trigger] post_name_fits(s, off, j)
    }
}

/// The name of glyph `j`: `glyph<index>` for an index below 258, else its
/// Pascal string decoded as UTF-8 (empty when the bytes are not UTF-8).
pub open spec fn post_name(s: Seq<u8>, off: int, j: int) -> Seq<char> {
    let i = post_index(s, off, j);
    let p = post_str_pos(s, off, j);
    let bytes = s.subrange(p + 1, p + 1 + s[p]);
    if i < 258 {
        seq!['g', 'l', 'y', 'p', 'h'] + decimal(i as nat)
    } else if valid_utf8(bytes) {
        decode_utf8(bytes)
    } else {
        Seq::empty()
    }
}

impl Post {
    /// The fields of the fixed part equal those spelled by the first bytes
    /// of `s`.
    pub open spec fn header_matches(self, s: Seq<u8>) -> bool {
        &&& self.version == be_i32(s, 0)
        &&& self.italic_angle == be_i32(s, 4)
        &&& self.underline_position == be_i16(s, 8)
        &&& self.underline_thickness == be_i16(s, 10)
        &&& self.is_fixed_pitch == be_u32(s, 12)
        &&& self.min_mem_type42 == be_u32(s, 16)
        &&& self.max_mem_type42 == be_u32(s, 20)
        &&& self.min_mem_type1 == be_u32(s, 24)
        &&& self.max_mem_type1 == be_u32(s, 28)
    }

    pub open spec fn encode_header(self) -> Seq<u8> {
        i32_bytes(self.version) + i32_bytes(self.italic_angle) + i16_bytes(
            self.underline_position,
        ) + i16_bytes(self.underline_thickness) + u32_bytes(self.is_fixed_pitch) + u32_bytes(
            self.min_mem_type42,
        ) + u32_bytes(self.max_mem_type42) + u32_bytes(self.min_mem_type1) + u32_bytes(
            self.max_mem_type1,
        )
    }

    /// The bytes of this table: the fixed part, then, when there are names,
    /// their count, the indices 258, 259, ... and the names as Pascal
    /// strings (counts and lengths truncated to their field widths).
    pub open spec fn encode(self) -> Seq<u8> {
        match self.names {
            None => self.encode_header(),
            Some(names) => self.encode_header() + u16_bytes(names@.len() as u16) + name_indices(
                names@.len(),
            ) + pascal_strings(names@),
        }
    }
}

impl Table for Post {
    open spec fn writable(&self) -> bool {
        true
    }

    /// `post`
    fn tag() -> (t: Tag)
        ensures
            t.0@ == seq![0x70u8, 0x6f, 0x73, 0x74],
    {
        Tag([0x70, 0x6f, 0x73, 0x74])
    }

    /// Reads the fixed part, and for version 2.0 one name per glyph: an
    /// index below 258 names a standard glyph `glyph<index>`, a larger one
    /// takes the next Pascal string.
    fn parse(buf: &[u8], offset: usize) -> (r: Result<Self, FontError>)
        ensures
            match r {
                Ok(p) => {
                    &&& post_fits(buf@, offset as int)
                    &&& offset + POST_HEADER_SIZE <= buf@.len()
                    &&& p.header_matches(buf@.subrange(offset as int, buf@.len() as int))
                    &&& p.names is Some == (p.version == POST_V2)
                    &&& p.names matches Some(names) ==> offset + 34 <= buf@.len()
                        && names@.len() == be_u16(buf@, offset + 32) && forall|j: int|
                        0 <= j < names@.len() ==> (#[trigger] names@[j])@ == post_name(
                            buf@,
                            offset as int,
                            j,
                        )
                },
                Err(e) => !post_fits(buf@, offset as int) && e is OutOfBounds,
            },
    {
        let mut p = Parser::new(buf, offset);
        let version = p.fixed()?;
        let italic_angle = p.fixed()?;
        let underline_position = p.i16()?;
        let underline_thickness = p.i16()?;
        let is_fixed_pitch = p.u32()?;
        let min_mem_type42 = p.u32()?;
        let max_mem_type42 = p.u32()?;
        let min_mem_type1 = p.u32()?;
        let max_mem_type1 = p.u32()?;
        let ghost s = buf@;
        let ghost off = offset as int;
        let mut names: Option<Vec<String>> = None;
        if version == POST_V2 {
            let num_glyphs = p.u16()?;
            let mut name_indices: Vec<u16> = Vec::new();
            let mut k: u16 = 0;
            while k < num_glyphs
                invariant
                    s == buf@,
                    off == offset as int,
                    num_glyphs == be_u16(s, off + 32),
                    be_i32(s, off) == POST_V2,
                    off + 32 <= s.len(),
                    p.pos() == off + 34 + 2 * k,
                    p.pos() <= s.len(),
                    name_indices@.len() == k,
                    forall|i: int| 0 <= i < k ==> #[trigger] name_indices@[i] == post_index(s, off, i),
                    k <= num_glyphs,
                    p.data() == buf@,
                decreases num_glyphs - k,
            {
                let v = p.u16()?;
                name_indices.push(v);
                k += 1;
            }
            let mut strings: Vec<String> = Vec::new();
            let mut j: usize = 0;
            while j < name_indices.len()
                invariant
                    s == buf@,
                    off == offset as int,
                    be_i32(s, off) == POST_V2,
                    num_glyphs == be_u16(s, off + 32),
                    off + 34 + 2 * num_glyphs <= s.len(),
                    p.pos() == post_str_pos(s, off, j as int),
                    forall|i: int|
                        0 <= i < num_glyphs ==> #[trigger] name_indices@[i] == post_index(s, off, i),
                    forall|i: int| 0 <= i < j ==> #[trigger] post_name_fits(s, off, i),
                    forall|i: int| 0 <= i < j ==> (#[trigger] strings@[i])@ == post_name(s, off, i),
                    strings@.len() == j,
                    j <= name_indices@.len(),
                    name_indices@.len() == num_glyphs,
                    p.data() == buf@,
                decreases name_indices@.len() - j,
            {
                let idx = name_indices[j];
                let ghost at = p.pos();
                proof {
                    assert(post_name_fits(s, off, j as int) == (idx < 258 || (at + 1 <= s.len()
                        && at + 1 + s[at] <= s.len())));
                    assert(post_str_pos(s, off, j + 1) == if idx < 258 {
                        at
                    } else {
                        at + 1 + s[at]
                    });
                }
                if idx < 258 {
                    let text = glyph_index_name(idx);
                    strings.push(text);
                } else {
                    let len = p.u8()? as usize;
                    let text = utf8_or_empty(p.slice(len)?);
                    proof {
                        p.lemma_bounds();
                    }
                    p.advance(len);
                    strings.push(text);
                }
                proof {
                    assert(post_name_fits(s, off, j as int));
                }
                j += 1;
            }
            names = Some(strings);
        }
        let post = Post {
            version,
            italic_angle,
            underline_position,
            underline_thickness,
            is_fixed_pitch,
            min_mem_type42,
            max_mem_type42,
            min_mem_type1,
            max_mem_type1,
            names,
        };
        Ok(post)
    }

    fn write(&self, w: &mut Writer) -> (r: Result<(), FontError>)
        ensures
            r is Ok,
            final(w)@ == old(w)@ + self.encode(),
    {
        w.write_fixed(self.version);
        w.write_fixed(self.italic_angle);
        w.write_i16(self.underline_position);
        w.write_i16(self.underline_thickness);
        w.write_u32(self.is_fixed_pitch);
        w.write_u32(self.min_mem_type42);
        w.write_u32(self.max_mem_type42);
        w.write_u32(self.min_mem_type1);
        w.write_u32(self.max_mem_type1);
        let ghost h = w@;
        proof {
            assert(h =~= old(w)@ + self.encode_header());
        }
        match &self.names {
            None => {},
            Some(names) => {
                let n = names.len();
                w.write_u16(n as u16);
                let ghost counted = w@;
                let mut i: usize = 0;
                while i < n
                    invariant
                        n == names@.len(),
                        i <= n,
                        w@ == counted + name_indices(i as nat),
                    decreases n - i,
                {
                    w.write_u16((i as u16).wrapping_add(258));
                    proof {
                        assert((i as u16).wrapping_add(258) == (258 + i) as u16) by (bit_vector);
                    }
                    i += 1;
                    proof {
                        assert(w@ =~= counted + name_indices(i as nat));
                    }
                }
                let ghost indexed = w@;
                let mut j: usize = 0;
                while j < n
                    invariant
                        n == names@.len(),
                        j <= n,
                        w@ == indexed + pascal_strings(names@.subrange(0, j as int)),
                    decreases n - j,
                {
                    let bytes = names[j].as_str().as_bytes();
                    w.write_u8(bytes.len() as u8);
                    w.write_bytes(bytes);
                    proof {
                        let sub = names@.subrange(0, j + 1);
                        assert(sub.drop_last() =~= names@.subrange(0, j as int));
                        assert(sub.last() == names@[j as int]);
                    }
                    j += 1;
                    proof {
                        assert(w@ =~= indexed + pascal_strings(names@.subrange(0, j as int)));
                    }
                }
                proof {
                    assert(names@.subrange(0, n as int) =~= names@);
                }
            },
        }
        proof {
            assert(w@ =~= old(w)@ + self.encode());
        }
        Ok(())
    }
}

/// Reading back a table without glyph names gives the same fixed part and
/// again no names.
pub proof fn lemma_post_header_roundtrip(p: Post)
    requires
        p.names is None,
    ensures
        p.encode().len() == POST_HEADER_SIZE,
        p.header_matches(p.encode()),
{
    let e = p.encode();
    assert(e.len() == 32);
    assert(be_i32(e, 0) == p.version);
    assert(be_i32(e, 4) == p.italic_angle);
    assert(be_i16(e, 8) == p.underline_position);
    assert(be_i16(e, 10) == p.underline_thickness);
    assert(be_u32(e, 12) == p.is_fixed_pitch);
    assert(be_u32(e, 16) == p.min_mem_type42);
    assert(be_u32(e, 20) == p.max_mem_type42);
    assert(be_u32(e, 24) == p.min_mem_type1);
    assert(be_u32(e, 28) == p.max_mem_type1);
}


/// A written `post` reads back with the same fixed part, whatever follows
/// its first 32 bytes.
pub proof fn lemma_post_prefix(p: Post, rest: Seq<u8>)
    ensures
        p.header_matches(p.encode() + rest),
{
    let h = p.encode_header();
    let bare = Post { names: None, ..p };
    lemma_post_header_roundtrip(bare);
    assert(bare.encode() == h);
    let tail = p.encode().subrange(32, p.encode().len() as int);
    assert(p.encode() =~= h + tail);
    let x = p.encode() + rest;
    assert(x =~= h + (tail + rest));
    assert(be_i32(x, 0) == be_i32(h, 0));
    assert(be_i32(x, 4) == be_i32(h, 4));
    assert(be_i16(x, 8) == be_i16(h, 8));
    assert(be_i16(x, 10) == be_i16(h, 10));
    assert(be_u32(x, 12) == be_u32(h, 12));
    assert(be_u32(x, 16) == be_u32(h, 16));
    assert(be_u32(x, 20) == be_u32(h, 20));
    assert(be_u32(x, 24) == be_u32(h, 24));
    assert(be_u32(x, 28) == be_u32(h, 28));
}

} // verus!
