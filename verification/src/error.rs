//! The error type shared by all readers and writers, and the four-byte
//! table tag.
use vstd::prelude::*;

verus! {

/// A four-byte OpenType tag such as `head` or `OS/2`.
#[derive(Debug, Clone, Copy, Eq, PartialOrd, Ord, Hash)]
pub struct Tag(pub [u8; 4]);

impl PartialEq for Tag {
    fn eq(&self, other: &Tag) -> (r: bool) {
        let r = self.0[0] == other.0[0] && self.0[1] == other.0[1] && self.0[2] == other.0[2]
            && self.0[3] == other.0[3];
        proof {
            if r {
                assert(self.0@ =~= other.0@);
            }
        }
        r
    }
}

impl vstd::std_specs::cmp::PartialEqSpecImpl for Tag {
    open spec fn obeys_eq_spec() -> bool {
        true
    }

    open spec fn eq_spec(&self, other: &Tag) -> bool {
        self.0@ == other.0@
    }
}

impl Tag {
    pub fn new(s: &[u8; 4]) -> (t: Tag)
        ensures
            t.0@ == s@,
    {
        Tag([s[0], s[1], s[2], s[3]])
    }
}

/// The standard library's I/O error, carried by [`FontError::Io`].
#[verifier::external_type_specification]
#[verifier::external_body]
pub struct ExIoError(std::io::Error);

/// Everything that can go wrong while reading or writing a font.
#[derive(Debug)]
pub enum FontError {
    Io(std::io::Error),
    InvalidTable { tag: Tag, reason: String },
    MissingTable(Tag),
    UnsupportedCmapFormat(u16),
    ChecksumMismatch(Tag),
    OutOfBounds { offset: usize, length: usize, buf_len: usize },
}

impl FontError {
    pub fn invalid_table(tag: Tag, reason: &str) -> (e: FontError)
        ensures
            e matches FontError::InvalidTable { tag: t, reason: r } && t == tag && r@ == reason@,
    {
        FontError::InvalidTable { tag, reason: reason.to_owned() }
    }
}

} // verus!
