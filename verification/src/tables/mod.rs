//! The individual sfnt tables.
use vstd::prelude::*;
use crate::error::{FontError, Tag};
use crate::write::Writer;

pub mod head;
pub mod hhea;
pub mod maxp;
pub mod os2;
pub mod post;
pub mod post_round;
pub mod name;
pub mod name_round;
pub mod loca;
pub mod hmtx;
pub mod kern;
pub mod var;
pub mod colr;
pub mod cpal;
pub mod svg;
pub mod cmap;
pub mod cmap_read;
pub mod cmap_write;
pub mod cmap_round;
pub mod cmap_reverse;
pub mod glyf;
pub mod glyf_read;
pub mod glyf_round;
pub mod gpos;
pub mod gsub;
pub mod fvar;
pub mod stat;
pub mod cff;

verus! {

/// A table that knows its tag and can be read from and written to bytes.
/// Each implementation states in its own contract what it reads and
/// writes.
pub trait Table: Sized {
    fn tag() -> Tag;

    /// What `parse` gives for these bytes, for a table whose `parse` shares
    /// its name with an inherent reader and so states its outcome here;
    /// the other tables state it in their own contracts.
    open spec fn parse_outcome(buf: Seq<u8>, offset: int, r: Result<Self, FontError>) -> bool {
        true
    }

    fn parse(buf: &[u8], offset: usize) -> (r: Result<Self, FontError>)
        ensures
            Self::parse_outcome(buf@, offset as int, r),
    ;

    /// The values that `write` can encode.
    spec fn writable(&self) -> bool;

    fn write(&self, writer: &mut Writer) -> Result<(), FontError>
        requires
            self.writable(),
    ;
}

/// The tag spelled by four bytes.
pub open spec fn tag_of(a: u8, b: u8, c: u8, d: u8) -> Tag {
    Tag([a, b, c, d])
}

} // verus!
