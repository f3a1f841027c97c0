//! `HVAR` and `gvar`: variation tables kept as raw bytes with their
//! version read.
use vstd::prelude::*;
use crate::codec::be_u16;
use crate::error::{FontError, Tag};
use crate::parse::Parser;
use crate::write::Writer;

verus! {

/// HVAR — horizontal metrics variations.
#[derive(Debug, Clone, PartialEq)]
pub struct Hvar {
    pub major_version: u16,
    pub minor_version: u16,
    pub raw: Vec<u8>,
}

/// gvar — glyph variations.
#[derive(Debug, Clone, PartialEq)]
pub struct Gvar {
    pub major_version: u16,
    pub minor_version: u16,
    pub raw: Vec<u8>,
}

/// Reads the two version numbers at the start of `data`.
fn read_versions(data: &[u8]) -> (r: Result<(u16, u16), FontError>)
    ensures
        match r {
            Ok((major, minor)) => data@.len() >= 4 && major == be_u16(data@, 0) && minor == be_u16(
                data@,
                2,
            ),
            Err(e) => data@.len() < 4 && e is OutOfBounds,
        },
{
    let mut p = Parser::new(data, 0);
    let major_version = p.u16()?;
    let minor_version = p.u16()?;
    Ok((major_version, minor_version))
}

impl Hvar {
    /// `HVAR`
    pub fn tag() -> (t: Tag)
        ensures
            t.0@ == seq![0x48u8, 0x56, 0x41, 0x52],
    {
        Tag([0x48, 0x56, 0x41, 0x52])
    }

    /// Reads the version and keeps all of `data`.
    pub fn parse(data: &[u8]) -> (r: Result<Self, FontError>)
        ensures
            match r {
                Ok(h) => data@.len() >= 4 && h.major_version == be_u16(data@, 0) && h.minor_version
                    == be_u16(data@, 2) && h.raw@ == data@,
                Err(e) => data@.len() < 4 && e is OutOfBounds,
            },
    {
        let (major_version, minor_version) = read_versions(data)?;
        Ok(Hvar { major_version, minor_version, raw: vstd::slice::slice_to_vec(data) })
    }

    /// Writes the kept bytes back unchanged.
    pub fn write(&self, writer: &mut Writer) -> (r: Result<(), FontError>)
        ensures
            r is Ok,
            final(writer)@ == old(writer)@ + self.raw@,
    {
        writer.write_bytes(self.raw.as_slice());
        Ok(())
    }
}

impl Gvar {
    /// `gvar`
    pub fn tag() -> (t: Tag)
        ensures
            t.0@ == seq![0x67u8, 0x76, 0x61, 0x72],
    {
        Tag([0x67, 0x76, 0x61, 0x72])
    }

    /// Reads the version and keeps all of `data`.
    pub fn parse(data: &[u8]) -> (r: Result<Self, FontError>)
        ensures
            match r {
                Ok(g) => data@.len() >= 4 && g.major_version == be_u16(data@, 0) && g.minor_version
                    == be_u16(data@, 2) && g.raw@ == data@,
                Err(e) => data@.len() < 4 && e is OutOfBounds,
            },
    {
        let (major_version, minor_version) = read_versions(data)?;
        Ok(Gvar { major_version, minor_version, raw: vstd::slice::slice_to_vec(data) })
    }

    /// Writes the kept bytes back unchanged.
    pub fn write(&self, writer: &mut Writer) -> (r: Result<(), FontError>)
        ensures
            r is Ok,
            final(writer)@ == old(writer)@ + self.raw@,
    {
        writer.write_bytes(self.raw.as_slice());
        Ok(())
    }
}

} // verus!
