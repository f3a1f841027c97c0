//! `maxp`: the maximum profile.
use vstd::prelude::*;
use crate::codec::{be_i32, be_u16, i32_bytes, u16_bytes};
use crate::error::{FontError, Tag};
use crate::parse::Parser;
use crate::tables::Table;
use crate::write::Writer;

verus! {

broadcast use crate::codec::group_codec;

#[derive(Debug, Clone, Copy, PartialEq, Eq, Structural)]
pub struct Maxp {
    pub version: i32,
    pub num_glyphs: u16,
    pub max_points: Option<u16>,
    pub max_contours: Option<u16>,
    pub max_composite_points: Option<u16>,
    pub max_composite_contours: Option<u16>,
    pub max_zones: Option<u16>,
    pub max_twilight_points: Option<u16>,
    pub max_storage: Option<u16>,
    pub max_function_defs: Option<u16>,
    pub max_instruction_defs: Option<u16>,
    pub max_stack_elements: Option<u16>,
    pub max_size_of_instructions: Option<u16>,
    pub max_component_elements: Option<u16>,
    pub max_component_depth: Option<u16>,
}

/// Version 1.0 of `maxp`, which carries the TrueType limits.
pub const MAXP_V1: i32 = 0x00010000;

/// Size in bytes of a `maxp` table of the given version.
pub open spec fn maxp_size(version: i32) -> int {
    if version == MAXP_V1 { 32 } else { 6 }
}

pub open spec fn opt_u16(present: bool, s: Seq<u8>, i: int) -> Option<u16> {
    if present { Some(be_u16(s, i)) } else { None }
}

pub open spec fn or_zero(o: Option<u16>) -> u16 {
    match o {
        Some(v) => v,
        None => 0,
    }
}

impl Maxp {
    /// The `maxp` table spelled by the first bytes of `s`.
    pub open spec fn decode(s: Seq<u8>) -> Maxp {
        let v1 = be_i32(s, 0) == MAXP_V1;
        Maxp {
            version: be_i32(s, 0),
            num_glyphs: be_u16(s, 4),
            max_points: opt_u16(v1, s, 6),
            max_contours: opt_u16(v1, s, 8),
            max_composite_points: opt_u16(v1, s, 10),
            max_composite_contours: opt_u16(v1, s, 12),
            max_zones: opt_u16(v1, s, 14),
            max_twilight_points: opt_u16(v1, s, 16),
            max_storage: opt_u16(v1, s, 18),
            max_function_defs: opt_u16(v1, s, 20),
            max_instruction_defs: opt_u16(v1, s, 22),
            max_stack_elements: opt_u16(v1, s, 24),
            max_size_of_instructions: opt_u16(v1, s, 26),
            max_component_elements: opt_u16(v1, s, 28),
            max_component_depth: opt_u16(v1, s, 30),
        }
    }

    /// The bytes of this table: the version 1.0 limits are written only for
    /// version 1.0, an absent limit as zero.
    pub open spec fn encode(self) -> Seq<u8> {
        let head = i32_bytes(self.version) + u16_bytes(self.num_glyphs);
        if self.version == MAXP_V1 {
            head + u16_bytes(or_zero(self.max_points)) + u16_bytes(or_zero(self.max_contours))
                + u16_bytes(or_zero(self.max_composite_points)) + u16_bytes(
                or_zero(self.max_composite_contours),
            ) + u16_bytes(or_zero(self.max_zones)) + u16_bytes(
                or_zero(self.max_twilight_points),
            ) + u16_bytes(or_zero(self.max_storage)) + u16_bytes(
                or_zero(self.max_function_defs),
            ) + u16_bytes(or_zero(self.max_instruction_defs)) + u16_bytes(
                or_zero(self.max_stack_elements),
            ) + u16_bytes(or_zero(self.max_size_of_instructions)) + u16_bytes(
                or_zero(self.max_component_elements),
            ) + u16_bytes(or_zero(self.max_component_depth))
        } else {
            head
        }
    }

    /// The version 1.0 limits are present exactly when the version is 1.0.
    pub open spec fn limits_match_version(self) -> bool {
        let v1 = self.version == MAXP_V1;
        &&& self.max_points is Some == v1
        &&& self.max_contours is Some == v1
        &&& self.max_composite_points is Some == v1
        &&& self.max_composite_contours is Some == v1
        &&& self.max_zones is Some == v1
        &&& self.max_twilight_points is Some == v1
        &&& self.max_storage is Some == v1
        &&& self.max_function_defs is Some == v1
        &&& self.max_instruction_defs is Some == v1
        &&& self.max_stack_elements is Some == v1
        &&& self.max_size_of_instructions is Some == v1
        &&& self.max_component_elements is Some == v1
        &&& self.max_component_depth is Some == v1
    }
}

impl Table for Maxp {
    open spec fn writable(&self) -> bool {
        true
    }

    /// `maxp`
    fn tag() -> (t: Tag)
        ensures
            t.0@ == seq![0x6du8, 0x61, 0x78, 0x70],
    {
        Tag([0x6d, 0x61, 0x78, 0x70])
    }

    fn parse(buf: &[u8], offset: usize) -> (r: Result<Self, FontError>)
        ensures
            match r {
                Ok(m) => offset + maxp_size(m.version) <= buf@.len() && m == Maxp::decode(
                    buf@.subrange(offset as int, buf@.len() as int),
                ),
                Err(e) => e is OutOfBounds && (offset + 6 > buf@.len() || (offset + 32
                    > buf@.len() && Maxp::decode(
                    buf@.subrange(offset as int, buf@.len() as int),
                ).version == MAXP_V1)),
            },
    {
        let mut p = Parser::new(buf, offset);
        let version = p.fixed()?;
        let num_glyphs = p.u16()?;
        let mut maxp = Maxp {
            version,
            num_glyphs,
            max_points: None,
            max_contours: None,
            max_composite_points: None,
            max_composite_contours: None,
            max_zones: None,
            max_twilight_points: None,
            max_storage: None,
            max_function_defs: None,
            max_instruction_defs: None,
            max_stack_elements: None,
            max_size_of_instructions: None,
            max_component_elements: None,
            max_component_depth: None,
        };
        if version == MAXP_V1 {
            maxp.max_points = Some(p.u16()?);
            maxp.max_contours = Some(p.u16()?);
            maxp.max_composite_points = Some(p.u16()?);
            maxp.max_composite_contours = Some(p.u16()?);
            maxp.max_zones = Some(p.u16()?);
            maxp.max_twilight_points = Some(p.u16()?);
            maxp.max_storage = Some(p.u16()?);
            maxp.max_function_defs = Some(p.u16()?);
            maxp.max_instruction_defs = Some(p.u16()?);
            maxp.max_stack_elements = Some(p.u16()?);
            maxp.max_size_of_instructions = Some(p.u16()?);
            maxp.max_component_elements = Some(p.u16()?);
            maxp.max_component_depth = Some(p.u16()?);
        }
        Ok(maxp)
    }

    #[verifier::spinoff_prover]
    #[verifier::rlimit(60)]
    fn write(&self, w: &mut Writer) -> (r: Result<(), FontError>)
        ensures
            r is Ok,
            final(w)@ == old(w)@ + self.encode(),
    {
        w.write_fixed(self.version);
        w.write_u16(self.num_glyphs);
        if self.version == MAXP_V1 {
            w.write_u16(unwrap_or_zero(self.max_points));
            w.write_u16(unwrap_or_zero(self.max_contours));
            w.write_u16(unwrap_or_zero(self.max_composite_points));
            w.write_u16(unwrap_or_zero(self.max_composite_contours));
            w.write_u16(unwrap_or_zero(self.max_zones));
            w.write_u16(unwrap_or_zero(self.max_twilight_points));
            w.write_u16(unwrap_or_zero(self.max_storage));
            w.write_u16(unwrap_or_zero(self.max_function_defs));
            w.write_u16(unwrap_or_zero(self.max_instruction_defs));
            w.write_u16(unwrap_or_zero(self.max_stack_elements));
            w.write_u16(unwrap_or_zero(self.max_size_of_instructions));
            w.write_u16(unwrap_or_zero(self.max_component_elements));
            w.write_u16(unwrap_or_zero(self.max_component_depth));
        }
        proof {
            assert(w@ =~= old(w)@ + self.encode());
        }
        Ok(())
    }
}

pub fn unwrap_or_zero(o: Option<u16>) -> (v: u16)
    ensures
        v == or_zero(o),
{
    match o {
        Some(v) => v,
        None => 0,
    }
}

/// Reading back what was written gives the same `maxp`, for a table whose
/// limits are present exactly when its version calls for them.
#[verifier::rlimit(40)]
pub proof fn lemma_maxp_roundtrip(m: Maxp)
    requires
        m.limits_match_version(),
    ensures
        m.encode().len() == maxp_size(m.version),
        Maxp::decode(m.encode()) == m,
{
    let e = m.encode();
    assert(be_i32(e, 0) == m.version);
    assert(be_u16(e, 4) == m.num_glyphs);
    if m.version == MAXP_V1 {
        assert(e.len() == 32);
        assert(be_u16(e, 6) == or_zero(m.max_points));
        assert(be_u16(e, 8) == or_zero(m.max_contours));
        assert(be_u16(e, 10) == or_zero(m.max_composite_points));
        assert(be_u16(e, 12) == or_zero(m.max_composite_contours));
        assert(be_u16(e, 14) == or_zero(m.max_zones));
        assert(be_u16(e, 16) == or_zero(m.max_twilight_points));
        assert(be_u16(e, 18) == or_zero(m.max_storage));
        assert(be_u16(e, 20) == or_zero(m.max_function_defs));
        assert(be_u16(e, 22) == or_zero(m.max_instruction_defs));
        assert(be_u16(e, 24) == or_zero(m.max_stack_elements));
        assert(be_u16(e, 26) == or_zero(m.max_size_of_instructions));
        assert(be_u16(e, 28) == or_zero(m.max_component_elements));
        assert(be_u16(e, 30) == or_zero(m.max_component_depth));
    }
}


/// Bytes after a written `maxp` do not change what it reads as.
pub proof fn lemma_maxp_prefix(m: Maxp, rest: Seq<u8>)
    ensures
        Maxp::decode(m.encode() + rest) == Maxp::decode(m.encode()),
{
    let e = m.encode();
    let x = e + rest;
    assert(be_i32(e, 0) == m.version);
    assert(be_i32(x, 0) == be_i32(e, 0));
    assert(be_u16(x, 4) == be_u16(e, 4));
    if m.version == MAXP_V1 {
        assert(e.len() == 32);
        assert(be_u16(x, 6) == be_u16(e, 6));
        assert(be_u16(x, 8) == be_u16(e, 8));
        assert(be_u16(x, 10) == be_u16(e, 10));
        assert(be_u16(x, 12) == be_u16(e, 12));
        assert(be_u16(x, 14) == be_u16(e, 14));
        assert(be_u16(x, 16) == be_u16(e, 16));
        assert(be_u16(x, 18) == be_u16(e, 18));
        assert(be_u16(x, 20) == be_u16(e, 20));
        assert(be_u16(x, 22) == be_u16(e, 22));
        assert(be_u16(x, 24) == be_u16(e, 24));
        assert(be_u16(x, 26) == be_u16(e, 26));
        assert(be_u16(x, 28) == be_u16(e, 28));
        assert(be_u16(x, 30) == be_u16(e, 30));
    }
}

} // verus!
