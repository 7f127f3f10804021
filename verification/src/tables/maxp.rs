//! `maxp`: the number of glyphs.

use vstd::prelude::*;

use crate::tables::Table;
use crate::types::cursor::{follows, lemma_follows_start, moved, pending, short, take_u16, take_u32};
use crate::types::io::{be_u16, be_u32, CoreRead};
use crate::types::Error;

verus! {

pub type ParsedType = Type;

/// The content of `maxp`, by the version it comes in. Of the fields of
/// version 1.0 only the number of glyphs is kept.
#[derive(Debug, Clone, Copy, PartialEq, Eq)]
pub enum Type {
    Ver05 { num_glyphs: u16 },
    Ver10 { num_glyphs: u16 },
}

impl Type {
    /// The number of glyphs in the font.
    pub open spec fn glyphs(&self) -> u16 {
        match *self {
            Type::Ver05 { num_glyphs } => num_glyphs,
            Type::Ver10 { num_glyphs } => num_glyphs,
        }
    }

    /// The number of glyphs in the font.
    pub fn num_glyphs(&self) -> (n: u16)
        ensures
            n == self.glyphs(),
    {
        match *self {
            Type::Ver05 { num_glyphs } => num_glyphs,
            Type::Ver10 { num_glyphs } => num_glyphs,
        }
    }
}

/// What the bytes `s` hold as a `maxp` table: a packed version, 0.5 or 1.0,
/// and the number of glyphs.
pub open spec fn decode(s: Seq<u8>) -> Result<Type, Error> {
    if s.len() < 4 {
        Err(short(s, 4))
    } else if be_u32(s, 0) == 0x0000_5000 {
        if s.len() < 6 {
            Err(short(s, 6))
        } else {
            Ok(Type::Ver05 { num_glyphs: be_u16(s, 4) })
        }
    } else if be_u32(s, 0) == 0x0001_0000 {
        if s.len() < 6 {
            Err(short(s, 6))
        } else {
            Ok(Type::Ver10 { num_glyphs: be_u16(s, 4) })
        }
    } else {
        Err(Error::InvalidVersion { location: "maxp", version: be_u32(s, 0) })
    }
}

/// Decodes a `maxp` table from the bytes that `reader` delivers next.
pub fn parse_table<R: CoreRead>(_prev_tables: &[Table], reader: &mut R) -> (r: Result<Type, Error>)
    requires
        old(reader).wf(),
    ensures
        r == decode(pending(old(reader))),
        moved(old(reader), final(reader)),
        r is Ok ==> final(reader).pos() == old(reader).pos() + 6,
{
    let ghost origin = *reader;
    proof {
        lemma_follows_start(&origin);
    }
    let packed_ver: u32 = take_u32(reader, Ghost(&origin), Ghost(0))?;
    match packed_ver {
        0x0000_5000 => Ok(Type::Ver05 { num_glyphs: take_u16(reader, Ghost(&origin), Ghost(4))? }),
        0x0001_0000 => Ok(Type::Ver10 { num_glyphs: take_u16(reader, Ghost(&origin), Ghost(4))? }),
        _ => Err(Error::InvalidVersion { location: "maxp", version: packed_ver }),
    }
}

} // verus!
