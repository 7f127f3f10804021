//! `hhea`: facts about horizontal layout.

use vstd::prelude::*;

use crate::tables::Table;
use crate::types::cursor::{lemma_follows_start, moved, pending, short, short_in_run, take_i16, take_u16};
use crate::types::io::{be_i16, be_u16, CoreRead};
use crate::types::Error;

verus! {

pub type ParsedType = Type;

/// The slope of the caret.
#[derive(Debug, Clone, Copy, PartialEq, Eq)]
pub enum CaretSlope {
    /// Rise 1, run 0.
    Vertical,
    /// Rise 0, run 1.
    Horizontal,
    /// Any other pair.
    Specific { rise: i16, run: i16 },
}

/// What is kept of `hhea`.
#[derive(Debug, Clone, Copy, PartialEq, Eq)]
pub struct Type {
    /// The largest advance width in `hmtx`.
    pub max_advance: u16,
    pub carat_slope: CaretSlope,
    pub carat_offset: i16,
    /// How many glyphs have an advance width of their own in `hmtx`.
    pub num_hmetric: u16,
}

/// The number of bytes of an `hhea` table.
pub const LENGTH: usize = 36;

/// The slope that a rise and a run stand for.
pub open spec fn slope_of(rise: i16, run: i16) -> CaretSlope {
    if rise == 1 && run == 0 {
        CaretSlope::Vertical
    } else if rise == 0 && run == 1 {
        CaretSlope::Horizontal
    } else {
        CaretSlope::Specific { rise, run }
    }
}

/// The 16 bits of `v`, read as an unsigned number.
pub open spec fn raw_bits(v: i16) -> u32 {
    if v < 0 {
        (v + 0x1_0000) as u32
    } else {
        v as u32
    }
}

/// What the bytes `s` hold as an `hhea` table. The fields are taken in file
/// order and the first one that is cut short or holds a value that the
/// format rules out decides the error.
pub open spec fn decode(s: Seq<u8>) -> Result<Type, Error> {
    if s.len() < 4 {
        Err(short_in_run(s, 0, 2))
    } else if be_u16(s, 0) != 1 || be_u16(s, 2) != 0 {
        Err(
            Error::InvalidVersion {
                location: "hhea",
                version: (be_u16(s, 0) as int * 0x1_0000 + be_u16(s, 2) as int) as u32,
            },
        )
    } else if s.len() < 34 {
        Err(short_in_run(s, 0, 2))
    } else if be_i16(s, 32) != 0 {
        Err(Error::InvalidVersion { location: "hhea", version: raw_bits(be_i16(s, 32)) })
    } else if s.len() < 36 {
        Err(short(s, 36))
    } else {
        Ok(
            Type {
                max_advance: be_u16(s, 10),
                carat_slope: slope_of(be_i16(s, 18), be_i16(s, 20)),
                carat_offset: be_i16(s, 22),
                num_hmetric: be_u16(s, 34),
            },
        )
    }
}

/// Decodes an `hhea` table from the bytes that `reader` delivers next.
pub fn parse_table<R: CoreRead>(_prev_tables: &[Table], reader: &mut R) -> (r: Result<Type, Error>)
    requires
        old(reader).wf(),
    ensures
        r == decode(pending(old(reader))),
        moved(old(reader), final(reader)),
        r is Ok ==> final(reader).pos() == old(reader).pos() + LENGTH,
{
    let ghost origin = *reader;
    proof {
        lemma_follows_start(&origin);
    }
    let major_version: u16 = take_u16(reader, Ghost(&origin), Ghost(0))?;
    let minor_version: u16 = take_u16(reader, Ghost(&origin), Ghost(2))?;
    if major_version != 1 || minor_version != 0 {
        return Err(
            Error::InvalidVersion {
                location: "hhea",
                version: major_version as u32 * 0x1_0000 + minor_version as u32,
            },
        );
    }
    let _ascender: i16 = take_i16(reader, Ghost(&origin), Ghost(4))?;
    let _descender: i16 = take_i16(reader, Ghost(&origin), Ghost(6))?;
    let _linegap: i16 = take_i16(reader, Ghost(&origin), Ghost(8))?;
    let max_advance: u16 = take_u16(reader, Ghost(&origin), Ghost(10))?;
    let _min_left_side_bearing: i16 = take_i16(reader, Ghost(&origin), Ghost(12))?;
    let _min_right_side_bearing: i16 = take_i16(reader, Ghost(&origin), Ghost(14))?;
    let _x_max_extent: i16 = take_i16(reader, Ghost(&origin), Ghost(16))?;
    let slope_rise: i16 = take_i16(reader, Ghost(&origin), Ghost(18))?;
    let slope_run: i16 = take_i16(reader, Ghost(&origin), Ghost(20))?;
    let carat_offset: i16 = take_i16(reader, Ghost(&origin), Ghost(22))?;
    let carat_slope = if slope_rise == 1 && slope_run == 0 {
        CaretSlope::Vertical
    } else if slope_rise == 0 && slope_run == 1 {
        CaretSlope::Horizontal
    } else {
        CaretSlope::Specific { rise: slope_rise, run: slope_run }
    };
    // four fields that are kept free
    let _: i16 = take_i16(reader, Ghost(&origin), Ghost(24))?;
    let _: i16 = take_i16(reader, Ghost(&origin), Ghost(26))?;
    let _: i16 = take_i16(reader, Ghost(&origin), Ghost(28))?;
    let _: i16 = take_i16(reader, Ghost(&origin), Ghost(30))?;
    let data_format: i16 = take_i16(reader, Ghost(&origin), Ghost(32))?;
    if data_format != 0 {
        return Err(
            Error::InvalidVersion {
                location: "hhea",
                version: if data_format < 0 {
                    (data_format as i32 + 0x1_0000) as u32
                } else {
                    data_format as u32
                },
            },
        );
    }
    let num_hmetric: u16 = take_u16(reader, Ghost(&origin), Ghost(34))?;
    Ok(Type { max_advance, carat_slope, carat_offset, num_hmetric })
}

} // verus!
