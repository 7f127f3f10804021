//! `head`: global facts about the font.

use vstd::prelude::*;

use crate::tables::Table;
use crate::types::cursor::{
    lemma_follows_start, moved, pending, short, short_in_run, take_four, take_i16, take_i64,
    take_skip, take_u16, take_u32,
};
use crate::types::io::{be_u16, be_u32, CoreRead};
use crate::types::{Error, ValidType};

verus! {

pub type ParsedType = Type;

/// The bits of `macStyle`.
pub struct Style;

impl Style {
    pub const BOLD: u16 = 0x01;

    pub const ITALIC: u16 = 0x02;

    pub const UNDERLINE: u16 = 0x04;

    pub const OUTLINE: u16 = 0x08;

    pub const SHADOW: u16 = 0x10;

    pub const CONDENSED: u16 = 0x20;

    pub const EXTENDED: u16 = 0x40;
}

/// What is kept of `head`.
#[derive(Debug, Clone, Copy, PartialEq, Eq)]
pub struct Type {
    /// Font design units per em, from 16 to 16384.
    pub units_per_em: u16,
    /// The smallest size, in pixels per em, at which the font reads well.
    pub smallest_px_size: u16,
    /// The `macStyle` bits.
    pub style: u16,
    /// Whether `loca` holds 32-bit offsets rather than halved 16-bit ones.
    pub long_offset: bool,
    /// The value that makes the checksum of the whole file come out.
    pub checksum_adjustment: u32,
}

/// The number of bytes of a `head` table.
pub const LENGTH: usize = 54;

/// The magic number that every `head` table holds.
pub const MAGIC: u32 = 0x5f0f_3cf5;

/// What the bytes `s` hold as a `head` table. The fields are taken in file
/// order and the first one that is cut short or holds a value that the
/// format rules out decides the error.
pub open spec fn decode(s: Seq<u8>) -> Result<Type, Error> {
    if s.len() < 2 {
        Err(short(s, 2))
    } else if s.len() < 4 {
        Err(short(s, 4))
    } else if be_u16(s, 0) != 1 || be_u16(s, 2) != 0 {
        Err(
            Error::InvalidVersion {
                location: "head",
                version: (be_u16(s, 0) as int * 0x1_0000 + be_u16(s, 2) as int) as u32,
            },
        )
    } else if s.len() < 8 {
        Err(Error::UnexpectedEop { location: "head::fontRevision", needed: (8 - s.len()) as usize })
    } else if s.len() < 12 {
        Err(short(s, 12))
    } else if s.len() < 16 {
        Err(short(s, 16))
    } else if be_u32(s, 12) != MAGIC {
        Err(
            Error::Parsing {
                variable: "head::magic",
                expected: ValidType::U32(MAGIC),
                parsed: ValidType::U32(be_u32(s, 12)),
            },
        )
    } else if s.len() < 18 {
        Err(short(s, 18))
    } else if s.len() < 20 {
        Err(short(s, 20))
    } else if !(16 <= be_u16(s, 18) <= 16384) {
        Err(
            Error::Parsing {
                variable: "head::unitsPerEm",
                expected: ValidType::U16(
                    if be_u16(s, 18) < 16 {
                        16
                    } else {
                        16384
                    },
                ),
                parsed: ValidType::U16(be_u16(s, 18)),
            },
        )
    } else if s.len() < 28 {
        Err(short(s, 28))
    } else if s.len() < 36 {
        Err(short(s, 36))
    } else if s.len() < 52 {
        Err(short_in_run(s, 36, 2))
    } else if be_u16(s, 50) > 1 {
        Err(
            Error::Parsing {
                variable: "head::indexToLocFormat",
                expected: ValidType::U16(1),
                parsed: ValidType::U16(be_u16(s, 50)),
            },
        )
    } else if s.len() < 54 {
        Err(short(s, 54))
    } else if be_u16(s, 52) != 0 {
        Err(
            Error::Parsing {
                variable: "head::glyphDataFormat",
                expected: ValidType::U16(0),
                parsed: ValidType::U16(be_u16(s, 52)),
            },
        )
    } else {
        Ok(
            Type {
                units_per_em: be_u16(s, 18),
                smallest_px_size: be_u16(s, 46),
                style: be_u16(s, 44),
                long_offset: be_u16(s, 50) == 1,
                checksum_adjustment: be_u32(s, 8),
            },
        )
    }
}

/// Decodes a `head` table from the bytes that `reader` delivers next.
pub fn parse_table<R: CoreRead>(_prev_tables: &[Table], reader: &mut R) -> (r: Result<Type, Error>)
    requires
        old(reader).wf(),
    ensures
        r == decode(pending(old(reader))),
        moved(old(reader), final(reader)),
        r is Ok ==> final(reader).pos() == old(reader).pos() + LENGTH,
{
    let ghost origin = *reader;
    proof {
        lemma_follows_start(&origin);
    }
    let major_version: u16 = take_u16(reader, Ghost(&origin), Ghost(0))?;
    let minor_version: u16 = take_u16(reader, Ghost(&origin), Ghost(2))?;
    if major_version != 1 || minor_version != 0 {
        return Err(
            Error::InvalidVersion {
                location: "head",
                version: major_version as u32 * 0x1_0000 + minor_version as u32,
            },
        );
    }
    let (_font_revision, read) = take_four(reader, Ghost(&origin), Ghost(4));
    if read != 4 {
        return Err(Error::UnexpectedEop { location: "head::fontRevision", needed: 4 - read });
    }
    let checksum_adjustment: u32 = take_u32(reader, Ghost(&origin), Ghost(8))?;
    let magic: u32 = take_u32(reader, Ghost(&origin), Ghost(12))?;
    if magic != MAGIC {
        return Err(
            Error::Parsing {
                variable: "head::magic",
                expected: ValidType::U32(MAGIC),
                parsed: ValidType::U32(magic),
            },
        );
    }
    // flags
    take_skip(reader, 2, Ghost(&origin), Ghost(16))?;
    let units_per_em: u16 = take_u16(reader, Ghost(&origin), Ghost(18))?;
    if units_per_em < 16 || units_per_em > 16384 {
        return Err(
            Error::Parsing {
                variable: "head::unitsPerEm",
                expected: ValidType::U16(
                    if units_per_em < 16 {
                        16
                    } else {
                        16384
                    },
                ),
                parsed: ValidType::U16(units_per_em),
            },
        );
    }
    let _created_time: i64 = take_i64(reader, Ghost(&origin), Ghost(20))?;
    let _modified_time: i64 = take_i64(reader, Ghost(&origin), Ghost(28))?;
    let _x_min: i16 = take_i16(reader, Ghost(&origin), Ghost(36))?;
    let _y_min: i16 = take_i16(reader, Ghost(&origin), Ghost(38))?;
    let _x_max: i16 = take_i16(reader, Ghost(&origin), Ghost(40))?;
    let _y_max: i16 = take_i16(reader, Ghost(&origin), Ghost(42))?;
    let style: u16 = take_u16(reader, Ghost(&origin), Ghost(44))?;
    let smallest_px_size: u16 = take_u16(reader, Ghost(&origin), Ghost(46))?;
    // deprecated
    let _font_dir_hint: i16 = take_i16(reader, Ghost(&origin), Ghost(48))?;
    let long_offset: u16 = take_u16(reader, Ghost(&origin), Ghost(50))?;
    if long_offset > 1 {
        return Err(
            Error::Parsing {
                variable: "head::indexToLocFormat",
                expected: ValidType::U16(1),
                parsed: ValidType::U16(long_offset),
            },
        );
    }
    let glyf_format: u16 = take_u16(reader, Ghost(&origin), Ghost(52))?;
    if glyf_format != 0 {
        return Err(
            Error::Parsing {
                variable: "head::glyphDataFormat",
                expected: ValidType::U16(0),
                parsed: ValidType::U16(glyf_format),
            },
        );
    }
    Ok(
        Type {
            units_per_em,
            style,
            smallest_px_size,
            checksum_adjustment,
            long_offset: long_offset == 1,
        },
    )
}

} // verus!
