//! Shared building blocks: byte sources, the errors of reading a font, and
//! the generational arena.

use vstd::prelude::*;

pub mod cursor;
pub mod io;
pub mod slotmap;

pub use io::{ChecksumReader, CoreRead, CoreReadError, SliceReader, TrackingReader};
pub use slotmap::{Key as SlotmapKey, SecondaryMap, Slotmap};

verus! {

/// A value as a font file holds it, kept for reporting.
#[derive(Debug, Clone, Copy, PartialEq, Eq)]
pub enum ValidType {
    U8(u8),
    I8(i8),
    U16(u16),
    I16(i16),
    U24(u32),
    U32(u32),
    I32(i32),
    /// Fixed point with 16 fractional bits, as its 32 raw bits.
    F16d16(i32),
    /// Fixed point with 14 fractional bits, as its 16 raw bits.
    F2d14(i16),
    /// Seconds since 12:00 on January 1st 1904, UTC.
    Ldt(i64),
    Tag([u8; 4]),
    /// A packed version: major in the upper 16 bits, minor in the lower.
    PVer(u32),
    _USize(usize),
}

/// Why a font could not be read.
#[allow(inconsistent_fields)]
#[derive(Debug, Clone, Copy, PartialEq, Eq)]
pub enum Error {
    /// The byte source ran out.
    Io(CoreReadError),
    /// The file does not start with the version tag of a TrueType font.
    InvalidSfntVersion([u8; 4]),
    /// A field holds a value that the format rules out.
    Parsing { variable: &'static str, expected: ValidType, parsed: ValidType },
    /// No decoder is known for a table with this tag.
    InvalidTag([u8; 4]),
    /// A table comes in a version that is not supported.
    InvalidVersion { location: &'static str, version: u32 },
    /// Room for a table's content could not be had.
    Allocation { location: &'static str, expected: usize, allocated: usize },
    /// The file ended at this position.
    UnexpectedEof(usize),
    /// A part of the file ended before a block of bytes was complete.
    UnexpectedEop { location: &'static str, needed: usize },
    /// A table needs another one that has not been decoded before it.
    MissingTable { missing: &'static str, parsing: &'static str },
}

/// The seconds from the start of 1904, from which the times in a font
/// count, to the start of 1970.
pub const UNIX_DIFF: i64 = 2_082_888_000;

/// The character of the decimal digit `d`.
pub open spec fn digit(d: int) -> char {
    (48 + d) as char
}

/// The decimal digits of `n`, the first of them not zero unless `n` is.
pub open spec fn digits(n: nat) -> Seq<char>
    decreases n,
{
    if n < 10 {
        seq![digit(n as int)]
    } else {
        digits(n / 10).push(digit((n % 10) as int))
    }
}

/// The number `v` in decimal digits, with a minus sign before them where
/// it is negative.
pub open spec fn decimal(v: int) -> Seq<char> {
    if v < 0 {
        seq!['-'] + digits((-v) as nat)
    } else {
        digits(v as nat)
    }
}

/// What `fixed` prints for the number with 16 fractional bits whose 32 raw
/// bits are `bits`.
pub uninterp spec fn f16d16_text(bits: i32) -> Seq<char>;

/// What `fixed` prints for the number with 14 fractional bits whose 16 raw
/// bits are `bits`.
pub uninterp spec fn f2d14_text(bits: i16) -> Seq<char>;

/// What `chrono` prints for the time in UTC that is `secs` seconds after
/// the start of 1970, if it holds such a time.
pub uninterp spec fn utc_text(secs: i64) -> Option<Seq<char>>;

/// `format!` of std with `{}` on an integer: the number in decimal digits,
/// with a minus sign before them where it is negative.
#[verifier::external_body]
fn decimal_string(v: i128) -> (r: String)
    ensures
        r@ == decimal(v as int),
{
    format!("{}", v)
}

/// `FixedI32::from_bits` of `fixed`, at 16 fractional bits, printed with
/// `{}`: the text depends on the bits alone.
#[verifier::external_body]
fn f16d16_string(bits: i32) -> (r: String)
    ensures
        r@ == f16d16_text(bits),
{
    format!("{}", fixed::types::I16F16::from_bits(bits))
}

/// `FixedI16::from_bits` of `fixed`, at 14 fractional bits, printed with
/// `{}`: the text depends on the bits alone.
#[verifier::external_body]
fn f2d14_string(bits: i16) -> (r: String)
    ensures
        r@ == f2d14_text(bits),
{
    format!("{}", fixed::types::I2F14::from_bits(bits))
}

/// `DateTime::from_timestamp` of `chrono`, with no nanoseconds, printed
/// with `{}`. There is no time for a number of seconds that is out of the
/// range of `chrono`; where there is one, the text depends on the seconds
/// alone, as the time is in UTC.
#[verifier::external_body]
fn utc_string(secs: i64) -> (r: Option<String>)
    ensures
        match r {
            Some(text) => utc_text(secs) == Some(text@),
            None => utc_text(secs) is None,
        },
{
    match chrono::DateTime::from_timestamp(secs, 0) {
        Some(time) => Some(format!("{}", time)),
        None => None,
    }
}

/// `String::push` of std: the text with the character `c` added at its end.
#[verifier::external_body]
pub(crate) fn push_char(text: &mut String, c: char)
    ensures
        final(text)@ == old(text)@.push(c),
{
    text.push(c)
}

impl ValidType {
    /// Whether the value can be printed. A packed version cannot, nor can
    /// a time that is out of the range of `chrono`.
    pub open spec fn printable(&self) -> bool {
        match *self {
            ValidType::PVer(_) => false,
            ValidType::Ldt(v) => v - UNIX_DIFF >= i64::MIN && utc_text((v - UNIX_DIFF) as i64)
                is Some,
            _ => true,
        }
    }

    /// The value as text: a number in decimal digits, a fixed-point number
    /// as `fixed` prints it, a time as `chrono` prints it in UTC, a tag as
    /// its four characters.
    pub open spec fn text(&self) -> Seq<char> {
        match *self {
            ValidType::U8(v) => decimal(v as int),
            ValidType::I8(v) => decimal(v as int),
            ValidType::U16(v) => decimal(v as int),
            ValidType::I16(v) => decimal(v as int),
            ValidType::U24(v) => decimal(v as int),
            ValidType::U32(v) => decimal(v as int),
            ValidType::I32(v) => decimal(v as int),
            ValidType::F16d16(v) => f16d16_text(v),
            ValidType::F2d14(v) => f2d14_text(v),
            ValidType::Ldt(v) => utc_text((v - UNIX_DIFF) as i64)->Some_0,
            ValidType::Tag(v) => seq![v[0] as char, v[1] as char, v[2] as char, v[3] as char],
            ValidType::PVer(_) => Seq::empty(),
            ValidType::_USize(v) => decimal(v as int),
        }
    }

    /// The value as text. It must be one that can be printed.
    pub fn to_string(&self) -> (r: String)
        requires
            self.printable(),
        ensures
            r@ == self.text(),
    {
        match *self {
            ValidType::U8(v) => decimal_string(v as i128),
            ValidType::I8(v) => decimal_string(v as i128),
            ValidType::U16(v) => decimal_string(v as i128),
            ValidType::I16(v) => decimal_string(v as i128),
            ValidType::U24(v) => decimal_string(v as i128),
            ValidType::U32(v) => decimal_string(v as i128),
            ValidType::I32(v) => decimal_string(v as i128),
            ValidType::F16d16(v) => f16d16_string(v),
            ValidType::F2d14(v) => f2d14_string(v),
            ValidType::Ldt(v) => match utc_string(v - UNIX_DIFF) {
                Some(text) => text,
                None => vstd::pervasive::unreached(),
            },
            ValidType::Tag(v) => {
                let mut text = String::new();
                push_char(&mut text, v[0] as char);
                push_char(&mut text, v[1] as char);
                push_char(&mut text, v[2] as char);
                push_char(&mut text, v[3] as char);
                assert(text@ =~= self.text());
                text
            },
            ValidType::PVer(_) => vstd::pervasive::unreached(),
            ValidType::_USize(v) => decimal_string(v as i128),
        }
    }

    /// The value as text, if it is one that can be printed.
    pub fn try_to_string(&self) -> (r: Option<String>)
        ensures
            match r {
                Some(text) => self.printable() && text@ == self.text(),
                None => !self.printable(),
            },
    {
        match *self {
            ValidType::PVer(_) => None,
            ValidType::Ldt(v) => {
                if v < i64::MIN + UNIX_DIFF {
                    return None;
                }
                match utc_string(v - UNIX_DIFF) {
                    Some(_) => Some(self.to_string()),
                    None => None,
                }
            },
            _ => Some(self.to_string()),
        }
    }
}

impl vstd::std_specs::convert::FromSpecImpl<CoreReadError> for Error {
    open spec fn obeys_from_spec() -> bool {
        true
    }

    open spec fn from_spec(v: CoreReadError) -> Error {
        Error::Io(v)
    }
}

impl From<CoreReadError> for Error {
    fn from(v: CoreReadError) -> (e: Error) {
        Error::Io(v)
    }
}

} // verus!
