//! A TrueType font reader: the SFNT container, its table decoders, and a
//! generational arena that keeps the fonts that were read.

pub mod font;
pub mod tables;
pub mod types;

pub use font::{open_font, Collection as FontCollection, Font, Trait as FontTrait};
pub use tables::name::RecordType as NameRecord;
pub use types::Error as ParseError;
