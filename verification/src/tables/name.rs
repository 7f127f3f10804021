//! `name`: the names of the font, as text.

use vstd::prelude::*;
use vstd::slice::slice_subrange;

use crate::tables::Table;
use crate::types::cursor::{
    follows, lemma_follows_start, moved, pending, short, short_in_run, take_block, take_skip,
    take_u16,
};
use crate::types::io::{be_u16, CoreRead};
use crate::types::{push_char, Error, ValidType};

verus! {

pub type ParsedType = Type;

/// What a name record names.
#[derive(Debug, Clone, Copy, PartialEq, Eq, Structural)]
pub enum RecordType {
    Copyright,
    Family,
    Subfamily,
    UniqueIdentifier,
    Full,
    Version,
    PostScript,
    Trademark,
    Manufacturer,
    Designer,
    Description,
    VendorURL,
    DesignerURL,
    License,
    LicenseURL,
    TypographicFamily,
    TypographicSubfamily,
    CompatFull,
    Sample,
    PostScriptCID,
    WWSFamily,
    WWSSubFamily,
    LightPalette,
    DarkPalette,
    PostScriptVariations,
    _Reserved,
    /// A name of the font's own, with an id from 256 on.
    FontSpecific(u16),
}

/// The largest name id that the format admits.
pub const MAX_NAME_ID: u16 = 32767;

impl RecordType {
    /// What the name id `value` names: ids 0 to 25 but 15 have a meaning
    /// each, 15 and 26 to 255 are kept free, and those from 256 on are the
    /// font's own.
    pub open spec fn of(value: u16) -> RecordType {
        if value == 0 {
            RecordType::Copyright
        } else if value == 1 {
            RecordType::Family
        } else if value == 2 {
            RecordType::Subfamily
        } else if value == 3 {
            RecordType::UniqueIdentifier
        } else if value == 4 {
            RecordType::Full
        } else if value == 5 {
            RecordType::Version
        } else if value == 6 {
            RecordType::PostScript
        } else if value == 7 {
            RecordType::Trademark
        } else if value == 8 {
            RecordType::Manufacturer
        } else if value == 9 {
            RecordType::Designer
        } else if value == 10 {
            RecordType::Description
        } else if value == 11 {
            RecordType::VendorURL
        } else if value == 12 {
            RecordType::DesignerURL
        } else if value == 13 {
            RecordType::License
        } else if value == 14 {
            RecordType::LicenseURL
        } else if value == 16 {
            RecordType::TypographicFamily
        } else if value == 17 {
            RecordType::TypographicSubfamily
        } else if value == 18 {
            RecordType::CompatFull
        } else if value == 19 {
            RecordType::Sample
        } else if value == 20 {
            RecordType::PostScriptCID
        } else if value == 21 {
            RecordType::WWSFamily
        } else if value == 22 {
            RecordType::WWSSubFamily
        } else if value == 23 {
            RecordType::LightPalette
        } else if value == 24 {
            RecordType::DarkPalette
        } else if value == 25 {
            RecordType::PostScriptVariations
        } else if value < 256 {
            RecordType::_Reserved
        } else {
            RecordType::FontSpecific(value)
        }
    }

    /// What the name id `value` names. Ids above 32767 are not valid.
    pub fn from(value: u16) -> (r: RecordType)
        requires
            value <= MAX_NAME_ID,
        ensures
            r == RecordType::of(value),
    {
        match value {
            0 => RecordType::Copyright,
            1 => RecordType::Family,
            2 => RecordType::Subfamily,
            3 => RecordType::UniqueIdentifier,
            4 => RecordType::Full,
            5 => RecordType::Version,
            6 => RecordType::PostScript,
            7 => RecordType::Trademark,
            8 => RecordType::Manufacturer,
            9 => RecordType::Designer,
            10 => RecordType::Description,
            11 => RecordType::VendorURL,
            12 => RecordType::DesignerURL,
            13 => RecordType::License,
            14 => RecordType::LicenseURL,
            16 => RecordType::TypographicFamily,
            17 => RecordType::TypographicSubfamily,
            18 => RecordType::CompatFull,
            19 => RecordType::Sample,
            20 => RecordType::PostScriptCID,
            21 => RecordType::WWSFamily,
            22 => RecordType::WWSSubFamily,
            23 => RecordType::LightPalette,
            24 => RecordType::DarkPalette,
            25 => RecordType::PostScriptVariations,
            _ => if value < 256 {
                RecordType::_Reserved
            } else {
                RecordType::FontSpecific(value)
            },
        }
    }
}

/// One name of the font.
#[derive(Debug)]
pub struct Record {
    pub name: RecordType,
    pub string: String,
}

/// A name record as plain values.
pub struct RecordView {
    pub name: RecordType,
    pub string: Seq<char>,
}

impl View for Record {
    type V = RecordView;

    open spec fn view(&self) -> RecordView {
        RecordView { name: self.name, string: self.string@ }
    }
}

/// The name records of a table as plain values.
pub open spec fn views(records: Seq<Record>) -> Seq<RecordView> {
    records.map_values(|r: Record| r@)
}

/// What is kept of `name`.
#[derive(Debug)]
pub struct Type {
    pub records: Vec<Record>,
}

/// The character that stands for what could not be decoded.
pub const REPLACEMENT: char = '\u{FFFD}';

/// The big-endian 16-bit units that `bytes` hold, two bytes each.
pub open spec fn units_of(bytes: Seq<u8>) -> Seq<u16> {
    Seq::new(bytes.len() / 2, |i: int| be_u16(bytes, 2 * i))
}

/// The text that the UTF-16 units from index `i` on stand for, added to
/// `done`. A unit outside the surrogate range is a character. A high
/// surrogate with a low one after it makes one character with it. Any other
/// surrogate is replaced.
pub open spec fn utf16_from(units: Seq<u16>, i: int, done: Seq<char>) -> Seq<char>
    recommends
        0 <= i,
    decreases units.len() - i,
{
    if i < 0 || i >= units.len() {
        done
    } else if units[i] < 0xD800 || units[i] > 0xDFFF {
        utf16_from(units, i + 1, done.push(units[i] as char))
    } else if units[i] <= 0xDBFF && i + 1 < units.len() && 0xDC00 <= units[i + 1] <= 0xDFFF {
        utf16_from(
            units,
            i + 2,
            done.push(
                (0x1_0000 + (units[i] - 0xD800) * 0x400 + (units[i + 1] - 0xDC00)) as char,
            ),
        )
    } else {
        utf16_from(units, i + 1, done.push(REPLACEMENT))
    }
}

/// The text that UTF-16 units stand for, each unpaired surrogate replaced.
pub open spec fn utf16_lossy(units: Seq<u16>) -> Seq<char> {
    utf16_from(units, 0, Seq::empty())
}

/// Whether text for this platform in this encoding is UTF-16 and can be
/// decoded: Unicode with encoding 3 or 4, Windows with encoding 1 or 10.
pub open spec fn supported(platform_id: u16, encoding_id: u16) -> bool {
    ||| platform_id == 0 && (encoding_id == 3 || encoding_id == 4)
    ||| platform_id == 3 && (encoding_id == 1 || encoding_id == 10)
}

/// `char::from_u32` of std: the character with the code `code` where that
/// is a Unicode scalar value, that is below 0xD800 or from 0xE000 to
/// 0x10FFFF, and none for any other code.
#[verifier::external_body]
fn char_of(code: u32) -> (r: Option<char>)
    ensures
        r == if code < 0xD800 || 0xE000 <= code <= 0x10_FFFF {
            Some(code as char)
        } else {
            None::<char>
        },
{
    char::from_u32(code)
}

impl Record {
    /// The text that `bytes` hold as big-endian UTF-16.
    #[verifier::loop_isolation(false)]
    fn from_utf16(bytes: &[u8]) -> (text: String)
        requires
            bytes@.len() % 2 == 0,
        ensures
            text@ == utf16_lossy(units_of(bytes@)),
    {
        let ghost units = units_of(bytes@);
        let count: usize = bytes.len() / 2;
        let mut text = String::new();
        let mut i: usize = 0;
        while i < count
            invariant
                i <= count,
                utf16_lossy(units) == utf16_from(units, i as int, text@),
            decreases count - i,
        {
            let unit: u32 = bytes[2 * i] as u32 * 0x100 + bytes[2 * i + 1] as u32;
            assert(unit == units[i as int]);
            if unit < 0xD800 || unit > 0xDFFF {
                let c: char = match char_of(unit) {
                    Some(c) => c,
                    None => REPLACEMENT,
                };
                push_char(&mut text, c);
                i = i + 1;
            } else if unit <= 0xDBFF && i + 1 < count {
                let next: u32 = bytes[2 * i + 2] as u32 * 0x100 + bytes[2 * i + 3] as u32;
                assert(next == units[i + 1]);
                if 0xDC00 <= next && next <= 0xDFFF {
                    let c: char = match char_of(
                        0x1_0000 + (unit - 0xD800) * 0x400 + (next - 0xDC00),
                    ) {
                        Some(c) => c,
                        None => REPLACEMENT,
                    };
                    push_char(&mut text, c);
                    i = i + 2;
                } else {
                    push_char(&mut text, REPLACEMENT);
                    i = i + 1;
                }
            } else {
                push_char(&mut text, REPLACEMENT);
                i = i + 1;
            }
        }
        text
    }

    /// The record named `name` with the text that `bytes` hold. The text
    /// must be for a platform and in an encoding that are supported, all of
    /// which are big-endian UTF-16, and so be of an even number of bytes.
    pub fn from_bytes(
        platform_id: u16,
        encoding_id: u16,
        _language_id: u16,
        name: RecordType,
        bytes: &[u8],
    ) -> (record: Record)
        requires
            supported(platform_id, encoding_id),
            bytes@.len() % 2 == 0,
        ensures
            record@ == (RecordView { name, string: utf16_lossy(units_of(bytes@)) }),
    {
        Record { name, string: Record::from_utf16(bytes) }
    }
}

/// An entry of the table's directory: what a record is and which bytes of
/// the storage area hold its text.
pub struct Entry {
    pub platform: u16,
    pub encoding: u16,
    pub language: u16,
    pub name: u16,
    pub begin: usize,
    pub end: usize,
}

/// Entry `i` of the directory.
pub open spec fn entry_at(s: Seq<u8>, i: int) -> Entry {
    Entry {
        platform: be_u16(s, 6 + 12 * i),
        encoding: be_u16(s, 8 + 12 * i),
        language: be_u16(s, 10 + 12 * i),
        name: be_u16(s, 12 + 12 * i),
        begin: be_u16(s, 16 + 12 * i) as usize,
        end: (be_u16(s, 16 + 12 * i) + be_u16(s, 14 + 12 * i)) as usize,
    }
}

/// How far into the storage area the texts of the first `n` records reach.
pub open spec fn reach(s: Seq<u8>, n: nat) -> int
    decreases n,
{
    if n == 0 {
        0
    } else {
        vstd::math::max(reach(s, (n - 1) as nat), entry_at(s, n - 1).end as int)
    }
}

/// How far into the storage area the first `n` language tags reach, whose
/// records, a length and an offset each, start at offset `base`.
pub open spec fn tag_reach(s: Seq<u8>, base: int, n: nat) -> int
    decreases n,
{
    if n == 0 {
        0
    } else {
        vstd::math::max(
            tag_reach(s, base, (n - 1) as nat),
            be_u16(s, base + 4 * (n - 1)) + be_u16(s, base + 4 * (n - 1) + 2),
        )
    }
}

/// The record that a directory entry and the storage area make up. An id
/// above 32767, a platform or an encoding that is not supported, and a text
/// of an odd number of bytes are errors.
pub open spec fn record_of(storage: Seq<u8>, e: Entry) -> Result<RecordView, Error> {
    if e.name > MAX_NAME_ID {
        Err(
            Error::Parsing {
                variable: "name::nameID",
                expected: ValidType::U16(MAX_NAME_ID),
                parsed: ValidType::U16(e.name),
            },
        )
    } else if e.platform != 0 && e.platform != 3 {
        Err(
            Error::Parsing {
                variable: "name::platformID",
                expected: ValidType::U16(3),
                parsed: ValidType::U16(e.platform),
            },
        )
    } else if !supported(e.platform, e.encoding) {
        Err(
            Error::Parsing {
                variable: "name::encodingID",
                expected: ValidType::U16(
                    if e.platform == 0 {
                        3
                    } else {
                        1
                    },
                ),
                parsed: ValidType::U16(e.encoding),
            },
        )
    } else if (e.end - e.begin) % 2 != 0 {
        Err(
            Error::Parsing {
                variable: "name::length",
                expected: ValidType::_USize((e.end - e.begin - 1) as usize),
                parsed: ValidType::_USize((e.end - e.begin) as usize),
            },
        )
    } else {
        Ok(
            RecordView {
                name: RecordType::of(e.name),
                string: utf16_lossy(units_of(storage.subrange(e.begin as int, e.end as int))),
            },
        )
    }
}

/// The records from number `done.len()` to `count`, added to `done`.
pub open spec fn records_from(s: Seq<u8>, storage: Seq<u8>, count: nat, done: Seq<RecordView>)
    -> Result<Seq<RecordView>, Error>
    decreases count - done.len(),
{
    let i = done.len() as int;
    if i >= count {
        Ok(done)
    } else {
        match record_of(storage, entry_at(s, i)) {
            Err(e) => Err(e),
            Ok(record) => records_from(s, storage, count, done.push(record)),
        }
    }
}

/// Where the directory of a `name` table ends: behind its records and, in
/// version 1, behind the count and the records of its language tags.
pub open spec fn directory_end(s: Seq<u8>) -> int {
    let tags_at = 6 + 12 * be_u16(s, 2);
    if be_u16(s, 0) == 1 {
        tags_at + 2 + 4 * be_u16(s, tags_at)
    } else {
        tags_at
    }
}

/// Where the storage area of a `name` table starts.
pub open spec fn storage_offset(s: Seq<u8>) -> int {
    be_u16(s, 4) as int
}

/// How long the storage area of a `name` table is: as far as the farthest
/// record or, in version 1, language tag reaches.
pub open spec fn storage_len(s: Seq<u8>) -> int {
    let tags_at = 6 + 12 * be_u16(s, 2);
    if be_u16(s, 0) == 1 {
        vstd::math::max(
            reach(s, be_u16(s, 2) as nat),
            tag_reach(s, tags_at + 2, be_u16(s, tags_at) as nat),
        )
    } else {
        reach(s, be_u16(s, 2) as nat)
    }
}

/// How many bytes a `name` table takes: up to the end of its storage area.
pub open spec fn extent(s: Seq<u8>) -> int {
    storage_offset(s) + storage_len(s)
}

/// What the bytes `s` hold as a `name` table: a header, a directory of
/// records, in version 1 a directory of language tags, and after a gap of
/// any size the storage area, which reaches as far as the farthest record or
/// tag and holds the texts.
pub open spec fn decode(s: Seq<u8>) -> Result<Seq<RecordView>, Error> {
    let tags_at = 6 + 12 * be_u16(s, 2);
    if s.len() < 6 || s.len() < tags_at || (be_u16(s, 0) == 1 && s.len() < tags_at + 2) || s.len()
        < directory_end(s) {
        Err(short_in_run(s, 0, 2))
    } else if storage_offset(s) < directory_end(s) {
        Err(
            Error::Parsing {
                variable: "name::storageOffset",
                expected: ValidType::_USize(directory_end(s) as usize),
                parsed: ValidType::U16(be_u16(s, 4)),
            },
        )
    } else if s.len() < storage_offset(s) {
        Err(short(s, storage_offset(s)))
    } else if s.len() < extent(s) {
        Err(
            Error::UnexpectedEop {
                location: "name::storage_area",
                needed: (extent(s) - s.len()) as usize,
            },
        )
    } else {
        records_from(
            s,
            s.subrange(storage_offset(s), extent(s)),
            be_u16(s, 2) as nat,
            Seq::empty(),
        )
    }
}

proof fn lemma_one_per_entry(s: Seq<u8>, storage: Seq<u8>, count: nat, done: Seq<RecordView>)
    requires
        done.len() <= count,
        forall|i: int|
            0 <= i < done.len() ==> record_of(storage, entry_at(s, i)) == Ok::<RecordView, Error>(
                #[trigger] done[i],
            ),
    ensures
        records_from(s, storage, count, done) matches Ok(records) ==> records.len() == count
            && forall|i: int|
            0 <= i < count ==> record_of(storage, entry_at(s, i)) == Ok::<RecordView, Error>(
                #[trigger] records[i],
            ),
    decreases count - done.len(),
{
    let i = done.len() as int;
    if i < count {
        if let Ok(record) = record_of(storage, entry_at(s, i)) {
            lemma_one_per_entry(s, storage, count, done.push(record));
        }
    }
}

/// A table that is accepted holds a record for each entry of its
/// directory, in their order.
pub proof fn lemma_record_per_entry(s: Seq<u8>)
    ensures
        decode(s) matches Ok(records) ==> records.len() == be_u16(s, 2) && forall|i: int|
            0 <= i < records.len() ==> (#[trigger] records[i]).name == RecordType::of(
                entry_at(s, i).name,
            ),
{
    if decode(s) is Ok {
        lemma_one_per_entry(
            s,
            s.subrange(storage_offset(s), extent(s)),
            be_u16(s, 2) as nat,
            Seq::empty(),
        );
    }
}

/// No record reaches beyond what `reach` says.
pub proof fn lemma_reach(s: Seq<u8>, n: nat, i: int)
    requires
        0 <= i < n,
    ensures
        entry_at(s, i).begin <= entry_at(s, i).end <= reach(s, n),
    decreases n,
{
    if i < n - 1 {
        lemma_reach(s, (n - 1) as nat, i);
    }
}

/// Reads the directory of records, which follows the header.
#[verifier::loop_isolation(false)]
fn read_entries<R: CoreRead>(reader: &mut R, num_records: u16, Ghost(origin): Ghost<&R>) -> (r:
    Result<(Vec<Entry>, usize), Error>)
    requires
        follows(origin, old(reader), 6),
    ensures
        match r {
            Ok((entries, storage_len)) => {
                &&& entries@.len() == num_records
                &&& forall|i: int|
                    0 <= i < num_records ==> entries@[i] == entry_at(pending(origin), i)
                &&& storage_len == reach(pending(origin), num_records as nat)
                &&& storage_len <= 0x1_fffe
                &&& follows(origin, final(reader), 6 + 12 * num_records)
            },
            Err(e) => pending(origin).len() < 6 + 12 * num_records && e == short_in_run(
                pending(origin),
                0,
                2,
            ),
        },
        moved(origin, final(reader)),
{
    let ghost s = pending(origin);
    let mut storage_len: usize = 0;
    let mut entries: Vec<Entry> = Vec::with_capacity(num_records as usize);
    while entries.len() < num_records as usize
        invariant
            entries@.len() <= num_records,
            follows(origin, reader, (6 + 12 * entries@.len()) as int),
            storage_len == reach(s, entries@.len()),
            storage_len <= 0x1_fffe,
            forall|i: int| 0 <= i < entries@.len() ==> entries@[i] == entry_at(s, i),
        decreases num_records - entries@.len(),
    {
        let ghost i = entries@.len() as int;
        let platform: u16 = take_u16(reader, Ghost(origin), Ghost(6 + 12 * i))?;
        let encoding: u16 = take_u16(reader, Ghost(origin), Ghost(8 + 12 * i))?;
        let language: u16 = take_u16(reader, Ghost(origin), Ghost(10 + 12 * i))?;
        let name: u16 = take_u16(reader, Ghost(origin), Ghost(12 + 12 * i))?;
        let length: u16 = take_u16(reader, Ghost(origin), Ghost(14 + 12 * i))?;
        let offset: u16 = take_u16(reader, Ghost(origin), Ghost(16 + 12 * i))?;
        let begin: usize = offset as usize;
        let end: usize = begin + length as usize;
        entries.push(Entry { platform, encoding, language, name, begin, end });
        if end > storage_len {
            storage_len = end;
        }
    }
    Ok((entries, storage_len))
}

/// Reads the directory of language tags, which starts at offset `base`,
/// and tells how far into the storage area the tags reach.
#[verifier::loop_isolation(false)]
fn read_tags<R: CoreRead>(
    reader: &mut R,
    num_tags: u16,
    Ghost(origin): Ghost<&R>,
    Ghost(base): Ghost<int>,
) -> (r: Result<usize, Error>)
    requires
        follows(origin, old(reader), base),
        base % 2 == 0,
    ensures
        match r {
            Ok(tags_len) => {
                &&& tags_len == tag_reach(pending(origin), base, num_tags as nat)
                &&& tags_len <= 0x1_fffe
                &&& follows(origin, final(reader), base + 4 * num_tags)
            },
            Err(e) => pending(origin).len() < base + 4 * num_tags && e == short_in_run(
                pending(origin),
                0,
                2,
            ),
        },
        moved(origin, final(reader)),
{
    let ghost s = pending(origin);
    let mut tag: u16 = 0;
    let mut tags_len: usize = 0;
    while tag < num_tags
        invariant
            tag <= num_tags,
            follows(origin, reader, base + 4 * tag),
            tags_len == tag_reach(s, base, tag as nat),
            tags_len <= 0x1_fffe,
        decreases num_tags - tag,
    {
        let length: u16 = take_u16(reader, Ghost(origin), Ghost(base + 4 * tag))?;
        let offset: u16 = take_u16(reader, Ghost(origin), Ghost(base + 2 + 4 * tag))?;
        if offset as usize + length as usize > tags_len {
            tags_len = offset as usize + length as usize;
        }
        tag = tag + 1;
    }
    Ok(tags_len)
}

/// Makes the records out of the directory and the storage area.
#[verifier::loop_isolation(false)]
fn read_records(entries: &Vec<Entry>, storage: &Vec<u8>, Ghost(s): Ghost<Seq<u8>>) -> (r: Result<
    Vec<Record>,
    Error,
>)
    requires
        forall|i: int| 0 <= i < entries@.len() ==> entries@[i] == entry_at(s, i),
        storage@.len() >= reach(s, entries@.len()),
    ensures
        match r {
            Ok(records) => records_from(s, storage@, entries@.len(), Seq::empty()) == Ok::<
                Seq<RecordView>,
                Error,
            >(views(records@)),
            Err(e) => records_from(s, storage@, entries@.len(), Seq::empty()) == Err::<
                Seq<RecordView>,
                Error,
            >(e),
        },
{
    let count: usize = entries.len();
    let mut records: Vec<Record> = Vec::with_capacity(count);
    assert(views(records@) =~= Seq::empty());
    while records.len() < count
        invariant
            records@.len() <= count,
            records_from(s, storage@, count as nat, Seq::empty()) == records_from(
                s,
                storage@,
                count as nat,
                views(records@),
            ),
        decreases count - records@.len(),
    {
        let ghost before = views(records@);
        let entry = &entries[records.len()];
        proof {
            lemma_reach(s, count as nat, records@.len() as int);
        }
        if entry.name > MAX_NAME_ID {
            return Err(
                Error::Parsing {
                    variable: "name::nameID",
                    expected: ValidType::U16(MAX_NAME_ID),
                    parsed: ValidType::U16(entry.name),
                },
            );
        }
        if entry.platform != 0 && entry.platform != 3 {
            return Err(
                Error::Parsing {
                    variable: "name::platformID",
                    expected: ValidType::U16(3),
                    parsed: ValidType::U16(entry.platform),
                },
            );
        }
        let known: bool = if entry.platform == 0 {
            entry.encoding == 3 || entry.encoding == 4
        } else {
            entry.encoding == 1 || entry.encoding == 10
        };
        if !known {
            return Err(
                Error::Parsing {
                    variable: "name::encodingID",
                    expected: ValidType::U16(
                        if entry.platform == 0 {
                            3
                        } else {
                            1
                        },
                    ),
                    parsed: ValidType::U16(entry.encoding),
                },
            );
        }
        let length: usize = entry.end - entry.begin;
        if length % 2 != 0 {
            return Err(
                Error::Parsing {
                    variable: "name::length",
                    expected: ValidType::_USize(length - 1),
                    parsed: ValidType::_USize(length),
                },
            );
        }
        let record = Record::from_bytes(
            entry.platform,
            entry.encoding,
            entry.language,
            RecordType::from(entry.name),
            slice_subrange(storage.as_slice(), entry.begin, entry.end),
        );
        let ghost shape = record@;
        records.push(record);
        assert(views(records@) =~= before.push(shape));
    }
    Ok(records)
}

/// Decodes a `name` table from the bytes that `reader` delivers next.
pub fn parse_table<R: CoreRead>(_prev_tables: &[Table], reader: &mut R) -> (r: Result<Type, Error>)
    requires
        old(reader).wf(),
    ensures
        match r {
            Ok(table) => decode(pending(old(reader))) == Ok::<Seq<RecordView>, Error>(
                views(table.records@),
            ) && final(reader).pos() == old(reader).pos() + extent(pending(old(reader))),
            Err(e) => decode(pending(old(reader))) == Err::<Seq<RecordView>, Error>(e),
        },
        moved(old(reader), final(reader)),
{
    let ghost origin = *reader;
    proof {
        lemma_follows_start(&origin);
    }
    let ghost s = pending(&origin);
    let start: usize = reader.total_read();
    let version: u16 = take_u16(reader, Ghost(&origin), Ghost(0))?;
    let num_records: u16 = take_u16(reader, Ghost(&origin), Ghost(2))?;
    let storage_offset: u16 = take_u16(reader, Ghost(&origin), Ghost(4))?;
    let (entries, mut storage_len) = read_entries(reader, num_records, Ghost(&origin))?;
    let ghost tags_at = 6 + 12 * num_records;
    let ghost mut directory_end: int = tags_at;
    if version == 1 {
        let num_tags: u16 = take_u16(reader, Ghost(&origin), Ghost(tags_at))?;
        let tags_len: usize = read_tags(reader, num_tags, Ghost(&origin), Ghost(tags_at + 2))?;
        if tags_len > storage_len {
            storage_len = tags_len;
        }
        proof {
            directory_end = tags_at + 2 + 4 * num_tags;
        }
    }
    let here: usize = reader.total_read() - start;
    if (storage_offset as usize) < here {
        return Err(
            Error::Parsing {
                variable: "name::storageOffset",
                expected: ValidType::_USize(here),
                parsed: ValidType::U16(storage_offset),
            },
        );
    }
    take_skip(reader, storage_offset as usize - here, Ghost(&origin), Ghost(directory_end))?;
    let (storage, read) = take_block(
        reader,
        storage_len,
        Ghost(&origin),
        Ghost(storage_offset as int),
    );
    if read < storage_len {
        return Err(
            Error::UnexpectedEop { location: "name::storage_area", needed: storage_len - read },
        );
    }
    assert(storage@ =~= s.subrange(storage_offset as int, storage_offset + storage_len)) by {
        assert(storage@.take(read as int) =~= storage@);
    }
    let records = read_records(&entries, &storage, Ghost(s))?;
    Ok(Type { records })
}

} // verus!
