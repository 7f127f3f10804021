//! The tables of a font and their decoders.

use vstd::prelude::*;

use crate::types::cursor::{lemma_follows_start, moved, pending};
use crate::types::io::CoreRead;
use crate::types::Error;

pub mod glyf;
pub mod head;
pub mod hhea;
pub mod hmtx;
pub mod loca;
pub mod maxp;
pub mod name;

verus! {

/// A decoded table.
#[derive(Debug)]
pub enum Table {
    Glyf(glyf::ParsedType),
    Maxp(maxp::ParsedType),
    Loca(loca::ParsedType),
    Head(head::ParsedType),
    Name(name::ParsedType),
    Hhea(hhea::ParsedType),
    Hmtx(hmtx::ParsedType),
}

/// A decoded table as plain values.
pub enum TableView {
    Glyf(Seq<glyf::GlyphView>),
    Maxp(maxp::Type),
    Loca(Seq<u32>),
    Head(head::Type),
    Name(Seq<name::RecordView>),
    Hhea(hhea::Type),
    Hmtx(Seq<hmtx::Type>),
}

impl View for Table {
    type V = TableView;

    open spec fn view(&self) -> TableView {
        match *self {
            Table::Glyf(t) => TableView::Glyf(glyf::views(t@)),
            Table::Maxp(t) => TableView::Maxp(t),
            Table::Loca(t) => TableView::Loca(t@),
            Table::Head(t) => TableView::Head(t),
            Table::Name(t) => TableView::Name(name::views(t.records@)),
            Table::Hhea(t) => TableView::Hhea(t),
            Table::Hmtx(t) => TableView::Hmtx(t@),
        }
    }
}

/// Tables as plain values.
pub open spec fn views(tables: Seq<Table>) -> Seq<TableView> {
    tables.map_values(|t: Table| t@)
}

/// The tag of the `glyf` table.
pub open spec fn tag_glyf() -> Seq<u8> {
    seq![0x67u8, 0x6c, 0x79, 0x66]
}

/// The tag of the `maxp` table.
pub open spec fn tag_maxp() -> Seq<u8> {
    seq![0x6du8, 0x61, 0x78, 0x70]
}

/// The tag of the `loca` table.
pub open spec fn tag_loca() -> Seq<u8> {
    seq![0x6cu8, 0x6f, 0x63, 0x61]
}

/// The tag of the `head` table.
pub open spec fn tag_head() -> Seq<u8> {
    seq![0x68u8, 0x65, 0x61, 0x64]
}

/// The tag of the `name` table.
pub open spec fn tag_name() -> Seq<u8> {
    seq![0x6eu8, 0x61, 0x6d, 0x65]
}

/// The tag of the `hhea` table.
pub open spec fn tag_hhea() -> Seq<u8> {
    seq![0x68u8, 0x68, 0x65, 0x61]
}

/// The tag of the `hmtx` table.
pub open spec fn tag_hmtx() -> Seq<u8> {
    seq![0x68u8, 0x6d, 0x74, 0x78]
}

/// Whether `tag` spells the four given bytes.
pub fn is_tag(tag: &[u8; 4], a: u8, b: u8, c: u8, d: u8) -> (r: bool)
    ensures
        r == (tag@ == seq![a, b, c, d]),
{
    let r: bool = tag[0] == a && tag[1] == b && tag[2] == c && tag[3] == d;
    proof {
        if r {
            assert(tag@ =~= seq![a, b, c, d]);
        } else {
            assert(seq![a, b, c, d][0] == a);
            assert(seq![a, b, c, d][1] == b);
            assert(seq![a, b, c, d][2] == c);
            assert(seq![a, b, c, d][3] == d);
        }
    }
    r
}

/// What the bytes `s` hold as the table with the tag `tag`, given the
/// tables decoded before it. A tag that no decoder is known for is an
/// error of its own.
#[verifier::opaque]
pub open spec fn decode(prev: Seq<TableView>, tag: [u8; 4], s: Seq<u8>) -> Result<TableView, Error> {
    if tag@ == tag_glyf() {
        match glyf::decode(prev, s) {
            Ok(t) => Ok(TableView::Glyf(t)),
            Err(e) => Err(e),
        }
    } else if tag@ == tag_maxp() {
        match maxp::decode(s) {
            Ok(t) => Ok(TableView::Maxp(t)),
            Err(e) => Err(e),
        }
    } else if tag@ == tag_loca() {
        match loca::decode(prev, s) {
            Ok(t) => Ok(TableView::Loca(t)),
            Err(e) => Err(e),
        }
    } else if tag@ == tag_head() {
        match head::decode(s) {
            Ok(t) => Ok(TableView::Head(t)),
            Err(e) => Err(e),
        }
    } else if tag@ == tag_name() {
        match name::decode(s) {
            Ok(t) => Ok(TableView::Name(t)),
            Err(e) => Err(e),
        }
    } else if tag@ == tag_hhea() {
        match hhea::decode(s) {
            Ok(t) => Ok(TableView::Hhea(t)),
            Err(e) => Err(e),
        }
    } else if tag@ == tag_hmtx() {
        match hmtx::decode(prev, s) {
            Ok(t) => Ok(TableView::Hmtx(t)),
            Err(e) => Err(e),
        }
    } else {
        Err(Error::InvalidTag(tag))
    }
}

/// Whether a decoder is known for a table with the tag `tag`.
pub open spec fn known(tag: [u8; 4]) -> bool {
    ||| tag@ == tag_glyf()
    ||| tag@ == tag_maxp()
    ||| tag@ == tag_loca()
    ||| tag@ == tag_head()
    ||| tag@ == tag_name()
    ||| tag@ == tag_hhea()
    ||| tag@ == tag_hmtx()
}

/// How many of the bytes `s` the decoding of the table with the tag `tag`
/// takes where it succeeds; none for a tag that no decoder is known for.
pub open spec fn extent(prev: Seq<TableView>, tag: [u8; 4], s: Seq<u8>) -> int {
    if tag@ == tag_glyf() {
        glyf::extent(prev, s)
    } else if tag@ == tag_maxp() {
        6
    } else if tag@ == tag_loca() {
        loca::width(head_of(prev)->Some_0.long_offset) * (maxp_of(prev)->Some_0.glyphs() + 1)
    } else if tag@ == tag_head() {
        head::LENGTH as int
    } else if tag@ == tag_name() {
        name::extent(s)
    } else if tag@ == tag_hhea() {
        hhea::LENGTH as int
    } else if tag@ == tag_hmtx() {
        hmtx::extent(prev)
    } else {
        0
    }
}

/// Decodes the table with the tag `tag` from the bytes that `reader`
/// delivers next. `prev_tables` are the tables decoded before it. For a
/// tag that no decoder is known for nothing is read.
pub fn parse_table<R: CoreRead>(prev_tables: &[Table], tag: [u8; 4], reader: &mut R) -> (r: Result<
    Table,
    Error,
>)
    requires
        old(reader).wf(),
    ensures
        match r {
            Ok(table) => decode(views(prev_tables@), tag, pending(old(reader))) == Ok::<
                TableView,
                Error,
            >(table@),
            Err(e) => decode(views(prev_tables@), tag, pending(old(reader))) == Err::<
                TableView,
                Error,
            >(e),
        },
        moved(old(reader), final(reader)),
        r is Ok || !known(tag) ==> final(reader).pos() == old(reader).pos() + extent(
            views(prev_tables@),
            tag,
            pending(old(reader)),
        ),
        !known(tag) ==> r == Err::<Table, Error>(Error::InvalidTag(tag)),
{
    proof {
        lemma_follows_start(&*reader);
        reveal(decode);
        loca::lemma_accepted_is_sorted(views(prev_tables@), pending(&*reader));
    }
    if is_tag(&tag, 0x67, 0x6c, 0x79, 0x66) {
        Ok(Table::Glyf(glyf::parse_table(prev_tables, reader)?))
    } else if is_tag(&tag, 0x6d, 0x61, 0x78, 0x70) {
        Ok(Table::Maxp(maxp::parse_table(prev_tables, reader)?))
    } else if is_tag(&tag, 0x6c, 0x6f, 0x63, 0x61) {
        Ok(Table::Loca(loca::parse_table(prev_tables, reader)?))
    } else if is_tag(&tag, 0x68, 0x65, 0x61, 0x64) {
        Ok(Table::Head(head::parse_table(prev_tables, reader)?))
    } else if is_tag(&tag, 0x6e, 0x61, 0x6d, 0x65) {
        Ok(Table::Name(name::parse_table(prev_tables, reader)?))
    } else if is_tag(&tag, 0x68, 0x68, 0x65, 0x61) {
        Ok(Table::Hhea(hhea::parse_table(prev_tables, reader)?))
    } else if is_tag(&tag, 0x68, 0x6d, 0x74, 0x78) {
        Ok(Table::Hmtx(hmtx::parse_table(prev_tables, reader)?))
    } else {
        Err(Error::InvalidTag(tag))
    }
}

/// The first `head` table in `tables`.
pub open spec fn head_of(tables: Seq<TableView>) -> Option<head::Type>
    decreases tables.len(),
{
    if tables.len() == 0 {
        None
    } else if let TableView::Head(t) = tables[0] {
        Some(t)
    } else {
        head_of(tables.skip(1))
    }
}

/// The first `head` table in `tables`.
pub fn first_head(tables: &[Table]) -> (r: Option<&head::Type>)
    ensures
        match r {
            Some(t) => head_of(views(tables@)) == Some(*t),
            None => head_of(views(tables@)) is None,
        },
{
    let mut i: usize = 0;
    assert(views(tables@).skip(0) =~= views(tables@));
    while i < tables.len()
        invariant
            i <= tables@.len(),
            head_of(views(tables@)) == head_of(views(tables@).skip(i as int)),
        decreases tables@.len() - i,
    {
        if let Table::Head(t) = &tables[i] {
            return Some(t);
        }
        assert(views(tables@).skip(i as int).skip(1) =~= views(tables@).skip(i + 1));
        i = i + 1;
    }
    None
}

/// The first `maxp` table in `tables`.
pub open spec fn maxp_of(tables: Seq<TableView>) -> Option<maxp::Type>
    decreases tables.len(),
{
    if tables.len() == 0 {
        None
    } else if let TableView::Maxp(t) = tables[0] {
        Some(t)
    } else {
        maxp_of(tables.skip(1))
    }
}

/// The first `maxp` table in `tables`.
pub fn first_maxp(tables: &[Table]) -> (r: Option<&maxp::Type>)
    ensures
        match r {
            Some(t) => maxp_of(views(tables@)) == Some(*t),
            None => maxp_of(views(tables@)) is None,
        },
{
    let mut i: usize = 0;
    assert(views(tables@).skip(0) =~= views(tables@));
    while i < tables.len()
        invariant
            i <= tables@.len(),
            maxp_of(views(tables@)) == maxp_of(views(tables@).skip(i as int)),
        decreases tables@.len() - i,
    {
        if let Table::Maxp(t) = &tables[i] {
            return Some(t);
        }
        assert(views(tables@).skip(i as int).skip(1) =~= views(tables@).skip(i + 1));
        i = i + 1;
    }
    None
}

/// The first `hhea` table in `tables`.
pub open spec fn hhea_of(tables: Seq<TableView>) -> Option<hhea::Type>
    decreases tables.len(),
{
    if tables.len() == 0 {
        None
    } else if let TableView::Hhea(t) = tables[0] {
        Some(t)
    } else {
        hhea_of(tables.skip(1))
    }
}

/// The first `hhea` table in `tables`.
pub fn first_hhea(tables: &[Table]) -> (r: Option<&hhea::Type>)
    ensures
        match r {
            Some(t) => hhea_of(views(tables@)) == Some(*t),
            None => hhea_of(views(tables@)) is None,
        },
{
    let mut i: usize = 0;
    assert(views(tables@).skip(0) =~= views(tables@));
    while i < tables.len()
        invariant
            i <= tables@.len(),
            hhea_of(views(tables@)) == hhea_of(views(tables@).skip(i as int)),
        decreases tables@.len() - i,
    {
        if let Table::Hhea(t) = &tables[i] {
            return Some(t);
        }
        assert(views(tables@).skip(i as int).skip(1) =~= views(tables@).skip(i + 1));
        i = i + 1;
    }
    None
}

/// The first `loca` table in `tables`.
pub open spec fn loca_of(tables: Seq<TableView>) -> Option<Seq<u32>>
    decreases tables.len(),
{
    if tables.len() == 0 {
        None
    } else if let TableView::Loca(t) = tables[0] {
        Some(t)
    } else {
        loca_of(tables.skip(1))
    }
}

/// The first `loca` table in `tables`.
pub fn first_loca(tables: &[Table]) -> (r: Option<&loca::Type>)
    ensures
        match r {
            Some(t) => loca_of(views(tables@)) == Some(t@),
            None => loca_of(views(tables@)) is None,
        },
{
    let mut i: usize = 0;
    assert(views(tables@).skip(0) =~= views(tables@));
    while i < tables.len()
        invariant
            i <= tables@.len(),
            loca_of(views(tables@)) == loca_of(views(tables@).skip(i as int)),
        decreases tables@.len() - i,
    {
        if let Table::Loca(t) = &tables[i] {
            return Some(t);
        }
        assert(views(tables@).skip(i as int).skip(1) =~= views(tables@).skip(i + 1));
        i = i + 1;
    }
    None
}

/// The first `glyf` table in `tables`.
pub open spec fn glyf_of(tables: Seq<TableView>) -> Option<Seq<glyf::GlyphView>>
    decreases tables.len(),
{
    if tables.len() == 0 {
        None
    } else if let TableView::Glyf(t) = tables[0] {
        Some(t)
    } else {
        glyf_of(tables.skip(1))
    }
}

/// The first `glyf` table in `tables`.
pub fn first_glyf(tables: &[Table]) -> (r: Option<&Vec<glyf::Glyph>>)
    ensures
        match r {
            Some(t) => glyf_of(views(tables@)) == Some(glyf::views(t@)),
            None => glyf_of(views(tables@)) is None,
        },
{
    let mut i: usize = 0;
    assert(views(tables@).skip(0) =~= views(tables@));
    while i < tables.len()
        invariant
            i <= tables@.len(),
            glyf_of(views(tables@)) == glyf_of(views(tables@).skip(i as int)),
        decreases tables@.len() - i,
    {
        if let Table::Glyf(t) = &tables[i] {
            return Some(t);
        }
        assert(views(tables@).skip(i as int).skip(1) =~= views(tables@).skip(i + 1));
        i = i + 1;
    }
    None
}

/// The first `name` table in `tables`.
pub open spec fn name_of(tables: Seq<TableView>) -> Option<Seq<name::RecordView>>
    decreases tables.len(),
{
    if tables.len() == 0 {
        None
    } else if let TableView::Name(t) = tables[0] {
        Some(t)
    } else {
        name_of(tables.skip(1))
    }
}

/// The first `name` table in `tables`.
pub fn first_name(tables: &[Table]) -> (r: Option<&name::Type>)
    ensures
        match r {
            Some(t) => name_of(views(tables@)) == Some(name::views(t.records@)),
            None => name_of(views(tables@)) is None,
        },
{
    let mut i: usize = 0;
    assert(views(tables@).skip(0) =~= views(tables@));
    while i < tables.len()
        invariant
            i <= tables@.len(),
            name_of(views(tables@)) == name_of(views(tables@).skip(i as int)),
        decreases tables@.len() - i,
    {
        if let Table::Name(t) = &tables[i] {
            return Some(t);
        }
        assert(views(tables@).skip(i as int).skip(1) =~= views(tables@).skip(i + 1));
        i = i + 1;
    }
    None
}

/// What a table needs among the tables decoded before it: `glyf` needs
/// `loca`; `loca` needs `head` and `maxp`; `hmtx` needs `maxp` and `hhea`.
pub open spec fn needs_met(prev: Seq<TableView>, table: TableView) -> bool {
    match table {
        TableView::Glyf(_) => loca_of(prev) is Some,
        TableView::Loca(_) => head_of(prev) is Some && maxp_of(prev) is Some,
        TableView::Hmtx(_) => maxp_of(prev) is Some && hhea_of(prev) is Some,
        _ => true,
    }
}

/// A table is decoded only where the tables before it hold what it needs.
pub proof fn lemma_decode_needs(prev: Seq<TableView>, tag: [u8; 4], s: Seq<u8>)
    ensures
        decode(prev, tag, s) matches Ok(table) ==> needs_met(prev, table),
{
    reveal(decode);
}

/// A `loca` table that is found among tables is one of them, and so are
/// the tables before it.
pub proof fn lemma_loca_found(tables: Seq<TableView>) -> (at: int)
    requires
        loca_of(tables) is Some,
    ensures
        0 <= at < tables.len(),
        tables[at] is Loca,
    decreases tables.len(),
{
    if tables[0] is Loca {
        0
    } else {
        lemma_loca_found(tables.skip(1)) + 1
    }
}

/// A `maxp` table that is found among the first tables is found among all
/// of them.
pub proof fn lemma_maxp_stays(tables: Seq<TableView>, n: int)
    requires
        0 <= n <= tables.len(),
        maxp_of(tables.take(n)) is Some,
    ensures
        maxp_of(tables) is Some,
    decreases tables.len(),
{
    if !(tables[0] is Maxp) {
        assert(tables.take(n).skip(1) =~= tables.skip(1).take(n - 1));
        lemma_maxp_stays(tables.skip(1), n - 1);
    }
}

} // verus!
