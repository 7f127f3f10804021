use glfont::font::{open_font, open_font_noting, verify_header, TableRecord, Trait};
use glfont::tables::hmtx;
use glfont::tables::Table;
use glfont::types::io::{CoreRead, CoreReadError, SliceReader};
use glfont::types::{Error, ValidType};

fn be16(v: u16) -> [u8; 2] {
    v.to_be_bytes()
}

fn be32(v: u32) -> [u8; 4] {
    v.to_be_bytes()
}

fn words_sum(bytes: &[u8]) -> u32 {
    let mut sum: u32 = 0;
    for chunk in bytes.chunks(4) {
        let mut word = [0u8; 4];
        word[..chunk.len()].copy_from_slice(chunk);
        sum = sum.wrapping_add(u32::from_be_bytes(word));
    }
    sum
}

fn head_table(units_per_em: u16, index_to_loc: u16) -> Vec<u8> {
    let mut t = Vec::new();
    t.extend_from_slice(&[0, 1, 0, 0]); // version 1.0
    t.extend_from_slice(&[0, 1, 0, 0]); // fontRevision
    t.extend_from_slice(&be32(0)); // checksumAdjustment
    t.extend_from_slice(&be32(0x5f0f_3cf5)); // magic
    t.extend_from_slice(&be16(0)); // flags
    t.extend_from_slice(&be16(units_per_em));
    t.extend_from_slice(&[0; 8]); // created
    t.extend_from_slice(&[0; 8]); // modified
    t.extend_from_slice(&[0; 8]); // bounds
    t.extend_from_slice(&be16(0)); // macStyle
    t.extend_from_slice(&be16(8)); // lowestRecPPEM
    t.extend_from_slice(&be16(2)); // fontDirectionHint
    t.extend_from_slice(&be16(index_to_loc));
    t.extend_from_slice(&be16(0)); // glyphDataFormat
    assert_eq!(t.len(), 54);
    t
}

/// A file with the given tables, laid out one after another, each padded to
/// a multiple of four bytes, with the adjustment of `head` set.
fn font_file(tables: &[(&[u8; 4], Vec<u8>)]) -> Vec<u8> {
    let n = tables.len() as u16;
    let mut exponent: u16 = 0;
    while (1u16 << (exponent + 1)) <= n {
        exponent += 1;
    }
    let search_range = (1u16 << exponent) * 16;
    let mut file = Vec::new();
    file.extend_from_slice(&[0, 1, 0, 0]);
    file.extend_from_slice(&be16(n));
    file.extend_from_slice(&be16(search_range));
    file.extend_from_slice(&be16(exponent));
    file.extend_from_slice(&be16(n * 16 - search_range));
    let mut offset = 12 + 16 * tables.len();
    let mut head_at = None;
    for (tag, body) in tables {
        file.extend_from_slice(&tag[..]);
        file.extend_from_slice(&be32(words_sum(body)));
        file.extend_from_slice(&be32(offset as u32));
        file.extend_from_slice(&be32(body.len() as u32));
        if &tag[..] == b"head" {
            head_at = Some(offset);
        }
        offset += (body.len() + 3) / 4 * 4;
    }
    for (_, body) in tables {
        file.extend_from_slice(body);
        while file.len() % 4 != 0 {
            file.push(0);
        }
    }
    if let Some(at) = head_at {
        let adjustment = 0xb1b0_afba_u32.wrapping_sub(words_sum(&file));
        file[at + 8..at + 12].copy_from_slice(&be32(adjustment));
    }
    file
}

#[test]
fn minimal_font_with_head_parses() {
    let file = font_file(&[(b"head", head_table(1000, 0))]);
    let font = open_font(SliceReader::new(&file)).expect("the font is valid");
    assert_eq!(font.len(), 1);
    assert_eq!(font.units_per_em(), 1000);
    assert_eq!(font.id(), None);
    assert!(font.glyph(0).is_none());
}

#[test]
fn flipped_magic_byte_fails() {
    let mut file = font_file(&[(b"head", head_table(1000, 0))]);
    let head_at = 12 + 16;
    file[head_at + 12] ^= 0x01;
    let result = open_font(SliceReader::new(&file));
    match result {
        Err(Error::Parsing { variable, expected, parsed }) => {
            assert_eq!(variable, "head::magic");
            assert_eq!(expected, ValidType::U32(0x5f0f_3cf5));
            assert_eq!(parsed, ValidType::U32(0x5e0f_3cf5));
        },
        other => panic!("unexpected result {:?}", other.map(|_| ())),
    }
}

#[test]
fn header_is_checked_field_by_field() {
    let good = [0, 1, 0, 0, 0, 3, 0, 32, 0, 1, 0, 16];
    let mut reader = SliceReader::new(&good);
    assert_eq!(verify_header(&mut reader), Ok(3));
    assert_eq!(reader.total_read(), 12);

    let bad_version = [0x4f, 0x54, 0x54, 0x4f, 0, 3, 0, 32, 0, 1, 0, 16];
    assert_eq!(
        verify_header(&mut SliceReader::new(&bad_version)),
        Err(Error::InvalidSfntVersion([0x4f, 0x54, 0x54, 0x4f]))
    );

    let bad_range = [0, 1, 0, 0, 0, 3, 0, 48, 0, 1, 0, 16];
    assert_eq!(
        verify_header(&mut SliceReader::new(&bad_range)),
        Err(Error::Parsing {
            variable: "SearchRange",
            expected: ValidType::U16(32),
            parsed: ValidType::U16(48),
        })
    );

    let bad_selector = [0, 1, 0, 0, 0, 3, 0, 32, 0, 2, 0, 16];
    assert_eq!(
        verify_header(&mut SliceReader::new(&bad_selector)),
        Err(Error::Parsing {
            variable: "EntrySelector",
            expected: ValidType::U32(1),
            parsed: ValidType::U16(2),
        })
    );

    let bad_shift = [0, 1, 0, 0, 0, 3, 0, 32, 0, 1, 0, 0];
    assert_eq!(
        verify_header(&mut SliceReader::new(&bad_shift)),
        Err(Error::Parsing {
            variable: "RangeShift",
            expected: ValidType::U16(16),
            parsed: ValidType::U16(0),
        })
    );

    let no_tables = [0, 1, 0, 0, 0, 0, 0, 0, 0, 0, 0, 0];
    assert_eq!(
        verify_header(&mut SliceReader::new(&no_tables)),
        Err(Error::Parsing {
            variable: "NumTables",
            expected: ValidType::U16(1),
            parsed: ValidType::U16(0),
        })
    );

    let cut = [0, 1, 0, 0, 0, 3, 0];
    assert_eq!(
        verify_header(&mut SliceReader::new(&cut)),
        Err(Error::Io(CoreReadError::UnexpectedEnd(1)))
    );
}

fn maxp_bytes(num_glyphs: u16) -> Vec<u8> {
    let mut t = vec![0, 0, 0x50, 0];
    t.extend_from_slice(&be16(num_glyphs));
    t
}

fn hhea_bytes(num_hmetric: u16) -> Vec<u8> {
    let mut t = vec![0, 1, 0, 0];
    t.extend_from_slice(&[0; 14]);
    t.extend_from_slice(&be16(1));
    t.extend_from_slice(&[0; 14]);
    t.extend_from_slice(&be16(num_hmetric));
    assert_eq!(t.len(), 36);
    t
}

fn name_bytes(id: u16, text: &str) -> Vec<u8> {
    let units: Vec<u8> = text.encode_utf16().flat_map(|u| u.to_be_bytes()).collect();
    let mut t = Vec::new();
    for v in [0u16, 1, 18, 3, 1, 0x0409, id, units.len() as u16, 0] {
        t.extend_from_slice(&be16(v));
    }
    t.extend_from_slice(&units);
    t
}

fn square() -> Vec<u8> {
    let mut g = Vec::new();
    for v in [1i16, 0, 0, 100, 100] {
        g.extend_from_slice(&v.to_be_bytes());
    }
    g.extend_from_slice(&be16(3));
    g.extend_from_slice(&be16(0));
    g.extend_from_slice(&[0x31, 0x33, 0x35, 0x21]);
    g.extend_from_slice(&[100]); // x: same, +100, same, -100
    g.extend_from_slice(&[0xff, 0x9c]);
    g.extend_from_slice(&[100]); // y: same, same, +100, same
    assert_eq!(g.len(), 22);
    g.extend_from_slice(&[0, 0]);
    g
}

fn whole_font() -> Vec<u8> {
    let glyf = square();
    let mut loca = Vec::new();
    for offset in [0u16, 0, 24] {
        loca.extend_from_slice(&be16(offset / 2));
    }
    let mut hmtx = Vec::new();
    hmtx.extend_from_slice(&be16(512));
    hmtx.extend_from_slice(&be16(12));
    hmtx.extend_from_slice(&be16(34));
    font_file(&[
        (b"head", head_table(2048, 0)),
        (b"DSIG", vec![1, 2, 3, 4, 5]),
        (b"hhea", hhea_bytes(1)),
        (b"maxp", maxp_bytes(2)),
        (b"hmtx", hmtx),
        (b"loca", loca),
        (b"glyf", glyf),
        (b"name", name_bytes(3, "the font")),
    ])
}

#[test]
fn a_font_with_all_tables_parses() {
    let file = whole_font();
    let font = open_font(SliceReader::new(&file)).expect("the font is valid");
    let kinds: Vec<&str> = font
        .iter()
        .map(|t| match t {
            Table::Glyf(_) => "glyf",
            Table::Maxp(_) => "maxp",
            Table::Loca(_) => "loca",
            Table::Head(_) => "head",
            Table::Name(_) => "name",
            Table::Hhea(_) => "hhea",
            Table::Hmtx(_) => "hmtx",
        })
        .collect();
    assert_eq!(kinds, vec!["head", "hhea", "maxp", "hmtx", "loca", "glyf", "name"]);
    assert_eq!(font.units_per_em(), 2048);
    assert_eq!(font.id(), Some("the font"));
    assert_eq!(font.name_record(glfont::NameRecord::Family), None);
    let empty = font.glyph(0).expect("glyph 0");
    assert_eq!(empty.num_contours, 0);
    let glyph = font.glyph(1).expect("glyph 1");
    assert_eq!(glyph.num_contours, 1);
    assert_eq!(glyph.x_bounds, (0, 100));
    assert_eq!(glyph.y_bounds, (0, 100));
    assert_eq!(glyph.end_pts, vec![3]);
    assert_eq!(
        glyph.points,
        vec![(0, 0, true), (100, 0, true), (100, 100, true), (0, 100, true)]
    );
    assert!(font.glyph(2).is_none());
    assert!(font.glyph(u32::MAX).is_none());
    match &font[3] {
        Table::Hmtx(metrics) => assert_eq!(
            metrics,
            &vec![
                hmtx::Type { advance: 512, left_side_bearing: 12 },
                hmtx::Type { advance: 512, left_side_bearing: 34 },
            ]
        ),
        _ => panic!("hmtx is the fourth table"),
    }
}

#[test]
fn tables_are_read_in_file_order() {
    // the directory lists `maxp` first, the file holds `head` first
    let head = head_table(64, 1);
    let maxp = maxp_bytes(7);
    let mut file = vec![0, 1, 0, 0, 0, 2, 0, 32, 0, 1, 0, 0];
    file.extend_from_slice(b"maxp");
    file.extend_from_slice(&be32(0));
    file.extend_from_slice(&be32(44 + 56));
    file.extend_from_slice(&be32(6));
    file.extend_from_slice(b"head");
    file.extend_from_slice(&be32(0));
    file.extend_from_slice(&be32(44));
    file.extend_from_slice(&be32(54));
    file.extend_from_slice(&head);
    file.extend_from_slice(&[0, 0]);
    file.extend_from_slice(&maxp);
    let adjustment = 0xb1b0_afba_u32.wrapping_sub(words_sum(&file));
    file[44 + 8..44 + 12].copy_from_slice(&be32(adjustment));
    let font = open_font(SliceReader::new(&file)).expect("the font is valid");
    assert!(matches!(font[0], glfont::tables::Table::Head(_)));
    assert!(matches!(
        font[1],
        glfont::tables::Table::Maxp(glfont::tables::maxp::Type::Ver05 { num_glyphs: 7 })
    ));
}

#[test]
fn gaps_between_tables_are_passed_over() {
    let head = head_table(64, 1);
    let mut file = vec![0, 1, 0, 0, 0, 1, 0, 16, 0, 0, 0, 0];
    file.extend_from_slice(b"head");
    file.extend_from_slice(&be32(0));
    file.extend_from_slice(&be32(40));
    file.extend_from_slice(&be32(54));
    file.extend_from_slice(&[0xaa; 12]);
    file.extend_from_slice(&head);
    let adjustment = 0xb1b0_afba_u32.wrapping_sub(words_sum(&file));
    file[40 + 8..40 + 12].copy_from_slice(&be32(adjustment));
    let font = open_font(SliceReader::new(&file)).expect("the font is valid");
    assert_eq!(font.units_per_em(), 64);
    // what follows the last table is not read, and does not count
    file.extend_from_slice(&[0xbb; 9]);
    assert!(open_font(SliceReader::new(&file)).is_ok());
}

#[test]
fn a_wrong_table_checksum_is_let_pass() {
    let mut file = whole_font();
    // the checksum that the directory declares for `hhea`
    let at = 12 + 16 * 2 + 4;
    assert_eq!(&file[at - 4..at], b"hhea");
    file[at] ^= 0xff;
    let head_at = 12 + 16 * 8;
    let adjustment_at = head_at + 8;
    file[adjustment_at..adjustment_at + 4].copy_from_slice(&[0; 4]);
    let adjustment = 0xb1b0_afba_u32.wrapping_sub(words_sum(&file));
    file[adjustment_at..adjustment_at + 4].copy_from_slice(&be32(adjustment));
    assert!(open_font(SliceReader::new(&file)).is_ok());
    let (font, odd) = open_font_noting(SliceReader::new(&file)).expect("the font is valid");
    assert_eq!(font.len(), 7);
    assert_eq!(odd.len(), 1);
    assert_eq!(odd[0].tag, *b"hhea");
    assert_eq!(odd[0].length, 36);
    assert_eq!(odd[0].checksum, words_sum(&hhea_bytes(1)) ^ 0xff00_0000);
}

#[test]
fn the_checksums_of_a_sound_font_fit() {
    let (font, odd) = open_font_noting(SliceReader::new(&whole_font())).expect("valid");
    assert_eq!(font.len(), 7);
    assert_eq!(odd, Vec::<TableRecord>::new());
    // a table that is passed over counts too
    let mut file = whole_font();
    let at = 12 + 16 + 4;
    assert_eq!(&file[at - 4..at], b"DSIG");
    file[at + 3] ^= 1;
    let adjustment_at = 12 + 16 * 8 + 8;
    file[adjustment_at..adjustment_at + 4].copy_from_slice(&[0; 4]);
    let adjustment = 0xb1b0_afba_u32.wrapping_sub(words_sum(&file));
    file[adjustment_at..adjustment_at + 4].copy_from_slice(&be32(adjustment));
    let (_, odd) = open_font_noting(SliceReader::new(&file)).expect("valid");
    assert_eq!(odd.len(), 1);
    assert_eq!(odd[0].tag, *b"DSIG");
    // the adjustment in `head` does not count for the checksum of `head`
    let mut file = whole_font();
    let at = 12 + 4;
    assert_eq!(&file[at - 4..at], b"head");
    file[at + 3] ^= 1;
    file[adjustment_at..adjustment_at + 4].copy_from_slice(&[0; 4]);
    let adjustment = 0xb1b0_afba_u32.wrapping_sub(words_sum(&file));
    file[adjustment_at..adjustment_at + 4].copy_from_slice(&be32(adjustment));
    let (_, odd) = open_font_noting(SliceReader::new(&file)).expect("valid");
    assert_eq!(odd.len(), 1);
    assert_eq!(odd[0].tag, *b"head");
}

#[test]
fn the_adjustment_must_fit_the_file() {
    let file = font_file(&[(b"head", head_table(1000, 0))]);
    let declared = u32::from_be_bytes([file[36], file[37], file[38], file[39]]);
    let mut changed = file.clone();
    changed[33] ^= 0x10; // a byte of the font revision
    match open_font(SliceReader::new(&changed)) {
        Err(Error::Parsing { variable, expected, parsed }) => {
            assert_eq!(variable, "ChecksumAdjustment");
            assert_eq!(expected, ValidType::U32(declared));
            assert_eq!(parsed, ValidType::U32(declared.wrapping_sub(0x0010_0000)));
        },
        other => panic!("unexpected result {:?}", other.map(|_| ())),
    }
    let mut changed = file.clone();
    changed[39] = changed[39].wrapping_add(1);
    match open_font(SliceReader::new(&changed)) {
        Err(Error::Parsing { variable, expected, parsed }) => {
            assert_eq!(variable, "ChecksumAdjustment");
            assert_eq!(expected, ValidType::U32(declared.wrapping_add(1)));
            assert_eq!(parsed, ValidType::U32(declared));
        },
        other => panic!("unexpected result {:?}", other.map(|_| ())),
    }
}

#[test]
fn a_font_without_head_needs_no_adjustment() {
    // the sum of the file is the constant itself
    let maxp = maxp_bytes(1);
    let mut file = vec![0, 1, 0, 0, 0, 1, 0, 16, 0, 0, 0, 0];
    file.extend_from_slice(b"maxp");
    file.extend_from_slice(&be32(0));
    file.extend_from_slice(&be32(28));
    file.extend_from_slice(&be32(12));
    file.extend_from_slice(&maxp);
    file.extend_from_slice(&[0; 6]);
    let rest = 0xb1b0_afba_u32.wrapping_sub(words_sum(&file)) & !1;
    file[36..40].copy_from_slice(&be32(rest));
    let odd = 0xb1b0_afba_u32.wrapping_sub(words_sum(&file));
    file[35] = odd as u8;
    let font = open_font(SliceReader::new(&file)).expect("the font is valid");
    assert_eq!(font.len(), 1);
    file[39] |= 1;
    assert_eq!(
        open_font(SliceReader::new(&file)).map(|f| f.len()),
        Err(Error::Parsing {
            variable: "ChecksumAdjustment",
            expected: ValidType::U32(0),
            parsed: ValidType::U32(u32::MAX),
        })
    );
}

#[test]
fn files_that_end_early() {
    let file = font_file(&[(b"head", head_table(1000, 0)), (b"maxp", maxp_bytes(3))]);
    let parse = |len: usize| open_font(SliceReader::new(&file[..len])).map(|f| f.len());
    assert_eq!(file.len(), 12 + 32 + 56 + 8);
    assert_eq!(parse(0), Err(Error::InvalidSfntVersion([0, 0, 0, 0])));
    assert_eq!(parse(3), Err(Error::Io(CoreReadError::UnexpectedEnd(2))));
    assert_eq!(parse(12), Err(Error::UnexpectedEop { location: "TableRecord", needed: 4 }));
    assert_eq!(parse(14), Err(Error::UnexpectedEop { location: "TableRecord", needed: 2 }));
    assert_eq!(parse(16), Err(Error::UnexpectedEop { location: "TableRecord", needed: 4 }));
    assert_eq!(parse(18), Err(Error::UnexpectedEop { location: "TableRecord", needed: 2 }));
    assert_eq!(parse(27), Err(Error::UnexpectedEop { location: "TableRecord", needed: 1 }));
    assert_eq!(parse(28), Err(Error::UnexpectedEop { location: "TableRecord", needed: 4 }));
    assert_eq!(parse(43), Err(Error::UnexpectedEop { location: "TableRecord", needed: 1 }));
    assert_eq!(parse(44), Err(Error::Io(CoreReadError::UnexpectedEnd(54))));
    assert_eq!(parse(97), Err(Error::Io(CoreReadError::UnexpectedEnd(1))));
    assert_eq!(parse(98), Err(Error::Io(CoreReadError::UnexpectedEnd(2))));
    assert_eq!(parse(105), Err(Error::Io(CoreReadError::UnexpectedEnd(1))));
    assert_eq!(parse(106), Ok(2));
}

#[test]
fn a_table_that_fails_ends_the_reading() {
    let file = font_file(&[(b"maxp", maxp_bytes(3)), (b"loca", vec![0; 8])]);
    assert_eq!(
        open_font(SliceReader::new(&file)).map(|f| f.len()),
        Err(Error::MissingTable { missing: "head", parsing: "loca" })
    );
    // a table cannot be read beyond the length that the directory gives it
    let mut file = font_file(&[(b"maxp", maxp_bytes(3))]);
    file[27] = 5;
    assert_eq!(
        open_font(SliceReader::new(&file)).map(|f| f.len()),
        Err(Error::Io(CoreReadError::UnexpectedEnd(1)))
    );
}

#[test]
fn search_range_of_many_tables() {
    for (n, range, selector, shift) in
        [(1u16, 16u16, 0u16, 0u16), (2, 32, 1, 0), (5, 64, 2, 16), (16, 256, 4, 0), (4095, 32768, 11, 32752)]
    {
        let mut header = vec![0, 1, 0, 0];
        for v in [n, range, selector, shift] {
            header.extend_from_slice(&be16(v));
        }
        assert_eq!(verify_header(&mut SliceReader::new(&header)), Ok(n));
    }
    let mut header = vec![0, 1, 0, 0];
    for v in [4096u16, 0, 12, 0] {
        header.extend_from_slice(&be16(v));
    }
    assert_eq!(
        verify_header(&mut SliceReader::new(&header)),
        Err(Error::Parsing {
            variable: "SearchRange",
            expected: ValidType::U32(65536),
            parsed: ValidType::U16(0),
        })
    );
}

#[test]
fn a_directory_entry_cut_after_its_tag() {
    let file = [
        0x00, 0x01, 0x00, 0x00, 0x00, 0x01, 0x00, 0x10, 0x00, 0x00, 0x00, 0x00, 0x68, 0x65, 0x61,
        0x64, 0x00, 0x00,
    ];
    assert_eq!(
        open_font(SliceReader::new(&file)).map(|f| f.len()),
        Err(Error::UnexpectedEop { location: "TableRecord", needed: 2 })
    );
}
