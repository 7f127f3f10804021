use glfont::types::io::{ChecksumReader, CoreRead, CoreReadError, SliceReader, TrackingReader};

#[test]
fn slice_reader_delivers_in_order() {
    let data = [1u8, 2, 3, 4, 5];
    let mut reader = SliceReader::new(&data);
    let mut buf = [0u8; 2];
    assert_eq!(reader.read(&mut buf), 2);
    assert_eq!(buf, [1, 2]);
    assert_eq!(reader.total_read(), 2);
    let mut rest = [9u8; 4];
    assert_eq!(reader.read(&mut rest), 3);
    assert_eq!(rest, [3, 4, 5, 9]);
    assert_eq!(reader.total_read(), 5);
    assert_eq!(reader.read(&mut rest), 0);
    assert_eq!(rest, [3, 4, 5, 9]);
}

#[test]
fn integers_are_big_endian() {
    let data = [
        0x12, 0x34, 0xff, 0xfe, 0xde, 0xad, 0xbe, 0xef, 0xff, 0xff, 0xff, 0xff, 0xff, 0xff, 0xff,
        0xfd, 0x80, 0x7f,
    ];
    let mut reader = SliceReader::new(&data);
    assert_eq!(reader.read_u16(), Ok(0x1234));
    assert_eq!(reader.read_i16(), Ok(-2));
    assert_eq!(reader.read_u32(), Ok(0xdead_beef));
    assert_eq!(reader.read_i64(), Ok(-3));
    assert_eq!(reader.read_u8(), Ok(0x80));
    assert_eq!(reader.read_u8(), Ok(0x7f));
    assert_eq!(reader.read_u8(), Err(CoreReadError::UnexpectedEnd(1)));
}

#[test]
fn signed_extremes() {
    let data = [0x80, 0x00, 0x7f, 0xff, 0x80, 0, 0, 0, 0, 0, 0, 0, 0x7f, 0xff, 0xff, 0xff, 0xff, 0xff, 0xff, 0xff];
    let mut reader = SliceReader::new(&data);
    assert_eq!(reader.read_i16(), Ok(i16::MIN));
    assert_eq!(reader.read_i16(), Ok(i16::MAX));
    assert_eq!(reader.read_i64(), Ok(i64::MIN));
    assert_eq!(reader.read_i64(), Ok(i64::MAX));
}

#[test]
fn short_reads_tell_what_is_missing() {
    let data = [1u8, 2, 3];
    let mut reader = SliceReader::new(&data);
    assert_eq!(reader.read_u32(), Err(CoreReadError::UnexpectedEnd(1)));
    assert_eq!(reader.total_read(), 3);
    let mut reader = SliceReader::new(&data);
    assert_eq!(reader.read_i64(), Err(CoreReadError::UnexpectedEnd(5)));
    let mut reader = SliceReader::new(&data);
    assert_eq!(reader.read_u16(), Ok(0x0102));
    assert_eq!(reader.read_u16(), Err(CoreReadError::UnexpectedEnd(1)));
    let mut reader = SliceReader::new(&data);
    assert_eq!(reader.read_u16(), Ok(0x0102));
    assert_eq!(reader.read_i16(), Err(CoreReadError::UnexpectedEnd(1)));
}

#[test]
fn skip_discards_or_fails() {
    let data = [1u8, 2, 3, 4, 5, 6];
    let mut reader = SliceReader::new(&data);
    assert_eq!(reader.skip(0), Ok(0));
    assert_eq!(reader.skip(4), Ok(4));
    assert_eq!(reader.read_u8(), Ok(5));
    assert_eq!(reader.skip(3), Err(CoreReadError::UnexpectedEnd(2)));
    assert_eq!(reader.total_read(), 6);
}

#[test]
fn tracking_reader_counts_from_zero() {
    let data = [1u8, 2, 3, 4, 5, 6];
    let mut source = SliceReader::new(&data);
    assert_eq!(source.read_u16(), Ok(0x0102));
    let mut tracker = TrackingReader::new(source);
    assert_eq!(tracker.total_read(), 0);
    assert_eq!(tracker.read_u16(), Ok(0x0304));
    assert_eq!(tracker.skip(1), Ok(1));
    assert_eq!(tracker.total_read(), 3);
    let (count, mut source) = tracker.finish();
    assert_eq!(count, 3);
    assert_eq!(source.total_read(), 5);
    assert_eq!(source.read_u8(), Ok(6));
}

fn checksum_of(data: &[u8]) -> u32 {
    let mut reader = ChecksumReader::new(SliceReader::new(data));
    assert_eq!(reader.skip(data.len()), Ok(data.len()));
    reader.finish().0
}

#[test]
fn checksum_sums_big_endian_words() {
    assert_eq!(checksum_of(&[]), 0);
    assert_eq!(checksum_of(&[0, 0, 0, 1]), 1);
    assert_eq!(checksum_of(&[0, 0, 0, 1, 0, 0, 0, 2]), 3);
    assert_eq!(checksum_of(&[0x12, 0x34, 0x56, 0x78]), 0x1234_5678);
    assert_eq!(
        checksum_of(&[0xff, 0xff, 0xff, 0xff, 0, 0, 0, 2]),
        1,
        "the sum wraps around"
    );
}

#[test]
fn checksum_pads_the_last_word_with_zeroes() {
    assert_eq!(checksum_of(&[0xab]), 0xab00_0000);
    assert_eq!(checksum_of(&[0xab, 0xcd]), 0xabcd_0000);
    assert_eq!(checksum_of(&[0xab, 0xcd, 0xef]), 0xabcd_ef00);
    assert_eq!(checksum_of(&[0, 0, 0, 1, 0x80]), 0x8000_0001);
    assert_eq!(checksum_of(&[0, 0, 0, 1, 0, 0, 0x01]), 0x0000_0101);
}

#[test]
fn checksum_is_the_same_each_time() {
    let data: Vec<u8> = (0u16..100).map(|v| (v * 7 % 251) as u8).collect();
    assert_eq!(checksum_of(&data), checksum_of(&data));
    assert_eq!(checksum_of(&data[3..50]), checksum_of(&data[3..50]));
}

#[test]
fn checksum_changes_with_any_single_byte() {
    let data: Vec<u8> = (0u16..23).map(|v| (v * 11 % 256) as u8).collect();
    let before = checksum_of(&data);
    for i in 0..data.len() {
        for delta in [1u8, 0x80, 0xff] {
            let mut changed = data.clone();
            changed[i] = changed[i].wrapping_add(delta);
            assert_ne!(checksum_of(&changed), before, "byte {i} plus {delta}");
        }
    }
}

#[test]
fn checksum_reader_counts_and_passes_bytes_on() {
    let data = [0u8, 0, 0, 5, 0, 0, 0, 7, 9, 9];
    let mut reader = ChecksumReader::new(SliceReader::new(&data));
    assert_eq!(reader.read_u32(), Ok(5));
    assert_eq!(reader.total_read(), 4);
    assert_eq!(reader.read_u32(), Ok(7));
    let (sum, mut source) = reader.finish();
    assert_eq!(sum, 12);
    assert_eq!(source.total_read(), 8);
    assert_eq!(source.read_u16(), Ok(0x0909));
}

#[test]
fn finish_reads_nothing() {
    let data = [1u8, 2, 3, 4, 5, 6, 7, 8];
    let mut reader = ChecksumReader::new(SliceReader::new(&data));
    assert_eq!(reader.skip(5), Ok(5));
    let (sum, source) = reader.finish();
    assert_eq!(sum, 0x0102_0304u32.wrapping_add(0x0500_0000));
    assert_eq!(source.total_read(), 5);
}

#[test]
fn scoped_reader_ends_at_its_limit() {
    let data = [0u8, 1, 0, 2, 0, 3, 0, 4];
    let mut reader = ChecksumReader::scoped(SliceReader::new(&data), 5);
    assert_eq!(reader.read_u16(), Ok(1));
    assert_eq!(reader.read_u16(), Ok(2));
    assert_eq!(reader.read_u16(), Err(CoreReadError::UnexpectedEnd(1)));
    assert_eq!(reader.total_read(), 5);
    let mut buf = [7u8; 2];
    assert_eq!(reader.read(&mut buf), 0);
    assert_eq!(buf, [7, 7]);
    let (sum, mut source) = reader.finish();
    assert_eq!(sum, 0x0001_0002);
    assert_eq!(source.total_read(), 5);
    assert_eq!(source.read_u8(), Ok(3));
}

#[test]
fn scoped_reader_is_no_longer_than_its_source() {
    let data = [1u8, 2, 3];
    let mut reader = ChecksumReader::scoped(SliceReader::new(&data), 10);
    assert_eq!(reader.skip(10), Err(CoreReadError::UnexpectedEnd(7)));
    assert_eq!(reader.total_read(), 3);
    assert_eq!(reader.finish().0, 0x0102_0300);
}

#[test]
fn nested_checksum_readers_sum_from_their_own_start() {
    let data = [9u8, 0, 0, 0, 1, 0, 0, 0, 2, 5, 5, 5];
    let mut outer = ChecksumReader::new(SliceReader::new(&data));
    assert_eq!(outer.read_u8(), Ok(9));
    let mut inner = ChecksumReader::scoped(outer, 8);
    assert_eq!(inner.read_u32(), Ok(1));
    assert_eq!(inner.read_u32(), Ok(2));
    let (inner_sum, mut outer) = inner.finish();
    assert_eq!(inner_sum, 3);
    assert_eq!(outer.total_read(), 9);
    assert_eq!(outer.skip(3), Ok(3));
    assert_eq!(
        outer.finish().0,
        0x0900_0000u32.wrapping_add(0x0100_0000).wrapping_add(0x0205_0505)
    );
}
