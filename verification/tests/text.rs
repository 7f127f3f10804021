use glfont::types::{ValidType, UNIX_DIFF};

#[test]
fn numbers_print_in_decimal() {
    assert_eq!(ValidType::U8(0).to_string(), "0");
    assert_eq!(ValidType::U8(255).to_string(), "255");
    assert_eq!(ValidType::I8(-128).to_string(), "-128");
    assert_eq!(ValidType::U16(16384).to_string(), "16384");
    assert_eq!(ValidType::I16(-7).to_string(), "-7");
    assert_eq!(ValidType::U24(0x00ff_ffff).to_string(), "16777215");
    assert_eq!(ValidType::U32(0x5f0f_3cf5).to_string(), "1594834165");
    assert_eq!(ValidType::I32(i32::MIN).to_string(), "-2147483648");
    assert_eq!(ValidType::_USize(1_000_000).to_string(), "1000000");
    assert_eq!(ValidType::U16(10).try_to_string().as_deref(), Some("10"));
}

#[test]
fn fixed_point_numbers_print_with_their_fraction() {
    assert_eq!(ValidType::F16d16(0x0001_8000).to_string(), "1.5");
    assert_eq!(ValidType::F16d16(0x0001_0000).to_string(), "1");
    assert_eq!(ValidType::F16d16(-0x0000_4000).to_string(), "-0.25");
    assert_eq!(ValidType::F2d14(0x4000).to_string(), "1");
    assert_eq!(ValidType::F2d14(-0x2000).to_string(), "-0.5");
    assert_eq!(ValidType::F2d14(0x7000).to_string(), "1.75");
}

#[test]
fn times_count_from_1904() {
    assert_eq!(ValidType::Ldt(UNIX_DIFF).to_string(), "1970-01-01 00:00:00 UTC");
    assert_eq!(
        ValidType::Ldt(UNIX_DIFF + 1_431_648_000).to_string(),
        "2015-05-15 00:00:00 UTC"
    );
    assert_eq!(ValidType::Ldt(UNIX_DIFF - 1).to_string(), "1969-12-31 23:59:59 UTC");
    assert_eq!(
        ValidType::Ldt(UNIX_DIFF + 86_400 + 3_661).try_to_string().as_deref(),
        Some("1970-01-02 01:01:01 UTC")
    );
}

#[test]
fn tags_print_as_their_characters() {
    assert_eq!(ValidType::Tag(*b"head").to_string(), "head");
    assert_eq!(ValidType::Tag(*b"OS/2").to_string(), "OS/2");
    assert_eq!(ValidType::Tag([0x41, 0xe9, 0x20, 0x7e]).to_string(), "A\u{e9} ~");
}

#[test]
fn what_cannot_be_printed() {
    assert_eq!(ValidType::PVer(0x0001_0000).try_to_string(), None);
    assert_eq!(ValidType::Ldt(i64::MIN).try_to_string(), None);
    assert_eq!(ValidType::Ldt(i64::MIN + UNIX_DIFF - 1).try_to_string(), None);
    assert_eq!(ValidType::Ldt(i64::MIN + UNIX_DIFF).try_to_string(), None);
    assert_eq!(ValidType::Ldt(i64::MAX).try_to_string(), None);
}
