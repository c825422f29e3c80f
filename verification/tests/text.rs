use ksplang_opt::text::{int_to_letters, NumFmt, RangeFmt};

#[test]
fn letters() {
    assert_eq!(int_to_letters(0), "0");
    assert_eq!(int_to_letters(1), "A");
    assert_eq!(int_to_letters(26), "Z");
    assert_eq!(int_to_letters(27), "AA");
    assert_eq!(int_to_letters(28), "AB");
    assert_eq!(int_to_letters(52), "AZ");
    assert_eq!(int_to_letters(53), "BA");
    assert_eq!(int_to_letters(702), "ZZ");
    assert_eq!(int_to_letters(703), "AAA");
}

#[test]
fn small_numbers_in_decimal() {
    assert_eq!(NumFmt(0i64).to_string(), "0");
    assert_eq!(NumFmt(-1050i64).to_string(), "-1050");
    assert_eq!(NumFmt(1050i64).to_string(), "1050");
    assert_eq!(NumFmt(1051i64).to_string(), "1051");
    assert_eq!(NumFmt(200u64).to_string(), "200");
}

#[test]
fn bounds_by_name() {
    assert_eq!(NumFmt(i64::MIN).to_string(), "MIN");
    assert_eq!(NumFmt(i64::MAX).to_string(), "MAX");
    assert_eq!(NumFmt(i64::MIN + 5).to_string(), "MIN+5");
    assert_eq!(NumFmt(i64::MIN + 256).to_string(), "MIN+256");
    assert_eq!(NumFmt(i64::MAX - 256).to_string(), "MAX-256");
    assert_eq!(NumFmt(u64::MAX).to_string(), "MAX");
    assert_eq!(NumFmt(u64::MAX - 1).to_string(), "MAX-1");
}

#[test]
fn hex_when_shorter_in_digits() {
    assert_eq!(NumFmt(4096i64).to_string(), "0x1000");
    assert_eq!(NumFmt(-4096i64).to_string(), "-0x1000");
    assert_eq!(NumFmt(65535i64).to_string(), "0xFFFF");
    assert_eq!(NumFmt(1234567i64).to_string(), "0x12D687");
    assert_eq!(NumFmt(1000000i64).to_string(), "1000000");
    assert_eq!(NumFmt(1u64 << 40).to_string(), "0x10000000000");
    assert_eq!(NumFmt(i64::MIN + 257).to_string(), "-0x7FFFFFFFFFFFFEFF");
}

#[test]
fn ranges() {
    assert_eq!(RangeFmt(i64::MIN..=i64::MAX).to_string(), " ..= ");
    assert_eq!(RangeFmt(i64::MIN..=5).to_string(), " ..=5");
    assert_eq!(RangeFmt(0..=i64::MAX).to_string(), "0..= ");
    assert_eq!(RangeFmt(1..=4096i64).to_string(), "1..=0x1000");
    assert_eq!(RangeFmt(-3..=i64::MAX - 1).to_string(), "-3..=MAX-1");
    assert_eq!(RangeFmt(0u64..=u64::MAX).to_string(), " ..= ");
    assert_eq!(RangeFmt(7u64..=9).to_string(), "7..=9");
}

#[test]
fn letters_are_distinct() {
    let mut seen = std::collections::HashSet::new();
    for n in 0..3000u64 {
        assert!(seen.insert(int_to_letters(n)));
    }
}

#[test]
fn narrower_types() {
    assert_eq!(NumFmt(i8::MIN).to_string(), "-128");
    assert_eq!(NumFmt(u8::MAX).to_string(), "255");
    assert_eq!(NumFmt(u16::MAX).to_string(), "MAX");
    assert_eq!(NumFmt(i16::MIN + 1).to_string(), "MIN+1");
    assert_eq!(NumFmt(i32::MIN).to_string(), "MIN");
    assert_eq!(NumFmt(i32::MAX - 3).to_string(), "MAX-3");
    assert_eq!(NumFmt(u32::MAX - 300).to_string(), "0xFFFFFED3");
    assert_eq!(NumFmt(4096u32).to_string(), "0x1000");
    assert_eq!(RangeFmt(0u8..=255).to_string(), " ..= ");
    assert_eq!(RangeFmt(-128i8..=5).to_string(), " ..=5");
    assert_eq!(RangeFmt(-5i32..=i32::MAX).to_string(), "-5..= ");
    assert_eq!(RangeFmt(3u16..=65535).to_string(), "3..= ");
}
