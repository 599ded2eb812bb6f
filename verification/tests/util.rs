use stardict::sd_error::SdError;
use stardict::text::{parse_usize, str_eq, word_less};
use stardict::util::{get_u32, read_u32, read_u64, read_uint, ByteReader, OffsetWidth};

#[test]
fn read_u32_is_big_endian() {
    let bytes = [0x00, 0x00, 0x00, 0x84, 0x12, 0x34, 0x56, 0x78, 0xff];
    let mut reader = ByteReader::new(&bytes);
    assert_eq!(read_u32(&mut reader).unwrap(), 132);
    assert_eq!(read_u32(&mut reader).unwrap(), 0x1234_5678);
    assert!(matches!(read_u32(&mut reader), Err(SdError::TruncatedIndex)));
    // a failed read takes nothing
    assert_eq!(reader.read_exact(1), Some(&bytes[8..]));
    assert!(reader.is_empty());
}

#[test]
fn read_u32_takes_the_largest_value() {
    let bytes = [0xff, 0xff, 0xff, 0xff];
    let mut reader = ByteReader::new(&bytes);
    assert_eq!(read_u32(&mut reader).unwrap(), 4_294_967_295);
    assert!(reader.is_empty());
}

#[test]
fn read_u64_is_big_endian() {
    let bytes = [0x01, 0x02, 0x03, 0x04, 0x05, 0x06, 0x07, 0x08, 0, 0, 0, 0, 0, 0, 0];
    let mut reader = ByteReader::new(&bytes);
    assert_eq!(read_u64(&mut reader).unwrap(), 0x0102_0304_0506_0708);
    assert!(matches!(read_u64(&mut reader), Err(SdError::TruncatedIndex)));
    assert!(!reader.is_empty());
}

#[test]
fn read_u64_takes_the_largest_value() {
    let bytes = [0xff; 8];
    let mut reader = ByteReader::new(&bytes);
    assert_eq!(read_u64(&mut reader).unwrap(), u64::MAX);
}

#[test]
fn read_uint_goes_by_the_width() {
    let bytes = [0, 0, 1, 0, 0, 0, 0, 0, 0, 0, 2, 1];
    let mut reader = ByteReader::new(&bytes);
    assert_eq!(read_uint(&mut reader, OffsetWidth::Bits32).unwrap(), 256);
    assert_eq!(read_uint(&mut reader, OffsetWidth::Bits64).unwrap(), 513);
    assert!(matches!(read_uint(&mut reader, OffsetWidth::Bits32), Err(SdError::TruncatedIndex)));
}

#[test]
fn get_u32_decodes_a_pair() {
    assert_eq!(get_u32(&[0, 0, 0, 0, 0, 0, 0, 132]), Some((0, 132)));
    assert_eq!(get_u32(&[0, 1, 0, 0, 0x80, 0, 0, 1]), Some((65536, 0x8000_0001)));
    assert_eq!(get_u32(&[0, 0, 0, 0, 0, 0, 0]), None);
    assert_eq!(get_u32(&[0, 0, 0, 0, 0, 0, 0, 0, 0]), None);
    assert_eq!(get_u32(&[]), None);
}

#[test]
fn reader_reads_until_the_delimiter() {
    let bytes = b"ab\0\0cd";
    let mut reader = ByteReader::new(bytes);
    assert_eq!(reader.read_until(0), (&b"ab"[..], true));
    assert_eq!(reader.read_until(0), (&b""[..], true));
    assert_eq!(reader.read_until(0), (&b"cd"[..], false));
    assert!(reader.is_empty());
    assert_eq!(reader.read_until(0), (&b""[..], false));
    let mut reader = ByteReader::new(bytes);
    assert_eq!(reader.read_until(b'd'), (&b"ab\0\0c"[..], true));
    assert!(reader.is_empty());
}

#[test]
fn reader_read_exact_takes_all_or_nothing() {
    let bytes = [1, 2, 3];
    let mut reader = ByteReader::new(&bytes);
    assert_eq!(reader.read_exact(4), None);
    assert_eq!(reader.read_exact(2), Some(&bytes[0..2]));
    assert_eq!(reader.read_exact(0), Some(&bytes[0..0]));
    assert_eq!(reader.read_exact(2), None);
    assert_eq!(reader.read_exact(1), Some(&bytes[2..3]));
    assert!(reader.is_empty());
}

#[test]
fn parse_usize_reads_decimal_numbers() {
    assert_eq!(parse_usize("0"), Some(0));
    assert_eq!(parse_usize("435468"), Some(435468));
    assert_eq!(parse_usize("+17"), Some(17));
    assert_eq!(parse_usize("007"), Some(7));
    assert_eq!(parse_usize(&usize::MAX.to_string()), Some(usize::MAX));
}

#[test]
fn parse_usize_turns_down_what_is_no_number() {
    assert_eq!(parse_usize(""), None);
    assert_eq!(parse_usize("+"), None);
    assert_eq!(parse_usize("-1"), None);
    assert_eq!(parse_usize("++1"), None);
    assert_eq!(parse_usize("1+"), None);
    assert_eq!(parse_usize("12a"), None);
    assert_eq!(parse_usize(" 12"), None);
    assert_eq!(parse_usize("12 "), None);
    assert_eq!(parse_usize("１２"), None);
    assert_eq!(parse_usize("340282366920938463463374607431768211456"), None);
    let too_large = format!("{}0", usize::MAX);
    assert_eq!(parse_usize(&too_large), None);
}

#[test]
fn parse_usize_agrees_with_std() {
    let samples = [
        "0", "1", "+1", "-0", "+0", "18446744073709551615", "18446744073709551616", "", "+", "a",
        "0x10", "1_000", "٣",
    ];
    for sample in samples {
        assert_eq!(parse_usize(sample), sample.parse::<usize>().ok(), "{sample:?}");
    }
}

#[test]
fn str_eq_compares_characters() {
    assert!(str_eq("", ""));
    assert!(str_eq("搜索", "搜索"));
    assert!(!str_eq("abc", "abd"));
    assert!(!str_eq("abc", "ab"));
    assert!(!str_eq("a", "A"));
}

#[test]
fn word_less_orders_as_str_does() {
    let words = ["", "a", "A", "ab", "abc", "b", "Z", "é", "搜索", "z", "zearch", "search"];
    for a in words {
        for b in words {
            assert_eq!(word_less(a, b), a < b, "{a:?} {b:?}");
        }
    }
}
