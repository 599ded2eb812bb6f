use stardict::dict_content::DictContent;
use stardict::dict_index::IndexItem;
use stardict::sd_error::SdError;
use std::io::Write;

fn gzip(text: &[u8]) -> Vec<u8> {
    let mut encoder = flate2::write::GzEncoder::new(Vec::new(), flate2::Compression::default());
    encoder.write_all(text).unwrap();
    encoder.finish().unwrap()
}

fn at(offset: u64, length: u64) -> IndexItem {
    IndexItem { word: "w".to_string(), offset, length }
}

#[test]
fn content_get_cuts_out_the_bytes() {
    let content = DictContent::new("first\nsecond third".to_string());
    assert_eq!(content.len(), 18);
    assert_eq!(content.get(&at(0, 5)), "first");
    assert_eq!(content.get(&at(6, 6)), "second");
    assert_eq!(content.get(&at(13, 5)), "third");
    assert_eq!(content.get(&at(0, 18)), "first\nsecond third");
    assert_eq!(content.get(&at(18, 0)), "");
    assert_eq!(content.get(&at(3, 0)), "");
}

#[test]
fn content_get_counts_bytes_not_characters() {
    let content = DictContent::new("搜索 search é".to_string());
    assert_eq!(content.len(), 16);
    assert_eq!(content.get(&at(0, 6)), "搜索");
    assert_eq!(content.get(&at(3, 3)), "索");
    assert_eq!(content.get(&at(7, 6)), "search");
    assert_eq!(content.get(&at(14, 2)), "é");
}

#[test]
fn content_contains_what_lies_within() {
    let content = DictContent::new("搜索 search".to_string());
    assert!(content.contains(&at(0, 13)));
    assert!(content.contains(&at(13, 0)));
    assert!(content.contains(&at(0, 0)));
    assert!(content.contains(&at(6, 1)));
    assert!(!content.contains(&at(0, 14)));
    assert!(!content.contains(&at(13, 1)));
    assert!(!content.contains(&at(14, 0)));
    assert!(!content.contains(&at(u64::MAX, 1)));
    assert!(!content.contains(&at(1, u64::MAX)));
    assert!(!content.contains(&at(u64::MAX, u64::MAX)));
}

#[test]
fn content_contains_no_half_character() {
    let content = DictContent::new("搜索 search".to_string());
    assert!(!content.contains(&at(1, 2)));
    assert!(!content.contains(&at(0, 2)));
    assert!(!content.contains(&at(3, 2)));
    assert!(!content.contains(&at(2, 4)));
    assert!(content.contains(&at(3, 3)));
}

#[test]
fn content_is_inflated() {
    let mut content = DictContent::default();
    assert_eq!(content.len(), 0);
    content.read_from_bytes(&gzip("a definition, 定义".as_bytes())).unwrap();
    assert_eq!(content.len(), 20);
    assert_eq!(content.get(&at(2, 10)), "definition");
    assert_eq!(content.get(&at(14, 6)), "定义");
}

#[test]
fn content_of_an_empty_archive_is_empty() {
    let mut content = DictContent::default();
    content.read_from_bytes(&gzip(b"")).unwrap();
    assert_eq!(content.len(), 0);
    assert_eq!(content.get(&at(0, 0)), "");
    assert!(!content.contains(&at(0, 1)));
}

#[test]
fn content_is_appended_to() {
    let mut content = DictContent::new("one ".to_string());
    content.read_from_bytes(&gzip(b"two")).unwrap();
    assert_eq!(content.get(&at(0, 7)), "one two");
}

#[test]
fn content_that_is_no_gzip_is_an_error() {
    let mut content = DictContent::new("kept".to_string());
    assert!(matches!(content.read_from_bytes(b"plain text"), Err(SdError::IoError(_))));
    assert!(matches!(content.read_from_bytes(b""), Err(SdError::IoError(_))));
    let mut damaged = gzip(b"a long enough text to be damaged, a long enough text");
    let middle = damaged.len() / 2;
    damaged.truncate(middle);
    assert!(matches!(content.read_from_bytes(&damaged), Err(SdError::IoError(_))));
    assert_eq!(content.len(), 4);
    assert_eq!(content.get(&at(0, 4)), "kept");
}

#[test]
fn content_that_is_no_text_is_an_error() {
    let mut content = DictContent::default();
    assert!(matches!(
        content.read_from_bytes(&gzip(&[b'a', 0xff, 0xfe, b'b'])),
        Err(SdError::IoError(_))
    ));
    assert_eq!(content.len(), 0);
}

#[test]
fn content_try_get_tests_the_range_first() {
    let content = DictContent::new("搜索 search".to_string());
    assert_eq!(content.try_get(&at(7, 6)), Some("search"));
    assert_eq!(content.try_get(&at(0, 3)), Some("搜"));
    assert_eq!(content.try_get(&at(13, 0)), Some(""));
    assert_eq!(content.try_get(&at(7, 7)), None);
    assert_eq!(content.try_get(&at(1, 3)), None);
    assert_eq!(content.try_get(&at(u64::MAX, u64::MAX)), None);
}
