use stardict::dict_info::{DictInfo, DictVersion};
use stardict::sd_error::SdError;
use stardict::util::OffsetWidth;

const LANGDAO: &str = "StarDict's dict ifo file\n\
version=2.4.2\n\
wordcount=435468\n\
idxfilesize=10651674\n\
bookname=朗道英汉字典5.0\n\
author=上海朗道电脑科技发展有限公司\n\
description=罗小辉破解文件格式，胡正制作转换程序。\n\
date=2003.08.26\n\
sametypesequence=m\n";

fn named(outcome: Result<(), SdError>) -> &'static str {
    match outcome {
        Err(SdError::ParseInfoError(field)) => field,
        Err(_) => "another error",
        Ok(()) => "no error",
    }
}

fn with_version(version: &str) -> DictInfo {
    let mut info = DictInfo::default();
    info.set_field("version", version).unwrap();
    info
}

#[test]
fn ifo_read_ifo() {
    let mut ifo = DictInfo::default();
    ifo.read_from_bytes(LANGDAO.as_bytes()).unwrap();
    assert_eq!(ifo.version, DictVersion::from("2.4.2"));
    assert_eq!(ifo.wordcount, 435468);
    assert_eq!(ifo.idxfilesize, 10651674);
    assert_eq!(ifo.bookname, "朗道英汉字典5.0");
    assert_eq!(ifo.author, "上海朗道电脑科技发展有限公司");
    assert_eq!(ifo.description, "罗小辉破解文件格式，胡正制作转换程序。");
    assert_eq!(ifo.date, "2003.08.26");
    assert_eq!(ifo.sametypesequence, "m");
}

#[test]
fn dict_info_read_ifo() {
    let mut ifo = DictInfo::default();
    ifo.read_from_bytes(LANGDAO.as_bytes()).unwrap();

    assert_eq!(
        ifo,
        DictInfo {
            version: DictVersion::V242,
            wordcount: 435468,
            idxfilesize: 10651674,
            idxoffsetbits: 32,
            bookname: "朗道英汉字典5.0".into(),
            author: "上海朗道电脑科技发展有限公司".into(),
            description: "罗小辉破解文件格式，胡正制作转换程序。".into(),
            date: "2003.08.26".into(),
            sametypesequence: "m".into(),
        }
    )
}

#[test]
fn info_default_knows_nothing() {
    assert_eq!(
        DictInfo::default(),
        DictInfo {
            version: DictVersion::Unknown,
            wordcount: 0,
            idxfilesize: 0,
            idxoffsetbits: 0,
            bookname: "unknown".into(),
            author: "unknown".into(),
            description: "unknown".into(),
            date: "unknown".into(),
            sametypesequence: "unknown".into(),
        }
    );
}

#[test]
fn version_is_read_from_its_name() {
    assert_eq!(DictVersion::from("2.4.2"), DictVersion::V242);
    assert_eq!(DictVersion::from("3.0.0"), DictVersion::V300);
    assert_eq!(DictVersion::from("2.4.1"), DictVersion::Unknown);
    assert_eq!(DictVersion::from(""), DictVersion::Unknown);
    assert_eq!(DictVersion::from("3.0.0 "), DictVersion::Unknown);
}

#[test]
fn set_field_sets_each_field() {
    let mut info = with_version("3.0.0");
    info.set_field("wordcount", "12").unwrap();
    info.set_field("idxfilesize", "+345").unwrap();
    info.set_field("idxoffsetbits", "64").unwrap();
    info.set_field("bookname", "A Book").unwrap();
    info.set_field("author", "An Author").unwrap();
    info.set_field("description", "a=b").unwrap();
    info.set_field("date", "2003.08.26").unwrap();
    info.set_field("sametypesequence", "m").unwrap();
    info.set_field("website", "ignored").unwrap();
    assert_eq!(
        info,
        DictInfo {
            version: DictVersion::V300,
            wordcount: 12,
            idxfilesize: 345,
            idxoffsetbits: 64,
            bookname: "A Book".into(),
            author: "An Author".into(),
            description: "a=b".into(),
            date: "2003.08.26".into(),
            sametypesequence: "m".into(),
        }
    );
}

#[test]
fn set_field_wants_the_version_first() {
    for field in ["wordcount", "bookname", "idxoffsetbits", "website"] {
        let mut info = DictInfo::default();
        assert_eq!(named(info.set_field(field, "32")), "no version info");
        assert_eq!(info, DictInfo::default());
    }
}

#[test]
fn set_field_turns_down_an_unknown_version() {
    let mut info = DictInfo::default();
    assert_eq!(named(info.set_field("version", "2.4.3")), "version");
    assert_eq!(info, DictInfo::default());
    let mut info = with_version("2.4.2");
    assert_eq!(named(info.set_field("version", "")), "version");
    assert_eq!(info.version, DictVersion::V242);
}

#[test]
fn set_field_names_the_number_that_cannot_be_read() {
    for field in ["wordcount", "idxfilesize", "idxoffsetbits"] {
        for value in ["", "many", "-1", "1.5", "99999999999999999999999999"] {
            let mut info = with_version("2.4.2");
            assert_eq!(named(info.set_field(field, value)), field);
            assert_eq!(info, with_version("2.4.2"));
        }
    }
}

#[test]
fn set_field_fixes_the_width_of_the_old_version() {
    let mut info = with_version("2.4.2");
    assert_eq!(info.idxoffsetbits, 32);
    info.set_field("idxoffsetbits", "64").unwrap();
    assert_eq!(info.idxoffsetbits, 32);
    info.set_field("idxoffsetbits", "7").unwrap();
    assert_eq!(info.idxoffsetbits, 32);
    assert!(matches!(info.offset_width(), Ok(OffsetWidth::Bits32)));
}

#[test]
fn set_field_takes_the_declared_width_of_the_new_version() {
    let mut info = with_version("3.0.0");
    assert_eq!(info.idxoffsetbits, 0);
    info.set_field("idxoffsetbits", "32").unwrap();
    assert!(matches!(info.offset_width(), Ok(OffsetWidth::Bits32)));
    info.set_field("idxoffsetbits", "64").unwrap();
    assert!(matches!(info.offset_width(), Ok(OffsetWidth::Bits64)));
    assert_eq!(named(info.set_field("idxoffsetbits", "16")), "invalid idxoffsetbits");
    assert_eq!(info.idxoffsetbits, 64);
    info.set_field("bookname", "still fine").unwrap();
    assert_eq!(info.bookname, "still fine");
}

#[test]
fn set_field_checks_the_width_when_the_version_changes() {
    let mut info = with_version("2.4.2");
    info.set_field("version", "3.0.0").unwrap();
    assert_eq!(info.version, DictVersion::V300);
    assert_eq!(info.idxoffsetbits, 32);
}

#[test]
fn offset_width_wants_version_and_width() {
    let info = DictInfo::default();
    assert_eq!(named(info.offset_width().map(|_| ())), "no version info");
    let info = with_version("3.0.0");
    assert_eq!(named(info.offset_width().map(|_| ())), "invalid idxoffsetbits");
    let mut info = with_version("3.0.0");
    info.idxoffsetbits = 48;
    assert_eq!(named(info.offset_width().map(|_| ())), "invalid idxoffsetbits");
}

#[test]
fn read_passes_over_lines_that_are_no_fields() {
    let text = "StarDict's dict ifo file\n\nversion=2.4.2\n=empty key\nno equals sign\n\
                two words=1\nbookname=\nwordcount=3\n";
    let mut info = DictInfo::default();
    info.read_from_bytes(text.as_bytes()).unwrap();
    assert_eq!(info.wordcount, 3);
    assert_eq!(info.bookname, "unknown");
}

#[test]
fn read_splits_a_line_at_the_first_equals_sign() {
    let mut info = DictInfo::default();
    info.read_from_bytes(b"version=2.4.2\ndescription=a=b=c\nmy_key9=x\nbookname= spaced ").unwrap();
    assert_eq!(info.description, "a=b=c");
    assert_eq!(info.bookname, " spaced ");
}

#[test]
fn read_drops_the_carriage_return_before_a_line_feed() {
    let mut info = DictInfo::default();
    info.read_from_bytes(b"version=2.4.2\r\nbookname=Book\r\ndate=today\r").unwrap();
    assert_eq!(info.version, DictVersion::V242);
    assert_eq!(info.bookname, "Book");
    // no line feed ends the last line, so its carriage return stays
    assert_eq!(info.date, "today\r");
}

#[test]
fn read_passes_over_a_line_that_is_no_utf8() {
    let mut bytes = b"version=2.4.2\nbookname=".to_vec();
    bytes.extend_from_slice(&[0xff, 0xfe]);
    bytes.extend_from_slice(b"\nauthor=Somebody\n");
    let mut info = DictInfo::default();
    info.read_from_bytes(&bytes).unwrap();
    assert_eq!(info.bookname, "unknown");
    assert_eq!(info.author, "Somebody");
}

#[test]
fn read_ends_at_the_first_error() {
    let mut info = DictInfo::default();
    let outcome = info.read_from_bytes(b"version=2.4.2\nwordcount=x\nidxfilesize=y\n");
    assert_eq!(named(outcome), "wordcount");
    // a file that fails leaves nothing behind
    assert_eq!(info, DictInfo::default());
    let mut info = DictInfo::default();
    assert_eq!(named(info.read_from_bytes(b"bookname=Early\nversion=2.4.2\n")), "no version info");
    let mut info = DictInfo::default();
    assert_eq!(named(info.read_from_bytes(b"version=1.0\n")), "version");
}

#[test]
fn read_takes_word_characters_of_any_script_as_a_key() {
    // the line is a field of an unknown key, and no version is known yet
    let mut info = DictInfo::default();
    assert_eq!(named(info.read_from_bytes("名前=x\nversion=2.4.2\n".as_bytes())), "no version info");
    // a hyphen is no word character, so the line is no field
    let mut info = DictInfo::default();
    info.read_from_bytes(b"book-name=x\nversion=2.4.2\n").unwrap();
    assert_eq!(info.version, DictVersion::V242);
}

#[test]
fn read_of_an_empty_file_changes_nothing() {
    let mut info = DictInfo::default();
    info.read_from_bytes(b"").unwrap();
    assert_eq!(info, DictInfo::default());
    info.read_from_bytes(b"\n\n\n").unwrap();
    assert_eq!(info, DictInfo::default());
}

#[test]
fn read_new_version_with_wide_offsets() {
    let mut info = DictInfo::default();
    info.read_from_bytes(b"version=3.0.0\nbookname=Wide\nidxoffsetbits=64\nwordcount=1\n").unwrap();
    assert_eq!(info.version, DictVersion::V300);
    assert_eq!(info.idxoffsetbits, 64);
    assert!(matches!(info.offset_width(), Ok(OffsetWidth::Bits64)));
}
