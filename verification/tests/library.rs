use stardict::consult_option::ConsultOption;
use stardict::consult_result::ConsultResult;
use stardict::dictionary::{DictFiles, Dictionary};
use stardict::library::Library;
use stardict::sd_error::SdError;
use std::io::Write;

fn gzip(text: &[u8]) -> Vec<u8> {
    let mut encoder = flate2::write::GzEncoder::new(Vec::new(), flate2::Compression::default());
    encoder.write_all(text).unwrap();
    encoder.finish().unwrap()
}

/// A dictionary with the given entries, as it is loaded from its files.
fn load(name: &str, entries: &[(&str, &str)]) -> Result<Dictionary, SdError> {
    let ifo = format!("StarDict's dict ifo file\nversion=2.4.2\nbookname={name}\n");
    let mut idx = Vec::new();
    let mut text = String::new();
    for (word, definition) in entries {
        idx.extend_from_slice(word.as_bytes());
        idx.push(0);
        idx.extend_from_slice(&(text.len() as u32).to_be_bytes());
        idx.extend_from_slice(&(definition.len() as u32).to_be_bytes());
        text.push_str(definition);
    }
    Dictionary::new(ifo.as_bytes(), &idx, &gzip(text.as_bytes()))
}

const NEAR: [(&str, &str); 18] = [
    ("search", "to look for"),
    ("starch", "a carbohydrate"),
    ("march", "to walk in step"),
    ("perch", "a fish"),
    ("beach", "a shore"),
    ("teach", "to instruct"),
    ("reach", "to arrive at"),
    ("searched", "looked for"),
    ("searcher", "one who looks for"),
    ("searches", "looks for"),
    ("sear", "to scorch"),
    ("each", "every one"),
    ("earth", "the ground"),
    ("zeal", "eagerness"),
    ("arch", "a curved span"),
    ("搜索", "search"),
    ("a", "the first letter"),
    ("zoo", "a park of animals"),
];

fn stardict() -> Library {
    Library::new(vec![load("English", &NEAR)])
}

fn told(results: &[ConsultResult]) -> Vec<(String, String, String)> {
    results
        .iter()
        .map(|r| (r.dict.to_string(), r.word.to_string(), r.definition.to_string()))
        .collect()
}

#[test]
fn look_up_word() {
    let dicts = stardict();
    let mut option = ConsultOption::default();
    option.fuzzy = true;
    let found = dicts.consult("searches", &option);
    println!("{:?}", found);
    assert_eq!(found[0].word, "searches");
}

#[test]
fn look_up_exact() {
    let dicts = stardict();
    let mut option = ConsultOption::default();

    option.fuzzy = false;

    let consult_en = dicts.consult("search", &option);
    assert_eq!(1, consult_en.len());
    assert_eq!("search", consult_en[0].word);

    let consult_zh = dicts.consult("搜索", &option);
    assert_eq!(1, consult_zh.len());
    assert_eq!("搜索", consult_zh[0].word);
}

#[test]
fn look_up_fuzzy() {
    let dicts = stardict();
    let mut option = ConsultOption::default();

    option.fuzzy = true;
    option.max_dist = 3;

    let consult_en = dicts.consult("zearch", &option);
    assert_eq!(10, consult_en.len());
    assert_eq!("search", consult_en[0].word);
}

#[test]
fn look_up_fuzzy_ranks_the_nearest_first() {
    let dicts = stardict();
    let option = ConsultOption { fuzzy: true, parallel: false, max_dist: 3, max_item: 10 };
    let words: Vec<&str> = dicts.consult("zearch", &option).iter().map(|r| r.word).collect();
    assert_eq!(
        words,
        ["search", "arch", "beach", "each", "earth", "march", "perch", "reach", "starch", "teach"]
    );
    let all = ConsultOption { fuzzy: true, parallel: false, max_dist: 3, max_item: 100 };
    assert_eq!(dicts.consult("zearch", &all).len(), 15);
}

#[test]
fn default_option_is_exact_and_sequential() {
    let option = ConsultOption::default();
    assert!(!option.fuzzy);
    assert!(!option.parallel);
    assert_eq!(option.max_dist, 3);
    assert_eq!(option.max_item, 10);
}

#[test]
fn library_skips_a_dictionary_without_index() {
    let mut whole = DictFiles::new();
    whole.record("ifo", "good/a.ifo");
    whole.record("idx", "good/a.idx");
    whole.record("dz", "good/a.dict.dz");
    assert!(whole.complete().is_ok());
    let mut broken = DictFiles::new();
    broken.record("ifo", "bad/b.ifo");
    broken.record("dz", "bad/b.dict.dz");
    let missing = broken.complete().map(|_| load("never", &[]).unwrap());
    assert!(matches!(missing, Err(SdError::NoIdxError)));

    let library = Library::new(vec![load("Good", &[("search", "found")]), missing]);
    assert_eq!(library.dict_count(), 1);
    let results = library.consult("search", &ConsultOption::default());
    assert_eq!(told(&results), [("Good".to_string(), "search".to_string(), "found".to_string())]);
}

#[test]
fn library_keeps_the_dictionaries_that_loaded() {
    let library = Library::new(vec![
        Err(SdError::NoDzError),
        load("First", &[("a", "1")]),
        Err(SdError::TruncatedIndex),
        Dictionary::new(b"version=2.4.2\n", b"a", b""),
        load("Second", &[("a", "2")]),
        Err(SdError::NoIfoError),
    ]);
    assert_eq!(library.dict_count(), 2);
    let results = library.consult("A", &ConsultOption::default());
    let got: Vec<(&str, &str)> = results.iter().map(|r| (r.dict, r.definition)).collect();
    assert_eq!(got, [("First", "1"), ("Second", "2")]);
}

#[test]
fn library_without_dictionaries_answers_nothing() {
    let library = Library::new(Vec::new());
    assert_eq!(library.dict_count(), 0);
    assert!(library.consult("search", &ConsultOption::default()).is_empty());
    let option = ConsultOption { fuzzy: true, parallel: true, max_dist: 3, max_item: 10 };
    assert!(library.consult("search", &option).is_empty());
    let failed = Library::new(vec![Err(SdError::NoIdxError)]);
    assert_eq!(failed.dict_count(), 0);
    assert!(failed.consult("search", &option).is_empty());
}

#[test]
fn library_puts_the_answers_in_the_order_of_the_dictionaries() {
    let library = Library::new(vec![
        load("One", &[("tone", "a sound"), ("bone", "a part of the skeleton")]),
        load("Two", &[("stone", "a rock")]),
        load("Three", &[("bone", "os"), ("Bone", "a name")]),
    ]);
    let exact = library.consult("bone", &ConsultOption::default());
    let got: Vec<(&str, &str)> = exact.iter().map(|r| (r.dict, r.word)).collect();
    assert_eq!(got, [("One", "bone"), ("Three", "bone"), ("Three", "Bone")]);

    let option = ConsultOption { fuzzy: true, parallel: false, max_dist: 2, max_item: 1 };
    let fuzzy = library.consult("bone", &option);
    let got: Vec<(&str, &str)> = fuzzy.iter().map(|r| (r.dict, r.word)).collect();
    // the bound on the number of answers holds for each dictionary by itself
    assert_eq!(got, [("One", "bone"), ("Two", "stone"), ("Three", "Bone")]);
}

#[test]
fn parallel_and_sequential_answers_agree() {
    let mut loads = Vec::new();
    for i in 0..12 {
        let name = format!("Dictionary {i}");
        loads.push(load(&name, &NEAR[i..]));
    }
    let library = Library::new(loads);
    assert_eq!(library.dict_count(), 12);
    for (word, fuzzy) in [("zearch", true), ("search", false), ("EACH", false), ("zzzzzz", true)] {
        let sequential = ConsultOption { fuzzy, parallel: false, max_dist: 3, max_item: 10 };
        let parallel = ConsultOption { fuzzy, parallel: true, max_dist: 3, max_item: 10 };
        let one = told(&library.consult(word, &sequential));
        let other = told(&library.consult(word, &parallel));
        assert_eq!(one.len(), other.len());
        assert_eq!(one, other);
        let mut one_sorted = one.clone();
        let mut other_sorted = other.clone();
        one_sorted.sort();
        other_sorted.sort();
        assert_eq!(one_sorted, other_sorted);
    }
    let option = ConsultOption { fuzzy: true, parallel: true, max_dist: 3, max_item: 10 };
    let found = library.consult("zearch", &option);
    assert_eq!(found[0].dict, "Dictionary 0");
    assert_eq!(found[0].word, "search");
    assert_eq!(found.last().unwrap().dict, "Dictionary 11");
}

#[test]
fn library_is_repeatable() {
    let library = stardict();
    let option = ConsultOption { fuzzy: true, parallel: true, max_dist: 3, max_item: 5 };
    let first = told(&library.consult("zearch", &option));
    assert_eq!(first.len(), 5);
    for _ in 0..4 {
        assert_eq!(told(&library.consult("zearch", &option)), first);
    }
}

#[test]
fn errors_describe_themselves() {
    assert_eq!(SdError::NoDzError.describe(), "No .dz file in the dictionary directory");
    assert_eq!(SdError::NoIdxError.describe(), "No .idx file in the dictionary directory");
    assert_eq!(SdError::NoIfoError.describe(), "No .ifo file in the dictionary directory");
    assert_eq!(SdError::TruncatedIndex.describe(), "The .idx file ends inside a record");
    assert_eq!(
        SdError::EntryOutOfBounds.describe(),
        "An index entry points outside the dictionary content"
    );
    assert_eq!(SdError::ParseInfoError("version").describe(), "An error when parsing .ifo file");
    let io = SdError::from(std::io::Error::new(std::io::ErrorKind::NotFound, "gone"));
    assert!(matches!(io, SdError::IoError(_)));
    assert_eq!(io.describe(), "The error type of I/O operations.");
    let utf8 = SdError::from(String::from_utf8(vec![0xff]).unwrap_err());
    assert!(matches!(utf8, SdError::FromUtf8Error(_)));
    assert_eq!(
        utf8.describe(),
        "A possible error value when converting a String from a UTF-8 byte vector."
    );
    let pattern = SdError::from(regex::Regex::new("(").unwrap_err());
    assert!(matches!(pattern, SdError::RegexError(_)));
    assert_eq!(
        pattern.describe(),
        "An error that occurred during parsing or compiling a regular expression."
    );
}
