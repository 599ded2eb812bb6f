use crate::sd_error::{SdError, SdFault};
use crate::text::{decimal_number, parse_usize, str_eq};
use crate::util::{
    after_delimiter, lemma_len_until_within, len_until, ByteReader, OffsetWidth,
};
use vstd::prelude::*;
use vstd::slice::slice_to_vec;
use vstd::utf8::{decode_utf8, valid_utf8};

verus! {

/// The version of the format that a dictionary declares.
#[derive(Clone, Copy, Debug, PartialEq, Eq, Structural)]
pub enum DictVersion {
    /// No version, or one that is not known.
    Unknown,
    /// Version 2.4.2: offsets are 32 bits wide.
    V242,
    /// Version 3.0.0: offsets are as wide as the dictionary declares.
    V300,
}

/// The version that a version string names.
pub open spec fn version_named(value: Seq<char>) -> DictVersion {
    if value == "2.4.2"@ {
        DictVersion::V242
    } else if value == "3.0.0"@ {
        DictVersion::V300
    } else {
        DictVersion::Unknown
    }
}

impl<'a> From<&'a str> for DictVersion {
    fn from(value: &'a str) -> (version: Self) {
        if str_eq(value, "2.4.2") {
            DictVersion::V242
        } else if str_eq(value, "3.0.0") {
            DictVersion::V300
        } else {
            DictVersion::Unknown
        }
    }
}

impl<'a> vstd::std_specs::convert::FromSpecImpl<&'a str> for DictVersion {
    open spec fn obeys_from_spec() -> bool {
        true
    }

    open spec fn from_spec(value: &'a str) -> Self {
        version_named(value@)
    }
}

/// What the metadata file of a dictionary says.
#[derive(Debug, PartialEq, Eq)]
pub struct DictInfo {
    pub version: DictVersion,
    pub wordcount: usize,
    pub idxfilesize: usize,
    pub idxoffsetbits: usize,
    pub bookname: String,
    pub author: String,
    pub description: String,
    pub date: String,
    pub sametypesequence: String,
}

/// What a [`DictInfo`] says.
pub struct Info {
    pub version: DictVersion,
    pub wordcount: nat,
    pub idxfilesize: nat,
    pub idxoffsetbits: nat,
    pub bookname: Seq<char>,
    pub author: Seq<char>,
    pub description: Seq<char>,
    pub date: Seq<char>,
    pub sametypesequence: Seq<char>,
}

impl View for DictInfo {
    type V = Info;

    open spec fn view(&self) -> Info {
        Info {
            version: self.version,
            wordcount: self.wordcount as nat,
            idxfilesize: self.idxfilesize as nat,
            idxoffsetbits: self.idxoffsetbits as nat,
            bookname: self.bookname@,
            author: self.author@,
            description: self.description@,
            date: self.date@,
            sametypesequence: self.sametypesequence@,
        }
    }
}

/// The metadata of a dictionary of which nothing is known yet.
pub open spec fn unknown_info() -> Info {
    Info {
        version: DictVersion::Unknown,
        wordcount: 0,
        idxfilesize: 0,
        idxoffsetbits: 0,
        bookname: "unknown"@,
        author: "unknown"@,
        description: "unknown"@,
        date: "unknown"@,
        sametypesequence: "unknown"@,
    }
}

impl Default for DictInfo {
    fn default() -> (info: Self)
        ensures
            info@ == unknown_info(),
    {
        DictInfo {
            version: DictVersion::Unknown,
            wordcount: 0,
            idxfilesize: 0,
            idxoffsetbits: 0,
            bookname: "unknown".to_owned(),
            author: "unknown".to_owned(),
            description: "unknown".to_owned(),
            date: "unknown".to_owned(),
            sametypesequence: "unknown".to_owned(),
        }
    }
}

/// The number that the value of a numeric field spells, where it is one
/// that a `usize` holds; else the fault that names the field.
pub open spec fn number_field(value: Seq<char>, field: Seq<char>) -> Result<nat, SdFault> {
    match decimal_number(value) {
        Some(number) => if number <= usize::MAX {
            Ok(number)
        } else {
            Err(SdFault::ParseInfo(field))
        },
        None => Err(SdFault::ParseInfo(field)),
    }
}

/// `info` with one field set from its text. A field that is not known
/// changes nothing. A number that cannot be read, or a version that is not
/// known, is a fault that names the field.
pub open spec fn with_field(info: Info, field: Seq<char>, value: Seq<char>) -> Result<
    Info,
    SdFault,
> {
    if field == "version"@ {
        if version_named(value) == DictVersion::Unknown {
            Err(SdFault::ParseInfo("version"@))
        } else {
            Ok(Info { version: version_named(value), ..info })
        }
    } else if field == "wordcount"@ {
        match number_field(value, "wordcount"@) {
            Ok(number) => Ok(Info { wordcount: number, ..info }),
            Err(fault) => Err(fault),
        }
    } else if field == "idxfilesize"@ {
        match number_field(value, "idxfilesize"@) {
            Ok(number) => Ok(Info { idxfilesize: number, ..info }),
            Err(fault) => Err(fault),
        }
    } else if field == "idxoffsetbits"@ {
        match number_field(value, "idxoffsetbits"@) {
            Ok(number) => Ok(Info { idxoffsetbits: number, ..info }),
            Err(fault) => Err(fault),
        }
    } else if field == "bookname"@ {
        Ok(Info { bookname: value, ..info })
    } else if field == "author"@ {
        Ok(Info { author: value, ..info })
    } else if field == "description"@ {
        Ok(Info { description: value, ..info })
    } else if field == "date"@ {
        Ok(Info { date: value, ..info })
    } else if field == "sametypesequence"@ {
        Ok(Info { sametypesequence: value, ..info })
    } else {
        Ok(info)
    }
}

/// `info` as its version lets it stand. Without a version nothing stands.
/// Version 2.4.2 fixes the width of an offset at 32 bits, whatever was
/// declared. Version 3.0.0 takes the width that is declared, 32 or 64 bits;
/// while none is declared the width is 0.
pub open spec fn settled(info: Info) -> Result<Info, SdFault> {
    match info.version {
        DictVersion::V242 => Ok(Info { idxoffsetbits: 32, ..info }),
        DictVersion::V300 => if info.idxoffsetbits == 0 || info.idxoffsetbits == 32
            || info.idxoffsetbits == 64 {
            Ok(info)
        } else {
            Err(SdFault::ParseInfo("invalid idxoffsetbits"@))
        },
        DictVersion::Unknown => Err(SdFault::ParseInfo("no version info"@)),
    }
}

/// What `info` becomes when the line `field=value` is read.
pub open spec fn field_set(info: Info, field: Seq<char>, value: Seq<char>) -> Result<
    Info,
    SdFault,
> {
    match with_field(info, field, value) {
        Ok(changed) => settled(changed),
        Err(fault) => Err(fault),
    }
}

/// The width of the offsets in the index, as the metadata settles it.
pub open spec fn width_of(info: Info) -> Result<OffsetWidth, SdFault> {
    if info.version == DictVersion::Unknown {
        Err(SdFault::ParseInfo("no version info"@))
    } else if info.idxoffsetbits == 32 {
        Ok(OffsetWidth::Bits32)
    } else if info.idxoffsetbits == 64 {
        Ok(OffsetWidth::Bits64)
    } else {
        Err(SdFault::ParseInfo("invalid idxoffsetbits"@))
    }
}

/// The pattern of a metadata line: a key of word characters, an equals
/// sign, and a value that is not empty.
pub open spec fn info_pattern() -> Seq<char> {
    r"^(\w+)=(.+)$"@
}

/// Whether `Regex::new` accepts `pattern`.
pub uninterp spec fn regex_compiles(pattern: Seq<char>) -> bool;

/// What the first two groups of `pattern` capture in `line`: the texts of
/// group 1 and group 2 in the leftmost match, as `Regex::captures` finds
/// it. `None` where the pattern does not match the line, or matches
/// without both groups.
pub uninterp spec fn regex_pair(pattern: Seq<char>, line: Seq<char>) -> Option<
    (Seq<char>, Seq<char>),
>;

/// The texts that a pair of strings holds.
pub open spec fn pair_text(pair: Option<(String, String)>) -> Option<(Seq<char>, Seq<char>)> {
    match pair {
        Some((first, second)) => Some((first@, second@)),
        None => None,
    }
}

/// `Regex::new` compiles `pattern` or turns it down, and `Regex::captures`
/// on the compiled pattern finds in `line` what the first two groups
/// capture. The pattern is compiled at each call; a metadata file is a
/// dozen lines long.
#[verifier::external_body]
fn capture_pair(pattern: &str, line: &str) -> (found: Result<
    Option<(String, String)>,
    regex::Error,
>)
    ensures
        found is Ok <==> regex_compiles(pattern@),
        found matches Ok(pair) ==> pair_text(pair) == regex_pair(pattern@, line@),
{
    let regex = match regex::Regex::new(pattern) {
        Ok(regex) => regex,
        Err(error) => return Err(error),
    };
    match regex.captures(line) {
        Some(groups) => match (groups.get(1), groups.get(2)) {
            (Some(key), Some(value)) => Ok(
                Some((key.as_str().to_string(), value.as_str().to_string())),
            ),
            _ => Ok(None),
        },
        None => Ok(None),
    }
}

/// The first line of a text, without the line feed that ends it and
/// without a carriage return in front of that line feed. A last line
/// that no line feed ends keeps its carriage return.
pub open spec fn first_line(bytes: Seq<u8>) -> Seq<u8> {
    let line = bytes.take(len_until(bytes, 0x0a) as int);
    if line.len() < bytes.len() && line.len() > 0 && line.last() == 0x0d {
        line.drop_last()
    } else {
        line
    }
}

/// The key and the value that a line of the metadata file holds. A line
/// that is no UTF-8, or not of the form `key=value`, holds none and is
/// passed over. `Regex` is the fault where the regex engine turns the
/// pattern down.
pub open spec fn line_fields(line: Seq<u8>) -> Result<Option<(Seq<char>, Seq<char>)>, SdFault> {
    if !valid_utf8(line) {
        Ok(None)
    } else if !regex_compiles(info_pattern()) {
        Err(SdFault::Regex)
    } else {
        Ok(regex_pair(info_pattern(), decode_utf8(line)))
    }
}

/// What `info` becomes when the lines of a metadata file are read in their
/// order. The first line that cannot be read decides the fault.
pub open spec fn lines_read(info: Info, bytes: Seq<u8>) -> Result<Info, SdFault>
    decreases bytes.len(),
{
    if bytes.len() == 0 {
        Ok(info)
    } else {
        let rest = after_delimiter(bytes, 0x0a);
        match line_fields(first_line(bytes)) {
            Err(fault) => Err(fault),
            Ok(None) => lines_read(info, rest),
            Ok(Some((field, value))) => match field_set(info, field, value) {
                Ok(changed) => lines_read(changed, rest),
                Err(fault) => Err(fault),
            },
        }
    }
}

impl DictInfo {
    /// Reads the line `field=value` of a metadata file.
    ///
    /// Sets the field, then settles the width of an offset by the version
    /// that is known by then: a file declares its version before anything
    /// else. Where the line cannot be read the metadata stay as they are.
    pub fn set_field(&mut self, field: &str, value: &str) -> (outcome: Result<(), SdError>)
        ensures
            match outcome {
                Ok(()) => field_set(old(self)@, field@, value@) == Ok::<Info, SdFault>(
                    final(self)@,
                ),
                Err(error) => {
                    &&& field_set(old(self)@, field@, value@) == Err::<Info, SdFault>(error@)
                    &&& final(self)@ == old(self)@
                },
            },
    {
        let mut version = self.version;
        let mut idxoffsetbits = self.idxoffsetbits;
        let mut wordcount = self.wordcount;
        let mut idxfilesize = self.idxfilesize;
        let mut text: Option<String> = None;
        if str_eq(field, "version") {
            version = DictVersion::from(value);
            if version == DictVersion::Unknown {
                return Err(SdError::ParseInfoError("version"));
            }
        } else if str_eq(field, "wordcount") {
            match parse_usize(value) {
                Some(number) => {
                    wordcount = number;
                },
                None => {
                    return Err(SdError::ParseInfoError("wordcount"));
                },
            }
        } else if str_eq(field, "idxfilesize") {
            match parse_usize(value) {
                Some(number) => {
                    idxfilesize = number;
                },
                None => {
                    return Err(SdError::ParseInfoError("idxfilesize"));
                },
            }
        } else if str_eq(field, "idxoffsetbits") {
            match parse_usize(value) {
                Some(number) => {
                    idxoffsetbits = number;
                },
                None => {
                    return Err(SdError::ParseInfoError("idxoffsetbits"));
                },
            }
        } else if str_eq(field, "bookname") || str_eq(field, "author") || str_eq(
            field,
            "description",
        ) || str_eq(field, "date") || str_eq(field, "sametypesequence") {
            text = Some(value.to_owned());
        }
        match version {
            DictVersion::V242 => {
                idxoffsetbits = 32;
            },
            DictVersion::V300 => {
                if idxoffsetbits != 0 && idxoffsetbits != 32 && idxoffsetbits != 64 {
                    return Err(SdError::ParseInfoError("invalid idxoffsetbits"));
                }
            },
            DictVersion::Unknown => {
                return Err(SdError::ParseInfoError("no version info"));
            },
        }
        self.version = version;
        self.wordcount = wordcount;
        self.idxfilesize = idxfilesize;
        self.idxoffsetbits = idxoffsetbits;
        match text {
            Some(text) => {
                if str_eq(field, "bookname") {
                    self.bookname = text;
                } else if str_eq(field, "author") {
                    self.author = text;
                } else if str_eq(field, "description") {
                    self.description = text;
                } else if str_eq(field, "date") {
                    self.date = text;
                } else {
                    self.sametypesequence = text;
                }
            },
            None => {},
        }
        Ok(())
    }

    /// The width of the offsets in the index of this dictionary.
    ///
    /// Fails with `ParseInfoError` where the metadata name no version, or
    /// name version 3.0.0 without a width of 32 or 64 bits.
    pub fn offset_width(&self) -> (width: Result<OffsetWidth, SdError>)
        ensures
            match width {
                Ok(found) => width_of(self@) == Ok::<OffsetWidth, SdFault>(found),
                Err(error) => width_of(self@) == Err::<OffsetWidth, SdFault>(error@),
            },
    {
        if self.version == DictVersion::Unknown {
            Err(SdError::ParseInfoError("no version info"))
        } else if self.idxoffsetbits == 32 {
            Ok(OffsetWidth::Bits32)
        } else if self.idxoffsetbits == 64 {
            Ok(OffsetWidth::Bits64)
        } else {
            Err(SdError::ParseInfoError("invalid idxoffsetbits"))
        }
    }

    /// Reads a metadata file, line by line.
    ///
    /// A line of the form `key=value` sets a field, as [`DictInfo::set_field`]
    /// says; any other line is passed over. Reading ends at the first line
    /// that cannot be read, with its error, and the metadata then stay as
    /// they were before the file was read.
    pub fn read_from_bytes(&mut self, bytes: &[u8]) -> (outcome: Result<(), SdError>)
        ensures
            match outcome {
                Ok(()) => lines_read(old(self)@, bytes@) == Ok::<Info, SdFault>(final(self)@),
                Err(error) => {
                    &&& lines_read(old(self)@, bytes@) == Err::<Info, SdFault>(error@)
                    &&& final(self)@ == old(self)@
                },
            },
    {
        let mut info = self.copy();
        let mut reader = ByteReader::new(bytes);
        loop
            invariant
                *self == *old(self),
                lines_read(old(self)@, bytes@) == lines_read(info@, reader.remaining()),
            ensures
                reader.remaining().len() == 0,
            decreases reader.remaining().len(),
        {
            if reader.is_empty() {
                break ;
            }
            let ghost rest = reader.remaining();
            let (raw, ended) = reader.read_until(0x0a);
            let line = strip_return(raw, ended);
            proof {
                lemma_len_until_within(rest, 0x0a);
            }
            match String::from_utf8(slice_to_vec(line)) {
                Err(_) => {},
                Ok(text) => match capture_pair(r"^(\w+)=(.+)$", text.as_str()) {
                    Err(error) => {
                        return Err(SdError::RegexError(error));
                    },
                    Ok(None) => {},
                    Ok(Some((field, value))) => {
                        match info.set_field(field.as_str(), value.as_str()) {
                            Ok(()) => {},
                            Err(error) => {
                                return Err(error);
                            },
                        }
                    },
                },
            }
        }
        *self = info;
        Ok(())
    }

    /// A copy of the metadata.
    fn copy(&self) -> (same: Self)
        ensures
            same@ == self@,
    {
        DictInfo {
            version: self.version,
            wordcount: self.wordcount,
            idxfilesize: self.idxfilesize,
            idxoffsetbits: self.idxoffsetbits,
            bookname: self.bookname.clone(),
            author: self.author.clone(),
            description: self.description.clone(),
            date: self.date.clone(),
            sametypesequence: self.sametypesequence.clone(),
        }
    }
}

/// Drops the carriage return at the end of a line that a line feed ended.
fn strip_return(raw: &[u8], ended: bool) -> (line: &[u8])
    ensures
        line@ == if ended && raw@.len() > 0 && raw@.last() == 0x0d {
            raw@.drop_last()
        } else {
            raw@
        },
{
    let n: usize = raw.len();
    if ended && n > 0 && raw[n - 1] == 0x0d {
        vstd::slice::slice_subrange(raw, 0, n - 1)
    } else {
        raw
    }
}

} // verus!
