use crate::dict_index::{IndexEntry, IndexItem};
use crate::sd_error::{SdError, SdFault};
use std::io::Read;
use vstd::prelude::*;
use vstd::string::{StringExecFns, StringSliceAdditionalSpecFns};
use vstd::utf8::{
    decode_utf8, encode_utf8, encode_utf8_decode_utf8, encode_utf8_valid_utf8, is_char_boundary,
    is_char_boundary_iff_not_is_continuation_byte, is_char_boundary_start_end_of_seq,
    valid_utf8_split,
};

verus! {

/// The text that a gzip file holds: what inflating its first member gives,
/// where that is well-formed UTF-8. `None` where the file is no gzip file,
/// is damaged, or holds something else than UTF-8.
pub uninterp spec fn gunzip_text(bytes: Seq<u8>) -> Option<Seq<char>>;

/// `flate2::read::GzDecoder`, read to its end with `read_to_string`, gives
/// the text that the gzip file holds, and an error where it holds none.
#[verifier::external_body]
fn inflate(bytes: &[u8]) -> (text: Result<String, std::io::Error>)
    ensures
        match text {
            Ok(inflated) => gunzip_text(bytes@) == Some(inflated@),
            Err(_) => gunzip_text(bytes@) is None,
        },
{
    let mut inflated = String::new();
    match flate2::read::GzDecoder::new(bytes).read_to_string(&mut inflated) {
        Ok(_) => Ok(inflated),
        Err(error) => Err(error),
    }
}

/// Whether the bytes of `blob` from `offset` on, `length` of them, are a
/// piece of its text: the range lies within the blob and neither end of it
/// cuts a character in two.
pub open spec fn holds_range(blob: Seq<u8>, offset: nat, length: nat) -> bool {
    &&& offset + length <= blob.len()
    &&& is_char_boundary(blob, offset as int)
    &&& is_char_boundary(blob, (offset + length) as int)
}

/// The definition that `entry` addresses in a blob with the given text: the
/// bytes of the text from the offset of the entry on, as many as its length
/// says, read as text.
pub open spec fn definition_in(text: Seq<char>, entry: IndexEntry) -> Seq<char> {
    decode_utf8(
        encode_utf8(text).subrange(entry.offset as int, (entry.offset + entry.length) as int),
    )
}

/// The text of the definitions of a dictionary, all of them in one blob.
#[derive(Debug)]
pub struct DictContent {
    content: String,
}

impl View for DictContent {
    type V = Seq<char>;

    closed spec fn view(&self) -> Seq<char> {
        self.content@
    }
}

impl Default for DictContent {
    /// A blob without text.
    fn default() -> (blob: Self)
        ensures
            blob@ == Seq::<char>::empty(),
    {
        DictContent { content: String::new() }
    }
}

impl DictContent {
    /// The blob as bytes: its text in UTF-8. Index entries address these.
    pub open spec fn blob(&self) -> Seq<u8> {
        encode_utf8(self@)
    }

    /// Whether `entry` addresses a piece of the text.
    pub open spec fn holds(&self, entry: IndexEntry) -> bool {
        holds_range(self.blob(), entry.offset, entry.length)
    }

    /// The definition that `entry` addresses.
    pub open spec fn definition(&self, entry: IndexEntry) -> Seq<char> {
        definition_in(self@, entry)
    }

    /// A content blob with the given text.
    pub fn new(content: String) -> (blob: Self)
        ensures
            blob@ == content@,
    {
        DictContent { content }
    }

    /// Inflates a gzip file and appends its text to the blob. Where the file
    /// cannot be inflated to text the blob stays as it is.
    pub fn read_from_bytes(&mut self, bytes: &[u8]) -> (outcome: Result<(), SdError>)
        ensures
            match outcome {
                Ok(()) => gunzip_text(bytes@) matches Some(text) && final(self)@ == old(self)@
                    + text,
                Err(error) => {
                    &&& gunzip_text(bytes@) is None
                    &&& error@ == SdFault::Io
                    &&& final(self)@ == old(self)@
                },
            },
    {
        match inflate(bytes) {
            Ok(text) => {
                self.content.append(text.as_str());
                Ok(())
            },
            Err(error) => Err(SdError::IoError(error)),
        }
    }

    /// The length of the blob in bytes.
    pub fn len(&self) -> (length: usize)
        ensures
            length == self.blob().len(),
    {
        self.content.as_str().as_bytes().len()
    }

    /// Whether `item` addresses a piece of the text.
    pub fn contains(&self, item: &IndexItem) -> (held: bool)
        ensures
            held == self.holds(item@),
    {
        let text = self.content.as_str();
        let total: u64 = text.as_bytes().len() as u64;
        if item.offset > total || item.length > total - item.offset {
            return false;
        }
        let start: usize = item.offset as usize;
        let end: usize = (item.offset + item.length) as usize;
        text.is_char_boundary(start) && text.is_char_boundary(end)
    }

    /// The definition that `item` addresses, where it addresses a piece of
    /// the text, else nothing.
    pub fn try_get(&self, item: &IndexItem) -> (definition: Option<&str>)
        ensures
            match definition {
                Some(text) => self.holds(item@) && text@ == self.definition(item@),
                None => !self.holds(item@),
            },
    {
        if self.contains(item) {
            Some(self.get(item))
        } else {
            None
        }
    }

    /// The definition that `item` addresses.
    ///
    /// The item must address a piece of the text. A dictionary makes sure of
    /// that, for all its entries, when it is loaded.
    pub fn get(&self, item: &IndexItem) -> (definition: &str)
        requires
            self.holds(item@),
        ensures
            definition@ == self.definition(item@),
    {
        let text = self.content.as_str();
        let total: usize = text.as_bytes().len();
        let start: usize = item.offset as usize;
        let end: usize = (item.offset + item.length) as usize;
        let ghost blob = text.spec_bytes();
        proof {
            encode_utf8_valid_utf8(text@);
            valid_utf8_split(blob, end as int);
            let head = blob.subrange(0, end as int);
            if start < end {
                is_char_boundary_iff_not_is_continuation_byte(blob, start as int);
                is_char_boundary_iff_not_is_continuation_byte(head, start as int);
            } else {
                is_char_boundary_start_end_of_seq(head);
            }
        }
        let (head, _) = text.split_at(end);
        let (_, definition) = head.split_at(start);
        proof {
            encode_utf8_decode_utf8(definition@);
            assert(definition.spec_bytes() =~= blob.subrange(start as int, end as int));
        }
        definition
    }
}

} // verus!
