use crate::consult_option::ConsultOption;
use crate::consult_result::{ConsultResult, ConsultResultView};
use crate::dict_content::{definition_in, gunzip_text, holds_range, DictContent};
use crate::dict_index::{
    entries_at, entries_of_refs, exact_positions, fuzzy_positions, lemma_exact_finds_only_matches,
    lemma_fuzzy_within_max_dist, DictIndex, IndexEntry, IndexItem,
};
use crate::index_format::parse_records;
use crate::dict_info::{lines_read, unknown_info, width_of, DictInfo, Info};
use crate::sd_error::{SdError, SdFault};
use crate::text::str_eq;
use vstd::prelude::*;
use vstd::utf8::encode_utf8;

verus! {

/// The three files that make a dictionary.
#[derive(Clone, Copy, Debug, PartialEq, Eq, Structural)]
pub enum FileClass {
    /// The compressed definitions, `.dz`.
    Content,
    /// The index of headwords, `.idx`.
    Index,
    /// The metadata, `.ifo`.
    Info,
}

/// The class of the file that a file name extension marks.
pub open spec fn class_of(extension: Seq<char>) -> Option<FileClass> {
    if extension == "dz"@ {
        Some(FileClass::Content)
    } else if extension == "idx"@ {
        Some(FileClass::Index)
    } else if extension == "ifo"@ {
        Some(FileClass::Info)
    } else {
        None
    }
}

/// The class of the file that a file name extension marks; `None` for a
/// file that is no part of a dictionary.
pub fn classify(extension: &str) -> (class: Option<FileClass>)
    ensures
        class == class_of(extension@),
{
    if str_eq(extension, "dz") {
        Some(FileClass::Content)
    } else if str_eq(extension, "idx") {
        Some(FileClass::Index)
    } else if str_eq(extension, "ifo") {
        Some(FileClass::Info)
    } else {
        None
    }
}

/// The files of a dictionary as they are found in its directory: for each
/// class the file that was seen last, if any was.
#[derive(Debug)]
pub struct DictFiles<T> {
    pub dz: Option<T>,
    pub idx: Option<T>,
    pub ifo: Option<T>,
}

impl<T> DictFiles<T> {
    /// No file seen yet.
    pub fn new() -> (files: Self)
        ensures
            files.dz is None,
            files.idx is None,
            files.ifo is None,
    {
        DictFiles { dz: None, idx: None, ifo: None }
    }

    /// Takes note of a file with the given extension. A file of a class that
    /// was seen before takes the place of the earlier one; a file of no class
    /// is passed over.
    pub fn record(&mut self, extension: &str, file: T)
        ensures
            final(self).dz == if class_of(extension@) == Some(FileClass::Content) {
                Some(file)
            } else {
                old(self).dz
            },
            final(self).idx == if class_of(extension@) == Some(FileClass::Index) {
                Some(file)
            } else {
                old(self).idx
            },
            final(self).ifo == if class_of(extension@) == Some(FileClass::Info) {
                Some(file)
            } else {
                old(self).ifo
            },
    {
        match classify(extension) {
            Some(FileClass::Content) => {
                self.dz = Some(file);
            },
            Some(FileClass::Index) => {
                self.idx = Some(file);
            },
            Some(FileClass::Info) => {
                self.ifo = Some(file);
            },
            None => {},
        }
    }

    /// The content file, the index file and the metadata file, in this
    /// order, where all three were seen. Else the error that names the first
    /// of them that is missing.
    pub fn complete(self) -> (files: Result<(T, T, T), SdError>)
        ensures
            match files {
                Ok((dz, idx, ifo)) => {
                    &&& self.dz == Some(dz)
                    &&& self.idx == Some(idx)
                    &&& self.ifo == Some(ifo)
                },
                Err(error) => {
                    &&& self.dz is None || self.idx is None || self.ifo is None
                    &&& error@ == (if self.dz is None {
                        SdFault::NoDz
                    } else if self.idx is None {
                        SdFault::NoIdx
                    } else {
                        SdFault::NoIfo
                    })
                },
            },
    {
        let dz = match self.dz {
            Some(dz) => dz,
            None => {
                return Err(SdError::NoDzError);
            },
        };
        let idx = match self.idx {
            Some(idx) => idx,
            None => {
                return Err(SdError::NoIdxError);
            },
        };
        let ifo = match self.ifo {
            Some(ifo) => ifo,
            None => {
                return Err(SdError::NoIfoError);
            },
        };
        Ok((dz, idx, ifo))
    }
}

/// Whether every entry addresses a piece of the text.
pub open spec fn all_held(entries: Seq<IndexEntry>, text: Seq<char>) -> bool {
    forall|i: int|
        0 <= i < entries.len() ==> holds_range(
            encode_utf8(text),
            (#[trigger] entries[i]).offset,
            entries[i].length,
        )
}

/// What the three files of a dictionary hold: its metadata, the entries of
/// its index and the text of its definitions.
///
/// The metadata are read first, for they say how wide the offsets in the
/// index are; then the index; then the content. At last every entry must
/// address a piece of the content. The first of these steps that fails
/// decides the fault.
pub open spec fn loaded(ifo: Seq<u8>, idx: Seq<u8>, dz: Seq<u8>) -> Result<
    (Info, Seq<IndexEntry>, Seq<char>),
    SdFault,
> {
    match lines_read(unknown_info(), ifo) {
        Err(fault) => Err(fault),
        Ok(info) => match width_of(info) {
            Err(fault) => Err(fault),
            Ok(width) => match parse_records(idx, width) {
                Err(fault) => Err(fault),
                Ok(entries) => match gunzip_text(dz) {
                    None => Err(SdFault::Io),
                    Some(text) => if all_held(entries, text) {
                        Ok((info, entries, text))
                    } else {
                        Err(SdFault::EntryOutOfBounds)
                    },
                },
            },
        },
    }
}

/// The answers that a row of results gives.
pub open spec fn answers_of(results: Seq<ConsultResult>) -> Seq<ConsultResultView> {
    results.map_values(|result: ConsultResult| result@)
}

/// One dictionary: its metadata, its index and its definitions.
///
/// Every entry of the index addresses a piece of the content. This is made
/// sure of when the dictionary is loaded, and nothing changes it afterwards.
#[derive(Debug)]
pub struct Dictionary {
    content: DictContent,
    index: DictIndex,
    info: DictInfo,
}

impl Dictionary {
    #[verifier::type_invariant]
    spec fn entries_held(self) -> bool {
        all_held(self.index@, self.content@)
    }

    /// The metadata.
    pub closed spec fn info(&self) -> Info {
        self.info@
    }

    /// The entries of the index, in the order of the index file.
    pub closed spec fn entries(&self) -> Seq<IndexEntry> {
        self.index@
    }

    /// The text of the definitions.
    pub closed spec fn text(&self) -> Seq<char> {
        self.content@
    }

    /// The answer that the dictionary gives under `entry`.
    pub open spec fn answer(&self, entry: IndexEntry) -> ConsultResultView {
        ConsultResultView {
            dict: self.info().bookname,
            word: entry.word,
            definition: definition_in(self.text(), entry),
        }
    }

    /// The positions of the entries that answer a query, in the order in
    /// which they are handed out.
    pub open spec fn consulted_positions(&self, query: Seq<char>, option: ConsultOption) -> Seq<
        int,
    > {
        if option.fuzzy {
            fuzzy_positions(
                self.entries(),
                query,
                option.max_dist as nat,
                option.max_item as nat,
            )
        } else {
            exact_positions(self.entries(), query)
        }
    }

    /// The answers that the dictionary gives to a query.
    pub open spec fn consulted(&self, query: Seq<char>, option: ConsultOption) -> Seq<
        ConsultResultView,
    > {
        entries_at(self.entries(), self.consulted_positions(query, option)).map_values(
            |entry: IndexEntry| self.answer(entry),
        )
    }

    /// Makes a dictionary of the bytes of its three files: the metadata file,
    /// the index file and the content file.
    ///
    /// Fails with the error of the first step that fails: reading the
    /// metadata, settling the width of the offsets, decoding the index,
    /// inflating the content, and at last `EntryOutOfBounds` where an entry of
    /// the index addresses no piece of the content. In a dictionary that is
    /// handed out every entry lies within the content.
    pub fn new(ifo: &[u8], idx: &[u8], dz: &[u8]) -> (outcome: Result<Self, SdError>)
        ensures
            match outcome {
                Ok(dictionary) => {
                    &&& loaded(ifo@, idx@, dz@) == Ok::<(Info, Seq<IndexEntry>, Seq<char>), SdFault>(
                        (dictionary.info(), dictionary.entries(), dictionary.text()),
                    )
                    &&& forall|i: int|
                        0 <= i < dictionary.entries().len() ==> (#[trigger] dictionary.entries()[i]).offset
                            + dictionary.entries()[i].length <= encode_utf8(dictionary.text()).len()
                },
                Err(error) => loaded(ifo@, idx@, dz@) == Err::<
                    (Info, Seq<IndexEntry>, Seq<char>),
                    SdFault,
                >(error@),
            },
    {
        let mut info = DictInfo::default();
        match info.read_from_bytes(ifo) {
            Ok(()) => {},
            Err(error) => {
                return Err(error);
            },
        }
        let width = match info.offset_width() {
            Ok(width) => width,
            Err(error) => {
                return Err(error);
            },
        };
        let mut index = DictIndex::default();
        match index.read_from_bytes(idx, width) {
            Ok(()) => {},
            Err(error) => {
                return Err(error);
            },
        }
        assert(index@ =~= parse_records(idx@, width)->Ok_0);
        let mut content = DictContent::default();
        match content.read_from_bytes(dz) {
            Ok(()) => {},
            Err(error) => {
                return Err(error);
            },
        }
        assert(content@ =~= gunzip_text(dz@)->Some_0);
        let mut i: usize = 0;
        while i < index.len()
            invariant
                i <= index@.len(),
                lines_read(unknown_info(), ifo@) == Ok::<Info, SdFault>(info@),
                width_of(info@) == Ok::<crate::util::OffsetWidth, SdFault>(width),
                parse_records(idx@, width) == Ok::<Seq<IndexEntry>, SdFault>(index@),
                gunzip_text(dz@) == Some(content@),
                forall|k: int|
                    0 <= k < i ==> holds_range(
                        encode_utf8(content@),
                        (#[trigger] index@[k]).offset,
                        index@[k].length,
                    ),
            decreases index@.len() - i,
        {
            match index.get(i) {
                Some(item) => {
                    if !content.contains(item) {
                        assert(!holds_range(
                            encode_utf8(content@),
                            index@[i as int].offset,
                            index@[i as int].length,
                        ));
                        return Err(SdError::EntryOutOfBounds);
                    }
                },
                None => {},
            }
            i += 1;
        }
        Ok(Dictionary { content, index, info })
    }

    /// The metadata of the dictionary.
    pub fn metadata(&self) -> (info: &DictInfo)
        ensures
            info@ == self.info(),
    {
        &self.info
    }

    /// The index of the dictionary.
    pub fn headwords(&self) -> (index: &DictIndex)
        ensures
            index@ == self.entries(),
    {
        &self.index
    }

    /// Answers a query: an exact one with every entry whose headword is the
    /// query, letter case set aside; a fuzzy one with the entries whose
    /// headwords are closest to it. Each answer names the dictionary, gives
    /// the headword as the dictionary spells it, and the definition.
    pub fn consult<'a>(&'a self, word: &str, option: &ConsultOption) -> (results: Vec<
        ConsultResult<'a>,
    >)
        ensures
            answers_of(results@) == self.consulted(word@, *option),
    {
        proof {
            use_type_invariant(self);
            lemma_fuzzy_within_max_dist(
                self.index@,
                word@,
                option.max_dist as nat,
                option.max_item as nat,
            );
            lemma_exact_finds_only_matches(self.index@, word@);
        }
        let found = if option.fuzzy {
            self.index.consult_fuzzy(word, option)
        } else {
            self.index.consult_exact(word)
        };
        let ghost positions = self.consulted_positions(word@, *option);
        let ghost entries = entries_at(self.index@, positions);
        let mut results: Vec<ConsultResult<'a>> = Vec::new();
        let mut k: usize = 0;
        assert(answers_of(results@) =~= entries.take(0).map_values(
            |entry: IndexEntry| self.answer(entry),
        ));
        while k < found.len()
            invariant
                k <= found@.len(),
                entries_of_refs(found@) == entries,
                forall|j: int|
                    0 <= j < entries.len() ==> holds_range(
                        encode_utf8(self.content@),
                        (#[trigger] entries[j]).offset,
                        entries[j].length,
                    ),
                answers_of(results@) == entries.take(k as int).map_values(
                    |entry: IndexEntry| self.answer(entry),
                ),
            decreases found@.len() - k,
        {
            let item: &'a IndexItem = found[k];
            assert(item@ == entries[k as int]);
            let result = ConsultResult {
                dict: self.info.bookname.as_str(),
                word: item.word.as_str(),
                definition: self.content.get(item),
            };
            let ghost before = results@;
            results.push(result);
            proof {
                assert(result@ == self.answer(entries[k as int]));
                assert(entries.take(k + 1) =~= entries.take(k as int).push(entries[k as int]));
                assert(answers_of(results@) =~= answers_of(before).push(result@));
                assert(entries.take(k + 1).map_values(|entry: IndexEntry| self.answer(entry))
                    =~= entries.take(k as int).map_values(
                    |entry: IndexEntry| self.answer(entry),
                ).push(self.answer(entries[k as int])));
            }
            k += 1;
        }
        assert(entries.take(found@.len() as int) =~= entries);
        results
    }
}

} // verus!
