use crate::dict_index::IndexEntry;
use crate::sd_error::SdFault;
use crate::util::{
    after_delimiter, be_value, lemma_len_until, len_until, OffsetWidth,
};
use vstd::prelude::*;
use vstd::utf8::{
    decode_utf8, encode_utf8, encode_utf8_decode_utf8, encode_utf8_valid_utf8, valid_utf8,
};

verus! {

/// `parsed` with the entries `before` in front of it; a fault stays what it
/// is.
pub open spec fn preceded_by(
    before: Seq<IndexEntry>,
    parsed: Result<Seq<IndexEntry>, SdFault>,
) -> Result<Seq<IndexEntry>, SdFault> {
    match parsed {
        Ok(entries) => Ok(before + entries),
        Err(fault) => Err(fault),
    }
}

/// The entries that an index file holds.
///
/// The file is a row of records and nothing else. A record is a headword in
/// UTF-8, a zero byte, and two integers of the given width, most significant
/// byte first: the offset and the length of the definition. The first record
/// that is not of this form decides the fault: `FromUtf8` where its headword
/// is no UTF-8, else `TruncatedIndex` where the file ends before its two
/// integers do.
pub open spec fn parse_records(bytes: Seq<u8>, width: OffsetWidth) -> Result<
    Seq<IndexEntry>,
    SdFault,
>
    decreases bytes.len(),
{
    let word = bytes.take(len_until(bytes, 0) as int);
    let tail = after_delimiter(bytes, 0);
    let size = width.size() as int;
    if bytes.len() == 0 {
        Ok(Seq::empty())
    } else if !valid_utf8(word) {
        Err(SdFault::FromUtf8)
    } else if tail.len() < 2 * size {
        Err(SdFault::TruncatedIndex)
    } else {
        let entry = IndexEntry {
            word: decode_utf8(word),
            offset: be_value(tail.take(size)),
            length: be_value(tail.skip(size).take(size)),
        };
        preceded_by(seq![entry], parse_records(tail.skip(2 * size), width))
    }
}

/// The `size` bytes that spell `value` in base 256, most significant byte
/// first; the lowest `size` digits of it where it has more.
pub open spec fn be_bytes(value: nat, size: nat) -> Seq<u8>
    decreases size,
{
    if size == 0 {
        Seq::empty()
    } else {
        be_bytes(value / 256, (size - 1) as nat).push((value % 256) as u8)
    }
}

/// Whether `value` has at most `size` digits in base 256.
pub open spec fn fits(value: nat, size: nat) -> bool
    decreases size,
{
    if size == 0 {
        value == 0
    } else {
        fits(value / 256, (size - 1) as nat)
    }
}

/// The bytes of the record that holds `entry`.
pub open spec fn record_bytes(entry: IndexEntry, width: OffsetWidth) -> Seq<u8> {
    encode_utf8(entry.word) + seq![0u8] + be_bytes(entry.offset, width.size()) + be_bytes(
        entry.length,
        width.size(),
    )
}

/// The bytes of the index file that holds `entries`.
pub open spec fn index_bytes(entries: Seq<IndexEntry>, width: OffsetWidth) -> Seq<u8>
    decreases entries.len(),
{
    if entries.len() == 0 {
        Seq::empty()
    } else {
        record_bytes(entries.first(), width) + index_bytes(entries.drop_first(), width)
    }
}

/// Whether a record can hold `entry`: no zero byte stands in the UTF-8 of
/// its headword, and its offset and its length fit the width.
pub open spec fn recordable(entry: IndexEntry, width: OffsetWidth) -> bool {
    &&& !encode_utf8(entry.word).contains(0u8)
    &&& fits(entry.offset, width.size())
    &&& fits(entry.length, width.size())
}

/// The bytes that spell a number are as many as were asked for, and they
/// spell the number where it fits.
pub proof fn lemma_be_bytes(value: nat, size: nat)
    ensures
        be_bytes(value, size).len() == size,
        fits(value, size) ==> be_value(be_bytes(value, size)) == value,
    decreases size,
{
    if size > 0 {
        let high = be_bytes(value / 256, (size - 1) as nat);
        lemma_be_bytes(value / 256, (size - 1) as nat);
        assert(be_bytes(value, size).drop_last() =~= high);
    }
}

/// An index file is read back as it was written: the file that holds a row
/// of recordable entries decodes to these entries, in their order.
pub proof fn lemma_index_round_trip(entries: Seq<IndexEntry>, width: OffsetWidth)
    requires
        forall|i: int| 0 <= i < entries.len() ==> recordable(#[trigger] entries[i], width),
    ensures
        parse_records(index_bytes(entries, width), width) == Ok::<Seq<IndexEntry>, SdFault>(
            entries,
        ),
    decreases entries.len(),
{
    if entries.len() > 0 {
        let entry = entries.first();
        let rest = entries.drop_first();
        let size = width.size() as int;
        let word = encode_utf8(entry.word);
        let offset = be_bytes(entry.offset, width.size());
        let length = be_bytes(entry.length, width.size());
        let after = index_bytes(rest, width);
        let bytes = index_bytes(entries, width);
        assert(recordable(entry, width));
        lemma_index_round_trip(rest, width);
        lemma_be_bytes(entry.offset, width.size());
        lemma_be_bytes(entry.length, width.size());
        encode_utf8_valid_utf8(entry.word);
        encode_utf8_decode_utf8(entry.word);
        assert(bytes =~= word + seq![0u8] + offset + length + after);
        assert forall|i: int| 0 <= i < word.len() implies bytes[i] != 0 by {
            assert(word.contains(word[i]));
        }
        lemma_len_until(bytes, 0, word.len() as int);
        let tail = after_delimiter(bytes, 0);
        assert(bytes.take(word.len() as int) =~= word);
        assert(tail =~= offset + length + after);
        assert(tail.take(size) =~= offset);
        assert(tail.skip(size).take(size) =~= length);
        assert(tail.skip(2 * size) =~= after);
        assert(seq![entry] + rest =~= entries);
        let read = IndexEntry {
            word: decode_utf8(word),
            offset: be_value(tail.take(size)),
            length: be_value(tail.skip(size).take(size)),
        };
        assert(read == entry);
    } else {
        assert(entries =~= Seq::<IndexEntry>::empty());
    }
}

} // verus!
