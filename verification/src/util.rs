use crate::sd_error::{SdError, SdFault};
use vstd::prelude::*;
use vstd::slice::slice_subrange;

verus! {

/// The number that `bytes` spell in base 256, most significant byte first.
pub open spec fn be_value(bytes: Seq<u8>) -> nat
    decreases bytes.len(),
{
    if bytes.len() == 0 {
        0
    } else {
        be_value(bytes.drop_last()) * 256 + bytes.last() as nat
    }
}

/// The number of bytes of `bytes` that stand before the first `delimiter`;
/// all of them where it does not occur.
pub open spec fn len_until(bytes: Seq<u8>, delimiter: u8) -> nat
    decreases bytes.len(),
{
    if bytes.len() == 0 || bytes[0] == delimiter {
        0
    } else {
        1 + len_until(bytes.drop_first(), delimiter)
    }
}

/// The first delimiter stands within the sequence or at its end.
pub proof fn lemma_len_until_within(bytes: Seq<u8>, delimiter: u8)
    ensures
        len_until(bytes, delimiter) <= bytes.len(),
    decreases bytes.len(),
{
    if bytes.len() > 0 && bytes[0] != delimiter {
        lemma_len_until_within(bytes.drop_first(), delimiter);
    }
}

/// `len_until` is the first position of the delimiter: it is the only
/// `n` within the sequence before which no delimiter stands and at which
/// the sequence ends or holds one.
pub proof fn lemma_len_until(bytes: Seq<u8>, delimiter: u8, n: int)
    requires
        0 <= n <= bytes.len(),
        forall|i: int| 0 <= i < n ==> bytes[i] != delimiter,
        n < bytes.len() ==> bytes[n] == delimiter,
    ensures
        len_until(bytes, delimiter) == n,
    decreases bytes.len(),
{
    if n > 0 {
        assert(bytes[0] != delimiter);
        lemma_len_until(bytes.drop_first(), delimiter, n - 1);
    }
}

/// Four bytes spell their digits in base 256.
pub proof fn lemma_be_value_4(bytes: Seq<u8>)
    requires
        bytes.len() == 4,
    ensures
        be_value(bytes) == bytes[0] * 0x100_0000 + bytes[1] * 0x1_0000 + bytes[2] * 0x100
            + bytes[3],
{
    let b3 = bytes.drop_last();
    let b2 = b3.drop_last();
    let b1 = b2.drop_last();
    assert(be_value(b1.drop_last()) == 0);
    assert(be_value(b1) == bytes[0]);
    assert(be_value(b2) == bytes[0] * 0x100 + bytes[1]);
    assert(be_value(b3) == bytes[0] * 0x1_0000 + bytes[1] * 0x100 + bytes[2]);
}

/// To append four bytes is to shift by 32 bits and add what they spell.
pub proof fn lemma_be_value_append_4(high: Seq<u8>, low: Seq<u8>)
    requires
        low.len() == 4,
    ensures
        be_value(high + low) == be_value(high) * 0x1_0000_0000 + be_value(low),
{
    let all = high + low;
    let a3 = all.drop_last();
    let a2 = a3.drop_last();
    let a1 = a2.drop_last();
    assert(a1.drop_last() =~= high);
    assert(be_value(a1) == be_value(high) * 0x100 + low[0]);
    assert(be_value(a2) == be_value(a1) * 0x100 + low[1]);
    assert(be_value(a3) == be_value(a2) * 0x100 + low[2]);
    assert(be_value(all) == be_value(a3) * 0x100 + low[3]);
    lemma_be_value_4(low);
}

/// A cursor over the bytes of a file that was read into memory.
pub struct ByteReader<'a> {
    bytes: &'a [u8],
    pos: usize,
}

impl<'a> ByteReader<'a> {
    #[verifier::type_invariant]
    spec fn within(self) -> bool {
        self.pos <= self.bytes@.len()
    }

    /// The bytes that have not been read yet.
    pub closed spec fn remaining(self) -> Seq<u8> {
        self.bytes@.skip(self.pos as int)
    }

    /// A reader at the start of `bytes`.
    pub fn new(bytes: &'a [u8]) -> (reader: Self)
        ensures
            reader.remaining() == bytes@,
    {
        ByteReader { bytes, pos: 0 }
    }

    /// Whether every byte has been read.
    pub fn is_empty(&self) -> (empty: bool)
        ensures
            empty == (self.remaining().len() == 0),
    {
        proof {
            use_type_invariant(self);
        }
        self.pos == self.bytes.len()
    }

    /// Takes the next `n` bytes. Where fewer are left, none is taken.
    pub fn read_exact(&mut self, n: usize) -> (chunk: Option<&'a [u8]>)
        ensures
            match chunk {
                Some(taken) => {
                    &&& n <= old(self).remaining().len()
                    &&& taken@ == old(self).remaining().take(n as int)
                    &&& final(self).remaining() == old(self).remaining().skip(n as int)
                },
                None => {
                    &&& old(self).remaining().len() < n
                    &&& final(self).remaining() == old(self).remaining()
                },
            },
    {
        proof {
            use_type_invariant(&*self);
        }
        if self.bytes.len() - self.pos < n {
            return None;
        }
        let start: usize = self.pos;
        let taken = slice_subrange(self.bytes, start, start + n);
        self.pos = start + n;
        assert(taken@ =~= old(self).remaining().take(n as int));
        assert(self.remaining() =~= old(self).remaining().skip(n as int));
        Some(taken)
    }

    /// Takes the bytes that stand before the next `delimiter`, and the
    /// delimiter with them, which is not handed out. Where no delimiter is
    /// left, takes everything. Says also whether a delimiter was found.
    pub fn read_until(&mut self, delimiter: u8) -> (taken: (&'a [u8], bool))
        ensures
            taken.0@ == old(self).remaining().take(
                len_until(old(self).remaining(), delimiter) as int,
            ),
            taken.1 == (len_until(old(self).remaining(), delimiter) < old(self).remaining().len()),
            final(self).remaining() == after_delimiter(old(self).remaining(), delimiter),
    {
        proof {
            use_type_invariant(&*self);
        }
        let start: usize = self.pos;
        let mut end: usize = start;
        while end < self.bytes.len() && self.bytes[end] != delimiter
            invariant
                start <= end <= self.bytes@.len(),
                forall|i: int| start <= i < end ==> self.bytes@[i] != delimiter,
            decreases self.bytes@.len() - end,
        {
            end += 1;
        }
        proof {
            lemma_len_until(old(self).remaining(), delimiter, end - start);
        }
        let chunk = slice_subrange(self.bytes, start, end);
        let found: bool = end < self.bytes.len();
        if found {
            self.pos = end + 1;
        } else {
            self.pos = end;
        }
        assert(chunk@ =~= old(self).remaining().take((end - start) as int));
        assert(self.remaining() =~= after_delimiter(old(self).remaining(), delimiter));
        (chunk, found)
    }
}

/// What is left of `bytes` behind the first `delimiter`; nothing where it
/// does not occur.
pub open spec fn after_delimiter(bytes: Seq<u8>, delimiter: u8) -> Seq<u8> {
    let n = len_until(bytes, delimiter);
    if n < bytes.len() {
        bytes.skip(n as int + 1)
    } else {
        Seq::empty()
    }
}

/// Reads an unsigned 32-bit integer, most significant byte first.
///
/// Fails with `TruncatedIndex`, reading nothing, where fewer than four
/// bytes are left.
pub fn read_u32(reader: &mut ByteReader) -> (value: Result<u64, SdError>)
    ensures
        match value {
            Ok(number) => {
                &&& 4 <= old(reader).remaining().len()
                &&& number == be_value(old(reader).remaining().take(4))
                &&& final(reader).remaining() == old(reader).remaining().skip(4)
            },
            Err(error) => {
                &&& error@ == SdFault::TruncatedIndex
                &&& old(reader).remaining().len() < 4
                &&& final(reader).remaining() == old(reader).remaining()
            },
        },
{
    match reader.read_exact(4) {
        Some(bytes) => {
            proof {
                lemma_be_value_4(bytes@);
            }
            Ok(be_u32(bytes) as u64)
        },
        None => Err(SdError::TruncatedIndex),
    }
}

/// Reads an unsigned 64-bit integer, most significant byte first.
///
/// Fails with `TruncatedIndex`, reading nothing, where fewer than eight
/// bytes are left.
pub fn read_u64(reader: &mut ByteReader) -> (value: Result<u64, SdError>)
    ensures
        match value {
            Ok(number) => {
                &&& 8 <= old(reader).remaining().len()
                &&& number == be_value(old(reader).remaining().take(8))
                &&& final(reader).remaining() == old(reader).remaining().skip(8)
            },
            Err(error) => {
                &&& error@ == SdFault::TruncatedIndex
                &&& old(reader).remaining().len() < 8
                &&& final(reader).remaining() == old(reader).remaining()
            },
        },
{
    match reader.read_exact(8) {
        Some(bytes) => {
            let high = be_u32(slice_subrange(bytes, 0, 4));
            let low = be_u32(slice_subrange(bytes, 4, 8));
            proof {
                assert(bytes@ =~= bytes@.subrange(0, 4) + bytes@.subrange(4, 8));
                lemma_be_value_append_4(bytes@.subrange(0, 4), bytes@.subrange(4, 8));
            }
            Ok(high as u64 * 0x1_0000_0000 + low as u64)
        },
        None => Err(SdError::TruncatedIndex),
    }
}

/// Decodes the tail of a 32-bit index record: eight bytes that hold the
/// offset and the length of a definition, four bytes each, most significant
/// byte first. Any other number of bytes is no such tail.
pub fn get_u32(bytes: &[u8]) -> (pair: Option<(u32, u32)>)
    ensures
        match pair {
            Some((offset, length)) => {
                &&& bytes@.len() == 8
                &&& offset == be_value(bytes@.take(4))
                &&& length == be_value(bytes@.skip(4))
            },
            None => bytes@.len() != 8,
        },
{
    if bytes.len() == 8 {
        Some((be_u32(slice_subrange(bytes, 0, 4)), be_u32(slice_subrange(bytes, 4, 8))))
    } else {
        None
    }
}

/// The width of the two integers that close an index record.
#[derive(Clone, Copy, Debug, PartialEq, Eq, Structural)]
pub enum OffsetWidth {
    /// Four bytes each.
    Bits32,
    /// Eight bytes each.
    Bits64,
}

impl OffsetWidth {
    /// The number of bytes that one integer of this width takes.
    pub open spec fn size(self) -> nat {
        match self {
            OffsetWidth::Bits32 => 4,
            OffsetWidth::Bits64 => 8,
        }
    }
}

/// Reads an unsigned integer of the given width, most significant byte
/// first.
///
/// Fails with `TruncatedIndex`, reading nothing, where fewer bytes are left
/// than the width asks for.
pub fn read_uint(reader: &mut ByteReader, width: OffsetWidth) -> (value: Result<u64, SdError>)
    ensures
        match value {
            Ok(number) => {
                &&& width.size() <= old(reader).remaining().len()
                &&& number == be_value(old(reader).remaining().take(width.size() as int))
                &&& final(reader).remaining() == old(reader).remaining().skip(width.size() as int)
            },
            Err(error) => {
                &&& error@ == SdFault::TruncatedIndex
                &&& old(reader).remaining().len() < width.size()
                &&& final(reader).remaining() == old(reader).remaining()
            },
        },
{
    match width {
        OffsetWidth::Bits32 => read_u32(reader),
        OffsetWidth::Bits64 => read_u64(reader),
    }
}

/// The number that four bytes spell.
fn be_u32(bytes: &[u8]) -> (number: u32)
    requires
        bytes@.len() == 4,
    ensures
        number == be_value(bytes@),
{
    proof {
        lemma_be_value_4(bytes@);
    }
    let b0: u32 = bytes[0] as u32;
    let b1: u32 = bytes[1] as u32;
    let b2: u32 = bytes[2] as u32;
    let b3: u32 = bytes[3] as u32;
    b0 * 0x100_0000 + b1 * 0x1_0000 + b2 * 0x100 + b3
}

} // verus!
