//! The decoder: one event at a time from a byte stream.

use vstd::prelude::*;
use vstd::slice::slice_subrange;
use crate::errors::Error;
use crate::format::{
    after_line, decode, float_line, get_text, has_line, int_or_bool, lemma_consumed_bounds, line,
    line_len, line_text, long_text, low32, put_text, second_line_len, text_counted, text_false,
    text_line, text_true, without_suffix, Decoded, NEWLINE,
};
use crate::scalar::{
    be_u64, i32_from_u32, i64_from_u64, le_i32, le_i64, le_u16, le_u32, le_u64, u16_from_le,
    u32_from_le, u64_from_be, u64_from_le,
};
use crate::text::{decimal_i64, from_utf8_ok, parse_i32, parse_i64};

verus! {

/// One decoded opcode. An event holds counts, lengths and numbers only: the
/// bytes of a string or bytes payload lie at the tail of the caller's
/// scratch buffer, and the event tells how many they are.
#[derive(Debug, Clone, Copy, PartialEq, Eq, Structural)]
#[allow(inconsistent_fields)]
pub enum Event {
    // Protocol identification
    Proto(u8),
    Frame(u64),
    // Stack manipulation
    Mark,
    Stop,
    Pop,
    PopMark,
    Dup,
    // Basic types
    /// Python's `None`.
    PyNone,
    Bool(bool),
    Int(i32),
    BinInt(i32),
    BinInt1(u8),
    BinInt2(u16),
    Long(i64),
    /// A binary float, as the bit pattern of an IEEE-754 double.
    Float(u64),
    /// A float written as text: `len` bytes of valid UTF-8 at the tail of
    /// the buffer, without the line feed.
    FloatText { len: usize },
    // Strings and bytes
    String { len: usize },
    BinString { len: i32 },
    ShortBinString { len: u8 },
    Unicode { len: usize },
    BinUnicode { len: i32 },
    ShortBinUnicode { len: u8 },
    BinUnicode8 { len: i64 },
    BinBytes { len: i32 },
    ShortBinBytes { len: u8 },
    /// Immutable bytes.
    BinBytes8 { len: u64 },
    /// A mutable byte array.
    ByteArray8 { len: u64 },
    // Collections
    EmptyTuple,
    Tuple,
    Tuple1,
    Tuple2,
    Tuple3,
    EmptyList,
    List,
    Append,
    Appends,
    EmptyDict,
    Dict,
    SetItem,
    SetItems,
    EmptySet,
    AdditItems,
    FrozenSet,
    // Memo operations
    Get(i32),
    BinGet(u8),
    LongBinGet(u32),
    Put(i32),
    BinPut(u8),
    LongBinPut(u32),
    Memoize,
    // Object construction
    Global { module_len: u32, name_len: u32 },
    StackGlobal,
    Reduce,
    Build,
    Inst { module_len: u32, name_len: u32 },
    Obj,
    NewObj,
    NewObjEx,
    // Persistent objects
    PersId { id_len: usize },
    BinPersId,
    // Extensions
    Ext1(u8),
    Ext2(u16),
    Ext4(u32),
    // Protocol 5
    NextBuffer,
    ReadonlyBuffer,
}

} // verus!

verus! {

/// A byte stream with its position cursor.
///
/// The reader stands at `offset()` in `source()`; what lies before is
/// consumed, what lies after is `remaining()`. `base()` is the position of
/// the source's first byte in the top-level stream, so that `position()` can
/// be compared between a reader and the readers split off from it.
pub struct Reader<'a> {
    data: &'a [u8],
    base: usize,
    off: usize,
}

impl<'a> Reader<'a> {
    #[verifier::type_invariant]
    spec fn well_formed(self) -> bool {
        &&& self.off <= self.data@.len()
        &&& self.base + self.data@.len() <= usize::MAX
    }

    /// All the bytes that this reader was made over.
    pub closed spec fn source(&self) -> Seq<u8> {
        self.data@
    }

    /// The position of the source's first byte in the top-level stream.
    pub closed spec fn base(&self) -> nat {
        self.base as nat
    }

    /// How many bytes of the source are consumed.
    pub closed spec fn offset(&self) -> nat {
        self.off as nat
    }

    /// The bytes that are not consumed yet.
    pub open spec fn remaining(&self) -> Seq<u8> {
        self.source().skip(self.offset() as int)
    }

    /// The position cursor: where the reader stands in the top-level stream.
    pub open spec fn position(&self) -> nat {
        self.base() + self.offset()
    }

    /// `self` is `before` after `n` more bytes were consumed.
    pub open spec fn follows(&self, before: &Self, n: nat) -> bool {
        &&& self.source() == before.source()
        &&& self.base() == before.base()
        &&& self.offset() == before.offset() + n
    }

    /// A reader at the start of `data`, with the cursor at zero.
    pub fn new(data: &'a [u8]) -> (reader: Self)
        ensures
            reader.source() == data@,
            reader.base() == 0,
            reader.offset() == 0,
    {
        let len: usize = data.len();
        assert(len == data@.len());
        Reader { data, base: 0, off: 0 }
    }

    /// A reader at the start of `data`, with the cursor at `start`.
    pub fn new_at(data: &'a [u8], start: usize) -> (reader: Self)
        requires
            start + data@.len() <= usize::MAX,
        ensures
            reader.source() == data@,
            reader.base() == start,
            reader.offset() == 0,
    {
        Reader { data, base: start, off: 0 }
    }

    /// The position cursor.
    pub fn pos(&self) -> (p: usize)
        ensures
            p == self.position(),
            self.offset() <= self.source().len(),
            self.base() + self.source().len() <= usize::MAX,
    {
        proof {
            use_type_invariant(self);
        }
        self.base + self.off
    }

    /// How many bytes are left.
    pub fn remaining_len(&self) -> (n: usize)
        ensures
            n == self.remaining().len(),
            self.offset() <= self.source().len(),
    {
        proof {
            use_type_invariant(self);
        }
        self.data.len() - self.off
    }

    /// Consumes the next `n` bytes and hands them out, or fails where fewer
    /// are left and consumes nothing.
    pub(crate) fn take(&mut self, n: usize) -> (r: Result<&'a [u8], Error>)
        ensures
            match r {
                Ok(bytes) => {
                    &&& old(self).offset() + n <= old(self).source().len()
                    &&& bytes@ == old(self).source().subrange(
                        old(self).offset() as int,
                        old(self).offset() + n,
                    )
                    &&& final(self).follows(old(self), n as nat)
                },
                Err(e) => {
                    &&& e == Error::Io
                    &&& old(self).offset() + n > old(self).source().len()
                    &&& final(self).follows(old(self), 0)
                },
            },
    {
        proof {
            use_type_invariant(&*self);
        }
        if n > self.data.len() - self.off {
            return Err(Error::Io);
        }
        let bytes = slice_subrange(self.data, self.off, self.off + n);
        self.off = self.off + n;
        Ok(bytes)
    }

    /// Reads one byte, or fails where none is left and consumes nothing.
    pub fn read_u8(&mut self) -> (r: Result<u8, Error>)
        ensures
            match r {
                Ok(v) => {
                    &&& old(self).offset() < old(self).source().len()
                    &&& v == old(self).source()[old(self).offset() as int]
                    &&& final(self).follows(old(self), 1)
                },
                Err(e) => {
                    &&& e == Error::Io
                    &&& old(self).offset() >= old(self).source().len()
                    &&& final(self).follows(old(self), 0)
                },
            },
    {
        let bytes = self.take(1)?;
        Ok(bytes[0])
    }

    /// Reads a little-endian `u16`, or fails where fewer than two bytes are
    /// left and consumes nothing.
    pub fn read_u16(&mut self) -> (r: Result<u16, Error>)
        ensures
            read_fixed(old(self), final(self), 2, r is Ok),
            r matches Ok(v) ==> v == le_u16(old(self).remaining()),
            r matches Err(e) ==> e == Error::Io,
    {
        let bytes = self.take(2)?;
        Ok(u16_from_le(bytes))
    }

    /// Reads a little-endian `u32`, or fails where fewer than four bytes
    /// are left and consumes nothing.
    pub fn read_u32(&mut self) -> (r: Result<u32, Error>)
        ensures
            read_fixed(old(self), final(self), 4, r is Ok),
            r matches Ok(v) ==> v == le_u32(old(self).remaining()),
            r matches Err(e) ==> e == Error::Io,
    {
        let bytes = self.take(4)?;
        Ok(u32_from_le(bytes))
    }

    /// Reads a little-endian `i32` in two's complement, or fails where
    /// fewer than four bytes are left and consumes nothing.
    pub fn read_i32(&mut self) -> (r: Result<i32, Error>)
        ensures
            read_fixed(old(self), final(self), 4, r is Ok),
            r matches Ok(v) ==> v == le_i32(old(self).remaining()),
            r matches Err(e) ==> e == Error::Io,
    {
        let bytes = self.take(4)?;
        Ok(i32_from_u32(u32_from_le(bytes)))
    }

    /// Reads a little-endian `u64`, or fails where fewer than eight bytes
    /// are left and consumes nothing.
    pub fn read_u64(&mut self) -> (r: Result<u64, Error>)
        ensures
            read_fixed(old(self), final(self), 8, r is Ok),
            r matches Ok(v) ==> v == le_u64(old(self).remaining()),
            r matches Err(e) ==> e == Error::Io,
    {
        let bytes = self.take(8)?;
        Ok(u64_from_le(bytes))
    }

    /// Reads a little-endian `i64` in two's complement, or fails where
    /// fewer than eight bytes are left and consumes nothing.
    pub fn read_i64(&mut self) -> (r: Result<i64, Error>)
        ensures
            read_fixed(old(self), final(self), 8, r is Ok),
            r matches Ok(v) ==> v == le_i64(old(self).remaining()),
            r matches Err(e) ==> e == Error::Io,
    {
        let bytes = self.take(8)?;
        Ok(i64_from_u64(u64_from_le(bytes)))
    }

    /// Reads a big-endian double and gives its bit pattern, or fails where
    /// fewer than eight bytes are left and consumes nothing.
    pub fn read_double(&mut self) -> (r: Result<u64, Error>)
        ensures
            read_fixed(old(self), final(self), 8, r is Ok),
            r matches Ok(v) ==> v == be_u64(old(self).remaining()),
            r matches Err(e) ==> e == Error::Io,
    {
        let bytes = self.take(8)?;
        Ok(u64_from_be(bytes))
    }

    /// Appends the next `len` bytes to `buf`, or fails where fewer are left
    /// and changes nothing.
    pub fn fill_buf(&mut self, len: usize, buf: &mut Vec<u8>) -> (r: Result<(), Error>)
        ensures
            read_fixed(old(self), final(self), len as nat, r is Ok),
            r is Ok ==> final(buf)@ == old(buf)@ + old(self).remaining().take(len as int),
            r matches Err(e) ==> e == Error::Io && final(buf)@ == old(buf)@,
    {
        let bytes = self.take(len)?;
        buf.extend_from_slice(bytes);
        assert(buf@ =~= old(buf)@ + old(self).remaining().take(len as int));
        Ok(())
    }

    /// Appends the next line to `buf`, line feed included, and tells its
    /// length. Where no line feed is left the line was cut off: nothing is
    /// appended and nothing consumed.
    pub fn fill_line(&mut self, buf: &mut Vec<u8>) -> (r: Result<usize, Error>)
        ensures
            r is Ok <==> has_line(old(self).remaining()),
            match r {
                Ok(n) => {
                    &&& n == line_len(old(self).remaining())
                    &&& final(self).follows(old(self), n as nat)
                    &&& final(buf)@ == old(buf)@ + line(old(self).remaining())
                },
                Err(e) => {
                    &&& e == Error::Io
                    &&& final(self).follows(old(self), 0)
                    &&& final(buf)@ == old(buf)@
                },
            },
            final(self).offset() <= final(self).source().len(),
    {
        proof {
            use_type_invariant(&*self);
        }
        let begin: usize = self.off;
        let total: usize = self.data.len();
        let mut end: usize = begin;
        let mut found: bool = false;
        while end < total && !found
            invariant
                begin <= end <= total,
                total == self.data@.len(),
                found ==> line_len(self.data@.skip(begin as int)) == end - begin,
                found ==> end > begin && self.data@[end - 1] == NEWLINE,
                !found ==> line_len(self.data@.skip(begin as int)) == (end - begin) + line_len(
                    self.data@.skip(end as int),
                ),
                !found && end > begin ==> self.data@[end - 1] != NEWLINE,
            decreases total - end + (if found { 0int } else { 1int }),
        {
            let ghost tail = self.data@.skip(end as int);
            assert(tail.skip(1) =~= self.data@.skip(end + 1));
            if self.data[end] == NEWLINE {
                found = true;
            }
            end = end + 1;
        }
        if !found {
            return Err(Error::Io);
        }
        let bytes = slice_subrange(self.data, begin, end);
        buf.extend_from_slice(bytes);
        self.off = end;
        assert(buf@ =~= old(buf)@ + line(old(self).remaining()));
        Ok(end - begin)
    }

    /// Appends the next `len` bytes to `buf`, where `len` is a length as the
    /// stream declares it without a sign.
    fn fill_unsigned(&mut self, len: u64, buf: &mut Vec<u8>) -> (r: Result<(), Error>)
        ensures
            read_counted(old(self), final(self), len as int, r is Ok),
            r is Ok ==> final(buf)@ == old(buf)@ + old(self).remaining().take(len as int),
            r matches Err(e) ==> e == Error::Io && final(buf)@ == old(buf)@,
    {
        let left: usize = self.remaining_len();
        if len > left as u64 {
            return Err(Error::Io);
        }
        self.fill_buf(len as usize, buf)
    }

    /// Appends the next `len` bytes to `buf`, where `len` is a length as the
    /// stream declares it with a sign. A negative length cannot be met.
    fn fill_signed(&mut self, len: i64, buf: &mut Vec<u8>) -> (r: Result<(), Error>)
        ensures
            read_counted(old(self), final(self), len as int, r is Ok),
            r is Ok ==> final(buf)@ == old(buf)@ + old(self).remaining().take(len as int),
            r matches Err(e) ==> e == Error::Io && final(buf)@ == old(buf)@,
    {
        if len < 0 {
            return Err(Error::Io);
        }
        self.fill_unsigned(len as u64, buf)
    }

    /// Appends the next line to `buf` and tells where the line's text, the
    /// line without its line feed, ends there. Where no line feed is left
    /// nothing is appended and nothing consumed.
    fn fill_text(&mut self, buf: &mut Vec<u8>) -> (r: Result<usize, Error>)
        ensures
            r is Ok <==> has_line(old(self).remaining()),
            match r {
                Ok(end) => {
                    &&& final(self).follows(old(self), line_len(old(self).remaining()))
                    &&& final(buf)@ == old(buf)@ + line(old(self).remaining())
                    &&& end == final(buf)@.len() - 1
                    &&& old(buf)@.len() <= end
                    &&& final(buf)@.subrange(old(buf)@.len() as int, end as int) == line_text(
                        old(self).remaining(),
                    )
                },
                Err(e) => {
                    &&& e == Error::Io
                    &&& final(self).follows(old(self), 0)
                    &&& final(buf)@ == old(buf)@
                },
            },
    {
        self.fill_line(buf)?;
        let end: usize = buf.len() - 1;
        assert(buf@.subrange(old(buf)@.len() as int, end as int) =~= line_text(
            old(self).remaining(),
        ));
        Ok(end)
    }

    /// A payload of counted bytes behind a one-byte length: reads the
    /// length and appends the payload to `buf`.
    fn counted_u8(&mut self, buf: &mut Vec<u8>) -> (r: Result<u8, Error>)
        ensures
            read_payload(
                old(self),
                final(self),
                old(buf)@,
                final(buf)@,
                1,
                old(self).remaining()[0] as int,
                r is Ok,
            ),
            r matches Ok(len) ==> len == old(self).remaining()[0],
            r matches Err(e) ==> e == Error::Io,
    {
        proof {
            use_type_invariant(&*self);
        }
        let len: u8 = self.read_u8()?;
        self.fill_unsigned(len as u64, buf)?;
        assert(buf@ =~= old(buf)@ + old(self).remaining().subrange(1, 1 + len));
        Ok(len)
    }

    /// A payload of counted bytes behind a signed four-byte length.
    fn counted_i32(&mut self, buf: &mut Vec<u8>) -> (r: Result<i32, Error>)
        ensures
            read_payload(
                old(self),
                final(self),
                old(buf)@,
                final(buf)@,
                4,
                le_i32(old(self).remaining()) as int,
                r is Ok,
            ),
            r matches Ok(len) ==> len == le_i32(old(self).remaining()),
            r matches Err(e) ==> e == Error::Io,
    {
        proof {
            use_type_invariant(&*self);
        }
        let len: i32 = self.read_i32()?;
        self.fill_signed(len as i64, buf)?;
        assert(buf@ =~= old(buf)@ + old(self).remaining().subrange(4, 4 + len));
        Ok(len)
    }

    /// A payload of counted bytes behind a signed eight-byte length.
    fn counted_i64(&mut self, buf: &mut Vec<u8>) -> (r: Result<i64, Error>)
        ensures
            read_payload(
                old(self),
                final(self),
                old(buf)@,
                final(buf)@,
                8,
                le_i64(old(self).remaining()) as int,
                r is Ok,
            ),
            r matches Ok(len) ==> len == le_i64(old(self).remaining()),
            r matches Err(e) ==> e == Error::Io,
    {
        proof {
            use_type_invariant(&*self);
        }
        let len: i64 = self.read_i64()?;
        self.fill_signed(len, buf)?;
        assert(buf@ =~= old(buf)@ + old(self).remaining().subrange(8, 8 + len));
        Ok(len)
    }

    /// A payload of counted bytes behind an unsigned eight-byte length.
    fn counted_u64(&mut self, buf: &mut Vec<u8>) -> (r: Result<u64, Error>)
        ensures
            read_payload(
                old(self),
                final(self),
                old(buf)@,
                final(buf)@,
                8,
                le_u64(old(self).remaining()) as int,
                r is Ok,
            ),
            r matches Ok(len) ==> len == le_u64(old(self).remaining()),
            r matches Err(e) ==> e == Error::Io,
    {
        proof {
            use_type_invariant(&*self);
        }
        let len: u64 = self.read_u64()?;
        self.fill_unsigned(len, buf)?;
        assert(buf@ =~= old(buf)@ + old(self).remaining().subrange(8, 8 + len));
        Ok(len)
    }

    /// The payload of a text opcode: one line, read as `kind` says. The
    /// buffer is left as it was.
    fn text_event(&mut self, buf: &mut Vec<u8>, kind: TextKind, opcode: u8) -> (r: Result<
        Event,
        Error,
    >)
        ensures
            carried_out(
                old(self),
                final(self),
                old(buf)@,
                final(buf)@,
                r,
                text_line(
                    old(self).remaining(),
                    opcode,
                    text_meaning(kind, line_text(old(self).remaining())),
                ),
            ),
    {
        let start: usize = buf.len();
        let end: usize = self.fill_text(buf)?;
        let text = slice_subrange(buf.as_slice(), start, end);
        let event = parse_text(kind, text);
        buf.truncate(start);
        assert(buf@ =~= old(buf)@);
        match event {
            Some(event) => Ok(event),
            None => Err(Error::Protocol(opcode)),
        }
    }

    /// Reads `len` bytes of decimal text as a long integer, where `len` is
    /// the length that the stream declared for them. The buffer is left as
    /// it was.
    fn counted_long(&mut self, len: i64, opcode: u8, buf: &mut Vec<u8>) -> (r: Result<Event, Error>)
        ensures
            final(buf)@ == old(buf)@,
            read_counted(old(self), final(self), len as int, !(r matches Err(Error::Io))),
            r matches Err(e) ==> e == Error::Io || e == Error::Protocol(opcode),
            !(r matches Err(Error::Io)) ==> r == (match decimal_i64(
                old(self).remaining().take(len as int),
            ) {
                Some(v) => Ok::<Event, Error>(Event::Long(v)),
                None => Err(Error::Protocol(opcode)),
            }),
    {
        let start: usize = buf.len();
        self.fill_signed(len, buf)?;
        let text = slice_subrange(buf.as_slice(), start, buf.len());
        assert(text@ =~= old(self).remaining().take(len as int));
        let value = parse_i64(text);
        buf.truncate(start);
        assert(buf@ =~= old(buf)@);
        match value {
            Some(v) => Ok(Event::Long(v)),
            None => Err(Error::Protocol(opcode)),
        }
    }

    /// The payload of the long integer with a one-byte length.
    fn long1_event(&mut self, buf: &mut Vec<u8>) -> (r: Result<Event, Error>)
        ensures
            carried_out(
                old(self),
                final(self),
                old(buf)@,
                final(buf)@,
                r,
                text_counted(old(self).remaining(), 1, 0x8a, old(self).remaining()[0] as int),
            ),
    {
        proof {
            use_type_invariant(&*self);
        }
        let len: u8 = self.read_u8()?;
        assert(len <= self.remaining().len() ==> self.remaining().take(len as int) =~= old(
            self,
        ).remaining().subrange(1, 1 + len));
        self.counted_long(len as i64, 0x8a, buf)
    }

    /// The payload of the long integer with a four-byte length.
    fn long4_event(&mut self, buf: &mut Vec<u8>) -> (r: Result<Event, Error>)
        ensures
            carried_out(
                old(self),
                final(self),
                old(buf)@,
                final(buf)@,
                r,
                text_counted(
                    old(self).remaining(),
                    4,
                    0x8b,
                    le_i32(old(self).remaining()) as int,
                ),
            ),
    {
        proof {
            use_type_invariant(&*self);
        }
        let len: i32 = self.read_i32()?;
        assert(0 <= len <= self.remaining().len() ==> self.remaining().take(len as int) =~= old(
            self,
        ).remaining().subrange(4, 4 + len));
        self.counted_long(len as i64, 0x8b, buf)
    }

    /// The payload of the text float: one line, which goes to the buffer
    /// without its line feed where it is valid UTF-8.
    fn float_event(&mut self, buf: &mut Vec<u8>) -> (r: Result<Event, Error>)
        ensures
            carried_out(
                old(self),
                final(self),
                old(buf)@,
                final(buf)@,
                r,
                float_line(old(self).remaining()),
            ),
    {
        let start: usize = buf.len();
        let end: usize = self.fill_text(buf)?;
        let valid: bool = from_utf8_ok(slice_subrange(buf.as_slice(), start, end));
        if valid {
            buf.truncate(end);
            assert(buf@ =~= old(buf)@ + line_text(old(self).remaining()));
            Ok(Event::FloatText { len: end - start })
        } else {
            buf.truncate(start);
            assert(buf@ =~= old(buf)@);
            Err(Error::Str)
        }
    }

    /// Appends the next two lines to `buf` and gives the low 32 bits of
    /// their lengths. Where one of them lacks its line feed the buffer is
    /// left as it was, and the reader stands behind the lines that were
    /// whole.
    fn two_line_lens(&mut self, buf: &mut Vec<u8>) -> (r: Result<(u32, u32), Error>)
        ensures
            r is Ok <==> has_line(old(self).remaining()) && has_line(
                after_line(old(self).remaining()),
            ),
            match r {
                Ok(lens) => {
                    &&& lens.0 == low32(line_len(old(self).remaining()))
                    &&& lens.1 == low32(second_line_len(old(self).remaining()))
                    &&& final(self).follows(
                        old(self),
                        line_len(old(self).remaining()) + second_line_len(old(self).remaining()),
                    )
                    &&& final(buf)@ == old(buf)@ + old(self).remaining().take(
                        (line_len(old(self).remaining()) + second_line_len(
                            old(self).remaining(),
                        )) as int,
                    )
                },
                Err(e) => {
                    &&& e == Error::Io
                    &&& final(self).follows(
                        old(self),
                        if has_line(old(self).remaining()) {
                            line_len(old(self).remaining())
                        } else {
                            0
                        },
                    )
                    &&& final(buf)@ == old(buf)@
                },
            },
    {
        let ghost rest = self.remaining();
        let start: usize = buf.len();
        let first: u32 = wrap_u32(self.fill_line(buf)?);
        assert(self.remaining() =~= after_line(rest));
        let second: u32 = match self.fill_line(buf) {
            Ok(n) => wrap_u32(n),
            Err(e) => {
                buf.truncate(start);
                assert(buf@ =~= old(buf)@);
                return Err(e);
            },
        };
        assert(buf@ =~= old(buf)@ + rest.take((line_len(rest) + second_line_len(rest)) as int));
        Ok((first, second))
    }

    /// Decodes one opcode: the next event of the stream.
    ///
    /// The outcome is [`decode`] of the bytes that are left. The reader moves
    /// past what was used up, and the payload of a string or bytes event is
    /// appended to `buf`. Where no byte is left the event is `Stop`; where
    /// the stream ends inside a payload, be it counted bytes or a line that
    /// lacks its line feed, the outcome is `Error::Io`.
    pub fn read_event(&mut self, buf: &mut Vec<u8>) -> (r: Result<Event, Error>)
        ensures
            r == decode(old(self).remaining()).result,
            final(self).follows(old(self), decode(old(self).remaining()).consumed),
            final(self).offset() <= final(self).source().len(),
            final(buf)@ == old(buf)@ + decode(old(self).remaining()).payload,
    {
        proof {
            use_type_invariant(&*self);
            reveal(decode);
            lemma_consumed_bounds(self.remaining());
        }
        let ghost input = self.remaining();
        let ghost rest = input.skip(1);
        let opcode: u8 = match self.read_u8() {
            Ok(opcode) => opcode,
            Err(_) => {
                return Ok(Event::Stop);
            },
        };
        assert(self.remaining() =~= rest);
        match opcode {
            // Protocol identification
            0x80 => Ok(Event::Proto(self.read_u8()?)),
            // Stack manipulation
            0x28 => Ok(Event::Mark),
            0x2e => Ok(Event::Stop),
            0x30 => Ok(Event::Pop),
            0x31 => Ok(Event::PopMark),
            0x32 => Ok(Event::Dup),
            // Basic types
            0x4e => Ok(Event::PyNone),
            0x88 => Ok(Event::Bool(true)),
            0x89 => Ok(Event::Bool(false)),
            0x49 => self.text_event(buf, TextKind::IntOrBool, 0x49),
            0x4a => Ok(Event::BinInt(self.read_i32()?)),
            0x4b => Ok(Event::BinInt1(self.read_u8()?)),
            0x4d => Ok(Event::BinInt2(self.read_u16()?)),
            0x4c => self.text_event(buf, TextKind::Long, 0x4c),
            0x8a => self.long1_event(buf),
            0x8b => self.long4_event(buf),
            0x46 => self.float_event(buf),
            0x47 => Ok(Event::Float(self.read_double()?)),
            // Strings and bytes
            0x53 => Ok(Event::String { len: self.fill_line(buf)? }),
            0x54 => Ok(Event::BinString { len: self.counted_i32(buf)? }),
            0x55 => Ok(Event::ShortBinString { len: self.counted_u8(buf)? }),
            0x56 => Ok(Event::Unicode { len: self.fill_line(buf)? }),
            0x58 => Ok(Event::BinUnicode { len: self.counted_i32(buf)? }),
            0x8c => Ok(Event::ShortBinUnicode { len: self.counted_u8(buf)? }),
            0x8d => Ok(Event::BinUnicode8 { len: self.counted_i64(buf)? }),
            0x42 => Ok(Event::BinBytes { len: self.counted_i32(buf)? }),
            0x43 => Ok(Event::ShortBinBytes { len: self.counted_u8(buf)? }),
            0x8e => Ok(Event::BinBytes8 { len: self.counted_u64(buf)? }),
            0x96 => Ok(Event::ByteArray8 { len: self.counted_u64(buf)? }),
            // Collections
            0x29 => Ok(Event::EmptyTuple),
            0x74 => Ok(Event::Tuple),
            0x85 => Ok(Event::Tuple1),
            0x86 => Ok(Event::Tuple2),
            0x87 => Ok(Event::Tuple3),
            0x5d => Ok(Event::EmptyList),
            0x6c => Ok(Event::List),
            0x61 => Ok(Event::Append),
            0x65 => Ok(Event::Appends),
            0x7d => Ok(Event::EmptyDict),
            0x64 => Ok(Event::Dict),
            0x73 => Ok(Event::SetItem),
            0x75 => Ok(Event::SetItems),
            0x8f => Ok(Event::EmptySet),
            0x90 => Ok(Event::AdditItems),
            0x91 => Ok(Event::FrozenSet),
            // Memo operations
            0x67 => self.text_event(buf, TextKind::Get, 0x67),
            0x68 => Ok(Event::BinGet(self.read_u8()?)),
            0x6a => Ok(Event::LongBinGet(self.read_u32()?)),
            0x70 => self.text_event(buf, TextKind::Put, 0x70),
            0x71 => Ok(Event::BinPut(self.read_u8()?)),
            0x72 => Ok(Event::LongBinPut(self.read_u32()?)),
            0x94 => Ok(Event::Memoize),
            // Object construction
            0x63 => {
                let (module_len, name_len) = self.two_line_lens(buf)?;
                Ok(Event::Global { module_len, name_len })
            },
            0x93 => Ok(Event::StackGlobal),
            0x52 => Ok(Event::Reduce),
            0x62 => Ok(Event::Build),
            0x69 => {
                let (module_len, name_len) = self.two_line_lens(buf)?;
                Ok(Event::Inst { module_len, name_len })
            },
            0x6f => Ok(Event::Obj),
            0x81 => Ok(Event::NewObj),
            0x92 => Ok(Event::NewObjEx),
            // Persistent objects
            0x50 => Ok(Event::PersId { id_len: self.fill_line(buf)? }),
            0x51 => Ok(Event::BinPersId),
            // Extensions
            0x82 => Ok(Event::Ext1(self.read_u8()?)),
            0x83 => Ok(Event::Ext2(self.read_u16()?)),
            0x84 => Ok(Event::Ext4(self.read_u32()?)),
            // Protocol 4
            0x95 => Ok(Event::Frame(self.read_u64()?)),
            // Protocol 5
            0x97 => Ok(Event::NextBuffer),
            0x98 => Ok(Event::ReadonlyBuffer),
            _ => Err(Error::OpCode(opcode)),
        }
    }
}

/// `after` is `before` once a field of `width` bytes was read: past the
/// field where the stream held it whole, and unmoved where it did not.
pub open spec fn read_fixed(before: &Reader, after: &Reader, width: nat, ok: bool) -> bool {
    &&& ok <==> before.offset() + width <= before.source().len()
    &&& after.follows(before, if ok { width } else { 0 })
}

} // verus!

verus! {

/// The reader read a length of `width` bytes, which said `len`, and then
/// `len` bytes into the buffer; `ok` tells whether the stream held all of
/// them. Where it did not, the buffer is as it was, and the reader stands
/// behind the length if that much was there.
spec fn read_payload(
    before: &Reader,
    after: &Reader,
    buf_before: Seq<u8>,
    buf_after: Seq<u8>,
    width: nat,
    len: int,
    ok: bool,
) -> bool {
    let rest = before.remaining();
    &&& ok <==> width <= rest.len() && 0 <= len <= rest.len() - width
    &&& after.follows(
        before,
        if ok {
            (width + len) as nat
        } else if width <= rest.len() {
            width
        } else {
            0
        },
    )
    &&& buf_after == if ok {
        buf_before + rest.subrange(width as int, width + len)
    } else {
        buf_before
    }
}

/// `after` is `before` once `len` bytes were asked for, where `len` is a
/// length as the stream declares it: past them where the length can be met,
/// and unmoved where it cannot.
spec fn read_counted(before: &Reader, after: &Reader, len: int, ok: bool) -> bool {
    &&& ok <==> 0 <= len && before.offset() + len <= before.source().len()
    &&& after.follows(before, if ok { len as nat } else { 0 })
}

/// The opcodes whose payload is one line of decimal text.
#[derive(Clone, Copy, PartialEq, Eq, Structural)]
enum TextKind {
    /// The legacy integer, which also spells the booleans.
    IntOrBool,
    /// The long integer, which an `L` may end.
    Long,
    /// The memo id of a get.
    Get,
    /// The memo id of a put.
    Put,
}

/// What a line of text means under each of the text opcodes.
spec fn text_meaning(kind: TextKind, text: Seq<u8>) -> Option<Event> {
    match kind {
        TextKind::IntOrBool => int_or_bool(text),
        TextKind::Long => long_text(text),
        TextKind::Get => get_text(text),
        TextKind::Put => put_text(text),
    }
}

/// Reads a line of text under one of the text opcodes.
fn parse_text(kind: TextKind, text: &[u8]) -> (r: Option<Event>)
    ensures
        r == text_meaning(kind, text@),
{
    match kind {
        TextKind::IntOrBool => {
            if text.len() == 2 && text[0] == 0x30 && text[1] == 0x31 {
                assert(text@ =~= text_true());
                Some(Event::Bool(true))
            } else if text.len() == 2 && text[0] == 0x30 && text[1] == 0x30 {
                assert(text@ =~= text_false());
                Some(Event::Bool(false))
            } else {
                assert(text@ != text_true()) by {
                    if text@ == text_true() {
                        assert(text_true().len() == 2);
                        assert(text_true()[0] == 0x30 && text_true()[1] == 0x31);
                    }
                }
                assert(text@ != text_false()) by {
                    if text@ == text_false() {
                        assert(text_false().len() == 2);
                        assert(text_false()[0] == 0x30 && text_false()[1] == 0x30);
                    }
                }
                match parse_i32(text) {
                    Some(v) => Some(Event::Int(v)),
                    None => None,
                }
            }
        },
        TextKind::Long => {
            let n: usize = text.len();
            let digits = if n > 0 && text[n - 1] == 0x4c {
                slice_subrange(text, 0, n - 1)
            } else {
                text
            };
            assert(digits@ =~= without_suffix(text@));
            match parse_i64(digits) {
                Some(v) => Some(Event::Long(v)),
                None => None,
            }
        },
        TextKind::Get => match parse_i32(text) {
            Some(v) => Some(Event::Get(v)),
            None => None,
        },
        TextKind::Put => match parse_i32(text) {
            Some(v) => Some(Event::Put(v)),
            None => None,
        },
    }
}

/// The low 32 bits of a length.
fn wrap_u32(n: usize) -> (r: u32)
    ensures
        r == low32(n as nat),
{
    (n as u64 % 0x1_0000_0000) as u32
}

/// The reader, standing behind an opcode byte, did what `outcome` says of
/// that opcode: `r` is its result, the reader moved past its payload, and
/// the buffer grew by what it hands out.
spec fn carried_out(
    before: &Reader,
    after: &Reader,
    buf_before: Seq<u8>,
    buf_after: Seq<u8>,
    r: Result<Event, Error>,
    outcome: Decoded,
) -> bool {
    &&& r == outcome.result
    &&& after.follows(before, (outcome.consumed - 1) as nat)
    &&& buf_after == buf_before + outcome.payload
}

} // verus!
