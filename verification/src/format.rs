//! The wire format: what the bytes at the head of a stream decode to.
//!
//! [`decode`] is the reference for the decoder. It is a function of the
//! bytes that are left in the stream and gives, for one opcode, the event or
//! the error, the number of bytes used up, and the bytes that go to the
//! caller's scratch buffer.

use vstd::prelude::*;
use crate::errors::Error;
use crate::reader::Event;
use crate::scalar::{be_u64, le_i32, le_i64, le_u16, le_u32, le_u64};
use crate::text::{decimal_i32, decimal_i64};

verus! {

/// The outcome of decoding one opcode.
pub struct Decoded {
    /// The event, or why there is none.
    pub result: Result<Event, Error>,
    /// How many bytes of the stream were used up, the opcode byte included.
    /// After an error these are the fields that were read whole.
    pub consumed: nat,
    /// The bytes appended to the scratch buffer; empty after an error.
    pub payload: Seq<u8>,
}

/// The line feed that ends a text line.
pub const NEWLINE: u8 = 0x0a;

/// The number of bytes that an event tells of: the length of what it left
/// at the tail of the buffer.
pub open spec fn told_len(event: Event) -> int {
    match event {
        Event::String { len } => len as int,
        Event::Unicode { len } => len as int,
        Event::PersId { id_len } => id_len as int,
        Event::FloatText { len } => len as int,
        Event::Global { module_len, name_len } => module_len + name_len,
        Event::Inst { module_len, name_len } => module_len + name_len,
        other => declared_len(other),
    }
}

/// An event that needed `consumed` bytes and leaves nothing in the buffer.
pub open spec fn done(event: Event, consumed: nat) -> Decoded {
    Decoded { result: Ok(event), consumed, payload: Seq::empty() }
}

/// A failure after `consumed` bytes.
pub open spec fn failed(error: Error, consumed: nat) -> Decoded {
    Decoded { result: Err(error), consumed, payload: Seq::empty() }
}

/// How far the first line of `s` reaches: up to and with the first line
/// feed, or over all of `s` where it holds none.
pub open spec fn line_len(s: Seq<u8>) -> nat
    decreases s.len(),
{
    if s.len() == 0 {
        0
    } else if s[0] == NEWLINE {
        1
    } else {
        1 + line_len(s.skip(1))
    }
}

/// Whether `s` holds a whole line: a line feed ends its first line. A
/// stream that ends before the line feed holds a line that was cut off.
pub open spec fn has_line(s: Seq<u8>) -> bool {
    line_len(s) > 0 && s[line_len(s) - 1] == NEWLINE
}

/// The first line of `s`, with its line feed.
pub open spec fn line(s: Seq<u8>) -> Seq<u8> {
    s.take(line_len(s) as int)
}

/// The first line of `s` without its line feed.
pub open spec fn line_text(s: Seq<u8>) -> Seq<u8> {
    let l = line(s);
    if l.len() > 0 && l.last() == NEWLINE {
        l.drop_last()
    } else {
        l
    }
}

/// The number of payload bytes that a length-prefixed event declares; zero
/// for every other event.
pub open spec fn declared_len(event: Event) -> int {
    match event {
        Event::BinString { len } => len as int,
        Event::ShortBinString { len } => len as int,
        Event::BinUnicode { len } => len as int,
        Event::ShortBinUnicode { len } => len as int,
        Event::BinUnicode8 { len } => len as int,
        Event::BinBytes { len } => len as int,
        Event::ShortBinBytes { len } => len as int,
        Event::BinBytes8 { len } => len as int,
        Event::ByteArray8 { len } => len as int,
        _ => 0,
    }
}

/// An opcode followed by `width` bytes, from which `event` is made.
pub open spec fn fixed(rest: Seq<u8>, width: nat, event: Event) -> Decoded {
    if rest.len() >= width {
        done(event, 1 + width)
    } else {
        failed(Error::Io, 1)
    }
}

/// An opcode followed by a length of `width` bytes, from which `event` is
/// made, and then by as many bytes as the event declares, which go to the
/// buffer. A negative length asks for more bytes than any stream holds.
pub open spec fn counted(rest: Seq<u8>, width: nat, event: Event) -> Decoded {
    let n = declared_len(event);
    if rest.len() < width {
        failed(Error::Io, 1)
    } else if 0 <= n <= rest.len() - width {
        Decoded {
            result: Ok(event),
            consumed: (1 + width + n) as nat,
            payload: rest.subrange(width as int, width + n),
        }
    } else {
        failed(Error::Io, 1 + width)
    }
}

/// An opcode followed by one line, which goes to the buffer with its line
/// feed; `event` tells its length. A line without its line feed was cut off
/// by the end of the stream.
pub open spec fn one_line(rest: Seq<u8>, event: Event) -> Decoded {
    if has_line(rest) {
        Decoded { result: Ok(event), consumed: 1 + line_len(rest), payload: line(rest) }
    } else {
        failed(Error::Io, 1)
    }
}

/// What follows the first line of `s`.
pub open spec fn after_line(s: Seq<u8>) -> Seq<u8> {
    s.skip(line_len(s) as int)
}

/// The length of the second line of `s`.
pub open spec fn second_line_len(s: Seq<u8>) -> nat {
    line_len(after_line(s))
}

/// An opcode followed by two lines, which both go to the buffer; `event`
/// tells their lengths. Each line needs its line feed.
pub open spec fn two_lines(rest: Seq<u8>, event: Event) -> Decoded {
    let both = line_len(rest) + second_line_len(rest);
    if !has_line(rest) {
        failed(Error::Io, 1)
    } else if !has_line(after_line(rest)) {
        failed(Error::Io, 1 + line_len(rest))
    } else {
        Decoded { result: Ok(event), consumed: 1 + both, payload: rest.take(both as int) }
    }
}

/// The low 32 bits of a length, which is all that some events hold of it.
pub open spec fn low32(n: nat) -> u32 {
    (n % 0x1_0000_0000) as u32
}

/// An opcode followed by one line of text, of which `meaning` is the event
/// where the text has one. Nothing stays in the buffer. The line needs its
/// line feed.
pub open spec fn text_line(rest: Seq<u8>, opcode: u8, meaning: Option<Event>) -> Decoded {
    if !has_line(rest) {
        failed(Error::Io, 1)
    } else {
        match meaning {
            Some(event) => done(event, 1 + line_len(rest)),
            None => failed(Error::Protocol(opcode), 1 + line_len(rest)),
        }
    }
}

/// An opcode followed by a length of `width` bytes, which says `n`, and then
/// by `n` bytes of decimal text. Nothing stays in the buffer.
pub open spec fn text_counted(rest: Seq<u8>, width: nat, opcode: u8, n: int) -> Decoded {
    if rest.len() < width {
        failed(Error::Io, 1)
    } else if 0 <= n <= rest.len() - width {
        match decimal_i64(rest.subrange(width as int, width + n)) {
            Some(v) => done(Event::Long(v), (1 + width + n) as nat),
            None => failed(Error::Protocol(opcode), (1 + width + n) as nat),
        }
    } else {
        failed(Error::Io, 1 + width)
    }
}

/// An opcode followed by one line of text that is handed out as it stands,
/// without its line feed, where it is valid UTF-8. The line needs its line
/// feed.
pub open spec fn float_line(rest: Seq<u8>) -> Decoded {
    let text = line_text(rest);
    if !has_line(rest) {
        failed(Error::Io, 1)
    } else if vstd::utf8::valid_utf8(text) {
        Decoded {
            result: Ok(Event::FloatText { len: text.len() as usize }),
            consumed: 1 + line_len(rest),
            payload: text,
        }
    } else {
        failed(Error::Str, 1 + line_len(rest))
    }
}

/// The two characters `01`.
pub open spec fn text_true() -> Seq<u8> {
    seq![0x30u8, 0x31u8]
}

/// The two characters `00`.
pub open spec fn text_false() -> Seq<u8> {
    seq![0x30u8, 0x30u8]
}

/// What the text of the legacy integer opcode means: the two spellings of a
/// boolean first, a decimal `i32` otherwise.
pub open spec fn int_or_bool(text: Seq<u8>) -> Option<Event> {
    if text == text_true() {
        Some(Event::Bool(true))
    } else if text == text_false() {
        Some(Event::Bool(false))
    } else {
        match decimal_i32(text) {
            Some(v) => Some(Event::Int(v)),
            None => None,
        }
    }
}

/// The text of a long integer without the `L` that may end it.
pub open spec fn without_suffix(text: Seq<u8>) -> Seq<u8> {
    if text.len() > 0 && text.last() == 0x4c {
        text.drop_last()
    } else {
        text
    }
}

/// What the text of the long-integer opcode means.
pub open spec fn long_text(text: Seq<u8>) -> Option<Event> {
    match decimal_i64(without_suffix(text)) {
        Some(v) => Some(Event::Long(v)),
        None => None,
    }
}

/// What the text of the memo-get opcode means.
pub open spec fn get_text(text: Seq<u8>) -> Option<Event> {
    match decimal_i32(text) {
        Some(v) => Some(Event::Get(v)),
        None => None,
    }
}

/// What the text of the memo-put opcode means.
pub open spec fn put_text(text: Seq<u8>) -> Option<Event> {
    match decimal_i32(text) {
        Some(v) => Some(Event::Put(v)),
        None => None,
    }
}

/// What the head of `input` decodes to.
///
/// An empty input stands for a `Stop`: a stream may end at an opcode
/// boundary without one. Every other input starts with an opcode byte.
#[verifier::opaque]
pub open spec fn decode(input: Seq<u8>) -> Decoded {
    if input.len() == 0 {
        done(Event::Stop, 0)
    } else {
        let rest = input.skip(1);
        match input[0] {
            // Protocol and frames
            0x80u8 => fixed(rest, 1, Event::Proto(rest[0])),
            0x95u8 => fixed(rest, 8, Event::Frame(le_u64(rest))),
            // Stack
            0x28u8 => done(Event::Mark, 1),
            0x2eu8 => done(Event::Stop, 1),
            0x30u8 => done(Event::Pop, 1),
            0x31u8 => done(Event::PopMark, 1),
            0x32u8 => done(Event::Dup, 1),
            // Scalars
            0x4eu8 => done(Event::PyNone, 1),
            0x88u8 => done(Event::Bool(true), 1),
            0x89u8 => done(Event::Bool(false), 1),
            0x49u8 => text_line(rest, 0x49, int_or_bool(line_text(rest))),
            0x4au8 => fixed(rest, 4, Event::BinInt(le_i32(rest))),
            0x4bu8 => fixed(rest, 1, Event::BinInt1(rest[0])),
            0x4du8 => fixed(rest, 2, Event::BinInt2(le_u16(rest))),
            0x4cu8 => text_line(rest, 0x4c, long_text(line_text(rest))),
            0x8au8 => text_counted(rest, 1, 0x8a, rest[0] as int),
            0x8bu8 => text_counted(rest, 4, 0x8b, le_i32(rest) as int),
            0x46u8 => float_line(rest),
            0x47u8 => fixed(rest, 8, Event::Float(be_u64(rest))),
            // Strings and bytes
            0x53u8 => one_line(rest, Event::String { len: line_len(rest) as usize }),
            0x54u8 => counted(rest, 4, Event::BinString { len: le_i32(rest) }),
            0x55u8 => counted(rest, 1, Event::ShortBinString { len: rest[0] }),
            0x56u8 => one_line(rest, Event::Unicode { len: line_len(rest) as usize }),
            0x58u8 => counted(rest, 4, Event::BinUnicode { len: le_i32(rest) }),
            0x8cu8 => counted(rest, 1, Event::ShortBinUnicode { len: rest[0] }),
            0x8du8 => counted(rest, 8, Event::BinUnicode8 { len: le_i64(rest) }),
            0x42u8 => counted(rest, 4, Event::BinBytes { len: le_i32(rest) }),
            0x43u8 => counted(rest, 1, Event::ShortBinBytes { len: rest[0] }),
            0x8eu8 => counted(rest, 8, Event::BinBytes8 { len: le_u64(rest) }),
            0x96u8 => counted(rest, 8, Event::ByteArray8 { len: le_u64(rest) }),
            // Collections
            0x29u8 => done(Event::EmptyTuple, 1),
            0x74u8 => done(Event::Tuple, 1),
            0x85u8 => done(Event::Tuple1, 1),
            0x86u8 => done(Event::Tuple2, 1),
            0x87u8 => done(Event::Tuple3, 1),
            0x5du8 => done(Event::EmptyList, 1),
            0x6cu8 => done(Event::List, 1),
            0x61u8 => done(Event::Append, 1),
            0x65u8 => done(Event::Appends, 1),
            0x7du8 => done(Event::EmptyDict, 1),
            0x64u8 => done(Event::Dict, 1),
            0x73u8 => done(Event::SetItem, 1),
            0x75u8 => done(Event::SetItems, 1),
            0x8fu8 => done(Event::EmptySet, 1),
            0x90u8 => done(Event::AdditItems, 1),
            0x91u8 => done(Event::FrozenSet, 1),
            // Memo
            0x67u8 => text_line(rest, 0x67, get_text(line_text(rest))),
            0x68u8 => fixed(rest, 1, Event::BinGet(rest[0])),
            0x6au8 => fixed(rest, 4, Event::LongBinGet(le_u32(rest))),
            0x70u8 => text_line(rest, 0x70, put_text(line_text(rest))),
            0x71u8 => fixed(rest, 1, Event::BinPut(rest[0])),
            0x72u8 => fixed(rest, 4, Event::LongBinPut(le_u32(rest))),
            0x94u8 => done(Event::Memoize, 1),
            // Object construction
            0x63u8 => two_lines(
                rest,
                Event::Global {
                    module_len: low32(line_len(rest)),
                    name_len: low32(second_line_len(rest)),
                },
            ),
            0x93u8 => done(Event::StackGlobal, 1),
            0x52u8 => done(Event::Reduce, 1),
            0x62u8 => done(Event::Build, 1),
            0x69u8 => two_lines(
                rest,
                Event::Inst {
                    module_len: low32(line_len(rest)),
                    name_len: low32(second_line_len(rest)),
                },
            ),
            0x6fu8 => done(Event::Obj, 1),
            0x81u8 => done(Event::NewObj, 1),
            0x92u8 => done(Event::NewObjEx, 1),
            // Persistent ids
            0x50u8 => one_line(rest, Event::PersId { id_len: line_len(rest) as usize }),
            0x51u8 => done(Event::BinPersId, 1),
            // Extension codes
            0x82u8 => fixed(rest, 1, Event::Ext1(rest[0])),
            0x83u8 => fixed(rest, 2, Event::Ext2(le_u16(rest))),
            0x84u8 => fixed(rest, 4, Event::Ext4(le_u32(rest))),
            // Out-of-band buffers
            0x97u8 => done(Event::NextBuffer, 1),
            0x98u8 => done(Event::ReadonlyBuffer, 1),
            other => failed(Error::OpCode(other), 1),
        }
    }
}

} // verus!

verus! {

/// Only the `Stop` opcode and the end of the input give a `Stop`.
pub proof fn lemma_stop(input: Seq<u8>)
    requires
        decode(input).result == Ok::<Event, Error>(Event::Stop),
    ensures
        decode(input) == done(Event::Stop, if input.len() == 0 { 0 } else { 1 }),
        input.len() > 0 ==> input[0] == 0x2e,
{
    reveal(decode);
}

/// A line is never longer than what it is the first line of.
pub proof fn lemma_line_len_bound(s: Seq<u8>)
    ensures
        line_len(s) <= s.len(),
    decreases s.len(),
{
    if s.len() > 0 && s[0] != NEWLINE {
        lemma_line_len_bound(s.skip(1));
    }
}

/// Decoding uses up bytes that are there, and at least the opcode byte.
/// Only at the end of the input does it use up nothing, and there it gives
/// a `Stop`.
pub proof fn lemma_consumed_bounds(input: Seq<u8>)
    ensures
        decode(input).consumed <= input.len(),
        input.len() > 0 ==> decode(input).consumed >= 1,
        input.len() == 0 ==> decode(input) == done(Event::Stop, 0),
{
    reveal(decode);
    if input.len() > 0 {
        let rest = input.skip(1);
        lemma_line_len_bound(rest);
        lemma_line_len_bound(after_line(rest));
    }
}

} // verus!

verus! {

/// No byte of a line is a line feed but its last one.
pub proof fn lemma_line_has_one_feed(s: Seq<u8>, i: int)
    requires
        0 <= i < line_len(s) - 1,
    ensures
        i < s.len(),
        s[i] != NEWLINE,
    decreases s.len(),
{
    lemma_line_len_bound(s);
    if i > 0 {
        lemma_line_has_one_feed(s.skip(1), i - 1);
        assert(s.skip(1)[i - 1] == s[i]);
    }
}

/// A line that no line feed ends runs over all that is there.
pub proof fn lemma_line_runs_out(s: Seq<u8>)
    requires
        !has_line(s),
    ensures
        line_len(s) == s.len(),
    decreases s.len(),
{
    if s.len() > 0 && s[0] != NEWLINE {
        let s1 = s.skip(1);
        lemma_line_len_bound(s1);
        if line_len(s1) > 0 {
            assert(s1[line_len(s1) - 1] == s[line_len(s) - 1]);
        }
        lemma_line_runs_out(s1);
    }
}

/// A sequence holds a whole line exactly where one of its bytes is a line
/// feed, and its first line ends with the first of them.
pub proof fn lemma_has_line(s: Seq<u8>)
    ensures
        has_line(s) <==> exists|i: int| 0 <= i < s.len() && s[i] == NEWLINE,
        forall|i: int| 0 <= i < line_len(s) - 1 ==> s[i] != NEWLINE,
{
    lemma_line_len_bound(s);
    assert forall|i: int| 0 <= i < line_len(s) - 1 implies s[i] != NEWLINE by {
        lemma_line_has_one_feed(s, i);
    }
    if has_line(s) {
        assert(s[line_len(s) - 1] == NEWLINE);
    } else {
        lemma_line_runs_out(s);
        assert forall|i: int| 0 <= i < s.len() implies s[i] != NEWLINE by {
            if i < line_len(s) - 1 {
                lemma_line_has_one_feed(s, i);
            }
        }
    }
}

/// A whole line is fixed by the bytes it is made of: a sequence that starts
/// with the bytes of the first line of another has the same first line.
pub proof fn lemma_line_local(s: Seq<u8>, t: Seq<u8>)
    requires
        has_line(s),
        line_len(s) <= t.len(),
        s.take(line_len(s) as int) == t.take(line_len(s) as int),
    ensures
        has_line(t),
        line_len(t) == line_len(s),
        line(t) == line(s),
        line_text(t) == line_text(s),
    decreases s.len(),
{
    let k = line_len(s) as int;
    lemma_line_len_bound(s);
    assert(s.take(k)[0] == t.take(k)[0]);
    if s[0] != NEWLINE {
        let s1 = s.skip(1);
        let t1 = t.skip(1);
        assert(s1.take(k - 1) =~= s.take(k).skip(1));
        assert(t1.take(k - 1) =~= t.take(k).skip(1));
        assert(s1[k - 2] == s[k - 1]);
        lemma_line_local(s1, t1);
        assert(t1[k - 2] == t[k - 1]);
    }
}

/// A line that is cut short is no line: what is left of a sequence before
/// the end of its first line holds no line feed.
pub proof fn lemma_line_cut(s: Seq<u8>, k: int)
    requires
        0 <= k < line_len(s),
    ensures
        line_len(s.take(k)) == k,
        !has_line(s.take(k)),
    decreases k,
{
    lemma_line_len_bound(s);
    if k > 0 {
        let s1 = s.skip(1);
        assert(s.take(k)[0] == s[0]);
        assert(s.take(k).skip(1) =~= s1.take(k - 1));
        lemma_line_cut(s1, k - 1);
        if k > 1 {
            assert(s.take(k)[k - 1] == s1.take(k - 1)[k - 2]);
        }
    }
}

/// Whether the payload of an opcode is made of lines of text.
pub open spec fn reads_lines(opcode: u8) -> bool {
    opcode == 0x49 || opcode == 0x4c || opcode == 0x46 || opcode == 0x53 || opcode == 0x56
        || opcode == 0x63 || opcode == 0x69 || opcode == 0x67 || opcode == 0x70 || opcode == 0x50
}

/// Whether an opcode is followed by a length and then by that many bytes.
pub open spec fn reads_length(opcode: u8) -> bool {
    opcode == 0x8a || opcode == 0x8b || opcode == 0x54 || opcode == 0x55 || opcode == 0x58
        || opcode == 0x8c || opcode == 0x8d || opcode == 0x42 || opcode == 0x43 || opcode == 0x8e
        || opcode == 0x96
}

/// What `lemma_decode_local` asks of its two inputs.
pub open spec fn same_head(a: Seq<u8>, b: Seq<u8>) -> bool {
    &&& decode(a).result != Err::<Event, Error>(Error::Io)
    &&& decode(a).consumed <= b.len()
    &&& a.take(decode(a).consumed as int) == b.take(decode(a).consumed as int)
    &&& (a.len() == 0 ==> b.len() == 0)
}

/// Sequences that agree on their first `n` bytes agree on the numbers that
/// those bytes write.
proof fn lemma_scalars_local(s: Seq<u8>, t: Seq<u8>, n: int)
    requires
        0 <= n <= s.len(),
        n <= t.len(),
        s.take(n) == t.take(n),
    ensures
        forall|i: int| 0 <= i < n ==> s[i] == t[i],
        n >= 2 ==> le_u16(s) == le_u16(t),
        n >= 4 ==> le_u32(s) == le_u32(t) && le_i32(s) == le_i32(t),
        n >= 8 ==> le_u64(s) == le_u64(t) && le_i64(s) == le_i64(t) && be_u64(s) == be_u64(t),
{
    assert forall|i: int| 0 <= i < n implies s[i] == t[i] by {
        assert(s.take(n)[i] == s[i]);
        assert(t.take(n)[i] == t[i]);
    }
    if n >= 8 {
        assert(le_u32(s.skip(4)) == le_u32(t.skip(4)));
    }
}

proof fn lemma_local_lines(a: Seq<u8>, b: Seq<u8>)
    requires
        same_head(a, b),
        a.len() > 0,
        reads_lines(a[0]),
    ensures
        decode(b) == decode(a),
{
    reveal(decode);
    lemma_consumed_bounds(a);
    let n = decode(a).consumed as int;
    let ra = a.skip(1);
    let rb = b.skip(1);
    assert(a.take(n)[0] == b.take(n)[0]);
    assert(ra.take(n - 1) =~= a.take(n).skip(1));
    assert(rb.take(n - 1) =~= b.take(n).skip(1));
    lemma_line_len_bound(ra);
    let k = line_len(ra) as int;
    assert(has_line(ra));
    assert(ra.take(k) =~= ra.take(n - 1).take(k));
    assert(rb.take(k) =~= rb.take(n - 1).take(k));
    lemma_line_local(ra, rb);
    if a[0] == 0x63 || a[0] == 0x69 {
        let sa = after_line(ra);
        let sb = after_line(rb);
        let k2 = line_len(sa) as int;
        lemma_line_len_bound(sa);
        assert(has_line(sa));
        assert(sa.take(k2) =~= ra.take(n - 1).skip(k));
        assert(sb.take(k2) =~= rb.take(n - 1).skip(k));
        lemma_line_local(sa, sb);
    }
}

proof fn lemma_local_counted(a: Seq<u8>, b: Seq<u8>)
    requires
        same_head(a, b),
        a.len() > 0,
        reads_length(a[0]),
    ensures
        decode(b) == decode(a),
{
    reveal(decode);
    lemma_consumed_bounds(a);
    let n = decode(a).consumed as int;
    let ra = a.skip(1);
    let rb = b.skip(1);
    assert(a.take(n)[0] == b.take(n)[0]);
    assert(ra.take(n - 1) =~= a.take(n).skip(1));
    assert(rb.take(n - 1) =~= b.take(n).skip(1));
    lemma_scalars_local(ra, rb, n - 1);
    let w: int = if a[0] == 0x8a || a[0] == 0x55 || a[0] == 0x8c || a[0] == 0x43 {
        1
    } else if a[0] == 0x8d || a[0] == 0x8e || a[0] == 0x96 {
        8
    } else {
        4
    };
    assert(n >= 1 + w);
    assert(ra.subrange(w, n - 1) =~= ra.take(n - 1).skip(w));
    assert(rb.subrange(w, n - 1) =~= rb.take(n - 1).skip(w));
}

proof fn lemma_local_plain(a: Seq<u8>, b: Seq<u8>)
    requires
        same_head(a, b),
        a.len() > 0,
        !reads_lines(a[0]),
        !reads_length(a[0]),
    ensures
        decode(b) == decode(a),
{
    reveal(decode);
    lemma_consumed_bounds(a);
    let n = decode(a).consumed as int;
    let ra = a.skip(1);
    let rb = b.skip(1);
    assert(a.take(n)[0] == b.take(n)[0]);
    assert(ra.take(n - 1) =~= a.take(n).skip(1));
    assert(rb.take(n - 1) =~= b.take(n).skip(1));
    lemma_scalars_local(ra, rb, n - 1);
}

/// Decoding looks at no byte behind those it uses up: two inputs that start
/// with the bytes that decoding the first one uses up decode alike. Two
/// cases are set apart. Where the input ends too early the error tells of
/// bytes that were not there, so it is not fixed by those that were. And
/// the end of the input, which stands for a `Stop`, is no byte that another
/// input could start with: an empty input is like an empty one only.
pub proof fn lemma_decode_local(a: Seq<u8>, b: Seq<u8>)
    requires
        decode(a).result != Err::<Event, Error>(Error::Io),
        decode(a).consumed <= b.len(),
        a.take(decode(a).consumed as int) == b.take(decode(a).consumed as int),
        a.len() == 0 ==> b.len() == 0,
    ensures
        decode(b) == decode(a),
{
    lemma_consumed_bounds(a);
    lemma_consumed_bounds(b);
    if a.len() == 0 {
    } else if reads_lines(a[0]) {
        lemma_local_lines(a, b);
    } else if reads_length(a[0]) {
        lemma_local_counted(a, b);
    } else {
        lemma_local_plain(a, b);
    }
}

/// Decoding the same opcode twice gives the same twice. Where a stream
/// holds the bytes `x` two times in a row and decoding uses up just the
/// first `x`, decoding what is left gives the same event, uses up the
/// second `x`, and hands the same bytes to the buffer.
pub proof fn lemma_decode_twice(x: Seq<u8>, rest: Seq<u8>)
    requires
        decode(x + x + rest).result is Ok,
        decode(x + x + rest).consumed == x.len(),
    ensures
        decode(x + rest) == decode(x + x + rest),
        (x + x + rest).skip(x.len() as int) == x + rest,
{
    let a = x + x + rest;
    let b = x + rest;
    assert(a.skip(x.len() as int) =~= b);
    if x.len() == 0 {
        assert(a =~= b);
    } else {
        assert(a.take(x.len() as int) =~= x);
        assert(b.take(x.len() as int) =~= x);
        lemma_decode_local(a, b);
    }
}

proof fn lemma_truncated_lines(input: Seq<u8>, k: int)
    requires
        decode(input).result is Ok,
        0 < k < decode(input).consumed,
        reads_lines(input[0]),
    ensures
        decode(input.take(k)).result == Err::<Event, Error>(Error::Io),
{
    reveal(decode);
    lemma_consumed_bounds(input);
    let ra = input.skip(1);
    let rb = input.take(k).skip(1);
    let first = line_len(ra) as int;
    lemma_line_len_bound(ra);
    assert(rb =~= ra.take(k - 1));
    assert(has_line(ra));
    if k - 1 < first {
        lemma_line_cut(ra, k - 1);
    } else {
        assert(ra.take(first) =~= rb.take(first));
        lemma_line_local(ra, rb);
        let sa = after_line(ra);
        lemma_line_len_bound(sa);
        assert(after_line(rb) =~= sa.take(k - 1 - first));
        lemma_line_cut(sa, k - 1 - first);
    }
}

proof fn lemma_truncated_length(input: Seq<u8>, k: int)
    requires
        decode(input).result is Ok,
        0 < k < decode(input).consumed,
        reads_length(input[0]),
    ensures
        decode(input.take(k)).result == Err::<Event, Error>(Error::Io),
{
    reveal(decode);
    lemma_consumed_bounds(input);
    let ra = input.skip(1);
    let rb = input.take(k).skip(1);
    assert(rb =~= ra.take(k - 1));
    assert(ra.take(k - 1) =~= rb.take(k - 1));
    lemma_scalars_local(ra, rb, k - 1);
}

proof fn lemma_truncated_fixed(input: Seq<u8>, k: int)
    requires
        decode(input).result is Ok,
        0 < k < decode(input).consumed,
        !reads_length(input[0]),
        !reads_lines(input[0]),
    ensures
        decode(input.take(k)).result == Err::<Event, Error>(Error::Io),
{
    reveal(decode);
    lemma_consumed_bounds(input);
    assert(input.take(k).skip(1).len() == k - 1);
}

/// A stream that ends inside a payload gives an I/O error. Where an opcode
/// decodes, every input that ends behind its opcode byte and before the end
/// of its payload fails with `Error::Io`, be the payload a number, counted
/// bytes or a line.
pub proof fn lemma_truncated_payload(input: Seq<u8>, k: int)
    requires
        decode(input).result is Ok,
        0 < k < decode(input).consumed,
    ensures
        decode(input.take(k)).result == Err::<Event, Error>(Error::Io),
{
    if reads_lines(input[0]) {
        lemma_truncated_lines(input, k);
    } else if reads_length(input[0]) {
        lemma_truncated_length(input, k);
    } else {
        lemma_truncated_fixed(input, k);
    }
}

/// What `lemma_payload_len` says of an input.
pub open spec fn tells_payload_len(input: Seq<u8>) -> bool {
    match decode(input).result {
        Ok(event) => decode(input).payload.len() == told_len(event),
        Err(e) => decode(input).payload.len() == 0,
    }
}

proof fn lemma_payload_len_two_lines(input: Seq<u8>)
    requires
        0 < input.len() <= u32::MAX,
        input[0] == 0x63 || input[0] == 0x69,
    ensures
        tells_payload_len(input),
{
    reveal(decode);
    let rest = input.skip(1);
    let first = line_len(rest);
    let second = second_line_len(rest);
    lemma_line_len_bound(rest);
    lemma_line_len_bound(after_line(rest));
    assert(first + second <= rest.len());
    assert(low32(first) == first);
    assert(low32(second) == second);
    assert(rest.take((first + second) as int).len() == first + second);
}

proof fn lemma_payload_len_lines(input: Seq<u8>)
    requires
        0 < input.len() <= u32::MAX,
        reads_lines(input[0]),
        input[0] != 0x63,
        input[0] != 0x69,
    ensures
        tells_payload_len(input),
{
    reveal(decode);
    let rest = input.skip(1);
    lemma_line_len_bound(rest);
}

proof fn lemma_payload_len_counted(input: Seq<u8>)
    requires
        0 < input.len(),
        reads_length(input[0]),
    ensures
        tells_payload_len(input),
{
    reveal(decode);
}

proof fn lemma_payload_len_plain(input: Seq<u8>)
    requires
        0 < input.len(),
        !reads_lines(input[0]),
        !reads_length(input[0]),
    ensures
        tells_payload_len(input),
{
    reveal(decode);
}

/// An event tells the length of what it hands to the buffer, and an error
/// hands nothing to it. (An event with two lines holds the low 32 bits of
/// their lengths, so this speaks of inputs below that size.)
pub proof fn lemma_payload_len(input: Seq<u8>)
    requires
        input.len() <= u32::MAX,
    ensures
        tells_payload_len(input),
{
    if input.len() == 0 {
        lemma_consumed_bounds(input);
    } else if input[0] == 0x63 || input[0] == 0x69 {
        lemma_payload_len_two_lines(input);
    } else if reads_lines(input[0]) {
        lemma_payload_len_lines(input);
    } else if reads_length(input[0]) {
        lemma_payload_len_counted(input);
    } else {
        lemma_payload_len_plain(input);
    }
}

} // verus!
