//! Stream order: why merging by position gives back the order of the
//! stream, and when decoding frames apart changes nothing.

use vstd::prelude::*;
use crate::collect::{collected, gather, run, Tagged};
use crate::merge::{
    above, ascending, first_error, flattened, lemma_sorted_run, sorted_by_position, up_to,
};
use crate::errors::Error;
use crate::format::{decode, lemma_consumed_bounds, lemma_decode_local, lemma_stop};
use crate::reader::Event;

verus! {

/// A threshold that no frame length reaches: with it no frame is decoded
/// apart, and one reader decodes the stream from end to end.
pub open spec fn never() -> int {
    u64::MAX + 1
}

/// The events of a reader come with growing positions, all of them behind
/// the place where the reader started and within its bytes.
pub proof fn lemma_run_positions(input: Seq<u8>, pos: nat)
    requires
        pos + input.len() <= usize::MAX,
    ensures
        run(input, pos) matches Ok(events) ==> ascending(events) && above(events, pos as int)
            && up_to(events, (pos + input.len()) as int),
    decreases input.len(),
{
    let d = decode(input);
    lemma_consumed_bounds(input);
    if d.result is Ok && d.result->Ok_0 != Event::Stop {
        let rest = input.skip(d.consumed as int);
        let at = pos + d.consumed;
        lemma_run_positions(rest, at);
        if run(rest, at) is Ok {
            let tail = run(rest, at)->Ok_0;
            let events = run(input, pos)->Ok_0;
            assert(events == seq![(at as usize, d.result->Ok_0)] + tail);
            assert forall|i: int| 0 <= i < events.len() implies pos < (#[trigger] events[i]).0
                <= pos + input.len() by {
                if i > 0 {
                    assert(events[i] == tail[i - 1]);
                }
            }
            assert forall|i: int, j: int| 0 <= i < j < events.len() implies (
            #[trigger] events[i]).0 < (#[trigger] events[j]).0 by {
                assert(events[j] == tail[j - 1]);
                if i > 0 {
                    assert(events[i] == tail[i - 1]);
                }
            }
        }
    }
}

/// All that the main loop gathers lies behind the place where it started.
pub proof fn lemma_gather_positions(input: Seq<u8>, pos: nat, threshold: int)
    requires
        pos + input.len() <= usize::MAX,
    ensures
        above(gather(input, pos, threshold).inline, pos as int),
        above(flattened(gather(input, pos, threshold).frames), pos as int),
        gather(input, pos, threshold).consumed <= input.len(),
    decreases input.len(),
{
    let d = decode(input);
    let body = input.skip(d.consumed as int);
    let at = pos + d.consumed;
    let total = gather(input, pos, threshold);
    lemma_consumed_bounds(input);
    match d.result {
        Err(e) => {},
        Ok(Event::Stop) => {},
        Ok(Event::Frame(len)) => {
            if len < threshold {
                lemma_gather_positions(body, at, threshold);
            } else if len <= body.len() {
                let behind = body.skip(len as int);
                let g = gather(behind, at + len as nat, threshold);
                lemma_gather_positions(behind, at + len as nat, threshold);
                lemma_run_positions(body.take(len as int), at);
                let one = run(body.take(len as int), at);
                assert((seq![one] + g.frames).skip(1) =~= g.frames);
                if one is Ok {
                    let w = one->Ok_0;
                    let framed = flattened(total.frames);
                    assert(framed == w + flattened(g.frames));
                    assert forall|i: int| 0 <= i < framed.len() implies (#[trigger] framed[i]).0
                        > pos by {
                        if i < w.len() {
                            assert(framed[i] == w[i]);
                        } else {
                            assert(framed[i] == flattened(g.frames)[i - w.len()]);
                        }
                    }
                }
            }
        },
        Ok(event) => {
            let g = gather(body, at, threshold);
            lemma_gather_positions(body, at, threshold);
            assert(total.inline == seq![(at as usize, event)] + g.inline);
            assert forall|i: int| 0 <= i < total.inline.len() implies (
            #[trigger] total.inline[i]).0 > pos by {
                if i > 0 {
                    assert(total.inline[i] == g.inline[i - 1]);
                }
            }
        },
    }
}

/// The events of all readers as they lie in the stream: those of the main
/// reader, and in the place of each frame that is decoded apart the events
/// of its reader.
pub open spec fn in_order(input: Seq<u8>, pos: nat, threshold: int) -> Seq<Tagged>
    decreases input.len(),
{
    let d = decode(input);
    let body = input.skip(d.consumed as int);
    let at = pos + d.consumed;
    match d.result {
        Err(e) => Seq::empty(),
        Ok(Event::Stop) => Seq::empty(),
        Ok(Event::Frame(len)) => {
            proof {
                lemma_consumed_bounds(input);
            }
            if len < threshold {
                in_order(body, at, threshold)
            } else if len > body.len() {
                Seq::empty()
            } else {
                let behind = in_order(body.skip(len as int), at + len as nat, threshold);
                match run(body.take(len as int), at) {
                    Ok(events) => events + behind,
                    Err(e) => behind,
                }
            }
        },
        Ok(event) => {
            proof {
                lemma_consumed_bounds(input);
            }
            seq![(at as usize, event)] + in_order(body, at, threshold)
        },
    }
}

/// Sorting by position gives back the order of the stream: the stable sort
/// of what the main reader and the readers of the frames gathered is the
/// sequence of their events as they lie in the stream.
pub proof fn lemma_sort_restores_order(input: Seq<u8>, pos: nat, threshold: int)
    requires
        pos + input.len() <= usize::MAX,
    ensures
        sorted_by_position(
            gather(input, pos, threshold).inline + flattened(gather(input, pos, threshold).frames),
        ) == in_order(input, pos, threshold),
    decreases input.len(),
{
    let d = decode(input);
    let body = input.skip(d.consumed as int);
    let at = pos + d.consumed;
    let total = gather(input, pos, threshold);
    let none = Seq::<Tagged>::empty();
    lemma_consumed_bounds(input);
    match d.result {
        Err(e) => {
            assert(total.inline + flattened(total.frames) =~= none);
        },
        Ok(Event::Stop) => {
            assert(total.inline + flattened(total.frames) =~= none);
        },
        Ok(Event::Frame(len)) => {
            if len < threshold {
                lemma_sort_restores_order(body, at, threshold);
            } else if len > body.len() {
                assert(total.inline + flattened(total.frames) =~= none);
            } else {
                let behind = body.skip(len as int);
                let g = gather(behind, at + len as nat, threshold);
                lemma_sort_restores_order(behind, at + len as nat, threshold);
                lemma_gather_positions(behind, at + len as nat, threshold);
                lemma_run_positions(body.take(len as int), at);
                let one = run(body.take(len as int), at);
                assert((seq![one] + g.frames).skip(1) =~= g.frames);
                if one is Ok {
                    let w = one->Ok_0;
                    let framed = flattened(g.frames);
                    assert(total.inline + flattened(total.frames) =~= g.inline + w + framed);
                    lemma_sorted_run(g.inline, w, framed, (at + len) as int);
                }
            }
        },
        Ok(event) => {
            let g = gather(body, at, threshold);
            let x = (at as usize, event);
            let framed = flattened(g.frames);
            lemma_sort_restores_order(body, at, threshold);
            lemma_gather_positions(body, at, threshold);
            assert(total.inline + flattened(total.frames) =~= none + seq![x] + (g.inline + framed));
            assert(none + (g.inline + framed) =~= g.inline + framed);
            assert forall|i: int| 0 <= i < (g.inline + framed).len() implies (#[trigger] (g.inline
                + framed)[i]).0 > at by {
                if i < g.inline.len() {
                    assert((g.inline + framed)[i] == g.inline[i]);
                } else {
                    assert((g.inline + framed)[i] == framed[i - g.inline.len()]);
                }
            }
            lemma_sorted_run(none, seq![x], g.inline + framed, at as int);
        },
    }
}

/// Where no frame is decoded apart the main reader's events are all there
/// is, and they lie in stream order as they are.
pub proof fn lemma_unsplit(input: Seq<u8>, pos: nat, threshold: int)
    requires
        gather(input, pos, threshold).frames.len() == 0,
    ensures
        gather(input, pos, threshold).inline == in_order(input, pos, threshold),
    decreases input.len(),
{
    let d = decode(input);
    let body = input.skip(d.consumed as int);
    let at = pos + d.consumed;
    lemma_consumed_bounds(input);
    match d.result {
        Err(e) => {},
        Ok(Event::Stop) => {},
        Ok(Event::Frame(len)) => {
            if len < threshold {
                lemma_unsplit(body, at, threshold);
            }
        },
        Ok(event) => {
            lemma_unsplit(body, at, threshold);
        },
    }
}

/// With a threshold that no length reaches no frame is decoded apart.
pub proof fn lemma_never_splits(input: Seq<u8>, pos: nat)
    ensures
        gather(input, pos, never()).frames.len() == 0,
    decreases input.len(),
{
    let d = decode(input);
    let body = input.skip(d.consumed as int);
    let at = pos + d.consumed;
    lemma_consumed_bounds(input);
    match d.result {
        Err(e) => {},
        Ok(Event::Stop) => {},
        Ok(Event::Frame(len)) => {
            lemma_never_splits(body, at);
        },
        Ok(event) => {
            lemma_never_splits(body, at);
        },
    }
}

/// How one reader, decoding the stream in sequence, gets through the bytes
/// of a frame.
pub enum FrameEnd {
    /// Its opcodes fill the frame: the last one ends where the frame ends.
    Whole,
    /// It meets a `Stop` inside the frame.
    Stopped,
    /// Neither: an opcode fails or reaches over the end of the frame, or the
    /// frame holds a frame marker.
    Broken,
}

/// How one reader gets through a frame of `len` bytes at the head of `body`,
/// where `body` is the stream from the start of the frame to its end.
pub open spec fn frame_end(body: Seq<u8>, len: nat) -> FrameEnd
    decreases len,
{
    if len == 0 {
        FrameEnd::Whole
    } else {
        let d = decode(body);
        match d.result {
            Err(e) => FrameEnd::Broken,
            Ok(Event::Stop) => FrameEnd::Stopped,
            Ok(Event::Frame(inner)) => FrameEnd::Broken,
            Ok(event) => if 1 <= d.consumed <= len {
                frame_end(body.skip(d.consumed as int), (len - d.consumed) as nat)
            } else {
                FrameEnd::Broken
            },
        }
    }
}

/// The frames that are decoded apart are frames indeed: each lies within
/// the stream, holds no frame marker, and its opcodes either fill it or
/// end with a `Stop` behind which the stream stops too.
pub open spec fn well_framed(input: Seq<u8>, threshold: int) -> bool
    decreases input.len(),
{
    let d = decode(input);
    let body = input.skip(d.consumed as int);
    match d.result {
        Err(e) => true,
        Ok(Event::Stop) => true,
        Ok(Event::Frame(len)) => {
            proof {
                lemma_consumed_bounds(input);
            }
            if len < threshold {
                well_framed(body, threshold)
            } else {
                &&& len <= body.len()
                &&& match frame_end(body, len as nat) {
                    FrameEnd::Whole => well_framed(body.skip(len as int), threshold),
                    FrameEnd::Stopped => decode(body.skip(len as int)).result == Ok::<
                        Event,
                        Error,
                    >(Event::Stop),
                    FrameEnd::Broken => false,
                }
            }
        },
        Ok(event) => {
            proof {
                lemma_consumed_bounds(input);
            }
            well_framed(body, threshold)
        },
    }
}

/// The reader of a frame finds what one reader finds in the frame's place.
/// Where one reader gets through the frame, the frame's own reader yields
/// the events that the one reader yields on its way through it; the one
/// reader then goes on behind the frame, or has met its `Stop`.
pub proof fn lemma_frame_run(body: Seq<u8>, len: nat, at: nat)
    requires
        len <= body.len(),
        at + body.len() <= usize::MAX,
        frame_end(body, len) != FrameEnd::Broken,
    ensures
        run(body.take(len as int), at) is Ok,
        frame_end(body, len) == FrameEnd::Whole ==> {
            &&& gather(body, at, never()).inline == run(body.take(len as int), at)->Ok_0 + gather(
                body.skip(len as int),
                at + len,
                never(),
            ).inline
            &&& gather(body, at, never()).main_error == gather(
                body.skip(len as int),
                at + len,
                never(),
            ).main_error
        },
        frame_end(body, len) == FrameEnd::Stopped ==> {
            &&& gather(body, at, never()).inline == run(body.take(len as int), at)->Ok_0
            &&& gather(body, at, never()).main_error is None
        },
    decreases len,
{
    let frame = body.take(len as int);
    let none = Seq::<Tagged>::empty();
    lemma_consumed_bounds(frame);
    if len == 0 {
        assert(body.skip(0) =~= body);
        assert(none + gather(body, at, never()).inline =~= gather(body, at, never()).inline);
    } else {
        let d = decode(body);
        let c = d.consumed;
        lemma_consumed_bounds(body);
        if d.result == Ok::<Event, Error>(Event::Stop) {
            lemma_stop(body);
        }
        assert(1 <= c <= len);
        assert(body.take(c as int) =~= frame.take(c as int));
        lemma_decode_local(body, frame);
        if d.result->Ok_0 != Event::Stop {
            let rest = body.skip(c as int);
            let left = (len - c) as nat;
            assert(frame.skip(c as int) =~= rest.take(left as int));
            assert(rest.skip(left as int) =~= body.skip(len as int));
            lemma_frame_run(rest, left, at + c);
            let w = run(rest.take(left as int), at + c)->Ok_0;
            let x = ((at + c) as usize, d.result->Ok_0);
            assert(run(frame, at) == Ok::<Seq<Tagged>, Error>(seq![x] + w));
            let g = gather(rest, at + c, never());
            assert(gather(body, at, never()).inline == seq![x] + g.inline);
            if frame_end(body, len) == FrameEnd::Whole {
                let behind = gather(body.skip(len as int), at + len, never());
                assert(seq![x] + (w + behind.inline) =~= (seq![x] + w) + behind.inline);
            }
        }
    }
}

/// In a well-framed stream the events of all readers, as they lie in the
/// stream, are the events that one reader finds, and no frame fails.
pub proof fn lemma_well_framed_order(input: Seq<u8>, pos: nat, threshold: int)
    requires
        well_framed(input, threshold),
        pos + input.len() <= usize::MAX,
    ensures
        in_order(input, pos, threshold) == gather(input, pos, never()).inline,
        gather(input, pos, threshold).main_error == gather(input, pos, never()).main_error,
        first_error(gather(input, pos, threshold).frames) is None,
    decreases input.len(),
{
    let d = decode(input);
    let body = input.skip(d.consumed as int);
    let at = pos + d.consumed;
    lemma_consumed_bounds(input);
    match d.result {
        Err(e) => {},
        Ok(Event::Stop) => {},
        Ok(Event::Frame(len)) => {
            if len < threshold {
                lemma_well_framed_order(body, at, threshold);
            } else {
                let behind = body.skip(len as int);
                lemma_frame_run(body, len as nat, at);
                let one = run(body.take(len as int), at);
                let w = one->Ok_0;
                let g = gather(behind, at + len as nat, threshold);
                let total = gather(input, pos, threshold);
                assert(total.frames == seq![one] + g.frames);
                assert(total.frames[0] == one);
                assert(total.frames.skip(1) =~= g.frames);
                assert(first_error(total.frames) == first_error(g.frames));
                match frame_end(body, len as nat) {
                    FrameEnd::Whole => {
                        lemma_well_framed_order(behind, at + len as nat, threshold);
                    },
                    FrameEnd::Stopped => {
                        let none = Seq::<Tagged>::empty();
                        assert(in_order(behind, at + len as nat, threshold) == none);
                        assert(gather(behind, at + len as nat, threshold).main_error is None);
                        assert(g.frames.len() == 0);
                        assert(first_error(g.frames) is None);
                        assert(w + none =~= w);
                    },
                    FrameEnd::Broken => {},
                }
            }
        },
        Ok(event) => {
            lemma_well_framed_order(body, at, threshold);
        },
    }
}

/// Decoding frames apart changes nothing: on a well-framed stream the
/// outcome with frames of `threshold` bytes or more decoded by readers of
/// their own is the outcome of one reader that decodes the stream from end
/// to end, event for event and in the same order, or the same error.
pub proof fn lemma_frames_apart_change_nothing(input: Seq<u8>, pos: nat, threshold: int)
    requires
        well_framed(input, threshold),
        pos + input.len() <= usize::MAX,
    ensures
        collected(input, pos, threshold) == collected(input, pos, never()),
{
    lemma_well_framed_order(input, pos, threshold);
    lemma_sort_restores_order(input, pos, threshold);
    lemma_never_splits(input, pos);
    lemma_unsplit(input, pos, never());
    lemma_sort_restores_order(input, pos, never());
}

/// A frame that is decoded apart sets the main reader's cursor behind its
/// declared length, whatever its bytes hold: what the main reader gathers
/// and where it fails is what it gathers and where it fails behind the
/// frame, and it has moved on by the marker, the frame and what it used up
/// behind it.
pub proof fn lemma_frame_sets_cursor(input: Seq<u8>, pos: nat, threshold: int, len: u64)
    requires
        decode(input).result == Ok::<Event, Error>(Event::Frame(len)),
        threshold <= len <= input.len() - decode(input).consumed,
    ensures
        ({
            let marker = decode(input).consumed;
            let behind = gather(
                input.skip(marker + len),
                pos + marker + len as nat,
                threshold,
            );
            let all = gather(input, pos, threshold);
            &&& all.inline == behind.inline
            &&& all.main_error == behind.main_error
            &&& all.consumed == marker + len + behind.consumed
        }),
{
    let marker = decode(input).consumed;
    assert(input.skip(marker as int).skip(len as int) =~= input.skip(marker + len));
}

/// A stream that is cut off at an opcode boundary decodes without an
/// error, to the events before the cut: the end of the input stands for the
/// `Stop` that is missing. The boundaries of a stream are its start and the
/// positions of its events.
pub proof fn lemma_cut_at_boundary(input: Seq<u8>, pos: nat, count: int)
    requires
        pos + input.len() <= usize::MAX,
        run(input, pos) is Ok,
        0 <= count <= run(input, pos)->Ok_0.len(),
    ensures
        ({
            let events = run(input, pos)->Ok_0;
            let cut = if count == 0 {
                0
            } else {
                events[count - 1].0 - pos
            };
            &&& 0 <= cut <= input.len()
            &&& run(input.take(cut), pos) == Ok::<Seq<Tagged>, Error>(events.take(count))
        }),
    decreases input.len(),
{
    let events = run(input, pos)->Ok_0;
    let none = Seq::<Tagged>::empty();
    if count == 0 {
        lemma_consumed_bounds(input.take(0));
        assert(events.take(0) =~= none);
    } else {
        let d = decode(input);
        let c = d.consumed;
        let rest = input.skip(c as int);
        lemma_consumed_bounds(input);
        let tail = run(rest, pos + c)->Ok_0;
        let x = ((pos + c) as usize, d.result->Ok_0);
        assert(events == seq![x] + tail);
        lemma_cut_at_boundary(rest, pos + c, count - 1);
        let inner: int = if count == 1 {
            0
        } else {
            tail[count - 2].0 - (pos + c)
        };
        let cut = c + inner;
        if count > 1 {
            assert(events[count - 1] == tail[count - 2]);
        }
        let short = input.take(cut);
        assert(input.take(c as int) =~= short.take(c as int));
        lemma_decode_local(input, short);
        assert(short.skip(c as int) =~= rest.take(inner));
        assert(seq![x] + tail.take(count - 1) =~= events.take(count));
    }
}

} // verus!
