//! Decoding a whole stream, with large frames decoded apart.
//!
//! A frame declares the length of the opcodes that follow it, so a large
//! frame can be cut out of the stream and decoded by a reader of its own
//! while the main reader goes on behind it. Every event is tagged with the
//! position at which its reader stood after it; sorting by that position
//! puts the events of all readers back into stream order.

use vstd::prelude::*;
use crate::errors::Error;
use crate::format::{decode, lemma_consumed_bounds};
use crate::merge::{flattened, found_in, join_frames, joined, strip_positions, Found};
use crate::order::{lemma_sort_restores_order, lemma_unsplit};
use crate::reader::{Event, Reader};

verus! {

/// The frame length from which a frame is decoded apart.
pub const FRAME_SPAWN_SIZE: u64 = 1024 * 128;

/// An event with the position at which its reader stood after it.
pub type Tagged = (usize, Event);

/// The events of `input` up to its `Stop` or its end, each with its
/// position, where the reader starts at position `pos`; or the first error.
/// This is what the reader of a frame yields. Only the `Stop` is left out:
/// a frame marker that the reader meets is an event like any other.
pub open spec fn run(input: Seq<u8>, pos: nat) -> Result<Seq<Tagged>, Error>
    decreases input.len(),
{
    let d = decode(input);
    match d.result {
        Err(e) => Err(e),
        Ok(Event::Stop) => Ok(Seq::empty()),
        Ok(event) => {
            proof {
                lemma_consumed_bounds(input);
            }
            match run(input.skip(d.consumed as int), pos + d.consumed) {
                Ok(rest) => Ok(seq![((pos + d.consumed) as usize, event)] + rest),
                Err(e) => Err(e),
            }
        },
    }
}

/// What the main loop gathers from a stream.
pub struct Gathered {
    /// The events that the main reader decoded itself.
    pub inline: Seq<Tagged>,
    /// What the readers of the frames found that were decoded apart, frame
    /// after frame.
    pub frames: Seq<Found<Event, Error>>,
    /// The error that stopped the main reader.
    pub main_error: Option<Error>,
    /// How many bytes the main reader moved on, frames included.
    pub consumed: nat,
}

/// What the main reader gathers when it stops at once.
pub open spec fn stopped(main_error: Option<Error>, consumed: nat) -> Gathered {
    Gathered { inline: Seq::empty(), frames: Seq::empty(), main_error, consumed }
}

/// What the main loop gathers from `input`, where the main reader starts at
/// position `pos` and frames of `threshold` bytes or more are decoded apart.
///
/// A frame that is decoded apart takes its declared length out of the
/// stream, whatever its opcodes would use up: the main reader goes on right
/// behind it.
pub open spec fn gather(input: Seq<u8>, pos: nat, threshold: int) -> Gathered
    decreases input.len(),
{
    let d = decode(input);
    let body = input.skip(d.consumed as int);
    let at = pos + d.consumed;
    match d.result {
        Err(e) => stopped(Some(e), d.consumed),
        Ok(Event::Stop) => stopped(None, d.consumed),
        Ok(Event::Frame(len)) => {
            proof {
                lemma_consumed_bounds(input);
            }
            if len < threshold {
                let g = gather(body, at, threshold);
                Gathered { consumed: d.consumed + g.consumed, ..g }
            } else if len > body.len() {
                stopped(Some(Error::Io), d.consumed)
            } else {
                let g = gather(body.skip(len as int), at + len as nat, threshold);
                Gathered {
                    frames: seq![run(body.take(len as int), at)] + g.frames,
                    consumed: d.consumed + len as nat + g.consumed,
                    ..g
                }
            }
        },
        Ok(event) => {
            proof {
                lemma_consumed_bounds(input);
            }
            let g = gather(body, at, threshold);
            Gathered {
                inline: seq![(at as usize, event)] + g.inline,
                consumed: d.consumed + g.consumed,
                ..g
            }
        },
    }
}

/// The outcome of decoding a whole stream.
///
/// An error of the main reader comes first. Then comes the error of the
/// first failed frame: one failure voids the events of all frames. Without
/// an error the events of all readers are merged by position. The frame
/// markers that the main reader meets and the final `Stop` are left out; a
/// frame marker inside a frame that is decoded apart is met by that frame's
/// reader, which keeps it as an event.
pub open spec fn collected(input: Seq<u8>, pos: nat, threshold: int) -> Result<Seq<Event>, Error> {
    let g = gather(input, pos, threshold);
    match g.main_error {
        Some(e) => Err(e),
        None => joined(g.inline, g.frames),
    }
}

/// What the main reader did in one step.
pub enum Step<'a> {
    /// It decoded an event of its own, behind which it stands at this
    /// position.
    Event(usize, Event),
    /// It passed the marker of a frame that it decodes itself.
    Marker,
    /// It cut a frame out of the stream, for this reader to decode.
    Frame(Reader<'a>),
    /// It met its `Stop`.
    Done,
}

/// What one step of the main reader comes to, where `before` is the reader
/// before the step and `after` the reader after it.
pub open spec fn stepped(before: &Reader, after: &Reader, r: Result<Step, Error>) -> bool {
    let d = decode(before.remaining());
    let body = before.remaining().skip(d.consumed as int);
    let at = before.position() + d.consumed;
    match d.result {
        Err(e) => r == Err::<Step, Error>(e) && after.follows(before, d.consumed),
        Ok(Event::Stop) => r == Ok::<Step, Error>(Step::Done) && after.follows(before, d.consumed),
        Ok(Event::Frame(len)) => if len < FRAME_SPAWN_SIZE {
            r == Ok::<Step, Error>(Step::Marker) && after.follows(before, d.consumed)
        } else if len > body.len() {
            r == Err::<Step, Error>(Error::Io) && after.follows(before, d.consumed)
        } else {
            &&& r matches Ok(Step::Frame(frame))
            &&& frame.source() == body.take(len as int)
            &&& frame.base() == at
            &&& frame.offset() == 0
            &&& after.follows(before, d.consumed + len as nat)
        },
        Ok(event) => r == Ok::<Step, Error>(Step::Event(at as usize, event)) && after.follows(
            before,
            d.consumed,
        ),
    }
}

impl<'a> Reader<'a> {
    /// Cuts the next `len` bytes out of the stream and makes a reader over
    /// them, whose cursor starts where this reader stood. This reader goes
    /// on behind those bytes. Where fewer bytes are left, nothing is cut.
    pub fn frame_reader(&mut self, len: u64) -> (r: Result<Reader<'a>, Error>)
        ensures
            match r {
                Ok(frame) => {
                    &&& len <= old(self).remaining().len()
                    &&& frame.source() == old(self).remaining().take(len as int)
                    &&& frame.base() == old(self).position()
                    &&& frame.offset() == 0
                    &&& final(self).follows(old(self), len as nat)
                },
                Err(e) => {
                    &&& e == Error::Io
                    &&& len > old(self).remaining().len()
                    &&& final(self).follows(old(self), 0)
                },
            },
    {
        let start: usize = self.pos();
        let left: usize = self.remaining_len();
        if len > left as u64 {
            return Err(Error::Io);
        }
        let bytes = self.take(len as usize)?;
        assert(bytes@ =~= old(self).remaining().take(len as int));
        Ok(Reader::new_at(bytes, start))
    }

    /// One step of the reader of a frame: it decodes the next opcode and
    /// gives the event with the position behind it, or nothing at the
    /// reader's `Stop` or the end of its bytes. A frame marker is an event
    /// like any other here.
    pub fn frame_step(&mut self, buf: &mut Vec<u8>) -> (r: Result<Option<Tagged>, Error>)
        ensures
            r == (match decode(old(self).remaining()).result {
                Err(e) => Err::<Option<Tagged>, Error>(e),
                Ok(Event::Stop) => Ok(None),
                Ok(event) => Ok(
                    Some(
                        (
                            (old(self).position() + decode(old(self).remaining()).consumed) as usize,
                            event,
                        ),
                    ),
                ),
            }),
            final(self).follows(old(self), decode(old(self).remaining()).consumed),
            final(self).offset() <= final(self).source().len(),
            final(buf)@ == old(buf)@ + decode(old(self).remaining()).payload,
    {
        match self.read_event(buf)? {
            Event::Stop => Ok(None),
            event => Ok(Some((self.pos(), event))),
        }
    }

    /// Decodes every event up to the reader's `Stop` or the end of its
    /// bytes, and tags each with the position behind it. The `Stop` is not
    /// among them.
    pub fn collect_events(self) -> (r: Result<Vec<Tagged>, Error>)
        ensures
            match r {
                Ok(events) => run(self.remaining(), self.position()) == Ok::<Seq<Tagged>, Error>(
                    events@,
                ),
                Err(e) => run(self.remaining(), self.position()) == Err::<Seq<Tagged>, Error>(e),
            },
    {
        let mut reader = self;
        let mut events: Vec<Tagged> = Vec::new();
        let mut buf: Vec<u8> = Vec::new();
        loop
            invariant
                reader.source() == self.source(),
                reader.base() == self.base(),
                self.offset() <= reader.offset(),
                match run(reader.remaining(), reader.position()) {
                    Ok(rest) => run(self.remaining(), self.position()) == Ok::<
                        Seq<Tagged>,
                        Error,
                    >(events@ + rest),
                    Err(e) => run(self.remaining(), self.position()) == Err::<Seq<Tagged>, Error>(
                        e,
                    ),
                },
            decreases reader.remaining().len(),
        {
            let ghost before = reader;
            let ghost gathered = events@;
            proof {
                lemma_consumed_bounds(reader.remaining());
            }
            match reader.frame_step(&mut buf) {
                Err(e) => {
                    return Err(e);
                },
                Ok(None) => {
                    assert(events@ + Seq::<Tagged>::empty() =~= events@);
                    return Ok(events);
                },
                Ok(Some(found)) => {
                    events.push(found);
                    proof {
                        let d = decode(before.remaining());
                        assert(reader.remaining() =~= before.remaining().skip(d.consumed as int));
                        let rest = run(reader.remaining(), reader.position());
                        if rest is Ok {
                            assert(events@ + rest->Ok_0 =~= gathered + (seq![found] + rest->Ok_0));
                        }
                    }
                },
            }
            buf.clear();
        }
    }

    /// One step of the main reader: it decodes the next opcode and says
    /// what is to be done with it. A frame of [`FRAME_SPAWN_SIZE`] bytes or
    /// more is cut out of the stream and handed out as a reader of its own,
    /// and the main reader then stands behind the frame. The marker of a
    /// smaller frame is passed.
    pub fn main_step(&mut self, buf: &mut Vec<u8>) -> (r: Result<Step<'a>, Error>)
        ensures
            stepped(old(self), final(self), r),
            final(self).offset() <= final(self).source().len(),
            final(buf)@ == old(buf)@ + decode(old(self).remaining()).payload,
    {
        let ghost d = decode(self.remaining());
        let ghost body = self.remaining().skip(d.consumed as int);
        proof {
            lemma_consumed_bounds(self.remaining());
        }
        match self.read_event(buf)? {
            Event::Stop => Ok(Step::Done),
            Event::Frame(len) => {
                assert(self.remaining() =~= body);
                if len < FRAME_SPAWN_SIZE {
                    Ok(Step::Marker)
                } else {
                    let frame = self.frame_reader(len)?;
                    Ok(Step::Frame(frame))
                }
            },
            event => Ok(Step::Event(self.pos(), event)),
        }
    }

    /// Decodes the whole stream into its events, in stream order.
    ///
    /// The main reader decodes event after event up to its `Stop`. A frame
    /// of [`FRAME_SPAWN_SIZE`] bytes or more is cut out and decoded by a
    /// reader of its own; the events of all readers are then merged by
    /// position. The outcome is [`collected`]: all events but the final
    /// `Stop` and the frame markers that the main reader met, or one error
    /// and no event. A frame marker inside a frame that was cut out is kept,
    /// as the reader of that frame keeps it.
    pub fn par_collect_events(&mut self) -> (r: Result<Vec<Event>, Error>)
        ensures
            match r {
                Ok(events) => collected(
                    old(self).remaining(),
                    old(self).position(),
                    FRAME_SPAWN_SIZE as int,
                ) == Ok::<Seq<Event>, Error>(events@),
                Err(e) => collected(
                    old(self).remaining(),
                    old(self).position(),
                    FRAME_SPAWN_SIZE as int,
                ) == Err::<Seq<Event>, Error>(e),
            },
            final(self).follows(
                old(self),
                gather(old(self).remaining(), old(self).position(), FRAME_SPAWN_SIZE as int).consumed,
            ),
    {
        let ghost total = gather(self.remaining(), self.position(), FRAME_SPAWN_SIZE as int);
        let start: usize = self.pos();
        let mut events: Vec<Tagged> = Vec::new();
        let mut frames: Vec<Result<Vec<Tagged>, Error>> = Vec::new();
        let mut buf: Vec<u8> = Vec::new();
        loop
            invariant_except_break
                self.source() == old(self).source(),
                self.base() == old(self).base(),
                old(self).offset() <= self.offset() <= self.source().len(),
                total == gather(old(self).remaining(), old(self).position(), FRAME_SPAWN_SIZE as int),
                ({
                    let g = gather(self.remaining(), self.position(), FRAME_SPAWN_SIZE as int);
                    &&& total.inline == events@ + g.inline
                    &&& total.frames == found_in(frames@) + g.frames
                    &&& total.main_error == g.main_error
                    &&& total.consumed == self.offset() - old(self).offset() + g.consumed
                }),
            ensures
                self.follows(old(self), total.consumed),
                total == gather(old(self).remaining(), old(self).position(), FRAME_SPAWN_SIZE as int),
                total.inline == events@,
                total.frames == found_in(frames@),
                total.main_error is None,
            decreases self.remaining().len(),
        {
            let ghost before = *self;
            let ghost d = decode(before.remaining());
            let ghost body = before.remaining().skip(d.consumed as int);
            let ghost gathered = events@;
            let ghost found = found_in(frames@);
            proof {
                lemma_consumed_bounds(before.remaining());
            }
            match self.main_step(&mut buf) {
                Err(e) => {
                    return Err(e);
                },
                Ok(Step::Done) => {
                    assert(events@ + Seq::<Tagged>::empty() =~= events@);
                    assert(found + Seq::<Found<Event, Error>>::empty() =~= found);
                    break ;
                },
                Ok(Step::Marker) => {
                    assert(self.remaining() =~= body);
                },
                Ok(Step::Frame(frame)) => {
                    let ghost len = d.result->Ok_0->Frame_0;
                    assert(frame.remaining() =~= body.take(len as int));
                    assert(self.remaining() =~= body.skip(len as int));
                    let ghost g = gather(self.remaining(), self.position(), FRAME_SPAWN_SIZE as int);
                    let result = frame.collect_events();
                    let ghost one = run(body.take(len as int), frame.position());
                    frames.push(result);
                    assert(found_in(frames@) =~= found.push(one));
                    assert(found.push(one) + g.frames =~= found + (seq![one] + g.frames));
                },
                Ok(Step::Event(at, event)) => {
                    assert(self.remaining() =~= body);
                    let ghost g = gather(self.remaining(), self.position(), FRAME_SPAWN_SIZE as int);
                    events.push((at, event));
                    assert(events@ + g.inline =~= gathered + (seq![(at, event)] + g.inline));
                },
            }
            buf.clear();
        }
        if frames.len() == 0 {
            // The main reader's events are in order as they are.
            proof {
                let input = old(self).remaining();
                lemma_unsplit(input, start as nat, FRAME_SPAWN_SIZE as int);
                lemma_sort_restores_order(input, start as nat, FRAME_SPAWN_SIZE as int);
                assert(total.inline + flattened(total.frames) =~= total.inline);
            }
            Ok(strip_positions(events))
        } else {
            join_frames(events, frames)
        }
    }
}

} // verus!
