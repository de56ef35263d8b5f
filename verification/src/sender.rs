//! The sending side: one file, from its header to its end marker.
//!
//! Writing to the link, reading the file and sleeping are left to the
//! caller. A transfer says which of these comes next, is told how it
//! went, and decides what follows: the header in one piece, then the
//! file block by block with a pause after each, then the end marker and a
//! last pause. A write of a block or of the end marker that timed out is
//! passed over; any other failed write ends the transfer.

use vstd::prelude::*;
use vstd::string::StringSliceAdditionalSpecFns;
use vstd::slice::slice_to_vec;
use crate::wire::{encode_header, end_marker, end_marker_bytes, header_line};

verus! {

/// How many bytes of the file are read and sent at a time.
pub const SEND_BLOCK: usize = 4096;

/// How long the sender rests after each block, in milliseconds.
pub const BLOCK_PAUSE_MILLIS: u64 = 200;

/// How long the sender rests after the end marker, in milliseconds.
pub const SETTLE_MILLIS: u64 = 1000;

/// What the caller is to do next, as a transfer sees it.
pub enum StepView {
    WriteHeader(Seq<u8>),
    ReadBlock(usize),
    WriteBlock(Seq<u8>),
    Pause(u64),
    WriteMarker(Seq<u8>),
    Settle(u64),
    Done(bool),
}

/// How what the caller did went, as a transfer sees it.
pub enum EventView {
    Wrote,
    WriteTimedOut,
    WriteFailed,
    Read(Seq<u8>),
    Slept,
}

/// What follows `step` once `event` is reported, or nothing where `event`
/// does not answer `step`.
pub open spec fn step_after(step: StepView, event: EventView) -> Option<StepView> {
    match (step, event) {
        (StepView::WriteHeader(_), EventView::Wrote) => Some(StepView::ReadBlock(SEND_BLOCK)),
        (StepView::WriteHeader(_), EventView::WriteTimedOut) => Some(StepView::Done(false)),
        (StepView::WriteHeader(_), EventView::WriteFailed) => Some(StepView::Done(false)),
        (StepView::ReadBlock(limit), EventView::Read(block)) => if block.len() == 0 {
            Some(StepView::WriteMarker(end_marker()))
        } else if block.len() <= limit {
            Some(StepView::WriteBlock(block))
        } else {
            None
        },
        (StepView::WriteBlock(_), EventView::Wrote) => Some(StepView::Pause(BLOCK_PAUSE_MILLIS)),
        (StepView::WriteBlock(_), EventView::WriteTimedOut) => Some(
            StepView::Pause(BLOCK_PAUSE_MILLIS),
        ),
        (StepView::WriteBlock(_), EventView::WriteFailed) => Some(StepView::Done(false)),
        (StepView::Pause(_), EventView::Slept) => Some(StepView::ReadBlock(SEND_BLOCK)),
        (StepView::WriteMarker(_), EventView::Wrote) => Some(StepView::Settle(SETTLE_MILLIS)),
        (StepView::WriteMarker(_), EventView::WriteTimedOut) => Some(
            StepView::Settle(SETTLE_MILLIS),
        ),
        (StepView::WriteMarker(_), EventView::WriteFailed) => Some(StepView::Done(false)),
        (StepView::Settle(_), EventView::Slept) => Some(StepView::Done(true)),
        _ => None,
    }
}

/// The bytes that `step` asks the caller to write.
pub open spec fn asked_to_write(step: StepView) -> Seq<u8> {
    match step {
        StepView::WriteHeader(line) => line,
        StepView::WriteBlock(block) => block,
        StepView::WriteMarker(marker) => marker,
        _ => Seq::empty(),
    }
}

/// The bytes of the file that `event` brings.
pub open spec fn brought(event: EventView) -> Seq<u8> {
    match event {
        EventView::Read(block) => block,
        _ => Seq::empty(),
    }
}

/// All bytes of the file that `events` bring, in order.
pub open spec fn all_read(events: Seq<EventView>) -> Seq<u8>
    decreases events.len(),
{
    if events.len() == 0 {
        Seq::empty()
    } else {
        brought(events.first()) + all_read(events.drop_first())
    }
}

/// Where a run of events has taken a transfer.
pub struct Played {
    /// The step reached at the end.
    pub last: StepView,
    /// The bytes that the steps on the way there asked to write, in order.
    pub written: Seq<u8>,
}

/// Reports `events` one after another, starting at `step`; nothing where
/// an event is out of turn.
pub open spec fn play(step: StepView, events: Seq<EventView>) -> Option<Played>
    decreases events.len(),
{
    if events.len() == 0 {
        Some(Played { last: step, written: Seq::empty() })
    } else {
        match step_after(step, events.first()) {
            Some(next) => match play(next, events.drop_first()) {
                Some(rest) => Some(
                    Played { last: rest.last, written: asked_to_write(next) + rest.written },
                ),
                None => None,
            },
            None => None,
        }
    }
}

/// Whether `step` asks the caller to write.
pub open spec fn is_write(step: StepView) -> bool {
    step is WriteHeader || step is WriteBlock || step is WriteMarker
}

/// What the steps after `step` ask to write while `events` are reported,
/// one piece for each write.
pub open spec fn pieces_after(step: StepView, events: Seq<EventView>) -> Seq<Seq<u8>>
    decreases events.len(),
{
    if events.len() == 0 {
        Seq::empty()
    } else {
        match step_after(step, events.first()) {
            Some(next) => {
                let rest = pieces_after(next, events.drop_first());
                if is_write(next) {
                    seq![asked_to_write(next)] + rest
                } else {
                    rest
                }
            },
            None => Seq::empty(),
        }
    }
}

/// `events`, reported from `step` on, take the transfer to its good end.
pub open spec fn ends_well(step: StepView, events: Seq<EventView>) -> bool {
    play(step, events) matches Some(played) && played.last == StepView::Done(true)
}

/// The bytes that the steps after `step` ask to write while `events` are
/// reported.
pub open spec fn written_after(step: StepView, events: Seq<EventView>) -> Seq<u8> {
    match play(step, events) {
        Some(played) => played.written,
        None => Seq::empty(),
    }
}

/// From any step on, a transfer that ends well asks to write what is
/// still read of the file and then the end marker, and nothing else.
pub proof fn lemma_transfer_rest(step: StepView, events: Seq<EventView>)
    requires
        ends_well(step, events),
    ensures
        match step {
            StepView::WriteMarker(_) | StepView::Settle(_) | StepView::Done(_) => {
                &&& written_after(step, events) == Seq::<u8>::empty()
                &&& all_read(events) == Seq::<u8>::empty()
            },
            _ => written_after(step, events) == all_read(events) + end_marker(),
        },
    decreases events.len(),
{
    if events.len() > 0 {
        let event = events.first();
        let rest = events.drop_first();
        let next = step_after(step, event).unwrap();
        lemma_transfer_rest(next, rest);
        let written = written_after(next, rest);
        assert(written_after(step, events) == asked_to_write(next) + written);
        assert(all_read(events) == brought(event) + all_read(rest));
        assert(asked_to_write(next) + written =~= match step {
            StepView::WriteMarker(_) | StepView::Settle(_) | StepView::Done(_) => Seq::<u8>::empty(),
            _ => all_read(events) + end_marker(),
        });
        assert(all_read(events) =~= match step {
            StepView::WriteMarker(_) | StepView::Settle(_) | StepView::Done(_) => Seq::<u8>::empty(),
            _ => all_read(events),
        });
    }
}

/// From any step on, a transfer that ends well writes the blocks that are
/// still read of the file, each in a piece of its own, and then the end
/// marker in one piece.
pub proof fn lemma_transfer_pieces(step: StepView, events: Seq<EventView>)
    requires
        ends_well(step, events),
    ensures
        match step {
            StepView::WriteMarker(_) | StepView::Settle(_) | StepView::Done(_) => pieces_after(
                step,
                events,
            ) == Seq::<Seq<u8>>::empty(),
            _ => {
                let pieces = pieces_after(step, events);
                &&& pieces.len() > 0
                &&& pieces.last() == end_marker()
                &&& pieces.drop_last().flatten() == all_read(events)
            },
        },
    decreases events.len(),
{
    if events.len() > 0 {
        let event = events.first();
        let rest = events.drop_first();
        let next = step_after(step, event).unwrap();
        lemma_transfer_pieces(next, rest);
        lemma_transfer_rest(next, rest);
        let pieces = pieces_after(step, events);
        let later = pieces_after(next, rest);
        assert(all_read(events) == brought(event) + all_read(rest));
        match next {
            StepView::WriteBlock(block) => {
                assert(pieces == seq![block] + later);
                assert(pieces.drop_last() =~= seq![block] + later.drop_last());
                assert(pieces.drop_last().first() == block);
                assert(pieces.drop_last().drop_first() =~= later.drop_last());
                assert(pieces.drop_last().flatten() =~= block + later.drop_last().flatten());
            },
            StepView::WriteMarker(marker) => {
                assert(pieces =~= seq![marker]);
                assert(pieces.drop_last() =~= Seq::<Seq<u8>>::empty());
                assert(all_read(events) =~= Seq::<u8>::empty());
            },
            _ => {
                assert(brought(event) + all_read(rest) =~= all_read(rest));
            },
        }
    }
}

/// What the caller is to do next.
pub enum SendStep {
    /// Write all of these bytes, the header line, in one piece.
    WriteHeader(Vec<u8>),
    /// Read the next block of the file, at most this many bytes; no bytes
    /// mean that the file has ended.
    ReadBlock(usize),
    /// Write these bytes, a block of the file, with one call.
    WriteBlock(Vec<u8>),
    /// Sleep for this many milliseconds before the next block.
    Pause(u64),
    /// Write these bytes, the end marker, with one call.
    WriteMarker(Vec<u8>),
    /// Sleep for this many milliseconds so that the receiver can close
    /// the file.
    Settle(u64),
    /// Nothing more: the file was sent, or the transfer failed and the
    /// file is to be kept.
    Done(bool),
}

impl View for SendStep {
    type V = StepView;

    open spec fn view(&self) -> StepView {
        match self {
            SendStep::WriteHeader(line) => StepView::WriteHeader(line@),
            SendStep::ReadBlock(limit) => StepView::ReadBlock(*limit),
            SendStep::WriteBlock(block) => StepView::WriteBlock(block@),
            SendStep::Pause(millis) => StepView::Pause(*millis),
            SendStep::WriteMarker(marker) => StepView::WriteMarker(marker@),
            SendStep::Settle(millis) => StepView::Settle(*millis),
            SendStep::Done(sent) => StepView::Done(*sent),
        }
    }
}

/// How what the caller did went.
pub enum SendEvent {
    /// The write went through.
    Wrote,
    /// The write timed out.
    WriteTimedOut,
    /// The write failed for any other reason.
    WriteFailed,
    /// The read brought these bytes of the file.
    Read(Vec<u8>),
    /// The sleep is over.
    Slept,
}

impl View for SendEvent {
    type V = EventView;

    open spec fn view(&self) -> EventView {
        match self {
            SendEvent::Wrote => EventView::Wrote,
            SendEvent::WriteTimedOut => EventView::WriteTimedOut,
            SendEvent::WriteFailed => EventView::WriteFailed,
            SendEvent::Read(block) => EventView::Read(block@),
            SendEvent::Slept => EventView::Slept,
        }
    }
}

/// An event that does not answer the step that was asked for.
#[derive(Clone, Copy, Debug, PartialEq, Eq, Structural)]
pub struct OutOfTurn;

/// The sending of one file.
pub struct Transfer {
    step: SendStep,
}

impl View for Transfer {
    type V = StepView;

    closed spec fn view(&self) -> StepView {
        self.step@
    }
}

impl Transfer {
    /// Begins the transfer of a file called `name`: the header line is to
    /// be written first.
    pub fn begin(name: &str) -> (t: Transfer)
        ensures
            t@ == StepView::WriteHeader(header_line(name.spec_bytes())),
    {
        Transfer { step: SendStep::WriteHeader(encode_header(name)) }
    }

    /// What the caller is to do next.
    pub fn step(&self) -> (step: &SendStep)
        ensures
            step@ == self@,
    {
        &self.step
    }

    /// Whether the transfer has ended, and if so, whether the file was
    /// sent.
    pub fn outcome(&self) -> (sent: Option<bool>)
        ensures
            sent == match self@ {
                StepView::Done(sent) => Some(sent),
                _ => None,
            },
    {
        match &self.step {
            SendStep::Done(sent) => Some(*sent),
            _ => None,
        }
    }

    /// Takes note of how the step that was asked for went, and moves on to
    /// what follows. An event that does not answer that step is refused
    /// and changes nothing.
    pub fn advance(&mut self, event: SendEvent) -> (taken: Result<(), OutOfTurn>)
        ensures
            match step_after(old(self)@, event@) {
                Some(next) => taken is Ok && final(self)@ == next,
                None => taken is Err && final(self)@ == old(self)@,
            },
    {
        let next = match (&self.step, event) {
            (SendStep::WriteHeader(_), SendEvent::Wrote) => SendStep::ReadBlock(SEND_BLOCK),
            (SendStep::WriteHeader(_), SendEvent::WriteTimedOut) => SendStep::Done(false),
            (SendStep::WriteHeader(_), SendEvent::WriteFailed) => SendStep::Done(false),
            (SendStep::ReadBlock(limit), SendEvent::Read(block)) => {
                if block.len() == 0 {
                    SendStep::WriteMarker(slice_to_vec(end_marker_bytes()))
                } else if block.len() <= *limit {
                    SendStep::WriteBlock(block)
                } else {
                    return Err(OutOfTurn);
                }
            },
            (SendStep::WriteBlock(_), SendEvent::Wrote) => SendStep::Pause(BLOCK_PAUSE_MILLIS),
            (SendStep::WriteBlock(_), SendEvent::WriteTimedOut) => SendStep::Pause(
                BLOCK_PAUSE_MILLIS,
            ),
            (SendStep::WriteBlock(_), SendEvent::WriteFailed) => SendStep::Done(false),
            (SendStep::Pause(_), SendEvent::Slept) => SendStep::ReadBlock(SEND_BLOCK),
            (SendStep::WriteMarker(_), SendEvent::Wrote) => SendStep::Settle(SETTLE_MILLIS),
            (SendStep::WriteMarker(_), SendEvent::WriteTimedOut) => SendStep::Settle(
                SETTLE_MILLIS,
            ),
            (SendStep::WriteMarker(_), SendEvent::WriteFailed) => SendStep::Done(false),
            (SendStep::Settle(_), SendEvent::Slept) => SendStep::Done(true),
            _ => {
                return Err(OutOfTurn);
            },
        };
        self.step = next;
        Ok(())
    }
}

} // verus!
