//! The receiving side: from what was read on the link to what is done
//! with files.
//!
//! A session owns the deframer and knows the file that is being written.
//! It is told what each read on the link came back with, and answers with
//! the file to create, the bytes to add to it, whether it is complete, and
//! what the read loop does next. Opening, writing and closing files is
//! left to the caller.

use vstd::prelude::*;
use crate::framing::{fresh, step, Deframer, FramerState, Progress};
use crate::naming::{
    derive_file_name, keeps_valid_text, local_stamp, lossy_text, stored_name, text_of,
};

verus! {

/// What a session holds: the deframer's state and the name of the file
/// that is being written.
pub struct SessionView {
    pub framer: FramerState,
    pub target: Option<Seq<char>>,
}

/// What one read made the session ask for.
pub struct EmissionView {
    /// The name of a file to create and open for writing.
    pub created: Option<Seq<char>>,
    /// Bytes to add to the open file.
    pub data: Seq<u8>,
    /// Whether the open file is complete after `data`.
    pub finished: bool,
}

/// Nothing to do with files.
pub open spec fn quiet() -> EmissionView {
    EmissionView { created: None, data: Seq::empty(), finished: false }
}

/// A session that waits for its first header.
pub open spec fn idle_session() -> SessionView {
    SessionView { framer: fresh(), target: None }
}

/// What one chunk does to a session when the clock reads `stamp`: the
/// deframer takes the chunk in; a header creates the file named after it
/// and the time; and the file is the target until it is complete.
pub open spec fn feed_step(s: SessionView, chunk: Seq<u8>, stamp: Seq<char>) -> (
    SessionView,
    EmissionView,
) {
    let (framer, progress) = step(s.framer, chunk);
    let created = match progress.header {
        Some(raw) => Some(stored_name(lossy_text(raw), stamp)),
        None => None,
    };
    let target = if progress.complete {
        None
    } else if created is Some {
        created
    } else {
        s.target
    };
    (
        SessionView { framer, target },
        EmissionView { created, data: progress.data, finished: progress.complete },
    )
}

/// A session has a target exactly while a payload is being received.
pub open spec fn coherent(s: SessionView) -> bool {
    s.target is Some <==> s.framer.receiving
}

/// What one read made the session ask for.
pub struct Emission {
    /// The name of a file to create and open for writing.
    pub created: Option<String>,
    /// Bytes to add to the open file.
    pub data: Vec<u8>,
    /// Whether the open file is complete after `data`.
    pub finished: bool,
}

/// The text of a name that may be absent.
pub open spec fn text_view(name: Option<String>) -> Option<Seq<char>> {
    match name {
        Some(text) => Some(text@),
        None => None,
    }
}

impl View for Emission {
    type V = EmissionView;

    open spec fn view(&self) -> EmissionView {
        EmissionView {
            created: text_view(self.created),
            data: self.data@,
            finished: self.finished,
        }
    }
}

/// What a read on the link came back with.
pub enum ReadEvent {
    /// The read brought these bytes; none at all means that nothing was
    /// there to read.
    Bytes(Vec<u8>),
    /// The read would have had to wait.
    WouldBlock,
    /// The read failed for any other reason.
    Failed,
}

/// What the read loop does next.
#[derive(Clone, Copy, Debug, PartialEq, Eq, Structural)]
pub enum NextMove {
    /// Read again at once: more may be waiting.
    ReadAgain,
    /// Wait until the link is readable again.
    AwaitReadable,
    /// Give up: the failure is final.
    Stop,
}

/// What the read loop does after `event`: it goes on reading while reads
/// bring bytes, waits when there was nothing to read, and stops on a
/// failure.
pub open spec fn move_after(event: ReadEvent) -> NextMove {
    match event {
        ReadEvent::Bytes(bytes) => if bytes@.len() > 0 {
            NextMove::ReadAgain
        } else {
            NextMove::AwaitReadable
        },
        ReadEvent::WouldBlock => NextMove::AwaitReadable,
        ReadEvent::Failed => NextMove::Stop,
    }
}

/// The bytes that `event` brought.
pub open spec fn bytes_of(event: ReadEvent) -> Seq<u8> {
    match event {
        ReadEvent::Bytes(bytes) => bytes@,
        _ => Seq::empty(),
    }
}

/// The session's answer to one read.
pub struct Reaction {
    /// What to do with files.
    pub emission: Emission,
    /// What the read loop does next.
    pub next: NextMove,
}

/// The receiving side's state for the file in flight.
pub struct Session {
    deframer: Deframer,
    target: Option<String>,
}

impl View for Session {
    type V = SessionView;

    closed spec fn view(&self) -> SessionView {
        SessionView { framer: self.deframer@, target: text_view(self.target) }
    }
}

impl Session {
    /// A session that waits for its first header.
    pub fn new() -> (s: Session)
        ensures
            s@ == idle_session(),
    {
        Session { deframer: Deframer::new(), target: None }
    }

    /// Whether a file is being received.
    pub fn is_receiving(&self) -> (r: bool)
        ensures
            r == self@.framer.receiving,
    {
        self.deframer.is_receiving()
    }

    /// The name of the file that is being written, if there is one.
    pub fn target(&self) -> (name: Option<String>)
        ensures
            text_view(name) == self@.target,
    {
        self.target.clone()
    }

    /// Turns what the deframer handed on into what is done with files.
    fn settle(&mut self, progress: Progress, stamp: &str) -> (out: Emission)
        ensures
            final(self).deframer == old(self).deframer,
            progress@.header matches Some(raw) ==> keeps_valid_text(raw),
            ({
                let created = match progress@.header {
                    Some(raw) => Some(stored_name(lossy_text(raw), stamp@)),
                    None => None,
                };
                &&& out@ == (EmissionView {
                    created,
                    data: progress@.data,
                    finished: progress@.complete,
                })
                &&& text_view(final(self).target) == if progress@.complete {
                    None
                } else if created is Some {
                    created
                } else {
                    text_view(old(self).target)
                }
            }),
    {
        let created = match &progress.header {
            Some(raw) => {
                let announced = text_of(raw.as_slice());
                Some(derive_file_name(announced.as_str(), stamp))
            },
            None => None,
        };
        if progress.complete {
            self.target = None;
        } else if created.is_some() {
            self.target = created.clone();
        }
        Emission { created, data: progress.data, finished: progress.complete }
    }

    /// Takes in one read chunk at the time written as `stamp`.
    ///
    /// A name that arrives as valid UTF-8 is read as the text that it
    /// encodes; in any other name each invalid sequence is replaced.
    pub fn feed(&mut self, chunk: &[u8], stamp: &str) -> (out: Emission)
        ensures
            (final(self)@, out@) == feed_step(old(self)@, chunk@, stamp@),
            step(old(self)@.framer, chunk@).1.header matches Some(raw) ==> keeps_valid_text(raw),
    {
        let progress = self.deframer.push(chunk);
        self.settle(progress, stamp)
    }

    /// Takes in one read chunk at the time that the clock reads when the
    /// chunk completes a header. What is created is named after that time;
    /// everything else is the same whatever the clock reads.
    pub fn feed_now(&mut self, chunk: &[u8]) -> (out: Emission)
        ensures
            exists|stamp: Seq<char>| (final(self)@, out@) == feed_step(old(self)@, chunk@, stamp),
            step(old(self)@.framer, chunk@).1.header is None ==> (final(self)@, out@) == feed_step(
                old(self)@,
                chunk@,
                Seq::empty(),
            ),
            step(old(self)@.framer, chunk@).1.header matches Some(raw) ==> keeps_valid_text(raw),
    {
        let progress = self.deframer.push(chunk);
        if progress.header.is_some() {
            let stamp = local_stamp();
            let out = self.settle(progress, stamp.as_str());
            assert((self@, out@) == feed_step(old(self)@, chunk@, stamp@));
            out
        } else {
            proof {
                reveal_strlit("");
            }
            let out = self.settle(progress, "");
            assert(""@ =~= Seq::<char>::empty());
            assert((self@, out@) == feed_step(old(self)@, chunk@, Seq::empty()));
            out
        }
    }

    /// Answers one read on the link at the time written as `stamp`.
    /// Bytes are taken in; a read that brought nothing, would have had to
    /// wait or failed leaves the session as it is and asks for nothing.
    pub fn on_read_at(&mut self, event: &ReadEvent, stamp: &str) -> (reaction: Reaction)
        ensures
            (final(self)@, reaction.emission@) == feed_step(old(self)@, bytes_of(*event), stamp@),
            reaction.next == move_after(*event),
            bytes_of(*event).len() == 0 ==> final(self)@ == old(self)@ && reaction.emission@
                == quiet(),
    {
        let emission = match event {
            ReadEvent::Bytes(bytes) => self.feed(bytes.as_slice(), stamp),
            _ => self.feed(&[], stamp),
        };
        Reaction { emission, next: next_move(event) }
    }

    /// Answers one read on the link, asking the clock for the time when
    /// the read completes a header.
    pub fn on_read(&mut self, event: &ReadEvent) -> (reaction: Reaction)
        ensures
            exists|stamp: Seq<char>|
                (final(self)@, reaction.emission@) == feed_step(
                    old(self)@,
                    bytes_of(*event),
                    stamp,
                ),
            reaction.next == move_after(*event),
            bytes_of(*event).len() == 0 ==> final(self)@ == old(self)@ && reaction.emission@
                == quiet(),
    {
        let emission = match event {
            ReadEvent::Bytes(bytes) => self.feed_now(bytes.as_slice()),
            _ => self.feed_now(&[]),
        };
        proof {
            let stamp = choose|stamp: Seq<char>|
                (self@, emission@) == feed_step(old(self)@, bytes_of(*event), stamp);
            assert((self@, emission@) == feed_step(old(self)@, bytes_of(*event), stamp));
        }
        Reaction { emission, next: next_move(event) }
    }
}

/// Says what the read loop does after `event`.
pub fn next_move(event: &ReadEvent) -> (next: NextMove)
    ensures
        next == move_after(*event),
{
    match event {
        ReadEvent::Bytes(bytes) => if bytes.len() > 0 {
            NextMove::ReadAgain
        } else {
            NextMove::AwaitReadable
        },
        ReadEvent::WouldBlock => NextMove::AwaitReadable,
        ReadEvent::Failed => NextMove::Stop,
    }
}

} // verus!
