//! Cutting a stream of read chunks back into records.
//!
//! The deframer keeps what it has read and not yet handed on. While it
//! waits for a header it looks for the header prefix and the line feed
//! that closes the name. While it receives a payload it looks for the end
//! marker, and writes a block out early when the buffer has grown to the
//! flush threshold.

use vstd::prelude::*;
use vstd::slice::*;
use crate::search::{
    find_byte_from, find_pattern, first_byte_from, first_match, is_first_byte_from, is_first_match,
    lemma_first_byte_is, lemma_first_match_is, lemma_first_match_none, occurs_at,
};
use crate::wire::{
    end_marker, end_marker_bytes, header_prefix, header_prefix_bytes, FLUSH_THRESHOLD, LINE_END,
};

verus! {

/// What a deframer holds: whether a payload is being received, and the
/// bytes read but not yet handed on.
pub struct FramerState {
    pub receiving: bool,
    pub pending: Seq<u8>,
}

/// What one chunk made the deframer hand on.
pub struct ProgressView {
    /// The name in a header that was completed.
    pub header: Option<Seq<u8>>,
    /// Payload bytes to add to the file being received.
    pub data: Seq<u8>,
    /// Whether the file being received ends after `data`.
    pub complete: bool,
}

/// A deframer before any byte has been read, or between two records.
pub open spec fn fresh() -> FramerState {
    FramerState { receiving: false, pending: Seq::empty() }
}

/// A chunk that handed nothing on.
pub open spec fn idle() -> ProgressView {
    ProgressView { header: None, data: Seq::empty(), complete: false }
}

/// Where the name of the first complete header in `buffer` starts and
/// where the line feed after it stands.
pub open spec fn header_span(buffer: Seq<u8>) -> Option<(int, int)> {
    match first_match(buffer, header_prefix()) {
        Some(at) => {
            let name_from = at + header_prefix().len();
            match first_byte_from(buffer, name_from, LINE_END) {
                Some(end) => Some((name_from, end)),
                None => None,
            }
        },
        None => None,
    }
}

/// Looks for a complete header while none has been seen: the name is
/// handed on, and everything up to and including its line feed is dropped.
pub open spec fn take_header(s: FramerState) -> (FramerState, Option<Seq<u8>>) {
    if s.receiving {
        (s, None)
    } else {
        match header_span(s.pending) {
            Some((name_from, end)) => (
                FramerState { receiving: true, pending: s.pending.skip(end + 1) },
                Some(s.pending.subrange(name_from, end)),
            ),
            None => (s, None),
        }
    }
}

/// Looks for the end of the payload while one is being received. With the
/// end marker in the buffer, the bytes before it close the file and the
/// buffer is emptied. Without it, a buffer that has reached the flush
/// threshold hands its first block on.
pub open spec fn take_payload(s: FramerState) -> (FramerState, Seq<u8>, bool) {
    if !s.receiving {
        (s, Seq::empty(), false)
    } else {
        match first_match(s.pending, end_marker()) {
            Some(at) => (fresh(), s.pending.take(at), true),
            None => if s.pending.len() >= FLUSH_THRESHOLD {
                (
                    FramerState {
                        receiving: true,
                        pending: s.pending.skip(FLUSH_THRESHOLD as int),
                    },
                    s.pending.take(FLUSH_THRESHOLD as int),
                    false,
                )
            } else {
                (s, Seq::empty(), false)
            },
        }
    }
}

/// What one read does: an empty chunk changes nothing; any other is added
/// to the buffer, after which a header is looked for once and the end of
/// the payload once.
pub open spec fn step(s: FramerState, chunk: Seq<u8>) -> (FramerState, ProgressView) {
    if chunk.len() == 0 {
        (s, idle())
    } else {
        let grown = FramerState { receiving: s.receiving, pending: s.pending + chunk };
        let (named, header) = take_header(grown);
        let (after, data, complete) = take_payload(named);
        (after, ProgressView { header, data, complete })
    }
}

/// While a header is awaited, the buffer holds no complete header: one
/// that is complete has been taken out at once.
pub open spec fn no_header_waiting(s: FramerState) -> bool {
    !s.receiving ==> header_span(s.pending) is None
}

/// While a payload is received, the buffer holds less than a block.
pub open spec fn within_flush_bound(s: FramerState) -> bool {
    s.receiving ==> s.pending.len() < FLUSH_THRESHOLD
}

/// A header that is complete in `pending + chunk` and was not in `pending`
/// ends in `chunk`.
pub proof fn lemma_header_ends_in_chunk(pending: Seq<u8>, chunk: Seq<u8>)
    requires
        header_span(pending) is None,
        header_span(pending + chunk) is Some,
    ensures
        ({
            let (name_from, end) = header_span(pending + chunk)->0;
            end >= pending.len()
        }),
{
    let p = header_prefix();
    let width = p.len() as int;
    let grown = pending + chunk;
    let at = first_match(grown, p)->0;
    assert(is_first_match(grown, p, at));
    let end = first_byte_from(grown, at + width, LINE_END)->0;
    assert(is_first_byte_from(grown, at + width, LINE_END, end));
    if end < pending.len() {
        assert(pending.subrange(at, at + width) =~= grown.subrange(at, at + width));
        assert forall|j: int| 0 <= j < at implies !occurs_at(pending, p, j) by {
            if occurs_at(pending, p, j) {
                assert(grown.subrange(j, j + width) =~= pending.subrange(j, j + width));
                assert(occurs_at(grown, p, j));
            }
        }
        lemma_first_match_is(pending, p, at);
        assert(pending[end] == grown[end]);
        assert forall|j: int| at + width <= j < end implies pending[j] != LINE_END by {
            assert(pending[j] == grown[j]);
        }
        lemma_first_byte_is(pending, at + width, LINE_END, end);
    }
}

/// After a chunk that brought bytes, no complete header is left waiting.
pub proof fn lemma_step_takes_header(s: FramerState, chunk: Seq<u8>)
    requires
        chunk.len() > 0 || no_header_waiting(s),
    ensures
        no_header_waiting(step(s, chunk).0),
{
    lemma_first_match_none(Seq::<u8>::empty(), header_prefix());
}

/// With chunks of at most a block, a payload never leaves a whole block
/// behind in the buffer.
pub proof fn lemma_step_keeps_bound(s: FramerState, chunk: Seq<u8>)
    requires
        no_header_waiting(s),
        within_flush_bound(s),
        chunk.len() <= FLUSH_THRESHOLD,
    ensures
        within_flush_bound(step(s, chunk).0),
{
    if chunk.len() > 0 && !s.receiving && header_span(s.pending + chunk) is Some {
        lemma_header_ends_in_chunk(s.pending, chunk);
    }
}

/// What one chunk made the deframer hand on.
pub struct Progress {
    /// The name in a header that was completed, as it stood on the wire.
    pub header: Option<Vec<u8>>,
    /// Payload bytes to add to the file being received.
    pub data: Vec<u8>,
    /// Whether the file being received ends after `data`.
    pub complete: bool,
}

/// The bytes of a name that may be absent.
pub open spec fn bytes_view(name: Option<Vec<u8>>) -> Option<Seq<u8>> {
    match name {
        Some(bytes) => Some(bytes@),
        None => None,
    }
}

impl View for Progress {
    type V = ProgressView;

    open spec fn view(&self) -> ProgressView {
        ProgressView {
            header: bytes_view(self.header),
            data: self.data@,
            complete: self.complete,
        }
    }
}

/// Takes the first complete header out of `buffer`, if there is one: the
/// name comes back, and the buffer keeps what follows the line feed.
fn scan_header(buffer: &mut Vec<u8>) -> (header: Option<Vec<u8>>)
    ensures
        match header_span(old(buffer)@) {
            Some((name_from, end)) => {
                &&& bytes_view(header) == Some(old(buffer)@.subrange(name_from, end))
                &&& final(buffer)@ == old(buffer)@.skip(end + 1)
            },
            None => header is None && final(buffer)@ == old(buffer)@,
        },
{
    let prefix = header_prefix_bytes();
    match find_pattern(buffer.as_slice(), prefix) {
        Some(at) => {
            let held = buffer.len();
            assert(at + prefix@.len() <= held);
            let name_from: usize = at + prefix.len();
            match find_byte_from(buffer.as_slice(), name_from, LINE_END) {
                Some(end) => {
                    let name = slice_to_vec(slice_subrange(buffer.as_slice(), name_from, end));
                    let mut rest = buffer.split_off(end + 1);
                    core::mem::swap(&mut rest, buffer);
                    Some(name)
                },
                None => None,
            }
        },
        None => None,
    }
}

/// Takes out of `buffer` what the payload scan hands on: everything
/// before the end marker, which closes the file and empties the buffer,
/// or else the first block of a buffer that has reached the threshold.
fn scan_payload(buffer: &mut Vec<u8>) -> (out: (Vec<u8>, bool))
    ensures
        ({
            let held = FramerState { receiving: true, pending: old(buffer)@ };
            let after = FramerState { receiving: !out.1, pending: final(buffer)@ };
            (after, out.0@, out.1) == take_payload(held)
        }),
{
    match find_pattern(buffer.as_slice(), end_marker_bytes()) {
        Some(at) => {
            buffer.truncate(at);
            let mut data: Vec<u8> = Vec::new();
            core::mem::swap(&mut data, buffer);
            (data, true)
        },
        None => {
            if buffer.len() >= FLUSH_THRESHOLD {
                let mut data = buffer.split_off(FLUSH_THRESHOLD);
                core::mem::swap(&mut data, buffer);
                (data, false)
            } else {
                (Vec::new(), false)
            }
        },
    }
}

/// The receiving side's framing state.
pub struct Deframer {
    receiving: bool,
    buffer: Vec<u8>,
}

impl View for Deframer {
    type V = FramerState;

    closed spec fn view(&self) -> FramerState {
        FramerState { receiving: self.receiving, pending: self.buffer@ }
    }
}

impl Deframer {
    #[verifier::type_invariant]
    spec fn settled(self) -> bool {
        no_header_waiting(self@)
    }

    /// A deframer that waits for its first header.
    pub fn new() -> (d: Deframer)
        ensures
            d@ == fresh(),
    {
        proof {
            lemma_first_match_none(Seq::<u8>::empty(), header_prefix());
        }
        Deframer { receiving: false, buffer: Vec::new() }
    }

    /// Whether a payload is being received.
    pub fn is_receiving(&self) -> (r: bool)
        ensures
            r == self@.receiving,
    {
        self.receiving
    }

    /// How many bytes are held back.
    pub fn pending_len(&self) -> (n: usize)
        ensures
            n == self@.pending.len(),
    {
        self.buffer.len()
    }

    /// Takes in one read chunk and says what it completed.
    ///
    /// Between two reads no complete header is left in the buffer. With
    /// chunks of at most a block, a payload leaves less than a block there.
    pub fn push(&mut self, chunk: &[u8]) -> (out: Progress)
        ensures
            (final(self)@, out@) == step(old(self)@, chunk@),
            no_header_waiting(final(self)@),
            within_flush_bound(old(self)@) && chunk@.len() <= FLUSH_THRESHOLD
                ==> within_flush_bound(final(self)@),
    {
        proof {
            use_type_invariant(&*self);
            lemma_first_match_none(Seq::<u8>::empty(), header_prefix());
            lemma_step_takes_header(self@, chunk@);
            if within_flush_bound(self@) && chunk@.len() <= FLUSH_THRESHOLD {
                lemma_step_keeps_bound(self@, chunk@);
            }
        }
        if chunk.len() == 0 {
            return Progress { header: None, data: Vec::new(), complete: false };
        }
        let mut buffer: Vec<u8> = Vec::new();
        core::mem::swap(&mut buffer, &mut self.buffer);
        buffer.extend_from_slice(chunk);
        assert(buffer@ =~= old(self).buffer@ + chunk@);
        let header = if self.receiving {
            None
        } else {
            scan_header(&mut buffer)
        };
        let named = self.receiving || header.is_some();
        let (data, complete) = if named {
            scan_payload(&mut buffer)
        } else {
            (Vec::new(), false)
        };
        self.receiving = named && !complete;
        self.buffer = buffer;
        Progress { header, data, complete }
    }
}

} // verus!
