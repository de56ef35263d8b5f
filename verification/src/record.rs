//! One record on its way through the deframer: where the header and the
//! end marker can be found in what has arrived of it.

use vstd::prelude::*;
use crate::framing::{fresh, header_span, take_payload, FramerState};
use crate::search::{
    lemma_first_byte_is, lemma_first_byte_none, lemma_first_match_is, lemma_first_match_none,
    occurs_at,
};
use crate::wire::{end_marker, header_line, header_prefix, wire_record, FLUSH_THRESHOLD, LINE_END};

verus! {

/// No byte of `name` is a line feed.
pub open spec fn line_free(name: Seq<u8>) -> bool {
    forall|i: int| 0 <= i < name.len() ==> name[i] != LINE_END
}

/// The end marker stands nowhere in `payload`.
pub open spec fn marker_free(payload: Seq<u8>) -> bool {
    forall|at: int| !occurs_at(payload, end_marker(), at)
}

/// A payload with the end marker behind it.
pub open spec fn closed_payload(payload: Seq<u8>) -> Seq<u8> {
    payload + end_marker()
}

/// The end marker does not overlap itself: shifted by `shift`, it
/// disagrees with itself in the first or the second byte that overlaps.
proof fn lemma_marker_borderless(shift: int)
    requires
        0 < shift < end_marker().len(),
    ensures
        end_marker()[shift] != end_marker()[0] || (shift + 1 < end_marker().len()
            && end_marker()[shift + 1] != end_marker()[1]),
{
    let m = end_marker();
    assert(m.len() == 22);
    assert(m[0] == 0x55 && m[1] == 0x4e && m[4] == 0x55 && m[5] == 0x45);
    if shift == 4 {
    } else if shift <= 3 {
        assert(m[1] != 0x55 && m[2] != 0x55 && m[3] != 0x55);
    } else if shift <= 8 {
        assert(m[5] != 0x55 && m[6] != 0x55 && m[7] != 0x55 && m[8] != 0x55);
    } else if shift <= 12 {
        assert(m[9] != 0x55 && m[10] != 0x55 && m[11] != 0x55 && m[12] != 0x55);
    } else if shift <= 16 {
        assert(m[13] != 0x55 && m[14] != 0x55 && m[15] != 0x55 && m[16] != 0x55);
    } else {
        assert(m[17] != 0x55 && m[18] != 0x55 && m[19] != 0x55 && m[20] != 0x55 && m[21]
            != 0x55);
    }
}

/// Behind a payload that is free of it, the end marker stands at the end
/// and nowhere else: no tail of the payload can pass for its beginning.
pub proof fn lemma_marker_stands_last(payload: Seq<u8>)
    requires
        marker_free(payload),
    ensures
        forall|at: int| #[trigger]
            occurs_at(closed_payload(payload), end_marker(), at) <==> at == payload.len(),
{
    let m = end_marker();
    let d = closed_payload(payload);
    let len = payload.len() as int;
    let width = m.len() as int;
    assert(d.subrange(len, len + width) =~= m);
    assert forall|at: int| occurs_at(d, m, at) implies at == len by {
        let window = d.subrange(at, at + width);
        if at + width <= len {
            assert(payload.subrange(at, at + width) =~= window);
            assert(occurs_at(payload, m, at));
        } else if at < len {
            let k = len - at;
            lemma_marker_borderless(k);
            assert(window[k] == d[at + k]);
            assert(d[at + k] == m[0]);
            if k + 1 < width {
                assert(window[k + 1] == d[at + k + 1]);
                assert(d[at + k + 1] == m[1]);
            }
        }
    }
}

/// What the payload scan makes of the bytes from `from` up to `upto` of a
/// closed payload, of which everything before `from` has been handed on.
pub proof fn lemma_payload_window(payload: Seq<u8>, from: int, upto: int)
    requires
        marker_free(payload),
        0 <= from <= payload.len(),
        from <= upto <= closed_payload(payload).len(),
    ensures
        ({
            let d = closed_payload(payload);
            let held = FramerState { receiving: true, pending: d.subrange(from, upto) };
            take_payload(held) == if upto == d.len() {
                (fresh(), d.subrange(from, payload.len() as int), true)
            } else if upto - from >= FLUSH_THRESHOLD {
                (
                    FramerState {
                        receiving: true,
                        pending: d.subrange(from + FLUSH_THRESHOLD, upto),
                    },
                    d.subrange(from, from + FLUSH_THRESHOLD),
                    false,
                )
            } else {
                (held, Seq::<u8>::empty(), false)
            }
        }),
{
    let m = end_marker();
    let d = closed_payload(payload);
    let window = d.subrange(from, upto);
    let width = m.len() as int;
    lemma_marker_stands_last(payload);
    assert forall|j: int| occurs_at(window, m, j) implies occurs_at(d, m, from + j) by {
        assert(window.subrange(j, j + width) =~= d.subrange(from + j, from + j + width));
    }
    if upto == d.len() {
        let at = payload.len() - from;
        assert(window.subrange(at, at + width) =~= m);
        assert forall|j: int| 0 <= j < at implies !occurs_at(window, m, j) by {
            if occurs_at(window, m, j) {
                assert(occurs_at(d, m, from + j));
            }
        }
        lemma_first_match_is(window, m, at);
        assert(window.take(at) =~= d.subrange(from, payload.len() as int));
    } else {
        assert forall|j: int| !occurs_at(window, m, j) by {
            if occurs_at(window, m, j) {
                assert(occurs_at(d, m, from + j));
            }
        }
        lemma_first_match_none(window, m);
        if upto - from >= FLUSH_THRESHOLD {
            assert(window.skip(FLUSH_THRESHOLD as int) =~= d.subrange(
                from + FLUSH_THRESHOLD,
                upto,
            ));
            assert(window.take(FLUSH_THRESHOLD as int) =~= d.subrange(
                from,
                from + FLUSH_THRESHOLD,
            ));
        }
    }
}

/// While the line feed of the header has not arrived, no header is found.
pub proof fn lemma_header_incomplete(name: Seq<u8>, payload: Seq<u8>, got: int)
    requires
        line_free(name),
        0 <= got < header_line(name).len(),
    ensures
        header_span(wire_record(name, payload).take(got)) is None,
{
    let p = header_prefix();
    let buffer = wire_record(name, payload).take(got);
    if got < p.len() {
        lemma_first_match_none(buffer, p);
    } else {
        assert(buffer.subrange(0, p.len() as int) =~= p);
        lemma_first_match_is(buffer, p, 0);
        assert forall|j: int| 0 <= p.len() <= j < buffer.len() implies buffer[j] != LINE_END by {
            assert(buffer[j] == name[j - p.len()]);
        }
        lemma_first_byte_none(buffer, p.len() as int, LINE_END);
    }
}

/// Once the line feed of the header has arrived, the header is found at
/// the very start, with the name as it was sent.
pub proof fn lemma_header_complete(name: Seq<u8>, payload: Seq<u8>, got: int)
    requires
        line_free(name),
        header_line(name).len() <= got <= wire_record(name, payload).len(),
    ensures
        ({
            let buffer = wire_record(name, payload).take(got);
            let head = header_line(name).len() as int;
            &&& header_span(buffer) == Some((header_prefix().len() as int, head - 1))
            &&& buffer.subrange(header_prefix().len() as int, head - 1) == name
            &&& buffer.skip(head) == closed_payload(payload).take(got - head)
        }),
{
    let p = header_prefix();
    let buffer = wire_record(name, payload).take(got);
    let head = header_line(name).len() as int;
    assert(buffer.subrange(0, p.len() as int) =~= p);
    lemma_first_match_is(buffer, p, 0);
    assert forall|j: int| p.len() <= j < head - 1 implies buffer[j] != LINE_END by {
        assert(buffer[j] == name[j - p.len()]);
    }
    assert(buffer[head - 1] == LINE_END);
    lemma_first_byte_is(buffer, p.len() as int, LINE_END, head - 1);
    assert(buffer.subrange(p.len() as int, head - 1) =~= name);
    assert(buffer.skip(head) =~= closed_payload(payload).take(got - head));
}

} // verus!
