//! The passage of one record through the deframer, read by read.
//!
//! The byte counts say where a record stands: how much of it has arrived
//! and how much of its payload has been handed on. From them follow the
//! deframer's state, the file rebuilt so far, and whether a block that is
//! forced out early stays within the payload.

use vstd::prelude::*;
use crate::framing::{fresh, step, take_header, FramerState};
use crate::record::{
    closed_payload, lemma_header_complete, lemma_header_incomplete, lemma_marker_stands_last,
    lemma_payload_window, line_free, marker_free,
};
use crate::search::{lemma_first_match_none, occurs_at};
use crate::stream::{
    absorb, assemble_onto, lemma_absorb_idle, lemma_first_chunk, lemma_run_empty_reads, run,
    Assembly, FileView,
};
use crate::wire::{end_marker, header_line, wire_record, FLUSH_THRESHOLD};

verus! {

/// Whether every block that the flush threshold forces out lies within the
/// payload, while `chunks` bring in the rest of a record whose header line
/// has `head` bytes and whose payload has `body` bytes. Of that record
/// `got` bytes have arrived and `written` payload bytes have been handed
/// on. A block that reaches into the end marker would put marker bytes
/// into the file and hide the marker from the search for it.
pub open spec fn flushes_spare_marker(
    head: int,
    body: int,
    got: int,
    written: int,
    chunks: Seq<Seq<u8>>,
) -> bool
    decreases chunks.len(),
{
    if chunks.len() == 0 {
        true
    } else {
        let arrived = got + chunks.first().len();
        let rest = chunks.drop_first();
        if chunks.first().len() == 0 {
            flushes_spare_marker(head, body, got, written, rest)
        } else if arrived >= head + body + end_marker().len() {
            true
        } else if arrived - head - written >= FLUSH_THRESHOLD {
            &&& written + FLUSH_THRESHOLD <= body
            &&& flushes_spare_marker(head, body, arrived, written + FLUSH_THRESHOLD, rest)
        } else {
            flushes_spare_marker(head, body, arrived, written, rest)
        }
    }
}

/// Whether `chunks`, which bring in the record of `payload` under `name`
/// from its first byte, force no block out that reaches into the end
/// marker.
pub open spec fn chunking_spares_marker(
    name: Seq<u8>,
    payload: Seq<u8>,
    chunks: Seq<Seq<u8>>,
) -> bool {
    flushes_spare_marker(header_line(name).len() as int, payload.len() as int, 0, 0, chunks)
}

/// The deframer after `got` bytes of a record have arrived and `written`
/// bytes of its payload have been handed on.
pub open spec fn record_state(
    name: Seq<u8>,
    payload: Seq<u8>,
    got: int,
    written: int,
) -> FramerState {
    let head = header_line(name).len() as int;
    if got < head {
        FramerState { receiving: false, pending: wire_record(name, payload).take(got) }
    } else {
        FramerState {
            receiving: true,
            pending: closed_payload(payload).subrange(written, got - head),
        }
    }
}

/// The files after `got` bytes of a record have arrived and `written`
/// bytes of its payload have been handed on, with `done` complete before.
pub open spec fn record_assembly(
    done: Seq<FileView>,
    name: Seq<u8>,
    payload: Seq<u8>,
    got: int,
    written: int,
) -> Assembly {
    if got < header_line(name).len() {
        Assembly { done, open: None }
    } else {
        Assembly { done, open: Some(FileView { name, content: payload.take(written) }) }
    }
}

/// `got` and `written` describe a record that is under way.
pub open spec fn record_under_way(name: Seq<u8>, payload: Seq<u8>, got: int, written: int) -> bool {
    let head = header_line(name).len() as int;
    &&& 0 <= got < wire_record(name, payload).len()
    &&& 0 <= written <= payload.len()
    &&& got < head ==> written == 0
    &&& got >= head ==> written <= got - head
}

/// One chunk of a record that is under way takes the deframer and the
/// files to where the byte counts say. A block that is forced out leaves
/// the file in step with the payload only where it ends within the
/// payload.
pub proof fn lemma_record_step(
    name: Seq<u8>,
    payload: Seq<u8>,
    got: int,
    written: int,
    done: Seq<FileView>,
    chunk: Seq<u8>,
)
    requires
        line_free(name),
        marker_free(payload),
        record_under_way(name, payload, got, written),
        chunk.len() > 0,
        got + chunk.len() <= wire_record(name, payload).len(),
        chunk == wire_record(name, payload).subrange(got, got + chunk.len()),
    ensures
        ({
            let head = header_line(name).len() as int;
            let body = payload.len() as int;
            let arrived = got + chunk.len();
            let (next, out) = step(record_state(name, payload, got, written), chunk);
            let files = absorb(record_assembly(done, name, payload, got, written), out);
            if arrived == wire_record(name, payload).len() {
                &&& next == fresh()
                &&& files == Assembly {
                    done: done.push(FileView { name, content: payload }),
                    open: None,
                }
            } else if arrived - head - written >= FLUSH_THRESHOLD {
                &&& next == FramerState {
                    receiving: true,
                    pending: closed_payload(payload).subrange(
                        written + FLUSH_THRESHOLD,
                        arrived - head,
                    ),
                }
                &&& !out.complete
                &&& files.done == done
                &&& written + FLUSH_THRESHOLD <= body ==> files == record_assembly(
                    done,
                    name,
                    payload,
                    arrived,
                    written + FLUSH_THRESHOLD,
                )
            } else {
                &&& next == record_state(name, payload, arrived, written)
                &&& files == record_assembly(done, name, payload, arrived, written)
            }
        }),
{
    let record = wire_record(name, payload);
    let d = closed_payload(payload);
    let head = header_line(name).len() as int;
    let body = payload.len() as int;
    let arrived = got + chunk.len();
    let before = record_state(name, payload, got, written);
    let acc = record_assembly(done, name, payload, got, written);
    let grown = FramerState { receiving: before.receiving, pending: before.pending + chunk };
    assert(record =~= header_line(name) + d);
    if arrived < head {
        assert(grown.pending =~= record.take(arrived));
        lemma_header_incomplete(name, payload, arrived);
        lemma_absorb_idle(acc);
    } else {
        let upto = arrived - head;
        if got < head {
            assert(grown.pending =~= record.take(arrived));
            lemma_header_complete(name, payload, arrived);
            assert(d.take(upto) =~= d.subrange(0, upto));
            assert(take_header(grown).1 == Some(name));
        } else {
            assert(chunk =~= d.subrange(got - head, upto));
            assert(grown.pending =~= d.subrange(written, upto));
        }
        let named = FramerState { receiving: true, pending: d.subrange(written, upto) };
        assert(take_header(grown).0 == named);
        lemma_payload_window(payload, written, upto);
        if got < head {
            assert(payload.take(written) =~= Seq::<u8>::empty());
        }
        if arrived == record.len() {
            assert(payload.take(written) + d.subrange(written, body) =~= payload);
        } else if upto - written >= FLUSH_THRESHOLD {
            if written + FLUSH_THRESHOLD <= body {
                assert(payload.take(written) + d.subrange(written, written + FLUSH_THRESHOLD)
                    =~= payload.take(written + FLUSH_THRESHOLD));
            }
        } else {
            assert(payload.take(written) + Seq::<u8>::empty() =~= payload.take(written));
        }
    }
}

/// The rest of a record that is under way completes its file, as long as
/// no block is forced out that reaches into the end marker.
pub proof fn lemma_record_rest(
    name: Seq<u8>,
    payload: Seq<u8>,
    got: int,
    written: int,
    done: Seq<FileView>,
    chunks: Seq<Seq<u8>>,
)
    requires
        line_free(name),
        marker_free(payload),
        record_under_way(name, payload, got, written),
        chunks.flatten() == wire_record(name, payload).skip(got),
        flushes_spare_marker(
            header_line(name).len() as int,
            payload.len() as int,
            got,
            written,
            chunks,
        ),
    ensures
        run(record_state(name, payload, got, written), chunks).0 == fresh(),
        assemble_onto(
            record_assembly(done, name, payload, got, written),
            run(record_state(name, payload, got, written), chunks).1,
        ) == (Assembly { done: done.push(FileView { name, content: payload }), open: None }),
    decreases chunks.len(),
{
    let record = wire_record(name, payload);
    let before = record_state(name, payload, got, written);
    let acc = record_assembly(done, name, payload, got, written);
    if chunks.len() == 0 {
        assert(chunks.flatten().len() == 0);
        assert(record.skip(got).len() > 0);
    } else {
        let chunk = chunks.first();
        let rest = chunks.drop_first();
        let outs = run(before, chunks).1;
        let (next, out) = step(before, chunk);
        assert(chunks.flatten() == chunk + rest.flatten());
        assert(outs.first() == out);
        assert(outs.drop_first() =~= run(next, rest).1);
        if chunk.len() == 0 {
            assert(rest.flatten() =~= chunks.flatten());
            lemma_absorb_idle(acc);
            lemma_record_rest(name, payload, got, written, done, rest);
        } else {
            let arrived = got + chunk.len();
            lemma_first_chunk(chunks, record, got);
            lemma_record_step(name, payload, got, written, done, chunk);
            let head = header_line(name).len() as int;
            if arrived == record.len() {
                lemma_run_empty_reads(next, rest, absorb(acc, out));
            } else if arrived - head - written >= FLUSH_THRESHOLD {
                lemma_record_rest(name, payload, arrived, written + FLUSH_THRESHOLD, done, rest);
            } else {
                lemma_record_rest(name, payload, arrived, written, done, rest);
            }
        }
    }
}

/// Once a block has reached into the end marker, the marker is never
/// found: the deframer goes on receiving, and no file is completed.
pub proof fn lemma_lost_rest(
    payload: Seq<u8>,
    from: int,
    upto: int,
    chunks: Seq<Seq<u8>>,
    acc: Assembly,
)
    requires
        marker_free(payload),
        payload.len() < from <= upto <= closed_payload(payload).len(),
        chunks.flatten() == closed_payload(payload).skip(upto),
    ensures
        ({
            let held = FramerState {
                receiving: true,
                pending: closed_payload(payload).subrange(from, upto),
            };
            &&& run(held, chunks).0.receiving
            &&& assemble_onto(acc, run(held, chunks).1).done == acc.done
        }),
    decreases chunks.len(),
{
    let d = closed_payload(payload);
    let m = end_marker();
    let width = m.len() as int;
    let held = FramerState { receiving: true, pending: d.subrange(from, upto) };
    if chunks.len() > 0 {
        let chunk = chunks.first();
        let rest = chunks.drop_first();
        let outs = run(held, chunks).1;
        let (next, out) = step(held, chunk);
        assert(chunks.flatten() == chunk + rest.flatten());
        assert(outs.first() == out);
        assert(outs.drop_first() =~= run(next, rest).1);
        if chunk.len() == 0 {
            assert(rest.flatten() =~= chunks.flatten());
            lemma_absorb_idle(acc);
            lemma_lost_rest(payload, from, upto, rest, acc);
        } else {
            let arrived = upto + chunk.len();
            lemma_first_chunk(chunks, d, upto);
            let window = d.subrange(from, arrived);
            assert(held.pending + chunk =~= window);
            lemma_marker_stands_last(payload);
            assert forall|j: int| !occurs_at(window, m, j) by {
                if occurs_at(window, m, j) {
                    assert(window.subrange(j, j + width) =~= d.subrange(
                        from + j,
                        from + j + width,
                    ));
                    assert(occurs_at(d, m, from + j));
                }
            }
            lemma_first_match_none(window, m);
            if window.len() >= FLUSH_THRESHOLD {
                assert(window.skip(FLUSH_THRESHOLD as int) =~= d.subrange(
                    from + FLUSH_THRESHOLD,
                    arrived,
                ));
                lemma_lost_rest(payload, from + FLUSH_THRESHOLD, arrived, rest, absorb(acc, out));
            } else {
                lemma_lost_rest(payload, from, arrived, rest, absorb(acc, out));
            }
        }
    }
}

/// The rest of a record that is under way completes no file when a block
/// is forced out that reaches into the end marker.
pub proof fn lemma_record_cut(
    name: Seq<u8>,
    payload: Seq<u8>,
    got: int,
    written: int,
    done: Seq<FileView>,
    chunks: Seq<Seq<u8>>,
)
    requires
        line_free(name),
        marker_free(payload),
        record_under_way(name, payload, got, written),
        chunks.flatten() == wire_record(name, payload).skip(got),
        !flushes_spare_marker(
            header_line(name).len() as int,
            payload.len() as int,
            got,
            written,
            chunks,
        ),
    ensures
        run(record_state(name, payload, got, written), chunks).0.receiving,
        assemble_onto(
            record_assembly(done, name, payload, got, written),
            run(record_state(name, payload, got, written), chunks).1,
        ).done == done,
    decreases chunks.len(),
{
    let record = wire_record(name, payload);
    let d = closed_payload(payload);
    let before = record_state(name, payload, got, written);
    let acc = record_assembly(done, name, payload, got, written);
    let chunk = chunks.first();
    let rest = chunks.drop_first();
    let outs = run(before, chunks).1;
    let (next, out) = step(before, chunk);
    assert(chunks.flatten() == chunk + rest.flatten());
    assert(outs.first() == out);
    assert(outs.drop_first() =~= run(next, rest).1);
    if chunk.len() == 0 {
        assert(rest.flatten() =~= chunks.flatten());
        lemma_absorb_idle(acc);
        lemma_record_cut(name, payload, got, written, done, rest);
    } else {
        let arrived = got + chunk.len();
        let head = header_line(name).len() as int;
        lemma_first_chunk(chunks, record, got);
        lemma_record_step(name, payload, got, written, done, chunk);
        if arrived - head - written >= FLUSH_THRESHOLD {
            if written + FLUSH_THRESHOLD <= payload.len() {
                lemma_record_cut(name, payload, arrived, written + FLUSH_THRESHOLD, done, rest);
            } else {
                assert(record =~= header_line(name) + d);
                assert(rest.flatten() =~= d.skip(arrived - head));
                lemma_lost_rest(
                    payload,
                    written + FLUSH_THRESHOLD,
                    arrived - head,
                    rest,
                    absorb(acc, out),
                );
            }
        } else {
            lemma_record_cut(name, payload, arrived, written, done, rest);
        }
    }
}

/// A record that is shorter than a block, end marker included, forces no
/// block out, whatever the reads.
pub proof fn lemma_short_record_spared(head: int, body: int, got: int, chunks: Seq<Seq<u8>>)
    requires
        body + end_marker().len() <= FLUSH_THRESHOLD,
    ensures
        flushes_spare_marker(head, body, got, 0, chunks),
    decreases chunks.len(),
{
    if chunks.len() > 0 {
        lemma_short_record_spared(head, body, got, chunks.drop_first());
        lemma_short_record_spared(head, body, got + chunks.first().len(), chunks.drop_first());
    }
}

/// Reads that bring the end marker in one piece force no block out that
/// reaches into it: while `front` arrives, only payload is in the buffer.
pub proof fn lemma_whole_marker_spared(
    head: int,
    body: int,
    got: int,
    written: int,
    front: Seq<Seq<u8>>,
    last: Seq<u8>,
)
    requires
        0 <= written,
        got < head ==> written == 0,
        got >= head ==> written <= got - head,
        got + front.flatten().len() <= head + body,
        got + front.flatten().len() + last.len() >= head + body + end_marker().len(),
    ensures
        flushes_spare_marker(head, body, got, written, front.push(last)),
    decreases front.len(),
{
    let chunks = front.push(last);
    if front.len() == 0 {
        assert(chunks.first() == last);
        assert(flushes_spare_marker(head, body, got, written, chunks.drop_first()));
    } else {
        let chunk = front.first();
        let rest = front.drop_first();
        let arrived = got + chunk.len();
        assert(chunks.first() == chunk);
        assert(chunks.drop_first() =~= rest.push(last));
        assert(front.flatten() == chunk + rest.flatten());
        if chunk.len() == 0 {
            lemma_whole_marker_spared(head, body, got, written, rest, last);
        } else if arrived - head - written >= FLUSH_THRESHOLD {
            lemma_whole_marker_spared(head, body, arrived, written + FLUSH_THRESHOLD, rest, last);
        } else {
            lemma_whole_marker_spared(head, body, arrived, written, rest, last);
        }
    }
}

} // verus!
