//! What holds of every stream and every transfer: the laws of the
//! protocol.

use vstd::prelude::*;
use crate::framing::{
    fresh, idle, lemma_step_keeps_bound, lemma_step_takes_header, no_header_waiting, step,
    within_flush_bound, FramerState,
};
use crate::naming::{extension, stem, stored_name};
use crate::passage::{
    chunking_spares_marker, flushes_spare_marker, lemma_record_cut, lemma_record_rest,
    lemma_short_record_spared, lemma_whole_marker_spared, record_assembly, record_state,
};
use crate::record::{line_free, marker_free};
use crate::sender::{
    all_read, ends_well, lemma_transfer_pieces, lemma_transfer_rest, pieces_after, written_after,
    EventView, StepView,
};
use crate::session::{coherent, feed_step, SessionView};
use crate::stream::{
    absorb, assemble, assemble_onto, lemma_absorb_idle, lemma_assemble_concat, lemma_run_concat,
    lemma_run_empty_reads, nothing, run, Assembly, FileView,
};
use crate::wire::{end_marker, header_line, wire_record, FLUSH_THRESHOLD};

verus! {

/// A record comes out as it went in. Whatever the reads cut the record
/// into, the deframer hands on one file with the name and the payload that
/// were sent, and is then ready for the next header. This is stated for
/// names without a line feed, payloads without the end marker, and reads
/// that force no block out that reaches into the end marker.
pub proof fn law_round_trip(name: Seq<u8>, payload: Seq<u8>, chunks: Seq<Seq<u8>>)
    requires
        line_free(name),
        marker_free(payload),
        chunks.flatten() == wire_record(name, payload),
        chunking_spares_marker(name, payload, chunks),
    ensures
        run(fresh(), chunks).0 == fresh(),
        assemble(run(fresh(), chunks).1) == (Assembly {
            done: seq![FileView { name, content: payload }],
            open: None,
        }),
{
    let record = wire_record(name, payload);
    assert(record.skip(0) =~= record);
    assert(record.take(0) =~= Seq::<u8>::empty());
    assert(record_state(name, payload, 0, 0) == fresh());
    assert(record_assembly(Seq::empty(), name, payload, 0, 0) == nothing());
    lemma_record_rest(name, payload, 0, 0, Seq::empty(), chunks);
    assert(Seq::<FileView>::empty().push(FileView { name, content: payload }) =~= seq![
        FileView { name, content: payload },
    ]);
}

/// A block that reaches into the end marker loses the record: where the
/// reads force such a block out, the deframer completes no file and is
/// left receiving. Together with `law_round_trip` this says that a record
/// comes out as it went in exactly when no such block is forced out.
pub proof fn law_marker_cut(name: Seq<u8>, payload: Seq<u8>, chunks: Seq<Seq<u8>>)
    requires
        line_free(name),
        marker_free(payload),
        chunks.flatten() == wire_record(name, payload),
        !chunking_spares_marker(name, payload, chunks),
    ensures
        run(fresh(), chunks).0.receiving,
        assemble(run(fresh(), chunks).1).done == Seq::<FileView>::empty(),
{
    let record = wire_record(name, payload);
    assert(record.skip(0) =~= record);
    assert(record.take(0) =~= Seq::<u8>::empty());
    assert(record_state(name, payload, 0, 0) == fresh());
    assert(record_assembly(Seq::empty(), name, payload, 0, 0) == nothing());
    lemma_record_cut(name, payload, 0, 0, Seq::empty(), chunks);
}

/// A short record survives every chunking. Where the payload and the end
/// marker together are no longer than a block, the record comes out as it
/// went in however the reads cut it: byte by byte, or through the header
/// prefix, the name or the end marker.
pub proof fn law_short_record_any_chunking(
    name: Seq<u8>,
    payload: Seq<u8>,
    chunks: Seq<Seq<u8>>,
)
    requires
        line_free(name),
        marker_free(payload),
        chunks.flatten() == wire_record(name, payload),
        payload.len() + end_marker().len() <= FLUSH_THRESHOLD,
    ensures
        run(fresh(), chunks).0 == fresh(),
        assemble(run(fresh(), chunks).1) == (Assembly {
            done: seq![FileView { name, content: payload }],
            open: None,
        }),
{
    lemma_short_record_spared(header_line(name).len() as int, payload.len() as int, 0, chunks);
    law_round_trip(name, payload, chunks);
}

/// A record whose end marker arrives whole comes out as it went in.
/// Where the last read brings the whole end marker, whatever else it
/// brings and however the reads before it cut the header and the payload,
/// no block is forced out that reaches into the marker.
pub proof fn law_whole_marker_read(
    name: Seq<u8>,
    payload: Seq<u8>,
    front: Seq<Seq<u8>>,
    last: Seq<u8>,
)
    requires
        line_free(name),
        marker_free(payload),
        front.push(last).flatten() == wire_record(name, payload),
        front.flatten().len() <= header_line(name).len() + payload.len(),
    ensures
        run(fresh(), front.push(last)).0 == fresh(),
        assemble(run(fresh(), front.push(last)).1) == (Assembly {
            done: seq![FileView { name, content: payload }],
            open: None,
        }),
{
    front.lemma_flatten_push(last);
    assert(front.push(last).flatten().len() == front.flatten().len() + last.len());
    assert(wire_record(name, payload).len() == header_line(name).len() + payload.len()
        + end_marker().len());
    lemma_whole_marker_spared(
        header_line(name).len() as int,
        payload.len() as int,
        0,
        0,
        front,
        last,
    );
    law_round_trip(name, payload, front.push(last));
}

/// A record cut in two comes out as it went in. The cut may fall
/// anywhere, also inside the header or the end marker, but for one case:
/// the first piece must not bring a whole block behind the header when the
/// payload is shorter than a block, for that block would reach into the
/// end marker.
pub proof fn law_split_in_two(name: Seq<u8>, payload: Seq<u8>, at: int)
    requires
        line_free(name),
        marker_free(payload),
        0 <= at <= wire_record(name, payload).len(),
        header_line(name).len() + FLUSH_THRESHOLD <= at < wire_record(name, payload).len()
            ==> FLUSH_THRESHOLD <= payload.len(),
    ensures
        ({
            let record = wire_record(name, payload);
            let pieces = seq![record.take(at), record.skip(at)];
            &&& run(fresh(), pieces).0 == fresh()
            &&& assemble(run(fresh(), pieces).1) == assemble(run(fresh(), seq![record]).1)
            &&& assemble(run(fresh(), pieces).1) == Assembly {
                done: seq![FileView { name, content: payload }],
                open: None,
            }
        }),
{
    let record = wire_record(name, payload);
    let pieces = seq![record.take(at), record.skip(at)];
    let whole = seq![record];
    let head = header_line(name).len() as int;
    let body = payload.len() as int;
    assert(pieces.flatten() =~= record) by {
        reveal_with_fuel(Seq::flatten, 3);
    }
    assert(whole.flatten() =~= record) by {
        reveal_with_fuel(Seq::flatten, 2);
    }
    assert(chunking_spares_marker(name, payload, whole)) by {
        reveal_with_fuel(flushes_spare_marker, 2);
    }
    assert(chunking_spares_marker(name, payload, pieces)) by {
        reveal_with_fuel(flushes_spare_marker, 3);
        assert(pieces.drop_first().first() == record.skip(at));
        if 0 < at < record.len() {
            let after = if at - head >= FLUSH_THRESHOLD {
                FLUSH_THRESHOLD as int
            } else {
                0
            };
            assert(flushes_spare_marker(head, body, at, after, pieces.drop_first()));
        }
    }
    law_round_trip(name, payload, pieces);
    law_round_trip(name, payload, whole);
}

/// The chunking does not show in what comes out. Two ways of cutting
/// one record that both force no block out that reaches into the end
/// marker leave the same file and the same deframer behind.
pub proof fn law_chunking_invariance(
    name: Seq<u8>,
    payload: Seq<u8>,
    one: Seq<Seq<u8>>,
    other: Seq<Seq<u8>>,
)
    requires
        line_free(name),
        marker_free(payload),
        one.flatten() == wire_record(name, payload),
        other.flatten() == wire_record(name, payload),
        chunking_spares_marker(name, payload, one),
        chunking_spares_marker(name, payload, other),
    ensures
        run(fresh(), one).0 == run(fresh(), other).0,
        assemble(run(fresh(), one).1) == assemble(run(fresh(), other).1),
{
    law_round_trip(name, payload, one);
    law_round_trip(name, payload, other);
}

/// Two records, one behind the other, come out as two files in the order
/// in which they were sent, each with its own name and payload. This is
/// stated for reads that end where the first record ends: the deframer
/// empties its buffer when a file is complete, so bytes of the second
/// record that arrive in one read with the end of the first are dropped.
pub proof fn law_back_to_back(
    first_name: Seq<u8>,
    first_payload: Seq<u8>,
    first_chunks: Seq<Seq<u8>>,
    second_name: Seq<u8>,
    second_payload: Seq<u8>,
    second_chunks: Seq<Seq<u8>>,
)
    requires
        line_free(first_name),
        marker_free(first_payload),
        first_chunks.flatten() == wire_record(first_name, first_payload),
        chunking_spares_marker(first_name, first_payload, first_chunks),
        line_free(second_name),
        marker_free(second_payload),
        second_chunks.flatten() == wire_record(second_name, second_payload),
        chunking_spares_marker(second_name, second_payload, second_chunks),
    ensures
        run(fresh(), first_chunks + second_chunks).0 == fresh(),
        assemble(run(fresh(), first_chunks + second_chunks).1) == (Assembly {
            done: seq![
                FileView { name: first_name, content: first_payload },
                FileView { name: second_name, content: second_payload },
            ],
            open: None,
        }),
{
    let first = FileView { name: first_name, content: first_payload };
    let second = FileView { name: second_name, content: second_payload };
    law_round_trip(first_name, first_payload, first_chunks);
    lemma_run_concat(fresh(), first_chunks, second_chunks);
    let first_outs = run(fresh(), first_chunks).1;
    let second_outs = run(fresh(), second_chunks).1;
    lemma_assemble_concat(nothing(), first_outs, second_outs);
    let second_record = wire_record(second_name, second_payload);
    assert(second_record.skip(0) =~= second_record);
    assert(second_record.take(0) =~= Seq::<u8>::empty());
    assert(record_state(second_name, second_payload, 0, 0) == fresh());
    lemma_record_rest(second_name, second_payload, 0, 0, seq![first], second_chunks);
    assert(seq![first].push(second) =~= seq![first, second]);
}

/// Reads that bring no byte are no event. An empty chunk leaves the
/// deframer as it was and hands nothing on, so it neither ends a file nor
/// adds to one, and a stream with such reads in it comes out as the stream
/// without them.
pub proof fn law_empty_reads_are_idle(
    s: FramerState,
    acc: Assembly,
    before: Seq<Seq<u8>>,
    after: Seq<Seq<u8>>,
)
    ensures
        step(s, Seq::empty()) == (s, idle()),
        absorb(acc, idle()) == acc,
        run(s, before + seq![Seq::<u8>::empty()] + after).0 == run(s, before + after).0,
        assemble_onto(acc, run(s, before + seq![Seq::<u8>::empty()] + after).1) == assemble_onto(
            acc,
            run(s, before + after).1,
        ),
{
    let gap = seq![Seq::<u8>::empty()];
    let mid = run(s, before).0;
    let files = assemble_onto(acc, run(s, before).1);
    lemma_absorb_idle(acc);
    assert(gap.flatten().len() == 0) by {
        reveal_with_fuel(Seq::flatten, 2);
    }
    lemma_run_empty_reads(mid, gap, files);
    lemma_run_concat(s, before, after);
    lemma_assemble_concat(acc, run(s, before).1, run(mid, after).1);
    lemma_run_concat(s, before, gap);
    lemma_assemble_concat(acc, run(s, before).1, run(mid, gap).1);
    lemma_run_concat(s, before + gap, after);
    lemma_assemble_concat(acc, run(s, before + gap).1, run(mid, after).1);
}

/// The flush bound. With reads of at most a block, a deframer that
/// receives a payload never holds a whole block between two reads. So the
/// buffer never grows beyond a block and one read less one byte, which it
/// reaches only while a read is being taken in.
pub proof fn law_flush_bound(s: FramerState, chunks: Seq<Seq<u8>>)
    requires
        no_header_waiting(s),
        within_flush_bound(s),
        forall|i: int| 0 <= i < chunks.len() ==> (#[trigger] chunks[i]).len() <= FLUSH_THRESHOLD,
    ensures
        no_header_waiting(run(s, chunks).0),
        within_flush_bound(run(s, chunks).0),
        forall|i: int|
            #![trigger chunks.take(i)]
            0 <= i < chunks.len() ==> {
                let held = run(s, chunks.take(i)).0;
                held.receiving ==> held.pending.len() + chunks[i].len() <= FLUSH_THRESHOLD
                    + chunks[i].len() - 1
            },
    decreases chunks.len(),
{
    if chunks.len() > 0 {
        let next = step(s, chunks.first()).0;
        let rest = chunks.drop_first();
        lemma_step_takes_header(s, chunks.first());
        lemma_step_keeps_bound(s, chunks.first());
        assert forall|i: int| 0 <= i < rest.len() implies (#[trigger] rest[i]).len()
            <= FLUSH_THRESHOLD by {
            assert(rest[i] == chunks[i + 1]);
        }
        law_flush_bound(next, rest);
        assert forall|i: int|
            #![trigger chunks.take(i)]
            0 <= i < chunks.len() implies {
            let held = run(s, chunks.take(i)).0;
            held.receiving ==> held.pending.len() < FLUSH_THRESHOLD
        } by {
            if i > 0 {
                assert(chunks.take(i).first() == chunks.first());
                assert(chunks.take(i).drop_first() =~= rest.take(i - 1));
                assert(rest[i - 1] == chunks[i]);
            }
        }
    }
}

/// A transfer sends the record of the file. Where the sending of a file
/// called `name` runs to its good end, what it asked to write, in order,
/// is the header line, the blocks as they were read, and the end marker:
/// the wire record of the file.
pub proof fn law_transfer_sends_record(name: Seq<u8>, events: Seq<EventView>)
    requires
        ends_well(StepView::WriteHeader(header_line(name)), events),
    ensures
        header_line(name) + written_after(StepView::WriteHeader(header_line(name)), events)
            == wire_record(name, all_read(events)),
{
    let begin = StepView::WriteHeader(header_line(name));
    lemma_transfer_rest(begin, events);
    assert(header_line(name) + written_after(begin, events) =~= wire_record(
        name,
        all_read(events),
    ));
}

/// What is sent is what is received. Where the sending of a file runs
/// to its good end and every write arrives as one read, the deframer
/// hands on one file, with the name that was announced and the bytes that
/// were read of the file on the sending side.
pub proof fn law_sent_is_received(name: Seq<u8>, events: Seq<EventView>)
    requires
        ends_well(StepView::WriteHeader(header_line(name)), events),
        line_free(name),
        marker_free(all_read(events)),
    ensures
        ({
            let begin = StepView::WriteHeader(header_line(name));
            let writes = seq![header_line(name)] + pieces_after(begin, events);
            &&& run(fresh(), writes).0 == fresh()
            &&& assemble(run(fresh(), writes).1) == Assembly {
                done: seq![FileView { name, content: all_read(events) }],
                open: None,
            }
        }),
{
    let begin = StepView::WriteHeader(header_line(name));
    let payload = all_read(events);
    let pieces = pieces_after(begin, events);
    let writes = seq![header_line(name)] + pieces;
    lemma_transfer_pieces(begin, events);
    let front = seq![header_line(name)] + pieces.drop_last();
    assert(writes =~= front.push(end_marker()));
    assert(front.first() == header_line(name));
    assert(front.drop_first() =~= pieces.drop_last());
    assert(front.flatten() =~= header_line(name) + payload);
    front.lemma_flatten_push(end_marker());
    assert(front.push(end_marker()).flatten() =~= wire_record(name, payload));
    law_whole_marker_read(name, payload, front, end_marker());
}

/// A session has a target exactly while it receives a payload, whatever
/// is read: a header gives it one, and the end marker takes it away.
pub proof fn law_target_tracks_payload(s: SessionView, chunk: Seq<u8>, stamp: Seq<char>)
    requires
        coherent(s),
    ensures
        coherent(feed_step(s, chunk, stamp).0),
{
}

/// The time tells stored files apart. Two files announced under one name
/// are stored under different names when their headers arrive at times
/// that are written differently.
pub proof fn law_stamp_tells_names_apart(name: Seq<char>, one: Seq<char>, other: Seq<char>)
    requires
        stored_name(name, one) == stored_name(name, other),
    ensures
        one == other,
{
    let front = stem(name) + seq!['_'];
    let back = seq!['.'] + extension(name);
    let left = stored_name(name, one);
    let right = stored_name(name, other);
    assert(left =~= front + one + back);
    assert(right =~= front + other + back);
    assert(left.len() == right.len());
    assert(one.len() == other.len());
    assert forall|i: int| 0 <= i < one.len() implies one[i] == other[i] by {
        assert(left[front.len() + i] == one[i]);
        assert(right[front.len() + i] == other[i]);
    }
    assert(one =~= other);
}

} // verus!
