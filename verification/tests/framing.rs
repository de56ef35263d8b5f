use serial_transfer::framing::{Deframer, Progress};
use serial_transfer::wire::{encode_record, FLUSH_THRESHOLD};

/// The files that a run of reports rebuilt: those that are complete, and
/// the one that is still open.
struct Rebuilt {
    done: Vec<(Vec<u8>, Vec<u8>)>,
    open: Option<(Vec<u8>, Vec<u8>)>,
}

fn rebuild(outs: Vec<Progress>) -> Rebuilt {
    let mut rebuilt = Rebuilt { done: Vec::new(), open: None };
    for out in outs {
        if let Some(name) = out.header {
            rebuilt.open = Some((name, Vec::new()));
        }
        if let Some(file) = rebuilt.open.as_mut() {
            file.1.extend_from_slice(&out.data);
        }
        if out.complete {
            if let Some(file) = rebuilt.open.take() {
                rebuilt.done.push(file);
            }
        }
    }
    rebuilt
}

fn feed_all(deframer: &mut Deframer, chunks: &[&[u8]]) -> Vec<Progress> {
    chunks.iter().map(|chunk| deframer.push(chunk)).collect()
}

fn feed_in_pieces(deframer: &mut Deframer, stream: &[u8], size: usize) -> Vec<Progress> {
    stream.chunks(size).map(|chunk| deframer.push(chunk)).collect()
}

fn patterned(len: usize) -> Vec<u8> {
    (0..len).map(|i| (i % 251) as u8).collect()
}

#[test]
fn whole_record_in_one_read() {
    let record = encode_record("a.txt", b"hello");
    let mut deframer = Deframer::new();
    let out = deframer.push(&record);
    assert_eq!(out.header, Some(b"a.txt".to_vec()));
    assert_eq!(out.data, b"hello".to_vec());
    assert!(out.complete);
    assert!(!deframer.is_receiving());
    assert_eq!(deframer.pending_len(), 0);
}

#[test]
fn fresh_deframer_awaits_a_header() {
    let deframer = Deframer::new();
    assert!(!deframer.is_receiving());
    assert_eq!(deframer.pending_len(), 0);
}

#[test]
fn record_byte_by_byte() {
    let payload = b"some payload\nwith lines\n";
    let record = encode_record("notes.txt", payload);
    let mut deframer = Deframer::new();
    let outs = feed_in_pieces(&mut deframer, &record, 1);
    assert_eq!(outs.len(), record.len());
    let rebuilt = rebuild(outs);
    assert_eq!(rebuilt.done, vec![(b"notes.txt".to_vec(), payload.to_vec())]);
    assert!(rebuilt.open.is_none());
    assert!(!deframer.is_receiving());
    assert_eq!(deframer.pending_len(), 0);
}

#[test]
fn record_split_at_every_offset() {
    let payload = b"0123456789abcdef";
    let record = encode_record("split.bin", payload);
    for at in 0..=record.len() {
        let mut deframer = Deframer::new();
        let outs = feed_all(&mut deframer, &[&record[..at], &record[at..]]);
        let rebuilt = rebuild(outs);
        assert_eq!(rebuilt.done, vec![(b"split.bin".to_vec(), payload.to_vec())], "split at {}", at);
        assert!(rebuilt.open.is_none());
        assert!(!deframer.is_receiving());
        assert_eq!(deframer.pending_len(), 0);
    }
}

#[test]
fn record_in_pieces_of_every_size() {
    let payload = patterned(300);
    let record = encode_record("sizes.dat", &payload);
    for size in 1..=record.len() {
        let mut deframer = Deframer::new();
        let rebuilt = rebuild(feed_in_pieces(&mut deframer, &record, size));
        assert_eq!(rebuilt.done, vec![(b"sizes.dat".to_vec(), payload.clone())], "size {}", size);
        assert!(!deframer.is_receiving());
    }
}

#[test]
fn header_split_inside_the_prefix() {
    let mut deframer = Deframer::new();
    let first = deframer.push(b"filen");
    assert_eq!(first.header, None);
    assert!(first.data.is_empty());
    assert!(!first.complete);
    assert!(!deframer.is_receiving());
    assert_eq!(deframer.pending_len(), 5);
    let second = deframer.push(b"ame: x.y\nab");
    assert_eq!(second.header, Some(b"x.y".to_vec()));
    assert!(second.data.is_empty());
    assert!(!second.complete);
    assert!(deframer.is_receiving());
    assert_eq!(deframer.pending_len(), 2);
}

#[test]
fn header_waits_for_its_line_feed() {
    let mut deframer = Deframer::new();
    let first = deframer.push(b"filename: long_na");
    assert_eq!(first.header, None);
    assert!(!deframer.is_receiving());
    assert_eq!(deframer.pending_len(), 17);
    let second = deframer.push(b"me.txt");
    assert_eq!(second.header, None);
    assert!(!deframer.is_receiving());
    let third = deframer.push(b"\n");
    assert_eq!(third.header, Some(b"long_name.txt".to_vec()));
    assert!(deframer.is_receiving());
    assert_eq!(deframer.pending_len(), 0);
}

#[test]
fn bytes_before_the_header_are_dropped() {
    let mut deframer = Deframer::new();
    let out = deframer.push(b"\x00noise\nfilename: f\npayloadUNIQUE_EOF_MARKER_1234");
    assert_eq!(out.header, Some(b"f".to_vec()));
    assert_eq!(out.data, b"payload".to_vec());
    assert!(out.complete);
}

#[test]
fn empty_name_is_a_name() {
    let mut deframer = Deframer::new();
    let out = deframer.push(b"filename: \nxUNIQUE_EOF_MARKER_1234");
    assert_eq!(out.header, Some(Vec::new()));
    assert_eq!(out.data, b"x".to_vec());
    assert!(out.complete);
}

#[test]
fn end_marker_split_across_reads() {
    let mut deframer = Deframer::new();
    let first = deframer.push(b"filename: m\ndataUNIQUE_EOF_");
    assert_eq!(first.header, Some(b"m".to_vec()));
    assert!(first.data.is_empty());
    assert!(!first.complete);
    assert_eq!(deframer.pending_len(), 15);
    let second = deframer.push(b"MARKER_12");
    assert!(second.data.is_empty());
    assert!(!second.complete);
    let third = deframer.push(b"34");
    assert_eq!(third.header, None);
    assert_eq!(third.data, b"data".to_vec());
    assert!(third.complete);
    assert!(!deframer.is_receiving());
    assert_eq!(deframer.pending_len(), 0);
}

#[test]
fn a_tail_of_the_payload_that_looks_like_the_marker_start() {
    let payload = b"dataUNIQUE_EOF_MARKER_123UNIQUE";
    let record = encode_record("t", payload);
    for size in [1usize, 2, 3, 5, 7, 11, 64] {
        let mut deframer = Deframer::new();
        let rebuilt = rebuild(feed_in_pieces(&mut deframer, &record, size));
        assert_eq!(rebuilt.done, vec![(b"t".to_vec(), payload.to_vec())], "size {}", size);
    }
}

#[test]
fn empty_payload() {
    let record = encode_record("empty.txt", b"");
    let mut deframer = Deframer::new();
    let rebuilt = rebuild(feed_in_pieces(&mut deframer, &record, 4));
    assert_eq!(rebuilt.done, vec![(b"empty.txt".to_vec(), Vec::new())]);
}

#[test]
fn empty_read_changes_nothing_while_awaiting() {
    let mut deframer = Deframer::new();
    deframer.push(b"filename: par");
    let out = deframer.push(b"");
    assert_eq!(out.header, None);
    assert!(out.data.is_empty());
    assert!(!out.complete);
    assert!(!deframer.is_receiving());
    assert_eq!(deframer.pending_len(), 13);
}

#[test]
fn empty_read_changes_nothing_while_receiving() {
    let mut deframer = Deframer::new();
    deframer.push(b"filename: p\nhalf of the payUNIQUE_EOF_MARKER_123");
    assert!(deframer.is_receiving());
    let held = deframer.pending_len();
    let out = deframer.push(b"");
    assert_eq!(out.header, None);
    assert!(out.data.is_empty());
    assert!(!out.complete);
    assert!(deframer.is_receiving());
    assert_eq!(deframer.pending_len(), held);
    let last = deframer.push(b"4");
    assert_eq!(last.data, b"half of the pay".to_vec());
    assert!(last.complete);
}

#[test]
fn empty_read_does_not_flush_a_full_buffer() {
    let mut deframer = Deframer::new();
    let mut first = b"filename: big\n".to_vec();
    first.extend_from_slice(&patterned(3 * FLUSH_THRESHOLD));
    let out = deframer.push(&first);
    assert_eq!(out.data.len(), FLUSH_THRESHOLD);
    assert_eq!(deframer.pending_len(), 2 * FLUSH_THRESHOLD);
    let idle = deframer.push(b"");
    assert!(idle.data.is_empty());
    assert_eq!(deframer.pending_len(), 2 * FLUSH_THRESHOLD);
}

#[test]
fn buffer_reaching_the_threshold_hands_one_block_on() {
    let payload = patterned(FLUSH_THRESHOLD + 100);
    let mut deframer = Deframer::new();
    deframer.push(b"filename: big.bin\n");
    let below = deframer.push(&payload[..FLUSH_THRESHOLD - 1]);
    assert!(below.data.is_empty());
    assert_eq!(deframer.pending_len(), FLUSH_THRESHOLD - 1);
    let at = deframer.push(&payload[FLUSH_THRESHOLD - 1..FLUSH_THRESHOLD]);
    assert_eq!(at.data, payload[..FLUSH_THRESHOLD].to_vec());
    assert!(!at.complete);
    assert!(deframer.is_receiving());
    assert_eq!(deframer.pending_len(), 0);
    let rest = deframer.push(&payload[FLUSH_THRESHOLD..]);
    assert!(rest.data.is_empty());
    assert_eq!(deframer.pending_len(), 100);
    let end = deframer.push(b"UNIQUE_EOF_MARKER_1234");
    assert_eq!(end.data, payload[FLUSH_THRESHOLD..].to_vec());
    assert!(end.complete);
}

#[test]
fn marker_goes_before_the_threshold() {
    let payload = patterned(2 * FLUSH_THRESHOLD);
    let record = encode_record("whole.bin", &payload);
    let mut deframer = Deframer::new();
    let out = deframer.push(&record);
    assert_eq!(out.data, payload);
    assert!(out.complete);
    assert_eq!(deframer.pending_len(), 0);
}

#[test]
fn large_record_in_blocks() {
    let payload = patterned(5 * FLUSH_THRESHOLD + 1234);
    let record = encode_record("large.bin", &payload);
    for size in [FLUSH_THRESHOLD, 1000, 4095, 512] {
        let mut deframer = Deframer::new();
        let mut outs = Vec::new();
        for chunk in record[..record.len() - 22].chunks(size) {
            outs.push(deframer.push(chunk));
        }
        outs.push(deframer.push(&record[record.len() - 22..]));
        let rebuilt = rebuild(outs);
        assert_eq!(rebuilt.done.len(), 1, "size {}", size);
        assert_eq!(rebuilt.done[0].0, b"large.bin".to_vec());
        assert_eq!(rebuilt.done[0].1, payload, "size {}", size);
        assert!(!deframer.is_receiving());
    }
}

#[test]
fn buffer_stays_below_a_block_with_reads_of_at_most_a_block() {
    let payload = patterned(9 * FLUSH_THRESHOLD + 77);
    let record = encode_record("bound.bin", &payload);
    for size in [1usize, 7, 100, 4095, FLUSH_THRESHOLD] {
        let mut deframer = Deframer::new();
        for chunk in record[..record.len() - 22].chunks(size) {
            let before = deframer.pending_len();
            let was_receiving = deframer.is_receiving();
            deframer.push(chunk);
            if was_receiving {
                assert!(before + chunk.len() <= FLUSH_THRESHOLD + chunk.len() - 1);
            }
            if deframer.is_receiving() {
                assert!(deframer.pending_len() < FLUSH_THRESHOLD, "size {}", size);
            }
        }
    }
}

#[test]
fn reads_larger_than_a_block_let_the_buffer_grow() {
    let mut deframer = Deframer::new();
    deframer.push(b"filename: grow\n");
    deframer.push(&patterned(2 * FLUSH_THRESHOLD));
    assert_eq!(deframer.pending_len(), FLUSH_THRESHOLD);
    deframer.push(&patterned(2 * FLUSH_THRESHOLD));
    assert_eq!(deframer.pending_len(), 2 * FLUSH_THRESHOLD);
}

#[test]
fn two_records_one_after_the_other() {
    let first = encode_record("a.txt", b"first payload");
    let second = encode_record("b.txt", b"second payload");
    for size in [1usize, 3, 16, 1000] {
        let mut deframer = Deframer::new();
        let mut outs = feed_in_pieces(&mut deframer, &first, size);
        outs.extend(feed_in_pieces(&mut deframer, &second, size));
        let rebuilt = rebuild(outs);
        assert_eq!(
            rebuilt.done,
            vec![
                (b"a.txt".to_vec(), b"first payload".to_vec()),
                (b"b.txt".to_vec(), b"second payload".to_vec()),
            ],
            "size {}",
            size
        );
        assert!(rebuilt.open.is_none());
        assert!(!deframer.is_receiving());
    }
}

#[test]
fn bytes_behind_the_marker_in_the_same_read_are_dropped() {
    let mut stream = encode_record("a.txt", b"first");
    stream.extend_from_slice(&encode_record("b.txt", b"second"));
    let mut deframer = Deframer::new();
    let out = deframer.push(&stream);
    assert_eq!(out.header, Some(b"a.txt".to_vec()));
    assert_eq!(out.data, b"first".to_vec());
    assert!(out.complete);
    assert!(!deframer.is_receiving());
    assert_eq!(deframer.pending_len(), 0);
}

#[test]
fn block_that_reaches_into_the_marker_loses_the_record() {
    let payload = patterned(FLUSH_THRESHOLD - 6);
    let record = encode_record("cut.bin", &payload);
    let cut = record.len() - 12;
    let mut deframer = Deframer::new();
    let first = deframer.push(&record[..cut]);
    assert_eq!(first.header, Some(b"cut.bin".to_vec()));
    assert_eq!(first.data.len(), FLUSH_THRESHOLD);
    assert_eq!(&first.data[..payload.len()], payload.as_slice());
    assert_eq!(&first.data[payload.len()..], b"UNIQUE");
    assert!(!first.complete);
    let second = deframer.push(&record[cut..]);
    assert!(second.data.is_empty());
    assert!(!second.complete);
    assert!(deframer.is_receiving());
    assert_eq!(deframer.pending_len(), 16);
}

#[test]
fn marker_in_the_payload_ends_the_file_early() {
    let mut deframer = Deframer::new();
    let out = deframer.push(b"filename: x\nabUNIQUE_EOF_MARKER_1234cdUNIQUE_EOF_MARKER_1234");
    assert_eq!(out.data, b"ab".to_vec());
    assert!(out.complete);
    assert_eq!(deframer.pending_len(), 0);
}

#[test]
fn header_prefix_in_the_payload_is_payload() {
    let payload = b"filename: inner\nstill payload";
    let record = encode_record("outer", payload);
    let mut deframer = Deframer::new();
    let rebuilt = rebuild(feed_in_pieces(&mut deframer, &record, 5));
    assert_eq!(rebuilt.done, vec![(b"outer".to_vec(), payload.to_vec())]);
}

#[test]
fn line_feed_in_the_name_cuts_the_name() {
    let mut deframer = Deframer::new();
    let out = deframer.push(b"filename: a\nb\nxyzUNIQUE_EOF_MARKER_1234");
    assert_eq!(out.header, Some(b"a".to_vec()));
    assert_eq!(out.data, b"b\nxyz".to_vec());
    assert!(out.complete);
}

#[test]
fn long_record_split_at_every_offset() {
    let payload = patterned(FLUSH_THRESHOLD + 500);
    let record = encode_record("long.bin", &payload);
    for at in 0..=record.len() {
        let mut deframer = Deframer::new();
        let rebuilt = rebuild(feed_all(&mut deframer, &[&record[..at], &record[at..]]));
        assert_eq!(rebuilt.done.len(), 1, "split at {}", at);
        assert_eq!(rebuilt.done[0].0, b"long.bin".to_vec());
        assert_eq!(rebuilt.done[0].1, payload, "split at {}", at);
        assert!(!deframer.is_receiving());
    }
}

#[test]
fn split_in_two_fails_exactly_where_a_block_reaches_into_the_marker() {
    let payload = patterned(FLUSH_THRESHOLD - 6);
    let record = encode_record("edge.bin", &payload);
    let head = "filename: edge.bin\n".len();
    for at in 0..=record.len() {
        let mut deframer = Deframer::new();
        let rebuilt = rebuild(feed_all(&mut deframer, &[&record[..at], &record[at..]]));
        let block_forced_out = head + FLUSH_THRESHOLD <= at && at < record.len();
        if block_forced_out {
            assert!(rebuilt.done.is_empty(), "split at {}", at);
            assert!(deframer.is_receiving(), "split at {}", at);
        } else {
            assert_eq!(rebuilt.done, vec![(b"edge.bin".to_vec(), payload.clone())], "split at {}", at);
            assert!(!deframer.is_receiving(), "split at {}", at);
        }
    }
}

#[test]
fn byte_by_byte_a_payload_just_short_of_a_block_is_cut() {
    let payload = patterned(FLUSH_THRESHOLD - 6);
    let record = encode_record("cut.bin", &payload);
    let mut deframer = Deframer::new();
    let rebuilt = rebuild(feed_in_pieces(&mut deframer, &record, 1));
    assert!(rebuilt.done.is_empty());
    assert!(deframer.is_receiving());
    let open = rebuilt.open.expect("the file stays open");
    assert_eq!(open.1.len(), FLUSH_THRESHOLD);
    assert_eq!(&open.1[payload.len()..], b"UNIQUE");
}
