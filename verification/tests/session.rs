use serial_transfer::session::{next_move, NextMove, ReadEvent, Session};
use serial_transfer::wire::encode_record;

const STAMP: &str = "2024-01-02_03-04-05";

#[test]
fn new_session_has_no_target() {
    let session = Session::new();
    assert!(!session.is_receiving());
    assert_eq!(session.target(), None);
}

#[test]
fn header_creates_the_stored_file() {
    let mut session = Session::new();
    let out = session.feed(b"filename: report.csv\nabc", STAMP);
    assert_eq!(out.created, Some("report_2024-01-02_03-04-05.csv".to_string()));
    assert!(out.data.is_empty());
    assert!(!out.finished);
    assert!(session.is_receiving());
    assert_eq!(session.target(), Some("report_2024-01-02_03-04-05.csv".to_string()));
}

#[test]
fn name_without_extension_is_stored_as_dat() {
    let mut session = Session::new();
    let out = session.feed(b"filename: README\n", STAMP);
    assert_eq!(out.created, Some("README_2024-01-02_03-04-05.dat".to_string()));
}

#[test]
fn whole_record_creates_writes_and_finishes() {
    let mut session = Session::new();
    let out = session.feed(&encode_record("a.txt", b"hello"), STAMP);
    assert_eq!(out.created, Some("a_2024-01-02_03-04-05.txt".to_string()));
    assert_eq!(out.data, b"hello".to_vec());
    assert!(out.finished);
    assert!(!session.is_receiving());
    assert_eq!(session.target(), None);
}

#[test]
fn stamp_is_taken_when_the_header_completes() {
    let mut session = Session::new();
    let first = session.feed(b"filename: late", "1999-12-31_23-59-59");
    assert_eq!(first.created, None);
    let second = session.feed(b".txt\n", "2000-01-01_00-00-00");
    assert_eq!(second.created, Some("late_2000-01-01_00-00-00.txt".to_string()));
    let third = session.feed(b"xUNIQUE_EOF_MARKER_1234", "2000-01-01_00-00-01");
    assert_eq!(third.created, None);
    assert_eq!(third.data, b"x".to_vec());
    assert!(third.finished);
}

#[test]
fn name_that_is_not_utf8_is_read_with_replacement_characters() {
    let mut session = Session::new();
    let out = session.feed(b"filename: a\xffb.txt\n", STAMP);
    assert_eq!(out.created, Some("a\u{fffd}b_2024-01-02_03-04-05.txt".to_string()));
}

#[test]
fn name_beyond_ascii_comes_through() {
    let mut session = Session::new();
    let out = session.feed("filename: r\u{e9}sum\u{e9}.pdf\n".as_bytes(), STAMP);
    assert_eq!(out.created, Some("r\u{e9}sum\u{e9}_2024-01-02_03-04-05.pdf".to_string()));
}

#[test]
fn two_files_in_a_row_get_their_own_names() {
    let mut session = Session::new();
    let first = session.feed(&encode_record("a.txt", b"one"), "2024-01-02_03-04-05");
    let second = session.feed(&encode_record("a.txt", b"two"), "2024-01-02_03-04-06");
    assert_eq!(first.created, Some("a_2024-01-02_03-04-05.txt".to_string()));
    assert_eq!(first.data, b"one".to_vec());
    assert!(first.finished);
    assert_eq!(second.created, Some("a_2024-01-02_03-04-06.txt".to_string()));
    assert_eq!(second.data, b"two".to_vec());
    assert!(second.finished);
}

#[test]
fn clock_names_the_file_in_the_agreed_form() {
    let mut session = Session::new();
    let out = session.feed_now(b"filename: report.csv\n");
    let name = out.created.expect("a header was completed");
    assert!(name.starts_with("report_"));
    assert!(name.ends_with(".csv"));
    let stamp = &name["report_".len()..name.len() - ".csv".len()];
    let shape: String = stamp.chars().map(|c| if c.is_ascii_digit() { '9' } else { c }).collect();
    assert_eq!(shape, "9999-99-99_99-99-99");
    assert_eq!(session.target(), Some(name));
}

#[test]
fn clock_is_not_needed_without_a_header() {
    let mut session = Session::new();
    session.feed(b"filename: a.b\n", STAMP);
    let out = session.feed_now(b"payloadUNIQUE_EOF_MARKER_1234");
    assert_eq!(out.created, None);
    assert_eq!(out.data, b"payload".to_vec());
    assert!(out.finished);
}

#[test]
fn read_loop_goes_on_while_bytes_come() {
    assert_eq!(next_move(&ReadEvent::Bytes(vec![1, 2, 3])), NextMove::ReadAgain);
}

#[test]
fn read_loop_waits_when_nothing_came() {
    assert_eq!(next_move(&ReadEvent::Bytes(Vec::new())), NextMove::AwaitReadable);
    assert_eq!(next_move(&ReadEvent::WouldBlock), NextMove::AwaitReadable);
}

#[test]
fn read_loop_stops_on_a_failure() {
    assert_eq!(next_move(&ReadEvent::Failed), NextMove::Stop);
}

#[test]
fn bytes_are_taken_in_on_a_read() {
    let mut session = Session::new();
    let reaction = session.on_read_at(&ReadEvent::Bytes(encode_record("a.txt", b"hi")), STAMP);
    assert_eq!(reaction.next, NextMove::ReadAgain);
    assert_eq!(reaction.emission.created, Some("a_2024-01-02_03-04-05.txt".to_string()));
    assert_eq!(reaction.emission.data, b"hi".to_vec());
    assert!(reaction.emission.finished);
}

#[test]
fn would_block_is_no_end_of_file() {
    let mut session = Session::new();
    session.feed(b"filename: a.txt\npartial UNIQUE_EOF_MARK", STAMP);
    let target = session.target();
    for event in [ReadEvent::WouldBlock, ReadEvent::Bytes(Vec::new())] {
        let reaction = session.on_read_at(&event, "2030-01-01_00-00-00");
        assert_eq!(reaction.next, NextMove::AwaitReadable);
        assert_eq!(reaction.emission.created, None);
        assert!(reaction.emission.data.is_empty());
        assert!(!reaction.emission.finished);
        assert!(session.is_receiving());
        assert_eq!(session.target(), target);
    }
    let last = session.feed(b"ER_1234", STAMP);
    assert_eq!(last.data, b"partial ".to_vec());
    assert!(last.finished);
}

#[test]
fn failed_read_stops_and_touches_nothing() {
    let mut session = Session::new();
    session.feed(b"filename: a.txt\npartial", STAMP);
    let reaction = session.on_read(&ReadEvent::Failed);
    assert_eq!(reaction.next, NextMove::Stop);
    assert_eq!(reaction.emission.created, None);
    assert!(reaction.emission.data.is_empty());
    assert!(!reaction.emission.finished);
    assert!(session.is_receiving());
    assert_eq!(session.target(), Some("a_2024-01-02_03-04-05.txt".to_string()));
}

#[test]
fn read_with_the_clock_takes_bytes_in() {
    let mut session = Session::new();
    let reaction = session.on_read(&ReadEvent::Bytes(encode_record("n.bin", b"\x00\x01")));
    assert_eq!(reaction.next, NextMove::ReadAgain);
    let name = reaction.emission.created.expect("a header was completed");
    assert_eq!(name.len(), "n_2024-01-02_03-04-05.bin".len());
    assert_eq!(reaction.emission.data, vec![0u8, 1]);
    assert!(reaction.emission.finished);
    let idle = session.on_read(&ReadEvent::WouldBlock);
    assert_eq!(idle.next, NextMove::AwaitReadable);
    assert_eq!(idle.emission.created, None);
}
