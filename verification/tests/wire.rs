use serial_transfer::wire::{
    encode_header, encode_record, end_marker_bytes, header_prefix_bytes, FLUSH_THRESHOLD,
    LINE_END,
};

#[test]
fn the_markers_are_the_agreed_texts() {
    assert_eq!(header_prefix_bytes(), b"filename: ");
    assert_eq!(end_marker_bytes(), b"UNIQUE_EOF_MARKER_1234");
    assert_eq!(LINE_END, b'\n');
    assert_eq!(FLUSH_THRESHOLD, 4096);
}

#[test]
fn header_line_of_a_name() {
    assert_eq!(encode_header("report.csv"), b"filename: report.csv\n".to_vec());
}

#[test]
fn header_line_of_an_empty_name() {
    assert_eq!(encode_header(""), b"filename: \n".to_vec());
}

#[test]
fn header_line_keeps_the_bytes_of_the_name() {
    let line = encode_header("d\u{e9}j\u{e0}.txt");
    assert_eq!(line, "filename: d\u{e9}j\u{e0}.txt\n".as_bytes().to_vec());
}

#[test]
fn record_of_a_small_file() {
    assert_eq!(
        encode_record("a.txt", b"hello"),
        b"filename: a.txt\nhelloUNIQUE_EOF_MARKER_1234".to_vec()
    );
}

#[test]
fn record_of_an_empty_file() {
    assert_eq!(
        encode_record("empty", b""),
        b"filename: empty\nUNIQUE_EOF_MARKER_1234".to_vec()
    );
}

#[test]
fn record_keeps_every_payload_byte() {
    let payload: Vec<u8> = (0..=255u8).collect();
    let record = encode_record("all.bin", &payload);
    assert_eq!(record.len(), 18 + 256 + 22);
    assert_eq!(&record[18..18 + 256], payload.as_slice());
}
