//! The wire format: what a record looks like on the link.
//!
//! A record is the header prefix, the file's name, a line feed, the file's
//! bytes, and the end marker. Nothing is escaped and no length is sent:
//! records simply follow one another.

use vstd::prelude::*;
use vstd::string::*;

verus! {

/// The byte that ends the header line, a line feed.
pub const LINE_END: u8 = 0x0a;

/// How many buffered payload bytes make the receiver write a block out
/// before the end marker has arrived.
pub const FLUSH_THRESHOLD: usize = 4096;

/// The bytes of `filename: `, with which every record begins.
pub open spec fn header_prefix() -> Seq<u8> {
    seq![0x66, 0x69, 0x6c, 0x65, 0x6e, 0x61, 0x6d, 0x65, 0x3a, 0x20]
}

/// The bytes of `UNIQUE_EOF_MARKER_1234`, with which every record ends.
pub open spec fn end_marker() -> Seq<u8> {
    seq![
        0x55, 0x4e, 0x49, 0x51, 0x55, 0x45, 0x5f, 0x45, 0x4f, 0x46, 0x5f,
        0x4d, 0x41, 0x52, 0x4b, 0x45, 0x52, 0x5f, 0x31, 0x32, 0x33, 0x34,
    ]
}

/// The header line that announces a file called `name`.
pub open spec fn header_line(name: Seq<u8>) -> Seq<u8> {
    header_prefix() + name + seq![LINE_END]
}

/// The whole record of a file called `name` that holds `payload`.
pub open spec fn wire_record(name: Seq<u8>, payload: Seq<u8>) -> Seq<u8> {
    header_line(name) + payload + end_marker()
}

/// The bytes of `filename: `.
pub fn header_prefix_bytes() -> (bytes: &'static [u8])
    ensures
        bytes@ == header_prefix(),
{
    let text = "filename: ";
    proof {
        reveal_strlit("filename: ");
        is_ascii_spec_bytes(text);
        assert(text.spec_bytes() =~= header_prefix());
    }
    text.as_bytes()
}

/// The bytes of `UNIQUE_EOF_MARKER_1234`.
pub fn end_marker_bytes() -> (bytes: &'static [u8])
    ensures
        bytes@ == end_marker(),
{
    let text = "UNIQUE_EOF_MARKER_1234";
    proof {
        reveal_strlit("UNIQUE_EOF_MARKER_1234");
        is_ascii_spec_bytes(text);
        assert(text.spec_bytes() =~= end_marker());
    }
    text.as_bytes()
}

/// Builds the header line for a file called `name`.
pub fn encode_header(name: &str) -> (line: Vec<u8>)
    ensures
        line@ == header_line(name.spec_bytes()),
{
    let mut line: Vec<u8> = Vec::new();
    line.extend_from_slice(header_prefix_bytes());
    line.extend_from_slice(name.as_bytes());
    line.push(LINE_END);
    assert(line@ =~= header_line(name.spec_bytes()));
    line
}

/// Builds the whole record of a file called `name` that holds `payload`.
pub fn encode_record(name: &str, payload: &[u8]) -> (record: Vec<u8>)
    ensures
        record@ == wire_record(name.spec_bytes(), payload@),
{
    let mut record = encode_header(name);
    record.extend_from_slice(payload);
    record.extend_from_slice(end_marker_bytes());
    assert(record@ =~= wire_record(name.spec_bytes(), payload@));
    record
}

} // verus!
