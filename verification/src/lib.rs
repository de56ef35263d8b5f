//! Framing of files on a raw serial byte stream.
//!
//! A serial link carries bytes and nothing else: no packets, no lengths,
//! no checksums. A file travels over it as a record: a header line with
//! its name, its bytes, and a closing marker. The sending side produces
//! that record piece by piece; the receiving side cuts a stream of read
//! chunks of any size back into files.
//!
//! - [`wire`] says what a record looks like on the link.
//! - [`search`] finds the header prefix, the line feed and the end marker.
//! - [`framing`] is the deframer: what one read chunk does to the buffer.
//! - [`naming`] derives the name under which a received file is stored.
//! - [`session`] is the receiving side: from read results to file actions.
//! - [`sender`] is the sending side: which write, read or pause comes next.
//! - [`stream`], [`record`] and [`passage`] describe whole streams and the
//!   way of one record through the deframer.
//! - [`laws`] states what holds of every stream and every transfer.
//!
//! The library touches neither the link nor the file system. Its callers
//! read, write, sleep and open files, and tell it what happened.

pub mod search;
pub mod wire;
pub mod framing;
pub mod naming;
pub mod session;
pub mod sender;
pub mod stream;
pub mod record;
pub mod passage;
pub mod laws;
