//! A notebook kept in one text file.
//!
//! The file holds a run of blocks, one for each note: a header line with
//! the identifier of the note and the time of its making, then the content.
//! This library reads and writes that text, makes the short identifiers,
//! and keeps the notes of a store in memory; reading and writing the file
//! itself is left to the caller.
//!
//! - [`text`]: whitespace, lines, words and joining, on characters.
//! - [`escape`]: the escaping of content lines that would read as headers.
//! - [`timestamp`]: points in time as plain values, and the calls into
//!   `chrono`.
//! - [`dates`]: reading the date of a header.
//! - [`parser`]: the blocks of a file, read and written.
//! - [`roundtrip`]: what is written is read back.
//! - [`note`]: notes and their identifiers.
//! - [`manager`]: the notes of a store.

pub mod dates;
pub mod escape;
pub mod manager;
pub mod note;
pub mod parser;
pub mod roundtrip;
pub mod text;
pub mod timestamp;
