//! A reader and writer for the txtar format: one text that holds a comment
//! and, after it, any number of named files, each introduced by a delimiter
//! line of the form `-- name --`.
//!
//! Reading never fails: text that does not form a delimiter line is kept as
//! it stands. Every stored segment is empty or ends with a line feed, so that
//! writing an archive is plain concatenation.
//!
//! - [`bytes`]: the bytes of the format, and the normal form of a segment.
//! - [`split`]: one step of reading, at the first delimiter line.
//! - [`model`], [`parse`], [`format`]: what an archive is, what reading a
//!   text yields and what writing an archive yields.
//! - [`roundtrip`]: when reading what was written yields the archive again.
//! - [`archive`]: archives in memory, with [`Archive::from`] to read one and
//!   [`Archive::to_writer`] to write one.
//! - [`utf8`], [`display`]: archives that are UTF-8, and [`Archive::to_string`].
//! - [`materialize`]: [`Archive::materialize`], which decides the files that an
//!   archive is written out as and refuses what would leave the directory.
//! - [`outside`]: the calls that are taken on trust.

pub mod archive;
pub mod bytes;
pub mod display;
pub mod format;
pub mod materialize;
pub mod model;
pub mod outside;
pub mod parse;
pub mod roundtrip;
pub mod split;
pub mod utf8;

pub use archive::{Archive, File};
pub use materialize::{Materialization, MaterializeError, NewFile};
