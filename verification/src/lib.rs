//! Snapshot and restore engine for directory templates.
//!
//! A template is a directory tree saved as one archive file. Taking a
//! snapshot filters the listing of a tree by ignore rules and by hidden
//! paths, encodes every selected file, and writes the archive; restoring
//! reads the archive back into directories to create and files to write.
//!
//! The library computes and decides; it does not touch the filesystem. Its
//! callers list the tree, read and write the files, and hand plain values in
//! and out.
//!
//! - [`ignore`]: the patterns of an ignore file, compiled with `globset`, and
//!   matching of relative paths against them.
//! - [`walk`]: which entries of a listing a snapshot holds.
//! - [`transform`]: the reversible byte transform of file contents.
//! - [`codec`]: payloads, the transformed bytes as base64 text.
//! - [`archive`]: the line-oriented archive, written and read.
//! - [`roundtrip`]: laws of the archive format.
//! - [`snapshot`]: files to archive text and archive text to files.
//! - [`store`]: template file names, the configuration line, the version.
//! - [`path`], [`text`], [`decimal`]: paths as text, searching and trimming,
//!   numbers as decimal text.

pub mod archive;
pub mod codec;
pub mod decimal;
pub mod ignore;
pub mod path;
pub mod roundtrip;
pub mod snapshot;
pub mod store;
pub mod text;
pub mod transform;
pub mod walk;
