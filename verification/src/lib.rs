//! Backend model of an EPUB container editor: a zip archive is unpacked into a
//! working directory, its contents are served through an in-memory cache keyed
//! by the archive's identity, arbitrary edits are applied to the working
//! directory, and the directory is serialized back into a valid archive that
//! atomically replaces the original file.
//!
//! The crate holds the decision logic of that subsystem: identity gating,
//! cache bookkeeping, file-tree construction, match counting and the
//! repackaging plan. The surrounding disk and archive I/O is performed by the
//! embedding application, which feeds results back into these functions.

pub mod cachemap;
pub mod errors;
pub mod laws;
pub mod ops;
pub mod pathing;
pub mod repack;
pub mod search;
pub mod session;
pub mod strutil;
pub mod textutil;
pub mod tree;
