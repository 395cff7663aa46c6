//! A personal registry of remote-host connection profiles.
//!
//! Each profile binds a small numeric identifier to a `(user, host)` pair and
//! an optional caller-supplied key file. The registry enforces uniqueness of
//! `(user, host)` pairs and of identifiers, assigns identifiers as one plus
//! the maximum identifier present, and serialises itself to a JSON snapshot
//! that the library itself parses back; the snapshot codec is proved to
//! round-trip. The surrounding command-line program performs the file and
//! process work (reading and writing the snapshot, invoking the secure-shell
//! tools) and delegates every decision to this library.

pub mod commands;
pub mod errors;
pub mod registry;
pub mod snapshot;
pub mod text;
pub mod validate;
