//! A single-node, append-only object store: opaque binary payloads
//! ("needles") are stored under string keys inside fixed-capacity volumes.
//! A volume pairs a data file (length-prefixed needle records) with an
//! index file (an append-only log of offset/length records) that is
//! replayed into an in-memory lookup table on open.
//!
//! The engine itself is purely computational: it operates on the byte
//! contents of the two files, which the surrounding process reads from and
//! appends to disk.

pub mod codec;
pub mod errors;
pub mod index;
pub mod laws;
pub mod needle;
pub mod paths;
pub mod volume;
