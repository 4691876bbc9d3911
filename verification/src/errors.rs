//! Typed failures of the volume engine.
//!
//! Every failed operation reports one of these, carrying enough structured
//! detail (volume id, offsets, lengths) for the caller to log and act on.
//! Corruption is distinguished from ordinary not-found and overflow
//! conditions so a caller can decide whether to quarantine a volume.

use vstd::prelude::*;

verus! {

/// One error per failed volume operation.
#[derive(Clone, Copy, Debug, PartialEq, Eq, Structural)]
pub enum VolumeError {
    /// A create target (data or index file) is already present.
    AlreadyExists { id: u64 },
    /// The requested key is not in the volume's index.
    NotFound,
    /// The volume is not writable, or the needle does not fit into the
    /// remaining capacity. Nothing was changed.
    Overflow { id: u64, max_length: u64, current_length: u64, needle_length: u64 },
    /// The needle announced one total length but its body delivered another.
    /// Nothing was committed.
    WriteLengthMismatch { id: u64, expected: u64, received: u64 },
    /// The data file's size disagrees with the index (on open), or an index
    /// entry points past the volume's current length (on read).
    DataCorruption { id: u64, current_length: u64, offset: u64, length: u64 },
    /// A volume file path did not have the expected shape.
    PathParse,
    /// A volume file stem could not be parsed as a numeric id.
    NameParse,
    /// An underlying file operation failed (reported by the I/O layer
    /// around the engine; the engine itself never produces it).
    Io,
    /// Delivery of a large read's chunks broke down (reported by the I/O
    /// layer around the engine; the engine itself never produces it).
    ChannelFailure,
}

} // verus!
