use vstd::prelude::*;

verus! {

/// Why the handler cannot go on.
///
/// None of these is an answer to the initiator: a command that is merely not supported is
/// answered with sense data. These are the faults of the ring itself, after which its contents
/// can no longer be trusted.
#[derive(Clone, Copy, Debug, PartialEq, Eq, Structural)]
pub enum TcmuError {
    /// An offset found in the ring leads outside the shared region.
    OutOfBounds,
    /// An entry is neither a command nor padding. Holds its op code.
    UnknownOp(u32),
    /// The first byte of a command block belongs to an operation code group whose length is not
    /// known. Holds the group.
    UnknownCdbGroup(u8),
    /// The byte range of a read or a write does not fit in 64 bits.
    LbaOverflow,
    /// A ring offset does not fit in 32 bits.
    OffsetOverflow,
    /// The ring has no room for an entry, so there is no next entry to go to.
    EmptyRing,
    /// More entries were handled than can be counted.
    TooManyEntries,
}

} // verus!
