//! The ways in which building or reading a dictionary can fail.

use vstd::prelude::*;

verus! {

/// Why an operation of this library failed.
#[derive(Debug, Clone, Copy, PartialEq, Eq, Structural)]
pub enum Error {
    /// A value does not fit the width of the bounded integer it was meant for.
    RangeError { value: usize, max: usize },
    /// The dictionary has more entries, a reading more ids, or a key more
    /// bytes than the binary layout has room for.
    CapacityExceeded,
    /// A content record is longer than its two-byte length field can say.
    RecordTooLarge,
    /// A reading has no characters, so it has no leading character to be
    /// indexed by.
    EmptyReading,
    /// A reading refers to an entry id that its partition does not have.
    DanglingReference { partition: u8, source_id: u32 },
    /// A content id at or beyond the number of records, `count`.
    OutOfRange { id: usize, count: usize },
    /// No reading in the lookup blob starts with this character.
    NotFound { character: char },
    /// A record or a key is not valid UTF-8.
    InvalidEncoding,
    /// The blob ends early or its header contradicts its length.
    Corrupt,
}

} // verus!
