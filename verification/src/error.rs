use vstd::prelude::*;

verus! {

/// The errors that the storage logic reports.
#[derive(Debug, PartialEq, Eq, Structural, Clone, Copy)]
pub enum AppError {
    /// A record header in the data file ends in the middle (fewer than four bytes).
    CorruptedDb,
    /// The index file holds a partial or oversized record.
    CorruptedIndex,
    /// The put write-ahead log holds an unknown, partial or out-of-range record.
    CorruptedWal,
    /// A key or value read from disk is not valid UTF-8.
    ConvertUtf8ToString,
    /// The key bytes of a record run past the end of the data file.
    ReadKey,
    /// The value bytes of a record run past the end of the data file.
    ReadValue,
    /// A key is empty or longer than the key limit, or a value is longer than the value limit.
    InvalidKeyValueLen(usize, usize),
    /// A key is empty or longer than the key limit.
    InvalidKey(usize),
    /// The compaction write-ahead log names no known step.
    UnknownCompactOperation,
    /// The data file that compaction replaces does not exist.
    DbFileNotExist,
}

} // verus!
