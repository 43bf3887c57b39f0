use crate::codec::{append_bytes, le32, le64, u32_to_le_bytes_vec, u64_to_le_bytes_vec};
use crate::error::AppError;
use vstd::prelude::*;

verus! {

/// The step of a write that the put write-ahead log records.
#[derive(Debug, PartialEq, Eq, Structural, Clone, Copy)]
pub enum Operation {
    /// The record still has to reach the data file.
    WriteInDb,
    /// The record is in the data file; the index still has to be updated.
    WriteInIndex,
}

/// The byte that stands for an operation in the put write-ahead log.
pub open spec fn operation_byte(op: Operation) -> u8 {
    match op {
        Operation::WriteInDb => 1u8,
        Operation::WriteInIndex => 2u8,
    }
}

impl Operation {
    /// The operation as the one byte that the log stores.
    pub fn to_bytes(self) -> (bytes: [u8; 1])
        ensures
            bytes@ == seq![operation_byte(self)],
    {
        let b: u8 = match self {
            Operation::WriteInDb => 1,
            Operation::WriteInIndex => 2,
        };
        let bytes = [b];
        assert(bytes@ =~= seq![operation_byte(self)]);
        bytes
    }
}

/// The step that an interrupted compaction had reached.
#[derive(Debug, PartialEq, Eq, Structural, Clone, Copy)]
pub enum CompactOperation {
    CreateData,
    CreateIndex,
    CopyDataTo,
    CopyIndexTo,
    ReplaceData,
    ReplaceIndex,
}

/// The byte that stands for a compaction step in the compaction log.
pub open spec fn compact_byte(op: CompactOperation) -> u8 {
    match op {
        CompactOperation::CreateData => 1u8,
        CompactOperation::CreateIndex => 2u8,
        CompactOperation::CopyDataTo => 3u8,
        CompactOperation::CopyIndexTo => 4u8,
        CompactOperation::ReplaceData => 5u8,
        CompactOperation::ReplaceIndex => 6u8,
    }
}

/// The compaction step that a byte names, if any.
pub open spec fn compact_from_byte(b: u8) -> Option<CompactOperation> {
    if b == 1 {
        Some(CompactOperation::CreateData)
    } else if b == 2 {
        Some(CompactOperation::CreateIndex)
    } else if b == 3 {
        Some(CompactOperation::CopyDataTo)
    } else if b == 4 {
        Some(CompactOperation::CopyIndexTo)
    } else if b == 5 {
        Some(CompactOperation::ReplaceData)
    } else if b == 6 {
        Some(CompactOperation::ReplaceIndex)
    } else {
        None
    }
}

/// The step that follows a compaction step; `None` after the last one,
/// when the compaction log is cleared.
pub open spec fn spec_next_step(op: CompactOperation) -> Option<CompactOperation> {
    match op {
        CompactOperation::CreateData => Some(CompactOperation::CreateIndex),
        CompactOperation::CreateIndex => Some(CompactOperation::CopyDataTo),
        CompactOperation::CopyDataTo => Some(CompactOperation::CopyIndexTo),
        CompactOperation::CopyIndexTo => Some(CompactOperation::ReplaceData),
        CompactOperation::ReplaceData => Some(CompactOperation::ReplaceIndex),
        CompactOperation::ReplaceIndex => None,
    }
}

impl CompactOperation {
    /// The step as the one byte that the compaction log stores.
    pub fn to_bytes(self) -> (bytes: [u8; 1])
        ensures
            bytes@ == seq![compact_byte(self)],
    {
        let b: u8 = match self {
            CompactOperation::CreateData => 1,
            CompactOperation::CreateIndex => 2,
            CompactOperation::CopyDataTo => 3,
            CompactOperation::CopyIndexTo => 4,
            CompactOperation::ReplaceData => 5,
            CompactOperation::ReplaceIndex => 6,
        };
        let bytes = [b];
        assert(bytes@ =~= seq![compact_byte(self)]);
        bytes
    }

    /// Reads a step back from its byte; any byte outside 1..=6 is
    /// `UnknownCompactOperation`.
    pub fn from_bytes(bytes: [u8; 1]) -> (res: Result<CompactOperation, AppError>)
        ensures
            match compact_from_byte(bytes@[0]) {
                Some(op) => res == Ok::<CompactOperation, AppError>(op),
                None => res == Err::<CompactOperation, AppError>(AppError::UnknownCompactOperation),
            },
    {
        let b = bytes[0];
        if b == 1 {
            Ok(CompactOperation::CreateData)
        } else if b == 2 {
            Ok(CompactOperation::CreateIndex)
        } else if b == 3 {
            Ok(CompactOperation::CopyDataTo)
        } else if b == 4 {
            Ok(CompactOperation::CopyIndexTo)
        } else if b == 5 {
            Ok(CompactOperation::ReplaceData)
        } else if b == 6 {
            Ok(CompactOperation::ReplaceIndex)
        } else {
            Err(AppError::UnknownCompactOperation)
        }
    }

    /// The step that the compaction log records after this one has been
    /// done; `None` once the last step is done and the log is cleared.
    pub fn next_step(self) -> (next: Option<CompactOperation>)
        ensures
            next == spec_next_step(self),
    {
        match self {
            CompactOperation::CreateData => Some(CompactOperation::CreateIndex),
            CompactOperation::CreateIndex => Some(CompactOperation::CopyDataTo),
            CompactOperation::CopyDataTo => Some(CompactOperation::CopyIndexTo),
            CompactOperation::CopyIndexTo => Some(CompactOperation::ReplaceData),
            CompactOperation::ReplaceData => Some(CompactOperation::ReplaceIndex),
            CompactOperation::ReplaceIndex => None,
        }
    }
}

/// Law: a step's byte reads back as that step, and a byte that reads as a
/// step is that step's byte.
pub proof fn law_compact_byte_roundtrip(op: CompactOperation, b: u8)
    ensures
        compact_from_byte(compact_byte(op)) == Some(op),
        compact_from_byte(b) == Some(op) ==> compact_byte(op) == b,
{
}

/// A record of the put write-ahead log: the step, key length, value length,
/// key, value, and the offset at which the record goes in the data file.
pub open spec fn put_wal_record(op: Operation, key: Seq<u8>, value: Seq<u8>, offset: u64) -> Seq<u8> {
    seq![operation_byte(op)] + le32(key.len()) + le32(value.len()) + key + value + le64(offset)
}

/// The put write-ahead log record of a step, key, value and offset.
pub fn encode_put_record(op: Operation, key: &[u8], value: &[u8], offset: u64) -> (record: Vec<u8>)
    requires
        key@.len() <= u32::MAX,
        value@.len() <= u32::MAX,
    ensures
        record@ == put_wal_record(op, key@, value@, offset),
{
    let tag = op.to_bytes();
    let mut record: Vec<u8> = Vec::new();
    record.push(tag[0]);
    let kl = u32_to_le_bytes_vec(key.len() as u32);
    let vl = u32_to_le_bytes_vec(value.len() as u32);
    let off = u64_to_le_bytes_vec(offset);
    append_bytes(&mut record, kl.as_slice());
    append_bytes(&mut record, vl.as_slice());
    append_bytes(&mut record, key);
    append_bytes(&mut record, value);
    append_bytes(&mut record, off.as_slice());
    assert(record@ =~= put_wal_record(op, key@, value@, offset));
    record
}

} // verus!
