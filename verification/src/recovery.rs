use crate::codec::{
    append_bytes, bytes_eq, data_record, encode_data_record, encode_index_record, index_record, le32,
    le64, lemma_le_roundtrip, read_u64_at, rebuild_len, spec_read_len, u32_at, u64_at,
    u64_to_le_bytes_vec, utf8_to_string, ReadStatus,
};
use crate::engine::{law_get_after_put, spec_get, KEY_LEN, VALUE_LEN};
use crate::index::{lemma_parse_order_keys, parse_index, MAX_KEY_LEN};
use crate::index_scan::{
    find_latest_record, index_prefix, latest_record, lemma_latest_map, lemma_prefix_append,
    lemma_prefix_bounds, lemma_prefix_cut, lemma_prefix_loads, lemma_prefix_rewrite,
    lemma_prefix_torn, lemma_prefix_whole, record_key, record_offset, rewrite_bytes,
    whole_record_at,
};
use crate::error::AppError;
use crate::wal::{operation_byte, put_wal_record, Operation};
use vstd::bytes::{spec_u32_from_le_bytes, spec_u64_from_le_bytes, u32_from_le_bytes};
use vstd::prelude::*;
use vstd::slice::{slice_subrange, slice_to_vec};
use vstd::utf8::{encode_utf8, valid_utf8};

verus! {

/// A record read back from the put write-ahead log.
#[derive(Debug)]
pub struct WalRecord {
    pub operation: Operation,
    pub key: String,
    pub value: String,
    pub offset: u64,
}

/// A log record as plain values: the step, the bytes of key and value, and
/// the data-file offset.
pub struct WalEntry {
    pub operation: Operation,
    pub key: Seq<u8>,
    pub value: Seq<u8>,
    pub offset: u64,
}

impl WalRecord {
    /// The record as plain values.
    pub open spec fn entry(&self) -> WalEntry {
        WalEntry {
            operation: self.operation,
            key: encode_utf8(self.key@),
            value: encode_utf8(self.value@),
            offset: self.offset,
        }
    }
}

/// What reading the put write-ahead log gives.
#[derive(Debug)]
pub enum ReadPutWalStatus {
    /// The log is empty: no write was interrupted.
    EndOfFile,
    /// The record of the interrupted write.
    Record(WalRecord),
}

/// What reading the step byte of the log gives.
#[derive(Debug)]
pub enum ReadOperationStatus {
    Eof,
    CompleteRead(Operation),
    InterruptedFile,
}

/// The step that a log byte names, if any.
pub open spec fn operation_from_byte(b: u8) -> Option<Operation> {
    if b == 1 {
        Some(Operation::WriteInDb)
    } else if b == 2 {
        Some(Operation::WriteInIndex)
    } else {
        None
    }
}

/// Reading a whole length at `pos` of the log; a length cut short is
/// `CorruptedWal`.
pub open spec fn spec_wal_len(wal: Seq<u8>, pos: int) -> Result<nat, AppError> {
    if pos + 4 <= wal.len() {
        Ok(u32_at(wal, pos))
    } else {
        Err(AppError::CorruptedWal)
    }
}

/// Reading the put write-ahead log: nothing when it is empty, else the
/// record it holds; an unknown step, a length, key, value or offset cut
/// short, a key length of 0, a key or value length over its limit, or a key
/// or value that is not UTF-8 is `CorruptedWal`. An empty value is read
/// back, as `put` accepts it.
pub open spec fn parse_put_wal(wal: Seq<u8>) -> Result<Option<WalEntry>, AppError> {
    if wal.len() == 0 {
        Ok(None)
    } else if operation_from_byte(wal[0]) is None {
        Err(AppError::CorruptedWal)
    } else if wal.len() < 9 {
        Err(AppError::CorruptedWal)
    } else {
        let kl = u32_at(wal, 1);
        let vl = u32_at(wal, 5);
        let ks = 9int;
        let vs = ks + kl;
        let os = vs + vl;
        if kl == 0 || kl > KEY_LEN || vl > VALUE_LEN {
            Err(AppError::CorruptedWal)
        } else if vs > wal.len() || !valid_utf8(wal.subrange(ks, vs)) {
            Err(AppError::CorruptedWal)
        } else if os > wal.len() || !valid_utf8(wal.subrange(vs, os)) {
            Err(AppError::CorruptedWal)
        } else if os + 8 > wal.len() {
            Err(AppError::CorruptedWal)
        } else {
            Ok(
                Some(
                    WalEntry {
                        operation: operation_from_byte(wal[0])->Some_0,
                        key: wal.subrange(ks, vs),
                        value: wal.subrange(vs, os),
                        offset: u64_at(wal, os),
                    },
                ),
            )
        }
    }
}

/// Decisions of the recovery of an interrupted write.
pub struct PutRecovery;

impl PutRecovery {
    /// Reads the step byte at the start of the log.
    pub fn read_operation(wal: &[u8]) -> (res: Result<ReadOperationStatus, AppError>)
        ensures
            wal@.len() == 0 ==> res matches Ok(ReadOperationStatus::Eof),
            wal@.len() > 0 ==> match operation_from_byte(wal@[0]) {
                Some(op) => res matches Ok(ReadOperationStatus::CompleteRead(o)) && o == op,
                None => res matches Err(AppError::CorruptedWal),
            },
    {
        if wal.len() == 0 {
            return Ok(ReadOperationStatus::Eof);
        }
        let b = wal[0];
        if b == 1 {
            Ok(ReadOperationStatus::CompleteRead(Operation::WriteInDb))
        } else if b == 2 {
            Ok(ReadOperationStatus::CompleteRead(Operation::WriteInIndex))
        } else {
            Err(AppError::CorruptedWal)
        }
    }

    /// Reads a whole length at `pos` of the log.
    pub fn read_len(wal: &[u8], pos: usize) -> (res: Result<u64, AppError>)
        ensures
            match spec_wal_len(wal@, pos as int) {
                Ok(n) => res == Ok::<u64, AppError>(n as u64),
                Err(e) => res == Err::<u64, AppError>(e),
            },
    {
        let len = wal.len();
        if pos <= len && len - pos >= 4 {
            let n = u32_from_le_bytes(slice_subrange(wal, pos, pos + 4));
            Ok(n as u64)
        } else {
            Err(AppError::CorruptedWal)
        }
    }

    /// Reads the key and value lengths after the step byte and checks them
    /// against their limits.
    pub fn read_key_value_len(wal: &[u8]) -> (res: Result<(u64, u64), AppError>)
        ensures
            wal@.len() >= 9 ==> ({
                let kl = u32_at(wal@, 1);
                let vl = u32_at(wal@, 5);
                if kl == 0 || kl > KEY_LEN || vl > VALUE_LEN {
                    res == Err::<(u64, u64), AppError>(AppError::CorruptedWal)
                } else {
                    res == Ok::<(u64, u64), AppError>((kl as u64, vl as u64))
                }
            }),
            wal@.len() < 9 ==> res == Err::<(u64, u64), AppError>(AppError::CorruptedWal),
    {
        let key_len = Self::read_len(wal, 1)?;
        let value_len = Self::read_len(wal, 5)?;
        if key_len == 0 || key_len > KEY_LEN || value_len > VALUE_LEN {
            return Err(AppError::CorruptedWal);
        }
        Ok((key_len, value_len))
    }

    /// Reads `len` bytes of UTF-8 at `pos` of the log as a string.
    pub fn read_string(wal: &[u8], pos: usize, len: u64) -> (res: Result<String, AppError>)
        requires
            pos <= wal@.len(),
        ensures
            pos + len <= wal@.len() && valid_utf8(wal@.subrange(pos as int, pos + len)) ==> (
            res matches Ok(s) && encode_utf8(s@) == wal@.subrange(pos as int, pos + len)),
            !(pos + len <= wal@.len() && valid_utf8(wal@.subrange(pos as int, pos + len))) ==> res
                == Err::<String, AppError>(AppError::CorruptedWal),
    {
        broadcast use vstd::utf8::group_utf8_lib;

        let n = wal.len();
        if len > (n - pos) as u64 {
            return Err(AppError::CorruptedWal);
        }
        let end = pos + len as usize;
        match utf8_to_string(slice_to_vec(slice_subrange(wal, pos, end))) {
            Some(s) => Ok(s),
            None => Err(AppError::CorruptedWal),
        }
    }

    /// Reads the eight-byte offset at `pos` of the log.
    pub fn read_offset(wal: &[u8], pos: usize) -> (res: Result<u64, AppError>)
        ensures
            pos + 8 <= wal@.len() ==> res == Ok::<u64, AppError>(u64_at(wal@, pos as int)),
            pos + 8 > wal@.len() ==> res == Err::<u64, AppError>(AppError::CorruptedWal),
    {
        let n = wal.len();
        if pos <= n && n - pos >= 8 {
            Ok(read_u64_at(wal, pos))
        } else {
            Err(AppError::CorruptedWal)
        }
    }

    /// Reads the put write-ahead log: `EndOfFile` when it is empty, else
    /// the record of the interrupted write; see `parse_put_wal` for the
    /// errors.
    pub fn read_put_wal(wal: &[u8]) -> (res: Result<ReadPutWalStatus, AppError>)
        ensures
            match parse_put_wal(wal@) {
                Ok(None) => res matches Ok(ReadPutWalStatus::EndOfFile),
                Ok(Some(e)) => res matches Ok(ReadPutWalStatus::Record(r)) && r.entry() == e,
                Err(e) => res matches Err(e2) && e2 == e,
            },
    {
        let operation = match Self::read_operation(wal)? {
            ReadOperationStatus::Eof => return Ok(ReadPutWalStatus::EndOfFile),
            ReadOperationStatus::CompleteRead(op) => op,
            ReadOperationStatus::InterruptedFile => return Err(AppError::CorruptedWal),
        };
        let (key_len, value_len) = Self::read_key_value_len(wal)?;
        let key = Self::read_string(wal, 9, key_len)?;
        let vs = 9 + key_len as usize;
        let value = Self::read_string(wal, vs, value_len)?;
        let offset = Self::read_offset(wal, vs + value_len as usize)?;
        Ok(ReadPutWalStatus::Record(WalRecord { operation, key, value, offset }))
    }
}

/// `bytes` with `r` written at `pos`: the file grows to hold it, and a gap
/// between the old end and `pos` reads as zeros.
pub open spec fn overwrite_at(bytes: Seq<u8>, pos: int, r: Seq<u8>) -> Seq<u8> {
    let n = if pos + r.len() > bytes.len() {
        pos + r.len()
    } else {
        bytes.len() as int
    };
    Seq::new(
        n as nat,
        |i: int|
            if pos <= i < pos + r.len() {
                r[i - pos]
            } else if i < bytes.len() {
                bytes[i]
            } else {
                0u8
            },
    )
}

/// The data file already holds the record of a logged write at its offset.
pub open spec fn record_in_data(data: Seq<u8>, e: WalEntry) -> bool {
    let r = data_record(e.key, e.value);
    &&& e.offset + r.len() <= data.len()
    &&& data.subrange(e.offset as int, e.offset + r.len()) == r
}

/// What recovery does to the data file.
#[derive(Debug)]
pub enum DataStep {
    /// The write was past the data step: the data file is left alone and
    /// the log is not marked again.
    Skip,
    /// The record is in place: the log is marked past the data step.
    Mark,
    /// The record is written at `offset`, then the log is marked.
    Rewrite { offset: u64, record: Vec<u8> },
}

/// The data step that recovery takes for a logged write.
pub open spec fn spec_data_step_is(data: Seq<u8>, e: WalEntry, step: DataStep) -> bool {
    if e.operation == Operation::WriteInIndex {
        step is Skip
    } else if record_in_data(data, e) {
        step is Mark
    } else {
        step matches DataStep::Rewrite { offset, record } && offset == e.offset && record@
            == data_record(e.key, e.value)
    }
}

/// The data file after a data step.
pub open spec fn apply_data_step(data: Seq<u8>, step: DataStep) -> Seq<u8> {
    match step {
        DataStep::Rewrite { offset, record } => overwrite_at(data, offset as int, record@),
        _ => data,
    }
}

/// What recovery does to the index file.
#[derive(Debug)]
pub enum IndexRepair {
    /// The whole index file is read, and the key's latest record holds the
    /// logged offset.
    Keep,
    /// The file is cut at `truncate_at`, the end of its prefix of whole
    /// records, and the offset of the key's latest record, which stands at
    /// `at`, is overwritten with `offset`.
    Rewrite { truncate_at: u64, at: u64, offset: u64 },
    /// The key has no record: the file is cut at `truncate_at`, the end of
    /// its prefix of whole records, and `record` is appended.
    Append { truncate_at: u64, record: Vec<u8> },
}

/// The index repair that recovery takes for a logged write. The index file
/// is read as far as its records are whole (with no limit on a key's
/// length); any torn tail after them is cut off. Nothing changes when the
/// whole file was read and the key's latest record holds the logged
/// offset; else, when the key has a record, the offset of its latest one
/// is overwritten in place; else the key's record is appended.
pub open spec fn spec_index_repair_is(index: Seq<u8>, e: WalEntry, repair: IndexRepair) -> bool {
    let t = index_prefix(index).0;
    match latest_record(index, e.key) {
        None => repair matches IndexRepair::Append { truncate_at, record } && truncate_at == t
            && record@ == index_record(e.key, e.offset),
        Some(s) => if t == index.len() && record_offset(index, s) == e.offset {
            repair is Keep
        } else {
            repair matches IndexRepair::Rewrite { truncate_at, at, offset } && truncate_at == t && at
                == s + 4 + e.key.len() && offset == e.offset
        },
    }
}

/// The index file after a repair.
pub open spec fn apply_index_repair(index: Seq<u8>, repair: IndexRepair) -> Seq<u8> {
    match repair {
        IndexRepair::Keep => index,
        IndexRepair::Rewrite { truncate_at, at, offset } => rewrite_bytes(
            index.subrange(0, truncate_at as int),
            at as int,
            le64(offset),
        ),
        IndexRepair::Append { truncate_at, record } => index.subrange(0, truncate_at as int)
            + record@,
    }
}

/// The data file holds a complete record with these lengths and bytes at
/// `offset` exactly when it holds the data record of those bytes there.
proof fn lemma_record_in_data_steps(data: Seq<u8>, e: WalEntry)
    requires
        e.key.len() <= u32::MAX,
        e.value.len() <= u32::MAX,
    ensures
        record_in_data(data, e) <==> ({
            let o = e.offset as int;
            let ks = o + 8;
            let vs = ks + e.key.len();
            &&& o + 8 <= data.len()
            &&& u32_at(data, o) == e.key.len()
            &&& u32_at(data, o + 4) == e.value.len()
            &&& vs + e.value.len() <= data.len()
            &&& data.subrange(ks, vs) == e.key
            &&& data.subrange(vs, vs + e.value.len()) == e.value
        }),
{
    lemma_le_roundtrip();
    vstd::bytes::lemma_auto_spec_u32_to_from_le_bytes();
    let o = e.offset as int;
    let kl = e.key.len() as int;
    let vl = e.value.len() as int;
    let r = data_record(e.key, e.value);
    assert(le32(e.key.len()).len() == 4);
    assert(le32(e.value.len()).len() == 4);
    assert(r.subrange(0, 4) =~= le32(e.key.len()));
    assert(r.subrange(4, 8) =~= le32(e.value.len()));
    assert(r.subrange(8, 8 + kl) =~= e.key);
    assert(r.subrange(8 + kl, 8 + kl + vl) =~= e.value);
    if record_in_data(data, e) {
        let d = data.subrange(o, o + r.len());
        assert(data.subrange(o, o + 4) =~= d.subrange(0, 4));
        assert(data.subrange(o + 4, o + 8) =~= d.subrange(4, 8));
        assert(data.subrange(o + 8, o + 8 + kl) =~= d.subrange(8, 8 + kl));
        assert(data.subrange(o + 8 + kl, o + 8 + kl + vl) =~= d.subrange(8 + kl, 8 + kl + vl));
    }
    if o + 8 <= data.len() && u32_at(data, o) == e.key.len() && u32_at(data, o + 4)
        == e.value.len() && o + 8 + kl + vl <= data.len() && data.subrange(o + 8, o + 8 + kl)
        == e.key && data.subrange(o + 8 + kl, o + 8 + kl + vl) == e.value {
        let s0 = data.subrange(o, o + 4);
        let s1 = data.subrange(o + 4, o + 8);
        assert(spec_u32_from_le_bytes(s0) == e.key.len());
        assert(vstd::bytes::spec_u32_to_le_bytes(spec_u32_from_le_bytes(s0)) == s0);
        assert(vstd::bytes::spec_u32_to_le_bytes(spec_u32_from_le_bytes(s1)) == s1);
        assert(s0 == le32(e.key.len()));
        assert(s1 == le32(e.value.len()));
        assert(data.subrange(o, o + r.len()) =~= r);
    }
}

/// The data-file decisions of recovery.
pub struct DbRecovery;

impl DbRecovery {
    /// Decides the data step for a logged write: an index-step record skips
    /// the data file; a data-step record whose record is already in place
    /// is marked; any mismatch (a length cut short or different, key or
    /// value bytes missing or different) rewrites the record at its offset.
    pub fn db_recovery(data: &[u8], record: &WalRecord) -> (step: DataStep)
        requires
            record.entry().key.len() <= u32::MAX,
            record.entry().value.len() <= u32::MAX,
        ensures
            spec_data_step_is(data@, record.entry(), step),
    {
        if record.operation == Operation::WriteInIndex {
            return DataStep::Skip;
        }
        let key = record.key.as_str().as_bytes();
        let value = record.value.as_str().as_bytes();
        proof {
            lemma_record_in_data_steps(data@, record.entry());
        }
        let len = data.len();
        let offset = record.offset;
        let key_len = match Self::get_key_len(data, offset) {
            Some(n) => n,
            None => return Self::write_in_db(record),
        };
        if key_len != key.len() as u64 {
            return Self::write_in_db(record);
        }
        assert(offset + 4 <= len);
        let value_len = match Self::get_value_len(data, offset + 4) {
            Some(n) => n,
            None => return Self::write_in_db(record),
        };
        if value_len != value.len() as u64 {
            return Self::write_in_db(record);
        }
        let ks = (offset + 8) as usize;
        if !Self::bytes_at(data, ks, key) {
            return Self::write_in_db(record);
        }
        let vs = ks + key.len();
        if !Self::bytes_at(data, vs, value) {
            return Self::write_in_db(record);
        }
        DataStep::Mark
    }

    /// The key length at `offset`, when a whole one is there.
    fn get_key_len(data: &[u8], offset: u64) -> (res: Option<u64>)
        ensures
            match spec_read_len(data@, offset as int) {
                ReadStatus::CompleteRead(n) => res == Some(n),
                _ => res is None,
            },
    {
        match rebuild_len(data, offset) {
            ReadStatus::CompleteRead(n) => Some(n),
            _ => None,
        }
    }

    /// The value length at `pos`, when a whole one is there.
    fn get_value_len(data: &[u8], pos: u64) -> (res: Option<u64>)
        ensures
            match spec_read_len(data@, pos as int) {
                ReadStatus::CompleteRead(n) => res == Some(n),
                _ => res is None,
            },
    {
        match rebuild_len(data, pos) {
            ReadStatus::CompleteRead(n) => Some(n),
            _ => None,
        }
    }

    /// Whether the file holds `expected` at `pos`.
    fn bytes_at(data: &[u8], pos: usize, expected: &[u8]) -> (res: bool)
        ensures
            res == (pos + expected@.len() <= data@.len() && data@.subrange(
                pos as int,
                pos + expected@.len(),
            ) == expected@),
    {
        let len = data.len();
        if pos > len || expected.len() > len - pos {
            return false;
        }
        bytes_eq(slice_subrange(data, pos, pos + expected.len()), expected)
    }

    /// The step that writes the logged record at its offset.
    fn write_in_db(record: &WalRecord) -> (step: DataStep)
        requires
            record.entry().key.len() <= u32::MAX,
            record.entry().value.len() <= u32::MAX,
        ensures
            step matches DataStep::Rewrite { offset, record: r } && offset == record.offset && r@
                == data_record(record.entry().key, record.entry().value),
    {
        let r = encode_data_record(record.key.as_str().as_bytes(), record.value.as_str().as_bytes());
        DataStep::Rewrite { offset: record.offset, record: r }
    }
}

/// The index-file decisions of recovery.
pub struct IndexRecovery;

impl IndexRecovery {
    /// Decides the index repair for a logged write: the index file is
    /// scanned as far as its records are whole; see `spec_index_repair_is`.
    pub fn index_recovery(index: &[u8], record: &WalRecord) -> (repair: IndexRepair)
        requires
            record.entry().key.len() <= u32::MAX,
        ensures
            spec_index_repair_is(index@, record.entry(), repair),
    {
        let key = record.key.as_str().as_bytes();
        let (t, latest) = find_latest_record(index, key);
        proof {
            lemma_latest_map(index@, 0, Map::empty(), key@, None);
            lemma_prefix_bounds(index@, 0, Map::empty());
        }
        match latest {
            Some(s) => {
                let at = s + 4 + key.len();
                let current = read_u64_at(index, at);
                if t == index.len() && current == record.offset {
                    IndexRepair::Keep
                } else {
                    IndexRepair::Rewrite {
                        truncate_at: t as u64,
                        at: at as u64,
                        offset: record.offset,
                    }
                }
            },
            None => Self::write_in_index(record, t),
        }
    }

    /// The repair that cuts the file at `truncate_at` and appends the
    /// logged key's index record.
    fn write_in_index(record: &WalRecord, truncate_at: usize) -> (repair: IndexRepair)
        requires
            record.entry().key.len() <= u32::MAX,
        ensures
            repair matches IndexRepair::Append { truncate_at: t, record: r } && t == truncate_at
                && r@ == index_record(record.entry().key, record.offset),
    {
        let r = encode_index_record(record.key.as_str().as_bytes(), record.offset);
        IndexRepair::Append { truncate_at: truncate_at as u64, record: r }
    }
}

/// What recovery of the put write-ahead log does, in this order: the data
/// step (a rewrite, then marking the log past the data step), the index
/// repair, then clearing the log.
#[derive(Debug)]
pub enum RecoveryPlan {
    /// The log is empty.
    Nothing,
    /// A write was interrupted.
    Repair { record: WalRecord, data: DataStep, index: IndexRepair },
}

impl PutRecovery {
    /// Decides the recovery of an interrupted write from the contents of
    /// the put write-ahead log, the data file and the index file. An
    /// unreadable log is the error of `read_put_wal`.
    pub fn recovery(wal: &[u8], data: &[u8], index: &[u8]) -> (res: Result<RecoveryPlan, AppError>)
        ensures
            match parse_put_wal(wal@) {
                Err(e) => res matches Err(e2) && e2 == e,
                Ok(None) => res matches Ok(RecoveryPlan::Nothing),
                Ok(Some(e)) => res matches Ok(RecoveryPlan::Repair { record, data: d, index: i }) && {
                    &&& record.entry() == e
                    &&& spec_data_step_is(data@, e, d)
                    &&& spec_index_repair_is(index@, e, i)
                },
            },
    {
        let record = match Self::read_put_wal(wal)? {
            ReadPutWalStatus::EndOfFile => return Ok(RecoveryPlan::Nothing),
            ReadPutWalStatus::Record(r) => r,
        };
        let d = DbRecovery::db_recovery(data, &record);
        let i = IndexRecovery::index_recovery(index, &record);
        Ok(RecoveryPlan::Repair { record, data: d, index: i })
    }
}

/// Law: after the data step of recovery, the data file holds the logged
/// record at its offset, so recovering again marks the log and writes
/// nothing.
pub proof fn law_data_step_idempotent(data: Seq<u8>, e: WalEntry, step: DataStep)
    requires
        e.operation == Operation::WriteInDb,
        spec_data_step_is(data, e, step),
    ensures
        record_in_data(apply_data_step(data, step), e),
        forall|step2: DataStep|
            spec_data_step_is(apply_data_step(data, step), e, step2) ==> step2 is Mark,
{
    let r = data_record(e.key, e.value);
    let d2 = apply_data_step(data, step);
    if step is Rewrite {
        assert(d2.subrange(e.offset as int, e.offset + r.len()) =~= r);
    }
}

/// The eight bytes at `at` once the first `w` bytes of `off` were written
/// over those of `bytes`.
pub open spec fn offset_partly_written(bytes: Seq<u8>, at: int, off: u64, w: int) -> Seq<u8> {
    le64(off).subrange(0, w) + bytes.subrange(at + w, at + 8)
}

/// The index repair of a logged write changes nothing.
pub open spec fn repair_keeps(index: Seq<u8>, e: WalEntry) -> bool {
    &&& latest_record(index, e.key) matches Some(s)
    &&& index_prefix(index).0 == index.len()
    &&& record_offset(index, s) == e.offset
}

/// The index files that a crash during the index repair of a logged write
/// may leave, once the file was cut at the end of its prefix of whole
/// records: any part of the key's record appended, or any part of the new
/// offset written over the old one.
pub open spec fn index_repair_crash(index: Seq<u8>, e: WalEntry, g: Seq<u8>) -> bool {
    let pre = index.subrange(0, index_prefix(index).0);
    let rec = index_record(e.key, e.offset);
    match latest_record(index, e.key) {
        None => exists|w: int|
            #![trigger rec.subrange(0, w)]
            0 <= w <= rec.len() && g == pre + rec.subrange(0, w),
        Some(s) => !repair_keeps(index, e) && exists|w: int|
            #![trigger offset_partly_written(pre, s + 4 + e.key.len(), e.offset, w)]
            0 <= w <= 8 && g == rewrite_bytes(
                pre,
                s + 4 + e.key.len(),
                offset_partly_written(pre, s + 4 + e.key.len(), e.offset, w),
            ),
    }
}

/// What the prefix of whole records tells of the key's latest record, in
/// the file and in the file cut at the end of that prefix.
proof fn lemma_repair_facts(index: Seq<u8>, k: Seq<u8>)
    ensures
        ({
            let (t, m) = index_prefix(index);
            let pre = index.subrange(0, t);
            &&& 0 <= t <= index.len()
            &&& index_prefix(pre) == (t, m)
            &&& latest_record(pre, k) == latest_record(index, k)
            &&& m.contains_key(k) <==> latest_record(index, k) is Some
            &&& latest_record(index, k) matches Some(s) ==> {
                &&& 0 <= s
                &&& s + 4 + k.len() + 8 <= t
                &&& whole_record_at(pre, s)
                &&& record_key(pre, s) == k
                &&& record_offset(pre, s) == record_offset(index, s)
                &&& m[k] == record_offset(index, s)
                &&& pre.subrange(s + 4 + k.len(), s + 4 + k.len() + 8) == index.subrange(
                    s + 4 + k.len(),
                    s + 4 + k.len() + 8,
                )
            }
        }),
{
    let (t, m) = index_prefix(index);
    lemma_prefix_bounds(index, 0, Map::empty());
    lemma_prefix_cut(index, 0, Map::empty(), k, None);
    let pre = index.subrange(0, t);
    lemma_latest_map(index, 0, Map::empty(), k, None);
    lemma_latest_map(pre, 0, Map::empty(), k, None);
    if let Some(s) = latest_record(index, k) {
        let at = s + 4 + k.len();
        assert(pre.subrange(at, at + 8) =~= index.subrange(at, at + 8));
    }
}

/// Law: after the index repair of recovery, the index file is read whole
/// as its old prefix of whole records with the logged key mapped to the
/// logged offset, and loads as that map when no key of it is over the
/// limit; recovering again changes nothing.
pub proof fn law_index_repair_completes(index: Seq<u8>, e: WalEntry, repair: IndexRepair)
    requires
        valid_utf8(e.key),
        e.key.len() <= MAX_KEY_LEN,
        spec_index_repair_is(index, e, repair),
    ensures
        index_prefix(apply_index_repair(index, repair)) == (
            apply_index_repair(index, repair).len() as int,
            index_prefix(index).1.insert(e.key, e.offset),
        ),
        (forall|x: Seq<u8>|
            #![trigger index_prefix(index).1.contains_key(x)]
            index_prefix(index).1.contains_key(x) ==> x.len() <= MAX_KEY_LEN) ==> parse_index(
            apply_index_repair(index, repair),
        ) == Ok::<Map<Seq<u8>, u64>, AppError>(index_prefix(index).1.insert(e.key, e.offset)),
        forall|repair2: IndexRepair|
            spec_index_repair_is(apply_index_repair(index, repair), e, repair2) ==> repair2 is Keep,
{
    let k = e.key;
    let off = e.offset;
    let (t, m) = index_prefix(index);
    lemma_repair_facts(index, k);
    let pre = index.subrange(0, t);
    let after = apply_index_repair(index, repair);
    let rec = index_record(k, off);
    match latest_record(index, k) {
        None => {
            lemma_prefix_append(pre, rec, 0, Map::empty(), k, None);
            assert(rec.subrange(0, rec.len() as int) =~= rec);
            lemma_prefix_torn(pre, k, off, rec.len() as int, m, k, None);
            assert(after == pre + rec);
        },
        Some(s) => {
            if repair is Keep {
                assert(pre =~= index);
                assert(m.insert(k, off) =~= m);
            } else {
                let at = s + 4 + k.len();
                lemma_le_roundtrip();
                lemma_prefix_rewrite(pre, k, s, le64(off), 0, Map::empty(), None);
            }
        },
    }
    lemma_latest_map(after, 0, Map::empty(), k, None);
    if forall|x: Seq<u8>|
        #![trigger index_prefix(index).1.contains_key(x)]
        index_prefix(index).1.contains_key(x) ==> x.len() <= MAX_KEY_LEN {
        lemma_prefix_loads(after, 0, Map::empty());
    }
}

/// Law: the index repair of recovery completes whatever state an
/// interrupted repair left: after the file was cut and any part of the
/// record was appended, or any part of the new offset written, recovering
/// again gives the file of one whole repair.
pub proof fn law_index_repair_rerun(index: Seq<u8>, e: WalEntry, repair: IndexRepair, g: Seq<u8>, repair2: IndexRepair)
    requires
        valid_utf8(e.key),
        e.key.len() <= MAX_KEY_LEN,
        spec_index_repair_is(index, e, repair),
        index_repair_crash(index, e, g),
        spec_index_repair_is(g, e, repair2),
    ensures
        apply_index_repair(g, repair2) == apply_index_repair(index, repair),
{
    let k = e.key;
    let off = e.offset;
    let (t, m) = index_prefix(index);
    lemma_repair_facts(index, k);
    let pre = index.subrange(0, t);
    let rec = index_record(k, off);
    lemma_le_roundtrip();
    vstd::bytes::lemma_auto_spec_u64_to_from_le_bytes();
    match latest_record(index, k) {
        None => {
            let w = choose|w: int| 0 <= w <= rec.len() && g == pre + rec.subrange(0, w);
            let q = rec.subrange(0, w);
            lemma_prefix_append(pre, q, 0, Map::empty(), k, None);
            lemma_prefix_torn(pre, k, off, w, m, k, None);
            if w == rec.len() {
                assert(q =~= rec);
                lemma_latest_map(g, 0, Map::empty(), k, None);
            } else {
                assert(g.subrange(0, t) =~= pre);
            }
        },
        Some(s) => {
            let at = s + 4 + k.len();
            let w = choose|w: int|
                0 <= w <= 8 && g == rewrite_bytes(pre, at, offset_partly_written(pre, at, off, w));
            let v = offset_partly_written(pre, at, off, w);
            lemma_prefix_rewrite(pre, k, s, v, 0, Map::empty(), None);
            lemma_latest_map(g, 0, Map::empty(), k, None);
            assert(g.subrange(at, at + 8) =~= v);
            assert(g.subrange(0, t) =~= g);
            if repair2 is Keep {
                assert(spec_u64_from_le_bytes(v) == off);
                assert(vstd::bytes::spec_u64_to_le_bytes(spec_u64_from_le_bytes(v)) == v);
                assert(v == le64(off));
            } else {
                assert(apply_index_repair(g, repair2) =~= rewrite_bytes(pre, at, le64(off)));
            }
        },
    }
}

/// Law: recovery completes a write that was interrupted at any point. The
/// data file held `d0` and then a prefix of the write's data record (all
/// of it once the log was marked past the data step); the index file held
/// a well-formed `i0` and then a prefix of the write's index record. After
/// the data step and the index repair, the data file is `d0` with the whole
/// record, the index file loads as the old map with the key mapped to the
/// record, and reading the key gives the value.
pub proof fn law_recovery_completes_put(
    d0: Seq<u8>,
    i0: Seq<u8>,
    m: Map<Seq<u8>, u64>,
    op: Operation,
    key: Seq<char>,
    value: Seq<char>,
    data_written: nat,
    index_written: nat,
    data_step: DataStep,
    index_repair: IndexRepair,
)
    requires
        0 < encode_utf8(key).len() <= KEY_LEN,
        encode_utf8(value).len() <= VALUE_LEN,
        d0.len() < u64::MAX,
        parse_index(i0) == Ok::<Map<Seq<u8>, u64>, AppError>(m),
        data_written <= data_record(encode_utf8(key), encode_utf8(value)).len(),
        op == Operation::WriteInIndex ==> data_written == data_record(
            encode_utf8(key),
            encode_utf8(value),
        ).len(),
        index_written <= index_record(encode_utf8(key), d0.len() as u64).len(),
        spec_data_step_is(
            d0 + data_record(encode_utf8(key), encode_utf8(value)).subrange(0, data_written as int),
            WalEntry {
                operation: op,
                key: encode_utf8(key),
                value: encode_utf8(value),
                offset: d0.len() as u64,
            },
            data_step,
        ),
        spec_index_repair_is(
            i0 + index_record(encode_utf8(key), d0.len() as u64).subrange(0, index_written as int),
            WalEntry {
                operation: op,
                key: encode_utf8(key),
                value: encode_utf8(value),
                offset: d0.len() as u64,
            },
            index_repair,
        ),
    ensures
        ({
            let kb = encode_utf8(key);
            let vb = encode_utf8(value);
            let off = d0.len() as u64;
            let data2 = apply_data_step(d0 + data_record(kb, vb).subrange(0, data_written as int), data_step);
            let index2 = apply_index_repair(i0 + index_record(kb, off).subrange(0, index_written as int), index_repair);
            &&& data2 == d0 + data_record(kb, vb)
            &&& parse_index(index2) == Ok::<Map<Seq<u8>, u64>, AppError>(m.insert(kb, off))
            &&& spec_get(data2, m.insert(kb, off), key) == Ok::<Option<Seq<char>>, AppError>(Some(value))
        }),
{
    broadcast use vstd::utf8::group_utf8_lib;

    let kb = encode_utf8(key);
    let vb = encode_utf8(value);
    let off = d0.len() as u64;
    let o = d0.len() as int;
    let r = data_record(kb, vb);
    let data = d0 + r.subrange(0, data_written as int);
    let e = WalEntry { operation: op, key: kb, value: vb, offset: off };
    // The data file.
    if data_written < r.len() {
        assert(!record_in_data(data, e));
        assert(apply_data_step(data, data_step) =~= d0 + r);
    } else {
        assert(r.subrange(0, data_written as int) =~= r);
        assert(data.subrange(o, o + r.len()) =~= r);
    }
    // The index file.
    let ir = index_record(kb, off);
    let q = ir.subrange(0, index_written as int);
    let index = i0 + q;
    lemma_prefix_whole(i0, 0, Map::empty());
    lemma_prefix_append(i0, q, 0, Map::empty(), kb, None);
    lemma_prefix_torn(i0, kb, off, index_written as int, m, kb, latest_record(i0, kb));
    lemma_parse_order_keys(i0, 0, Map::empty(), Seq::empty());
    assert forall|x: Seq<u8>| #[trigger] m.contains_key(x) implies x.len() <= MAX_KEY_LEN by {
        let order = crate::index::parse_index_order(i0);
        assert(order.contains(x));
        let j = choose|j: int| 0 <= j < order.len() && order[j] == x;
    }
    law_index_repair_completes(index, e, index_repair);
    if index_written == ir.len() {
        assert(m.insert(kb, off).insert(kb, off) =~= m.insert(kb, off));
    }
    law_get_after_put(d0, m, key, value);
}

/// Law: the data step of recovery completes whatever state an interrupted
/// rewrite left: after any part of the record was written at its offset,
/// recovering again gives the file of one whole rewrite.
pub proof fn law_data_step_rerun(data: Seq<u8>, e: WalEntry, step: DataStep, written: int, step2: DataStep)
    requires
        e.operation == Operation::WriteInDb,
        spec_data_step_is(data, e, step),
        step is Rewrite,
        0 <= written <= data_record(e.key, e.value).len(),
        spec_data_step_is(
            overwrite_at(data, e.offset as int, data_record(e.key, e.value).subrange(0, written)),
            e,
            step2,
        ),
    ensures
        apply_data_step(
            overwrite_at(data, e.offset as int, data_record(e.key, e.value).subrange(0, written)),
            step2,
        ) == apply_data_step(data, step),
{
    let r = data_record(e.key, e.value);
    let o = e.offset as int;
    let p = overwrite_at(data, o, r.subrange(0, written));
    let full = apply_data_step(data, step);
    assert(full =~= overwrite_at(data, o, r));
    if step2 is Mark {
        assert(p.subrange(o, o + r.len()) == r);
        assert forall|i: int| 0 <= i < p.len() implies p[i] == full[i] by {
            if o <= i < o + r.len() {
                assert(p[i] == p.subrange(o, o + r.len())[i - o]);
            }
        }
        assert(p =~= full);
    } else {
        assert(apply_data_step(p, step2) =~= full);
    }
}

/// The logged write with the log marked past the data step.
pub open spec fn marked_entry(e: WalEntry) -> WalEntry {
    WalEntry { operation: Operation::WriteInIndex, ..e }
}

/// The data file once the data step of recovery is done.
pub open spec fn data_after_step(data: Seq<u8>, e: WalEntry) -> Seq<u8> {
    if e.operation == Operation::WriteInIndex || record_in_data(data, e) {
        data
    } else {
        overwrite_at(data, e.offset as int, data_record(e.key, e.value))
    }
}

/// The log entry and the data and index files that a crash during the
/// recovery of the logged write `e`, from the data file `data` and the
/// index file `index`, may leave: while the data step runs, any part of
/// the record written at its offset; once the log is marked, the whole
/// record, and the index file as it was or as `index_repair_crash` leaves
/// it.
pub open spec fn recovery_crash_state(
    e: WalEntry,
    data: Seq<u8>,
    index: Seq<u8>,
    ge: WalEntry,
    gdata: Seq<u8>,
    gindex: Seq<u8>,
) -> bool {
    let r = data_record(e.key, e.value);
    ||| ge == e && gindex == index && (gdata == data || (e.operation == Operation::WriteInDb
        && !record_in_data(data, e) && exists|w: int|
        0 <= w <= r.len() && gdata == overwrite_at(data, e.offset as int, r.subrange(0, w))))
    ||| ge == marked_entry(e) && gdata == data_after_step(data, e) && (gindex == index
        || index_repair_crash(index, e, gindex))
}

/// The data step is fixed by the files and the log entry.
proof fn lemma_data_step_unique(data: Seq<u8>, e: WalEntry, s1: DataStep, s2: DataStep)
    requires
        spec_data_step_is(data, e, s1),
        spec_data_step_is(data, e, s2),
    ensures
        apply_data_step(data, s1) == apply_data_step(data, s2),
        apply_data_step(data, s1) == data_after_step(data, e),
{
}

/// The index repair is fixed by the file and the log entry's key and
/// offset.
proof fn lemma_index_repair_unique(index: Seq<u8>, e: WalEntry, e2: WalEntry, r1: IndexRepair, r2: IndexRepair)
    requires
        e.key == e2.key,
        e.offset == e2.offset,
        spec_index_repair_is(index, e, r1),
        spec_index_repair_is(index, e2, r2),
    ensures
        apply_index_repair(index, r1) == apply_index_repair(index, r2),
{
}

/// Writing two parts of the same record at the same offset leaves the
/// longer part written.
proof fn lemma_overwrite_twice(data: Seq<u8>, o: int, r: Seq<u8>, w1: int, w2: int)
    requires
        0 <= o,
        0 <= w1 <= r.len(),
        0 <= w2 <= r.len(),
    ensures
        overwrite_at(overwrite_at(data, o, r.subrange(0, w1)), o, r.subrange(0, w2)) == overwrite_at(
            data,
            o,
            r.subrange(0, if w1 < w2 {
                w2
            } else {
                w1
            }),
        ),
{
    let a = overwrite_at(overwrite_at(data, o, r.subrange(0, w1)), o, r.subrange(0, w2));
    let b = overwrite_at(data, o, r.subrange(0, if w1 < w2 { w2 } else { w1 }));
    assert(a =~= b);
}

/// Law: recovery of a write, interrupted at any point, completes when run
/// again: from any state that a crash during it may leave, the next
/// recovery gives the data file and the index file of one whole recovery,
/// and that index file loads whenever the old one did.
pub proof fn law_recovery_rerun(
    e: WalEntry,
    data: Seq<u8>,
    index: Seq<u8>,
    ds: DataStep,
    ir: IndexRepair,
    ge: WalEntry,
    gdata: Seq<u8>,
    gindex: Seq<u8>,
    ds2: DataStep,
    ir2: IndexRepair,
)
    requires
        valid_utf8(e.key),
        e.key.len() <= MAX_KEY_LEN,
        spec_data_step_is(data, e, ds),
        spec_index_repair_is(index, e, ir),
        recovery_crash_state(e, data, index, ge, gdata, gindex),
        spec_data_step_is(gdata, ge, ds2),
        spec_index_repair_is(gindex, ge, ir2),
    ensures
        apply_data_step(gdata, ds2) == apply_data_step(data, ds),
        apply_index_repair(gindex, ir2) == apply_index_repair(index, ir),
        parse_index(index) is Ok ==> parse_index(apply_index_repair(index, ir)) is Ok,
{
    let r = data_record(e.key, e.value);
    law_index_repair_completes(index, e, ir);
    if parse_index(index) is Ok {
        lemma_loaded_keys_short(index);
    }
    lemma_data_step_unique(data, e, ds, ds);
    if ge == e && gindex == index {
        lemma_index_repair_unique(index, e, ge, ir, ir2);
        if gdata == data {
            lemma_data_step_unique(data, e, ds, ds2);
        } else {
            let w = choose|w: int|
                0 <= w <= r.len() && gdata == overwrite_at(data, e.offset as int, r.subrange(0, w));
            law_data_step_rerun(data, e, ds, w, ds2);
        }
    } else {
        assert(ge == marked_entry(e));
        assert(ds2 is Skip);
        if gindex == index {
            lemma_index_repair_unique(index, e, ge, ir, ir2);
        } else {
            assert(spec_index_repair_is(gindex, e, ir2));
            law_index_repair_rerun(index, e, ir, gindex, ir2);
        }
    }
}

/// Law: a crash during a recovery that was itself resumed after a crash
/// leaves a state that a crash during the first recovery may leave, so
/// `law_recovery_rerun` covers any number of interrupted recoveries.
pub proof fn law_recovery_crash_closed(
    e: WalEntry,
    data: Seq<u8>,
    index: Seq<u8>,
    ge: WalEntry,
    gdata: Seq<u8>,
    gindex: Seq<u8>,
    he: WalEntry,
    hdata: Seq<u8>,
    hindex: Seq<u8>,
)
    requires
        valid_utf8(e.key),
        e.key.len() <= MAX_KEY_LEN,
        recovery_crash_state(e, data, index, ge, gdata, gindex),
        recovery_crash_state(ge, gdata, gindex, he, hdata, hindex),
    ensures
        recovery_crash_state(e, data, index, he, hdata, hindex),
{
    let r = data_record(e.key, e.value);
    let o = e.offset as int;
    if ge == e && gindex == index {
        if gdata != data {
            let w1 = choose|w: int|
                0 <= w <= r.len() && gdata == overwrite_at(data, o, r.subrange(0, w));
            if he == e && hindex == index && hdata != gdata {
                let w2 = choose|w: int|
                    0 <= w <= r.len() && hdata == overwrite_at(gdata, o, r.subrange(0, w));
                lemma_overwrite_twice(data, o, r, w1, w2);
            } else if he != e || hindex != index {
                if record_in_data(gdata, e) {
                    lemma_overwrite_twice(data, o, r, w1, r.len() as int);
                    assert(r.subrange(0, r.len() as int) =~= r);
                    let full = overwrite_at(data, o, r);
                    assert(gdata.subrange(o, o + r.len()) == r);
                    assert forall|i: int| 0 <= i < gdata.len() implies gdata[i] == full[i] by {
                        if o <= i < o + r.len() {
                            assert(gdata[i] == gdata.subrange(o, o + r.len())[i - o]);
                        }
                    }
                    assert(gdata =~= full);
                } else {
                    lemma_overwrite_twice(data, o, r, w1, r.len() as int);
                    assert(r.subrange(0, r.len() as int) =~= r);
                }
            }
        }
    } else {
        assert(ge == marked_entry(e));
        assert(marked_entry(ge) == ge);
        if gindex != index && hindex != gindex {
            lemma_index_crash_closed(index, e, gindex, hindex);
        }
    }
}

/// An index file that loads has no key over the limit in its prefix of
/// whole records.
proof fn lemma_loaded_keys_short(index: Seq<u8>)
    requires
        parse_index(index) is Ok,
    ensures
        forall|x: Seq<u8>|
            #![trigger index_prefix(index).1.contains_key(x)]
            index_prefix(index).1.contains_key(x) ==> x.len() <= MAX_KEY_LEN,
{
    lemma_prefix_whole(index, 0, Map::empty());
    lemma_parse_order_keys(index, 0, Map::empty(), Seq::empty());
    let order = crate::index::parse_index_order(index);
    assert forall|x: Seq<u8>|
        #![trigger index_prefix(index).1.contains_key(x)]
        index_prefix(index).1.contains_key(x) implies x.len() <= MAX_KEY_LEN by {
        assert(order.contains(x));
        let j = choose|j: int| 0 <= j < order.len() && order[j] == x;
    }
}

/// A crash during an index repair resumed after a crash leaves an index
/// file that a crash during the first repair may leave.
proof fn lemma_index_crash_closed(index: Seq<u8>, e: WalEntry, g: Seq<u8>, h: Seq<u8>)
    requires
        valid_utf8(e.key),
        e.key.len() <= MAX_KEY_LEN,
        index_repair_crash(index, e, g),
        index_repair_crash(g, e, h),
    ensures
        index_repair_crash(index, e, h),
{
    let k = e.key;
    let off = e.offset;
    let (t, m) = index_prefix(index);
    lemma_repair_facts(index, k);
    let pre = index.subrange(0, t);
    let rec = index_record(k, off);
    lemma_le_roundtrip();
    match latest_record(index, k) {
        None => {
            let w1 = choose|w: int| 0 <= w <= rec.len() && g == pre + rec.subrange(0, w);
            let q = rec.subrange(0, w1);
            lemma_prefix_append(pre, q, 0, Map::empty(), k, None);
            lemma_prefix_torn(pre, k, off, w1, m, k, None);
            if w1 == rec.len() {
                assert(q =~= rec);
                lemma_latest_map(g, 0, Map::empty(), k, None);
                assert(repair_keeps(g, e));
            } else {
                assert(g.subrange(0, t) =~= pre);
                let w2 = choose|w: int| 0 <= w <= rec.len() && h == g.subrange(0, t) + rec.subrange(0, w);
                assert(h == pre + rec.subrange(0, w2));
            }
        },
        Some(s) => {
            let at = s + 4 + k.len();
            let w1 = choose|w: int|
                0 <= w <= 8 && g == rewrite_bytes(pre, at, offset_partly_written(pre, at, off, w));
            let v1 = offset_partly_written(pre, at, off, w1);
            lemma_prefix_rewrite(pre, k, s, v1, 0, Map::empty(), None);
            assert(g.subrange(0, t) =~= g);
            let w2 = choose|w: int|
                0 <= w <= 8 && h == rewrite_bytes(g, at, offset_partly_written(g, at, off, w));
            let w3 = if w1 < w2 {
                w2
            } else {
                w1
            };
            let h3 = rewrite_bytes(pre, at, offset_partly_written(pre, at, off, w3));
            assert(le64(off).len() == 8);
            assert forall|i: int| 0 <= i < h.len() implies h[i] == h3[i] by {
                if at <= i < at + 8 {
                    assert(g[i] == v1[i - at]);
                }
            }
            assert(h =~= h3);
        },
    }
}

/// Writes `src` at `pos` of `dst`, growing it (with zeros before `pos`)
/// where it is too short.
pub fn overwrite_bytes(dst: &mut Vec<u8>, pos: usize, src: &[u8])
    requires
        pos + src@.len() <= usize::MAX,
    ensures
        final(dst)@ == overwrite_at(old(dst)@, pos as int, src@),
{
    let ghost old_dst = dst@;
    while dst.len() < pos
        invariant
            pos + src@.len() <= usize::MAX,
            old_dst.len() <= dst@.len() <= pos || dst@ == old_dst,
            dst@.len() >= old_dst.len(),
            forall|i: int| 0 <= i < dst@.len() ==> #[trigger] dst@[i] == (if i < old_dst.len() {
                old_dst[i]
            } else {
                0u8
            }),
        decreases pos - dst@.len(),
    {
        dst.push(0);
    }
    let mut i: usize = 0;
    while i < src.len()
        invariant
            pos + src@.len() <= usize::MAX,
            i <= src@.len(),
            dst@.len() >= pos + i,
            dst@.len() == if pos + i > old_dst.len() {
                pos + i
            } else {
                old_dst.len() as int
            },
            forall|j: int|
                0 <= j < dst@.len() ==> #[trigger] dst@[j] == (if pos <= j < pos + i {
                    src@[j - pos]
                } else if j < old_dst.len() {
                    old_dst[j]
                } else {
                    0u8
                }),
        decreases src@.len() - i,
    {
        if pos + i < dst.len() {
            dst.set(pos + i, src[i]);
        } else {
            dst.push(src[i]);
        }
        i = i + 1;
    }
    assert(dst@ =~= overwrite_at(old_dst, pos as int, src@));
}

impl DataStep {
    /// Applies the step to an image of the data file.
    pub fn apply_to(&self, data: &mut Vec<u8>)
        requires
            self matches DataStep::Rewrite { offset, record } ==> offset + record@.len()
                <= usize::MAX,
        ensures
            final(data)@ == apply_data_step(old(data)@, *self),
    {
        match self {
            DataStep::Rewrite { offset, record } => {
                overwrite_bytes(data, *offset as usize, record.as_slice());
            },
            _ => {},
        }
    }
}

impl IndexRepair {
    /// Applies the repair to an image of the index file.
    pub fn apply_to(&self, index: &mut Vec<u8>)
        requires
            self matches IndexRepair::Append { truncate_at, record } ==> truncate_at <= old(
                index,
            )@.len(),
            self matches IndexRepair::Rewrite { truncate_at, at, offset } ==> *at + 8
                <= *truncate_at && *truncate_at <= old(index)@.len(),
        ensures
            final(index)@ == apply_index_repair(old(index)@, *self),
    {
        match self {
            IndexRepair::Keep => {},
            IndexRepair::Rewrite { truncate_at, at, offset } => {
                assert(*truncate_at <= old(index)@.len());
                index.truncate(*truncate_at as usize);
                let ghost cut = index@;
                assert(cut.len() == *truncate_at);
                let bytes = u64_to_le_bytes_vec(*offset);
                proof {
                    lemma_le_roundtrip();
                    assert(bytes@.len() == 8);
                }
                overwrite_bytes(index, *at as usize, bytes.as_slice());
                assert(index@ =~= rewrite_bytes(cut, *at as int, le64(*offset)));
            },
            IndexRepair::Append { truncate_at, record } => {
                index.truncate(*truncate_at as usize);
                append_bytes(index, record.as_slice());
            },
        }
    }
}

/// Law: the log record that a write makes reads back as that write's step,
/// key, value and offset.
pub proof fn law_wal_roundtrip(op: Operation, key: Seq<char>, value: Seq<char>, offset: u64)
    requires
        0 < encode_utf8(key).len() <= KEY_LEN,
        encode_utf8(value).len() <= VALUE_LEN,
    ensures
        parse_put_wal(put_wal_record(op, encode_utf8(key), encode_utf8(value), offset)) == Ok::<
            Option<WalEntry>,
            AppError,
        >(
            Some(
                WalEntry {
                    operation: op,
                    key: encode_utf8(key),
                    value: encode_utf8(value),
                    offset,
                },
            ),
        ),
{
    broadcast use vstd::utf8::group_utf8_lib;

    lemma_le_roundtrip();
    let kb = encode_utf8(key);
    let vb = encode_utf8(value);
    let w = put_wal_record(op, kb, vb, offset);
    assert(le32(kb.len()).len() == 4);
    assert(le32(vb.len()).len() == 4);
    assert(le64(offset).len() == 8);
    assert(w.subrange(1, 5) =~= le32(kb.len()));
    assert(w.subrange(5, 9) =~= le32(vb.len()));
    let kl = kb.len() as int;
    let vl = vb.len() as int;
    assert(w.subrange(9, 9 + kl) =~= kb);
    assert(w.subrange(9 + kl, 9 + kl + vl) =~= vb);
    assert(w.subrange(9 + kl + vl, 9 + kl + vl + 8) =~= le64(offset));
}

/// Law: marking the log of a write as past the data step (overwriting its
/// first byte) gives the record of the index step.
pub proof fn law_mark_write_index(key: Seq<u8>, value: Seq<u8>, offset: u64)
    ensures
        put_wal_record(Operation::WriteInDb, key, value, offset).update(
            0,
            operation_byte(Operation::WriteInIndex),
        ) == put_wal_record(Operation::WriteInIndex, key, value, offset),
{
    assert(put_wal_record(Operation::WriteInDb, key, value, offset).update(
        0,
        operation_byte(Operation::WriteInIndex),
    ) =~= put_wal_record(Operation::WriteInIndex, key, value, offset));
}

} // verus!
