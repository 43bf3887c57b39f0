use vault::engine::StorageEngine;
use vault::error::AppError;
use vault::index::Index;
use vault::recovery::{
    DataStep, DbRecovery, IndexRecovery, IndexRepair, PutRecovery, ReadPutWalStatus, RecoveryPlan,
    WalRecord,
};
use vault::wal::{encode_put_record, Operation};

fn raw_wal(op: u8, key: &str, val: &str, offset: u64) -> Vec<u8> {
    let mut f = vec![op];
    f.extend_from_slice(&(key.len() as u32).to_le_bytes());
    f.extend_from_slice(&(val.len() as u32).to_le_bytes());
    f.extend_from_slice(key.as_bytes());
    f.extend_from_slice(val.as_bytes());
    f.extend_from_slice(&offset.to_le_bytes());
    f
}

fn data_record(k: &str, v: &str) -> Vec<u8> {
    let mut out = Vec::new();
    out.extend_from_slice(&(k.len() as u32).to_le_bytes());
    out.extend_from_slice(&(v.len() as u32).to_le_bytes());
    out.extend_from_slice(k.as_bytes());
    out.extend_from_slice(v.as_bytes());
    out
}

fn index_record(k: &str, off: u64) -> Vec<u8> {
    let mut out = Vec::new();
    out.extend_from_slice(&(k.len() as u32).to_le_bytes());
    out.extend_from_slice(k.as_bytes());
    out.extend_from_slice(&off.to_le_bytes());
    out
}

fn setup_test_wal_record(op: Operation, key: &str, val: &str, offset: u64) -> WalRecord {
    WalRecord {
        operation: op,
        key: key.to_string(),
        value: val.to_string(),
        offset,
    }
}

/// Runs recovery over images of the three files, as the application does
/// over the files; returns the data and index images and whether the log
/// was cleared.
fn run_recovery(wal: &[u8], data: &mut Vec<u8>, index: &mut Vec<u8>) -> Result<bool, AppError> {
    match PutRecovery::recovery(wal, data, index)? {
        RecoveryPlan::Nothing => Ok(false),
        RecoveryPlan::Repair { data: d, index: i, .. } => {
            d.apply_to(data);
            i.apply_to(index);
            Ok(true)
        }
    }
}

#[test]
fn test_empty_wal() {
    let res = PutRecovery::read_put_wal(&[]);
    assert!(res.is_ok());
    assert!(matches!(res.unwrap(), ReadPutWalStatus::EndOfFile));
}

#[test]
fn test_valid_write_in_db() {
    let wal = raw_wal(1, "k1", "value", 100);
    let res = PutRecovery::read_put_wal(&wal);
    assert!(res.is_ok());
    if let ReadPutWalStatus::Record(record) = res.unwrap() {
        assert!(matches!(record.operation, Operation::WriteInDb));
        assert_eq!(record.key, "k1");
        assert_eq!(record.value, "value");
        assert_eq!(record.offset, 100);
    } else {
        panic!("Expected a valid Record enum variant");
    }
}

#[test]
fn test_valid_write_in_index() {
    let wal = raw_wal(2, "key", "val", 250);
    let res = PutRecovery::read_put_wal(&wal);
    assert!(res.is_ok());
    if let ReadPutWalStatus::Record(record) = res.unwrap() {
        assert!(matches!(record.operation, Operation::WriteInIndex));
        assert_eq!(record.key, "key");
        assert_eq!(record.value, "val");
        assert_eq!(record.offset, 250);
    } else {
        panic!("Expected a valid Record enum variant");
    }
}

#[test]
fn test_partial_operation() {
    // An empty log is a clean end, not an interrupted record.
    assert!(matches!(
        PutRecovery::read_put_wal(&[]),
        Ok(ReadPutWalStatus::EndOfFile)
    ));
}

#[test]
fn test_partial_length() {
    let wal = [1u8, 0u8, 0u8];
    let res = PutRecovery::read_put_wal(&wal);
    assert!(res.is_err());
    assert!(matches!(res.unwrap_err(), AppError::CorruptedWal));
}

#[test]
fn test_partial_key_value() {
    let mut wal = vec![1u8];
    wal.extend_from_slice(&50u32.to_le_bytes());
    wal.extend_from_slice(&5u32.to_le_bytes());
    wal.extend_from_slice(b"short");
    let res = PutRecovery::read_put_wal(&wal);
    assert!(res.is_err());
    assert!(matches!(res.unwrap_err(), AppError::CorruptedWal));
}

#[test]
fn test_partial_offset() {
    let mut wal = vec![1u8];
    wal.extend_from_slice(&1u32.to_le_bytes());
    wal.extend_from_slice(&1u32.to_le_bytes());
    wal.extend_from_slice(b"k");
    wal.extend_from_slice(b"v");
    wal.extend_from_slice(&[0u8, 0u8, 0u8]);
    let res = PutRecovery::read_put_wal(&wal);
    assert!(res.is_err());
    assert!(matches!(res.unwrap_err(), AppError::CorruptedWal));
}

#[test]
fn test_invalid_operation() {
    let res = PutRecovery::read_put_wal(&[99u8]);
    assert!(res.is_err());
    assert!(matches!(res.unwrap_err(), AppError::CorruptedWal));
}

#[test]
fn test_invalid_utf8() {
    let mut wal = vec![1u8];
    wal.extend_from_slice(&4u32.to_le_bytes());
    wal.extend_from_slice(&1u32.to_le_bytes());
    wal.extend_from_slice(&[0, 159, 146, 150]);
    wal.extend_from_slice(b"v");
    wal.extend_from_slice(&0u64.to_le_bytes());
    let res = PutRecovery::read_put_wal(&wal);
    assert!(res.is_err());
    assert!(matches!(res.unwrap_err(), AppError::CorruptedWal));
}

#[test]
fn wal_rejects_empty_key_and_oversized_lengths() {
    assert_eq!(
        PutRecovery::read_put_wal(&raw_wal(1, "", "v", 0)).unwrap_err(),
        AppError::CorruptedWal
    );
    assert_eq!(
        PutRecovery::read_put_wal(&raw_wal(1, &"k".repeat(257), "v", 0)).unwrap_err(),
        AppError::CorruptedWal
    );
}

#[test]
fn wal_reads_back_an_empty_value() {
    match PutRecovery::read_put_wal(&raw_wal(1, "k", "", 5)).unwrap() {
        ReadPutWalStatus::Record(r) => {
            assert_eq!(r.operation, Operation::WriteInDb);
            assert_eq!(r.key, "k");
            assert_eq!(r.value, "");
            assert_eq!(r.offset, 5);
        }
        ReadPutWalStatus::EndOfFile => panic!("expected a record"),
    }
    let mut data = Vec::new();
    let mut index = Vec::new();
    let wal = raw_wal(1, "k", "", 0);
    assert_eq!(run_recovery(&wal, &mut data, &mut index), Ok(true));
    let engine = StorageEngine::new(data, Index::build_index(&index).unwrap());
    assert_eq!(engine.get("k").unwrap(), Some(String::new()));
}

#[test]
fn recovery_maps_the_key_to_the_logged_offset_after_later_records() {
    let mut index = index_record("k", 100);
    index.extend_from_slice(&index_record("k", 200));
    let record = setup_test_wal_record(Operation::WriteInIndex, "k", "v", 300);
    let repair = IndexRecovery::index_recovery(&index, &record);
    assert!(matches!(repair, IndexRepair::Rewrite { truncate_at: 26, at: 18, offset: 300 }));
    repair.apply_to(&mut index);
    let mut expected = index_record("k", 100);
    expected.extend_from_slice(&index_record("k", 300));
    assert_eq!(index, expected);
    assert_eq!(Index::build_index(&index).unwrap().get("k"), Some(300));
    // A second recovery leaves the file as it is.
    assert!(matches!(
        IndexRecovery::index_recovery(&index, &record),
        IndexRepair::Keep
    ));
}

#[test]
fn recovery_cuts_a_torn_index_record_of_an_update() {
    let base = index_record("k", 0);
    let full = index_record("k", 40);
    for cut in 0..full.len() {
        let mut index = base.clone();
        index.extend_from_slice(&full[..cut]);
        let record = setup_test_wal_record(Operation::WriteInIndex, "k", "v", 40);
        let repair = IndexRecovery::index_recovery(&index, &record);
        repair.apply_to(&mut index);
        assert_eq!(index, index_record("k", 40));
        assert_eq!(Index::build_index(&index).unwrap().get("k"), Some(40));
    }
}

#[test]
fn recovery_keeps_records_with_long_keys() {
    let long_key = "x".repeat(300);
    let mut kept = index_record(&long_key, 7);
    kept.extend_from_slice(&index_record("a", 1));
    let record = setup_test_wal_record(Operation::WriteInIndex, "k", "v", 40);
    for torn in [Vec::new(), vec![5u8, 0], index_record("z", 3)[..6].to_vec()] {
        let mut index = kept.clone();
        index.extend_from_slice(&torn);
        let repair = IndexRecovery::index_recovery(&index, &record);
        assert!(matches!(repair, IndexRepair::Append { truncate_at, .. } if truncate_at == kept.len() as u64));
        repair.apply_to(&mut index);
        let mut expected = kept.clone();
        expected.extend_from_slice(&index_record("k", 40));
        assert_eq!(index, expected);
    }
    // The logged key itself may have a long record before it.
    let mut index = kept.clone();
    index.extend_from_slice(&index_record("k", 2));
    index.push(9);
    IndexRecovery::index_recovery(&index, &record).apply_to(&mut index);
    let mut expected = kept.clone();
    expected.extend_from_slice(&index_record("k", 40));
    assert_eq!(index, expected);
}

#[test]
fn wal_record_roundtrip() {
    let rec = encode_put_record(Operation::WriteInIndex, b"key", b"value", 77);
    assert_eq!(rec, raw_wal(2, "key", "value", 77));
    match PutRecovery::read_put_wal(&rec).unwrap() {
        ReadPutWalStatus::Record(r) => {
            assert_eq!(r.operation, Operation::WriteInIndex);
            assert_eq!(r.key, "key");
            assert_eq!(r.value, "value");
            assert_eq!(r.offset, 77);
        }
        ReadPutWalStatus::EndOfFile => panic!("expected a record"),
    }
}

#[test]
fn test_wal_empty() {
    let mut data = Vec::new();
    let mut index = Vec::new();
    assert_eq!(run_recovery(&[], &mut data, &mut index), Ok(false));
    assert!(data.is_empty() && index.is_empty());
}

#[test]
fn test_write_in_db_data_missing() {
    let record = setup_test_wal_record(Operation::WriteInDb, "missing_key", "some_value", 0);
    let step = DbRecovery::db_recovery(&[], &record);
    let mut data = Vec::new();
    step.apply_to(&mut data);

    let expected_record = [
        (11u32).to_le_bytes().as_slice(),
        (10u32).to_le_bytes().as_slice(),
        b"missing_key",
        b"some_value",
    ]
    .concat();
    assert_eq!(data, expected_record);

    let mut index = Vec::new();
    IndexRecovery::index_recovery(&index, &record).apply_to(&mut index);
    assert!(!index.is_empty());
}

#[test]
fn test_write_in_db_data_partially_written() {
    let record = setup_test_wal_record(Operation::WriteInDb, "partial_key", "long_value", 0);
    let mut data = 5u32.to_le_bytes().to_vec();
    let step = DbRecovery::db_recovery(&data, &record);
    assert!(matches!(step, DataStep::Rewrite { offset: 0, .. }));
    step.apply_to(&mut data);
    assert_eq!(data.len(), 4 + 4 + 11 + 10);
}

#[test]
fn test_write_in_db_data_already_correct() {
    let k = "correct_key";
    let v = "correct_value";
    let record = setup_test_wal_record(Operation::WriteInDb, k, v, 0);
    let data = data_record(k, v);
    assert!(matches!(DbRecovery::db_recovery(&data, &record), DataStep::Mark));
    let mut index = Vec::new();
    IndexRecovery::index_recovery(&index, &record).apply_to(&mut index);
    assert!(!index.is_empty());
}

#[test]
fn test_write_in_index_key_missing() {
    let record = setup_test_wal_record(Operation::WriteInIndex, "new_index_key", "val", 500);
    let mut index = Vec::new();
    let repair = IndexRecovery::index_recovery(&index, &record);
    repair.apply_to(&mut index);
    let expected_idx = [
        (13u32).to_le_bytes().as_slice(),
        b"new_index_key",
        (500u64).to_le_bytes().as_slice(),
    ]
    .concat();
    assert_eq!(index, expected_idx);
}

#[test]
fn test_write_in_index_key_exists_with_correct_offset() {
    let target_key = "stable_key";
    let record = setup_test_wal_record(Operation::WriteInIndex, target_key, "val", 1024);
    let index = index_record(target_key, 1024);
    assert!(matches!(
        IndexRecovery::index_recovery(&index, &record),
        IndexRepair::Keep
    ));
}

#[test]
fn test_write_in_index_key_exists_with_wrong_offset() {
    let target_key = "migrated_key";
    let record = setup_test_wal_record(Operation::WriteInIndex, target_key, "val", 9999);
    let mut index = index_record(target_key, 1111);
    let repair = IndexRecovery::index_recovery(&index, &record);
    match &repair {
        IndexRepair::Rewrite { truncate_at, at, offset } => {
            assert_eq!(*truncate_at, 24);
            assert_eq!(*at, 16);
            assert_eq!(*offset, 9999);
        }
        other => panic!("expected the offset rewritten, got {:?}", other),
    }
    repair.apply_to(&mut index);
    assert_eq!(index, index_record(target_key, 9999));
}

#[test]
fn test_write_in_index_partial_key() {
    let record = setup_test_wal_record(Operation::WriteInIndex, "broken_index", "val", 45);
    let mut index = 200u32.to_le_bytes().to_vec();
    let repair = IndexRecovery::index_recovery(&index, &record);
    assert!(matches!(repair, IndexRepair::Append { truncate_at: 0, .. }));
    repair.apply_to(&mut index);
    assert_eq!(index, index_record("broken_index", 45));
}

#[test]
fn test_write_in_index_partial_offset() {
    let record = setup_test_wal_record(Operation::WriteInIndex, "bad_offset", "val", 88);
    let mut index = Vec::new();
    index.extend_from_slice(&10u32.to_le_bytes());
    index.extend_from_slice(b"ten_bytes_");
    index.extend_from_slice(&[1u8, 2u8]);
    let repair = IndexRecovery::index_recovery(&index, &record);
    assert!(matches!(repair, IndexRepair::Append { truncate_at: 0, .. }));
    repair.apply_to(&mut index);
    assert_eq!(index, index_record("bad_offset", 88));
}

#[test]
fn test_write_in_index_corrupted_utf8() {
    let record = setup_test_wal_record(Operation::WriteInIndex, "utf8_fail", "val", 12);
    let mut index = Vec::new();
    index.extend_from_slice(&4u32.to_le_bytes());
    index.extend_from_slice(&[0, 159, 146, 150]);
    let repair = IndexRecovery::index_recovery(&index, &record);
    assert!(matches!(repair, IndexRepair::Append { truncate_at: 0, .. }));
    repair.apply_to(&mut index);
    assert_eq!(index, index_record("utf8_fail", 12));
}

#[test]
fn test_flow_recovery_write_in_db_data_missing() {
    let mut data = Vec::new();
    let mut index = Vec::new();
    let wal = raw_wal(1, "flow_key_1", "flow_val_1", 0);
    assert_eq!(run_recovery(&wal, &mut data, &mut index), Ok(true));
    assert!(data.windows(b"flow_key_1".len()).any(|w| w == b"flow_key_1"));
    assert!(!index.is_empty());
}

#[test]
fn test_flow_recovery_write_in_db_data_already_correct() {
    let k = "flow_key_2";
    let v = "flow_val_2";
    let mut data = data_record(k, v);
    let mut index = Vec::new();
    let wal = raw_wal(1, k, v, 0);
    match PutRecovery::recovery(&wal, &data, &index).unwrap() {
        RecoveryPlan::Repair { data: d, .. } => assert!(matches!(d, DataStep::Mark)),
        RecoveryPlan::Nothing => panic!("expected a repair"),
    }
    assert_eq!(run_recovery(&wal, &mut data, &mut index), Ok(true));
    assert_eq!(data, data_record(k, v));
    assert!(!index.is_empty());
}

#[test]
fn test_flow_recovery_write_in_index_index_missing() {
    let mut data = Vec::new();
    let mut index = Vec::new();
    let wal = raw_wal(2, "flow_key_3", "flow_val_3", 500);
    assert_eq!(run_recovery(&wal, &mut data, &mut index), Ok(true));
    assert!(data.is_empty());
    let idx_str = String::from_utf8_lossy(&index);
    assert!(idx_str.contains("flow_key_3"));
}

#[test]
fn recovery_of_every_interrupted_first_write_reads_the_value() {
    let base_data = data_record("a", "1");
    let base_index = index_record("a", 0);
    let rec = data_record("key", "value");
    let irec = index_record("key", base_data.len() as u64);
    for dw in 0..=rec.len() {
        for iw in 0..=irec.len() {
            for op in [1u8, 2u8] {
                if op == 2 && dw < rec.len() {
                    continue;
                }
                let mut data = base_data.clone();
                data.extend_from_slice(&rec[..dw]);
                let mut index = base_index.clone();
                index.extend_from_slice(&irec[..iw]);
                let wal = raw_wal(op, "key", "value", base_data.len() as u64);
                assert_eq!(run_recovery(&wal, &mut data, &mut index), Ok(true));
                let mut expected = base_data.clone();
                expected.extend_from_slice(&rec);
                assert_eq!(data, expected);
                let engine = StorageEngine::new(data, Index::build_index(&index).unwrap());
                assert_eq!(engine.get("key").unwrap(), Some("value".to_string()));
                assert_eq!(engine.get("a").unwrap(), Some("1".to_string()));
                // Recovering again changes nothing.
                match PutRecovery::recovery(&wal, &expected, &index).unwrap() {
                    RecoveryPlan::Repair { data: d, index: i, .. } => {
                        assert!(!matches!(d, DataStep::Rewrite { .. }));
                        assert!(matches!(i, IndexRepair::Keep));
                    }
                    RecoveryPlan::Nothing => panic!("expected a repair"),
                }
            }
        }
    }
}

#[test]
fn recovery_of_an_interrupted_update_reads_the_new_value() {
    let base_data = data_record("key", "old");
    let base_index = index_record("key", 0);
    let rec = data_record("key", "new");
    let off = base_data.len() as u64;
    let irec = index_record("key", off);
    for dw in 0..=rec.len() {
        for appended in [false, true] {
            if appended && dw < rec.len() {
                continue;
            }
            for op in [1u8, 2u8] {
                if op == 2 && dw < rec.len() {
                    continue;
                }
                let mut data = base_data.clone();
                data.extend_from_slice(&rec[..dw]);
                let mut index = base_index.clone();
                if appended {
                    index.extend_from_slice(&irec);
                }
                let wal = raw_wal(op, "key", "new", off);
                assert_eq!(run_recovery(&wal, &mut data, &mut index), Ok(true));
                let engine = StorageEngine::new(data, Index::build_index(&index).unwrap());
                assert_eq!(engine.get("key").unwrap(), Some("new".to_string()));
            }
        }
    }
}

#[test]
fn marking_the_log_turns_it_into_the_index_step() {
    let mut wal = encode_put_record(Operation::WriteInDb, b"k", b"v", 9);
    wal[0] = Operation::WriteInIndex.to_bytes()[0];
    assert_eq!(wal, encode_put_record(Operation::WriteInIndex, b"k", b"v", 9));
}

#[test]
fn recovery_interrupted_at_any_point_ends_as_one_run() {
    let base_data = data_record("key", "old");
    let mut base_index = index_record("key", 0);
    base_index.extend_from_slice(&[3u8, 0]);
    let off = base_data.len() as u64;
    let rec = data_record("key", "new");
    let wal = raw_wal(1, "key", "new", off);

    let mut one_data = base_data.clone();
    let mut one_index = base_index.clone();
    assert_eq!(run_recovery(&wal, &mut one_data, &mut one_index), Ok(true));
    assert_eq!(one_index, index_record("key", off));

    // A crash while the data record is rewritten.
    for w in 0..=rec.len() {
        let mut data = base_data.clone();
        data.extend_from_slice(&rec[..w]);
        let mut index = base_index.clone();
        assert_eq!(run_recovery(&wal, &mut data, &mut index), Ok(true));
        assert_eq!(data, one_data);
        assert_eq!(index, one_index);
    }
    // A crash after the log was marked: before the cut, or after it while
    // the new offset is written over the old one.
    let marked = raw_wal(2, "key", "new", off);
    let mut states = vec![base_index.clone()];
    for w in 0..=8 {
        let mut index = index_record("key", 0);
        index[7..7 + w].copy_from_slice(&off.to_le_bytes()[..w]);
        states.push(index);
    }
    for mut index in states {
        let mut data = one_data.clone();
        assert_eq!(run_recovery(&marked, &mut data, &mut index), Ok(true));
        assert_eq!(data, one_data);
        assert_eq!(index, one_index);
    }
}
