use vault::compact_recovery::{CompactAction, CompactRecovery, ReplaceDataAction};
use vault::engine::StorageEngine;
use vault::error::AppError;
use vault::index::Index;
use vault::wal::CompactOperation;
use vault::wal::CompactOperation::{CopyDataTo, CreateIndex, ReplaceData, ReplaceIndex};

fn data_record(k: &str, v: &str) -> Vec<u8> {
    let mut out = Vec::new();
    out.extend_from_slice(&(k.len() as u32).to_le_bytes());
    out.extend_from_slice(&(v.len() as u32).to_le_bytes());
    out.extend_from_slice(k.as_bytes());
    out.extend_from_slice(v.as_bytes());
    out
}

fn index_record(k: &str, off: u64) -> Vec<u8> {
    let mut out = Vec::new();
    out.extend_from_slice(&(k.len() as u32).to_le_bytes());
    out.extend_from_slice(k.as_bytes());
    out.extend_from_slice(&off.to_le_bytes());
    out
}

/// Reads every (key, value) of a compacted pair of files, going from the
/// index records to the data records they point at.
fn read_compacted(data: &[u8], index: &[u8]) -> Vec<(String, String)> {
    let mut out = Vec::new();
    let mut pos = 0usize;
    while pos + 4 <= index.len() {
        let key_len = u32::from_le_bytes(index[pos..pos + 4].try_into().unwrap()) as usize;
        let key = String::from_utf8(index[pos + 4..pos + 4 + key_len].to_vec()).unwrap();
        let o = pos + 4 + key_len;
        let offset = u64::from_le_bytes(index[o..o + 8].try_into().unwrap()) as usize;
        pos = o + 8;
        let kl = u32::from_le_bytes(data[offset..offset + 4].try_into().unwrap()) as usize;
        let vl = u32::from_le_bytes(data[offset + 4..offset + 8].try_into().unwrap()) as usize;
        let dk = String::from_utf8(data[offset + 8..offset + 8 + kl].to_vec()).unwrap();
        let dv = String::from_utf8(data[offset + 8 + kl..offset + 8 + kl + vl].to_vec()).unwrap();
        assert_eq!(key, dk, "Index key does not align with data.temp.db record key");
        out.push((dk, dv));
    }
    assert_eq!(pos, index.len(), "Index contains extra trailing garbage data!");
    out
}

/// The files of a compaction, held in memory.
#[derive(Clone, Debug, PartialEq)]
struct Files {
    data: Option<Vec<u8>>,
    index: Vec<u8>,
    data_temp: Option<Vec<u8>>,
    index_temp: Option<Vec<u8>>,
    wal: Vec<u8>,
}

/// Decides the next step over the files.
fn next(files: &Files) -> Result<CompactAction, AppError> {
    CompactRecovery::recovery(
        &files.wal,
        files.data.as_deref(),
        &files.index,
        files.data_temp.is_some(),
    )
    .map(|w| w.action)
}

/// Does the next step over the files; `stop_before_log` leaves the log as
/// it was, as a crash before the log is moved on does.
fn step(files: &mut Files, stop_before_log: bool) -> Result<CompactAction, AppError> {
    let work = CompactRecovery::recovery(
        &files.wal,
        files.data.as_deref(),
        &files.index,
        files.data_temp.is_some(),
    )?;
    match work.action {
        CompactAction::Done => return Ok(CompactAction::Done),
        CompactAction::CreateDataTemp => files.data_temp = Some(Vec::new()),
        CompactAction::CreateIndexTemp => files.index_temp = Some(Vec::new()),
        CompactAction::WriteDataTemp => files.data_temp = Some(work.bytes.clone()),
        CompactAction::WriteIndexTemp => files.index_temp = Some(work.bytes.clone()),
        CompactAction::RenameData => files.data = files.data_temp.take(),
        CompactAction::KeepData => {}
        CompactAction::ReplaceIndex => {
            files.index = work.bytes.clone();
            files.index_temp = None;
        }
    }
    if !stop_before_log {
        files.wal = match work.action.wal_after() {
            Some(op) => op.to_bytes().to_vec(),
            None => Vec::new(),
        };
    }
    Ok(work.action)
}

/// Takes steps until the log is empty.
fn run(files: &mut Files) -> Result<usize, AppError> {
    let mut steps = 0;
    while step(files, false)? != CompactAction::Done {
        steps += 1;
        assert!(steps <= 6, "compaction does not end");
    }
    Ok(steps)
}

/// A data file with a stale record, two live ones, and its index file.
fn sample() -> (Vec<u8>, Vec<u8>) {
    let mut data = data_record("user_1", "stale_session_old");
    let live_offset_1 = data.len() as u64;
    data.extend(data_record("user_1", "active_session_new"));
    let live_offset_2 = data.len() as u64;
    data.extend(data_record("user_2", "profile_data"));
    let mut index = index_record("user_1", 0);
    index.extend(index_record("user_1", live_offset_1));
    index.extend(index_record("user_2", live_offset_2));
    (data, index)
}

fn started(data: &[u8], index: &[u8]) -> Files {
    Files {
        data: Some(data.to_vec()),
        index: index.to_vec(),
        data_temp: Some(b"stale_garbage_from_crashed_compaction_run".to_vec()),
        index_temp: None,
        wal: CompactOperation::CreateData.to_bytes().to_vec(),
    }
}

#[test]
fn test_create_data_no_existing_temp_db() {
    let work = CompactRecovery::recovery(&CompactOperation::CreateData.to_bytes(), None, &[], false)
        .unwrap();
    assert_eq!(work.action, CompactAction::CreateDataTemp);
    assert!(work.bytes.is_empty(), "data.temp.db length should be 0");
    let next = work.action.wal_after().unwrap();
    assert_eq!(
        next.to_bytes(),
        CreateIndex.to_bytes(),
        "compact.wal did not advance to CreateIndex"
    );
}

#[test]
fn test_create_index_no_existing_temp_db() {
    let work = CompactRecovery::recovery(&CreateIndex.to_bytes(), None, &[], true).unwrap();
    assert_eq!(work.action, CompactAction::CreateIndexTemp);
    assert!(work.bytes.is_empty(), "index.temp.db length should be 0");
    assert_eq!(
        work.action.wal_after().unwrap().to_bytes(),
        CopyDataTo.to_bytes(),
        "compact.wal did not advance to CopyDataTo"
    );
}

#[test]
fn test_copy_data_to_drops_dead_records_and_updates_temp_index() {
    let (data, index) = sample();

    let result = CompactRecovery::copy_data_to(Some(&data), &index);
    assert!(result.is_ok(), "copy_data_to failed: {:?}", result.as_ref().unwrap_err());
    let plan = result.unwrap();

    let pairs = read_compacted(&plan.data, &plan.index);
    for (k, v) in &pairs {
        let expected = match k.as_str() {
            "user_1" => "active_session_new",
            "user_2" => "profile_data",
            _ => panic!("Compacted data contains an unexpected key!"),
        };
        assert_eq!(v, expected, "Compacted data contains incorrect or stale value mappings!");
    }
    assert_eq!(pairs.len(), 2, "Compacted index size should contain exactly 2 live entries");
    assert_eq!(
        CompactAction::WriteIndexTemp.wal_after().unwrap().to_bytes(),
        ReplaceData.to_bytes(),
        "compact.wal was not updated to ReplaceData"
    );
}

#[test]
fn test_copy_data_to_discards_and_rebuilds_garbage_temp_files() {
    let k = "recovery_key";
    let v = "fresh_clean_value";
    let data = data_record(k, v);
    let index = index_record(k, 0);
    let plan = CompactRecovery::copy_data_to(Some(&data), &index).unwrap();
    assert_eq!(
        u32::from_le_bytes(plan.index[0..4].try_into().unwrap()) as usize,
        k.len(),
        "Index was not truncated; still contains garbage data length!"
    );
    let pairs = read_compacted(&plan.data, &plan.index);
    assert_eq!(pairs, vec![(k.to_string(), v.to_string())]);
}

#[test]
fn copy_data_to_reports_a_bad_index_and_a_missing_data_file() {
    let mut index = index_record("k", 0);
    index.push(7);
    assert_eq!(
        CompactRecovery::copy_data_to(Some(&data_record("k", "v")), &index).unwrap_err(),
        AppError::CorruptedIndex
    );
    assert_eq!(
        CompactRecovery::copy_data_to(None, &index_record("k", 0)).unwrap_err(),
        AppError::DbFileNotExist
    );
    let _ = Index::build_index(&[]).unwrap();
}

#[test]
fn test_replace_data_db_missing_returns_error_and_leaves_wal_unchanged() {
    assert!(matches!(
        CompactRecovery::replace_data(false, true),
        Err(AppError::DbFileNotExist)
    ));
    assert!(matches!(
        CompactRecovery::replace_data(false, false),
        Err(AppError::DbFileNotExist)
    ));
    let wal = [5u8];
    let files = Files {
        data: None,
        index: Vec::new(),
        data_temp: Some(b"compacted_clean_data_payload".to_vec()),
        index_temp: None,
        wal: wal.to_vec(),
    };
    let mut after = files.clone();
    assert_eq!(step(&mut after, false).unwrap_err(), AppError::DbFileNotExist);
    assert_eq!(after, files, "WAL should not change when primary data.db is missing");
}

#[test]
fn test_replace_data_temp_exists_replaces_successfully_and_updates_wal() {
    assert_eq!(CompactRecovery::replace_data(true, true), Ok(ReplaceDataAction::Rename));
    let mut files = Files {
        data: Some(Vec::new()),
        index: Vec::new(),
        data_temp: Some(b"compacted_clean_data_payload".to_vec()),
        index_temp: None,
        wal: ReplaceData.to_bytes().to_vec(),
    };
    assert_eq!(step(&mut files, false), Ok(CompactAction::RenameData));
    assert_eq!(files.data_temp, None);
    assert_eq!(files.data, Some(b"compacted_clean_data_payload".to_vec()));
    assert_eq!(files.wal, ReplaceIndex.to_bytes().to_vec());
}

#[test]
fn test_replace_data_temp_missing_triggers_copy_data_to_and_succeeds() {
    assert_eq!(
        CompactRecovery::replace_data(true, false),
        Ok(ReplaceDataAction::AlreadyReplaced)
    );
    let k = "flow_key";
    let v = "live_value";
    let mut files = Files {
        data: Some(data_record(k, v)),
        index: index_record(k, 0),
        data_temp: None,
        index_temp: None,
        wal: ReplaceData.to_bytes().to_vec(),
    };
    assert_eq!(run(&mut files), Ok(2));
    assert_eq!(files.data_temp, None);
    assert_eq!(files.data, Some(data_record(k, v)));
    assert_eq!(files.index, index_record(k, 0));
    assert!(files.wal.is_empty());
}

#[test]
fn compact_recovery_reads_the_log() {
    assert_eq!(next(&started(&[], &[]).clone()).unwrap(), CompactAction::CreateDataTemp);
    let mut files = started(&[], &[]);
    files.wal.clear();
    assert_eq!(next(&files).unwrap(), CompactAction::Done);
    files.wal = vec![9];
    assert_eq!(next(&files).unwrap_err(), AppError::UnknownCompactOperation);
    assert_eq!(CompactRecovery::read_operation(&[]).unwrap(), None);
    assert_eq!(
        CompactRecovery::read_operation(&[4]).unwrap(),
        Some(CompactOperation::CopyIndexTo)
    );
    assert_eq!(CompactAction::ReplaceIndex.wal_after(), None);
    assert_eq!(CompactAction::Done.wal_after(), None);
}

#[test]
fn compaction_runs_to_the_compacted_files() {
    let (data, index) = sample();
    let mut files = started(&data, &index);
    assert_eq!(run(&mut files), Ok(6));

    let mut engine = StorageEngine::new(data.clone(), Index::build_index(&index).unwrap());
    let plan = engine.compact().unwrap();
    assert_eq!(files.data, Some(plan.data.clone()));
    assert_eq!(files.index, plan.index);
    assert_eq!(files.data_temp, None);
    assert_eq!(files.index_temp, None);
    assert!(files.wal.is_empty());
    let reloaded = StorageEngine::new(plan.data, Index::build_index(&files.index).unwrap());
    assert_eq!(reloaded.get("user_1").unwrap(), Some("active_session_new".to_string()));
    assert_eq!(reloaded.get("user_2").unwrap(), Some("profile_data".to_string()));
}

#[test]
fn compaction_resumed_after_a_crash_at_any_step_ends_the_same() {
    let (data, index) = sample();
    let mut whole = started(&data, &index);
    run(&mut whole).unwrap();
    for crash_at in 0..6 {
        for before_log in [false, true] {
            let mut files = started(&data, &index);
            for _ in 0..crash_at {
                step(&mut files, false).unwrap();
            }
            step(&mut files, before_log).unwrap();
            // Recovery at the next start, run twice over.
            let mut again = files.clone();
            run(&mut files).unwrap();
            assert_eq!(files, whole);
            run(&mut again).unwrap();
            run(&mut again).unwrap();
            assert_eq!(again, whole);
        }
    }
}

#[test]
fn index_is_rebuilt_from_the_replaced_data_file() {
    let (data, index) = sample();
    let plan = CompactRecovery::copy_data_to(Some(&data), &index).unwrap();
    // The data file was replaced; the old index file no longer fits it.
    let mut files = Files {
        data: Some(plan.data.clone()),
        index: index.clone(),
        data_temp: None,
        index_temp: Some(b"corrupted_stale_index_bytes".to_vec()),
        wal: ReplaceIndex.to_bytes().to_vec(),
    };
    assert_eq!(run(&mut files), Ok(1));
    assert_eq!(files.index, plan.index);
    assert_eq!(
        CompactRecovery::replace_index(Some(&plan.data)).unwrap(),
        plan.index
    );
    assert_eq!(CompactRecovery::replace_index(None).unwrap_err(), AppError::DbFileNotExist);
    let mut cut = plan.data.clone();
    cut.pop();
    assert_eq!(CompactRecovery::replace_index(Some(&cut)).unwrap_err(), AppError::CorruptedDb);
}
