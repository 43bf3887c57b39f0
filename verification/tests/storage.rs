use vault::codec::{rebuild_len, ReadStatus};
use vault::compaction::compact_data;
use vault::engine::{read_record, StorageEngine};
use vault::error::AppError;
use vault::index::Index;

fn index_bytes(entries: &[(&str, u64)]) -> Vec<u8> {
    let mut out = Vec::new();
    for (k, off) in entries {
        out.extend_from_slice(&(k.len() as u32).to_le_bytes());
        out.extend_from_slice(k.as_bytes());
        out.extend_from_slice(&off.to_le_bytes());
    }
    out
}

fn data_record(k: &str, v: &str) -> Vec<u8> {
    let mut out = Vec::new();
    out.extend_from_slice(&(k.len() as u32).to_le_bytes());
    out.extend_from_slice(&(v.len() as u32).to_le_bytes());
    out.extend_from_slice(k.as_bytes());
    out.extend_from_slice(v.as_bytes());
    out
}

fn build_test_engine(data: Vec<u8>, index: &[(&str, u64)]) -> StorageEngine {
    let index = Index::build_index(&index_bytes(index)).unwrap();
    StorageEngine::new(data, index)
}

#[test]
fn test_empty_db() {
    let engine = build_test_engine(Vec::new(), &[]);
    let res = engine.get("any_key");
    assert!(res.is_ok());
    assert_eq!(res.unwrap(), None);
}

#[test]
fn test_valid_db() {
    let mut engine = build_test_engine(Vec::new(), &[]);
    let put_res = engine.put("hello".to_string(), "world".to_string());
    assert!(put_res.is_ok());

    let get_res = engine.get("hello");
    assert!(get_res.is_ok());
    assert_eq!(get_res.unwrap(), Some("world".to_string()));
}

#[test]
fn test_partial_header() {
    let engine = build_test_engine(vec![1u8, 2u8], &[("target_key", 0)]);
    let get_res = engine.get("target_key");
    assert!(get_res.is_err());
    match get_res.unwrap_err() {
        AppError::CorruptedDb => {}
        other => panic!("Expected AppError::CorruptedDb, got: {:?}", other),
    }
}

#[test]
fn test_partial_key() {
    let mut data = Vec::new();
    data.extend_from_slice(&10u32.to_le_bytes());
    data.extend_from_slice(&5u32.to_le_bytes());
    data.extend_from_slice(b"abc");
    let engine = build_test_engine(data, &[("missing_key_bytes", 0)]);

    let get_res = engine.get("missing_key_bytes");
    assert!(get_res.is_err());
    match get_res.unwrap_err() {
        AppError::ReadKey => {}
        other => panic!("Expected AppError::ReadKey, got: {:?}", other),
    }
}

#[test]
fn test_partial_value() {
    let target_key = "my_key";
    let mut data = Vec::new();
    data.extend_from_slice(&(target_key.len() as u32).to_le_bytes());
    data.extend_from_slice(&500u32.to_le_bytes());
    data.extend_from_slice(target_key.as_bytes());
    data.extend_from_slice(b"short_value");
    let engine = build_test_engine(data, &[(target_key, 0)]);

    let get_res = engine.get(target_key);
    assert!(get_res.is_err());
    match get_res.unwrap_err() {
        AppError::ReadValue => {}
        other => panic!("Expected AppError::ReadValue, got: {:?}", other),
    }
}

#[test]
fn test_valid_records_before_partial_corruption() {
    let mut bytes = Vec::new();
    bytes.extend_from_slice(&2u32.to_le_bytes());
    bytes.extend_from_slice(b"k1");
    bytes.extend_from_slice(&100u64.to_le_bytes());
    bytes.extend_from_slice(&2u32.to_le_bytes());
    bytes.extend_from_slice(b"k2");
    bytes.extend_from_slice(&200u64.to_le_bytes());
    bytes.extend_from_slice(&[9u8, 9u8]);

    let load_res = Index::build_index(&bytes);
    assert!(load_res.is_err());
    match load_res.unwrap_err() {
        AppError::CorruptedIndex => {}
        other => panic!("Expected AppError::CorruptedIndex, got: {:?}", other),
    }
}

#[test]
fn put_plan_holds_the_records_in_file_order() {
    let mut engine = build_test_engine(data_record("a", "1"), &[("a", 0)]);
    let plan = engine.put("key".to_string(), "value".to_string()).unwrap();
    assert_eq!(plan.offset, 10);
    assert_eq!(plan.data_record, data_record("key", "value"));
    assert_eq!(plan.index_record, index_bytes(&[("key", 10)]));
    let mut wal = vec![1u8];
    wal.extend_from_slice(&3u32.to_le_bytes());
    wal.extend_from_slice(&5u32.to_le_bytes());
    wal.extend_from_slice(b"keyvalue");
    wal.extend_from_slice(&10u64.to_le_bytes());
    assert_eq!(plan.wal_record, wal);
}

#[test]
fn put_rejects_bad_lengths() {
    let mut engine = build_test_engine(Vec::new(), &[]);
    assert_eq!(
        engine.put(String::new(), "v".to_string()).unwrap_err(),
        AppError::InvalidKeyValueLen(0, 1)
    );
    let long_key = "k".repeat(257);
    assert_eq!(
        engine.put(long_key, "v".to_string()).unwrap_err(),
        AppError::InvalidKeyValueLen(257, 1)
    );
    let long_value = "v".repeat(1024 * 1024 + 1);
    assert_eq!(
        engine.put("k".to_string(), long_value).unwrap_err(),
        AppError::InvalidKeyValueLen(1, 1024 * 1024 + 1)
    );
    // A key of exactly 256 bytes and an empty value are accepted.
    assert!(engine.put("k".repeat(256), String::new()).is_ok());
    assert_eq!(engine.get(&"k".repeat(256)).unwrap(), Some(String::new()));
}

#[test]
fn get_rejects_bad_keys() {
    let engine = build_test_engine(Vec::new(), &[]);
    assert_eq!(engine.get("").unwrap_err(), AppError::InvalidKey(0));
    assert_eq!(engine.get(&"x".repeat(300)).unwrap_err(), AppError::InvalidKey(300));
}

#[test]
fn update_reads_latest_value_and_keeps_other_keys() {
    let mut engine = build_test_engine(Vec::new(), &[]);
    engine.put("a".to_string(), "1".to_string()).unwrap();
    engine.put("b".to_string(), "2".to_string()).unwrap();
    engine.put("a".to_string(), "3".to_string()).unwrap();
    assert_eq!(engine.get("a").unwrap(), Some("3".to_string()));
    assert_eq!(engine.get("b").unwrap(), Some("2".to_string()));
    assert_eq!(engine.get("c").unwrap(), None);
}

#[test]
fn get_of_record_with_other_key_is_none() {
    let engine = build_test_engine(data_record("other", "v"), &[("mine", 0)]);
    assert_eq!(engine.get("mine").unwrap(), None);
}

#[test]
fn get_past_end_is_none() {
    let engine = build_test_engine(data_record("k", "v"), &[("k", 100)]);
    assert_eq!(engine.get("k").unwrap(), None);
}

#[test]
fn get_of_invalid_utf8_value_fails() {
    let mut data = Vec::new();
    data.extend_from_slice(&1u32.to_le_bytes());
    data.extend_from_slice(&2u32.to_le_bytes());
    data.extend_from_slice(b"k");
    data.extend_from_slice(&[0xff, 0xfe]);
    let engine = build_test_engine(data, &[("k", 0)]);
    assert_eq!(engine.get("k").unwrap_err(), AppError::ConvertUtf8ToString);
}

#[test]
fn rebuild_len_reports_eof_complete_and_corrupt_tail() {
    let bytes = [7u8, 0, 0, 0, 1, 2];
    assert_eq!(rebuild_len(&bytes, 0), ReadStatus::CompleteRead(7));
    assert_eq!(rebuild_len(&bytes, 4), ReadStatus::CorruptTail);
    assert_eq!(rebuild_len(&bytes, 6), ReadStatus::Eof);
    assert_eq!(rebuild_len(&bytes, 60), ReadStatus::Eof);
}

#[test]
fn read_record_reads_a_value() {
    let data = data_record("key", "value");
    assert_eq!(read_record(&data, 0, b"key").unwrap(), Some("value".to_string()));
    assert_eq!(read_record(&data, 0, b"kez").unwrap(), None);
}

#[test]
fn build_index_keeps_latest_offset_and_rejects_bad_keys() {
    let index = Index::build_index(&index_bytes(&[("a", 1), ("b", 2), ("a", 3)])).unwrap();
    assert_eq!(index.get("a"), Some(3));
    assert_eq!(index.get("b"), Some(2));
    assert_eq!(index.get("c"), None);
    assert_eq!(index.len(), 2);

    let mut long = Vec::new();
    long.extend_from_slice(&257u32.to_le_bytes());
    long.extend(std::iter::repeat(b'a').take(257));
    long.extend_from_slice(&0u64.to_le_bytes());
    assert_eq!(Index::build_index(&long).unwrap_err(), AppError::CorruptedIndex);

    let mut bad = Vec::new();
    bad.extend_from_slice(&1u32.to_le_bytes());
    bad.push(0xff);
    bad.extend_from_slice(&0u64.to_le_bytes());
    assert_eq!(Index::build_index(&bad).unwrap_err(), AppError::ConvertUtf8ToString);
}

#[test]
fn index_put_appends_a_record_that_loads_back() {
    let mut index = Index::build_index(&[]).unwrap();
    let rec = index.put("hello".to_string(), 42).unwrap();
    assert_eq!(rec, index_bytes(&[("hello", 42)]));
    assert_eq!(index.file_contents(), rec);
    let reloaded = Index::build_index(&index.file_contents()).unwrap();
    assert_eq!(reloaded.get("hello"), Some(42));
    assert_eq!(index.put(String::new(), 1).unwrap_err(), AppError::InvalidKey(0));
}

#[test]
fn compact_drops_stale_records_and_keeps_values() {
    let mut engine = build_test_engine(Vec::new(), &[]);
    engine.put("user_1".to_string(), "old".to_string()).unwrap();
    engine.put("user_2".to_string(), "profile".to_string()).unwrap();
    engine.put("user_1".to_string(), "new".to_string()).unwrap();
    let plan = engine.compact().unwrap();
    let mut expected = data_record("user_1", "new");
    expected.extend(data_record("user_2", "profile"));
    assert_eq!(plan.data, expected);
    assert_eq!(plan.index, index_bytes(&[("user_1", 0), ("user_2", 17)]));
    assert_eq!(engine.get("user_1").unwrap(), Some("new".to_string()));
    assert_eq!(engine.get("user_2").unwrap(), Some("profile".to_string()));
}

#[test]
fn compact_fails_on_a_cut_or_missing_record() {
    let mut data = data_record("a", "1");
    data.truncate(data.len() - 1);
    let index = Index::build_index(&index_bytes(&[("a", 0)])).unwrap();
    assert_eq!(compact_data(&data, &index).unwrap_err(), AppError::CorruptedDb);

    // An entry at the end of the data file, or past it, loses no key: the
    // compaction fails and the engine is left as it was.
    let data = data_record("a", "1");
    for missing in [data.len() as u64, 99] {
        let index =
            Index::build_index(&index_bytes(&[("a", 0), ("b", missing), ("c", 0)])).unwrap();
        assert_eq!(compact_data(&data, &index).unwrap_err(), AppError::CorruptedDb);
        let mut engine = StorageEngine::new(data.clone(), index);
        assert_eq!(engine.compact().unwrap_err(), AppError::CorruptedDb);
        assert_eq!(engine.get("a").unwrap(), Some("1".to_string()));
    }

    // A record with a value length of 0 is copied with an empty value once
    // its header is whole, even where its key runs past the end.
    let mut data = data_record("a", "1");
    data.extend_from_slice(&5u32.to_le_bytes());
    data.extend_from_slice(&0u32.to_le_bytes());
    let index = Index::build_index(&index_bytes(&[("a", 0), ("b", 10)])).unwrap();
    let (new_data, new_index) = compact_data(&data, &index).unwrap();
    let mut expected = data_record("a", "1");
    expected.extend(data_record("b", ""));
    assert_eq!(new_data, expected);
    assert_eq!(new_index.get("b"), Some(10));

    // With a value, a key that runs past the end is a cut record.
    let mut data = data_record("a", "1");
    data.extend_from_slice(&5u32.to_le_bytes());
    data.extend_from_slice(&1u32.to_le_bytes());
    let index = Index::build_index(&index_bytes(&[("a", 0), ("b", 10)])).unwrap();
    assert_eq!(compact_data(&data, &index).unwrap_err(), AppError::CorruptedDb);
}

#[test]
fn put_keeps_what_reading_another_whole_record_gives() {
    let mut data = Vec::new();
    data.extend_from_slice(&1u32.to_le_bytes());
    data.extend_from_slice(&2u32.to_le_bytes());
    data.extend_from_slice(b"k");
    data.extend_from_slice(&[0xff, 0xfe]);
    data.extend(data_record("x", "1"));
    // "k" reads an invalid value and "m" points at a record of another key.
    let mut engine = build_test_engine(data, &[("k", 0), ("m", 11)]);
    assert_eq!(engine.get("k").unwrap_err(), AppError::ConvertUtf8ToString);
    assert_eq!(engine.get("m").unwrap(), None);
    engine.put("a".to_string(), "v".to_string()).unwrap();
    assert_eq!(engine.get("k").unwrap_err(), AppError::ConvertUtf8ToString);
    assert_eq!(engine.get("m").unwrap(), None);
    assert_eq!(engine.get("a").unwrap(), Some("v".to_string()));
}
