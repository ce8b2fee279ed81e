use tegdb::engine::{Engine, KvError};

#[test]
fn test_engine() {
    let mut engine = Engine::new(Vec::new());
    let key = b"key";
    let value = b"value";
    engine.set(key, value.to_vec()).unwrap();
    let get_value = engine.get(key).unwrap();
    assert_eq!(
        get_value,
        value.to_vec(),
        "Expected: {}, Got: {}",
        String::from_utf8_lossy(value),
        String::from_utf8_lossy(&get_value)
    );
    engine.del(key).unwrap();
    let get_value = engine.get(key);
    assert_eq!(get_value, None, "Expected: None, Got: Some value");
    let start_key = b"a";
    let end_key = b"z";
    engine.set(start_key, b"start_value".to_vec()).unwrap();
    engine.set(end_key, b"end_value".to_vec()).unwrap();
    let mut end_key_extended = Vec::new();
    end_key_extended.extend_from_slice(end_key);
    end_key_extended.extend_from_slice(&[1u8]);
    let result = engine.scan(start_key.to_vec()..end_key_extended);
    let expected = vec![
        (start_key.to_vec(), b"start_value".to_vec()),
        (end_key.to_vec(), b"end_value".to_vec()),
    ];
    assert_eq!(result, expected, "Expected: {:?}, Got: {:?}", expected, result);
}

#[test]
fn test_round_trip_set_get() {
    let mut engine = Engine::new(Vec::new());
    engine.set(b"alpha", b"one".to_vec()).unwrap();
    assert_eq!(engine.get(b"alpha"), Some(b"one".to_vec()));
}

#[test]
fn test_set_then_del_reads_none() {
    let mut engine = Engine::new(Vec::new());
    engine.set(b"alpha", b"one".to_vec()).unwrap();
    engine.del(b"alpha").unwrap();
    assert_eq!(engine.get(b"alpha"), None);
}

#[test]
fn test_latest_write_wins() {
    let mut engine = Engine::new(Vec::new());
    engine.set(b"k", b"v1".to_vec()).unwrap();
    engine.set(b"k", b"v2".to_vec()).unwrap();
    engine.set(b"k", b"v3".to_vec()).unwrap();
    assert_eq!(engine.get(b"k"), Some(b"v3".to_vec()));
}

#[test]
fn test_empty_value_deletes() {
    let mut engine = Engine::new(Vec::new());
    engine.set(b"k", b"v".to_vec()).unwrap();
    let bytes_before = engine.log_bytes().len();
    engine.set(b"k", Vec::new()).unwrap();
    assert_eq!(engine.get(b"k"), None);
    // The empty-value write appends a tombstone, exactly as del would.
    assert_eq!(engine.log_bytes().len(), bytes_before + 8 + 1);
}

#[test]
fn test_idempotent_set_appends_once() {
    let mut engine = Engine::new(Vec::new());
    engine.set(b"k", b"v".to_vec()).unwrap();
    let bytes_after_first = engine.log_bytes().len();
    engine.set(b"k", b"v".to_vec()).unwrap();
    assert_eq!(engine.log_bytes().len(), bytes_after_first);
    assert_eq!(bytes_after_first, 10);
}

#[test]
fn test_record_wire_format() {
    // One record: 4-byte big-endian key length, 4-byte big-endian value
    // length, key bytes, value bytes.
    let mut engine = Engine::new(Vec::new());
    engine.set(b"k", b"vw".to_vec()).unwrap();
    assert_eq!(
        engine.log_bytes().as_slice(),
        &[0, 0, 0, 1, 0, 0, 0, 2, b'k', b'v', b'w']
    );
}

#[test]
fn test_durability_across_reopen() {
    let mut engine = Engine::new(Vec::new());
    engine.set(b"kept", b"value".to_vec()).unwrap();
    engine.set(b"gone", b"other".to_vec()).unwrap();
    engine.del(b"gone").unwrap();
    engine.close();
    let file = engine.log_bytes().clone();
    let reopened = Engine::new(file);
    assert_eq!(reopened.get(b"kept"), Some(b"value".to_vec()));
    assert_eq!(reopened.get(b"gone"), None);
}

#[test]
fn test_single_record_after_reopen() {
    // Three identical writes leave one record; reopening compacts the file
    // to exactly that record: 8 bytes of header, one key byte, one value
    // byte.
    let mut engine = Engine::new(Vec::new());
    engine.set(b"k", b"v".to_vec()).unwrap();
    engine.set(b"k", b"v".to_vec()).unwrap();
    engine.set(b"k", b"v".to_vec()).unwrap();
    engine.close();
    let file = engine.log_bytes().clone();
    let reopened = Engine::new(file);
    assert_eq!(reopened.log_bytes().len(), 8 + 1 + 1);
}

#[test]
fn test_tombstone_then_rewrite_reopen() {
    let mut engine = Engine::new(Vec::new());
    engine.set(b"k", b"v1".to_vec()).unwrap();
    engine.del(b"k").unwrap();
    engine.set(b"k", b"v2".to_vec()).unwrap();
    engine.close();
    let file = engine.log_bytes().clone();
    let reopened = Engine::new(file);
    assert_eq!(reopened.get(b"k"), Some(b"v2".to_vec()));
    // Post-open compaction leaves exactly one record for the key.
    assert_eq!(reopened.log_bytes().len(), 8 + 1 + 2);
}

#[test]
fn test_compaction_drops_tombstones_and_overwrites() {
    let mut engine = Engine::new(Vec::new());
    engine.set(b"a", b"1".to_vec()).unwrap();
    engine.set(b"a", b"2".to_vec()).unwrap();
    engine.set(b"b", b"3".to_vec()).unwrap();
    engine.del(b"b").unwrap();
    // Three full records of 10 bytes and one tombstone of 9.
    assert_eq!(engine.log_bytes().len(), 3 * 10 + 9);
    engine.compact();
    // One live pair remains: ("a", "2").
    assert_eq!(engine.log_bytes().len(), 10);
    assert_eq!(engine.get(b"a"), Some(b"2".to_vec()));
    assert_eq!(engine.get(b"b"), None);
}

#[test]
fn test_scan_sorts_and_bounds() {
    let mut engine = Engine::new(Vec::new());
    engine.set(b"delta", b"4".to_vec()).unwrap();
    engine.set(b"alpha", b"1".to_vec()).unwrap();
    engine.set(b"echo", b"5".to_vec()).unwrap();
    engine.set(b"bravo", b"2".to_vec()).unwrap();
    engine.set(b"charlie", b"3".to_vec()).unwrap();
    // Half-open: "bravo" is included, "echo" is not.
    let result = engine.scan(b"bravo".to_vec()..b"echo".to_vec());
    let expected = vec![
        (b"bravo".to_vec(), b"2".to_vec()),
        (b"charlie".to_vec(), b"3".to_vec()),
        (b"delta".to_vec(), b"4".to_vec()),
    ];
    assert_eq!(result, expected);
    // The full range yields every live key, in ascending byte order.
    let all = engine.scan(Vec::new()..b"zzzz".to_vec());
    assert_eq!(all.len(), 5);
    for window in all.windows(2) {
        assert!(window[0].0 < window[1].0);
    }
}

#[test]
fn test_scan_empty_range() {
    let mut engine = Engine::new(Vec::new());
    engine.set(b"k", b"v".to_vec()).unwrap();
    assert_eq!(engine.scan(b"x".to_vec()..b"a".to_vec()), vec![]);
    assert_eq!(engine.scan(b"k".to_vec()..b"k".to_vec()), vec![]);
}

#[test]
fn test_size_limit_rejection() {
    let mut engine = Engine::new(Vec::new());
    let long_key = vec![b'x'; 1025];
    assert_eq!(engine.set(&long_key, b"v".to_vec()), Err(KvError::InvalidInput));
    let long_value = vec![b'y'; 262145];
    assert_eq!(engine.set(b"k", long_value), Err(KvError::InvalidInput));
    assert_eq!(engine.set(b"", b"v".to_vec()), Err(KvError::InvalidInput));
    // Nothing was appended and nothing is live.
    assert_eq!(engine.log_bytes().len(), 0);
    assert_eq!(engine.get(b"k"), None);
    assert_eq!(engine.get(long_key.as_slice()), None);
    // The limits themselves are accepted.
    let max_key = vec![b'x'; 1024];
    assert_eq!(engine.set(&max_key, b"v".to_vec()), Ok(()));
    assert_eq!(engine.get(max_key.as_slice()), Some(b"v".to_vec()));
}

#[test]
fn test_oversize_key_then_get_none() {
    let mut engine = Engine::new(Vec::new());
    let long_key = vec![b'k'; 1025];
    assert_eq!(engine.set(&long_key, b"v".to_vec()), Err(KvError::InvalidInput));
    engine.close();
    let file = engine.log_bytes().clone();
    assert_eq!(file.len(), 0);
    let reopened = Engine::new(file);
    assert_eq!(reopened.get(b"k"), None);
}

#[test]
fn test_del_of_absent_key_writes_nothing() {
    let mut engine = Engine::new(Vec::new());
    engine.set(b"other", b"v".to_vec()).unwrap();
    let bytes_before = engine.log_bytes().len();
    engine.del(b"absent").unwrap();
    assert_eq!(engine.log_bytes().len(), bytes_before);
}

#[test]
fn test_torn_tail_recovery() {
    // A file that ends mid-record: the good records are replayed, the torn
    // tail is discarded, and the compacted file holds the live keys alone.
    let mut engine = Engine::new(Vec::new());
    engine.set(b"good", b"data".to_vec()).unwrap();
    let mut file = engine.log_bytes().clone();
    file.extend_from_slice(&[0, 0, 0, 5, 0, 0, 0, 9, b'p']);
    let reopened = Engine::new(file);
    assert_eq!(reopened.get(b"good"), Some(b"data".to_vec()));
    assert_eq!(reopened.log_bytes().len(), 8 + 4 + 4);
}

#[test]
fn test_absurd_length_field_ends_replay() {
    // A header naming a key length over the limit is treated as a torn
    // tail: replay stops there.
    let mut file = Vec::new();
    file.extend_from_slice(&[0, 0, 0, 1, 0, 0, 0, 1, b'a', b'b']);
    file.extend_from_slice(&[0, 0, 255, 255, 0, 0, 0, 1, b'c', b'd']);
    let engine = Engine::new(file);
    assert_eq!(engine.get(b"a"), Some(b"b".to_vec()));
    assert_eq!(engine.log_bytes().len(), 10);
}

#[test]
fn test_ten_writers_each_read_their_own() {
    let mut engine = Engine::new(Vec::new());
    for i in 0..10 {
        let key = format!("key_{}", i).into_bytes();
        let value = format!("value_{}", i).into_bytes();
        engine.set(&key, value.clone()).unwrap();
        assert_eq!(engine.get(&key), Some(value));
    }
    for i in 0..10 {
        let key = format!("key_{}", i).into_bytes();
        let value = format!("value_{}", i).into_bytes();
        assert_eq!(engine.get(&key), Some(value));
    }
}
