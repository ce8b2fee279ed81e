use tegdb::log::{Log, LogMessage, LogWriter};
use tegdb::engine::Engine;
use tegdb::record::{decode_record, encode_record};

#[test]
fn test_write_entry_appends_record() {
    let mut log = Log::new(Vec::new());
    log.write_entry(b"key", b"value");
    assert_eq!(
        log.contents.as_slice(),
        &[0, 0, 0, 3, 0, 0, 0, 5, b'k', b'e', b'y', b'v', b'a', b'l', b'u', b'e']
    );
    log.write_entry(b"k", b"");
    assert_eq!(log.contents.len(), 16 + 9);
}

#[test]
fn test_build_key_map_replays_in_order() {
    let mut log = Log::new(Vec::new());
    log.write_entry(b"a", b"1");
    log.write_entry(b"b", b"2");
    log.write_entry(b"a", b"3");
    log.write_entry(b"b", b"");
    let map = log.build_key_map();
    assert_eq!(map.get(b"a" as &[u8]).map(|e| e.value().clone()), Some(b"3".to_vec()));
    assert!(map.get(b"b" as &[u8]).is_none());
}

#[test]
fn test_writer_queues_in_order() {
    let mut writer = LogWriter::new();
    writer.write(vec![1, 2]);
    writer.flush();
    writer.write(vec![3]);
    let msgs = writer.take_messages();
    assert_eq!(msgs.len(), 3);
    assert!(matches!(&msgs[0], LogMessage::Write(d) if d.as_slice() == [1, 2]));
    assert!(matches!(&msgs[1], LogMessage::Flush));
    assert!(matches!(&msgs[2], LogMessage::Write(d) if d.as_slice() == [3]));
}

#[test]
fn test_writer_shutdown_drops_later_messages() {
    let mut writer = LogWriter::new();
    writer.write(vec![1]);
    writer.shutdown();
    writer.write(vec![2]);
    writer.flush();
    writer.shutdown();
    let msgs = writer.take_messages();
    assert_eq!(msgs.len(), 2);
    assert!(matches!(&msgs[0], LogMessage::Write(d) if d.as_slice() == [1]));
    assert!(matches!(&msgs[1], LogMessage::Shutdown));
}

#[test]
fn test_engine_queues_appends_for_the_file() {
    let mut engine = Engine::new(Vec::new());
    engine.set(b"k", b"v".to_vec()).unwrap();
    engine.set(b"k", b"v".to_vec()).unwrap();
    engine.del(b"k").unwrap();
    engine.close();
    let msgs = engine.take_messages();
    // One append for the set, none for the idempotent repeat, one for the
    // tombstone; then the flush and the stop order from close.
    assert_eq!(msgs.len(), 4);
    assert!(matches!(&msgs[0], LogMessage::Write(d) if d.as_slice() == [0, 0, 0, 1, 0, 0, 0, 1, b'k', b'v']));
    assert!(matches!(&msgs[1], LogMessage::Write(d) if d.as_slice() == [0, 0, 0, 1, 0, 0, 0, 0, b'k']));
    assert!(matches!(&msgs[2], LogMessage::Flush));
    assert!(matches!(&msgs[3], LogMessage::Shutdown));
}

#[test]
fn test_decode_undoes_encode() {
    let record = encode_record(b"some_key", b"some value bytes");
    let mut bytes = record.clone();
    let second = encode_record(b"k2", b"");
    bytes.extend_from_slice(second.as_slice());
    let (k1, v1, next1) = decode_record(bytes.as_slice(), 0).expect("first record should parse");
    assert_eq!(k1, b"some_key".to_vec());
    assert_eq!(v1, b"some value bytes".to_vec());
    assert_eq!(next1, record.len());
    let (k2, v2, next2) =
        decode_record(bytes.as_slice(), next1).expect("second record should parse");
    assert_eq!(k2, b"k2".to_vec());
    assert_eq!(v2, Vec::<u8>::new());
    assert_eq!(next2, bytes.len());
    assert!(decode_record(bytes.as_slice(), next2).is_none());
}

#[test]
fn test_decode_rejects_torn_tail() {
    assert!(decode_record(&[0, 0, 0, 1], 0).is_none());
    assert!(decode_record(&[0, 0, 0, 2, 0, 0, 0, 0, b'a'], 0).is_none());
    assert!(decode_record(&[255, 0, 0, 0, 0, 0, 0, 0], 0).is_none());
}
