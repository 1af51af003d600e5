use bitcask_kv::{Config, DataFile, Engine, Error, LogRecord, LogRecordStatus, MemIO};

fn config(max: u64) -> Config {
    Config { data_file_dir: String::new(), max_data_file_size: max, sync_writes: false }
}

fn fresh(max: u64) -> Engine<MemIO> {
    Engine::<MemIO>::open(config(max), &[]).unwrap()
}

fn restart(engine: Engine<MemIO>, max: u64) -> Engine<MemIO> {
    let mut files = Vec::new();
    for f in engine.into_files() {
        let id = f.file_id();
        let bytes = f.into_io().bytes();
        files.push(DataFile::from_io(MemIO::from_bytes(bytes), id).unwrap());
    }
    Engine::recover(config(max), files).unwrap()
}

#[test]
fn put_then_get() {
    let mut e = fresh(1 << 20);
    e.put(b"name".to_vec(), b"bitcask".to_vec()).unwrap();
    assert_eq!(e.get(b"name").unwrap(), b"bitcask".to_vec());
}

#[test]
fn put_empty_value() {
    let mut e = fresh(1 << 20);
    e.put(b"k".to_vec(), Vec::new()).unwrap();
    assert_eq!(e.get(b"k").unwrap(), Vec::<u8>::new());
}

#[test]
fn put_empty_key_fails() {
    let mut e = fresh(1 << 20);
    assert_eq!(e.put(Vec::new(), b"v".to_vec()), Err(Error::EmptyKey));
    assert_eq!(e.get(b""), Err(Error::EmptyKey));
    assert_eq!(e.delete(b""), Err(Error::EmptyKey));
    assert_eq!(e.file_count(), 1);
}

#[test]
fn get_never_written() {
    let e = fresh(1 << 20);
    assert_eq!(e.get(b"missing"), Err(Error::KeyNotFound));
}

#[test]
fn delete_then_get() {
    let mut e = fresh(1 << 20);
    e.put(b"a".to_vec(), b"1".to_vec()).unwrap();
    e.delete(b"a").unwrap();
    assert_eq!(e.get(b"a"), Err(Error::KeyNotFound));
}

#[test]
fn delete_absent_key_succeeds() {
    let mut e = fresh(1 << 20);
    assert_eq!(e.delete(b"nothing"), Ok(()));
    e.put(b"a".to_vec(), b"1".to_vec()).unwrap();
    e.delete(b"a").unwrap();
    assert_eq!(e.delete(b"a"), Ok(()));
}

#[test]
fn last_write_wins() {
    let mut e = fresh(1 << 20);
    e.put(b"k".to_vec(), b"v1".to_vec()).unwrap();
    e.put(b"k".to_vec(), b"v2".to_vec()).unwrap();
    assert_eq!(e.get(b"k").unwrap(), b"v2".to_vec());
}

#[test]
fn index_is_keyed_by_the_put_key() {
    let mut e = fresh(1 << 20);
    e.put(b"user".to_vec(), b"x".to_vec()).unwrap();
    let encoded =
        LogRecord { key: b"user".to_vec(), value: b"x".to_vec(), status: LogRecordStatus::Normal }
            .encode();
    assert_eq!(e.get(b"user").unwrap(), b"x".to_vec());
    assert_eq!(e.get(&encoded), Err(Error::KeyNotFound));
}

#[test]
fn rotation_creates_files_and_keeps_reads() {
    // each record below encodes to 4 + 1 + 1 + 1 + 2 + 10 = 19 bytes
    let mut e = fresh(50);
    let keys: Vec<Vec<u8>> = (0..10u8).map(|i| vec![b'k', b'0' + i]).collect();
    for (i, k) in keys.iter().enumerate() {
        e.put(k.clone(), vec![b'a' + i as u8; 10]).unwrap();
    }
    assert!(e.file_count() > 1);
    assert_eq!(e.file_count(), 5);
    for (i, k) in keys.iter().enumerate() {
        assert_eq!(e.get(k).unwrap(), vec![b'a' + i as u8; 10]);
    }
}

#[test]
fn recovery_after_restart() {
    let mut e = fresh(60);
    e.put(b"a".to_vec(), b"1".to_vec()).unwrap();
    e.put(b"b".to_vec(), b"2".to_vec()).unwrap();
    e.put(b"c".to_vec(), b"3".to_vec()).unwrap();
    e.delete(b"b").unwrap();
    e.put(b"a".to_vec(), b"4".to_vec()).unwrap();
    for i in 0..10u8 {
        e.put(vec![b'x', i], vec![i; 8]).unwrap();
    }
    e.delete(&[b'x', 3]).unwrap();
    assert!(e.file_count() > 1);
    let e = restart(e, 60);
    assert_eq!(e.get(b"a").unwrap(), b"4".to_vec());
    assert_eq!(e.get(b"b"), Err(Error::KeyNotFound));
    assert_eq!(e.get(b"c").unwrap(), b"3".to_vec());
    for i in 0..10u8 {
        if i == 3 {
            assert_eq!(e.get(&[b'x', i]), Err(Error::KeyNotFound));
        } else {
            assert_eq!(e.get(&[b'x', i]).unwrap(), vec![i; 8]);
        }
    }
}

#[test]
fn writes_continue_after_restart() {
    let mut e = fresh(1 << 20);
    e.put(b"a".to_vec(), b"1".to_vec()).unwrap();
    let mut e = restart(e, 1 << 20);
    e.put(b"b".to_vec(), b"2".to_vec()).unwrap();
    let e = restart(e, 1 << 20);
    assert_eq!(e.get(b"a").unwrap(), b"1".to_vec());
    assert_eq!(e.get(b"b").unwrap(), b"2".to_vec());
}

#[test]
fn truncated_tail_is_ignored() {
    let mut bytes =
        LogRecord { key: b"k".to_vec(), value: b"v".to_vec(), status: LogRecordStatus::Normal }
            .encode();
    bytes.extend_from_slice(&[0xde, 0xad, 0xbe]);
    let file = DataFile::from_io(MemIO::from_bytes(bytes), 0).unwrap();
    let e = Engine::recover(config(1 << 20), vec![file]).unwrap();
    assert_eq!(e.get(b"k").unwrap(), b"v".to_vec());
    assert_eq!(e.file_count(), 2);
}

#[test]
fn corrupt_tail_record_is_ignored() {
    let mut bytes =
        LogRecord { key: b"k".to_vec(), value: b"v".to_vec(), status: LogRecordStatus::Normal }
            .encode();
    let mut second =
        LogRecord { key: b"j".to_vec(), value: b"w".to_vec(), status: LogRecordStatus::Normal }
            .encode();
    second[0] ^= 1;
    bytes.extend_from_slice(&second);
    let file = DataFile::from_io(MemIO::from_bytes(bytes), 0).unwrap();
    let e = Engine::recover(config(1 << 20), vec![file]).unwrap();
    assert_eq!(e.get(b"k").unwrap(), b"v".to_vec());
    assert_eq!(e.get(b"j"), Err(Error::KeyNotFound));
}

#[test]
fn torn_tail_in_older_file_ends_its_scan() {
    let mut bytes =
        LogRecord { key: b"k".to_vec(), value: b"v".to_vec(), status: LogRecordStatus::Normal }
            .encode();
    bytes.push(0);
    let older = DataFile::from_io(MemIO::from_bytes(bytes), 0).unwrap();
    let active = DataFile::from_io(MemIO::from_bytes(Vec::new()), 1).unwrap();
    let e = Engine::recover(config(1 << 20), vec![older, active]).unwrap();
    assert_eq!(e.get(b"k").unwrap(), b"v".to_vec());
    assert_eq!(e.file_count(), 2);
}

#[test]
fn writes_after_torn_tail_survive_restart() {
    let mut bytes =
        LogRecord { key: b"k".to_vec(), value: b"v".to_vec(), status: LogRecordStatus::Normal }
            .encode();
    bytes.extend_from_slice(&[0xde, 0xad]);
    let file = DataFile::from_io(MemIO::from_bytes(bytes), 0).unwrap();
    let mut e = Engine::recover(config(1 << 20), vec![file]).unwrap();
    assert_eq!(e.file_count(), 2);
    e.put(b"j".to_vec(), b"w".to_vec()).unwrap();
    e.delete(b"k").unwrap();
    let e = restart(e, 1 << 20);
    assert_eq!(e.get(b"j").unwrap(), b"w".to_vec());
    assert_eq!(e.get(b"k"), Err(Error::KeyNotFound));
    let e = restart(e, 1 << 20);
    assert_eq!(e.get(b"j").unwrap(), b"w".to_vec());
}

#[test]
fn recover_empty_files() {
    let a = DataFile::from_io(MemIO::from_bytes(Vec::new()), 0).unwrap();
    let b = DataFile::from_io(MemIO::from_bytes(Vec::new()), 3).unwrap();
    let e = Engine::recover(config(1 << 20), vec![a, b]).unwrap();
    assert_eq!(e.file_count(), 2);
    assert_eq!(e.get(b"x"), Err(Error::KeyNotFound));
}

#[test]
fn concrete_scenario() {
    let mut e = fresh(1 << 20);
    e.put(b"a".to_vec(), b"1".to_vec()).unwrap();
    e.put(b"b".to_vec(), b"2".to_vec()).unwrap();
    e.delete(b"a").unwrap();
    e.put(b"a".to_vec(), b"3".to_vec()).unwrap();
    assert_eq!(e.get(b"a").unwrap(), b"3".to_vec());
    assert_eq!(e.get(b"b").unwrap(), b"2".to_vec());
}

#[test]
fn sync_writes_engine() {
    let cfg = Config { data_file_dir: String::new(), max_data_file_size: 1 << 20, sync_writes: true };
    let mut e = Engine::<MemIO>::open(cfg, &[]).unwrap();
    e.put(b"a".to_vec(), b"1".to_vec()).unwrap();
    assert_eq!(e.get(b"a").unwrap(), b"1".to_vec());
}
