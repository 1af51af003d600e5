use bitcask_kv::{Config, DataFile, Engine, Error, IOManager, LogRecord, LogRecordStatus, MemIO};

fn config(max: u64, sync_writes: bool) -> Config {
    Config { data_file_dir: String::new(), max_data_file_size: max, sync_writes }
}

fn faulty_engine(io: MemIO, sync_writes: bool) -> Engine<MemIO> {
    let file = DataFile::from_io(io, 0).unwrap();
    Engine::recover(config(1 << 20, sync_writes), vec![file]).unwrap()
}

#[test]
fn rotation_past_last_file_number_is_file_open() {
    let file = DataFile::from_io(MemIO::from_bytes(Vec::new()), u32::MAX).unwrap();
    let mut e = Engine::recover(config(10, false), vec![file]).unwrap();
    assert_eq!(e.put(b"key".to_vec(), b"a value too long".to_vec()), Err(Error::FileOpen));
    assert_eq!(e.get(b"key"), Err(Error::KeyNotFound));
}

#[test]
fn write_failure_is_file_write() {
    let mut e = faulty_engine(MemIO::with_faults(Vec::new(), false, true, false, false), false);
    assert_eq!(e.put(b"a".to_vec(), b"1".to_vec()), Err(Error::FileWrite));
    assert_eq!(e.get(b"a"), Err(Error::KeyNotFound));
}

#[test]
fn short_write_is_file_write() {
    let mut e = faulty_engine(MemIO::with_faults(Vec::new(), false, false, true, false), false);
    assert_eq!(e.put(b"a".to_vec(), b"1".to_vec()), Err(Error::FileWrite));
    assert_eq!(e.get(b"a"), Err(Error::KeyNotFound));
}

#[test]
fn sync_failure_is_file_sync() {
    let mut e = faulty_engine(MemIO::with_faults(Vec::new(), false, false, false, true), true);
    assert_eq!(e.put(b"a".to_vec(), b"1".to_vec()), Err(Error::FileSync));
    assert_eq!(e.get(b"a"), Err(Error::KeyNotFound));
}

#[test]
fn read_failure_is_file_read() {
    let mut e = faulty_engine(MemIO::with_faults(Vec::new(), true, false, false, false), false);
    e.put(b"a".to_vec(), b"1".to_vec()).unwrap();
    assert_eq!(e.get(b"a"), Err(Error::FileRead));
    assert_eq!(e.get(b"b"), Err(Error::KeyNotFound));
}

#[test]
fn read_failure_during_recovery_is_file_read() {
    let bytes =
        LogRecord { key: b"k".to_vec(), value: b"v".to_vec(), status: LogRecordStatus::Normal }
            .encode();
    let file = DataFile::from_io(MemIO::with_faults(bytes, true, false, false, false), 0).unwrap();
    assert_eq!(Engine::recover(config(1 << 20, false), vec![file]).err(), Some(Error::FileRead));
}

#[test]
fn mem_io_reads_past_end() {
    let io = MemIO::from_bytes(b"Hello, World!".to_vec());
    let mut buf = vec![0u8; 100];
    assert_eq!(io.read(&mut buf, 3), Ok(10));
    assert_eq!(&buf[..10], b"lo, World!");
    assert_eq!(io.read(&mut buf, 13), Ok(0));
    assert_eq!(io.read(&mut buf, 50), Ok(0));
    assert_eq!(io.size(), Ok(13));
}

#[test]
fn data_file_write_advances_offset() {
    let mut f = DataFile::from_io(MemIO::from_bytes(b"abc".to_vec()), 7).unwrap();
    assert_eq!(f.file_id(), 7);
    assert_eq!(f.write_offset(), 3);
    f.write(b"Hello").unwrap();
    assert_eq!(f.write_offset(), 8);
    assert_eq!(f.sync(), Ok(()));
    assert_eq!(f.into_io().bytes(), b"abcHello".to_vec());
}

#[test]
fn engine_file_tail() {
    let mut e = Engine::<MemIO>::open(config(1 << 20, false), &[]).unwrap();
    assert_eq!(e.active_file_id(), 0);
    e.put(b"a".to_vec(), b"1".to_vec()).unwrap();
    let all = e.file_tail(0, 0).unwrap();
    assert_eq!(all, vec![163, 47, 219, 202, 0, 1, 1, 97, 49]);
    assert_eq!(e.file_tail(0, 5).unwrap(), vec![1, 1, 97, 49]);
    assert_eq!(e.file_tail(0, 10), None);
    assert_eq!(e.file_tail(1, 0), None);
}
