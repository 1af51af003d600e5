use bitcask_kv::log_record::{checksum_range, record_len};
use bitcask_kv::{decode, Error, LogRecord, LogRecordStatus};

fn rec(key: &[u8], value: &[u8], status: LogRecordStatus) -> LogRecord {
    LogRecord { key: key.to_vec(), value: value.to_vec(), status }
}

#[test]
fn encode_exact_bytes_normal() {
    let bytes = rec(b"a", b"1", LogRecordStatus::Normal).encode();
    assert_eq!(bytes, vec![163, 47, 219, 202, 0, 1, 1, 97, 49]);
}

#[test]
fn encode_exact_bytes_tombstone_empty_value() {
    let bytes = rec(b"k", b"", LogRecordStatus::Deleted).encode();
    assert_eq!(bytes, vec![26, 69, 80, 35, 1, 1, 0, 107]);
}

#[test]
fn encode_two_byte_length_prefix() {
    let key = vec![b'x'; 200];
    let bytes = rec(&key, b"", LogRecordStatus::Normal).encode();
    assert_eq!(bytes.len(), 208);
    assert_eq!(&bytes[..8], &[20, 253, 178, 149, 0, 200, 1, 0]);
}

#[test]
fn checksum_known_values() {
    assert_eq!(checksum_range(&[], 0, 0), 0x811c9dc5);
    assert_eq!(checksum_range(b"a", 0, 1), 0xe40c292c);
}

#[test]
fn decode_round_trip() {
    let cases: Vec<LogRecord> = vec![
        rec(b"a", b"1", LogRecordStatus::Normal),
        rec(b"key", b"", LogRecordStatus::Normal),
        rec(b"gone", b"", LogRecordStatus::Deleted),
        rec(&vec![7u8; 127], &vec![9u8; 128], LogRecordStatus::Normal),
        rec(&vec![1u8; 300], &vec![2u8; 16384], LogRecordStatus::Normal),
    ];
    for r in cases {
        let bytes = r.encode();
        let (d, n) = decode(&bytes).unwrap();
        assert_eq!(n, bytes.len());
        assert_eq!(d.key, r.key);
        assert_eq!(d.value, r.value);
        assert_eq!(d.status, r.status);
    }
}

#[test]
fn decode_ignores_following_bytes() {
    let mut bytes = rec(b"a", b"1", LogRecordStatus::Normal).encode();
    let len = bytes.len();
    bytes.extend_from_slice(&[1, 2, 3]);
    let (d, n) = decode(&bytes).unwrap();
    assert_eq!(n, len);
    assert_eq!(d.value, b"1".to_vec());
}

#[test]
fn decode_truncated() {
    let bytes = rec(b"abc", b"def", LogRecordStatus::Normal).encode();
    assert_eq!(decode(&bytes[..bytes.len() - 1]).unwrap_err(), Error::Truncated);
    assert_eq!(decode(&bytes[..3]).unwrap_err(), Error::Truncated);
    assert_eq!(decode(&[]).unwrap_err(), Error::Truncated);
}

#[test]
fn decode_corrupt_checksum() {
    let mut bytes = rec(b"abc", b"def", LogRecordStatus::Normal).encode();
    let last = bytes.len() - 1;
    bytes[last] ^= 0xff;
    assert_eq!(decode(&bytes).unwrap_err(), Error::CorruptRecord);
}

#[test]
fn decode_corrupt_status() {
    let mut bytes = rec(b"abc", b"", LogRecordStatus::Normal).encode();
    bytes[4] = 7;
    let c = checksum_range(&bytes, 4, bytes.len());
    bytes[..4].copy_from_slice(&c.to_le_bytes());
    assert_eq!(decode(&bytes).unwrap_err(), Error::CorruptRecord);
}

#[test]
fn decode_overlong_length_prefix() {
    let mut bytes = vec![0, 0, 0, 0, 0];
    bytes.extend_from_slice(&[0x80; 11]);
    assert_eq!(decode(&bytes).unwrap_err(), Error::CorruptRecord);
}

#[test]
fn record_len_from_header() {
    let bytes = rec(b"abc", b"defg", LogRecordStatus::Normal).encode();
    assert_eq!(record_len(&bytes[..bytes.len().min(25)]).unwrap(), bytes.len());
    assert_eq!(record_len(&bytes[..4]).unwrap_err(), Error::Truncated);
    assert_eq!(record_len(&bytes[..6]).unwrap_err(), Error::Truncated);
    let mut overlong = vec![0, 0, 0, 0, 0];
    overlong.extend_from_slice(&[0x80; 11]);
    assert_eq!(record_len(&overlong).unwrap_err(), Error::CorruptRecord);
}
