use bitcask::errors::Errors;
use bitcask::log_record::{
    crc32_range, decode, max_log_record_header_size, LogRecord, LogRecordType,
};

fn record(key: &[u8], value: &[u8], rec_type: LogRecordType) -> LogRecord {
    LogRecord { key: key.to_vec(), value: value.to_vec(), rec_type }
}

#[test]
fn crc32_check_value() {
    let data = b"123456789".to_vec();
    assert_eq!(crc32_range(&data, 0, data.len()), 0xCBF4_3926);
    assert_eq!(crc32_range(&data, 0, 0), 0);
}

#[test]
fn header_size_bound() {
    assert_eq!(max_log_record_header_size(), 11);
}

#[test]
fn from_u8_kinds() {
    assert_eq!(LogRecordType::from_u8(1), LogRecordType::NOMAL);
    assert_eq!(LogRecordType::from_u8(2), LogRecordType::DELETED);
}

#[test]
fn encode_layout() {
    let rec = record(b"k", b"v", LogRecordType::NOMAL);
    let enc = rec.encode();
    assert_eq!(enc.len(), 9);
    assert_eq!(&enc[4..], &[1u8, 1, 1, b'k', b'v'][..]);
    let crc = rec.get_crc();
    assert_eq!(&enc[0..4], &crc.to_le_bytes()[..]);
    assert_eq!(crc, crc32_range(&enc, 4, enc.len()));
}

#[test]
fn encode_uses_multi_byte_lengths() {
    let key = vec![7u8; 200];
    let rec = record(&key, b"", LogRecordType::DELETED);
    let enc = rec.encode();
    assert_eq!(enc[4], 2);
    assert_eq!(enc[5], 0xC8);
    assert_eq!(enc[6], 0x01);
    assert_eq!(enc[7], 0);
    assert_eq!(enc.len(), 4 + 1 + 2 + 1 + 200);
}

#[test]
fn decode_round_trip_with_trailing_bytes() {
    let rec = record(b"name", b"bitcask", LogRecordType::NOMAL);
    let mut buf = vec![9u8, 9, 9];
    buf.extend_from_slice(&rec.encode());
    buf.extend_from_slice(&[1, 2, 3]);
    let rr = decode(&buf, 3).ok().unwrap();
    assert_eq!(rr.record.key, b"name".to_vec());
    assert_eq!(rr.record.value, b"bitcask".to_vec());
    assert_eq!(rr.record.rec_type, LogRecordType::NOMAL);
    assert_eq!(rr.size, rec.encode().len());
}

#[test]
fn decode_truncated_is_eof() {
    let enc = record(b"name", b"bitcask", LogRecordType::NOMAL).encode();
    let cut = enc[..enc.len() - 2].to_vec();
    assert_eq!(decode(&cut, 0).err(), Some(Errors::ReadDataFileEOF));
    assert_eq!(decode(&enc, enc.len()).err(), Some(Errors::ReadDataFileEOF));
}

#[test]
fn decode_bad_checksum() {
    let mut enc = record(b"name", b"bitcask", LogRecordType::NOMAL).encode();
    let last = enc.len() - 1;
    enc[last] ^= 0xFF;
    assert_eq!(decode(&enc, 0).err(), Some(Errors::InvalidLogRecordCrc));
}

#[test]
fn error_messages() {
    assert_eq!(Errors::KeyIsEmpty.message(), "this key is empty");
    assert_eq!(Errors::KeyNotFound.message(), "key is not found in database");
}
