use bitcask::data_file::DataFile;
use bitcask::db::Engine;
use bitcask::errors::Errors;
use bitcask::log_record::{LogRecord, LogRecordType};
use bitcask::options::{IndexType, Options, WriteBatchOptions, DEFAULT_DATA_FILE_SIZE};

fn options(size: u64) -> Options {
    let mut o = Options::with_dir("/tmp/bitcask-engine-test".to_string());
    o.data_file_size = size;
    o
}

fn engine(size: u64) -> Engine {
    Engine::new(options(size)).ok().unwrap()
}

fn files_of(e: &Engine) -> Vec<DataFile> {
    let mut v: Vec<DataFile> = e
        .older_files()
        .iter()
        .map(|f| DataFile::from_bytes(f.get_file_id(), f.bytes().clone()))
        .collect();
    let a = e.active_file();
    v.push(DataFile::from_bytes(a.get_file_id(), a.bytes().clone()));
    v
}

fn encoded_len(key: &[u8], value: &[u8]) -> usize {
    LogRecord { key: key.to_vec(), value: value.to_vec(), rec_type: LogRecordType::NOMAL }
        .encode()
        .len()
}

#[test]
fn put_then_get_returns_value() {
    let mut e = engine(DEFAULT_DATA_FILE_SIZE);
    assert!(e.put(b"k1".to_vec(), b"v1".to_vec()).is_ok());
    assert_eq!(e.get(b"k1".to_vec()).ok(), Some(b"v1".to_vec()));
    assert!(e.put(b"empty-value".to_vec(), Vec::new()).is_ok());
    assert_eq!(e.get(b"empty-value".to_vec()).ok(), Some(Vec::new()));
}

#[test]
fn put_delete_get_not_found() {
    let mut e = engine(DEFAULT_DATA_FILE_SIZE);
    e.put(b"k1".to_vec(), b"v1".to_vec()).unwrap();
    assert!(e.delete(b"k1".to_vec()).is_ok());
    assert_eq!(e.get(b"k1".to_vec()).err(), Some(Errors::KeyNotFound));
    assert!(e.delete(b"never".to_vec()).is_ok());
    assert_eq!(e.get(b"never".to_vec()).err(), Some(Errors::KeyNotFound));
}

#[test]
fn empty_key_is_rejected() {
    let mut e = engine(DEFAULT_DATA_FILE_SIZE);
    assert_eq!(e.put(Vec::new(), b"v".to_vec()).err(), Some(Errors::KeyIsEmpty));
    assert_eq!(e.get(Vec::new()).err(), Some(Errors::KeyIsEmpty));
    assert_eq!(e.delete(Vec::new()).err(), Some(Errors::KeyIsEmpty));
}

#[test]
fn overwrite_keeps_last_value() {
    let mut e = engine(DEFAULT_DATA_FILE_SIZE);
    e.put(b"k1".to_vec(), b"v1".to_vec()).unwrap();
    e.put(b"k1".to_vec(), b"v2".to_vec()).unwrap();
    assert_eq!(e.get(b"k1".to_vec()).ok(), Some(b"v2".to_vec()));
    assert_eq!(e.list_keys(), vec![b"k1".to_vec()]);
}

#[test]
fn invalid_options_are_rejected() {
    assert_eq!(Engine::new(Options::with_dir(String::new())).err(), Some(Errors::DirPathIsEmpty));
    assert!(Engine::new(Options::default()).is_ok());
    assert_eq!(Engine::new(options(0)).err(), Some(Errors::DataFileSizeTooSmall));
    assert_eq!(Engine::open(options(0), Vec::new()).err(), Some(Errors::DataFileSizeTooSmall));
}

#[test]
fn default_options() {
    let o = Options::default();
    assert_eq!(o.dir_path, "/tmp/bitcask-rs");
    assert_eq!(o.data_file_size, 256 * 1024 * 1024);
    assert!(!o.sync_writes);
    assert_eq!(o.index_type, IndexType::BTree);
    let w = WriteBatchOptions::default();
    assert_eq!(w.max_batch_num, 10000);
    assert!(w.sync_writes);
}

#[test]
fn rotation_starts_new_files() {
    let size: u64 = 64;
    let mut e = engine(size);
    let value = vec![b'x'; 20];
    for i in 0..6u8 {
        e.put(vec![b'k', b'0' + i], value.clone()).unwrap();
    }
    let n = encoded_len(b"k0", &value);
    assert_eq!(n, 29);
    assert!(e.older_files().len() >= 1);
    assert_eq!(e.older_files().len(), 2);
    assert_eq!(e.older_files()[0].bytes().len(), 2 * n);
    for f in e.older_files() {
        assert!(f.bytes().len() as u64 <= size);
    }
    assert_eq!(e.active_file().get_file_id(), 2);
    for i in 0..6u8 {
        assert_eq!(e.get(vec![b'k', b'0' + i]).ok(), Some(value.clone()));
    }
}

#[test]
fn reopen_keeps_data() {
    let mut e = engine(64);
    e.put(b"a".to_vec(), b"1".to_vec()).unwrap();
    e.put(b"b".to_vec(), vec![b'y'; 40]).unwrap();
    e.put(b"c".to_vec(), b"3".to_vec()).unwrap();
    e.put(b"a".to_vec(), b"4".to_vec()).unwrap();
    e.delete(b"c".to_vec()).unwrap();
    let files = files_of(&e);
    assert!(files.len() > 1);
    let r = Engine::open(options(64), files).ok().unwrap();
    assert_eq!(r.get(b"a".to_vec()).ok(), Some(b"4".to_vec()));
    assert_eq!(r.get(b"b".to_vec()).ok(), Some(vec![b'y'; 40]));
    assert_eq!(r.get(b"c".to_vec()).err(), Some(Errors::KeyNotFound));
    assert_eq!(r.list_keys(), vec![b"a".to_vec(), b"b".to_vec()]);
}

#[test]
fn open_empty_directory() {
    let mut e = Engine::open(options(64), Vec::new()).ok().unwrap();
    assert_eq!(e.active_file().get_file_id(), 0);
    e.put(b"k".to_vec(), b"v".to_vec()).unwrap();
    assert_eq!(e.get(b"k".to_vec()).ok(), Some(b"v".to_vec()));
}

#[test]
fn torn_final_write_is_dropped() {
    let mut e = engine(DEFAULT_DATA_FILE_SIZE);
    e.put(b"k1".to_vec(), b"v1".to_vec()).unwrap();
    e.put(b"k2".to_vec(), b"v2".to_vec()).unwrap();
    let full = e.active_file().bytes().clone();
    let first = encoded_len(b"k1", b"v1");
    let torn = full[..full.len() - 3].to_vec();
    let mut r = Engine::open(options(DEFAULT_DATA_FILE_SIZE), vec![DataFile::from_bytes(0, torn)])
        .ok()
        .unwrap();
    assert_eq!(r.get(b"k1".to_vec()).ok(), Some(b"v1".to_vec()));
    assert_eq!(r.get(b"k2".to_vec()).err(), Some(Errors::KeyNotFound));
    assert_eq!(r.active_file().get_write_off(), first as u64);
    r.put(b"k3".to_vec(), b"v3".to_vec()).unwrap();
    assert_eq!(r.get(b"k3".to_vec()).ok(), Some(b"v3".to_vec()));
}

#[test]
fn bad_checksum_on_final_record_is_dropped() {
    let mut e = engine(DEFAULT_DATA_FILE_SIZE);
    e.put(b"k1".to_vec(), b"v1".to_vec()).unwrap();
    e.put(b"k2".to_vec(), b"v2".to_vec()).unwrap();
    let mut bytes = e.active_file().bytes().clone();
    let last = bytes.len() - 1;
    bytes[last] ^= 0xFF;
    let r = Engine::open(options(DEFAULT_DATA_FILE_SIZE), vec![DataFile::from_bytes(0, bytes)])
        .ok()
        .unwrap();
    assert_eq!(r.get(b"k1".to_vec()).ok(), Some(b"v1".to_vec()));
    assert_eq!(r.get(b"k2".to_vec()).err(), Some(Errors::KeyNotFound));
}

#[test]
fn bad_checksum_on_earlier_record_fails_open() {
    let mut e = engine(DEFAULT_DATA_FILE_SIZE);
    e.put(b"k1".to_vec(), b"v1".to_vec()).unwrap();
    e.put(b"k2".to_vec(), b"v2".to_vec()).unwrap();
    let mut bytes = e.active_file().bytes().clone();
    bytes[0] ^= 0xFF;
    let r = Engine::open(options(DEFAULT_DATA_FILE_SIZE), vec![DataFile::from_bytes(0, bytes)]);
    assert_eq!(r.err(), Some(Errors::DataDirectoryCorrupted));
}

#[test]
fn bad_checksum_in_older_file_fails_open() {
    let mut e = engine(32);
    e.put(b"k1".to_vec(), vec![b'z'; 20]).unwrap();
    e.put(b"k2".to_vec(), vec![b'z'; 20]).unwrap();
    let mut files = files_of(&e);
    assert_eq!(files.len(), 2);
    let mut bytes = files[0].bytes().clone();
    let last = bytes.len() - 1;
    bytes[last] ^= 0xFF;
    files[0] = DataFile::from_bytes(files[0].get_file_id(), bytes);
    let r = Engine::open(options(32), files);
    assert_eq!(r.err(), Some(Errors::DataDirectoryCorrupted));
}

#[test]
fn put_reports_position_and_keeps_others() {
    let mut e = engine(20);
    e.put(b"k1".to_vec(), b"v1".to_vec()).unwrap();
    assert_eq!(e.active_file().get_file_id(), 0);
    assert_eq!(e.active_file().get_write_off(), 11);
    e.put(b"k2".to_vec(), b"v2".to_vec()).unwrap();
    assert_eq!(e.active_file().get_file_id(), 1);
    assert_eq!(e.active_file().get_write_off(), 11);
    assert_eq!(e.older_files()[0].bytes().len(), 11);
    assert_eq!(e.put(Vec::new(), b"x".to_vec()).err(), Some(Errors::KeyIsEmpty));
    assert_eq!(e.active_file().get_write_off(), 11);
    assert_eq!(e.get(b"k1".to_vec()).ok(), Some(b"v1".to_vec()));
}

#[test]
fn unsorted_files_fail_open() {
    let files = vec![DataFile::from_bytes(1, Vec::new()), DataFile::from_bytes(0, Vec::new())];
    assert_eq!(Engine::open(options(64), files).err(), Some(Errors::DataDirectoryCorrupted));
}
