use bitcask::batch::WriteBatch;
use bitcask::data_file::DataFile;
use bitcask::db::Engine;
use bitcask::errors::Errors;
use bitcask::options::{Options, WriteBatchOptions};

fn engine() -> Engine {
    Engine::new(Options::with_dir("/tmp/bitcask-batch-test".to_string())).ok().unwrap()
}

#[test]
fn batch_is_invisible_until_commit() {
    let mut e = engine();
    e.put(b"gone".to_vec(), b"x".to_vec()).unwrap();
    let mut b = e.new_write_batch(WriteBatchOptions::default());
    b.put(b"a".to_vec(), b"1".to_vec()).unwrap();
    b.put(b"b".to_vec(), b"2".to_vec()).unwrap();
    b.delete(b"gone".to_vec()).unwrap();
    b.put(b"a".to_vec(), b"3".to_vec()).unwrap();
    assert_eq!(e.get(b"a".to_vec()).err(), Some(Errors::KeyNotFound));
    assert_eq!(e.get(b"b".to_vec()).err(), Some(Errors::KeyNotFound));
    assert_eq!(e.get(b"gone".to_vec()).ok(), Some(b"x".to_vec()));
    assert!(b.commit(&mut e).is_ok());
    assert_eq!(e.get(b"a".to_vec()).ok(), Some(b"3".to_vec()));
    assert_eq!(e.get(b"b".to_vec()).ok(), Some(b"2".to_vec()));
    assert_eq!(e.get(b"gone".to_vec()).err(), Some(Errors::KeyNotFound));
}

#[test]
fn batch_limits_and_empty_keys() {
    let mut b = WriteBatch::new(WriteBatchOptions { max_batch_num: 2, sync_writes: false });
    assert_eq!(b.put(Vec::new(), b"v".to_vec()).err(), Some(Errors::KeyIsEmpty));
    assert_eq!(b.delete(Vec::new()).err(), Some(Errors::KeyIsEmpty));
    assert!(b.put(b"a".to_vec(), b"1".to_vec()).is_ok());
    assert!(b.delete(b"b".to_vec()).is_ok());
    assert_eq!(b.put(b"c".to_vec(), b"3".to_vec()).err(), Some(Errors::ExceedMaxBatchNum));
    assert_eq!(b.delete(b"c".to_vec()).err(), Some(Errors::ExceedMaxBatchNum));
    let mut e = engine();
    assert!(b.commit(&mut e).is_ok());
    assert_eq!(e.list_keys(), vec![b"a".to_vec()]);
}

#[test]
fn batch_commit_is_all_or_nothing_on_ids() {
    let mut e = engine();
    let mut b = e.new_write_batch(WriteBatchOptions::default());
    for i in 0..5u8 {
        b.put(vec![b'k', i], vec![i]).unwrap();
    }
    assert!(b.commit(&mut e).is_ok());
    for i in 0..5u8 {
        assert_eq!(e.get(vec![b'k', i]).ok(), Some(vec![i]));
    }
}

fn reopen_with_active(e: &Engine, cut: usize) -> Engine {
    let mut files: Vec<DataFile> = e
        .older_files()
        .iter()
        .map(|f| DataFile::from_bytes(f.get_file_id(), f.bytes().clone()))
        .collect();
    let a = e.active_file();
    let bytes = a.bytes()[..a.bytes().len() - cut].to_vec();
    files.push(DataFile::from_bytes(a.get_file_id(), bytes));
    Engine::open(Options::with_dir("/tmp/bitcask-batch-test".to_string()), files).ok().unwrap()
}

#[test]
fn finished_batch_survives_reopen() {
    let mut e = engine();
    e.put(b"a".to_vec(), b"1".to_vec()).unwrap();
    let mut b = e.new_write_batch(WriteBatchOptions::default());
    b.put(b"b".to_vec(), b"2".to_vec()).unwrap();
    b.put(b"a".to_vec(), b"3".to_vec()).unwrap();
    b.delete(b"x".to_vec()).unwrap();
    b.commit(&mut e).unwrap();
    let r = reopen_with_active(&e, 0);
    assert_eq!(r.get(b"a".to_vec()).ok(), Some(b"3".to_vec()));
    assert_eq!(r.get(b"b".to_vec()).ok(), Some(b"2".to_vec()));
}

#[test]
fn batch_without_finished_marker_is_dropped() {
    let mut e = engine();
    e.put(b"a".to_vec(), b"1".to_vec()).unwrap();
    let mut b = e.new_write_batch(WriteBatchOptions::default());
    b.put(b"b".to_vec(), b"2".to_vec()).unwrap();
    b.put(b"a".to_vec(), b"3".to_vec()).unwrap();
    b.commit(&mut e).unwrap();
    assert_eq!(e.get(b"a".to_vec()).ok(), Some(b"3".to_vec()));
    // The finished marker is the last 7 bytes: cut all of it, or part of it.
    for cut in [7usize, 1, 7 + 9] {
        let mut r = reopen_with_active(&e, cut);
        assert_eq!(r.get(b"a".to_vec()).ok(), Some(b"1".to_vec()));
        assert_eq!(r.get(b"b".to_vec()).err(), Some(Errors::KeyNotFound));
        let mut b2 = r.new_write_batch(WriteBatchOptions::default());
        b2.put(b"c".to_vec(), b"4".to_vec()).unwrap();
        b2.commit(&mut r).unwrap();
        let r2 = reopen_with_active(&r, 0);
        assert_eq!(r2.get(b"c".to_vec()).ok(), Some(b"4".to_vec()));
        assert_eq!(r2.get(b"b".to_vec()).err(), Some(Errors::KeyNotFound));
        assert_eq!(r2.get(b"a".to_vec()).ok(), Some(b"1".to_vec()));
    }
}
