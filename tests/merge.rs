use bitcask::db::Engine;
use bitcask::errors::Errors;
use bitcask::options::Options;

fn engine(size: u64) -> Engine {
    let mut o = Options::with_dir("/tmp/bitcask-merge-test".to_string());
    o.data_file_size = size;
    Engine::new(o).ok().unwrap()
}

fn total_bytes(e: &Engine) -> usize {
    e.older_files().iter().map(|f| f.bytes().len()).sum::<usize>() + e.active_file().bytes().len()
}

#[test]
fn merge_drops_overwritten_and_deleted_records() {
    let mut e = engine(40);
    for i in 0..8u8 {
        e.put(vec![b'k', b'0' + i], vec![b'a'; 10]).unwrap();
    }
    for i in 0..4u8 {
        e.put(vec![b'k', b'0' + i], vec![b'b'; 10]).unwrap();
    }
    e.delete(b"k7".to_vec()).unwrap();
    e.delete(b"k6".to_vec()).unwrap();
    let files_before = e.older_files().len();
    let before = total_bytes(&e);
    e.merge();
    assert!(total_bytes(&e) < before);
    assert_eq!(e.older_files().len(), files_before);
    for i in 0..4u8 {
        assert_eq!(e.get(vec![b'k', b'0' + i]).ok(), Some(vec![b'b'; 10]));
    }
    for i in 4..6u8 {
        assert_eq!(e.get(vec![b'k', b'0' + i]).ok(), Some(vec![b'a'; 10]));
    }
    assert_eq!(e.get(b"k6".to_vec()).err(), Some(Errors::KeyNotFound));
    assert_eq!(e.get(b"k7".to_vec()).err(), Some(Errors::KeyNotFound));
}

#[test]
fn merge_keeps_only_latest_version() {
    let mut e = engine(20);
    e.put(b"k1".to_vec(), b"v1".to_vec()).unwrap();
    e.put(b"k1".to_vec(), b"v2".to_vec()).unwrap();
    e.put(b"k2".to_vec(), b"v3".to_vec()).unwrap();
    assert_eq!(e.older_files().len(), 2);
    e.merge();
    assert_eq!(e.older_files()[0].bytes().len(), 0);
    assert_eq!(e.older_files()[1].bytes().len(), 11);
    assert_eq!(e.get(b"k1".to_vec()).ok(), Some(b"v2".to_vec()));
    assert_eq!(e.get(b"k2".to_vec()).ok(), Some(b"v3".to_vec()));
    e.put(b"k3".to_vec(), b"v4".to_vec()).unwrap();
    assert_eq!(e.get(b"k3".to_vec()).ok(), Some(b"v4".to_vec()));
}
