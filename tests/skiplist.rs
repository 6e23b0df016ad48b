use bitcask::index::{bytes_lt, new_indexer, Indexer, SkipList};
use bitcask::log_record::LogRecordPos;
use bitcask::options::{IndexType, IteratorOptions};

fn pos(file_id: u32, offset: u64) -> LogRecordPos {
    LogRecordPos { file_id, offset }
}

#[test]
fn test_skl_put() {
    let mut skl = SkipList::new();
    let res1 = skl.put("aacd".as_bytes().to_vec(), pos(1123, 1232));
    assert!(res1);
    let res2 = skl.put("acdd".as_bytes().to_vec(), pos(1123, 1232));
    assert!(res2);
    let res3 = skl.put("bbae".as_bytes().to_vec(), pos(1123, 1232));
    assert!(res3);
    let res4 = skl.put("ddee".as_bytes().to_vec(), pos(1123, 1232));
    assert!(res4);
}

#[test]
fn test_skl_get() {
    let mut skl = SkipList::new();

    let v1 = skl.get(b"not exists".to_vec());
    assert!(v1.is_none());

    let res1 = skl.put("aacd".as_bytes().to_vec(), pos(1123, 1232));
    assert!(res1);
    let v2 = skl.get(b"aacd".to_vec());
    assert!(v2.is_some());

    let res2 = skl.put("aacd".as_bytes().to_vec(), pos(11, 990));
    assert!(res2);
    let v3 = skl.get(b"aacd".to_vec());
    assert!(v3.is_some());
}

#[test]
fn test_skl_delete() {
    let mut skl = SkipList::new();

    let r1 = skl.delete(b"not exists".to_vec());
    assert_eq!(r1, false);

    let res1 = skl.put("aacd".as_bytes().to_vec(), pos(1123, 1232));
    assert!(res1);

    let r2 = skl.delete(b"aacd".to_vec());
    assert_eq!(r2, true);

    let v2 = skl.get(b"aacd".to_vec());
    assert!(v2.is_none());
}

#[test]
fn test_skl_list_keys() {
    let mut skl = SkipList::new();

    let keys1 = skl.list_keys();
    assert_eq!(keys1.ok().unwrap().len(), 0);

    assert!(skl.put("aacd".as_bytes().to_vec(), pos(1123, 1232)));
    assert!(skl.put("acdd".as_bytes().to_vec(), pos(1123, 1232)));
    assert!(skl.put("bbae".as_bytes().to_vec(), pos(1123, 1232)));
    assert!(skl.put("ddee".as_bytes().to_vec(), pos(1123, 1232)));
    let keys2 = skl.list_keys();
    assert_eq!(keys2.ok().unwrap().len(), 4);
}

#[test]
fn test_skl_iterator() {
    let mut skl = SkipList::new();

    assert!(skl.put("aacd".as_bytes().to_vec(), pos(1123, 1232)));
    assert!(skl.put("acdd".as_bytes().to_vec(), pos(1123, 1232)));
    assert!(skl.put("bbae".as_bytes().to_vec(), pos(1123, 1232)));
    assert!(skl.put("ddee".as_bytes().to_vec(), pos(1123, 1232)));

    let mut opts = IteratorOptions::default();
    opts.reverse = true;
    let mut iter1 = skl.iterator(opts);

    while let Some((key, _)) = iter1.next() {
        assert!(!key.is_empty());
    }
}

#[test]
fn skl_get_returns_latest_position() {
    let mut skl = new_indexer(IndexType::SkipList);
    skl.put(b"aacd".to_vec(), pos(1123, 1232));
    skl.put(b"aacd".to_vec(), pos(11, 990));
    assert_eq!(skl.get(b"aacd".to_vec()), Some(pos(11, 990)));
}

#[test]
fn skl_list_keys_is_sorted() {
    let mut skl = SkipList::new();
    skl.put(b"ddee".to_vec(), pos(1, 0));
    skl.put(b"aacd".to_vec(), pos(1, 1));
    skl.put(b"bbae".to_vec(), pos(1, 2));
    skl.put(b"acdd".to_vec(), pos(1, 3));
    let keys = skl.list_keys().unwrap();
    assert_eq!(keys, vec![b"aacd".to_vec(), b"acdd".to_vec(), b"bbae".to_vec(), b"ddee".to_vec()]);
}

#[test]
fn skl_iterator_orders_and_filters() {
    let mut skl = SkipList::new();
    skl.put(b"aacd".to_vec(), pos(1, 0));
    skl.put(b"acdd".to_vec(), pos(1, 1));
    skl.put(b"bbae".to_vec(), pos(1, 2));
    skl.put(b"ddee".to_vec(), pos(1, 3));

    let mut opts = IteratorOptions::default();
    opts.reverse = true;
    let mut it = skl.iterator(opts);
    let mut seen = Vec::new();
    while let Some((k, _)) = it.next() {
        seen.push(k);
    }
    assert_eq!(seen, vec![b"ddee".to_vec(), b"bbae".to_vec(), b"acdd".to_vec(), b"aacd".to_vec()]);

    let mut opts = IteratorOptions::default();
    opts.prefix = b"a".to_vec();
    let mut it = skl.iterator(opts);
    assert_eq!(it.next(), Some((b"aacd".to_vec(), pos(1, 0))));
    assert_eq!(it.next(), Some((b"acdd".to_vec(), pos(1, 1))));
    assert_eq!(it.next(), None);
    it.rewind();
    assert_eq!(it.next(), Some((b"aacd".to_vec(), pos(1, 0))));
}

#[test]
fn skl_iterator_seek() {
    let mut skl = SkipList::new();
    skl.put(b"aacd".to_vec(), pos(1, 0));
    skl.put(b"acdd".to_vec(), pos(1, 1));
    skl.put(b"bbae".to_vec(), pos(1, 2));
    skl.put(b"ddee".to_vec(), pos(1, 3));

    let mut it = skl.iterator(IteratorOptions::default());
    it.seek(b"b".to_vec());
    assert_eq!(it.next(), Some((b"bbae".to_vec(), pos(1, 2))));
    it.seek(b"acdd".to_vec());
    assert_eq!(it.next(), Some((b"acdd".to_vec(), pos(1, 1))));
    it.seek(b"zz".to_vec());
    assert_eq!(it.next(), None);

    let mut opts = IteratorOptions::default();
    opts.reverse = true;
    let mut it = skl.iterator(opts);
    it.seek(b"c".to_vec());
    assert_eq!(it.next(), Some((b"bbae".to_vec(), pos(1, 2))));
    assert_eq!(it.next(), Some((b"acdd".to_vec(), pos(1, 1))));
}

#[test]
fn byte_order_comparison() {
    assert!(bytes_lt(&b"ab".to_vec(), &b"abc".to_vec()));
    assert!(bytes_lt(&b"abc".to_vec(), &b"abd".to_vec()));
    assert!(!bytes_lt(&b"abd".to_vec(), &b"abc".to_vec()));
    assert!(!bytes_lt(&b"abc".to_vec(), &b"abc".to_vec()));
    assert!(bytes_lt(&Vec::new(), &b"a".to_vec()));
}
