use bitcask::index::BTree;
use bitcask::log_record::LogRecordPos;
use bitcask::options::IteratorOptions;

#[test]
fn test_btree_put() {
    let mut bt = BTree::new();
    let res1 = bt.put(
        "".as_bytes().to_vec(),
        LogRecordPos { file_id: 1, offset: 10 },
    );
    assert!(res1 == true);

    let res2 = bt.put(
        "aa".as_bytes().to_vec(),
        LogRecordPos { file_id: 11, offset: 22 },
    );
    assert!(res2 == true);
}

#[test]
fn test_btree_get() {
    let mut bt = BTree::new();
    let res1 = bt.put(
        "".as_bytes().to_vec(),
        LogRecordPos { file_id: 1, offset: 10 },
    );
    assert!(res1 == true);
    let res2 = bt.put(
        "aa".as_bytes().to_vec(),
        LogRecordPos { file_id: 11, offset: 22 },
    );
    assert!(res2 == true);

    let pos1 = bt.get("".as_bytes().to_vec());
    assert!(pos1.is_some());
    assert_eq!(pos1.unwrap().file_id, 1);
    assert_eq!(pos1.unwrap().offset, 10);

    let pos2 = bt.get("aa".as_bytes().to_vec());
    assert!(pos2.is_some());
    assert_eq!(pos2.unwrap().file_id, 11);
    assert_eq!(pos2.unwrap().offset, 22);
}

#[test]
fn test_btree_delete() {
    let mut bt = BTree::new();
    bt.put("k".as_bytes().to_vec(), LogRecordPos { file_id: 0, offset: 0 });
    assert!(bt.delete("k".as_bytes().to_vec()));
    assert!(bt.get("k".as_bytes().to_vec()).is_none());
    assert!(!bt.delete("absent".as_bytes().to_vec()));
}

#[test]
fn test_btree_iterator_seek() {
    let mut bt = BTree::new();

    let mut iter = bt.iterator(IteratorOptions::default());
    iter.seek("aa".as_bytes().to_vec());
    let res1 = iter.next();
    assert!(res1.is_none());

    bt.put(
        "ccde".as_bytes().to_vec(),
        LogRecordPos { file_id: 1, offset: 10 },
    );
    let mut iter2 = bt.iterator(IteratorOptions::default());
    iter.seek("aa".as_bytes().to_vec());
    let res2 = iter2.next();
    assert!(res2.is_some());
    iter.seek("zz".as_bytes().to_vec());
    let res3 = iter.next();
    assert!(res3.is_none());

    bt.put(
        "ccdf".as_bytes().to_vec(),
        LogRecordPos { file_id: 1, offset: 10 },
    );
    bt.put(
        "bcde".as_bytes().to_vec(),
        LogRecordPos { file_id: 1, offset: 10 },
    );
    bt.put(
        "acde".as_bytes().to_vec(),
        LogRecordPos { file_id: 1, offset: 10 },
    );
    bt.put(
        "ccae".as_bytes().to_vec(),
        LogRecordPos { file_id: 1, offset: 10 },
    );
    bt.put(
        "cfde".as_bytes().to_vec(),
        LogRecordPos { file_id: 1, offset: 10 },
    );

    let mut iter = bt.iterator(IteratorOptions::default());
    iter.seek("ca".as_bytes().to_vec());
    let res1 = iter.next();
    assert!(res1.is_some());
    let res1 = iter.next();
    assert!(res1.is_some());
    let res1 = iter.next();
    assert!(res1.is_some());
    let res1 = iter.next();
    assert!(res1.is_some());
    let res1 = iter.next();
    assert!(res1.is_none());

    iter.seek("cfde".as_bytes().to_vec());
    let res = iter.next();
    assert!(res.is_some());
    assert!(res.unwrap().0 == "cfde".as_bytes().to_vec());
    let res = iter.next();
    assert!(res.is_none());

    let mut opts = IteratorOptions::default();
    opts.reverse = true;
    let mut iter = bt.iterator(opts);

    iter.seek("zz".as_bytes().to_vec());
    let mut seen: Vec<Vec<u8>> = Vec::new();
    while let Some(a) = iter.next() {
        seen.push(a.0);
    }
    assert_eq!(
        seen,
        vec![
            "cfde".as_bytes().to_vec(),
            "ccdf".as_bytes().to_vec(),
            "ccde".as_bytes().to_vec(),
            "ccae".as_bytes().to_vec(),
            "bcde".as_bytes().to_vec(),
            "acde".as_bytes().to_vec(),
        ]
    );
}

#[test]
fn test_btree_iterator_next() {
    let mut bt = BTree::new();
    let mut iter1 = bt.iterator(IteratorOptions::default());
    assert!(iter1.next().is_none());

    bt.put(
        "ccdf".as_bytes().to_vec(),
        LogRecordPos { file_id: 1, offset: 10 },
    );
    let mut iter_opt1 = IteratorOptions::default();
    iter_opt1.reverse = true;
    let mut iter2 = bt.iterator(iter_opt1);
    assert!(iter2.next().is_some());

    bt.put(
        "bcde".as_bytes().to_vec(),
        LogRecordPos { file_id: 1, offset: 10 },
    );
    bt.put(
        "acde".as_bytes().to_vec(),
        LogRecordPos { file_id: 1, offset: 10 },
    );
    bt.put(
        "ccae".as_bytes().to_vec(),
        LogRecordPos { file_id: 1, offset: 10 },
    );
    bt.put(
        "cfde".as_bytes().to_vec(),
        LogRecordPos { file_id: 1, offset: 10 },
    );

    let mut iter_opt2 = IteratorOptions::default();
    iter_opt2.reverse = true;
    let mut iter3 = bt.iterator(iter_opt2);
    while let Some(item) = iter3.next() {
        assert!(item.0.len() > 0);
    }

    let mut iter_opt3 = IteratorOptions::default();
    iter_opt3.prefix = "ccae".as_bytes().to_vec();
    let mut iter4 = bt.iterator(iter_opt3);
    let first = iter4.next();
    assert!(first.is_some());
    assert_eq!(first.unwrap().0, "ccae".as_bytes().to_vec());
    assert!(iter4.next().is_none());
}

#[test]
fn test_iterator_prefix_forward() {
    // the prefix cursor walks exactly the matching keys, ascending
    let mut bt = BTree::new();
    for k in ["acde", "bcde", "ccae", "ccde", "ccdf", "cfde"] {
        bt.put(k.as_bytes().to_vec(), LogRecordPos { file_id: 1, offset: 0 });
    }
    let mut opts = IteratorOptions::default();
    opts.prefix = "cc".as_bytes().to_vec();
    let mut iter = bt.iterator(opts);
    let mut seen: Vec<Vec<u8>> = Vec::new();
    while let Some(item) = iter.next() {
        seen.push(item.0);
    }
    assert_eq!(
        seen,
        vec![
            "ccae".as_bytes().to_vec(),
            "ccde".as_bytes().to_vec(),
            "ccdf".as_bytes().to_vec(),
        ]
    );

    let keys = bt.list_keys().unwrap();
    assert_eq!(keys.len(), 6);
    assert_eq!(keys[0], "acde".as_bytes().to_vec());
    assert_eq!(keys[5], "cfde".as_bytes().to_vec());
}
