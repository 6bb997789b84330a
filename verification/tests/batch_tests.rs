use bitcask::db::Engine;
use bitcask::errors::Errors;
use bitcask::options::{Options, WriteBatchOptions};

fn get_test_key(i: usize) -> Vec<u8> {
    format!("bitcask-rs-key-{:09}", i).into_bytes()
}

fn get_test_value(i: usize) -> Vec<u8> {
    format!(
        "bitcask-rs-value-value-value-value-value-value-value-value-value-{:09}",
        i
    )
    .into_bytes()
}

fn test_opts(dir: &str) -> Options {
    let mut opts = Options::default();
    opts.dir_path = dir.to_string();
    opts.data_file_size = 64 * 1024 * 1024;
    opts
}

fn seg_name(id: u32) -> Vec<u8> {
    format!("{:09}.data", id).into_bytes()
}

fn reopen(engine: &Engine, opts: Options) -> Result<Engine, Errors> {
    let mut files: Vec<(Vec<u8>, Vec<u8>)> = Vec::new();
    for (id, bytes) in engine.segments() {
        files.push((seg_name(id), bytes));
    }
    Engine::open(opts, files)
}

#[test]
fn test_write_batch_1() {
    let mut engine =
        Engine::open(test_opts("/tmp/bitcask-rs-batch-1"), Vec::new()).expect("Failed to open engine");

    let mut wb = engine.new_write_batch(WriteBatchOptions::default()).unwrap();
    let put_res1 = wb.put(get_test_key(1), get_test_value(1));
    assert!(put_res1.is_ok());
    let put_res1 = wb.put(get_test_key(2), get_test_value(11));
    assert!(put_res1.is_ok());
    let put_res1 = wb.put(get_test_key(2), get_test_value(111));
    assert!(put_res1.is_ok());

    // nothing is visible before the commit
    let res1 = engine.get(get_test_key(1));
    assert!(res1.is_err());
    assert!(res1 == Err(Errors::KeyNotFound));

    let commit_res = wb.commit(&mut engine);
    assert!(commit_res.is_ok());
    let res1 = engine.get(get_test_key(1));
    assert_eq!(res1.unwrap(), get_test_value(1));
    // the later staging of the same key wins
    assert_eq!(engine.get(get_test_key(2)).unwrap(), get_test_value(111));

    let seq_no = engine.seq_no();
    assert_eq!(seq_no, 2);
}

#[test]
fn test_write_batch_2() {
    let opts = test_opts("/tmp/bitcask-rs-batch-2");
    let mut engine = Engine::open(opts.clone(), Vec::new()).expect("Failed to open engine");

    let mut wb = engine.new_write_batch(WriteBatchOptions::default()).unwrap();
    let put_res1 = wb.put(get_test_key(1), get_test_value(1));
    assert!(put_res1.is_ok());
    let put_res1 = wb.put(get_test_key(2), get_test_value(11));
    assert!(put_res1.is_ok());
    let put_res1 = wb.put(get_test_key(3), get_test_value(111));
    assert!(put_res1.is_ok());

    let commit_res = wb.commit(&mut engine);
    assert!(commit_res.is_ok());
    let res1 = engine.get(get_test_key(1));
    assert!(res1.is_ok());

    let put_res1 = wb.put(get_test_key(4), get_test_value(111));
    assert!(put_res1.is_ok());

    let commit_res = wb.commit(&mut engine);
    assert!(commit_res.is_ok());
    let res1 = engine.get(get_test_key(1));
    assert!(res1.is_ok());

    engine.close().expect("failed to close");
    let engine2 = reopen(&engine, opts.clone()).expect("Failed to open engine");
    let keys = engine2.list_keys();
    assert!(keys.is_ok());
    let keys = keys.unwrap();
    // both committed batches are live after the restart
    assert_eq!(4, keys.len());

    let seq_no = engine.seq_no();
    assert_eq!(seq_no, 3);
    // the reopened engine resumes past the largest committed sequence
    assert_eq!(engine2.seq_no(), 3);
}

#[test]
fn test_write_batch_3() {
    let mut opts = Options::default();
    opts.dir_path = "/tmp/bitcask-rs-batch-3".to_string();
    opts.data_file_size = 64 * 1024 * 1024;
    let engine = Engine::open(opts.clone(), Vec::new()).expect("Failed to open engine");

    let keys = engine.list_keys();
    println!("{:?}", keys);
}

#[test]
fn test_batch_atomicity_across_restart() {
    // a batch whose sentinel never lands leaves nothing behind
    let opts = test_opts("/tmp/bitcask-rs-batch-4");
    let mut engine = Engine::open(opts.clone(), Vec::new()).unwrap();
    engine.put("base".as_bytes().to_vec(), "1".as_bytes().to_vec()).unwrap();
    let cut = engine.segments();

    let mut wb = engine.new_write_batch(WriteBatchOptions::default()).unwrap();
    wb.put("t1".as_bytes().to_vec(), "a".as_bytes().to_vec()).unwrap();
    wb.put("t2".as_bytes().to_vec(), "b".as_bytes().to_vec()).unwrap();
    wb.commit(&mut engine).unwrap();
    let full = engine.segments();

    // keep everything the commit wrote except its sentinel record
    assert_eq!(cut.len(), 1);
    assert_eq!(full.len(), 1);
    let committed = full[0].1.clone();
    let sentinel_len = {
        // the sentinel is the last record: sequenced key "txn-fin" and no value
        let probe = Engine::open(
            test_opts("/tmp/bitcask-rs-batch-4-p"),
            vec![(seg_name(full[0].0), committed.clone())],
        )
        .unwrap();
        assert_eq!(probe.get("t1".as_bytes().to_vec()).unwrap(), "a".as_bytes().to_vec());
        1 + 1 + 1 + (1 + 7) + 0 + 4
    };
    let torn = committed[..committed.len() - sentinel_len].to_vec();
    let engine2 = Engine::open(opts.clone(), vec![(seg_name(full[0].0), torn)]).unwrap();
    assert_eq!(
        engine2.get("base".as_bytes().to_vec()).unwrap(),
        "1".as_bytes().to_vec()
    );
    assert_eq!(engine2.get("t1".as_bytes().to_vec()), Err(Errors::KeyNotFound));
    assert_eq!(engine2.get("t2".as_bytes().to_vec()), Err(Errors::KeyNotFound));
    assert_eq!(engine2.list_keys().unwrap().len(), 1);
}

#[test]
fn test_batch_limits_and_staged_delete() {
    let opts = test_opts("/tmp/bitcask-rs-batch-5");
    let mut engine = Engine::open(opts, Vec::new()).unwrap();

    let mut small = WriteBatchOptions::default();
    small.max_batch_num = 1;
    let mut wb = engine.new_write_batch(small).unwrap();
    assert_eq!(wb.put(Vec::new(), Vec::new()), Err(Errors::KeyIsEmpty));
    wb.put("a".as_bytes().to_vec(), "1".as_bytes().to_vec()).unwrap();
    wb.put("b".as_bytes().to_vec(), "2".as_bytes().to_vec()).unwrap();
    assert_eq!(wb.commit(&mut engine), Err(Errors::ExceddMaxBatchNum));

    // a delete of a key the engine never held is dropped silently
    let mut wb2 = engine.new_write_batch(WriteBatchOptions::default()).unwrap();
    wb2.put("c".as_bytes().to_vec(), "3".as_bytes().to_vec()).unwrap();
    wb2.delete(&engine, "c".as_bytes().to_vec()).unwrap();
    wb2.commit(&mut engine).unwrap();
    assert_eq!(engine.get("c".as_bytes().to_vec()), Err(Errors::KeyNotFound));

    // a staged delete of a live key is persisted
    engine.put("d".as_bytes().to_vec(), "4".as_bytes().to_vec()).unwrap();
    let mut wb3 = engine.new_write_batch(WriteBatchOptions::default()).unwrap();
    wb3.delete(&engine, "d".as_bytes().to_vec()).unwrap();
    wb3.commit(&mut engine).unwrap();
    assert_eq!(engine.get("d".as_bytes().to_vec()), Err(Errors::KeyNotFound));
}
