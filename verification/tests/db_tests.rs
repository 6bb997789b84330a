use bitcask::data_file::{get_data_file_name, parse_u32_digits, DataFile};
use bitcask::db::Engine;
use bitcask::errors::Errors;
use bitcask::log_record::{LogRecord, LogRecordType};
use bitcask::options::{check_options, IndexType, Options};

fn test_opts(dir: &str) -> Options {
    let mut opts = Options::default();
    opts.dir_path = dir.to_string();
    opts
}

fn seg_name(id: u32) -> Vec<u8> {
    format!("{:09}.data", id).into_bytes()
}

fn reopen(engine: &Engine, opts: Options) -> Result<Engine, Errors> {
    let mut files: Vec<(Vec<u8>, Vec<u8>)> = Vec::new();
    for (id, bytes) in engine.segments() {
        files.push((seg_name(id), bytes));
    }
    Engine::open(opts, files)
}

#[test]
fn test_basic_put_get_delete() {
    let mut engine = Engine::open(test_opts("/tmp/bitcask-basic"), Vec::new()).unwrap();
    engine
        .put("name".as_bytes().to_vec(), "bitcask-rs".as_bytes().to_vec())
        .unwrap();
    assert_eq!(
        engine.get("name".as_bytes().to_vec()).unwrap(),
        "bitcask-rs".as_bytes().to_vec()
    );
    engine.delete("name".as_bytes().to_vec()).unwrap();
    assert_eq!(
        engine.get("name".as_bytes().to_vec()),
        Err(Errors::KeyNotFound)
    );
}

#[test]
fn test_empty_key_rejected() {
    let mut engine = Engine::open(test_opts("/tmp/bitcask-empty"), Vec::new()).unwrap();
    assert_eq!(
        engine.put(Vec::new(), "v".as_bytes().to_vec()),
        Err(Errors::KeyIsEmpty)
    );
    assert_eq!(engine.get(Vec::new()), Err(Errors::KeyIsEmpty));
    assert_eq!(engine.delete(Vec::new()), Err(Errors::KeyIsEmpty));
    assert_eq!(engine.list_keys().unwrap().len(), 0);
}

#[test]
fn test_idempotent_delete_appends_nothing() {
    let mut engine = Engine::open(test_opts("/tmp/bitcask-del"), Vec::new()).unwrap();
    engine.put("a".as_bytes().to_vec(), "1".as_bytes().to_vec()).unwrap();
    let before = engine.segments();
    engine.delete("missing".as_bytes().to_vec()).unwrap();
    let after = engine.segments();
    assert_eq!(before, after);
}

#[test]
fn test_overwrite_and_reopen() {
    let mut engine = Engine::open(test_opts("/tmp/bitcask-re"), Vec::new()).unwrap();
    engine.put("k1".as_bytes().to_vec(), "v1".as_bytes().to_vec()).unwrap();
    engine.put("k1".as_bytes().to_vec(), "v2".as_bytes().to_vec()).unwrap();
    engine.put("k2".as_bytes().to_vec(), "w".as_bytes().to_vec()).unwrap();
    engine.delete("k2".as_bytes().to_vec()).unwrap();
    engine.close().unwrap();

    let engine2 = reopen(&engine, test_opts("/tmp/bitcask-re")).unwrap();
    assert_eq!(
        engine2.get("k1".as_bytes().to_vec()).unwrap(),
        "v2".as_bytes().to_vec()
    );
    assert_eq!(
        engine2.get("k2".as_bytes().to_vec()),
        Err(Errors::KeyNotFound)
    );
    assert_eq!(engine2.list_keys().unwrap().len(), 1);
}

#[test]
fn test_rotation_keeps_reads() {
    let mut opts = test_opts("/tmp/bitcask-rot");
    opts.data_file_size = 200;
    let mut engine = Engine::open(opts, Vec::new()).unwrap();
    // each record encodes to 30 bytes: 3 + 9 + 14 + 4
    for i in 0..10u8 {
        let key = vec![b'k', b'0' + i, b'-', b'p', b'a', b'd', b'd', b'e', b'd'];
        let value = vec![b'v'; 14];
        engine.put(key, value).unwrap();
    }
    assert!(engine.segments().len() >= 2);
    for i in 0..10u8 {
        let key = vec![b'k', b'0' + i, b'-', b'p', b'a', b'd', b'd', b'e', b'd'];
        assert_eq!(engine.get(key).unwrap(), vec![b'v'; 14]);
    }
    assert_eq!(engine.list_keys().unwrap().len(), 10);
}

#[test]
fn test_corrupt_record_fails_open() {
    let mut engine = Engine::open(test_opts("/tmp/bitcask-crc"), Vec::new()).unwrap();
    engine.put("name".as_bytes().to_vec(), "value".as_bytes().to_vec()).unwrap();
    let mut files: Vec<(Vec<u8>, Vec<u8>)> = Vec::new();
    for (id, mut bytes) in engine.segments() {
        let middle = bytes.len() / 2;
        bytes[middle] ^= 0x40;
        files.push((seg_name(id), bytes));
    }
    let res = Engine::open(test_opts("/tmp/bitcask-crc"), files);
    assert!(res.is_err());
    assert_eq!(res.err().unwrap(), Errors::InvalidLogRecordCrc);
}

#[test]
fn test_malformed_name_fails_open() {
    let files = vec![("abc.data".as_bytes().to_vec(), Vec::new())];
    let res = Engine::open(test_opts("/tmp/bitcask-bad"), files);
    assert!(res.is_err());
    assert_eq!(res.err().unwrap(), Errors::DataDirectoryCorrupted);
}

#[test]
fn test_options_validation() {
    let mut opts = Options::default();
    opts.dir_path = String::new();
    assert_eq!(check_options(&opts), Some(Errors::DirPathIsEmpty));
    assert_eq!(
        Engine::open(opts, Vec::new()).err().unwrap(),
        Errors::DirPathIsEmpty
    );

    let mut opts2 = Options::default();
    opts2.data_file_size = 99;
    assert_eq!(check_options(&opts2), Some(Errors::DataFileSizeTooSmall));
    assert_eq!(
        Engine::open(opts2, Vec::new()).err().unwrap(),
        Errors::DataFileSizeTooSmall
    );

    let opts3 = Options::default();
    assert_eq!(opts3.index_type, IndexType::BTree);
    assert_eq!(check_options(&opts3), None);
}

#[test]
fn test_new_data_file() {
    let data_file = DataFile::new(9090);
    assert_eq!(data_file.get_file_id(), 9090);
    assert_eq!(data_file.get_write_off(), 0);
}

#[test]
fn test_data_file_write() {
    let mut data_file1 = DataFile::new(100);
    assert_eq!(data_file1.get_file_id(), 100);

    let write_res1 = data_file1.write("aaa".as_bytes());
    assert!(write_res1.is_ok());
    assert_eq!(write_res1.unwrap(), 3 as usize);

    let write_res2 = data_file1.write("bbb".as_bytes());
    assert!(write_res2.is_ok());
    assert_eq!(write_res2.unwrap(), 3 as usize);

    let write_res3 = data_file1.write("ccc".as_bytes());
    assert!(write_res3.is_ok());
    assert_eq!(write_res3.unwrap(), 3 as usize);
    assert_eq!(data_file1.get_write_off(), 9);
}

#[test]
fn test_data_file_sync() {
    let mut data_file1 = DataFile::new(200);
    assert_eq!(data_file1.get_file_id(), 200);
    data_file1.write("Hello World".as_bytes()).unwrap();
    let sync_res = data_file1.sync();
    assert!(sync_res.is_ok());
}

#[test]
fn test_data_file_read_log_record() {
    let mut data_file1 = DataFile::new(700);
    assert_eq!(data_file1.get_file_id(), 700);

    let enc1 = LogRecord {
        key: "name".as_bytes().to_vec(),
        value: "bitcask-rs-kv".as_bytes().to_vec(),
        rec_type: LogRecordType::NORMAL,
    };
    let write_res1 = data_file1.write(&enc1.encode());
    assert!(write_res1.is_ok());

    let read_res1 = data_file1.read_log_record(0);
    assert!(read_res1.is_ok());
    let read_enc1 = read_res1.ok().unwrap().record;
    assert_eq!(enc1.key, read_enc1.key);
    assert_eq!(enc1.value, read_enc1.value);
    assert_eq!(enc1.rec_type, read_enc1.rec_type);

    let enc2 = LogRecord {
        key: "name".as_bytes().to_vec(),
        value: "new-value".as_bytes().to_vec(),
        rec_type: LogRecordType::NORMAL,
    };
    let write_res2 = data_file1.write(&enc2.encode());
    assert!(write_res2.is_ok());

    let read_res2 = data_file1.read_log_record(24);
    assert!(read_res2.is_ok());
    let read_enc2 = read_res2.ok().unwrap().record;
    assert_eq!(enc2.key, read_enc2.key);
    assert_eq!(enc2.value, read_enc2.value);
    assert_eq!(enc2.rec_type, read_enc2.rec_type);

    let enc3 = LogRecord {
        key: "name".as_bytes().to_vec(),
        value: Default::default(),
        rec_type: LogRecordType::DELETED,
    };
    let write_res3 = data_file1.write(&enc3.encode());
    assert!(write_res3.is_ok());

    let read_res3 = data_file1.read_log_record(44);
    assert!(read_res3.is_ok());
    let read_enc3 = read_res3.ok().unwrap().record;
    assert_eq!(enc3.key, read_enc3.key);
    assert_eq!(enc3.value, read_enc3.value);
    assert_eq!(enc3.rec_type, read_enc3.rec_type);

    // past the last record only the clean end of file remains
    let eof = data_file1.read_log_record(64);
    assert_eq!(eof.err().unwrap(), Errors::ReadDataFileEOF);
}

#[test]
fn test_file_names() {
    let name = get_data_file_name("/tmp/dir", 42);
    assert_eq!(name, "/tmp/dir/000000042.data".as_bytes().to_vec());
    assert_eq!(parse_u32_digits("000000042".as_bytes()), Some(42));
    assert_eq!(parse_u32_digits("".as_bytes()), None);
    assert_eq!(parse_u32_digits("12a".as_bytes()), None);
    assert_eq!(parse_u32_digits("4294967295".as_bytes()), Some(u32::MAX));
    assert_eq!(parse_u32_digits("4294967296".as_bytes()), None);
}
