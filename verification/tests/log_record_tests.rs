use bitcask::crc::crc32;
use bitcask::data_file::DataFile;
use bitcask::log_record::{max_log_record_header_size, LogRecord, LogRecordType};

#[test]
fn test_log_record_encode_crc() {
    let rec1 = LogRecord {
        key: "name".as_bytes().to_vec(),
        value: "bitcask-rs".as_bytes().to_vec(),
        rec_type: LogRecordType::NORMAL,
    };
    let (crc1, enc1) = rec1.encode_and_get_crc();
    assert!(crc1 == 1020360578);
    assert!(enc1.len() == 21);

    let rec2 = LogRecord {
        key: "name1".as_bytes().to_vec(),
        value: Vec::default(),
        rec_type: LogRecordType::NORMAL,
    };
    let (crc2, enc2) = rec2.encode_and_get_crc();
    assert!(crc2 == 1467182769);
    assert!(enc2.len() == 12);

    let rec3 = LogRecord {
        key: "name1".as_bytes().to_vec(),
        value: "bitcask-rs".as_bytes().to_vec(),
        rec_type: LogRecordType::DELETED,
    };
    let (crc3, enc3) = rec3.encode_and_get_crc();
    assert!(crc3 == 243009088);
    assert!(enc3.len() == 22);
}

#[test]
fn test_encode_layout() {
    // type byte, one-byte sizes, key, value, little-endian crc of the rest
    let rec = LogRecord {
        key: vec![7],
        value: vec![9, 9],
        rec_type: LogRecordType::NORMAL,
    };
    let enc = rec.encode();
    assert_eq!(enc.len(), 1 + 1 + 1 + 1 + 2 + 4);
    assert_eq!(&enc[0..6], &[1, 1, 2, 7, 9, 9]);
    let crc = crc32(&enc[0..6]);
    assert_eq!(&enc[6..10], crc.to_le_bytes().as_slice());
    assert_eq!(rec.get_crc(), crc);
}

#[test]
fn test_header_size() {
    assert_eq!(max_log_record_header_size(), 11);
}

#[test]
fn test_codec_round_trip() {
    // a record written at the front of a segment reads back unchanged
    let rec = LogRecord {
        key: "alpha".as_bytes().to_vec(),
        value: "beta-gamma".as_bytes().to_vec(),
        rec_type: LogRecordType::DELETED,
    };
    let enc = rec.encode();
    let mut df = DataFile::new(3);
    df.write(enc.as_slice()).unwrap();
    let back = df.read_log_record(0).unwrap();
    assert_eq!(back.record.key, rec.key);
    assert_eq!(back.record.value, rec.value);
    assert_eq!(back.record.rec_type, rec.rec_type);
    assert_eq!(back.size, enc.len());
}

#[test]
fn test_crc_detects_every_bit_flip() {
    // flipping any single bit of the encoding makes the read fail
    let rec = LogRecord {
        key: "key".as_bytes().to_vec(),
        value: "value".as_bytes().to_vec(),
        rec_type: LogRecordType::NORMAL,
    };
    let enc = rec.encode();
    for byte in 0..enc.len() {
        for bit in 0..8 {
            let mut bad = enc.clone();
            bad[byte] ^= 1u8 << bit;
            let mut df = DataFile::new(0);
            df.write(bad.as_slice()).unwrap();
            let res = df.read_log_record(0);
            assert!(res.is_err(), "flip at byte {} bit {} went unnoticed", byte, bit);
        }
    }
}
