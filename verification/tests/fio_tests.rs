use bitcask::fio::{new_io_manager, IOManager, MemIO};

#[test]
fn test_mem_io_write() {
    let mut fio = MemIO::new();
    let res1 = fio.write("Hello World1".as_bytes());
    assert!(res1.is_ok());
    assert_eq!(res1.unwrap(), 12);

    let res2 = fio.write("Hello KV-store".as_bytes());
    assert!(res2.is_ok());
    assert_eq!(fio.len(), 26);
}

#[test]
fn test_mem_io_read() {
    let mut fio = new_io_manager();
    fio.write("Hello World".as_bytes()).unwrap();
    fio.write("Hello KV-store".as_bytes()).unwrap();

    let buf = fio.read(0, 11).unwrap();
    assert_eq!(buf.len(), 11);
    assert_eq!(buf, "Hello World".as_bytes().to_vec());

    let buf2 = fio.read(11, 14).unwrap();
    assert_eq!(buf2.len(), 14);
    assert_eq!(buf2, "Hello KV-store".as_bytes().to_vec());

    // a read past the end comes back short, a read at the end empty
    let buf3 = fio.read(20, 100).unwrap();
    assert_eq!(buf3, "store".as_bytes().to_vec());
    assert_eq!(fio.read(25, 10).unwrap(), Vec::<u8>::new());
}

#[test]
fn test_mem_io_sync() {
    let mut fio = MemIO::new();
    fio.write("Hello World".as_bytes()).unwrap();
    let sync_res = fio.sync();
    assert!(sync_res.is_ok());
    assert_eq!(fio.len(), 11);
}
