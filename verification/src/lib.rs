//! An embeddable key-value storage engine in the Bitcask style: every
//! mutation is appended to a log of segment buffers, and an in-memory
//! ordered index maps each live key to the position of its most recent
//! record.

pub mod batch;
pub mod crc;
pub mod data_file;
pub mod db;
pub mod errors;
pub mod fio;
pub mod index;
pub mod keys;
pub mod options;
pub mod replay;
pub mod log_record;
pub mod util;
pub mod varint;
