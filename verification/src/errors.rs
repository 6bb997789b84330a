//! The error taxonomy of the engine.

use vstd::prelude::*;

verus! {

/// Every failure the engine can report.
#[derive(Debug, Clone, Copy, PartialEq, Eq, Structural)]
pub enum Errors {
    FailedToReadFromDataFile,
    FailedToWriteToDataFile,
    FailedToSyncFile,
    FailedToOpenDataFile,
    KeyIsEmpty,
    IndexUpdateFailed,
    KeyNotFound,
    DataFileNotFound,
    DirPathIsEmpty,
    DataFileSizeTooSmall,
    FailedToCreateDatabaseDir,
    FailedToReadDatabaseDir,
    DataDirectoryCorrupted,
    ReadDataFileEOF,
    InvalidLogRecordCrc,
    ExceddMaxBatchNum,
}

} // verus!
