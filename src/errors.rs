use vstd::prelude::*;

verus! {

/// Every failure that an engine operation can report.
#[derive(Debug, Clone, Copy, PartialEq, Eq, Structural)]
pub enum Errors {
    FailedReadFromDataFile,
    FailedWriteToDataFile,
    FailedSyncDataFile,
    FailedToOpenDataFile,
    KeyIsEmpty,
    IndexUpdateFailed,
    KeyNotFound,
    DataFileNotFound,
    DirPathIsEmpty,
    DataFileSizeTooSmall,
    FailedToCreateDatabaseDir,
    FailedToReadDatabaseDir,
    DataDirectoryCorrupted,
    ReadDataFileEOF,
    InvalidLogRecordCrc,
    ExceedMaxBatchNum,
    MergeInProgress,
    UnableToUseWriteBatch,
}

impl Errors {
    /// A human-readable description of the error.
    pub fn message(&self) -> (r: &'static str)
        ensures
            *self == Errors::FailedReadFromDataFile ==> r@ == "failed to read from data file"@,
            *self == Errors::FailedWriteToDataFile ==> r@ == "failed to write to data file"@,
            *self == Errors::FailedSyncDataFile ==> r@ == "failed to sync data file"@,
            *self == Errors::FailedToOpenDataFile ==> r@ == "failed to open data file"@,
            *self == Errors::KeyIsEmpty ==> r@ == "this key is empty"@,
            *self == Errors::IndexUpdateFailed ==> r@ == "memory index failed to update"@,
            *self == Errors::KeyNotFound ==> r@ == "key is not found in database"@,
            *self == Errors::DataFileNotFound ==> r@ == "datafile is not found in database"@,
            *self == Errors::DirPathIsEmpty ==> r@ == "database directory path can not be empty"@,
            *self == Errors::DataFileSizeTooSmall ==> r@ == "database data file size must be greater than 0"@,
            *self == Errors::FailedToCreateDatabaseDir ==> r@ == "failed to create the database directory"@,
            *self == Errors::FailedToReadDatabaseDir ==> r@ == "failed to read the database directory"@,
            *self == Errors::DataDirectoryCorrupted ==> r@ == "database directory is corrupted"@,
            *self == Errors::ReadDataFileEOF ==> r@ == "read data file eof"@,
            *self == Errors::InvalidLogRecordCrc ==> r@ == "invalid crc value, log record maybe corrupted"@,
            *self == Errors::ExceedMaxBatchNum ==> r@ == "exceed the max batch num"@,
            *self == Errors::MergeInProgress ==> r@ == "merge is in progress, try again later"@,
            *self == Errors::UnableToUseWriteBatch ==> r@ == "cannot use write batch, seq file not exists"@,
    {
        match self {
            Errors::FailedReadFromDataFile => "failed to read from data file",
            Errors::FailedWriteToDataFile => "failed to write to data file",
            Errors::FailedSyncDataFile => "failed to sync data file",
            Errors::FailedToOpenDataFile => "failed to open data file",
            Errors::KeyIsEmpty => "this key is empty",
            Errors::IndexUpdateFailed => "memory index failed to update",
            Errors::KeyNotFound => "key is not found in database",
            Errors::DataFileNotFound => "datafile is not found in database",
            Errors::DirPathIsEmpty => "database directory path can not be empty",
            Errors::DataFileSizeTooSmall => "database data file size must be greater than 0",
            Errors::FailedToCreateDatabaseDir => "failed to create the database directory",
            Errors::FailedToReadDatabaseDir => "failed to read the database directory",
            Errors::DataDirectoryCorrupted => "database directory is corrupted",
            Errors::ReadDataFileEOF => "read data file eof",
            Errors::InvalidLogRecordCrc => "invalid crc value, log record maybe corrupted",
            Errors::ExceedMaxBatchNum => "exceed the max batch num",
            Errors::MergeInProgress => "merge is in progress, try again later",
            Errors::UnableToUseWriteBatch => "cannot use write batch, seq file not exists",
        }
    }
}

} // verus!
