//! Error types of the store: I/O failures, data-conversion failures, and the
//! errors of the record codec and of the command parsers.
use vstd::prelude::*;
use vstd::string::StringExecFns;

verus! {

/// The top-level error: an I/O failure or a data-conversion failure.
#[derive(Debug)]
pub enum KVSError {
    FailedIO(IOError),
    FailedConvert(ConvertError),
}

/// An I/O failure, reported by the storage layer around the engine.
#[derive(Debug, PartialEq)]
pub enum IOError {
    /// Failed to write bytes to a file.
    FailedWriteBytes(String),
    /// Failed to open a file.
    FailedOpenFile(String, String),
    /// Failed to create a file.
    FailedCreateFile(String, String),
    /// Failed to truncate the write-ahead log.
    FailedTruncateWAL(String),
    /// Failed to read from a file.
    FailedReadFile(String),
    /// Failed to remove a file.
    FailedRemoveFile(String, String),
    /// Failed to get the size of a file.
    FailedGetFileSize(String, String),
    /// Failed to enumerate a directory.
    FailedGetFilePath(String, String),
    /// Failed to seek within a file.
    FailedSeek(String),
    /// The data directory was not found.
    DirectoryNotFound(String),
}

/// A data-conversion failure while decoding stored bytes.
#[derive(Debug)]
pub enum ConvertError {
    /// The bytes do not form a valid value segment.
    FailedBytesToValue(String),
    /// The bytes of a key are not valid UTF-8.
    FailedBytesToString(String),
    /// The data ends in the middle of a record frame.
    UnexpectedEof(String),
}

/// An error of the standalone record codec.
#[derive(Debug, PartialEq)]
pub enum RecordError {
    FailedFromBytes(String),
}

/// An error of the interactive command parser.
#[derive(Debug, PartialEq)]
pub enum ParseError {
    CommandNotDefine(String),
    InvalidArguments,
}

impl IOError {
    /// The text of this error.
    pub open spec fn spec_message(&self) -> Seq<char> {
        match self {
            IOError::FailedWriteBytes(msg) =>
                "IOError: Failed to write bytes because the following error occurred.\n"@ + msg@,
            IOError::FailedOpenFile(path, msg) =>
                "IOError: Failed to open '"@ + path@
                + "' because the following error occurred.\n"@ + msg@,
            IOError::FailedCreateFile(path, msg) =>
                "IOError: Failed to create '"@ + path@
                + "' because the following error occurred.\n"@ + msg@,
            IOError::FailedTruncateWAL(msg) =>
                "IOError: Failed to truncate WAL because the following error occurred.\n"@ + msg@,
            IOError::FailedReadFile(msg) =>
                "IOError: Failed to read file because the following error occurred.\n"@ + msg@,
            IOError::FailedRemoveFile(path, msg) =>
                "IOError: Failed to remove '"@ + path@
                + "' because the following error occurred.\n"@ + msg@,
            IOError::FailedGetFileSize(path, msg) =>
                "IOError: Failed to get file size of '"@ + path@
                + "' because the following error occurred.\n"@ + msg@,
            IOError::FailedGetFilePath(path, msg) =>
                "IOError: Failed to get file path in directory '"@ + path@
                + "' because the following error occurred.\n"@ + msg@,
            IOError::FailedSeek(msg) =>
                "IOError: Failed to seek file because the following error occurred.\n"@ + msg@,
            IOError::DirectoryNotFound(path) =>
                "IOError: The directory '"@ + path@ + "' is not found or is not directory."@,
        }
    }

    /// Renders the error as text.
    pub fn message(&self) -> (r: String)
        ensures
            r@ == self.spec_message(),
    {
        match self {
            IOError::FailedWriteBytes(msg) => {
                let mut s =
                    "IOError: Failed to write bytes because the following error occurred.\n".to_owned();
                s.append(msg.as_str());
                s
            },
            IOError::FailedOpenFile(path, msg) => {
                let mut s = "IOError: Failed to open '".to_owned();
                s.append(path.as_str());
                s.append("' because the following error occurred.\n");
                s.append(msg.as_str());
                s
            },
            IOError::FailedCreateFile(path, msg) => {
                let mut s = "IOError: Failed to create '".to_owned();
                s.append(path.as_str());
                s.append("' because the following error occurred.\n");
                s.append(msg.as_str());
                s
            },
            IOError::FailedTruncateWAL(msg) => {
                let mut s =
                    "IOError: Failed to truncate WAL because the following error occurred.\n".to_owned();
                s.append(msg.as_str());
                s
            },
            IOError::FailedReadFile(msg) => {
                let mut s =
                    "IOError: Failed to read file because the following error occurred.\n".to_owned();
                s.append(msg.as_str());
                s
            },
            IOError::FailedRemoveFile(path, msg) => {
                let mut s = "IOError: Failed to remove '".to_owned();
                s.append(path.as_str());
                s.append("' because the following error occurred.\n");
                s.append(msg.as_str());
                s
            },
            IOError::FailedGetFileSize(path, msg) => {
                let mut s = "IOError: Failed to get file size of '".to_owned();
                s.append(path.as_str());
                s.append("' because the following error occurred.\n");
                s.append(msg.as_str());
                s
            },
            IOError::FailedGetFilePath(path, msg) => {
                let mut s = "IOError: Failed to get file path in directory '".to_owned();
                s.append(path.as_str());
                s.append("' because the following error occurred.\n");
                s.append(msg.as_str());
                s
            },
            IOError::FailedSeek(msg) => {
                let mut s =
                    "IOError: Failed to seek file because the following error occurred.\n".to_owned();
                s.append(msg.as_str());
                s
            },
            IOError::DirectoryNotFound(path) => {
                let mut s = "IOError: The directory '".to_owned();
                s.append(path.as_str());
                s.append("' is not found or is not directory.");
                s
            },
        }
    }
}

impl ConvertError {
    /// The text of this error.
    pub open spec fn spec_message(&self) -> Seq<char> {
        match self {
            ConvertError::FailedBytesToValue(msg) =>
                "ConvertError: Failed to convert bytes to Value because the following error occurred.\n"@
                + msg@,
            ConvertError::FailedBytesToString(msg) =>
                "ConvertError: Failed to convert bytes to String because the following error occurred.\n"@
                + msg@,
            ConvertError::UnexpectedEof(msg) =>
                "ConvertError: The data ends inside a record.\n"@ + msg@,
        }
    }

    /// Renders the error as text.
    pub fn message(&self) -> (r: String)
        ensures
            r@ == self.spec_message(),
    {
        match self {
            ConvertError::FailedBytesToValue(msg) => {
                let mut s =
                    "ConvertError: Failed to convert bytes to Value because the following error occurred.\n".to_owned();
                s.append(msg.as_str());
                s
            },
            ConvertError::FailedBytesToString(msg) => {
                let mut s =
                    "ConvertError: Failed to convert bytes to String because the following error occurred.\n".to_owned();
                s.append(msg.as_str());
                s
            },
            ConvertError::UnexpectedEof(msg) => {
                let mut s = "ConvertError: The data ends inside a record.\n".to_owned();
                s.append(msg.as_str());
                s
            },
        }
    }
}

impl KVSError {
    /// The text of this error.
    pub open spec fn spec_message(&self) -> Seq<char> {
        match self {
            KVSError::FailedIO(e) => e.spec_message(),
            KVSError::FailedConvert(e) => e.spec_message(),
        }
    }

    /// Renders the error as text.
    pub fn message(&self) -> (r: String)
        ensures
            r@ == self.spec_message(),
    {
        match self {
            KVSError::FailedIO(e) => e.message(),
            KVSError::FailedConvert(e) => e.message(),
        }
    }
}

impl ParseError {
    /// The text of this error.
    pub open spec fn spec_message(&self) -> Seq<char> {
        match self {
            ParseError::CommandNotDefine(cmd) =>
                "ParseError: The command '"@ + cmd@ + "' is not defined."@,
            ParseError::InvalidArguments => "ParseError: Invalid arguments."@,
        }
    }

    /// Renders the error as text.
    pub fn message(&self) -> (r: String)
        ensures
            r@ == self.spec_message(),
    {
        match self {
            ParseError::CommandNotDefine(cmd) => {
                let mut s = "ParseError: The command '".to_owned();
                s.append(cmd.as_str());
                s.append("' is not defined.");
                s
            },
            ParseError::InvalidArguments => "ParseError: Invalid arguments.".to_owned(),
        }
    }
}

impl From<IOError> for KVSError {
    fn from(value: IOError) -> (r: Self) {
        KVSError::FailedIO(value)
    }
}

impl vstd::std_specs::convert::FromSpecImpl<IOError> for KVSError {
    open spec fn obeys_from_spec() -> bool {
        true
    }

    open spec fn from_spec(value: IOError) -> Self {
        KVSError::FailedIO(value)
    }
}

impl From<ConvertError> for KVSError {
    fn from(value: ConvertError) -> (r: Self) {
        KVSError::FailedConvert(value)
    }
}

impl vstd::std_specs::convert::FromSpecImpl<ConvertError> for KVSError {
    open spec fn obeys_from_spec() -> bool {
        true
    }

    open spec fn from_spec(value: ConvertError) -> Self {
        KVSError::FailedConvert(value)
    }
}

} // verus!
