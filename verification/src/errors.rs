//! The ways an operation of the store can fail.

use vstd::prelude::*;
use vstd::string::StringExecFns;

verus! {

/// An error of the store. Faults of the file system and of the sled
/// backend carry the message that the failing layer gave.
#[derive(Debug, Clone)]
pub enum KvsError {
    /// The file system refused an operation.
    IOError(String),
    /// Bytes of the log, or of a message, are not a record.
    SerDeError,
    /// `remove` of a key that is not in the store.
    NotFoundError(String),
    /// A path could not be used.
    PathError,
    /// Compaction could not be carried out.
    CompactionError,
    /// The index pointed at a record that is not a `Set`.
    UnexpectedCommandError,
    /// The sled backend failed.
    SledEngineError(String),
    /// A value of the sled backend is not UTF-8.
    StringParseError,
    /// Any other failure, with its message.
    Misc(String),
}

/// An error, as contracts speak of it.
pub enum Fault {
    IO(Seq<char>),
    SerDe,
    NotFound(Seq<char>),
    Path,
    Compaction,
    UnexpectedCommand,
    Sled(Seq<char>),
    StringParse,
    Other(Seq<char>),
}

impl View for KvsError {
    type V = Fault;

    open spec fn view(&self) -> Fault {
        match self {
            KvsError::IOError(m) => Fault::IO(m@),
            KvsError::SerDeError => Fault::SerDe,
            KvsError::NotFoundError(k) => Fault::NotFound(k@),
            KvsError::PathError => Fault::Path,
            KvsError::CompactionError => Fault::Compaction,
            KvsError::UnexpectedCommandError => Fault::UnexpectedCommand,
            KvsError::SledEngineError(m) => Fault::Sled(m@),
            KvsError::StringParseError => Fault::StringParse,
            KvsError::Misc(m) => Fault::Other(m@),
        }
    }
}

impl Fault {
    /// The text shown to a user for this error.
    pub open spec fn message(self) -> Seq<char> {
        match self {
            Fault::IO(_) => "KVS command io-error"@,
            Fault::SerDe => "KVS command serialization/Deserialization error"@,
            Fault::NotFound(k) => "Key not found: "@ + k,
            Fault::Path => "Path Error"@,
            Fault::Compaction => "Error while compacting database log"@,
            Fault::UnexpectedCommand => "Unexpected Command type found"@,
            Fault::Sled(m) => "Error in sled engine: "@ + m,
            Fault::StringParse => "Error parsing string for sled engine"@,
            Fault::Other(_) => "KVS misc error"@,
        }
    }
}

impl KvsError {
    /// The text shown to a user for this error.
    pub fn to_string(&self) -> (r: String)
        ensures
            r@ == self@.message(),
    {
        match self {
            KvsError::IOError(_) => "KVS command io-error".to_owned(),
            KvsError::SerDeError => "KVS command serialization/Deserialization error".to_owned(),
            KvsError::NotFoundError(k) => "Key not found: ".to_owned().concat(k.as_str()),
            KvsError::PathError => "Path Error".to_owned(),
            KvsError::CompactionError => "Error while compacting database log".to_owned(),
            KvsError::UnexpectedCommandError => "Unexpected Command type found".to_owned(),
            KvsError::SledEngineError(m) => "Error in sled engine: ".to_owned().concat(m.as_str()),
            KvsError::StringParseError => "Error parsing string for sled engine".to_owned(),
            KvsError::Misc(_) => "KVS misc error".to_owned(),
        }
    }
}

} // verus!
