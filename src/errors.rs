use vstd::prelude::*;

verus! {

/// Every failure the archive engine can report.
///
/// Variants that wrap an underlying failure carry its description as text.
#[derive(Debug, PartialEq, Eq)]
pub enum AppError {
    Io(String),
    ReadDirError(String, String),
    ReadEntryError(String, String),
    WriterError(String),
    ReaderError(String),
    FlushError(String),
    Compression,
    Archive(String),
    EncoderError(String),
    LockPoisoned,
    SenderError(String),
    CreateDirError(String, String),
    CreateFileError(String, String),
    FileNotExist(String),
    IllegalUTF8,
    MissingChunk(String),
    CapThreadsError(String),
    InvalidTimeStamp(u64),
    Other(String),
    /// The archive does not start with the expected magic prefix, or its
    /// version field cannot be read as a version.
    InvalidFormat,
    /// The archive's major.minor version differs from the running one.
    IncompatibleVersion,
    /// The archive ends in the middle of a field.
    UnexpectedEof,
    /// A compressed chunk is damaged or decodes to more than the allowed size.
    CorruptData,
    /// A file to pack does not lie under the root directory.
    PathEscapesRoot(String),
}

impl AppError {
    /// Whether this error wraps an underlying failure.
    pub open spec fn spec_has_source(&self) -> bool {
        match self {
            AppError::Io(_) | AppError::ReadDirError(_, _) | AppError::ReadEntryError(_, _)
            | AppError::WriterError(_) | AppError::ReaderError(_) | AppError::FlushError(_)
            | AppError::EncoderError(_) | AppError::SenderError(_)
            | AppError::CreateDirError(_, _) | AppError::CreateFileError(_, _)
            | AppError::CapThreadsError(_) => true,
            _ => false,
        }
    }

    /// The description of the underlying failure, for the variants that wrap one.
    pub fn source(&self) -> (r: Option<String>)
        ensures
            r.is_some() == self.spec_has_source(),
    {
        match self {
            AppError::Io(e) => Some(e.clone()),
            AppError::ReadDirError(_, e) => Some(e.clone()),
            AppError::ReadEntryError(_, e) => Some(e.clone()),
            AppError::WriterError(e) => Some(e.clone()),
            AppError::ReaderError(e) => Some(e.clone()),
            AppError::FlushError(e) => Some(e.clone()),
            AppError::EncoderError(e) => Some(e.clone()),
            AppError::SenderError(e) => Some(e.clone()),
            AppError::CreateDirError(_, e) => Some(e.clone()),
            AppError::CreateFileError(_, e) => Some(e.clone()),
            AppError::CapThreadsError(e) => Some(e.clone()),
            _ => None,
        }
    }
}

} // verus!
