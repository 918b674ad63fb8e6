//! Failures that end a run.

use vstd::prelude::*;

verus! {

/// `std::io::Error`, why a file was not opened or read. Nothing is known of
/// what it holds.
#[verifier::external_type_specification]
#[verifier::external_body]
pub struct ExIoError(std::io::Error);

/// Why a run produced no report.
#[derive(Debug)]
pub enum CruncherError {
    /// The input breaks the rules of the format, or a part of the pipeline
    /// went away; the text says which.
    GenericFailure(String),
    /// The input could not be opened or read.
    IOFailure(std::io::Error),
    /// A value could not be read or written as JSON.
    SerializationFailure(serde_json::Error),
}

impl CruncherError {
    /// A short description of the kind of failure.
    pub fn message(&self) -> (text: String)
        ensures
            text@ == match self {
                CruncherError::GenericFailure(_) => "error"@,
                CruncherError::IOFailure(_) => "io error"@,
                CruncherError::SerializationFailure(_) => "serialization error"@,
            },
    {
        match self {
            CruncherError::GenericFailure(_) => "error".to_owned(),
            CruncherError::IOFailure(_) => "io error".to_owned(),
            CruncherError::SerializationFailure(_) => "serialization error".to_owned(),
        }
    }

    /// The failure of a record that no chunk can hold.
    pub fn corrupted() -> (error: Self)
        ensures
            error matches CruncherError::GenericFailure(text) && text@ == "Corrupted file"@,
    {
        CruncherError::GenericFailure("Corrupted file".to_owned())
    }
}

} // verus!
