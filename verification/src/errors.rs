//! The failure vocabulary shared by the whole engine. Every error is an
//! ordinary recoverable outcome returned to the caller; a `Workspace` stays
//! usable after any of them.

use vstd::prelude::*;
use vstd::string::StringExecFns;

verus! {

/// Failures of workspace-level operations.
#[derive(Debug)]
pub enum WorkspaceError {
    /// The workspace name violates the validity rule.
    InvalidName(String),
    /// The workspace marker file could not be created or opened.
    FileUnavailable(String),
}

/// Failures of sidecar-document operations.
#[derive(Debug)]
pub enum TagFileError {
    /// A file's parent directory cannot be resolved or canonicalized, or a
    /// path carries no usable file name.
    BadPath(String),
    /// A sidecar document could not be encoded or decoded.
    Serialize(String),
    /// An underlying filesystem operation failed; carries its description.
    Io(String),
}

impl WorkspaceError {
    /// A human-readable description of this error.
    pub fn message(&self) -> (r: String)
        ensures
            match self {
                WorkspaceError::InvalidName(name) => r@ == "Workspace name is invalid: "@
                    + name@,
                WorkspaceError::FileUnavailable(name) => r@
                    == "Cannot open/create workspace file: "@ + name@,
            },
    {
        match self {
            WorkspaceError::InvalidName(name) => String::from_str(
                "Workspace name is invalid: ",
            ).concat(name.as_str()),
            WorkspaceError::FileUnavailable(name) => String::from_str(
                "Cannot open/create workspace file: ",
            ).concat(name.as_str()),
        }
    }
}

impl TagFileError {
    /// A human-readable description of this error.
    pub fn message(&self) -> (r: String)
        ensures
            match self {
                TagFileError::BadPath(value) => r@ == "Path error: "@ + value@,
                TagFileError::Serialize(value) => r@ == "Serialization error: "@ + value@,
                TagFileError::Io(value) => r@ == "Encountered IO error: "@ + value@,
            },
    {
        match self {
            TagFileError::BadPath(value) => String::from_str("Path error: ").concat(
                value.as_str(),
            ),
            TagFileError::Serialize(value) => String::from_str("Serialization error: ").concat(
                value.as_str(),
            ),
            TagFileError::Io(value) => String::from_str("Encountered IO error: ").concat(
                value.as_str(),
            ),
        }
    }
}

} // verus!
