//! Core engine for attaching lightweight labels ("tags") to files without
//! modifying the files themselves. Tag data lives in small per-directory
//! sidecar documents; a `Workspace` scopes tagging to a directory tree and
//! delegates to per-directory `TagFile`s. Everything here is pure state and
//! text: callers perform the actual filesystem reads and writes and hand the
//! outcomes in as plain values.

pub mod codec;
pub mod errors;
pub mod paths;
pub mod roundtrip;
pub mod tag;
pub mod tagfile;
pub mod text;
pub mod workspace;

pub use errors::TagFileError;
pub use errors::WorkspaceError;
pub use tag::Tag;
pub use tagfile::TagFile;
pub use workspace::SearchArgs;
pub use workspace::Workspace;
