use vstd::prelude::*;

verus! {

/// Failure taxonomy of the engine. Each variant carries the name or detail
/// the caller needs to render a diagnostic.
#[derive(Debug)]
pub enum PkgError {
    /// The registry could not be reached.
    Transport(String),
    /// The registry answered with a non-success status or malformed metadata.
    Registry(String),
    /// The requested package name is not in the registry snapshot.
    NotFound(String),
    /// The requested version spec matched no version of the named package.
    VersionNotFound(String, String),
    /// Computed digest disagrees with the expected digest (expected, computed).
    IntegrityMismatch(String, String),
    /// An archive could not be read.
    Extraction(String),
    /// The lock file is in an inconsistent state.
    LockConflict(String),
    /// Generic disk or permission failure.
    Io(String),
}

impl PkgError {
    /// True exactly on the integrity-failure variant; installers use this to
    /// decide whether an interactive override may apply.
    pub fn is_integrity_mismatch(&self) -> (r: bool)
        ensures
            r == (self is IntegrityMismatch),
    {
        match self {
            PkgError::IntegrityMismatch(_, _) => true,
            _ => false,
        }
    }
}

} // verus!
