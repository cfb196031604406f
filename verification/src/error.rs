use vstd::prelude::*;
use vstd::string::StringExecFns;

verus! {

/// Errors that the extension-counting engine can surface to its caller.
///
/// Only fatal conditions are reported this way; per-entry traversal
/// failures during a scan are skipped silently (best-effort traversal).
#[derive(Debug)]
pub enum PnumError {
    /// A directory read failed in a way that is fatal to the scan.
    DirReadError(String),
    /// The supplied root does not exist or is not a directory.
    InvalidPath(String),
}

pub type PnumResult<T> = Result<T, PnumError>;

impl PnumError {
    /// A human-readable description of the error.
    pub fn message(&self) -> (r: String)
        ensures
            (self matches PnumError::DirReadError(m) ==> r@ == "Dir read error: "@ + m@),
            (self matches PnumError::InvalidPath(p) ==> r@ == "Invalid path: "@ + p@),
    {
        match self {
            PnumError::DirReadError(m) => String::from_str("Dir read error: ").concat(m.as_str()),
            PnumError::InvalidPath(p) => String::from_str("Invalid path: ").concat(p.as_str()),
        }
    }
}

} // verus!
