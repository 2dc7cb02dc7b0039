use vstd::prelude::*;

verus! {

/// The errors of a carving operation.
#[derive(Debug, PartialEq, Eq, Clone)]
pub enum Error {
    /// The configuration is inconsistent: a file type can be neither completed nor paired, or
    /// two header/footer patterns share a match id.
    ConfigValidationError,
    /// A carve log could not be read back.
    LogReadError(String),
    /// Reading or writing a file failed; the message says why.
    IoError(String),
}

} // verus!
