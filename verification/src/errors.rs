use vstd::prelude::*;

verus! {

/// Why an operation failed; each variant carries the paths involved so the
/// caller can report which file, template, or reference was at fault.
#[derive(Debug, PartialEq, Eq)]
pub enum ClampError {
    /// A directive's reference resolved to a path that does not exist.
    TargetNotFound { resolved: Vec<u8>, template: Vec<u8>, reference: Vec<u8> },
    /// A referenced path existed but its canonical identity could not be resolved.
    CanonicalizeFailed { resolved: Vec<u8>, detail: Vec<u8> },
    /// A referenced file could not be read.
    ReadFailed { path: Vec<u8>, detail: Vec<u8> },
    /// A referenced file's content was not valid UTF-8.
    NotUtf8 { path: Vec<u8> },
    /// The lockfile's structured data was malformed.
    LockParseFailed { detail: Vec<u8> },
    /// The lockfile data could not be encoded.
    LockSerializeFailed,
}

} // verus!
