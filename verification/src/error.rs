//! The failures that the engine reports.

use vstd::prelude::*;
use vstd::string::{to_string_from_display_ensures, StringExecFns};

verus! {

/// `std::io::Error`, carried through as an opaque value.
#[verifier::external_type_specification]
#[verifier::external_body]
pub struct ExIoError(std::io::Error);

/// A failure of the engine.
#[derive(Debug)]
pub enum AnchorError {
    /// An operation on the file system failed.
    IoError(std::io::Error),
    /// A key that was asked for is absent.
    KeyNotFoundError(String),
}

impl AnchorError {
    /// The text that describes the failure: what it is, a colon, and the
    /// detail it carries. For a failure of the file system the detail is
    /// the text that the error displays as.
    pub fn message(&self) -> (text: String)
        ensures
            (match self {
                AnchorError::IoError(err) => exists|detail: String|
                    to_string_from_display_ensures::<std::io::Error>(err, detail) && text@
                        == "I/O error: "@ + detail@,
                AnchorError::KeyNotFoundError(key) => text@ == "Key not found: "@ + key@,
            }),
    {
        match self {
            AnchorError::IoError(err) => {
                let detail = err.to_string();
                String::from_str("I/O error: ").concat(detail.as_str())
            },
            AnchorError::KeyNotFoundError(key) => String::from_str("Key not found: ").concat(
                key.as_str(),
            ),
        }
    }
}

} // verus!
