//! The error type of the library.

use vstd::prelude::*;

verus! {

/// What went wrong while reading or writing a file.
#[derive(Debug, Clone, PartialEq, Eq)]
pub enum ExrError {
    /// The byte stream (or the description of an image to be written) is
    /// malformed.
    InvalidData(String),
    /// The byte stream uses a feature that the called function does not
    /// handle.
    Unsupported(String),
}

/// The kind of an [`ExrError`], without its message.
pub enum Fault {
    Invalid,
    Unsupported,
}

impl ExrError {
    /// The kind of this error.
    pub open spec fn fault(self) -> Fault {
        match self {
            ExrError::InvalidData(_) => Fault::Invalid,
            ExrError::Unsupported(_) => Fault::Unsupported,
        }
    }

    /// The message that this error carries.
    pub open spec fn text(self) -> Seq<char> {
        match self {
            ExrError::InvalidData(s) => s@,
            ExrError::Unsupported(s) => s@,
        }
    }

    pub fn invalid(msg: &str) -> (e: Self)
        ensures
            e.fault() == Fault::Invalid,
            e.text() == msg@,
    {
        ExrError::InvalidData(msg.to_owned())
    }

    pub fn unsupported(msg: &str) -> (e: Self)
        ensures
            e.fault() == Fault::Unsupported,
            e.text() == msg@,
    {
        ExrError::Unsupported(msg.to_owned())
    }

    /// The error as a sentence: its kind, a colon and its message.
    pub fn message(&self) -> (s: String)
        ensures
            s@ == match self.fault() {
                Fault::Invalid => "invalid data: "@ + self.text(),
                Fault::Unsupported => "unsupported: "@ + self.text(),
            },
    {
        match self {
            ExrError::InvalidData(m) => "invalid data: ".to_owned().concat(m.as_str()),
            ExrError::Unsupported(m) => "unsupported: ".to_owned().concat(m.as_str()),
        }
    }
}

} // verus!
