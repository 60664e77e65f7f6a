use vstd::prelude::*;

verus! {

/// A key: a byte string, ordered lexicographically.
pub type VeloKey = Vec<u8>;

/// A value: a byte string. The empty value is a tombstone.
pub type VeloValue = Vec<u8>;

pub type VeloResult<T> = Result<T, VeloError>;

/// The four failure classes of the engine.
#[derive(Debug, Clone, PartialEq, Eq)]
pub enum VeloError {
    /// A file-system failure, carried as the message of the underlying error.
    IoError(String),
    /// An integrity check failed.
    CorruptedData(String),
    /// A named lookup found nothing.
    KeyNotFound(String),
    /// The engine was misused.
    InvalidOperation(String),
}

impl VeloError {
    /// The text carried by the error, whatever its class.
    pub fn detail(&self) -> (text: &String)
        ensures
            *text == self.spec_detail(),
    {
        match self {
            VeloError::IoError(m) => m,
            VeloError::CorruptedData(m) => m,
            VeloError::KeyNotFound(m) => m,
            VeloError::InvalidOperation(m) => m,
        }
    }

    pub open spec fn spec_detail(&self) -> String {
        match self {
            VeloError::IoError(m) => *m,
            VeloError::CorruptedData(m) => *m,
            VeloError::KeyNotFound(m) => *m,
            VeloError::InvalidOperation(m) => *m,
        }
    }
}

} // verus!
