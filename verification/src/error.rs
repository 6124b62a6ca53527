use vstd::prelude::*;

verus! {

/// Why a store operation failed.
#[derive(Clone, Copy, Debug, PartialEq, Eq, Structural)]
pub enum StoreError {
    /// The store could not carry out a query or a write.
    Query,
    /// Stored bytes cannot be read back as a protocol value.
    Decode,
    /// The caller broke a rule of the interface, such as handing in an empty batch.
    InvariantViolation,
}

impl StoreError {
    /// A short description for logs and error reports.
    pub fn message(&self) -> (text: &'static str)
        ensures
            text@ == (match *self {
                StoreError::Query => "store query failed"@,
                StoreError::Decode => "invalid address length"@,
                StoreError::InvariantViolation => "empty batch"@,
            }),
    {
        match self {
            StoreError::Query => "store query failed",
            StoreError::Decode => "invalid address length",
            StoreError::InvariantViolation => "empty batch",
        }
    }
}

} // verus!
