//! The driver-level error type.
use vstd::prelude::*;

verus! {

/// An error surfaced to the command-line user.  The driver converts its
/// input/output failures into the carried message.
#[derive(Debug)]
pub enum DSMError {
    /// Any input/output failure, by its rendered message.
    IOError(String),
}

impl DSMError {
    /// The message to show the user.
    pub fn message(&self) -> (r: &String)
        ensures
            match self {
                DSMError::IOError(m) => r@ == m@,
            },
    {
        match self {
            DSMError::IOError(m) => m,
        }
    }
}

} // verus!
