//! The failures that a raw handle can report and that the buffers can raise.

use vstd::prelude::*;

verus! {

/// An I/O failure.
#[derive(Clone, Copy, Debug, PartialEq, Eq, Structural)]
pub enum Error {
    /// The call was cut short by a signal before it moved any data. It may be
    /// repeated.
    Interrupted,
    /// The sink took none of the bytes that it was offered.
    WriteZero,
    /// The source ended before the requested number of bytes had arrived.
    UnexpectedEof,
    /// The bytes read are not valid UTF-8.
    InvalidData,
    /// The output would grow past what the machine can address.
    OutOfMemory,
    /// Any other failure, with the code that the raw handle gave for it.
    Other(i32),
}

impl Error {
    /// Whether the failed call may simply be repeated.
    pub open spec fn is_interrupted(self) -> bool {
        self == Error::Interrupted
    }

    /// Tells whether the failed call may simply be repeated.
    pub fn interrupted(&self) -> (b: bool)
        ensures
            b == self.is_interrupted(),
    {
        match self {
            Error::Interrupted => true,
            _ => false,
        }
    }
}

} // verus!
