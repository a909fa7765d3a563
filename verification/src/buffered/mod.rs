//! Buffering wrappers for raw duplex handles.

pub mod buf_reader_line_writer;
pub mod buf_reader_line_writer_shim;
pub mod buf_reader_writer;
pub mod bufreader;
pub mod bytes;
pub mod order;
pub mod read_buffer;
pub mod read_loops;
pub mod segments;
pub mod write_buffer;

use crate::error::Error;
use vstd::prelude::*;

verus! {

/// The capacity that the buffers get when none is asked for.
pub const DEFAULT_BUF_SIZE: usize = 8192;

/// What `into_inner` hands back when the last flush fails: the failure, and
/// the buffered stream itself, so that the caller can try again or look at
/// what is still pending.
pub struct IntoInnerError<W>(W, Error);

impl<W> IntoInnerError<W> {
    /// The buffered stream that could not be taken apart.
    pub closed spec fn stream(&self) -> W {
        self.0
    }

    /// The failure that kept the stream from being flushed.
    pub closed spec fn cause(&self) -> Error {
        self.1
    }

    /// Puts a failure and the stream it happened on together.
    pub fn new(writer: W, error: Error) -> (r: Self)
        ensures
            r.stream() == writer,
            r.cause() == error,
    {
        IntoInnerError(writer, error)
    }

    /// Keeps the failure and wraps the stream by `f`, for streams that are
    /// layered on other streams.
    pub fn new_wrapped<W2, F: FnOnce(W) -> W2>(self, f: F) -> (r: IntoInnerError<W2>)
        requires
            call_requires(f, (self.stream(),)),
        ensures
            call_ensures(f, (self.stream(),), r.stream()),
            r.cause() == self.cause(),
    {
        let IntoInnerError(writer, error) = self;
        IntoInnerError::new(f(writer), error)
    }

    /// The failure that kept the stream from being flushed.
    pub fn error(&self) -> (r: &Error)
        ensures
            *r == self.cause(),
    {
        &self.1
    }

    /// The buffered stream, given back for another attempt.
    pub fn into_inner(self) -> (r: W)
        ensures
            r == self.stream(),
    {
        self.0
    }
}

} // verus!
