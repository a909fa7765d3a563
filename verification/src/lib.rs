//! Buffered duplex streams with line-oriented flushing.
//!
//! A [`BufReaderWriter`] wraps one bidirectional raw handle and buffers both
//! directions; a [`BufReaderLineWriter`] adds the rule that output is pushed
//! out as soon as a complete line has been written. Pending output is always
//! flushed before the stream blocks on a read.
//!
//! Every raw call made through a stream is recorded in a ghost history, and
//! the contracts of the library are stated over that history.

pub mod buffered;
pub mod error;
pub mod handle;
pub mod history;
pub mod laws;
pub mod search;
mod text;

pub use buffered::buf_reader_line_writer::{BufReaderLineWriter, BufReaderLineWriterBackend};
pub use buffered::buf_reader_line_writer_shim::BufReaderLineWriterShim;
pub use buffered::buf_reader_writer::BufReaderWriter;
pub use buffered::bufreader::BufReader;
pub use buffered::IntoInnerError;
pub use error::Error;
pub use handle::{ReadWrite, Traced};
pub use history::Event;
