use buffered_duplex::{BufReaderWriter, Error, IntoInnerError, ReadWrite};
use std::collections::VecDeque;

/// How the sink answers one raw write.
#[derive(Clone, Copy, Debug)]
enum Step {
    /// Take at most this many bytes.
    Take(usize),
    /// Fail.
    Fail(Error),
}

/// A sink that follows a plan, and takes everything once the plan is used
/// up. It keeps what it was offered and what it took.
struct Sink {
    plan: VecDeque<Step>,
    offered: Vec<Vec<u8>>,
    taken: Vec<u8>,
}

impl Sink {
    fn new(plan: &[Step]) -> Self {
        Sink { plan: plan.iter().copied().collect(), offered: Vec::new(), taken: Vec::new() }
    }

    fn writes(&self) -> usize {
        self.offered.len()
    }
}

impl ReadWrite for Sink {
    fn read(&mut self, _buf: &mut [u8]) -> Result<usize, Error> {
        Ok(0)
    }

    fn write(&mut self, buf: &[u8]) -> Result<usize, Error> {
        self.offered.push(buf.to_vec());
        match self.plan.pop_front().unwrap_or(Step::Take(usize::MAX)) {
            Step::Take(most) => {
                let n = buf.len().min(most);
                self.taken.extend_from_slice(&buf[..n]);
                Ok(n)
            }
            Step::Fail(e) => Err(e),
        }
    }
}

fn stream(capacity: usize, plan: &[Step]) -> BufReaderWriter<Sink> {
    BufReaderWriter::with_capacities(capacity, capacity, Sink::new(plan))
}

#[test]
fn new_stream_is_empty_with_default_capacities() {
    let s = BufReaderWriter::new(Sink::new(&[]));
    assert_eq!(s.writer_capacity(), 8192);
    assert_eq!(s.reader_capacity(), 8192);
    assert!(s.writer_buffer().is_empty());
    assert!(s.reader_buffer().is_empty());
}

#[test]
fn with_capacities_sets_both_capacities() {
    let s = BufReaderWriter::with_capacities(10, 100, Sink::new(&[]));
    assert_eq!(s.reader_capacity(), 10);
    assert_eq!(s.writer_capacity(), 100);
}

#[test]
fn small_write_is_buffered_without_raw_call() {
    let mut s = stream(8, &[]);
    assert_eq!(s.write(b"abc"), Ok(3));
    assert_eq!(s.writer_buffer(), b"abc");
    assert_eq!(s.get_ref().writes(), 0);
}

#[test]
fn write_to_buf_takes_only_what_fits() {
    let mut s = stream(4, &[]);
    assert_eq!(s.write_to_buf(b"ab"), 2);
    assert_eq!(s.write_to_buf(b"cdef"), 2);
    assert_eq!(s.write_to_buf(b"gh"), 0);
    assert_eq!(s.writer_buffer(), b"abcd");
    assert_eq!(s.get_ref().writes(), 0);
}

#[test]
fn flush_in_pieces_loses_nothing() {
    let mut s = stream(16, &[Step::Take(3), Step::Take(3), Step::Take(3), Step::Take(3)]);
    assert_eq!(s.write(b"0123456789"), Ok(10));
    assert_eq!(s.flush(), Ok(()));
    assert_eq!(s.get_ref().taken, b"0123456789");
    assert_eq!(s.get_ref().writes(), 4);
    assert!(s.writer_buffer().is_empty());
}

#[test]
fn flush_offers_the_unwritten_rest_each_time() {
    let mut s = stream(16, &[Step::Take(2), Step::Take(1)]);
    assert_eq!(s.write(b"abcde"), Ok(5));
    assert_eq!(s.flush(), Ok(()));
    assert_eq!(s.get_ref().offered, vec![b"abcde".to_vec(), b"cde".to_vec(), b"de".to_vec()]);
}

#[test]
fn flush_of_empty_buffer_makes_no_raw_call() {
    let mut s = stream(8, &[Step::Fail(Error::Other(1))]);
    assert_eq!(s.flush(), Ok(()));
    assert_eq!(s.get_ref().writes(), 0);
}

#[test]
fn second_flush_makes_no_raw_call() {
    let mut s = stream(8, &[]);
    assert_eq!(s.write(b"abc"), Ok(3));
    assert_eq!(s.flush(), Ok(()));
    assert_eq!(s.get_ref().writes(), 1);
    assert_eq!(s.flush(), Ok(()));
    assert_eq!(s.get_ref().writes(), 1);
    assert_eq!(s.get_ref().taken, b"abc");
}

#[test]
fn sink_that_takes_nothing_fails_the_flush_with_write_zero() {
    let mut s = stream(8, &[Step::Take(0), Step::Take(0), Step::Take(0)]);
    assert_eq!(s.write(b"abc"), Ok(3));
    assert_eq!(s.flush(), Err(Error::WriteZero));
    assert_eq!(s.get_ref().writes(), 1);
    assert_eq!(s.writer_buffer(), b"abc");
    assert!(s.get_ref().taken.is_empty());
}

#[test]
fn write_zero_after_progress_keeps_only_the_unwritten_rest() {
    let mut s = stream(8, &[Step::Take(2), Step::Take(0)]);
    assert_eq!(s.write(b"abcde"), Ok(5));
    assert_eq!(s.flush(), Err(Error::WriteZero));
    assert_eq!(s.get_ref().taken, b"ab");
    assert_eq!(s.writer_buffer(), b"cde");
    assert_eq!(s.flush(), Ok(()));
    assert_eq!(s.get_ref().taken, b"abcde");
}

#[test]
fn interrupted_write_is_repeated_silently() {
    let mut s = stream(
        8,
        &[Step::Fail(Error::Interrupted), Step::Fail(Error::Interrupted), Step::Take(2)],
    );
    assert_eq!(s.write(b"abc"), Ok(3));
    assert_eq!(s.flush(), Ok(()));
    assert_eq!(s.get_ref().writes(), 4);
    assert_eq!(s.get_ref().taken, b"abc");
}

#[test]
fn other_failure_is_passed_on_at_once() {
    let mut s = stream(8, &[Step::Take(1), Step::Fail(Error::Other(32))]);
    assert_eq!(s.write(b"abc"), Ok(3));
    assert_eq!(s.flush(), Err(Error::Other(32)));
    assert_eq!(s.get_ref().writes(), 2);
    assert_eq!(s.writer_buffer(), b"bc");
}

#[test]
fn write_that_does_not_fit_flushes_first() {
    let mut s = stream(8, &[]);
    assert_eq!(s.write(b"abcdef"), Ok(6));
    assert_eq!(s.write(b"ghi"), Ok(3));
    assert_eq!(s.get_ref().taken, b"abcdef");
    assert_eq!(s.writer_buffer(), b"ghi");
    assert_eq!(s.get_ref().writes(), 1);
}

#[test]
fn write_larger_than_the_buffer_goes_straight_out() {
    let mut s = stream(4, &[Step::Take(3)]);
    assert_eq!(s.write(b"abcdef"), Ok(3));
    assert_eq!(s.get_ref().offered, vec![b"abcdef".to_vec()]);
    assert!(s.writer_buffer().is_empty());
}

#[test]
fn write_that_fills_the_buffer_exactly_is_buffered() {
    let mut s = stream(4, &[]);
    assert_eq!(s.write(b"abcd"), Ok(4));
    assert_eq!(s.get_ref().writes(), 0);
    assert_eq!(s.writer_buffer(), b"abcd");
}

#[test]
fn write_of_a_whole_capacity_behind_pending_bytes_flushes_and_is_buffered() {
    let mut s = stream(4, &[]);
    assert_eq!(s.write(b"a"), Ok(1));
    assert_eq!(s.write(b"bcde"), Ok(4));
    assert_eq!(s.get_ref().offered, vec![b"a".to_vec()]);
    assert_eq!(s.writer_buffer(), b"bcde");
}

#[test]
fn write_all_that_fills_the_buffer_exactly_is_buffered() {
    let mut s = stream(4, &[]);
    assert_eq!(s.write_all(b"abcd"), Ok(()));
    assert_eq!(s.get_ref().writes(), 0);
    assert_eq!(s.writer_buffer(), b"abcd");
}

#[test]
fn write_vectored_that_fills_the_buffer_exactly_is_buffered() {
    let mut s = stream(4, &[]);
    let bufs: [&[u8]; 2] = [b"ab", b"cd"];
    assert_eq!(s.write_vectored(&bufs), Ok(4));
    assert_eq!(s.get_ref().writes(), 0);
    assert_eq!(s.writer_buffer(), b"abcd");
}

#[test]
fn into_handle_returns_the_handle_of_a_flushed_stream() {
    let mut s = stream(8, &[]);
    assert_eq!(s.write(b"abc"), Ok(3));
    assert_eq!(s.flush(), Ok(()));
    let sink = s.into_handle();
    assert_eq!(sink.taken, b"abc");
    assert_eq!(sink.writes(), 1);
}

#[test]
fn into_inner_sends_everything_before_it_lets_the_handle_go() {
    let mut s = stream(8, &[Step::Take(1), Step::Fail(Error::Interrupted), Step::Take(1)]);
    assert_eq!(s.write(b"abc"), Ok(3));
    let sink = match s.into_inner() {
        Ok(sink) => sink,
        Err(_) => panic!("the flush cannot fail"),
    };
    assert_eq!(sink.taken, b"abc");
    assert_eq!(sink.offered, vec![b"abc".to_vec(), b"bc".to_vec(), b"bc".to_vec(), b"c".to_vec()]);
}

#[test]
fn large_write_behind_pending_bytes_keeps_the_order() {
    let mut s = stream(4, &[]);
    assert_eq!(s.write(b"ab"), Ok(2));
    assert_eq!(s.write(b"cdefgh"), Ok(6));
    assert_eq!(s.get_ref().taken, b"abcdefgh");
    assert_eq!(s.get_ref().writes(), 2);
}

#[test]
fn failed_flush_before_write_takes_nothing_of_the_write() {
    let mut s = stream(4, &[Step::Fail(Error::Other(7))]);
    assert_eq!(s.write(b"abc"), Ok(3));
    assert_eq!(s.write(b"de"), Err(Error::Other(7)));
    assert_eq!(s.writer_buffer(), b"abc");
}

#[test]
fn write_all_pushes_a_large_buffer_out_in_pieces() {
    let mut s = stream(4, &[Step::Take(2), Step::Fail(Error::Interrupted), Step::Take(3)]);
    assert_eq!(s.write_all(b"abcdefgh"), Ok(()));
    assert_eq!(s.get_ref().taken, b"abcdefgh");
    assert_eq!(s.get_ref().writes(), 4);
    assert!(s.writer_buffer().is_empty());
}

#[test]
fn write_all_buffers_a_small_buffer() {
    let mut s = stream(8, &[]);
    assert_eq!(s.write_all(b"abc"), Ok(()));
    assert_eq!(s.writer_buffer(), b"abc");
    assert_eq!(s.get_ref().writes(), 0);
}

#[test]
fn write_all_reports_a_sink_that_takes_nothing() {
    let mut s = stream(2, &[Step::Take(0)]);
    assert_eq!(s.write_all(b"abcd"), Err(Error::WriteZero));
}

#[test]
fn write_vectored_buffers_small_segments_in_order() {
    let mut s = stream(8, &[]);
    let bufs: [&[u8]; 3] = [b"ab", b"", b"cde"];
    assert_eq!(s.write_vectored(&bufs), Ok(5));
    assert_eq!(s.writer_buffer(), b"abcde");
    assert_eq!(s.get_ref().writes(), 0);
}

#[test]
fn write_vectored_hands_the_first_full_segment_out_when_large() {
    let mut s = stream(4, &[]);
    let bufs: [&[u8]; 3] = [b"", b"abc", b"defg"];
    assert_eq!(s.write_vectored(&bufs), Ok(3));
    assert_eq!(s.get_ref().offered, vec![b"abc".to_vec()]);
    assert!(s.writer_buffer().is_empty());
}

#[test]
fn write_direct_then_buffer_buffers_only_after_a_complete_write() {
    let mut s = stream(4, &[Step::Take(2)]);
    assert_eq!(s.write_direct_then_buffer(b"abc", b"de"), Ok(2));
    assert!(s.writer_buffer().is_empty());
    assert_eq!(s.write_direct_then_buffer(b"abc", b"defgh"), Ok(7));
    assert_eq!(s.writer_buffer(), b"defg");
}

#[test]
fn write_direct_then_buffer_stops_at_zero() {
    let mut s = stream(4, &[Step::Take(0)]);
    assert_eq!(s.write_direct_then_buffer(b"abc", b"de"), Ok(0));
    assert!(s.writer_buffer().is_empty());
}

#[test]
fn into_inner_flushes_and_returns_the_handle() {
    let mut s = stream(8, &[]);
    assert_eq!(s.write(b"abc"), Ok(3));
    let sink = match s.into_inner() {
        Ok(sink) => sink,
        Err(_) => panic!("the flush cannot fail"),
    };
    assert_eq!(sink.taken, b"abc");
}

#[test]
fn into_inner_hands_the_stream_back_on_failure() {
    let mut s = stream(8, &[Step::Take(1), Step::Fail(Error::Other(9))]);
    assert_eq!(s.write(b"abc"), Ok(3));
    let failed: IntoInnerError<BufReaderWriter<Sink>> = match s.into_inner() {
        Ok(_) => panic!("the flush must fail"),
        Err(failed) => failed,
    };
    assert_eq!(*failed.error(), Error::Other(9));
    let mut s = failed.into_inner();
    assert_eq!(s.writer_buffer(), b"bc");
    assert_eq!(s.flush(), Ok(()));
    assert_eq!(s.get_ref().taken, b"abc");
}

#[test]
fn into_inner_error_can_be_wrapped() {
    let wrapped = IntoInnerError::new(3u8, Error::WriteZero).new_wrapped(|n| (n, n));
    assert_eq!(*wrapped.error(), Error::WriteZero);
    assert_eq!(wrapped.into_inner(), (3u8, 3u8));
}

#[test]
fn teardown_flushes_once_and_drops_the_failure() {
    let mut s = stream(8, &[Step::Take(1), Step::Fail(Error::Other(9))]);
    assert_eq!(s.write(b"abc"), Ok(3));
    s.teardown();
    assert_eq!(s.get_ref().taken, b"a");
    assert_eq!(s.writer_buffer(), b"bc");
}

#[test]
fn teardown_of_abandoned_stream_writes_nothing() {
    let mut s = stream(8, &[]);
    assert_eq!(s.write(b"abc"), Ok(3));
    s.abandon();
    s.teardown();
    assert_eq!(s.get_ref().writes(), 0);
    assert_eq!(s.writer_buffer(), b"abc");
}

#[test]
fn get_mut_lends_the_handle() {
    let mut s = stream(8, &[]);
    s.get_mut().taken.push(b'x');
    assert_eq!(s.get_ref().taken, b"x");
}

#[test]
fn error_tells_interruptions_apart() {
    assert!(Error::Interrupted.interrupted());
    assert!(!Error::WriteZero.interrupted());
    assert!(!Error::Other(4).interrupted());
}
