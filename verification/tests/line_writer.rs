use buffered_duplex::{
    BufReaderLineWriter, BufReaderLineWriterBackend, BufReaderLineWriterShim, BufReaderWriter,
    Error, ReadWrite,
};
use std::collections::VecDeque;

#[derive(Clone, Copy, Debug)]
enum Step {
    Take(usize),
    Fail(Error),
}

/// A sink that follows a plan, and takes everything once the plan is used
/// up.
struct Sink {
    plan: VecDeque<Step>,
    offered: Vec<Vec<u8>>,
    taken: Vec<u8>,
}

impl Sink {
    fn new(plan: &[Step]) -> Self {
        Sink { plan: plan.iter().copied().collect(), offered: Vec::new(), taken: Vec::new() }
    }

    fn writes(&self) -> usize {
        self.offered.len()
    }
}

impl ReadWrite for Sink {
    fn read(&mut self, _buf: &mut [u8]) -> Result<usize, Error> {
        Ok(0)
    }

    fn write(&mut self, buf: &[u8]) -> Result<usize, Error> {
        self.offered.push(buf.to_vec());
        match self.plan.pop_front().unwrap_or(Step::Take(usize::MAX)) {
            Step::Take(most) => {
                let n = buf.len().min(most);
                self.taken.extend_from_slice(&buf[..n]);
                Ok(n)
            }
            Step::Fail(e) => Err(e),
        }
    }
}

fn lines(capacity: usize, plan: &[Step]) -> BufReaderLineWriter<Sink> {
    BufReaderLineWriter::with_capacities(capacity, capacity, Sink::new(plan))
}

#[test]
fn line_stream_has_small_default_buffers() {
    let s = BufReaderLineWriter::new(Sink::new(&[]));
    assert_eq!(s.reader_capacity(), 1024);
    assert_eq!(s.writer_capacity(), 1024);
    let b = BufReaderLineWriterBackend::new(Sink::new(&[]));
    assert_eq!(b.reader_capacity(), 1024);
    assert_eq!(b.writer_capacity(), 1024);
}

#[test]
fn fragment_then_line_reaches_the_sink_whole() {
    let mut s = lines(8, &[]);
    assert_eq!(s.write(b"ab"), Ok(2));
    assert_eq!(s.writer_buffer(), b"ab");
    assert_eq!(s.get_ref().writes(), 0);
    assert_eq!(s.write(b"cdef\n"), Ok(5));
    assert_eq!(s.get_ref().taken, b"abcdef\n");
    assert_eq!(s.get_ref().taken.len(), 7);
    assert!(s.writer_buffer().is_empty());
}

#[test]
fn fragment_that_fits_makes_no_raw_call() {
    let mut s = lines(8, &[]);
    assert_eq!(s.write(b"abc"), Ok(3));
    assert_eq!(s.write(b"def"), Ok(3));
    assert_eq!(s.get_ref().writes(), 0);
    assert_eq!(s.writer_buffer(), b"abcdef");
}

#[test]
fn fragment_that_fills_the_buffer_exactly_makes_no_raw_call() {
    let mut s = lines(4, &[]);
    assert_eq!(s.write(b"abcd"), Ok(4));
    assert_eq!(s.get_ref().writes(), 0);
    assert_eq!(s.writer_buffer(), b"abcd");
    let mut t = lines(4, &[]);
    assert_eq!(t.write(b"a"), Ok(1));
    assert_eq!(t.write(b"bcd"), Ok(3));
    assert_eq!(t.get_ref().writes(), 0);
    assert_eq!(t.writer_buffer(), b"abcd");
}

#[test]
fn fragment_larger_than_the_buffer_goes_straight_out() {
    let mut s = lines(4, &[]);
    assert_eq!(s.write(b"abcde"), Ok(5));
    assert_eq!(s.get_ref().writes(), 1);
    assert_eq!(s.get_ref().taken, b"abcde");
    assert!(s.writer_buffer().is_empty());
}

#[test]
fn tail_that_fills_the_buffer_exactly_is_kept_by_write_all() {
    let mut s = lines(4, &[]);
    assert_eq!(s.write_all(b"a\nbcde"), Ok(()));
    assert_eq!(s.get_ref().taken, b"a\n");
    assert_eq!(s.writer_buffer(), b"bcde");
    assert_eq!(s.write_all(b"\nfghij"), Ok(()));
    assert_eq!(s.get_ref().taken, b"a\nbcde\nfghij");
    assert!(s.writer_buffer().is_empty());
}

#[test]
fn line_stream_into_handle_after_flush() {
    let mut s = lines(8, &[]);
    assert_eq!(s.write(b"abc"), Ok(3));
    assert_eq!(s.flush(), Ok(()));
    assert_eq!(s.into_handle().taken, b"abc");
    let mut b = BufReaderLineWriterBackend::with_capacities(8, 8, Sink::new(&[]));
    assert_eq!(b.write(b"a\n"), Ok(2));
    assert_eq!(b.into_handle().taken, b"a\n");
}

#[test]
fn everything_up_to_the_last_newline_goes_out() {
    let mut s = lines(8, &[]);
    assert_eq!(s.write(b"a\nbc\ndef"), Ok(8));
    assert_eq!(s.get_ref().taken, b"a\nbc\n");
    assert_eq!(s.get_ref().offered, vec![b"a\nbc\n".to_vec()]);
    assert_eq!(s.writer_buffer(), b"def");
}

#[test]
fn only_as_much_of_the_tail_as_fits_is_taken() {
    let mut s = lines(4, &[]);
    assert_eq!(s.write(b"a\nbcdefgh"), Ok(6));
    assert_eq!(s.get_ref().taken, b"a\n");
    assert_eq!(s.writer_buffer(), b"bcde");
}

#[test]
fn partial_write_of_the_lines_buffers_nothing() {
    let mut s = lines(8, &[Step::Take(3)]);
    assert_eq!(s.write(b"hello\nwor"), Ok(3));
    assert_eq!(s.get_ref().taken, b"hel");
    assert!(s.writer_buffer().is_empty());
}

#[test]
fn lines_that_the_sink_does_not_take_give_zero() {
    let mut s = lines(8, &[Step::Take(0)]);
    assert_eq!(s.write(b"hello\nwor"), Ok(0));
    assert!(s.writer_buffer().is_empty());
    assert_eq!(s.get_ref().writes(), 1);
}

#[test]
fn pending_bytes_go_out_before_the_lines() {
    let mut s = lines(8, &[]);
    assert_eq!(s.write(b"ab"), Ok(2));
    assert_eq!(s.write(b"c\nd"), Ok(3));
    assert_eq!(s.get_ref().offered, vec![b"ab".to_vec(), b"c\n".to_vec()]);
    assert_eq!(s.writer_buffer(), b"d");
}

#[test]
fn failed_flush_fails_the_line_write() {
    let mut s = lines(8, &[Step::Fail(Error::Other(3))]);
    assert_eq!(s.write(b"ab"), Ok(2));
    assert_eq!(s.write(b"c\n"), Err(Error::Other(3)));
    assert_eq!(s.writer_buffer(), b"ab");
}

#[test]
fn interruption_of_the_direct_write_is_passed_on() {
    let mut s = lines(8, &[Step::Fail(Error::Interrupted)]);
    assert_eq!(s.write(b"c\n"), Err(Error::Interrupted));
    assert!(s.writer_buffer().is_empty());
}

#[test]
fn completed_line_that_waits_is_flushed_before_a_fragment() {
    let mut inner = BufReaderWriter::with_capacities(8, 8, Sink::new(&[]));
    assert_eq!(inner.write(b"ab\n"), Ok(3));
    assert_eq!(inner.get_ref().writes(), 0);
    {
        let mut shim = BufReaderLineWriterShim::new(&mut inner);
        assert_eq!(shim.writer_buffered(), b"ab\n");
        assert_eq!(shim.write(b"cd"), Ok(2));
    }
    assert_eq!(inner.get_ref().taken, b"ab\n");
    assert_eq!(inner.writer_buffer(), b"cd");
}

#[test]
fn flush_if_completed_line_leaves_a_fragment_alone() {
    let mut inner = BufReaderWriter::with_capacities(8, 8, Sink::new(&[]));
    assert_eq!(inner.write(b"ab"), Ok(2));
    {
        let mut shim = BufReaderLineWriterShim::new(&mut inner);
        assert_eq!(shim.flush_if_completed_line(), Ok(()));
        shim.inner_mut().taken.push(b'!');
    }
    assert_eq!(inner.get_ref().writes(), 0);
    assert_eq!(inner.get_ref().taken, b"!");
    assert_eq!(inner.writer_buffer(), b"ab");
}

#[test]
fn shim_flush_empties_the_buffer() {
    let mut inner = BufReaderWriter::with_capacities(8, 8, Sink::new(&[]));
    assert_eq!(inner.write(b"ab"), Ok(2));
    {
        let mut shim = BufReaderLineWriterShim::new(&mut inner);
        assert_eq!(shim.flush(), Ok(()));
    }
    assert_eq!(inner.get_ref().taken, b"ab");
    assert!(inner.writer_buffer().is_empty());
}

#[test]
fn vectored_write_without_newline_is_buffered() {
    let mut s = lines(8, &[]);
    let bufs: [&[u8]; 2] = [b"ab", b"cd"];
    assert_eq!(s.write_vectored(&bufs), Ok(4));
    assert_eq!(s.writer_buffer(), b"abcd");
    assert_eq!(s.get_ref().writes(), 0);
}

#[test]
fn vectored_write_sends_the_line_segment_and_buffers_whole_segments() {
    let mut s = lines(8, &[]);
    let bufs: [&[u8]; 4] = [b"ab\n", b"cd", b"", b"efghijk"];
    assert_eq!(s.write_vectored(&bufs), Ok(5));
    assert_eq!(s.get_ref().taken, b"ab\n");
    assert_eq!(s.writer_buffer(), b"cd");
}

#[test]
fn vectored_write_bails_out_on_a_short_write() {
    let mut s = lines(8, &[]);
    let bufs: [&[u8]; 3] = [b"ab", b"c\nd", b"ef"];
    assert_eq!(s.write_vectored(&bufs), Ok(2));
    assert_eq!(s.get_ref().offered, vec![b"ab".to_vec()]);
    assert!(s.writer_buffer().is_empty());
}

#[test]
fn vectored_write_finds_the_last_segment_with_a_newline() {
    let mut s = lines(8, &[]);
    let bufs: [&[u8]; 3] = [b"", b"a\n", b"bc"];
    assert_eq!(s.write_vectored(&bufs), Ok(4));
    assert_eq!(s.get_ref().taken, b"a\n");
    assert_eq!(s.writer_buffer(), b"bc");
}

#[test]
fn write_all_sends_lines_straight_out_when_nothing_is_pending() {
    let mut s = lines(8, &[Step::Take(2), Step::Take(2)]);
    assert_eq!(s.write_all(b"abcd\nef"), Ok(()));
    assert_eq!(s.get_ref().taken, b"abcd\n");
    assert_eq!(s.get_ref().writes(), 3);
    assert_eq!(s.writer_buffer(), b"ef");
}

#[test]
fn write_all_sends_lines_together_with_what_is_pending() {
    let mut s = lines(8, &[]);
    assert_eq!(s.write_all(b"ab"), Ok(()));
    assert_eq!(s.write_all(b"cd\nef"), Ok(()));
    assert_eq!(s.get_ref().offered, vec![b"abcd\n".to_vec()]);
    assert_eq!(s.writer_buffer(), b"ef");
}

#[test]
fn write_all_keeps_the_order_when_the_lines_do_not_fit() {
    let mut s = lines(4, &[]);
    assert_eq!(s.write_all(b"ab"), Ok(()));
    assert_eq!(s.write_all(b"cdefgh\nij"), Ok(()));
    assert_eq!(s.get_ref().taken, b"abcdefgh\n");
    assert_eq!(s.writer_buffer(), b"ij");
}

#[test]
fn write_all_without_newline_waits() {
    let mut s = lines(8, &[]);
    assert_eq!(s.write_all(b"abc"), Ok(()));
    assert_eq!(s.get_ref().writes(), 0);
    assert_eq!(s.writer_buffer(), b"abc");
}

#[test]
fn line_write_all_reports_a_sink_that_takes_nothing() {
    let mut s = lines(8, &[Step::Take(0)]);
    assert_eq!(s.write_all(b"ab\n"), Err(Error::WriteZero));
}

#[test]
fn line_stream_flush_and_into_inner() {
    let mut s = lines(8, &[]);
    assert_eq!(s.write(b"abc"), Ok(3));
    assert_eq!(s.flush(), Ok(()));
    assert_eq!(s.get_ref().taken, b"abc");
    assert_eq!(s.write(b"de"), Ok(2));
    s.get_mut().taken.push(b'-');
    let sink = match s.into_inner() {
        Ok(sink) => sink,
        Err(_) => panic!("the flush cannot fail"),
    };
    assert_eq!(sink.taken, b"abc-de");
}

#[test]
fn line_stream_into_inner_hands_the_stream_back_on_failure() {
    let mut s = lines(8, &[Step::Fail(Error::Other(5))]);
    assert_eq!(s.write(b"abc"), Ok(3));
    let failed = match s.into_inner() {
        Ok(_) => panic!("the flush must fail"),
        Err(failed) => failed,
    };
    assert_eq!(*failed.error(), Error::Other(5));
    assert_eq!(failed.into_inner().writer_buffer(), b"abc");
}

#[test]
fn backend_writes_by_the_line_policy() {
    let mut b = BufReaderLineWriterBackend::with_capacities(8, 8, Sink::new(&[]));
    assert_eq!(b.write(b"ab\ncd"), Ok(5));
    assert_eq!(b.get_ref().taken, b"ab\n");
    assert_eq!(b.writer_buffer(), b"cd");
    b.get_mut().taken.clear();
    let sink = match b.into_inner() {
        Ok(sink) => sink,
        Err(_) => panic!("the flush cannot fail"),
    };
    assert_eq!(sink.taken, b"cd");
}

#[test]
fn abandoned_line_stream_is_not_flushed_on_teardown() {
    let mut s = lines(8, &[]);
    assert_eq!(s.write(b"abc"), Ok(3));
    s.abandon();
    s.teardown();
    assert_eq!(s.get_ref().writes(), 0);
    let mut t = lines(8, &[]);
    assert_eq!(t.write(b"abc"), Ok(3));
    t.teardown();
    assert_eq!(t.get_ref().taken, b"abc");
}
