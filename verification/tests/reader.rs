use buffered_duplex::{BufReader, BufReaderLineWriter, BufReaderWriter, Error, ReadWrite};
use std::collections::VecDeque;

/// A source that hands out its chunks one per raw read, cut to the room it
/// is given, and a sink that takes everything. After the last chunk it is
/// at its end.
struct Source {
    chunks: VecDeque<Result<Vec<u8>, Error>>,
    asked: Vec<usize>,
    taken: Vec<u8>,
    log: Vec<&'static str>,
}

impl Source {
    fn new(chunks: Vec<Result<Vec<u8>, Error>>) -> Self {
        Source { chunks: chunks.into(), asked: Vec::new(), taken: Vec::new(), log: Vec::new() }
    }

    fn of(chunks: &[&[u8]]) -> Self {
        Source::new(chunks.iter().map(|c| Ok(c.to_vec())).collect())
    }
}

impl ReadWrite for Source {
    fn read(&mut self, buf: &mut [u8]) -> Result<usize, Error> {
        self.asked.push(buf.len());
        self.log.push("read");
        match self.chunks.pop_front() {
            None => Ok(0),
            Some(Err(e)) => Err(e),
            Some(Ok(mut chunk)) => {
                let n = chunk.len().min(buf.len());
                buf[..n].copy_from_slice(&chunk[..n]);
                let rest = chunk.split_off(n);
                if !rest.is_empty() {
                    self.chunks.push_front(Ok(rest));
                }
                Ok(n)
            }
        }
    }

    fn write(&mut self, buf: &[u8]) -> Result<usize, Error> {
        self.log.push("write");
        self.taken.extend_from_slice(buf);
        Ok(buf.len())
    }
}

/// A handle whose writes become readable from the same object.
struct Loopback {
    held: VecDeque<u8>,
}

impl ReadWrite for Loopback {
    fn read(&mut self, buf: &mut [u8]) -> Result<usize, Error> {
        let mut n = 0;
        while n < buf.len() {
            match self.held.pop_front() {
                Some(b) => {
                    buf[n] = b;
                    n += 1;
                }
                None => break,
            }
        }
        Ok(n)
    }

    fn write(&mut self, buf: &[u8]) -> Result<usize, Error> {
        self.held.extend(buf.iter().copied());
        Ok(buf.len())
    }
}

#[test]
fn reader_has_the_default_capacity() {
    let r = BufReader::new(Source::of(&[]));
    assert_eq!(r.capacity(), 8192);
    assert!(r.buffer().is_empty());
}

#[test]
fn small_reads_are_served_from_one_raw_read() {
    let mut r = BufReader::with_capacity(8, Source::of(&[b"abcdef"]));
    let mut out = [0u8; 2];
    assert_eq!(r.read(&mut out), Ok(2));
    assert_eq!(&out, b"ab");
    assert_eq!(r.buffer(), b"cdef");
    assert_eq!(r.read(&mut out), Ok(2));
    assert_eq!(&out, b"cd");
    assert_eq!(r.get_ref().asked, vec![8]);
}

#[test]
fn large_read_with_empty_buffer_bypasses_it() {
    let mut r = BufReader::with_capacity(4, Source::of(&[b"abcdef"]));
    let mut out = [0u8; 6];
    assert_eq!(r.read(&mut out), Ok(6));
    assert_eq!(&out, b"abcdef");
    assert_eq!(r.get_ref().asked, vec![6]);
    assert!(r.buffer().is_empty());
}

#[test]
fn bypass_and_buffer_give_the_same_bytes() {
    let mut direct = BufReader::with_capacity(4, Source::of(&[b"abc", b"de"]));
    let mut through = BufReader::with_capacity(16, Source::of(&[b"abc", b"de"]));
    let mut a = [0u8; 8];
    let mut b = [0u8; 8];
    assert_eq!(direct.read(&mut a), Ok(3));
    assert_eq!(through.read(&mut b), Ok(3));
    assert_eq!(a, b);
    assert_eq!(direct.get_ref().asked, vec![8]);
    assert_eq!(through.get_ref().asked, vec![16]);
    assert_eq!(direct.read(&mut a), Ok(2));
    assert_eq!(through.read(&mut b), Ok(2));
    assert_eq!(a, b);
}

#[test]
fn large_read_is_served_from_the_buffer_while_it_holds_something() {
    let mut r = BufReader::with_capacity(4, Source::of(&[b"abcd", b"efgh"]));
    let mut small = [0u8; 1];
    assert_eq!(r.read(&mut small), Ok(1));
    let mut out = [0u8; 8];
    assert_eq!(r.read(&mut out), Ok(3));
    assert_eq!(&out[..3], b"bcd");
    assert_eq!(r.get_ref().asked, vec![4]);
}

#[test]
fn read_at_the_end_gives_zero() {
    let mut r = BufReader::with_capacity(4, Source::of(&[]));
    let mut out = [0u8; 2];
    assert_eq!(r.read(&mut out), Ok(0));
}

#[test]
fn read_failure_is_passed_on() {
    let mut r = BufReader::with_capacity(4, Source::new(vec![Err(Error::Interrupted)]));
    let mut out = [0u8; 2];
    assert_eq!(r.read(&mut out), Err(Error::Interrupted));
    assert!(r.buffer().is_empty());
}

#[test]
fn fill_buf_issues_one_raw_read_only_when_empty() {
    let mut r = BufReader::with_capacity(4, Source::of(&[b"abcdef"]));
    assert_eq!(r.fill_buf().map(|b| b.to_vec()), Ok(b"abcd".to_vec()));
    assert_eq!(r.fill_buf().map(|b| b.to_vec()), Ok(b"abcd".to_vec()));
    assert_eq!(r.get_ref().asked, vec![4]);
    r.consume(3);
    assert_eq!(r.buffer(), b"d");
    r.consume(100);
    assert!(r.buffer().is_empty());
    assert_eq!(r.fill_buf().map(|b| b.to_vec()), Ok(b"ef".to_vec()));
    r.consume(2);
    assert_eq!(r.fill_buf().map(|b| b.to_vec()), Ok(Vec::new()));
}

#[test]
fn discard_buffer_forgets_what_is_held() {
    let mut r = BufReader::with_capacity(4, Source::of(&[b"abcd", b"ef"]));
    assert_eq!(r.fill_buf().map(|b| b.len()), Ok(4));
    r.discard_buffer();
    assert!(r.buffer().is_empty());
    assert_eq!(r.fill_buf().map(|b| b.to_vec()), Ok(b"ef".to_vec()));
    r.get_mut().asked.clear();
    assert!(r.into_inner().asked.is_empty());
}

#[test]
fn read_vectored_spreads_the_bytes_over_the_segments() {
    let mut r = BufReader::with_capacity(16, Source::of(&[b"abcdef"]));
    let mut bufs = vec![vec![0u8; 2], vec![], vec![0u8; 3], vec![0u8; 4]];
    assert_eq!(r.read_vectored(&mut bufs), Ok(6));
    assert_eq!(bufs[0], b"ab");
    assert_eq!(bufs[2], b"cde");
    assert_eq!(bufs[3], [b'f', 0, 0, 0]);
}

#[test]
fn read_vectored_bypasses_into_the_first_segment_with_room() {
    let mut r = BufReader::with_capacity(4, Source::of(&[b"abcdef"]));
    let mut bufs = vec![vec![], vec![0u8; 3], vec![0u8; 3]];
    assert_eq!(r.read_vectored(&mut bufs), Ok(3));
    assert_eq!(bufs[1], b"abc");
    assert_eq!(bufs[2], [0, 0, 0]);
    assert_eq!(r.get_ref().asked, vec![3]);
}

#[test]
fn read_exact_fills_the_buffer_over_several_raw_reads() {
    let mut r = BufReader::with_capacity(4, Source::new(vec![
        Ok(b"ab".to_vec()),
        Err(Error::Interrupted),
        Ok(b"cdef".to_vec()),
    ]));
    let mut out = [0u8; 5];
    assert_eq!(r.read_exact(&mut out), Ok(()));
    assert_eq!(&out, b"abcde");
    assert_eq!(r.buffer(), b"f");
}

#[test]
fn read_exact_reports_an_early_end() {
    let mut r = BufReader::with_capacity(4, Source::of(&[b"ab"]));
    let mut out = [0u8; 5];
    assert_eq!(r.read_exact(&mut out), Err(Error::UnexpectedEof));
    assert_eq!(&out[..2], b"ab");
}

#[test]
fn read_to_end_collects_everything() {
    let mut r = BufReader::with_capacity(4, Source::new(vec![
        Ok(b"abcdef".to_vec()),
        Err(Error::Interrupted),
        Ok(b"gh".to_vec()),
    ]));
    let mut small = [0u8; 1];
    assert_eq!(r.read(&mut small), Ok(1));
    let mut out = b"-".to_vec();
    assert_eq!(r.read_to_end(&mut out), Ok(7));
    assert_eq!(out, b"-bcdefgh");
}

#[test]
fn read_to_end_keeps_what_arrived_before_a_failure() {
    let mut r = BufReader::with_capacity(4, Source::new(vec![
        Ok(b"ab".to_vec()),
        Err(Error::Other(11)),
    ]));
    let mut out = Vec::new();
    assert_eq!(r.read_to_end(&mut out), Err(Error::Other(11)));
    assert_eq!(out, b"ab");
}

#[test]
fn duplex_read_flushes_what_is_pending_first() {
    let mut s = BufReaderWriter::with_capacities(8, 8, Source::of(&[b"xyz"]));
    assert_eq!(s.write(b"abc"), Ok(3));
    assert!(s.get_ref().log.is_empty());
    let mut out = [0u8; 2];
    assert_eq!(s.read(&mut out), Ok(2));
    assert_eq!(&out, b"xy");
    assert_eq!(s.get_ref().log, vec!["write", "read"]);
    assert_eq!(s.get_ref().taken, b"abc");
    assert!(s.writer_buffer().is_empty());
    assert_eq!(s.reader_buffer(), b"z");
}

#[test]
fn loopback_read_sees_the_line_just_written() {
    let mut s = BufReaderLineWriter::with_capacities(16, 16, Loopback { held: VecDeque::new() });
    assert_eq!(s.write(b"hello\n"), Ok(6));
    let mut out = [0u8; 16];
    assert_eq!(s.read(&mut out), Ok(6));
    assert_eq!(&out[..6], b"hello\n");
}

#[test]
fn loopback_read_sees_a_fragment_that_was_only_buffered() {
    let mut s = BufReaderWriter::with_capacities(16, 16, Loopback { held: VecDeque::new() });
    assert_eq!(s.write(b"hello"), Ok(5));
    assert!(s.get_ref().held.is_empty());
    let mut out = [0u8; 4];
    assert_eq!(s.read(&mut out), Ok(4));
    assert_eq!(&out, b"hell");
    assert_eq!(s.reader_buffer(), b"o");
}

#[test]
fn duplex_fill_buf_flushes_only_when_it_must_read() {
    let mut s = BufReaderWriter::with_capacities(4, 8, Source::of(&[b"xyz"]));
    assert_eq!(s.fill_buf().map(|b| b.to_vec()), Ok(b"xyz".to_vec()));
    assert_eq!(s.write(b"abc"), Ok(3));
    assert_eq!(s.fill_buf().map(|b| b.to_vec()), Ok(b"xyz".to_vec()));
    assert_eq!(s.get_ref().log, vec!["read"]);
    s.consume(3);
    assert_eq!(s.fill_buf().map(|b| b.to_vec()), Ok(Vec::new()));
    assert_eq!(s.get_ref().log, vec!["read", "write", "read"]);
}

#[test]
fn duplex_discards_the_reader_buffer() {
    let mut s = BufReaderWriter::with_capacities(4, 8, Source::of(&[b"xyz"]));
    assert_eq!(s.fill_buf().map(|b| b.len()), Ok(3));
    s.discard_reader_buffer();
    assert!(s.reader_buffer().is_empty());
}

#[test]
fn duplex_read_vectored_flushes_first() {
    let mut s = BufReaderWriter::with_capacities(8, 8, Source::of(&[b"xyz"]));
    assert_eq!(s.write(b"abc"), Ok(3));
    let mut bufs = vec![vec![0u8; 1], vec![0u8; 1]];
    assert_eq!(s.read_vectored(&mut bufs), Ok(2));
    assert_eq!(bufs, vec![b"x".to_vec(), b"y".to_vec()]);
    assert_eq!(s.get_ref().log, vec!["write", "read"]);
}

#[test]
fn duplex_read_to_end_and_read_exact() {
    let mut s = BufReaderWriter::with_capacities(4, 8, Source::of(&[b"abcdefgh"]));
    assert_eq!(s.write(b"q"), Ok(1));
    let mut two = [0u8; 2];
    assert_eq!(s.read_exact(&mut two), Ok(()));
    assert_eq!(&two, b"ab");
    assert_eq!(s.get_ref().taken, b"q");
    let mut out = Vec::new();
    assert_eq!(s.read_to_end(&mut out), Ok(6));
    assert_eq!(out, b"cdefgh");
}

#[test]
fn read_to_string_appends_valid_text() {
    let mut s = BufReaderWriter::with_capacities(4, 8, Source::of(&["gr\u{fc}\u{df}e\n".as_bytes()]));
    let mut text = String::from("> ");
    assert_eq!(s.read_to_string(&mut text), Ok(8));
    assert_eq!(text, "> gr\u{fc}\u{df}e\n");
}

#[test]
fn read_to_string_rejects_invalid_text() {
    let mut s = BufReaderWriter::with_capacities(4, 8, Source::of(&[b"f\xffoo"]));
    let mut text = String::from("> ");
    assert_eq!(s.read_to_string(&mut text), Err(Error::InvalidData));
    assert_eq!(text, "> ");
}

#[test]
fn line_stream_reads_like_the_duplex_stream() {
    let mut s = BufReaderLineWriter::with_capacities(4, 8, Source::of(&[b"abcdefgh"]));
    assert_eq!(s.write(b"q"), Ok(1));
    let mut one = [0u8; 1];
    assert_eq!(s.read(&mut one), Ok(1));
    assert_eq!(s.get_ref().taken, b"q");
    assert_eq!(s.reader_buffer(), b"bcd");
    s.consume(1);
    assert_eq!(s.fill_buf().map(|b| b.to_vec()), Ok(b"cd".to_vec()));
    let mut bufs = vec![vec![0u8; 1]];
    assert_eq!(s.read_vectored(&mut bufs), Ok(1));
    let mut two = [0u8; 2];
    assert_eq!(s.read_exact(&mut two), Ok(()));
    assert_eq!(&two, b"de");
    let mut text = String::new();
    assert_eq!(s.read_to_string(&mut text), Ok(3));
    assert_eq!(text, "fgh");
    let mut rest = Vec::new();
    assert_eq!(s.read_to_end(&mut rest), Ok(0));
}

#[test]
fn interrupted_reads_are_told_from_other_failures() {
    let mut r = BufReader::with_capacity(4, Source::new(vec![
        Err(Error::Interrupted),
        Err(Error::Other(2)),
    ]));
    let mut out = [0u8; 2];
    assert_eq!(r.read_exact(&mut out), Err(Error::Other(2)));
    assert_eq!(r.get_ref().asked, vec![4, 4]);
}

#[test]
fn read_exact_goes_past_the_buffer_for_a_large_rest() {
    let mut r = BufReader::with_capacity(4, Source::of(&[b"ab", b"cdefgh"]));
    let mut out = [0u8; 8];
    assert_eq!(r.read_exact(&mut out), Ok(()));
    assert_eq!(&out, b"abcdefgh");
    assert_eq!(r.get_ref().asked, vec![8, 6]);
}
