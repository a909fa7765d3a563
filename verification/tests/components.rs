use buffered_duplex::buffered::bytes::{copy_prefix, scatter};
use buffered_duplex::buffered::read_buffer::ReadBuffer;
use buffered_duplex::buffered::read_loops::{read_exact, read_to_end};
use buffered_duplex::buffered::segments::{
    first_nonempty_of, first_room_of, marked_end_of, total_len_of, total_room_of,
};
use buffered_duplex::buffered::write_buffer::WriteBuffer;
use buffered_duplex::{Error, ReadWrite, Traced};

/// A handle that takes and gives at most `chunk` bytes per raw call.
struct Pipe {
    source: Vec<u8>,
    taken: Vec<u8>,
    chunk: usize,
    calls: usize,
}

impl Pipe {
    fn new(source: &[u8], chunk: usize) -> Traced<Pipe> {
        Traced::new(Pipe { source: source.to_vec(), taken: Vec::new(), chunk, calls: 0 })
    }
}

impl ReadWrite for Pipe {
    fn read(&mut self, buf: &mut [u8]) -> Result<usize, Error> {
        self.calls += 1;
        let n = buf.len().min(self.chunk).min(self.source.len());
        buf[..n].copy_from_slice(&self.source[..n]);
        self.source.drain(..n);
        Ok(n)
    }

    fn write(&mut self, buf: &[u8]) -> Result<usize, Error> {
        self.calls += 1;
        let n = buf.len().min(self.chunk);
        self.taken.extend_from_slice(&buf[..n]);
        Ok(n)
    }
}

#[test]
fn traced_handle_passes_calls_through() {
    let mut t = Pipe::new(b"abc", 2);
    let mut out = [0u8; 3];
    assert_eq!(t.read(&mut out), Ok(2));
    assert_eq!(&out[..2], b"ab");
    assert_eq!(t.write(b"xyz"), Ok(2));
    assert_eq!(t.get_ref().taken, b"xy");
    t.get_mut().chunk = 1;
    assert_eq!(t.write(b"z"), Ok(1));
    assert_eq!(t.into_inner().calls, 3);
}

#[test]
fn send_all_counts_what_was_taken() {
    let mut t = Pipe::new(b"", 2);
    assert_eq!(t.send_all(b"abcde"), (5, Ok(())));
    assert_eq!(t.get_ref().taken, b"abcde");
    assert_eq!(t.get_ref().calls, 3);
    assert_eq!(t.send_all(b""), (0, Ok(())));
    assert_eq!(t.get_ref().calls, 3);
    t.get_mut().chunk = 0;
    assert_eq!(t.send_all(b"fg"), (0, Err(Error::WriteZero)));
}

#[test]
fn write_buffer_on_its_own() {
    let mut t = Pipe::new(b"", 3);
    let mut w = WriteBuffer::new(4);
    assert_eq!(w.capacity(), 4);
    assert_eq!(w.len(), 0);
    assert!(!w.panicked());
    assert_eq!(w.write_to_buf(b"abcdef"), 4);
    assert_eq!(w.buffer(), b"abcd");
    assert_eq!(w.flush(&mut t), Ok(()));
    assert_eq!(w.len(), 0);
    assert_eq!(t.get_ref().taken, b"abcd");
    assert_eq!(w.write(&mut t, b"ef"), Ok(2));
    assert_eq!(w.write_all(&mut t, b"ghijk"), Ok(()));
    assert_eq!(t.get_ref().taken, b"abcdefghijk");
    assert_eq!(w.write_direct(&mut t, b"lmnop"), Ok(3));
    assert_eq!(w.write_all_direct(&mut t, b"op"), Ok(()));
    let bufs: [&[u8]; 2] = [b"q", b"r"];
    assert_eq!(w.write_vectored(&mut t, &bufs), Ok(2));
    assert_eq!(w.buffer(), b"qr");
    assert_eq!(w.flush(&mut t), Ok(()));
    assert_eq!(w.write_direct_then_buffer(&mut t, b"st\n", b"u"), Ok(4));
    assert_eq!(w.buffer(), b"u");
    let lines: [&[u8]; 1] = [b"v\n"];
    let tail: [&[u8]; 3] = [b"w", b"xyz", b"."];
    assert_eq!(w.write_direct_then_buffer_vectored(&mut t, &lines, &tail), Ok(3));
    assert_eq!(w.buffer(), b"uw");
    assert_eq!(t.get_ref().taken, b"abcdefghijklmnopqrst\nv\n");
}

#[test]
fn read_buffer_on_its_own() {
    let mut t = Pipe::new(b"abcdefghij", 100);
    let mut r = ReadBuffer::new(4);
    assert_eq!(r.capacity(), 4);
    assert!(r.is_empty());
    assert_eq!(r.fill(&mut t).map(|b| b.to_vec()), Ok(b"abcd".to_vec()));
    assert!(!r.is_empty());
    r.consume(1);
    assert_eq!(r.buffer(), b"bcd");
    let mut out = [0u8; 2];
    assert_eq!(r.read(&mut t, &mut out), Ok(2));
    assert_eq!(&out, b"bc");
    r.discard();
    assert!(r.is_empty());
    let mut bufs = vec![vec![0u8; 1], vec![0u8; 1]];
    assert_eq!(r.read_vectored(&mut t, &mut bufs), Ok(2));
    assert_eq!(bufs, vec![b"e".to_vec(), b"f".to_vec()]);
    assert_eq!(r.buffer(), b"gh");
    let mut three = [0u8; 3];
    assert_eq!(read_exact(&mut r, &mut t, &mut three), Ok(()));
    assert_eq!(&three, b"ghi");
    let mut rest = Vec::new();
    assert_eq!(read_to_end(&mut r, &mut t, &mut rest), Ok(1));
    assert_eq!(rest, b"j");
    assert_eq!(read_exact(&mut r, &mut t, &mut three), Err(Error::UnexpectedEof));
}

#[test]
fn copy_prefix_copies_what_fits() {
    let mut out = [0u8; 3];
    assert_eq!(copy_prefix(&mut out, b"abcde"), 3);
    assert_eq!(&out, b"abc");
    let mut out = [b'.'; 4];
    assert_eq!(copy_prefix(&mut out, b"xy"), 2);
    assert_eq!(&out, b"xy..");
}

#[test]
fn scatter_fills_segments_in_order() {
    let mut bufs = vec![vec![b'.'; 2], vec![], vec![b'.'; 2], vec![b'.'; 2]];
    assert_eq!(scatter(&mut bufs, b"abc"), 3);
    assert_eq!(bufs, vec![b"ab".to_vec(), vec![], b"c.".to_vec(), b"..".to_vec()]);
    assert_eq!(scatter(&mut bufs, b"0123456789"), 6);
    assert_eq!(bufs, vec![b"01".to_vec(), vec![], b"23".to_vec(), b"45".to_vec()]);
}

#[test]
fn segments_are_measured_and_searched() {
    let bufs: [&[u8]; 4] = [b"", b"ab\n", b"", b"cd"];
    assert_eq!(total_len_of(&bufs), 5);
    assert_eq!(first_nonempty_of(&bufs), Some(1));
    assert_eq!(marked_end_of(&bufs, b'\n'), 2);
    assert_eq!(marked_end_of(&bufs, b'd'), 4);
    assert_eq!(marked_end_of(&bufs, b'x'), 0);
    let none: [&[u8]; 2] = [b"", b""];
    assert_eq!(first_nonempty_of(&none), None);
    assert_eq!(total_len_of(&none), 0);
    let rooms = vec![vec![], vec![0u8; 3], vec![0u8; 1]];
    assert_eq!(total_room_of(&rooms), 4);
    assert_eq!(first_room_of(&rooms), Some(1));
    assert_eq!(first_room_of(&[]), None);
}
