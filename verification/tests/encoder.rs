use chunked_transfer::sink::Bounded;
use chunked_transfer::{Encoder, Sink};
use std::io;
use std::io::Write;
use std::str::from_utf8;

/// Lets the copy routine of the standard library feed an encoder.
struct Feed<'a, W: Sink>(&'a mut Encoder<W>);

impl<W: Sink> Write for Feed<'_, W> {
    fn write(&mut self, buf: &[u8]) -> io::Result<usize> {
        self.0.write(buf).map_err(|_| io::Error::other("the sink failed"))
    }

    fn flush(&mut self) -> io::Result<()> {
        self.0.flush().map_err(|_| io::Error::other("the sink failed"))
    }
}

/// Reads a chunked stream back: the bodies of the chunks before the
/// terminator, or nothing if the bytes are not a well-formed stream.
fn read_back(wire: &[u8]) -> Option<Vec<Vec<u8>>> {
    let mut chunks = Vec::new();
    let mut at = 0;
    loop {
        let mut len: usize = 0;
        let digits_from = at;
        while at < wire.len() && (wire[at].is_ascii_digit() || (b'a'..=b'f').contains(&wire[at])) {
            len = len * 16 + (wire[at] as char).to_digit(16).unwrap() as usize;
            at += 1;
        }
        if at == digits_from || wire.len() < at + 2 + len + 2 {
            return None;
        }
        if &wire[at..at + 2] != b"\r\n" || &wire[at + 2 + len..at + 2 + len + 2] != b"\r\n" {
            return None;
        }
        let body = wire[at + 2..at + 2 + len].to_vec();
        at += 2 + len + 2;
        if body.is_empty() {
            return if at == wire.len() { Some(chunks) } else { None };
        }
        chunks.push(body);
    }
}

#[test]
fn test() {
    let mut source = io::Cursor::new("hello world".to_string().into_bytes());
    let mut dest: Vec<u8> = vec![];

    {
        let mut encoder = Encoder::with_chunks_size(&mut dest, 5);
        io::copy(&mut source, &mut Feed(&mut encoder)).unwrap();
        assert!(!encoder.buffer().is_empty());
        encoder.finish();
    }

    let output = from_utf8(&dest).unwrap();

    assert_eq!(output, "5\r\nhello\r\n5\r\n worl\r\n1\r\nd\r\n0\r\n\r\n");
}

#[test]
fn flush_after_write() {
    let mut source = io::Cursor::new("hello world".to_string().into_bytes());
    let mut dest: Vec<u8> = vec![];

    {
        let mut encoder = Encoder::with_flush_after_write(&mut dest);
        io::copy(&mut source, &mut Feed(&mut encoder)).unwrap();
        // The internal buffer has been flushed.
        assert!(encoder.buffer().is_empty());
        encoder.finish();
    }

    let output = from_utf8(&dest).unwrap();

    assert_eq!(output, "b\r\nhello world\r\n0\r\n\r\n");
}

#[test]
fn write_returns_the_number_of_bytes_taken() {
    let mut encoder = Encoder::with_chunks_size(Vec::new(), 5);
    assert_eq!(encoder.write(b"hello world").unwrap(), 11);
    assert_eq!(encoder.write(b"").unwrap(), 0);
    assert_eq!(encoder.write(b"!").unwrap(), 1);
}

#[test]
fn one_full_chunk_then_finish() {
    let mut encoder = Encoder::with_chunks_size(Vec::new(), 5);
    encoder.write(b"hello").unwrap();
    assert!(encoder.buffer().is_empty());
    let dest = encoder.finish();
    assert_eq!(dest, b"5\r\nhello\r\n0\r\n\r\n");
}

#[test]
fn nothing_written_then_finish() {
    let encoder = Encoder::new(Vec::new());
    let dest = encoder.finish();
    assert_eq!(dest, b"0\r\n\r\n");
}

#[test]
fn short_write_stays_buffered() {
    let mut encoder = Encoder::with_chunks_size(Vec::new(), 8);
    encoder.write(b"abc").unwrap();
    assert!(encoder.get_ref().is_empty());
    assert_eq!(encoder.buffer(), b"abc");

    encoder.write(b"de").unwrap();
    assert!(encoder.get_ref().is_empty());
    assert_eq!(encoder.buffer(), b"abcde");

    encoder.write(b"fgh").unwrap();
    assert_eq!(encoder.get_ref().as_slice(), b"8\r\nabcdefgh\r\n");
    assert!(encoder.buffer().is_empty());
}

#[test]
fn short_write_is_emitted_by_flush() {
    let mut encoder = Encoder::with_chunks_size(Vec::new(), 8);
    encoder.write(b"abc").unwrap();
    assert!(encoder.get_ref().is_empty());
    encoder.flush().unwrap();
    assert_eq!(encoder.get_ref().as_slice(), b"3\r\nabc\r\n");
    assert!(encoder.buffer().is_empty());
}

#[test]
fn short_write_is_emitted_by_finish() {
    let mut encoder = Encoder::with_chunks_size(Vec::new(), 8);
    encoder.write(b"abc").unwrap();
    let dest = encoder.finish();
    assert_eq!(dest, b"3\r\nabc\r\n0\r\n\r\n");
}

#[test]
fn leftover_joins_the_next_write() {
    let mut encoder = Encoder::with_chunks_size(Vec::new(), 4);
    encoder.write(b"ab").unwrap();
    encoder.write(b"cdefghij").unwrap();
    assert_eq!(encoder.get_ref().as_slice(), b"4\r\nabcd\r\n4\r\nefgh\r\n");
    assert_eq!(encoder.buffer(), b"ij");
}

#[test]
fn chunk_size_of_one() {
    let mut encoder = Encoder::with_chunks_size(Vec::new(), 1);
    encoder.write(b"abc").unwrap();
    assert!(encoder.buffer().is_empty());
    let dest = encoder.finish();
    assert_eq!(dest, b"1\r\na\r\n1\r\nb\r\n1\r\nc\r\n0\r\n\r\n");
}

#[test]
fn flush_with_nothing_buffered_does_nothing() {
    let mut encoder = Encoder::with_chunks_size(Vec::new(), 5);
    assert!(encoder.flush().is_ok());
    assert!(encoder.get_ref().is_empty());
    assert!(encoder.buffer().is_empty());
}

#[test]
fn flush_twice_emits_one_chunk() {
    let mut encoder = Encoder::with_chunks_size(Vec::new(), 16);
    encoder.write(b"abc").unwrap();
    encoder.flush().unwrap();
    let after_first = encoder.get_ref().clone();
    encoder.flush().unwrap();
    assert_eq!(encoder.get_ref(), &after_first);
    assert_eq!(after_first, b"3\r\nabc\r\n");
}

#[test]
fn default_chunk_size_is_8192() {
    let mut encoder = Encoder::new(Vec::new());
    assert_eq!(encoder.chunk_size(), 8192);
    assert!(!encoder.flushes_after_write());

    encoder.write(&vec![b'a'; 8191]).unwrap();
    assert!(encoder.get_ref().is_empty());
    assert_eq!(encoder.buffer().len(), 8191);

    encoder.write(b"a").unwrap();
    assert!(encoder.buffer().is_empty());
    let mut expected = b"2000\r\n".to_vec();
    expected.extend_from_slice(&vec![b'a'; 8192]);
    expected.extend_from_slice(b"\r\n");
    assert_eq!(encoder.get_ref(), &expected);
}

#[test]
fn flush_after_write_keeps_the_default_chunk_size() {
    let mut encoder = Encoder::with_flush_after_write(Vec::new());
    assert_eq!(encoder.chunk_size(), 8192);
    assert!(encoder.flushes_after_write());

    encoder.write(&vec![b'z'; 8200]).unwrap();
    assert!(encoder.buffer().is_empty());
    let mut expected = b"2000\r\n".to_vec();
    expected.extend_from_slice(&vec![b'z'; 8192]);
    expected.extend_from_slice(b"\r\n8\r\nzzzzzzzz\r\n");
    assert_eq!(encoder.get_ref(), &expected);
}

#[test]
fn flush_after_write_with_nothing_to_write_emits_nothing() {
    let mut encoder = Encoder::with_flush_after_write(Vec::new());
    assert_eq!(encoder.write(b"").unwrap(), 0);
    assert!(encoder.get_ref().is_empty());
}

#[test]
fn explicit_chunk_size_is_kept() {
    let mut encoder = Encoder::with_chunks_size(Vec::new(), 3);
    assert_eq!(encoder.chunk_size(), 3);
    assert!(!encoder.flushes_after_write());
    encoder.write(b"abcdefg").unwrap();
    encoder.flush().unwrap();
    assert_eq!(encoder.chunk_size(), 3);
    assert!(!encoder.flushes_after_write());
}

#[test]
fn round_trip_for_many_chunk_sizes() {
    let input: Vec<u8> = (0..1000u32).map(|i| (i * 7 % 256) as u8).collect();
    for chunks in [1usize, 2, 3, 7, 16, 255, 256, 999, 1000, 1001, 8192] {
        let mut encoder = Encoder::with_chunks_size(Vec::new(), chunks);
        assert_eq!(encoder.write(&input).unwrap(), input.len());
        let wire = encoder.finish();
        let bodies = read_back(&wire).unwrap();
        assert_eq!(bodies.concat(), input);
        assert!(bodies.iter().all(|body| !body.is_empty() && body.len() <= chunks));
        assert!(wire.ends_with(b"0\r\n\r\n"));
    }
}

#[test]
fn round_trip_for_input_in_pieces() {
    let input: Vec<u8> = (0..500u32).map(|i| (i % 251) as u8).collect();
    for eager in [false, true] {
        let mut encoder = if eager {
            Encoder::with_flush_after_write(Vec::new())
        } else {
            Encoder::with_chunks_size(Vec::new(), 64)
        };
        let mut fed = 0;
        let mut piece = 1;
        while fed < input.len() {
            let end = (fed + piece).min(input.len());
            encoder.write(&input[fed..end]).unwrap();
            if piece % 5 == 0 {
                encoder.flush().unwrap();
            }
            fed = end;
            piece += 3;
        }
        let wire = encoder.finish();
        let bodies = read_back(&wire).unwrap();
        assert_eq!(bodies.concat(), input);
        assert!(bodies.iter().all(|body| !body.is_empty()));
    }
}

#[test]
fn bytes_that_look_like_framing_pass_through() {
    let input = b"0\r\n\r\n5\r\nab";
    let mut encoder = Encoder::with_chunks_size(Vec::new(), 4);
    encoder.write(input).unwrap();
    let wire = encoder.finish();
    assert_eq!(wire, b"4\r\n0\r\n\r\r\n4\r\n\n5\r\n\r\n2\r\nab\r\n0\r\n\r\n");
    assert_eq!(read_back(&wire).unwrap().concat(), input);
}

#[test]
fn sink_can_be_drained_between_writes() {
    let mut encoder = Encoder::with_chunks_size(Vec::new(), 2);
    encoder.write(b"abc").unwrap();
    let first: Vec<u8> = encoder.get_mut().drain(..).collect();
    assert_eq!(first, b"2\r\nab\r\n");
    assert_eq!(encoder.buffer(), b"c");

    encoder.write(b"d").unwrap();
    assert_eq!(encoder.get_ref().as_slice(), b"2\r\ncd\r\n");
}

#[test]
fn sink_may_hold_bytes_before_the_stream() {
    let head = b"Transfer-Encoding: chunked\r\n\r\n".to_vec();
    let mut encoder = Encoder::with_chunks_size(head.clone(), 4);
    encoder.write(b"body").unwrap();
    let dest = encoder.finish();
    let mut expected = head;
    expected.extend_from_slice(b"4\r\nbody\r\n0\r\n\r\n");
    assert_eq!(dest, expected);
}

#[test]
fn write_reports_a_full_sink() {
    // Room for the first frame only.
    let mut encoder = Encoder::with_chunks_size(Bounded::new(8), 2);
    assert!(encoder.write(b"abcd").is_err());
    assert_eq!(encoder.get_ref().as_slice(), b"2\r\nab\r\n");
}

#[test]
fn write_without_emission_succeeds_on_a_full_sink() {
    let mut encoder = Encoder::with_chunks_size(Bounded::new(0), 4);
    assert_eq!(encoder.write(b"abc").unwrap(), 3);
    assert_eq!(encoder.buffer(), b"abc");
    assert!(encoder.write(b"d").is_err());
}

#[test]
fn flush_reports_a_full_sink() {
    let mut encoder = Encoder::with_chunks_size(Bounded::new(2), 4);
    encoder.write(b"abc").unwrap();
    assert!(encoder.flush().is_err());
}

#[test]
fn flush_after_write_reports_a_full_sink() {
    let mut encoder = Encoder::with_flush_after_write(Bounded::new(4));
    assert!(encoder.write(b"abc").is_err());
}

#[test]
fn finish_on_a_full_sink_drops_the_error() {
    let mut encoder = Encoder::with_chunks_size(Bounded::new(9), 4);
    encoder.write(b"abcd").unwrap();
    let sink = encoder.finish();
    assert_eq!(sink.as_slice(), b"4\r\nabcd\r\n");
}

#[test]
fn finish_tries_the_terminator_after_a_failed_flush() {
    // The body of the last chunk does not fit; the terminator does.
    let mut encoder = Encoder::with_chunks_size(Bounded::new(9), 16);
    encoder.write(b"abcdefgh").unwrap();
    let sink = encoder.finish();
    assert_eq!(sink.as_slice(), b"8\r\n0\r\n\r\n");
}
