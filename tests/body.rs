use request_body::body::{
    ConnectionKind, Data, Fill, PeekFill, RecoverError, StreamError, Transport, PEEK_BYTES,
    READ_TIMEOUT_SECS,
};
use request_body::framing::{Chunk, Framing};
use request_body::reader::{BodyReader, ReadStatus};

fn pattern(len: usize) -> Vec<u8> {
    (0..len).map(|i| (i % 256) as u8).collect()
}

fn ready(fill: Fill) -> Data {
    match fill {
        Fill::Ready(d) => d,
        Fill::Pending(_) => panic!("peek fill still waits for the transport"),
    }
}

fn pending(fill: Fill) -> PeekFill {
    match fill {
        Fill::Ready(_) => panic!("peek fill ended"),
        Fill::Pending(p) => p,
    }
}

fn recover_plain(wire: &[u8], framing: Framing) -> Fill {
    let n = wire.len();
    match Data::recover(ConnectionKind::Plain, wire.to_vec(), 0, n, framing) {
        Ok(rec) => rec.fill,
        Err(_) => panic!("plain connection refused"),
    }
}

fn local_reader(framing: Framing, bytes: &[u8]) -> BodyReader {
    let n = bytes.len();
    BodyReader::new(framing, bytes.to_vec(), 0, n, false)
}

#[test]
fn short_local_body_is_peeked_whole() {
    let data = pattern(10);
    let body = Data::local(data.clone());
    assert_eq!(body.peek(), &data[..]);
    assert!(body.peek_complete());
    let mut out = Vec::new();
    assert_eq!(body.stream_to(&mut out), Ok(10));
    assert_eq!(out, data);
}

#[test]
fn local_body_of_peek_size_is_complete() {
    let data = pattern(PEEK_BYTES);
    let body = Data::local(data.clone());
    assert_eq!(body.peek().len(), 4096);
    assert!(body.peek_complete());
    let mut out = Vec::new();
    assert_eq!(body.stream_to(&mut out), Ok(4096));
    assert_eq!(out, data);
}

#[test]
fn long_local_body_peeks_first_bytes() {
    let data = pattern(5000);
    let body = Data::local(data.clone());
    assert_eq!(body.peek().len(), 4096);
    assert_eq!(body.peek(), &data[..4096]);
    assert!(!body.peek_complete());
    let mut out = Vec::new();
    assert_eq!(body.stream_to(&mut out), Ok(5000));
    assert_eq!(out.len(), 5000);
    assert_eq!(out, data);
}

#[test]
fn stream_to_counts_every_byte() {
    for len in [0usize, 1, 4095, 4096, 4097, 1_000_000] {
        let data = pattern(len);
        let body = Data::local(data.clone());
        let mut out = Vec::new();
        assert_eq!(body.stream_to(&mut out), Ok(len as u64));
        assert_eq!(out, data);
    }
}

#[test]
fn stream_to_appends_to_writer() {
    let body = Data::local(vec![7, 8, 9]);
    let mut out = vec![1, 2];
    assert_eq!(body.stream_to(&mut out), Ok(3));
    assert_eq!(out, vec![1, 2, 7, 8, 9]);
}

#[test]
fn unknown_connection_is_refused() {
    let r = Data::recover(ConnectionKind::Other, vec![1, 2, 3], 0, 3, Framing::Sized(3));
    assert!(matches!(r, Err(RecoverError::UnsupportedTransport)));
}

#[test]
fn known_connections_are_recovered() {
    for (kind, transport) in [
        (ConnectionKind::Encrypted, Transport::Encrypted),
        (ConnectionKind::Plain, Transport::Plain),
    ] {
        match Data::recover(kind, vec![9, 1, 2, 3, 0], 1, 4, Framing::Sized(3)) {
            Ok(rec) => {
                assert_eq!(rec.transport, transport);
                assert_eq!(rec.read_timeout_secs, READ_TIMEOUT_SECS);
                assert_eq!(rec.read_timeout_secs, 5);
                let body = ready(rec.fill);
                assert_eq!(body.peek(), &[1, 2, 3]);
                assert!(body.peek_complete());
            },
            Err(_) => panic!("known connection refused"),
        }
    }
}

#[test]
fn empty_framing_yields_nothing() {
    let body = ready(recover_plain(b"GET / HTTP/1.1\r\n", Framing::Empty));
    assert!(body.peek().is_empty());
    assert!(body.peek_complete());
    let mut out = Vec::new();
    assert_eq!(body.stream_to(&mut out), Ok(0));
    assert!(out.is_empty());
}

#[test]
fn sized_zero_yields_nothing() {
    let body = ready(recover_plain(b"next request", Framing::Sized(0)));
    assert!(body.peek().is_empty());
    assert!(body.peek_complete());
    let mut out = Vec::new();
    assert_eq!(body.stream_to(&mut out), Ok(0));
    assert!(out.is_empty());
}

#[test]
fn chunked_body_hides_chunk_framing() {
    let wire = b"a\r\n0123456789\r\n0\r\n\r\n";
    let body = ready(recover_plain(wire, Framing::Chunked(Chunk::start())));
    assert_eq!(body.peek(), b"0123456789");
    assert!(body.peek_complete());
    let mut out = Vec::new();
    assert_eq!(body.stream_to(&mut out), Ok(10));
    assert_eq!(out, b"0123456789".to_vec());
}

#[test]
fn chunked_body_with_extension_and_trailer() {
    let wire = b"3;name=v\r\nabc\r\nA\r\n0123456789\r\n0\r\nX-Sum: 1\r\n\r\nGET";
    let body = ready(recover_plain(wire, Framing::Chunked(Chunk::start())));
    let mut out = Vec::new();
    assert_eq!(body.stream_to(&mut out), Ok(13));
    assert_eq!(out, b"abc0123456789".to_vec());
}

#[test]
fn malformed_chunk_size_is_reported() {
    let body = ready(Data::new(local_reader(Framing::Chunked(Chunk::start()), b"zz\r\n")));
    assert!(body.peek().is_empty());
    assert!(!body.peek_complete());
    let mut out = Vec::new();
    assert_eq!(body.stream_to(&mut out), Err(StreamError::Malformed));
}

#[test]
fn missing_chunk_terminator_is_reported() {
    let body = ready(Data::new(local_reader(Framing::Chunked(Chunk::start()), b"2\r\nabX")));
    assert_eq!(body.peek(), b"ab");
    let mut out = Vec::new();
    assert_eq!(body.stream_to(&mut out), Err(StreamError::Malformed));
    assert_eq!(out, b"ab".to_vec());
}

#[test]
fn short_sized_source_is_truncated() {
    let body = ready(Data::new(local_reader(Framing::Sized(10), b"abc")));
    assert_eq!(body.peek(), b"abc");
    assert!(!body.peek_complete());
    let mut out = Vec::new();
    assert_eq!(body.stream_to(&mut out), Err(StreamError::UnexpectedEnd));
    assert_eq!(out, b"abc".to_vec());
}

#[test]
fn sized_body_stops_at_its_length() {
    let body = ready(Data::new(local_reader(Framing::Sized(4), b"abcdefgh")));
    assert_eq!(body.peek(), b"abcd");
    assert!(body.peek_complete());
}

#[test]
fn eof_body_runs_to_source_end() {
    let data = pattern(6000);
    let body = ready(Data::new(local_reader(Framing::Eof, &data)));
    assert_eq!(body.peek(), &data[..4096]);
    assert!(!body.peek_complete());
    let mut out = Vec::new();
    assert_eq!(body.stream_to(&mut out), Ok(6000));
    assert_eq!(out, data);
}

#[test]
fn fill_of_exactly_peek_size_is_not_complete() {
    let data = pattern(4096);
    let body = ready(Data::new(local_reader(Framing::Sized(4096), &data)));
    assert_eq!(body.peek(), &data[..]);
    assert!(!body.peek_complete());
}

#[test]
fn peek_fill_waits_for_transport() {
    let mut fill = pending(recover_plain(b"hello", Framing::Sized(11)));
    assert!(fill.is_waiting());
    fill.supply(b" world".to_vec());
    let body = ready(fill.advance());
    assert_eq!(body.peek(), b"hello world");
    assert!(body.peek_complete());
}

#[test]
fn peek_fill_sees_transport_end() {
    let mut fill = pending(recover_plain(b"tail", Framing::Eof));
    fill.close_source();
    let body = ready(fill.advance());
    assert_eq!(body.peek(), b"tail");
    assert!(body.peek_complete());
}

#[test]
fn peek_fill_error_is_deferred() {
    let fill = pending(recover_plain(b"part", Framing::Sized(100)));
    let body = fill.fail();
    assert_eq!(body.peek(), b"part");
    assert!(!body.peek_complete());
    let mut out = Vec::new();
    assert_eq!(body.stream_to(&mut out), Err(StreamError::NeedSource));
    assert_eq!(out, b"part".to_vec());
}

#[test]
fn open_stream_continues_on_transport() {
    let data = pattern(6000);
    let body = ready(recover_plain(&data[..5000], Framing::Sized(6000)));
    assert_eq!(body.peek(), &data[..4096]);
    assert!(!body.peek_complete());
    let mut stream = body.open();
    let mut out = Vec::new();
    assert_eq!(stream.copy_available(&mut out), ReadStatus::NeedSource);
    assert_eq!(out, data[..5000].to_vec());
    assert!(stream.is_waiting());
    stream.supply(data[5000..].to_vec());
    assert_eq!(stream.copy_available(&mut out), ReadStatus::End);
    assert_eq!(out, data);
}

#[test]
fn open_stream_reads_in_steps() {
    let data = pattern(10);
    let mut stream = Data::local(data.clone()).open();
    let mut out = Vec::new();
    assert_eq!(stream.read(&mut out, 4), ReadStatus::Progress);
    assert_eq!(out, data[..4].to_vec());
    assert_eq!(stream.read(&mut out, 100), ReadStatus::Progress);
    assert_eq!(out, data);
    assert_eq!(stream.read(&mut out, 100), ReadStatus::End);
    assert_eq!(out, data);
}

#[test]
fn leftover_window_is_respected() {
    let leftover = b"HEADbody-bytesJUNK".to_vec();
    match Data::recover(ConnectionKind::Plain, leftover, 4, 14, Framing::Sized(10)) {
        Ok(rec) => {
            let body = ready(rec.fill);
            assert_eq!(body.peek(), b"body-bytes");
            assert!(body.peek_complete());
        },
        Err(_) => panic!("plain connection refused"),
    }
}

#[test]
fn chunk_decoder_steps_through_wire() {
    let mut c = Chunk::start();
    assert_eq!(c.advance(b'1'), None);
    assert_eq!(c, Chunk::Size { size: 1, digits: true });
    assert_eq!(c.advance(b'\r'), None);
    assert_eq!(c.advance(b'\n'), None);
    assert_eq!(c, Chunk::Payload { left: 1 });
    assert_eq!(c.advance(b'q'), Some(b'q'));
    assert_eq!(c, Chunk::PayloadCr);
}

#[test]
fn chunk_size_overflow_is_invalid() {
    let mut c = Chunk::start();
    for _ in 0..16 {
        assert_eq!(c.advance(b'f'), None);
    }
    assert_eq!(c, Chunk::Size { size: u64::MAX, digits: true });
    c.advance(b'0');
    assert_eq!(c, Chunk::Invalid);
}

#[test]
fn framing_decode_honours_limit() {
    let mut f = Framing::Eof;
    let input = b"abcdef".to_vec();
    let mut out = Vec::new();
    assert_eq!(f.decode(&input, 1, 6, 3, &mut out), 3);
    assert_eq!(out, b"bcd".to_vec());
}

#[test]
fn drain_within_budget_keeps_connection() {
    let body = Data::local(pattern(1000));
    assert!(body.drain(1024));
}

#[test]
fn drain_over_budget_closes_connection() {
    let body = Data::local(pattern(5000));
    assert!(!body.drain(1024));
}

#[test]
fn drain_of_waiting_body_closes_connection() {
    let body = ready(recover_plain(&pattern(4500), Framing::Sized(4600)));
    assert!(!body.drain(1_000_000));
}
