use vstd::prelude::*;

use crate::framing::{lemma_run_sized, run, Framing};
use crate::reader::{outcome_of, BodyReader, ReadStatus};

verus! {

/// The number of bytes read ahead into the peek buffer.
pub const PEEK_BYTES: usize = 4096;

/// The read deadline, in seconds, set on a recovered transport.
pub const READ_TIMEOUT_SECS: u64 = 5;

/// How many bytes one step of a copy asks for.
const COPY_CHUNK: usize = 4096;

/// The first bytes of a body, as many as the peek buffer holds.
pub open spec fn peek_of(c: Seq<u8>) -> Seq<u8> {
    if c.len() <= PEEK_BYTES {
        c
    } else {
        c.take(PEEK_BYTES as int)
    }
}

/// The body of an incoming request: the bytes read ahead into the peek
/// buffer, then the framed reader that yields the bytes after them.
pub struct Data {
    buffer: Vec<u8>,
    is_complete: bool,
    stream: BodyReader,
}

/// A peek fill under way: the bytes read ahead so far and the reader.
pub struct PeekFill {
    buffer: Vec<u8>,
    stream: BodyReader,
}

/// What a step of the peek fill ends in.
pub enum Fill {
    /// The peek buffer is filled as far as it can be.
    Ready(Data),
    /// Every byte at hand is read ahead, the buffer is not full and the
    /// transport must deliver more.
    Pending(PeekFill),
}

/// The stream of a body once opened: the peek buffer's bytes, then what the
/// framed reader yields.
pub struct DataStream {
    buffer: Vec<u8>,
    pos: usize,
    stream: BodyReader,
}

/// Why copying a body stopped short of its end.
#[derive(Clone, Copy, Debug, PartialEq, Eq, Structural)]
pub enum StreamError {
    /// The source ended before the body did.
    UnexpectedEnd,
    /// The source's bytes broke the framing.
    Malformed,
    /// The bytes at hand are copied; the rest is still on the transport.
    NeedSource,
}

/// The concrete kind of a connection handle.
#[derive(Clone, Copy, Debug, PartialEq, Eq, Structural)]
pub enum ConnectionKind {
    Encrypted,
    Plain,
    Other,
}

/// A transport that a body can be read from.
#[derive(Clone, Copy, Debug, PartialEq, Eq, Structural)]
pub enum Transport {
    Encrypted,
    Plain,
}

#[derive(Clone, Copy, Debug, PartialEq, Eq, Structural)]
pub enum RecoverError {
    /// The connection is of no kind that a body can be read from.
    UnsupportedTransport,
}

/// A body recovered from a connection: the transport to read on, the read
/// deadline to set on it, and the peek fill.
pub struct Recovered {
    pub transport: Transport,
    pub read_timeout_secs: u64,
    pub fill: Fill,
}

pub open spec fn transport_spec(kind: ConnectionKind) -> Option<Transport> {
    match kind {
        ConnectionKind::Encrypted => Some(Transport::Encrypted),
        ConnectionKind::Plain => Some(Transport::Plain),
        ConnectionKind::Other => None,
    }
}

/// `f` is the peek fill of a body whose bytes known so far are `c` and whose
/// reading stands at `o` once they are read.
pub open spec fn filled(f: Fill, c: Seq<u8>, o: ReadStatus) -> bool {
    match f {
        Fill::Ready(d) => {
            &&& d.wf()
            &&& d.content() == c
            &&& d.outcome() == o
            &&& d.peek_view() == peek_of(c)
            &&& d.complete() == (c.len() < PEEK_BYTES && o == ReadStatus::End)
            &&& !(c.len() < PEEK_BYTES && o == ReadStatus::NeedSource)
        },
        Fill::Pending(p) => {
            &&& p.wf()
            &&& p.content() == c
            &&& p.outcome() == o
            &&& p.waiting()
            &&& c.len() < PEEK_BYTES
            &&& o == ReadStatus::NeedSource
        },
    }
}

impl Data {
    pub closed spec fn wf(&self) -> bool {
        &&& self.stream.wf()
        &&& self.buffer@.len() <= PEEK_BYTES
        &&& self.buffer@.len() < PEEK_BYTES ==> self.stream.available().len() == 0
        &&& self.is_complete ==> self.stream.outcome() == ReadStatus::End
            && self.stream.available().len() == 0
        &&& self.buffer@.len() < PEEK_BYTES && self.stream.outcome() == ReadStatus::End
            ==> self.is_complete
    }

    pub closed spec fn peek_view(&self) -> Seq<u8> {
        self.buffer@
    }

    pub closed spec fn complete(&self) -> bool {
        self.is_complete
    }

    /// The body bytes known so far: the peek buffer's, then those that the
    /// source bytes at hand carry.
    pub closed spec fn content(&self) -> Seq<u8> {
        self.buffer@ + self.stream.available()
    }

    /// How reading stands once the known bytes are read.
    pub closed spec fn outcome(&self) -> ReadStatus {
        self.stream.outcome()
    }

    /// Reads ahead from `stream` into the peek buffer.
    pub fn new(stream: BodyReader) -> (r: Fill)
        requires
            stream.wf(),
        ensures
            filled(r, stream.available(), stream.outcome()),
    {
        let fill = PeekFill { buffer: Vec::new(), stream };
        proof {
            assert(fill.content() =~= stream.available());
        }
        fill.advance()
    }

    /// A body over bytes in memory: the first of them go to the peek buffer,
    /// the rest to a sized reader.
    pub fn local(data: Vec<u8>) -> (r: Data)
        ensures
            r.wf(),
            r.content() == data@,
            r.outcome() == ReadStatus::End,
            r.peek_view() == peek_of(data@),
            r.complete() == (data@.len() <= PEEK_BYTES),
    {
        let ghost all = data@;
        let mut buf = data;
        let rest = if buf.len() <= PEEK_BYTES {
            Vec::new()
        } else {
            buf.split_off(PEEK_BYTES)
        };
        let n = rest.len();
        let ghost rest_view = rest@;
        let stream = BodyReader::new(Framing::Sized(n as u64), rest, 0, n, false);
        proof {
            assert(stream.rest() =~= rest_view);
            lemma_run_sized(n as u64, rest_view);
            assert(rest_view.take(n as int) =~= rest_view);
            assert(buf@ + rest_view =~= all);
        }
        Data { buffer: buf, is_complete: n == 0, stream }
    }

    /// Recovers a body from a connection of kind `kind`, whose header parser
    /// left the bytes `leftover[pos..cap]` unread, with the framing that the
    /// headers gave. The body's source is those bytes, then the transport.
    pub fn recover(
        kind: ConnectionKind,
        leftover: Vec<u8>,
        pos: usize,
        cap: usize,
        framing: Framing,
    ) -> (r: Result<Recovered, RecoverError>)
        requires
            pos <= cap <= leftover.len(),
        ensures
            r is Err <==> transport_spec(kind) is None,
            r is Err ==> r == Err::<Recovered, RecoverError>(RecoverError::UnsupportedTransport),
            r matches Ok(rec) ==> {
                let known = run(framing, leftover@.subrange(pos as int, cap as int));
                &&& Some(rec.transport) == transport_spec(kind)
                &&& rec.read_timeout_secs == READ_TIMEOUT_SECS
                &&& filled(rec.fill, known.1, outcome_of(known.0, true))
            },
    {
        let transport = match kind {
            ConnectionKind::Encrypted => Transport::Encrypted,
            ConnectionKind::Plain => Transport::Plain,
            ConnectionKind::Other => {
                return Err(RecoverError::UnsupportedTransport);
            },
        };
        let stream = BodyReader::new(framing, leftover, pos, cap, true);
        let fill = Data::new(stream);
        Ok(Recovered { transport, read_timeout_secs: READ_TIMEOUT_SECS, fill })
    }

    /// The bytes read ahead, at most `PEEK_BYTES` of them.
    pub fn peek(&self) -> (r: &[u8])
        ensures
            r@ == self.peek_view(),
    {
        self.buffer.as_slice()
    }

    /// Whether the peek buffer holds the whole body.
    pub fn peek_complete(&self) -> (r: bool)
        ensures
            r == self.complete(),
    {
        self.is_complete
    }

    /// Consumes the body and returns its stream: the peek buffer's bytes,
    /// then the rest.
    pub fn open(self) -> (r: DataStream)
        requires
            self.wf(),
        ensures
            r.wf(),
            r.content() == self.content(),
            r.outcome() == self.outcome(),
    {
        let r = DataStream { buffer: self.buffer, pos: 0, stream: self.stream };
        proof {
            assert(r.buffer@.subrange(0, r.buffer@.len() as int) =~= r.buffer@);
        }
        r
    }

    /// Consumes the body and appends its bytes to `writer`; returns how many
    /// there were, or why the copy stopped short of the body's end. The bytes
    /// known are appended in either case.
    pub fn stream_to(self, writer: &mut Vec<u8>) -> (r: Result<u64, StreamError>)
        requires
            self.wf(),
        ensures
            final(writer)@ == old(writer)@ + self.content(),
            r == match self.outcome() {
                ReadStatus::End => Ok(self.content().len() as u64),
                ReadStatus::Truncated => Err(StreamError::UnexpectedEnd),
                ReadStatus::Malformed => Err(StreamError::Malformed),
                _ => Err::<u64, StreamError>(StreamError::NeedSource),
            },
    {
        let start = writer.len();
        let mut s = self.open();
        let status = s.copy_available(writer);
        let n = (writer.len() - start) as u64;
        match status {
            ReadStatus::End => Ok(n),
            ReadStatus::Truncated => Err(StreamError::UnexpectedEnd),
            ReadStatus::Malformed => Err(StreamError::Malformed),
            _ => Err(StreamError::NeedSource),
        }
    }

    /// Consumes a body that its handler left unread, reading and dropping at
    /// most `budget` of its bytes. Returns whether the body ended within the
    /// budget, so that the connection may serve another request; where it
    /// did not, the connection is to be closed.
    pub fn drain(self, budget: usize) -> (r: bool)
        requires
            self.wf(),
        ensures
            r == (self.outcome() == ReadStatus::End && self.content().len() <= budget),
    {
        let mut s = self.open();
        let ghost c0 = s.content();
        let mut left: usize = budget;
        let mut over = false;
        while !over && !s.is_stalled()
            invariant
                s.wf(),
                s.outcome() == self.outcome(),
                left <= budget,
                !over ==> (budget - left) + s.content().len() == c0.len(),
                over ==> c0.len() > budget,
            decreases s.remaining(),
        {
            let mut scratch: Vec<u8> = Vec::new();
            s.read(&mut scratch, COPY_CHUNK);
            if scratch.len() > left {
                over = true;
            } else {
                left = left - scratch.len();
            }
        }
        if over {
            false
        } else {
            let mut scratch: Vec<u8> = Vec::new();
            let status = s.read(&mut scratch, 0);
            status == ReadStatus::End
        }
    }
}

impl PeekFill {
    /// The framing once every byte at hand has gone through it.
    pub closed spec fn settled(&self) -> Framing {
        self.stream.settled()
    }

    pub closed spec fn wf(&self) -> bool {
        self.stream.wf() && self.buffer@.len() < PEEK_BYTES
    }

    pub closed spec fn content(&self) -> Seq<u8> {
        self.buffer@ + self.stream.available()
    }

    pub closed spec fn outcome(&self) -> ReadStatus {
        self.stream.outcome()
    }

    /// Every byte at hand is read ahead and the transport must deliver more.
    pub closed spec fn waiting(&self) -> bool {
        self.stream.rest().len() == 0 && self.stream.outcome() == ReadStatus::NeedSource
    }

    /// Reads ahead every body byte at hand, until the peek buffer is full.
    pub fn advance(self) -> (r: Fill)
        requires
            self.wf(),
        ensures
            filled(r, self.content(), self.outcome()),
    {
        let ghost c0 = self.content();
        let ghost o0 = self.outcome();
        let mut buffer = self.buffer;
        let mut stream = self.stream;
        while buffer.len() < PEEK_BYTES && !stream.is_stalled()
            invariant
                stream.wf(),
                buffer@.len() <= PEEK_BYTES,
                buffer@ + stream.available() == c0,
                stream.outcome() == o0,
            decreases stream.rest().len(),
        {
            let ghost b0 = buffer@;
            let room = PEEK_BYTES - buffer.len();
            stream.read(&mut buffer, room);
            proof {
                assert(buffer@ =~= b0 + buffer@.subrange(b0.len() as int, buffer@.len() as int));
                assert(buffer@ + stream.available() =~= b0 + (buffer@.subrange(
                    b0.len() as int,
                    buffer@.len() as int,
                ) + stream.available()));
            }
        }
        if buffer.len() < PEEK_BYTES {
            let status = stream.read(&mut buffer, 0);
            proof {
                assert(stream.available() =~= Seq::<u8>::empty());
                assert(buffer@ + stream.available() =~= buffer@);
            }
            if status == ReadStatus::NeedSource {
                let p = PeekFill { buffer, stream };
                Fill::Pending(p)
            } else {
                Fill::Ready(Data { buffer, is_complete: status == ReadStatus::End, stream })
            }
        } else {
            proof {
                assert(c0.take(PEEK_BYTES as int) =~= buffer@);
            }
            Fill::Ready(Data { buffer, is_complete: false, stream })
        }
    }

    /// Every byte at hand is read ahead and the transport must deliver more.
    pub fn is_waiting(&self) -> (r: bool)
        requires
            self.wf(),
        ensures
            r == self.waiting(),
    {
        self.stream.needs_source()
    }

    /// Hands the fill bytes that the transport delivered.
    pub fn supply(&mut self, bytes: Vec<u8>)
        requires
            old(self).wf(),
            old(self).waiting(),
        ensures
            final(self).wf(),
            final(self).content() == old(self).content() + run(old(self).settled(), bytes@).1,
            final(self).outcome() == outcome_of(run(old(self).settled(), bytes@).0, true),
    {
        let ghost b = self.buffer@;
        self.stream.supply(bytes);
        proof {
            assert(b + self.stream.available() =~= old(self).content() + run(old(self).settled(), bytes@).1);
        }
    }

    /// Records that the transport has ended.
    pub fn close_source(&mut self)
        requires
            old(self).wf(),
        ensures
            final(self).wf(),
            final(self).content() == old(self).content(),
            final(self).outcome() == outcome_of(old(self).settled(), false),
    {
        self.stream.close_source();
    }

    /// Gives up the fill on a transport error: the body keeps the bytes read
    /// ahead, is not complete, and the error comes again when the rest is
    /// read.
    pub fn fail(self) -> (r: Data)
        requires
            self.wf(),
            self.waiting(),
        ensures
            r.wf(),
            r.content() == self.content(),
            r.peek_view() == self.content(),
            !r.complete(),
            r.outcome() == ReadStatus::NeedSource,
    {
        proof {
            assert(self.buffer@ + self.stream.available() =~= self.buffer@);
        }
        Data { buffer: self.buffer, is_complete: false, stream: self.stream }
    }
}

impl DataStream {
    /// The framing once every byte at hand has gone through it.
    pub closed spec fn settled(&self) -> Framing {
        self.stream.settled()
    }

    pub closed spec fn wf(&self) -> bool {
        self.pos <= self.buffer@.len() && self.stream.wf()
    }

    /// The body bytes known and not yet read.
    pub closed spec fn content(&self) -> Seq<u8> {
        self.buffer@.subrange(self.pos as int, self.buffer@.len() as int) + self.stream.available()
    }

    pub closed spec fn outcome(&self) -> ReadStatus {
        self.stream.outcome()
    }

    /// How much input is left at hand: a measure that each read lessens.
    pub closed spec fn remaining(&self) -> nat {
        ((self.buffer@.len() - self.pos) + self.stream.rest().len()) as nat
    }

    pub closed spec fn stalled(&self) -> bool {
        self.pos == self.buffer@.len() && self.stream.stalled()
    }

    /// Every byte at hand is taken and the transport must deliver more.
    pub closed spec fn waiting(&self) -> bool {
        self.pos == self.buffer@.len() && self.stream.rest().len() == 0 && self.stream.outcome()
            == ReadStatus::NeedSource
    }

    pub fn is_stalled(&self) -> (r: bool)
        requires
            self.wf(),
        ensures
            r == self.stalled(),
    {
        self.pos == self.buffer.len() && self.stream.is_stalled()
    }

    pub fn is_waiting(&self) -> (r: bool)
        requires
            self.wf(),
        ensures
            r == self.waiting(),
    {
        self.pos == self.buffer.len() && self.stream.needs_source()
    }

    /// Reads body bytes into `out`, at most `max` of them.
    pub fn read(&mut self, out: &mut Vec<u8>, max: usize) -> (r: ReadStatus)
        requires
            old(self).wf(),
        ensures
            final(self).wf(),
            final(self).outcome() == old(self).outcome(),
            final(out)@.len() <= old(out)@.len() + max,
            final(out)@ == old(out)@ + final(out)@.subrange(old(out)@.len() as int, final(out)@.len() as int),
            final(out)@.subrange(old(out)@.len() as int, final(out)@.len() as int)
                + final(self).content() == old(self).content(),
            (r == ReadStatus::Progress) == !old(self).stalled(),
            r != ReadStatus::Progress ==> r == old(self).outcome() && final(out)@ == old(out)@
                && old(self).content().len() == 0 && *final(self) == *old(self),
            r == ReadStatus::Progress && max > 0 ==> final(self).remaining() < old(self).remaining(),
    {
        let ghost out0 = out@;
        let ghost c0 = self.content();
        if self.pos < self.buffer.len() {
            let left = self.buffer.len() - self.pos;
            let n = if max < left { max } else { left };
            let start = self.pos;
            let mut i: usize = 0;
            while i < n
                invariant
                    i <= n,
                    start + n <= self.buffer@.len(),
                    self.buffer@.len() <= usize::MAX,
                    out@ == out0 + self.buffer@.subrange(start as int, start + i),
                decreases n - i,
            {
                let b = self.buffer[start + i];
                out.push(b);
                i = i + 1;
                proof {
                    assert(out@ =~= out0 + self.buffer@.subrange(start as int, start + i));
                }
            }
            self.pos = start + n;
            proof {
                assert(out@.subrange(out0.len() as int, out@.len() as int) =~= self.buffer@.subrange(
                    start as int,
                    start + n,
                ));
                assert(out@ =~= out0 + out@.subrange(out0.len() as int, out@.len() as int));
                assert(self.buffer@.subrange(start as int, start + n) + self.content() =~= c0);
            }
            ReadStatus::Progress
        } else {
            let r = self.stream.read(out, max);
            proof {
                assert(self.buffer@.subrange(self.pos as int, self.buffer@.len() as int) =~= Seq::<
                    u8,
                >::empty());
                assert(out@ =~= out0 + out@.subrange(out0.len() as int, out@.len() as int));
                assert(self.content() =~= self.stream.available());
                assert(c0 =~= old(self).stream.available());
            }
            r
        }
    }

    /// Appends to `writer` every body byte at hand; returns how reading
    /// stands then.
    pub fn copy_available(&mut self, writer: &mut Vec<u8>) -> (r: ReadStatus)
        requires
            old(self).wf(),
        ensures
            final(self).wf(),
            final(writer)@ == old(writer)@ + old(self).content(),
            final(self).content().len() == 0,
            r == old(self).outcome(),
            final(self).outcome() == old(self).outcome(),
            final(self).stalled(),
    {
        let ghost w0 = writer@;
        let ghost c0 = self.content();
        while !self.is_stalled()
            invariant
                self.wf(),
                writer@ + self.content() == w0 + c0,
                self.outcome() == old(self).outcome(),
            decreases self.remaining(),
        {
            let ghost w1 = writer@;
            self.read(writer, COPY_CHUNK);
            proof {
                let d = writer@.subrange(w1.len() as int, writer@.len() as int);
                assert(writer@ + self.content() =~= w1 + (d + self.content()));
            }
        }
        let r = self.read(writer, COPY_CHUNK);
        proof {
            assert(self.content() =~= Seq::<u8>::empty());
            assert(writer@ + self.content() =~= writer@);
        }
        r
    }

    /// Hands the stream bytes that the transport delivered.
    pub fn supply(&mut self, bytes: Vec<u8>)
        requires
            old(self).wf(),
            old(self).waiting(),
        ensures
            final(self).wf(),
            final(self).content() == old(self).content() + run(old(self).settled(), bytes@).1,
            final(self).outcome() == outcome_of(run(old(self).settled(), bytes@).0, true),
    {
        let ghost c0 = self.content();
        self.stream.supply(bytes);
        proof {
            assert(self.buffer@.subrange(self.pos as int, self.buffer@.len() as int) =~= Seq::<
                u8,
            >::empty());
            assert(self.content() =~= c0 + run(old(self).settled(), bytes@).1);
        }
    }

    /// Records that the transport has ended.
    pub fn close_source(&mut self)
        requires
            old(self).wf(),
        ensures
            final(self).wf(),
            final(self).content() == old(self).content(),
            final(self).outcome() == outcome_of(old(self).settled(), false),
    {
        self.stream.close_source();
    }
}

/// Whatever way a body was made, its peek buffer holds the first bytes of
/// the body, as many as it can; and a body that says its peek buffer is
/// complete has no byte beyond it and has ended.
pub proof fn lemma_peek_is_prefix(d: Data)
    requires
        d.wf(),
    ensures
        d.peek_view() == peek_of(d.content()),
        d.complete() ==> d.peek_view() == d.content() && d.outcome() == ReadStatus::End,
{
    if d.peek_view().len() < PEEK_BYTES {
        assert(d.content() =~= d.peek_view());
    } else {
        assert(d.content().take(PEEK_BYTES as int) =~= d.peek_view());
    }
    if d.complete() {
        assert(d.content() =~= d.peek_view());
    }
}

/// A body that has ended with at most `PEEK_BYTES` bytes shows all of them
/// in its peek buffer, and one that ended with fewer says it is complete.
pub proof fn lemma_short_body(d: Data)
    requires
        d.wf(),
        d.outcome() == ReadStatus::End,
        d.content().len() <= PEEK_BYTES,
    ensures
        d.peek_view() == d.content(),
        d.content().len() < PEEK_BYTES ==> d.complete(),
{
    lemma_peek_is_prefix(d);
}

/// A body longer than the peek buffer shows exactly its first `PEEK_BYTES`
/// bytes and does not say it is complete.
pub proof fn lemma_long_body(d: Data)
    requires
        d.wf(),
        d.content().len() > PEEK_BYTES,
    ensures
        d.peek_view() == d.content().take(PEEK_BYTES as int),
        !d.complete(),
{
    lemma_peek_is_prefix(d);
}

} // verus!
