use vstd::prelude::*;

verus! {

/// Where a chunked body's decoder stands in the chunked transfer coding.
#[derive(Clone, Copy, Debug, PartialEq, Eq, Structural)]
pub enum Chunk {
    /// Reading the hexadecimal size of the next chunk; `digits` records
    /// whether at least one digit has been seen.
    Size { size: u64, digits: bool },
    /// Skipping a chunk extension up to the end of the size line.
    Ext { size: u64 },
    /// The size line's CR was seen; its LF is expected.
    SizeLf { size: u64 },
    /// Inside a chunk's payload with `left` (nonzero) bytes still to come.
    Payload { left: u64 },
    /// The CR that ends a payload is expected.
    PayloadCr,
    /// The LF that ends a payload is expected.
    PayloadLf,
    /// At the start of a trailer line, after the last (zero-size) chunk.
    Trailer,
    /// Inside a trailer field line.
    TrailerLine,
    /// A trailer field line's CR was seen; its LF is expected.
    TrailerLf,
    /// The CR of the final empty line was seen; its LF is expected.
    EndLf,
    /// The body ended with the final empty line.
    Done,
    /// The bytes broke the chunked coding.
    Invalid,
}

/// How the end of a body is found.
#[derive(Clone, Copy, Debug, PartialEq, Eq, Structural)]
pub enum Framing {
    /// A fixed number of bytes still to come.
    Sized(u64),
    /// The chunked transfer coding.
    Chunked(Chunk),
    /// Everything until the source ends.
    Eof,
    /// No bytes at all.
    Empty,
}

pub open spec fn hex_value(b: u8) -> Option<u64> {
    if 0x30 <= b && b <= 0x39 {
        Some((b - 0x30) as u64)
    } else if 0x61 <= b && b <= 0x66 {
        Some((b - 0x61 + 10) as u64)
    } else if 0x41 <= b && b <= 0x46 {
        Some((b - 0x41 + 10) as u64)
    } else {
        None
    }
}

/// One byte of wire input through the chunked decoder: the next state, and
/// the payload byte it yields, if any.
pub open spec fn chunk_step(c: Chunk, b: u8) -> (Chunk, Option<u8>) {
    match c {
        Chunk::Size { size, digits } => match hex_value(b) {
            Some(v) => if size <= 0x0fff_ffff_ffff_ffff {
                (Chunk::Size { size: (size * 16 + v) as u64, digits: true }, None)
            } else {
                (Chunk::Invalid, None)
            },
            None => if digits && b == 0x3b {
                (Chunk::Ext { size }, None)
            } else if digits && b == 0x0d {
                (Chunk::SizeLf { size }, None)
            } else {
                (Chunk::Invalid, None)
            },
        },
        Chunk::Ext { size } => if b == 0x0d {
            (Chunk::SizeLf { size }, None)
        } else {
            (Chunk::Ext { size }, None)
        },
        Chunk::SizeLf { size } => if b != 0x0a {
            (Chunk::Invalid, None)
        } else if size == 0 {
            (Chunk::Trailer, None)
        } else {
            (Chunk::Payload { left: size }, None)
        },
        Chunk::Payload { left } => if left <= 1 {
            (Chunk::PayloadCr, Some(b))
        } else {
            (Chunk::Payload { left: (left - 1) as u64 }, Some(b))
        },
        Chunk::PayloadCr => if b == 0x0d {
            (Chunk::PayloadLf, None)
        } else {
            (Chunk::Invalid, None)
        },
        Chunk::PayloadLf => if b == 0x0a {
            (Chunk::Size { size: 0, digits: false }, None)
        } else {
            (Chunk::Invalid, None)
        },
        Chunk::Trailer => if b == 0x0d {
            (Chunk::EndLf, None)
        } else {
            (Chunk::TrailerLine, None)
        },
        Chunk::TrailerLine => if b == 0x0d {
            (Chunk::TrailerLf, None)
        } else {
            (Chunk::TrailerLine, None)
        },
        Chunk::TrailerLf => if b == 0x0a {
            (Chunk::Trailer, None)
        } else {
            (Chunk::Invalid, None)
        },
        Chunk::EndLf => if b == 0x0a {
            (Chunk::Done, None)
        } else {
            (Chunk::Invalid, None)
        },
        Chunk::Done => (Chunk::Done, None),
        Chunk::Invalid => (Chunk::Invalid, None),
    }
}

/// One byte of source input through a framing: the next framing, and the
/// body byte it yields, if any. A framing that is done takes bytes without
/// change and yields nothing.
pub open spec fn step(f: Framing, b: u8) -> (Framing, Option<u8>) {
    match f {
        Framing::Sized(n) => if n == 0 {
            (f, None)
        } else {
            (Framing::Sized((n - 1) as u64), Some(b))
        },
        Framing::Chunked(c) => {
            let (d, o) = chunk_step(c, b);
            (Framing::Chunked(d), o)
        },
        Framing::Eof => (f, Some(b)),
        Framing::Empty => (f, None),
    }
}

/// The framing has seen the end of its body: it takes no more bytes.
pub open spec fn done(f: Framing) -> bool {
    match f {
        Framing::Sized(n) => n == 0,
        Framing::Chunked(c) => c == Chunk::Done || c == Chunk::Invalid,
        Framing::Eof => false,
        Framing::Empty => true,
    }
}

/// The framing has found the source's bytes malformed.
pub open spec fn malformed(f: Framing) -> bool {
    f == Framing::Chunked(Chunk::Invalid)
}

pub open spec fn emit(o: Option<u8>) -> Seq<u8> {
    match o {
        Some(b) => seq![b],
        None => Seq::empty(),
    }
}

/// The framing after the source bytes `s`, and the body bytes they yield.
pub open spec fn run(f: Framing, s: Seq<u8>) -> (Framing, Seq<u8>)
    decreases s.len(),
{
    if s.len() == 0 {
        (f, Seq::empty())
    } else {
        let prev = run(f, s.drop_last());
        let next = step(prev.0, s.last());
        (next.0, prev.1 + emit(next.1))
    }
}

/// Running over two pieces of input one after the other is running over
/// their concatenation.
pub proof fn lemma_run_append(f: Framing, a: Seq<u8>, b: Seq<u8>)
    ensures
        run(f, a + b).0 == run(run(f, a).0, b).0,
        run(f, a + b).1 == run(f, a).1 + run(run(f, a).0, b).1,
    decreases b.len(),
{
    if b.len() == 0 {
        assert(a + b =~= a);
        assert(run(f, a).1 + Seq::<u8>::empty() =~= run(f, a).1);
    } else {
        assert((a + b).drop_last() =~= a + b.drop_last());
        assert((a + b).last() == b.last());
        lemma_run_append(f, a, b.drop_last());
        let mid = run(run(f, a).0, b.drop_last());
        assert(run(f, a).1 + mid.1 + emit(step(mid.0, b.last()).1) =~= run(f, a).1 + (mid.1
            + emit(step(mid.0, b.last()).1)));
    }
}

/// A framing that is done yields nothing more and stays as it is.
pub proof fn lemma_run_done(f: Framing, s: Seq<u8>)
    requires
        done(f),
    ensures
        run(f, s).0 == f,
        run(f, s).1 == Seq::<u8>::empty(),
    decreases s.len(),
{
    if s.len() > 0 {
        lemma_run_done(f, s.drop_last());
        assert(Seq::<u8>::empty() + Seq::<u8>::empty() =~= Seq::<u8>::empty());
    }
}

/// A sized framing's count of bytes still to come never grows, and drops by
/// one for each body byte yielded.
pub proof fn lemma_sized_count_shrinks(n: u64, s: Seq<u8>)
    ensures
        run(Framing::Sized(n), s).0 matches Framing::Sized(m) && m + run(Framing::Sized(n), s).1.len()
            == n,
    decreases s.len(),
{
    if s.len() > 0 {
        lemma_sized_count_shrinks(n, s.drop_last());
    }
}

/// A sized framing over at least as many bytes as it counts yields exactly
/// the first of them and is done.
pub proof fn lemma_run_sized(n: u64, s: Seq<u8>)
    requires
        n <= s.len(),
    ensures
        run(Framing::Sized(n), s).0 == Framing::Sized(0),
        run(Framing::Sized(n), s).1 == s.take(n as int),
    decreases s.len(),
{
    if s.len() == n {
        lemma_run_sized_exact(n, s);
    } else {
        lemma_run_sized(n, s.drop_last());
        assert(s.drop_last().take(n as int) =~= s.take(n as int));
        assert(s.take(n as int) + Seq::<u8>::empty() =~= s.take(n as int));
    }
}

proof fn lemma_run_sized_exact(n: u64, s: Seq<u8>)
    requires
        n == s.len(),
    ensures
        run(Framing::Sized(n), s).0 == Framing::Sized(0),
        run(Framing::Sized(n), s).1 == s,
    decreases s.len(),
{
    if s.len() > 0 {
        let t = s.subrange(1, s.len() as int);
        let head = seq![s[0]];
        assert(s =~= head + t);
        lemma_run_append(Framing::Sized(n), head, t);
        assert(head.drop_last() =~= Seq::<u8>::empty());
        assert(run(Framing::Sized(n), head.drop_last()) == (Framing::Sized(n), Seq::<u8>::empty()));
        assert(Seq::<u8>::empty() + seq![s[0]] =~= head);
        assert(run(Framing::Sized(n), head).0 == Framing::Sized((n - 1) as u64));
        assert(run(Framing::Sized(n), head).1 =~= head);
        lemma_run_sized_exact((n - 1) as u64, t);
    } else {
        assert(s =~= Seq::<u8>::empty());
    }
}

fn hex_digit(b: u8) -> (r: Option<u64>)
    ensures
        r == hex_value(b),
{
    if 0x30 <= b && b <= 0x39 {
        Some((b - 0x30) as u64)
    } else if 0x61 <= b && b <= 0x66 {
        Some((b - 0x61 + 10) as u64)
    } else if 0x41 <= b && b <= 0x46 {
        Some((b - 0x41 + 10) as u64)
    } else {
        None
    }
}

impl Chunk {
    /// The decoder at the start of a chunked body.
    pub fn start() -> (r: Chunk)
        ensures
            r == (Chunk::Size { size: 0, digits: false }),
    {
        Chunk::Size { size: 0, digits: false }
    }

    /// Takes one byte of wire input and returns the payload byte it carries,
    /// if any.
    pub fn advance(&mut self, b: u8) -> (r: Option<u8>)
        ensures
            (*final(self), r) == chunk_step(*old(self), b),
    {
        let (next, out) = match *self {
            Chunk::Size { size, digits } => match hex_digit(b) {
                Some(v) => if size <= 0x0fff_ffff_ffff_ffff {
                    (Chunk::Size { size: size * 16 + v, digits: true }, None)
                } else {
                    (Chunk::Invalid, None)
                },
                None => if digits && b == 0x3b {
                    (Chunk::Ext { size }, None)
                } else if digits && b == 0x0d {
                    (Chunk::SizeLf { size }, None)
                } else {
                    (Chunk::Invalid, None)
                },
            },
            Chunk::Ext { size } => if b == 0x0d {
                (Chunk::SizeLf { size }, None)
            } else {
                (Chunk::Ext { size }, None)
            },
            Chunk::SizeLf { size } => if b != 0x0a {
                (Chunk::Invalid, None)
            } else if size == 0 {
                (Chunk::Trailer, None)
            } else {
                (Chunk::Payload { left: size }, None)
            },
            Chunk::Payload { left } => if left <= 1 {
                (Chunk::PayloadCr, Some(b))
            } else {
                (Chunk::Payload { left: left - 1 }, Some(b))
            },
            Chunk::PayloadCr => if b == 0x0d {
                (Chunk::PayloadLf, None)
            } else {
                (Chunk::Invalid, None)
            },
            Chunk::PayloadLf => if b == 0x0a {
                (Chunk::Size { size: 0, digits: false }, None)
            } else {
                (Chunk::Invalid, None)
            },
            Chunk::Trailer => if b == 0x0d {
                (Chunk::EndLf, None)
            } else {
                (Chunk::TrailerLine, None)
            },
            Chunk::TrailerLine => if b == 0x0d {
                (Chunk::TrailerLf, None)
            } else {
                (Chunk::TrailerLine, None)
            },
            Chunk::TrailerLf => if b == 0x0a {
                (Chunk::Trailer, None)
            } else {
                (Chunk::Invalid, None)
            },
            Chunk::EndLf => if b == 0x0a {
                (Chunk::Done, None)
            } else {
                (Chunk::Invalid, None)
            },
            Chunk::Done => (Chunk::Done, None),
            Chunk::Invalid => (Chunk::Invalid, None),
        };
        *self = next;
        out
    }
}

impl Framing {
    /// Takes one byte of source input and returns the body byte it carries,
    /// if any.
    pub fn advance(&mut self, b: u8) -> (r: Option<u8>)
        ensures
            (*final(self), r) == step(*old(self), b),
    {
        match self {
            Framing::Sized(n) => if *n == 0 {
                None
            } else {
                *n = *n - 1;
                Some(b)
            },
            Framing::Chunked(c) => c.advance(b),
            Framing::Eof => Some(b),
            Framing::Empty => None,
        }
    }

    pub fn is_done(&self) -> (r: bool)
        ensures
            r == done(*self),
    {
        match self {
            Framing::Sized(n) => *n == 0,
            Framing::Chunked(c) => match c {
                Chunk::Done | Chunk::Invalid => true,
                _ => false,
            },
            Framing::Eof => false,
            Framing::Empty => true,
        }
    }

    pub fn is_malformed(&self) -> (r: bool)
        ensures
            r == malformed(*self),
    {
        match self {
            Framing::Chunked(Chunk::Invalid) => true,
            _ => false,
        }
    }

    /// Decodes source bytes `input[start..end]` into `out` until the framing
    /// is done, the input runs out or `limit` body bytes have been produced.
    /// Returns how many source bytes were taken.
    pub fn decode(
        &mut self,
        input: &Vec<u8>,
        start: usize,
        end: usize,
        limit: usize,
        out: &mut Vec<u8>,
    ) -> (used: usize)
        requires
            start <= end <= input.len(),
        ensures
            start + used <= end,
            *final(self) == run(*old(self), input@.subrange(start as int, start + used)).0,
            final(out)@ == old(out)@ + run(*old(self), input@.subrange(start as int, start + used)).1,
            final(out)@.len() <= old(out)@.len() + limit,
            start + used == end || done(*final(self)) || final(out)@.len() == old(out)@.len() + limit,
            !done(*old(self)) && start < end && limit > 0 ==> used > 0,
    {
        let ghost f0 = *self;
        let ghost out0 = out@;
        let mut i: usize = start;
        let mut produced: usize = 0;
        assert(input@.subrange(start as int, start as int) =~= Seq::<u8>::empty());
        assert(out0 + Seq::<u8>::empty() =~= out0);
        while i < end && produced < limit && !self.is_done()
            invariant
                start <= i <= end,
                end <= input.len(),
                produced <= limit,
                out@.len() == out0.len() + produced,
                *self == run(f0, input@.subrange(start as int, i as int)).0,
                out@ == out0 + run(f0, input@.subrange(start as int, i as int)).1,
            decreases end - i,
        {
            let b = input[i];
            let ghost prev = input@.subrange(start as int, i as int);
            let o = self.advance(b);
            match o {
                Some(c) => {
                    out.push(c);
                    produced = produced + 1;
                },
                None => {},
            }
            proof {
                let cur = input@.subrange(start as int, i + 1);
                assert(cur.drop_last() =~= prev);
                assert(cur.last() == b);
                assert(out@ =~= out0 + run(f0, cur).1);
            }
            i = i + 1;
        }
        i - start
    }
}

} // verus!
