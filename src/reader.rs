use vstd::prelude::*;

use crate::framing::{done, lemma_run_append, lemma_run_done, malformed, run, Framing};

verus! {

/// What a read reports.
#[derive(Clone, Copy, Debug, PartialEq, Eq, Structural)]
pub enum ReadStatus {
    /// Source bytes were taken, and any body bytes they carried handed out.
    Progress,
    /// The body has ended.
    End,
    /// Every byte at hand is taken; the transport must deliver more.
    NeedSource,
    /// The source ended before the framing found the end of the body.
    Truncated,
    /// The source's bytes broke the framing.
    Malformed,
}

/// How reading stands once every byte at hand has gone through a framing
/// that ended in `settled`, over a source that may (`live`) or may not
/// deliver more.
pub open spec fn outcome_of(settled: Framing, live: bool) -> ReadStatus {
    if malformed(settled) {
        ReadStatus::Malformed
    } else if done(settled) {
        ReadStatus::End
    } else if live {
        ReadStatus::NeedSource
    } else if settled == Framing::Eof {
        ReadStatus::End
    } else {
        ReadStatus::Truncated
    }
}

/// A framed reader over a continuation source: the source bytes at hand
/// (first what the header parser left over, later what the transport
/// delivers) go through the framing; while `live`, the transport may deliver
/// more once those are taken.
pub struct BodyReader {
    framing: Framing,
    pending: Vec<u8>,
    pos: usize,
    end: usize,
    live: bool,
}

impl BodyReader {
    pub closed spec fn wf(&self) -> bool {
        self.pos <= self.end <= self.pending@.len()
    }

    /// The source bytes at hand that are not taken yet.
    pub closed spec fn rest(&self) -> Seq<u8> {
        self.pending@.subrange(self.pos as int, self.end as int)
    }

    pub closed spec fn framing(&self) -> Framing {
        self.framing
    }

    pub closed spec fn live(&self) -> bool {
        self.live
    }

    /// The body bytes that the bytes at hand carry.
    pub open spec fn available(&self) -> Seq<u8> {
        run(self.framing(), self.rest()).1
    }

    /// The framing once every byte at hand has gone through it.
    pub open spec fn settled(&self) -> Framing {
        run(self.framing(), self.rest()).0
    }

    /// How reading stands once every body byte at hand is handed out.
    pub open spec fn outcome(&self) -> ReadStatus {
        outcome_of(self.settled(), self.live())
    }

    /// A read hands out nothing more before the transport acts.
    pub open spec fn stalled(&self) -> bool {
        done(self.framing()) || self.rest().len() == 0
    }

    /// A reader whose source is `bytes[start..end]`, then, where `live`, the
    /// transport.
    pub fn new(framing: Framing, bytes: Vec<u8>, start: usize, end: usize, live: bool) -> (r:
        BodyReader)
        requires
            start <= end <= bytes.len(),
        ensures
            r.wf(),
            r.framing() == framing,
            r.rest() == bytes@.subrange(start as int, end as int),
            r.live() == live,
    {
        BodyReader { framing, pending: bytes, pos: start, end, live }
    }

    /// Every byte at hand is taken.
    pub fn drained(&self) -> (r: bool)
        requires
            self.wf(),
        ensures
            r == (self.rest().len() == 0),
    {
        self.pos == self.end
    }

    pub fn is_live(&self) -> (r: bool)
        ensures
            r == self.live(),
    {
        self.live
    }

    pub fn is_stalled(&self) -> (r: bool)
        requires
            self.wf(),
        ensures
            r == self.stalled(),
    {
        self.framing.is_done() || self.pos == self.end
    }

    /// Every byte at hand is taken and the transport must deliver more.
    pub fn needs_source(&self) -> (r: bool)
        requires
            self.wf(),
        ensures
            r == (self.rest().len() == 0 && self.outcome() == ReadStatus::NeedSource),
    {
        proof {
            if self.pos == self.end {
                assert(self.rest() =~= Seq::<u8>::empty());
            }
        }
        self.pos == self.end && self.live && !self.framing.is_done()
    }

    /// Reads body bytes into `out`, at most `max` of them.
    pub fn read(&mut self, out: &mut Vec<u8>, max: usize) -> (r: ReadStatus)
        requires
            old(self).wf(),
        ensures
            final(self).wf(),
            final(self).live() == old(self).live(),
            final(self).settled() == old(self).settled(),
            final(self).outcome() == old(self).outcome(),
            old(out)@.len() <= final(out)@.len() <= old(out)@.len() + max,
            final(out)@.subrange(0, old(out)@.len() as int) == old(out)@,
            final(out)@.subrange(old(out)@.len() as int, final(out)@.len() as int)
                + final(self).available() == old(self).available(),
            (r == ReadStatus::Progress) == !old(self).stalled(),
            r != ReadStatus::Progress ==> r == old(self).outcome() && *final(self) == *old(self)
                && final(out)@ == old(out)@ && old(self).available().len() == 0,
            r == ReadStatus::Progress && max > 0 ==> final(self).rest().len() < old(self).rest().len(),
            r == ReadStatus::Progress ==> final(self).rest().len() <= old(self).rest().len(),
            r == ReadStatus::NeedSource ==> old(self).rest().len() == 0,
    {
        let ghost out0 = out@;
        if self.framing.is_done() {
            proof {
                lemma_run_done(self.framing, self.rest());
            }
            if self.framing.is_malformed() {
                ReadStatus::Malformed
            } else {
                ReadStatus::End
            }
        } else if self.pos == self.end {
            proof {
                assert(self.rest() =~= Seq::<u8>::empty());
            }
            if self.live {
                ReadStatus::NeedSource
            } else if self.framing == Framing::Eof {
                ReadStatus::End
            } else {
                ReadStatus::Truncated
            }
        } else {
            let ghost f0 = self.framing;
            let ghost rest0 = self.rest();
            let used = self.framing.decode(&self.pending, self.pos, self.end, max, out);
            let ghost taken = self.pending@.subrange(self.pos as int, self.pos + used);
            self.pos = self.pos + used;
            proof {
                assert(rest0 =~= taken + self.rest());
                lemma_run_append(f0, taken, self.rest());
                assert(out@.subrange(0, out0.len() as int) =~= out0);
                assert(out@.subrange(out0.len() as int, out@.len() as int) =~= run(f0, taken).1);
            }
            ReadStatus::Progress
        }
    }

    /// Hands the reader bytes that the transport delivered.
    pub fn supply(&mut self, bytes: Vec<u8>)
        requires
            old(self).wf(),
            old(self).rest().len() == 0,
        ensures
            final(self).wf(),
            final(self).framing() == old(self).framing(),
            final(self).live() == old(self).live(),
            final(self).rest() == bytes@,
            final(self).available() == old(self).available() + run(old(self).settled(), bytes@).1,
            final(self).settled() == run(old(self).settled(), bytes@).0,
    {
        proof {
            assert(old(self).rest() =~= Seq::<u8>::empty());
            assert(Seq::<u8>::empty() + run(self.framing, bytes@).1 =~= run(self.framing, bytes@).1);
        }
        let n = bytes.len();
        self.pending = bytes;
        self.pos = 0;
        self.end = n;
        proof {
            assert(self.rest() =~= self.pending@);
        }
    }

    /// Records that the transport has ended: no byte will follow those at hand.
    pub fn close_source(&mut self)
        requires
            old(self).wf(),
        ensures
            final(self).wf(),
            final(self).framing() == old(self).framing(),
            final(self).rest() == old(self).rest(),
            !final(self).live(),
    {
        self.live = false;
    }
}

} // verus!
