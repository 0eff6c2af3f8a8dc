//! The body of a frame, read from its source piece by piece.

use vstd::prelude::*;
use vstd::slice::slice_subrange;
use crate::io::{least, line_span, split_step, step_consumed, step_found, step_yield, MemReader};
use crate::scan::{lemma_prefix_len, lemma_prefix_len_is, lemma_prefix_len_skip, prefix_len};
use crate::wire::NULL;

verus! {

/// The most bytes that are read at a time when a body is discarded.
pub const DISCARD_CHUNK: usize = 4096;

/// A reader of the body of one frame.  It owns the source while the body is
/// read, so nothing else can read from the source in between; `close` gives
/// the source back.
///
/// A body of declared length hands out that many bytes and then ends.  A
/// body without one ends before the first NUL, which it consumes.
#[derive(Debug)]
pub struct Body {
    inner: MemReader,
    limit: u64,
    bounded: bool,
    done: bool,
}

impl Body {
    /// The source.
    pub closed spec fn source(&self) -> MemReader {
        self.inner
    }

    /// The number of bytes that a body of declared length has yet to hand
    /// out.
    pub closed spec fn limit(&self) -> nat {
        self.limit as nat
    }

    /// Whether the body has a declared length.
    pub closed spec fn bounded(&self) -> bool {
        self.bounded
    }

    /// Whether the NUL that ends a body without declared length has been
    /// consumed.
    pub closed spec fn done(&self) -> bool {
        self.done
    }

    /// A body of declared length `length`, none for 0, of which nothing has
    /// been read, on a source whose remaining bytes are `rest`.
    pub open spec fn fresh(&self, length: u64, rest: Seq<u8>) -> bool {
        &&& self.source().remaining() == rest
        &&& self.limit() == length
        &&& self.bounded() == (length > 0)
        &&& !self.done()
    }

    /// The body has handed out all its bytes: the declared length is used
    /// up, or the NUL has been consumed.
    pub open spec fn finished(&self) -> bool {
        if self.bounded() {
            self.limit() == 0
        } else {
            self.done()
        }
    }

    /// The bytes of the body that have not been read.
    pub open spec fn pending(&self) -> Seq<u8> {
        let rest = self.source().remaining();
        if self.finished() {
            Seq::empty()
        } else if self.bounded() {
            rest.take(least(self.limit(), rest.len()) as int)
        } else {
            rest.take(prefix_len(rest, NULL) as int)
        }
    }

    /// The number of bytes that reading the body to its end takes from the
    /// source.
    pub open spec fn span(&self) -> nat {
        let rest = self.source().remaining();
        if self.finished() {
            0
        } else if self.bounded() {
            least(self.limit(), rest.len())
        } else {
            line_span(rest, NULL)
        }
    }

    /// The number of bytes that closing the body takes from the source:
    /// those of the body and, after a body of declared length, the NUL that
    /// ends the frame if it is the next byte.
    pub open spec fn close_span(&self) -> nat {
        let rest = self.source().remaining();
        let n = self.span();
        if self.bounded() && n < rest.len() && rest[n as int] == NULL {
            n + 1
        } else {
            n
        }
    }

    /// A body without declared length: it ends before the first NUL.
    pub fn new(reader: MemReader) -> (body: Body)
        ensures
            body.fresh(0, reader.remaining()),
            body.source() == reader,
    {
        Body { inner: reader, limit: 0, bounded: false, done: false }
    }

    /// A body of `content_length` bytes.  A length of 0 declares nothing:
    /// the body then ends before the first NUL.
    pub fn with_length(reader: MemReader, content_length: u64) -> (body: Body)
        ensures
            body.fresh(content_length, reader.remaining()),
            body.source() == reader,
    {
        Body { inner: reader, limit: content_length, bounded: content_length > 0, done: false }
    }

    /// Reads once: appends the next bytes of the body to `out`, `max` at
    /// most and no more than the source shows, and returns their number; 0
    /// at the end of the body.
    pub fn read(&mut self, out: &mut Vec<u8>, max: usize) -> (n: usize)
        ensures
            final(self).bounded() == old(self).bounded(),
            old(self).finished() ==> {
                &&& n == 0
                &&& *final(self) == *old(self)
                &&& final(out)@ == old(out)@
            },
            !old(self).finished() && old(self).bounded() ==> {
                let avail = old(self).source().buffered();
                let k = least(least(avail.len(), max as nat), old(self).limit());
                &&& n == k
                &&& final(out)@ == old(out)@ + avail.take(k as int)
                &&& final(self).source().advanced(&old(self).source(), k)
                &&& final(self).limit() == old(self).limit() - k
                &&& final(self).done() == old(self).done()
            },
            !old(self).finished() && !old(self).bounded() ==> {
                let avail = old(self).source().buffered();
                &&& n == step_yield(avail, NULL, max as nat)
                &&& final(out)@ == old(out)@ + avail.take(step_yield(avail, NULL, max as nat) as int)
                &&& final(self).source().advanced(
                    &old(self).source(),
                    step_consumed(avail, NULL, max as nat),
                )
                &&& final(self).done() == step_found(avail, NULL, max as nat)
                &&& final(self).limit() == old(self).limit()
            },
    {
        if self.bounded {
            if self.limit == 0 {
                return 0;
            }
            let avail = self.inner.fill_buf();
            let mut n: usize = avail.len();
            if max < n {
                n = max;
            }
            if self.limit < n as u64 {
                n = self.limit as usize;
            }
            let part = slice_subrange(avail, 0, n);
            out.extend_from_slice(part);
            assert(part@ =~= avail@.take(n as int));
            self.inner.consume(n);
            self.limit = self.limit - n as u64;
            n
        } else {
            if self.done {
                return 0;
            }
            let avail = self.inner.fill_buf();
            let step = split_step(avail, NULL, max);
            let part = slice_subrange(avail, 0, step.yielded);
            out.extend_from_slice(part);
            assert(part@ =~= avail@.take(step.yielded as int));
            self.inner.consume(step.consumed);
            self.done = step.found;
            step.yielded
        }
    }

    /// Reads a body of declared length to its end.
    fn read_counted(&mut self, out: &mut Vec<u8>) -> (n: usize)
        requires
            old(self).bounded(),
        ensures
            n == old(self).pending().len(),
            final(out)@ == old(out)@ + old(self).pending(),
            final(self).source().advanced(&old(self).source(), old(self).span()),
            final(self).bounded(),
            final(self).pending().len() == 0,
            final(self).span() == 0,
            final(self).limit() == old(self).limit() - old(self).span(),
            final(self).done() == old(self).done(),
    {
        let ghost rest = self.inner.remaining();
        let ghost start = out@;
        let ghost limit = self.limit();
        let ghost goal = least(limit, rest.len());
        let mut total: usize = 0;
        proof {
            assert(start + rest.take(0) =~= start);
            assert(rest.skip(0) =~= rest);
        }
        loop
            invariant
                rest == old(self).source().remaining(),
                start == old(out)@,
                limit == old(self).limit(),
                goal == least(limit, rest.len()),
                self.bounded(),
                self.done() == old(self).done(),
                self.source().chunk_size() == old(self).source().chunk_size(),
                out@ == start + rest.take(total as int),
                total <= goal,
                self.source().remaining() == rest.skip(total as int),
                self.limit() == limit - total,
            ensures
                total == goal,
                out@ == start + rest.take(goal as int),
                self.source().advanced(&old(self).source(), goal),
                self.limit() == limit - goal,
                self.bounded(),
                self.done() == old(self).done(),
            decreases self.limit(),
        {
            let ghost before = *self;
            let ghost avail = self.inner.buffered();
            let ghost c = total as int;
            proof {
                before.source().lemma_shows_bytes();
            }
            let n = self.read(out, usize::MAX);
            proof {
                if !before.finished() {
                    assert(rest.take(c) + avail.take(n as int) =~= rest.take(c + n));
                    assert(rest.skip(c).skip(n as int) =~= rest.skip(c + n));
                }
            }
            if n == 0 {
                break;
            }
            let len = out.len();
            assert(len == start.len() + total + n);
            total = total + n;
        }
        proof {
            if old(self).finished() {
                assert(rest.take(0) =~= old(self).pending());
            }
            if self.limit() > 0 {
                assert(self.source().remaining().len() == 0);
                assert(self.pending() =~= Seq::<u8>::empty());
            }
        }
        total
    }

    /// Reads a body without declared length to its end.
    fn read_scanned(&mut self, out: &mut Vec<u8>) -> (n: usize)
        requires
            !old(self).bounded(),
        ensures
            n == old(self).pending().len(),
            final(out)@ == old(out)@ + old(self).pending(),
            final(self).source().advanced(&old(self).source(), old(self).span()),
            !final(self).bounded(),
            final(self).pending().len() == 0,
            final(self).span() == 0,
            final(self).limit() == old(self).limit(),
            final(self).done() == (old(self).done() || prefix_len(
                old(self).source().remaining(),
                NULL,
            ) < old(self).source().remaining().len()),
    {
        if self.done {
            assert(self.inner.remaining().skip(0) =~= self.inner.remaining());
            return 0;
        }
        let ghost rest = self.inner.remaining();
        let ghost k = prefix_len(rest, NULL);
        let ghost start = out@;
        let mut total: usize = 0;
        proof {
            lemma_prefix_len(rest, NULL);
            assert(start + rest.take(0) =~= start);
            assert(rest.skip(0) =~= rest);
        }
        loop
            invariant
                rest == old(self).source().remaining(),
                k == prefix_len(rest, NULL),
                start == old(out)@,
                !self.bounded(),
                !old(self).done(),
                self.limit() == old(self).limit(),
                self.source().chunk_size() == old(self).source().chunk_size(),
                k <= rest.len(),
                forall|i: int| 0 <= i < k ==> rest[i] != NULL,
                k < rest.len() ==> rest[k as int] == NULL,
                out@ == start + rest.take(total as int),
                total <= k,
                !self.done() ==> self.source().remaining() == rest.skip(total as int),
                self.done() ==> total == k && k < rest.len() && self.source().remaining()
                    == rest.skip(k as int + 1),
            ensures
                total == k,
                out@ == start + rest.take(k as int),
                self.source().advanced(&old(self).source(), line_span(rest, NULL)),
                !self.bounded(),
                self.limit() == old(self).limit(),
                self.done() || self.source().remaining().len() == 0,
                self.done() == (k < rest.len()),
            decreases self.source().remaining().len() + if self.done() { 0nat } else { 1nat },
        {
            let ghost before = *self;
            let ghost avail = self.inner.buffered();
            let ghost c = total as int;
            proof {
                before.source().lemma_shows_bytes();
                lemma_prefix_len(avail, NULL);
                if !before.done() {
                    assert forall|i: int| 0 <= i < avail.len() implies avail[i] == rest[c + i] by {}
                }
            }
            let n = self.read(out, usize::MAX);
            proof {
                if !before.done() {
                    let y = step_yield(avail, NULL, usize::MAX as nat);
                    let m = step_consumed(avail, NULL, usize::MAX as nat);
                    assert(rest.take(c) + avail.take(y as int) =~= rest.take(c + y));
                    assert(rest.skip(c).skip(m as int) =~= rest.skip(c + m));
                    if step_found(avail, NULL, usize::MAX as nat) {
                        assert(rest[c + y] == NULL);
                        if k < c + y {
                            assert(avail[k - c] == rest[k as int]);
                        }
                        assert(c + y == k);
                    } else {
                        if c + y > k {
                            assert(avail[k - c] == rest[k as int]);
                        }
                    }
                }
            }
            if n == 0 {
                proof {
                    if !before.done() && !self.done() {
                        assert(avail.len() == 0);
                        assert(c == rest.len());
                    }
                }
                break;
            }
            let len = out.len();
            assert(len == start.len() + total + n);
            total = total + n;
        }
        proof {
            if !self.done() {
                assert(self.pending() =~= Seq::<u8>::empty());
                lemma_prefix_len(self.source().remaining(), NULL);
            }
        }
        total
    }

    /// Reads the body to its end: appends to `out` all its bytes that have
    /// not been read, and returns their number.  A body of declared length
    /// never hands out more than that length, whatever follows in the
    /// source; a body without one hands out what stands before the first
    /// NUL and leaves what stands after it.
    pub fn read_to_end(&mut self, out: &mut Vec<u8>) -> (n: usize)
        ensures
            n == old(self).pending().len(),
            final(out)@ == old(out)@ + old(self).pending(),
            final(self).source().advanced(&old(self).source(), old(self).span()),
            final(self).bounded() == old(self).bounded(),
            final(self).pending().len() == 0,
            final(self).span() == 0,
            final(self).limit() == if old(self).bounded() {
                old(self).limit() - old(self).span()
            } else {
                old(self).limit() as int
            },
            final(self).done() == if old(self).bounded() {
                old(self).done()
            } else {
                old(self).done() || prefix_len(old(self).source().remaining(), NULL) < old(
                    self,
                ).source().remaining().len()
            },
    {
        if self.bounded {
            self.read_counted(out)
        } else {
            self.read_scanned(out)
        }
    }

    /// Reads and drops what is left of the body, a piece at a time.
    fn discard(&mut self)
        ensures
            final(self).source().advanced(&old(self).source(), old(self).span()),
            final(self).bounded() == old(self).bounded(),
            final(self).span() == 0,
    {
        let ghost rest = self.inner.remaining();
        let ghost used: nat = 0;
        let mut scratch: Vec<u8> = Vec::new();
        proof {
            lemma_prefix_len(rest, NULL);
            assert(rest.skip(0) =~= rest);
        }
        loop
            invariant
                rest == old(self).source().remaining(),
                self.bounded() == old(self).bounded(),
                self.source().advanced(&old(self).source(), used),
                used + self.span() == old(self).span(),
            ensures
                self.source().advanced(&old(self).source(), old(self).span()),
                self.bounded() == old(self).bounded(),
                self.span() == 0,
            decreases self.span(),
        {
            let ghost before = *self;
            let ghost here = self.inner.remaining();
            let ghost avail = self.inner.buffered();
            proof {
                before.source().lemma_shows_bytes();
                lemma_prefix_len(here, NULL);
                lemma_prefix_len(avail, NULL);
            }
            scratch.clear();
            let n = self.read(&mut scratch, DISCARD_CHUNK);
            proof {
                if !before.finished() {
                    let m = (here.len() - self.inner.remaining().len()) as nat;
                    assert(rest.skip(used as int).skip(m as int) =~= rest.skip((used + m) as int));
                    if !before.bounded() {
                        let y = step_yield(avail, NULL, DISCARD_CHUNK as nat);
                        assert forall|i: int| 0 <= i < y implies here[i] != NULL by {
                            assert(avail[i] == here[i]);
                        }
                        if step_found(avail, NULL, DISCARD_CHUNK as nat) {
                            assert(here[y as int] == avail[y as int]);
                            lemma_prefix_len_is(here, NULL, y as int);
                        } else {
                            if y < avail.len() && y < DISCARD_CHUNK {
                                assert(avail[y as int] == NULL);
                            }
                            lemma_prefix_len_skip(here, NULL, y as int);
                        }
                    }
                    used = used + m;
                }
            }
            if n == 0 {
                break;
            }
        }
    }

    /// Discards what is left of the body and gives the source back.  After
    /// a body of declared length the NUL that ends the frame is consumed
    /// too, if it is the next byte, so that the source stands at the start
    /// of the next frame.  Nothing after that is touched.
    pub fn close(self) -> (reader: MemReader)
        ensures
            reader.advanced(&self.source(), self.close_span()),
    {
        let ghost rest = self.inner.remaining();
        let ghost s = self.span();
        let mut body = self;
        body.discard();
        if body.bounded {
            let avail = body.inner.fill_buf();
            assert(avail@.len() > 0 ==> avail@[0] == rest[s as int]);
            if avail.len() > 0 && avail[0] == NULL {
                body.inner.consume(1);
                assert(rest.skip(s as int).skip(1) =~= rest.skip(s as int + 1));
            }
        }
        body.inner
    }
}

} // verus!
