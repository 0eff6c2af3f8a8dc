//! Byte sources: an in-memory reader, a reader with a byte budget, and a
//! reader that stops at a delimiter.

use vstd::prelude::*;
use vstd::slice::slice_subrange;
use crate::error::{Failure, ReadError};
use crate::scan::{lemma_prefix_len, lemma_prefix_len_is, prefix_len};

verus! {

/// The smaller of two numbers.
pub open spec fn least(a: nat, b: nat) -> nat {
    if a <= b {
        a
    } else {
        b
    }
}

/// How many of the visible bytes `avail` one read hands out, when it may hand
/// out `max` at most: those before the first `delimiter`.
pub open spec fn step_yield(avail: Seq<u8>, delimiter: u8, max: nat) -> nat {
    least(prefix_len(avail, delimiter), max)
}

/// Whether that read reaches the delimiter.
pub open spec fn step_found(avail: Seq<u8>, delimiter: u8, max: nat) -> bool {
    prefix_len(avail, delimiter) < avail.len() && prefix_len(avail, delimiter) <= max
}

/// How many bytes that read takes from the source: what it hands out, and
/// the delimiter if it reaches it.
pub open spec fn step_consumed(avail: Seq<u8>, delimiter: u8, max: nat) -> nat {
    if step_found(avail, delimiter, max) {
        step_yield(avail, delimiter, max) + 1
    } else {
        step_yield(avail, delimiter, max)
    }
}

/// What one read of a delimited stream does with the bytes it can see.
#[derive(Debug, PartialEq, Eq, Clone, Copy, Structural)]
pub struct Step {
    /// The number of bytes to hand to the caller, from the start of the
    /// visible bytes.
    pub yielded: usize,
    /// The number of bytes to take from the source.
    pub consumed: usize,
    /// Whether the delimiter was reached; it is then among the consumed
    /// bytes and not among those handed out.
    pub found: bool,
}

/// Decides one read of a delimited stream: `avail` are the bytes that the
/// source shows, `max` is the most that the caller takes.
pub fn split_step(avail: &[u8], delimiter: u8, max: usize) -> (s: Step)
    ensures
        s.yielded == step_yield(avail@, delimiter, max as nat),
        s.consumed == step_consumed(avail@, delimiter, max as nat),
        s.found == step_found(avail@, delimiter, max as nat),
        s.yielded <= s.consumed <= avail@.len(),
{
    proof {
        lemma_prefix_len(avail@, delimiter);
    }
    let len = avail.len();
    match memchr::memchr(delimiter, avail) {
        Some(i) => {
            proof {
                lemma_prefix_len_is(avail@, delimiter, i as int);
            }
            if i <= max {
                Step { yielded: i, consumed: i + 1, found: true }
            } else {
                Step { yielded: max, consumed: max, found: false }
            }
        },
        None => {
            proof {
                lemma_prefix_len_is(avail@, delimiter, avail@.len() as int);
            }
            let n = if len <= max {
                len
            } else {
                max
            };
            Step { yielded: n, consumed: n, found: false }
        },
    }
}

/// A byte source in memory.  It shows at most `chunk_size` of its bytes at a
/// time, as a buffered stream does.
#[derive(Debug)]
pub struct MemReader {
    data: Vec<u8>,
    pos: usize,
    chunk: usize,
}

impl MemReader {
    /// The position lies within the data, and some bytes are shown at a
    /// time.
    #[verifier::type_invariant]
    spec fn inv(self) -> bool {
        self.pos <= self.data@.len() && self.chunk > 0
    }

    /// The bytes that have not been consumed.
    pub closed spec fn remaining(&self) -> Seq<u8> {
        self.data@.skip(self.pos as int)
    }

    /// The most bytes that the reader shows at a time; at least 1.
    pub closed spec fn chunk_size(&self) -> nat {
        if self.chunk == 0 {
            1
        } else {
            self.chunk as nat
        }
    }

    /// A reader that has bytes left shows some of them.
    pub proof fn lemma_shows_bytes(&self)
        ensures
            self.chunk_size() > 0,
            self.buffered().len() == 0 <==> self.remaining().len() == 0,
    {
    }

    /// The bytes that the reader shows now: the first `chunk_size` of those
    /// that remain.
    pub open spec fn buffered(&self) -> Seq<u8> {
        self.remaining().take(least(self.chunk_size(), self.remaining().len()) as int)
    }

    /// `self` is `before` with its first `n` remaining bytes consumed.
    pub open spec fn advanced(&self, before: &MemReader, n: nat) -> bool {
        &&& n <= before.remaining().len()
        &&& self.remaining() == before.remaining().skip(n as int)
        &&& self.chunk_size() == before.chunk_size()
    }

    /// A reader over `data` that shows all its bytes at once.
    pub fn new(data: Vec<u8>) -> (r: MemReader)
        ensures
            r.remaining() == data@,
            r.chunk_size() == usize::MAX,
    {
        assert(data@.skip(0) =~= data@);
        MemReader { data, pos: 0, chunk: usize::MAX }
    }

    /// A reader over `data` that shows `chunk` bytes at a time; one byte at
    /// a time where `chunk` is 0.
    pub fn with_chunk_size(data: Vec<u8>, chunk: usize) -> (r: MemReader)
        ensures
            r.remaining() == data@,
            r.chunk_size() == if chunk == 0 {
                1
            } else {
                chunk as nat
            },
    {
        assert(data@.skip(0) =~= data@);
        MemReader {
            data,
            pos: 0,
            chunk: if chunk == 0 {
                1
            } else {
                chunk
            },
        }
    }

    /// The bytes that the reader shows now.  None are shown only at the end
    /// of the input.
    pub fn fill_buf(&self) -> (r: &[u8])
        ensures
            r@ == self.buffered(),
            r@.len() == 0 <==> self.remaining().len() == 0,
            self.chunk_size() > 0,
    {
        proof {
            use_type_invariant(self);
        }
        let left = self.data.len() - self.pos;
        let n = if self.chunk <= left {
            self.chunk
        } else {
            left
        };
        let r = slice_subrange(self.data.as_slice(), self.pos, self.pos + n);
        assert(r@ =~= self.buffered());
        r
    }

    /// Consumes the first `n` of the bytes that the reader shows; all of
    /// them where it shows fewer.
    pub fn consume(&mut self, n: usize)
        ensures
            final(self).advanced(old(self), least(n as nat, old(self).buffered().len())),
    {
        proof {
            use_type_invariant(&*self);
            assert(self.remaining().len() == self.data@.len() - self.pos);
        }
        let shown = self.fill_buf().len();
        let taken = if n <= shown {
            n
        } else {
            shown
        };
        let len = self.data.len();
        assert(self.buffered().len() <= self.remaining().len());
        assert(self.pos + taken <= len);
        self.pos = self.pos + taken;
        assert(self.remaining() =~= old(self).remaining().skip(taken as int));
    }

    /// All bytes that have not been consumed.
    pub fn rest(&self) -> (r: &[u8])
        ensures
            r@ == self.remaining(),
    {
        proof {
            use_type_invariant(self);
        }
        let r = slice_subrange(self.data.as_slice(), self.pos, self.data.len());
        assert(r@ =~= self.remaining());
        r
    }
}

/// A reader with a byte budget.  It hands out the bytes of its source
/// until the budget is used up; a read after that fails unless the source has
/// ended too.
#[derive(Debug)]
pub struct LimitedReader {
    inner: MemReader,
    budget: u64,
}

impl LimitedReader {
    /// The source.
    pub closed spec fn source(&self) -> MemReader {
        self.inner
    }

    /// The number of bytes that may still be consumed.
    pub closed spec fn budget(&self) -> nat {
        self.budget as nat
    }

    /// The budget is used up and the source has bytes left.
    pub open spec fn exhausted(&self) -> bool {
        self.budget() == 0 && self.source().remaining().len() > 0
    }

    /// The bytes that the reader shows now: those that the source shows,
    /// as far as the budget goes.
    pub open spec fn buffered(&self) -> Seq<u8> {
        self.source().buffered().take(
            least(self.source().buffered().len(), self.budget()) as int,
        )
    }

    /// `self` is `before` with its first `n` remaining bytes consumed.
    pub open spec fn advanced(&self, before: &LimitedReader, n: nat) -> bool {
        &&& self.source().advanced(&before.source(), n)
        &&& n <= before.budget()
        &&& self.budget() == before.budget() - n
    }

    /// Wraps `inner`, allowing `limit` bytes to be consumed.
    pub fn new(inner: MemReader, limit: u64) -> (r: LimitedReader)
        ensures
            r.source() == inner,
            r.budget() == limit,
    {
        LimitedReader { inner, budget: limit }
    }

    /// Gives the source back.
    pub fn into_inner(self) -> (r: MemReader)
        ensures
            r == self.source(),
    {
        self.inner
    }

    /// The number of bytes that may still be consumed.
    pub fn remaining_budget(&self) -> (r: u64)
        ensures
            r == self.budget(),
    {
        self.budget
    }

    /// The bytes that the reader shows now.  None are shown only at the end
    /// of the input.  Fails where the budget is used up and the source has
    /// not ended.
    pub fn fill_buf(&self) -> (r: Result<&[u8], ReadError>)
        ensures
            match r {
                Ok(bytes) => !self.exhausted() && bytes@ == self.buffered() && (bytes@.len() == 0
                    <==> self.source().remaining().len() == 0),
                Err(e) => self.exhausted() && e@ == Failure::SizeExceeded,
            },
    {
        let avail = self.inner.fill_buf();
        if avail.len() == 0 {
            Ok(avail)
        } else if self.budget == 0 {
            Err(ReadError::SizeExceeded)
        } else {
            let n = if avail.len() as u64 <= self.budget {
                avail.len()
            } else {
                self.budget as usize
            };
            let r = slice_subrange(avail, 0, n);
            assert(r@ =~= self.buffered());
            Ok(r)
        }
    }

    /// Consumes the first `n` of the bytes that the reader shows; all of
    /// them where it shows fewer.
    pub fn consume(&mut self, n: usize)
        ensures
            final(self).advanced(old(self), least(n as nat, old(self).buffered().len())),
    {
        let shown = self.inner.fill_buf().len();
        let within = if shown as u64 <= self.budget {
            shown
        } else {
            self.budget as usize
        };
        let taken = if n <= within {
            n
        } else {
            within
        };
        self.inner.consume(taken);
        self.budget = self.budget - taken as u64;
    }
}

/// The number of bytes that one line takes from `rest`: the bytes before
/// the first delimiter and the delimiter itself, or all of `rest` where it
/// holds no delimiter.
pub open spec fn line_span(rest: Seq<u8>, delimiter: u8) -> nat {
    let k = prefix_len(rest, delimiter);
    if k < rest.len() {
        k + 1
    } else {
        k
    }
}

/// A reader that hands out one line of its source: the bytes before the
/// first delimiter.  It consumes the delimiter and nothing after it.
#[derive(Debug)]
pub struct DelimitedReader {
    inner: LimitedReader,
    delimiter: u8,
    found: bool,
}

impl DelimitedReader {
    /// The source.
    pub closed spec fn source(&self) -> LimitedReader {
        self.inner
    }

    /// The byte that ends the line.
    pub closed spec fn delimiter(&self) -> u8 {
        self.delimiter
    }

    /// Whether the delimiter has been consumed.
    pub closed spec fn found(&self) -> bool {
        self.found
    }

    /// The bytes of the source that have not been consumed.
    pub open spec fn remaining(&self) -> Seq<u8> {
        self.source().source().remaining()
    }

    /// `self` is `before` after `n` more bytes were consumed, the delimiter
    /// among them if `found`.
    pub open spec fn advanced(&self, before: &DelimitedReader, n: nat, found: bool) -> bool {
        &&& self.source().advanced(&before.source(), n)
        &&& self.delimiter() == before.delimiter()
        &&& self.found() == found
    }

    /// A reader of the next line of `inner`, which ends at `delimiter`.
    pub fn new(inner: LimitedReader, delimiter: u8) -> (r: DelimitedReader)
        ensures
            r.source() == inner,
            r.delimiter() == delimiter,
            !r.found(),
    {
        DelimitedReader { inner, delimiter, found: false }
    }

    /// Gives the source back.
    pub fn into_inner(self) -> (r: LimitedReader)
        ensures
            r == self.source(),
    {
        self.inner
    }

    /// Whether the delimiter has been consumed.  After a read that handed
    /// out no bytes this tells an empty line from the end of the input.
    pub fn delimiter_found(&self) -> (r: bool)
        ensures
            r == self.found(),
    {
        self.found
    }

    /// Reads once: appends to `out` the visible bytes before the delimiter,
    /// `max` at most, and consumes them, and the delimiter too if it was
    /// reached.  Returns the number of bytes appended; 0 once the delimiter
    /// has been consumed, and at the end of the input.
    pub fn read(&mut self, out: &mut Vec<u8>, max: usize) -> (r: Result<usize, ReadError>)
        ensures
            old(self).found() ==> {
                &&& r matches Ok(n) && n == 0
                &&& *final(self) == *old(self)
                &&& final(out)@ == old(out)@
            },
            !old(self).found() && old(self).source().exhausted() ==> {
                &&& r matches Err(e) && e@ == Failure::SizeExceeded
                &&& *final(self) == *old(self)
                &&& final(out)@ == old(out)@
            },
            !old(self).found() && !old(self).source().exhausted() ==> {
                let avail = old(self).source().buffered();
                let d = old(self).delimiter();
                &&& r matches Ok(n) && n == step_yield(avail, d, max as nat)
                &&& final(out)@ == old(out)@ + avail.take(step_yield(avail, d, max as nat) as int)
                &&& final(self).advanced(
                    old(self),
                    step_consumed(avail, d, max as nat),
                    step_found(avail, d, max as nat),
                )
            },
    {
        if self.found {
            return Ok(0);
        }
        let step = match self.inner.fill_buf() {
            Ok(avail) => {
                let step = split_step(avail, self.delimiter, max);
                let part = slice_subrange(avail, 0, step.yielded);
                out.extend_from_slice(part);
                assert(part@ =~= avail@.take(step.yielded as int));
                step
            },
            Err(e) => {
                return Err(e);
            },
        };
        self.inner.consume(step.consumed);
        self.found = step.found;
        Ok(step.yielded)
    }

    /// Reads the line to its end: appends to `out` the bytes before the
    /// delimiter and consumes them and the delimiter.  Where the source ends
    /// before a delimiter comes, the line is all that was left.  Fails where
    /// the line, its delimiter counted, is longer than the budget of the
    /// source.
    pub fn read_to_end(&mut self, out: &mut Vec<u8>) -> (r: Result<usize, ReadError>)
        ensures
            old(self).found() ==> {
                &&& r matches Ok(n) && n == 0
                &&& *final(self) == *old(self)
                &&& final(out)@ == old(out)@
            },
            !old(self).found() ==> {
                let rest = old(self).remaining();
                let d = old(self).delimiter();
                let k = prefix_len(rest, d);
                let budget = old(self).source().budget();
                if line_span(rest, d) <= budget {
                    &&& r matches Ok(n) && n == k
                    &&& final(out)@ == old(out)@ + rest.take(k as int)
                    &&& final(self).advanced(old(self), line_span(rest, d), k < rest.len())
                } else {
                    &&& r matches Err(e) && e@ == Failure::SizeExceeded
                    &&& final(out)@ == old(out)@ + rest.take(budget as int)
                    &&& final(self).advanced(old(self), budget, false)
                }
            },
    {
        if self.found {
            return Ok(0);
        }
        let ghost rest = self.remaining();
        let ghost d = self.delimiter;
        let ghost k = prefix_len(rest, d);
        let ghost budget = self.inner.budget();
        let ghost start = out@;
        let mut total: usize = 0;
        proof {
            lemma_prefix_len(rest, d);
            assert(rest.take(0) =~= Seq::<u8>::empty());
            assert(start + rest.take(0) =~= start);
            assert(rest.skip(0) =~= rest);
        }
        loop
            invariant
                !old(self).found(),
                rest == old(self).remaining(),
                d == old(self).delimiter(),
                k == prefix_len(rest, d),
                budget == old(self).source().budget(),
                start == old(out)@,
                k <= rest.len(),
                forall|i: int| 0 <= i < k ==> rest[i] != d,
                k < rest.len() ==> rest[k as int] == d,
                out@ == start + rest.take(total as int),
                self.found() ==> total == k && k < rest.len() && self.advanced(
                    old(self),
                    line_span(rest, d),
                    true,
                ),
                !self.found() ==> total <= k && self.advanced(old(self), total as nat, false),
            ensures
                line_span(rest, d) <= budget,
                total == k,
                out@ == start + rest.take(k as int),
                self.advanced(old(self), line_span(rest, d), k < rest.len()),
            decreases self.remaining().len() + if self.found() { 0nat } else { 1nat },
        {
            let ghost before = *self;
            let ghost avail = self.inner.buffered();
            let ghost c = total as nat;
            proof {
                if !self.found() && !self.inner.exhausted() {
                    lemma_prefix_len(avail, d);
                    assert forall|i: int| 0 <= i < avail.len() implies avail[i] == rest[(c + i) as int] by {}
                }
            }
            let n = match self.read(out, usize::MAX) {
                Ok(n) => n,
                Err(e) => {
                    proof {
                        assert(c == budget);
                        assert(rest.take(budget as int) =~= rest.take(total as int));
                    }
                    return Err(e);
                },
            };
            proof {
                if !before.found() {
                    let y = step_yield(avail, d, usize::MAX as nat);
                    let m = step_consumed(avail, d, usize::MAX as nat);
                    assert(y == prefix_len(avail, d));
                    assert(n == y);
                    assert(rest.skip(c as int).skip(m as int) =~= rest.skip((c + m) as int));
                    assert(self.source().advanced(&old(self).source(), c + m));
                    assert(rest.take(c as int) + avail.take(y as int) =~= rest.take((c + y) as int));
                    if step_found(avail, d, usize::MAX as nat) {
                        assert(rest[(c + y) as int] == d);
                        if k < c + y {
                            assert(avail[(k - c) as int] == rest[k as int]);
                        }
                        assert(c + y == k);
                    } else {
                        assert(y == avail.len());
                        if c + y > k {
                            assert(avail[(k - c) as int] == rest[k as int]);
                        }
                    }
                }
            }
            if n == 0 {
                proof {
                    if !before.found() && !self.found() {
                        before.source().source().lemma_shows_bytes();
                        assert(avail.len() == 0);
                        assert(before.remaining().len() == 0);
                        assert(c == rest.len());
                    }
                }
                break;
            }
            let len = out.len();
            assert(len == start.len() + total + n);
            total = total + n;
        }
        Ok(total)
    }
}

} // verus!
