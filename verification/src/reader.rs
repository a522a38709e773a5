//! An in-memory byte-readable source.
//!
//! The fingerprinter and the comparator accept anything that yields an
//! ordered sequence of bytes and may fail with an I/O error. This type is
//! that capability, made explicit: it serves the in-memory pipeline and the
//! tests, and it models the two behaviours of a real byte source that the
//! algorithms must survive — short reads (a read may return fewer bytes than
//! asked, without meaning end-of-stream) and read errors.

use vstd::prelude::*;

verus! {

/// A read failure, surfaced to the caller; never conflated with "not equal"
/// or with a partial fingerprint.
#[derive(Clone, Copy, Debug, PartialEq, Eq, Structural)]
pub struct ReadError;

/// A byte source backed by a vector.
///
/// `max_read` caps how many bytes a single `read` call returns, so a source
/// with a small cap exercises the short-read discipline of its callers.
/// `fail_at` is the position at which reading fails, if any.
pub struct Reader {
    pub data: Vec<u8>,
    pub pos: usize,
    pub max_read: usize,
    pub fail_at: Option<usize>,
}

impl Reader {
    /// The reader is inside its data and returns at least one byte per read
    /// while bytes remain.
    pub open spec fn wf(self) -> bool {
        self.pos <= self.data@.len() && self.max_read >= 1
    }

    /// The bytes not yet consumed.
    pub open spec fn remaining(self) -> Seq<u8> {
        self.data@.subrange(self.pos as int, self.data@.len() as int)
    }

    /// The next read call fails.
    pub open spec fn fails_next(self) -> bool {
        match self.fail_at {
            Some(f) => self.pos >= f,
            None => false,
        }
    }

    /// A source over the whole of `data`, reading in arbitrarily large
    /// chunks, never failing.
    pub fn new(data: Vec<u8>) -> (r: Reader)
        ensures
            r.wf(),
            r.remaining() == data@,
            r.max_read == usize::MAX,
            r.fail_at.is_none(),
    {
        let r = Reader { data, pos: 0, max_read: usize::MAX, fail_at: None };
        proof {
            assert(r.remaining() =~= r.data@);
        }
        r
    }

    /// A source that returns at most `max_read` bytes per call: a reliable
    /// source with short reads.
    pub fn with_chunk_limit(data: Vec<u8>, max_read: usize) -> (r: Reader)
        requires
            max_read >= 1,
        ensures
            r.wf(),
            r.remaining() == data@,
            r.max_read == max_read,
            r.fail_at.is_none(),
    {
        let r = Reader { data, pos: 0, max_read, fail_at: None };
        proof {
            assert(r.remaining() =~= r.data@);
        }
        r
    }

    /// A source whose reads fail once position `fail_at` is reached.
    pub fn failing(data: Vec<u8>, fail_at: usize) -> (r: Reader)
        ensures
            r.wf(),
            r.remaining() == data@,
            r.max_read == usize::MAX,
            r.fail_at == Some(fail_at),
    {
        let r = Reader { data, pos: 0, max_read: usize::MAX, fail_at: Some(fail_at) };
        proof {
            assert(r.remaining() =~= r.data@);
        }
        r
    }

    /// Reads up to `want` bytes. Returns fewer than `want` on a short read
    /// (capped by `max_read`) or near the end; returns an empty chunk only at
    /// end-of-stream or when nothing was asked for. Fails exactly when the
    /// failure position has been reached.
    pub fn read(&mut self, want: usize) -> (r: Result<Vec<u8>, ReadError>)
        requires
            old(self).wf(),
        ensures
            final(self).wf(),
            final(self).data == old(self).data,
            final(self).max_read == old(self).max_read,
            final(self).fail_at == old(self).fail_at,
            match r {
                Ok(chunk) => {
                    let n = vstd::math::min(
                        want as int,
                        vstd::math::min(
                            old(self).max_read as int,
                            old(self).remaining().len() as int,
                        ),
                    );
                    &&& !old(self).fails_next()
                    &&& chunk@ == old(self).remaining().take(n)
                    &&& final(self).pos == old(self).pos + n
                },
                Err(_) => {
                    &&& old(self).fails_next()
                    &&& final(self).pos == old(self).pos
                },
            },
    {
        match self.fail_at {
            Some(f) => {
                if self.pos >= f {
                    return Err(ReadError);
                }
            },
            None => {},
        }
        let mut n = self.data.len() - self.pos;
        if n > want {
            n = want;
        }
        if n > self.max_read {
            n = self.max_read;
        }
        let mut chunk: Vec<u8> = Vec::new();
        let end = self.pos + n;
        let mut j = self.pos;
        while j < end
            invariant
                self.wf(),
                self.pos <= j <= end,
                end <= self.data@.len(),
                chunk@ == self.data@.subrange(self.pos as int, j as int),
            decreases end - j,
        {
            chunk.push(self.data[j]);
            proof {
                assert(chunk@ =~= self.data@.subrange(self.pos as int, j + 1));
            }
            j = j + 1;
        }
        proof {
            assert(chunk@ =~= old(self).remaining().take(n as int));
        }
        self.pos = self.pos + n;
        Ok(chunk)
    }
}

/// Reads until `want` bytes have accumulated or the source is exhausted: a
/// short read from the source is never mistaken for end-of-input. A result
/// shorter than `want` therefore means the stream ended.
pub fn read_as_much(input: &mut Reader, want: usize) -> (r: Result<Vec<u8>, ReadError>)
    requires
        old(input).wf(),
    ensures
        final(input).wf(),
        final(input).data == old(input).data,
        final(input).max_read == old(input).max_read,
        final(input).fail_at == old(input).fail_at,
        match r {
            Ok(chunk) => {
                let n = vstd::math::min(want as int, old(input).remaining().len() as int);
                &&& chunk@ == old(input).remaining().take(n)
                &&& final(input).pos == old(input).pos + n
            },
            Err(_) => old(input).fail_at.is_some(),
        },
        old(input).fail_at.is_none() ==> r.is_ok(),
{
    let mut got: Vec<u8> = Vec::new();
    loop
        invariant
            input.wf(),
            input.data == old(input).data,
            input.max_read == old(input).max_read,
            input.fail_at == old(input).fail_at,
            got@.len() <= want,
            got@ == old(input).remaining().take(got@.len() as int),
            input.pos == old(input).pos + got@.len(),
        ensures
            got@.len() == vstd::math::min(want as int, old(input).remaining().len() as int),
        decreases want - got.len(),
    {
        if got.len() == want {
            break;
        }
        let mut chunk = match input.read(want - got.len()) {
            Ok(c) => c,
            Err(e) => {
                return Err(e);
            },
        };
        if chunk.len() == 0 {
            proof {
                assert(input.pos == input.data@.len());
            }
            break;
        }
        proof {
            assert(old(input).remaining().take(got@.len() as int) + chunk@ =~= old(
                input,
            ).remaining().take(got@.len() as int + chunk@.len() as int));
        }
        got.append(&mut chunk);
    }
    Ok(got)
}

} // verus!
