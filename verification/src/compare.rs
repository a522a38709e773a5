//! The exact stream comparator: reads two byte sources in lock-step chunks
//! and decides byte-for-byte equality of their full contents. Confirms or
//! refutes a fingerprint match; never reports a false positive.

use vstd::prelude::*;
use crate::reader::{read_as_much, ReadError, Reader};

verus! {

/// What the comparator decides: two streams are equal exactly when they are
/// the same byte sequence — same total length, same bytes.
pub open spec fn streams_equal(a: Seq<u8>, b: Seq<u8>) -> bool {
    a == b
}

/// The verdict on one lock-step pair of chunks.
#[derive(Clone, Copy, Debug, PartialEq, Eq, Structural)]
pub enum StepVerdict {
    /// The streams differ: unequal chunk lengths or a byte mismatch.
    Mismatch,
    /// Both streams ended together: equal.
    BothEnded,
    /// The chunks agree and are nonempty: read on.
    Advance,
}

/// The decision the comparator takes after one paired read, each chunk
/// filled to the chunk size or cut short by its stream's end: chunks of
/// unequal length mean unequal total lengths; two empty chunks mean both
/// streams are exhausted; otherwise the bytes decide.
pub open spec fn spec_compare_step(c1: Seq<u8>, c2: Seq<u8>) -> StepVerdict {
    if c1.len() != c2.len() {
        StepVerdict::Mismatch
    } else if c1.len() == 0 {
        StepVerdict::BothEnded
    } else if c1 != c2 {
        StepVerdict::Mismatch
    } else {
        StepVerdict::Advance
    }
}

/// Decides one lock-step pair of chunks.
pub fn compare_step(c1: &[u8], c2: &[u8]) -> (v: StepVerdict)
    ensures
        v == spec_compare_step(c1@, c2@),
{
    if c1.len() != c2.len() {
        return StepVerdict::Mismatch;
    }
    if c1.len() == 0 {
        return StepVerdict::BothEnded;
    }
    let n = c1.len();
    let mut i: usize = 0;
    while i < n
        invariant
            n == c1@.len() == c2@.len(),
            0 <= i <= n,
            forall|j: int| 0 <= j < i ==> c1@[j] == c2@[j],
        decreases n - i,
    {
        if c1[i] != c2[i] {
            return StepVerdict::Mismatch;
        }
        i = i + 1;
    }
    proof {
        assert(c1@ =~= c2@);
    }
    StepVerdict::Advance
}

/// Compares the full contents of two byte sources, chunk by chunk. Each
/// paired read fills its chunk or reaches that stream's end, so a short read
/// from the source is never mistaken for unequal lengths. Returns as soon as
/// the chunks settle the question. A read error from either source surfaces
/// as `Err`, never as "not equal".
pub fn compare(stream_1: &mut Reader, stream_2: &mut Reader) -> (r: Result<bool, ReadError>)
    requires
        old(stream_1).wf(),
        old(stream_2).wf(),
    ensures
        final(stream_1).wf(),
        final(stream_2).wf(),
        match r {
            Ok(eq) => eq == streams_equal(old(stream_1).remaining(), old(stream_2).remaining()),
            Err(_) => old(stream_1).fail_at.is_some() || old(stream_2).fail_at.is_some(),
        },
        old(stream_1).fail_at.is_none() && old(stream_2).fail_at.is_none() ==> r.is_ok(),
{
    loop
        invariant
            stream_1.wf(),
            stream_2.wf(),
            stream_1.fail_at == old(stream_1).fail_at,
            stream_2.fail_at == old(stream_2).fail_at,
            streams_equal(old(stream_1).remaining(), old(stream_2).remaining())
                == streams_equal(stream_1.remaining(), stream_2.remaining()),
        decreases stream_1.data@.len() - stream_1.pos,
    {
        let ghost rem_1 = stream_1.remaining();
        let ghost rem_2 = stream_2.remaining();
        let chunk_1 = match read_as_much(stream_1, 1024) {
            Ok(c) => c,
            Err(e) => {
                return Err(e);
            },
        };
        let chunk_2 = match read_as_much(stream_2, 1024) {
            Ok(c) => c,
            Err(e) => {
                return Err(e);
            },
        };
        match compare_step(chunk_1.as_slice(), chunk_2.as_slice()) {
            StepVerdict::Mismatch => {
                proof {
                    lemma_chunks_settle_mismatch(rem_1, rem_2, chunk_1@, chunk_2@, 1024);
                }
                return Ok(false);
            },
            StepVerdict::BothEnded => {
                proof {
                    assert(rem_1 =~= Seq::<u8>::empty());
                    assert(rem_2 =~= Seq::<u8>::empty());
                }
                return Ok(true);
            },
            StepVerdict::Advance => {
                proof {
                    assert(stream_1.remaining() =~= rem_1.skip(chunk_1@.len() as int));
                    assert(stream_2.remaining() =~= rem_2.skip(chunk_2@.len() as int));
                    lemma_equal_chunks_advance(rem_1, rem_2, chunk_1@.len() as int);
                }
            },
        }
    }
}

/// A mismatching chunk pair refutes equality of the whole streams: either
/// one stream ended strictly inside the other (unequal total lengths), or a
/// byte inside the shared prefix differs.
proof fn lemma_chunks_settle_mismatch(rem_1: Seq<u8>, rem_2: Seq<u8>, c1: Seq<u8>, c2: Seq<u8>, want: int)
    requires
        want > 0,
        c1 == rem_1.take(vstd::math::min(want, rem_1.len() as int)),
        c2 == rem_2.take(vstd::math::min(want, rem_2.len() as int)),
        spec_compare_step(c1, c2) == StepVerdict::Mismatch,
    ensures
        !streams_equal(rem_1, rem_2),
{
    if rem_1 == rem_2 {
        assert(c1 =~= c2);
    }
}

/// When both chunks are the same nonempty prefix, equality of the two
/// streams stands or falls with equality of what follows the chunks.
proof fn lemma_equal_chunks_advance(rem_1: Seq<u8>, rem_2: Seq<u8>, n: int)
    requires
        0 < n <= rem_1.len(),
        n <= rem_2.len(),
        rem_1.take(n) == rem_2.take(n),
    ensures
        streams_equal(rem_1, rem_2) == streams_equal(rem_1.skip(n), rem_2.skip(n)),
{
    if rem_1.skip(n) == rem_2.skip(n) {
        assert(rem_1 =~= rem_1.take(n) + rem_1.skip(n));
        assert(rem_2 =~= rem_2.take(n) + rem_2.skip(n));
        assert(rem_1 =~= rem_2);
    }
    if rem_1 == rem_2 {
        assert(rem_1.skip(n) =~= rem_2.skip(n));
    }
}

/// The comparator is reflexive: a stream always equals itself, the empty
/// stream included.
pub proof fn lemma_compare_reflexive(s: Seq<u8>)
    ensures
        streams_equal(s, s),
{
}

/// The comparator is symmetric: the two streams can be given in either
/// order.
pub proof fn lemma_compare_symmetric(a: Seq<u8>, b: Seq<u8>)
    ensures
        streams_equal(a, b) == streams_equal(b, a),
{
}

/// Two streams of different total length never compare equal, whatever
/// prefix they share.
pub proof fn lemma_compare_unequal_lengths(a: Seq<u8>, b: Seq<u8>)
    requires
        a.len() != b.len(),
    ensures
        !streams_equal(a, b),
{
}

} // verus!
