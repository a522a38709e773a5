//! The partial-content fingerprint: a rolling polynomial hash over at most
//! the first `k` bytes of a stream. Cheap, order-sensitive and stable across
//! runs for identical prefixes; not a cryptographic digest.

use vstd::prelude::*;
use crate::reader::{ReadError, Reader};

verus! {

/// The hash modulus. Kept below `u64::MAX / 21` so the accumulator update
/// never overflows a 64-bit word.
pub const FP_MODULUS: u64 = 23436734059613;

/// One accumulator update for one byte.
pub open spec fn fp_step(acc: int, byte: u8) -> int {
    (acc * 21 + byte * 27 + 7) % (FP_MODULUS as int)
}

/// The fold of `fp_step` over a whole byte sequence, starting from 0.
pub open spec fn fp_of(s: Seq<u8>) -> int
    decreases s.len(),
{
    if s.len() == 0 {
        0
    } else {
        fp_step(fp_of(s.drop_last()), s.last())
    }
}

/// How many bytes of `s` a fingerprint with prefix length `k` covers:
/// `k` bytes, or all of `s` when it is shorter.
pub open spec fn prefix_len(s: Seq<u8>, k: int) -> int {
    vstd::math::min(k, s.len() as int)
}

/// The fingerprint of a stream with contents `s` under prefix length `k`.
pub open spec fn fingerprint_spec(s: Seq<u8>, k: int) -> int {
    fp_of(s.take(prefix_len(s, k)))
}

/// The fold stays within the modulus.
pub proof fn lemma_fp_of_bound(s: Seq<u8>)
    ensures
        0 <= fp_of(s) < FP_MODULUS,
    decreases s.len(),
{
    if s.len() != 0 {
        lemma_fp_of_bound(s.drop_last());
    }
}

/// Fingerprinting an empty input returns 0, whatever the prefix length.
pub proof fn lemma_fingerprint_empty(k: int)
    requires
        k >= 0,
    ensures
        fingerprint_spec(Seq::<u8>::empty(), k) == 0,
{
    assert(Seq::<u8>::empty().take(0) =~= Seq::<u8>::empty());
}

/// Two streams whose hashed prefixes have the same length and the same bytes
/// have the same fingerprint. When the hashed lengths agree, that prefix is
/// exactly the first `min(k, len(a), len(b))` bytes of either stream; the
/// agreement of lengths is needed, since a stream that ends inside the
/// other's hashed prefix folds fewer bytes.
pub proof fn lemma_fingerprint_prefix(a: Seq<u8>, b: Seq<u8>, k: int)
    requires
        0 <= k,
        prefix_len(a, k) == prefix_len(b, k),
        a.take(prefix_len(a, k)) == b.take(prefix_len(b, k)),
    ensures
        fingerprint_spec(a, k) == fingerprint_spec(b, k),
{
}

/// Incremental fingerprint state: feed chunks in order, then read the hash
/// off. Bytes offered beyond the prefix budget are ignored, which makes the
/// hash a pure function of the first `limit` bytes fed.
pub struct Hasher {
    /// The accumulator so far.
    pub acc: u64,
    /// The prefix budget `k`.
    pub limit: usize,
    /// How many bytes have been folded in; at most `limit`.
    pub hashed: usize,
    /// All bytes offered so far, hashed or not.
    pub fed: Ghost<Seq<u8>>,
}

impl Hasher {
    /// The accumulator is the fold of the hashed prefix of what was fed.
    pub open spec fn wf(self) -> bool {
        &&& self.hashed == prefix_len(self.fed@, self.limit as int)
        &&& self.acc == fp_of(self.fed@.take(self.hashed as int))
    }

    pub fn new(limit: usize) -> (h: Hasher)
        ensures
            h.wf(),
            h.fed@ == Seq::<u8>::empty(),
            h.limit == limit,
    {
        let h = Hasher { acc: 0, limit, hashed: 0, fed: Ghost(Seq::empty()) };
        proof {
            assert(h.fed@.take(0) =~= Seq::<u8>::empty());
        }
        h
    }

    /// The prefix budget is exhausted: further bytes cannot change the hash.
    pub fn done(&self) -> (b: bool)
        ensures
            b == (self.hashed == self.limit),
    {
        self.hashed == self.limit
    }

    /// Folds in the next chunk of the stream, up to the remaining budget.
    pub fn update(&mut self, chunk: &[u8])
        requires
            old(self).wf(),
        ensures
            final(self).wf(),
            final(self).limit == old(self).limit,
            final(self).fed@ == old(self).fed@ + chunk@,
    {
        let ghost prev = self.fed@;
        self.fed = Ghost(prev + chunk@);
        let budget = self.limit - self.hashed;
        let todo = if chunk.len() < budget {
            chunk.len()
        } else {
            budget
        };
        proof {
            // Bytes already hashed are an initial segment of the new `fed`.
            assert(prev.take(self.hashed as int) =~= self.fed@.take(self.hashed as int));
        }
        let mut i: usize = 0;
        while i < todo
            invariant
                self.fed@ == prev + chunk@,
                self.limit == old(self).limit,
                self.hashed == old(self).hashed,
                self.hashed == prefix_len(prev, self.limit as int),
                todo == vstd::math::min(chunk@.len() as int, self.limit - self.hashed),
                0 <= i <= todo,
                self.acc == fp_of(self.fed@.take(self.hashed + i)),
            decreases todo - i,
        {
            proof {
                lemma_fp_of_bound(self.fed@.take(self.hashed + i));
                assert(self.fed@.take(self.hashed + i + 1).drop_last() =~= self.fed@.take(
                    self.hashed + i,
                ));
                assert(self.fed@[self.hashed + i] == chunk@[i as int]);
            }
            self.acc = (self.acc * 21 + (chunk[i] as u64) * 27 + 7) % FP_MODULUS;
            i = i + 1;
        }
        self.hashed = self.hashed + todo;
        proof {
            assert(self.hashed == prefix_len(self.fed@, self.limit as int));
        }
    }

    /// The fingerprint of everything fed so far, under the prefix budget.
    pub fn finish(&self) -> (h: u64)
        requires
            self.wf(),
        ensures
            h == fingerprint_spec(self.fed@, self.limit as int),
    {
        self.acc
    }
}

/// The fingerprint of the first `bytes` bytes of `input`, reading the source
/// in chunks until the budget is exhausted or the stream ends. A stream
/// shorter than the budget is hashed over its full length; an empty stream
/// yields 0. A read error surfaces as `Err`, never as a fingerprint of what
/// was read so far.
pub fn first(input: &mut Reader, bytes: usize) -> (r: Result<u64, ReadError>)
    requires
        old(input).wf(),
    ensures
        final(input).wf(),
        final(input).data == old(input).data,
        final(input).fail_at == old(input).fail_at,
        match r {
            Ok(h) => h == fingerprint_spec(old(input).remaining(), bytes as int),
            Err(_) => old(input).fail_at.is_some(),
        },
        old(input).fail_at.is_none() ==> r.is_ok(),
{
    let mut hasher = Hasher::new(bytes);
    proof {
        assert(old(input).remaining().take(0) =~= Seq::<u8>::empty());
    }
    loop
        invariant
            input.wf(),
            input.data == old(input).data,
            input.max_read == old(input).max_read,
            input.fail_at == old(input).fail_at,
            hasher.wf(),
            hasher.limit == bytes,
            old(input).pos + hasher.fed@.len() == input.pos,
            hasher.fed@ == old(input).remaining().take(hasher.fed@.len() as int),
        ensures
            input.wf(),
            input.data == old(input).data,
            input.fail_at == old(input).fail_at,
            hasher.wf(),
            hasher.limit == bytes,
            hasher.fed@ == old(input).remaining().take(hasher.fed@.len() as int),
            hasher.hashed == bytes || input.pos == input.data@.len(),
        decreases input.data@.len() - input.pos,
    {
        if hasher.done() {
            break;
        }
        let chunk = match input.read(1024) {
            Ok(c) => c,
            Err(e) => {
                return Err(e);
            },
        };
        if chunk.len() == 0 {
            break;
        }
        proof {
            assert(old(input).remaining().take(hasher.fed@.len() as int) + chunk@ =~= old(
                input,
            ).remaining().take(hasher.fed@.len() as int + chunk@.len() as int));
        }
        hasher.update(chunk.as_slice());
    }
    proof {
        let rem = old(input).remaining();
        let fed = hasher.fed@;
        if hasher.hashed == bytes {
            // The budget is covered by what was fed, which is a prefix of the
            // stream, so the hashed bytes are the stream's own prefix.
            assert(fed.take(prefix_len(fed, bytes as int)) =~= rem.take(
                prefix_len(rem, bytes as int),
            ));
        } else {
            // The stream was consumed whole.
            assert(fed =~= rem);
        }
        lemma_fingerprint_prefix(fed, rem, bytes as int);
    }
    Ok(hasher.finish())
}

} // verus!
