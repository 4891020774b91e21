//! A Fiat-Shamir transcript: labelled messages are absorbed into a running
//! SHA-256 hash, and challenges are read from the digest of what was
//! absorbed so far.
use vstd::prelude::*;
use crate::field::{fe128, le_bytes, le_value, Field128, MONTGOMERY_R};
use crate::hash::{extend_bytes, sha256, sha256_spec};

verus! {

/// The bytes absorbed so far; the challenges are their digest.
pub struct Transcript {
    absorbed: Vec<u8>,
}

impl Transcript {
    /// Everything absorbed, in order.
    pub closed spec fn absorbed(self) -> Seq<u8> {
        self.absorbed@
    }

    pub fn new() -> (r: Transcript)
        ensures
            r.absorbed() == Seq::<u8>::empty(),
    {
        Transcript { absorbed: Vec::new() }
    }

    /// Absorbs the label, then the message.
    pub fn append_message(&mut self, label: &[u8], message: &[u8])
        ensures
            final(self).absorbed() == old(self).absorbed() + label@ + message@,
    {
        extend_bytes(&mut self.absorbed, label);
        extend_bytes(&mut self.absorbed, message);
    }

    /// The digest of everything absorbed; the transcript is left as it is.
    pub fn random(&self) -> (r: [u8; 32])
        ensures
            r@ == sha256_spec(self.absorbed()),
    {
        sha256(self.absorbed.as_slice())
    }
}

impl Default for Transcript {
    fn default() -> (r: Transcript)
        ensures
            r.absorbed() == Seq::<u8>::empty(),
    {
        Transcript::new()
    }
}

/// A field whose elements can be absorbed into a transcript and drawn from
/// a digest.
pub trait HashableField: Sized {
    /// The bytes to absorb.
    fn to_bytes(&self) -> Vec<u8>;

    /// The element drawn from a digest.
    fn from_digest(digest: &[u8; 32]) -> Self;
}

impl HashableField for Field128 {
    /// The little-endian bytes of the Montgomery form.
    fn to_bytes(&self) -> (r: Vec<u8>)
        ensures
            r@ == le_bytes(fe128(self@ * MONTGOMERY_R), 16),
    {
        Field128::to_bytes(self)
    }

    /// The first 16 bytes of the digest, read as a little-endian integer and
    /// reduced modulo the field's prime.
    fn from_digest(digest: &[u8; 32]) -> (r: Field128)
        ensures
            r@ == fe128(le_value(digest@, 16)),
    {
        let mut low: Vec<u8> = Vec::new();
        let mut k: usize = 0;
        while k < 16
            invariant
                0 <= k <= 16,
                digest@.len() == 32,
                low@ == digest@.subrange(0, k as int),
            decreases 16 - k,
        {
            low.push(digest[k]);
            k = k + 1;
            proof {
                assert(digest@.subrange(0, k as int) =~= digest@.subrange(0, k - 1).push(digest@[k - 1]));
            }
        }
        proof {
            lemma_le_value_prefix(low@, digest@, 16);
        }
        match Field128::from_serialized_bytes(low.as_slice()) {
            Some(x) => x,
            None => {
                proof { assert(false); }
                Field128::zero()
            },
        }
    }
}

/// The labelled messages, each label followed by its message, one after
/// the other.
pub open spec fn joined(msgs: Seq<(Seq<u8>, Seq<u8>)>) -> Seq<u8>
    decreases msgs.len(),
{
    if msgs.len() == 0 {
        Seq::empty()
    } else {
        joined(msgs.drop_last()) + msgs.last().0 + msgs.last().1
    }
}

/// A transcript that starts empty and absorbs `n` labelled messages in turn
/// (each step as `append_message` leaves it) has absorbed their
/// concatenation, so its challenge is the hash of all `n` appends.
pub proof fn lemma_transcript_appends(ts: Seq<Transcript>, msgs: Seq<(Seq<u8>, Seq<u8>)>)
    requires
        ts.len() == msgs.len() + 1,
        ts[0].absorbed() == Seq::<u8>::empty(),
        forall|k: int| 0 <= k < msgs.len() ==>
            #[trigger] ts[k + 1].absorbed() == ts[k].absorbed() + msgs[k].0 + msgs[k].1,
    ensures
        ts.last().absorbed() == joined(msgs),
        sha256_spec(ts.last().absorbed()) == sha256_spec(joined(msgs)),
    decreases msgs.len(),
{
    if msgs.len() > 0 {
        let n = msgs.len() as int;
        let ts1 = ts.drop_last();
        let m1 = msgs.drop_last();
        assert forall|k: int| 0 <= k < m1.len() implies
            #[trigger] ts1[k + 1].absorbed() == ts1[k].absorbed() + m1[k].0 + m1[k].1 by {
            assert(ts[k + 1].absorbed() == ts[k].absorbed() + msgs[k].0 + msgs[k].1);
        }
        lemma_transcript_appends(ts1, m1);
        assert(ts[n].absorbed() == ts[n - 1].absorbed() + msgs[n - 1].0 + msgs[n - 1].1);
    }
}

/// The little-endian value of the first `n` bytes reads only those bytes.
proof fn lemma_le_value_prefix(a: Seq<u8>, b: Seq<u8>, n: nat)
    requires
        n <= a.len(),
        n <= b.len(),
        forall|i: int| 0 <= i < n ==> a[i] == b[i],
    ensures
        le_value(a, n) == le_value(b, n),
    decreases n,
{
    if n > 0 {
        lemma_le_value_prefix(a, b, (n - 1) as nat);
    }
}

} // verus!
