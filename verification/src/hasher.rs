//! The DJB byte-stream hash: a 64-bit accumulator seeded with 5381 that, for
//! each input byte, is multiplied by 33 and xor-ed with the byte, all in
//! wrapping 64-bit arithmetic.

use vstd::prelude::*;

verus! {

/// One step of the DJB hash: multiply the accumulator by 33 (wrapping) and
/// xor in the next byte.
pub open spec fn djb_step(h: u64, b: u8) -> u64 {
    vstd::wrapping::u64_specs::wrapping_mul(33u64, h) ^ (b as u64)
}

/// The accumulator after feeding `bytes` into a state that started at `h`.
pub open spec fn djb_accum(h: u64, bytes: Seq<u8>) -> u64
    decreases bytes.len(),
{
    if bytes.len() == 0 {
        h
    } else {
        djb_step(djb_accum(h, bytes.drop_last()), bytes.last())
    }
}

/// The DJB hash of a byte sequence: the accumulator seeded with 5381,
/// one step per byte.
pub open spec fn djb_hash_of(bytes: Seq<u8>) -> u64 {
    djb_accum(5381u64, bytes)
}

proof fn lemma_djb_accum_snoc(h: u64, bytes: Seq<u8>, i: int)
    requires
        0 <= i < bytes.len(),
    ensures
        djb_accum(h, bytes.take(i + 1)) == djb_step(djb_accum(h, bytes.take(i)), bytes[i]),
{
    assert(bytes.take(i + 1).drop_last() =~= bytes.take(i));
    assert(bytes.take(i + 1).last() == bytes[i]);
}

/// Incremental DJB hashing state.
pub struct DJBHasher {
    hash: u64,
}

impl DJBHasher {
    /// The accumulator held so far.
    pub closed spec fn digest(&self) -> u64 {
        self.hash
    }

    /// A fresh state, seeded with 5381.
    pub fn new() -> (r: DJBHasher)
        ensures
            r.digest() == 5381u64,
    {
        DJBHasher { hash: 5381u64 }
    }

    /// Feed a slice of bytes into the accumulator, one DJB step per byte.
    pub fn write(&mut self, bytes: &[u8])
        ensures
            final(self).digest() == djb_accum(old(self).digest(), bytes@),
    {
        let ghost h0 = self.hash;
        let n = bytes.len();
        let mut i: usize = 0;
        while i < n
            invariant
                i <= n,
                n == bytes@.len(),
                self.hash == djb_accum(h0, bytes@.take(i as int)),
            decreases n - i,
        {
            let prod = 33u64.wrapping_mul(self.hash);
            proof {
                lemma_djb_accum_snoc(h0, bytes@, i as int);
            }
            self.hash = prod ^ (bytes[i] as u64);
            i += 1;
        }
        proof {
            assert(bytes@.take(n as int) =~= bytes@);
        }
    }

    /// The 64-bit digest accumulated so far.
    pub fn finish(&self) -> (h: u64)
        ensures
            h == self.digest(),
    {
        self.hash
    }
}

/// The DJB hash of a byte slice.
pub fn djbhash(bytes: &[u8]) -> (h: u64)
    ensures
        h == djb_hash_of(bytes@),
{
    let mut state = DJBHasher::new();
    state.write(bytes);
    state.finish()
}

} // verus!
