use vstd::prelude::*;

verus! {

/// Offset basis of the 64-bit FNV-1a hash.
pub const INITIAL_STATE: u64 = 0xcbf2_9ce4_8422_2325;
/// Prime multiplier of the 64-bit FNV-1a hash.
pub const PRIME: u64 = 0x0100_0000_01b3;

/// State after feeding the bytes of `s`, in order, to a state `h`: each byte is
/// xored in, then the state is multiplied by the prime, modulo 2^64.
pub open spec fn fnv_fold(h: u64, s: Seq<u8>) -> u64
    decreases s.len(),
{
    if s.len() == 0 {
        h
    } else {
        (fnv_fold(h, s.drop_last()) ^ (s.last() as u64)).wrapping_mul(PRIME)
    }
}

/// FNV-1a hash of a byte string.
pub open spec fn fnv_hash(s: Seq<u8>) -> u64 {
    fnv_fold(INITIAL_STATE, s)
}

/// Streaming FNV-1a hasher over bytes.
#[derive(Clone, Copy, Debug)]
pub struct LilFnvHasher(pub u64);

impl LilFnvHasher {
    /// A hasher that has seen no bytes.
    pub fn new() -> (r: LilFnvHasher)
        ensures
            r.0 == INITIAL_STATE,
    {
        LilFnvHasher(INITIAL_STATE)
    }

    /// Feeds the bytes of `bytes` to the hasher.
    pub fn write(&mut self, bytes: &[u8])
        ensures
            final(self).0 == fnv_fold(old(self).0, bytes@),
    {
        let mut i: usize = 0;
        while i < bytes.len()
            invariant
                0 <= i <= bytes@.len(),
                self.0 == fnv_fold(old(self).0, bytes@.subrange(0, i as int)),
            decreases bytes@.len() - i,
        {
            proof {
                assert(bytes@.subrange(0, i + 1).drop_last() =~= bytes@.subrange(0, i as int));
            }
            self.0 = (self.0 ^ (bytes[i] as u64)).wrapping_mul(PRIME);
            i = i + 1;
        }
        proof {
            assert(bytes@.subrange(0, bytes@.len() as int) =~= bytes@);
        }
    }

    /// The hash of all bytes fed so far.
    pub fn finish(&self) -> (r: u64)
        ensures
            r == self.0,
    {
        self.0
    }
}

impl Default for LilFnvHasher {
    fn default() -> (r: LilFnvHasher)
        ensures
            r.0 == INITIAL_STATE,
    {
        LilFnvHasher::new()
    }
}

/// FNV-1a hash of `bytes`.
pub fn hash_bytes(bytes: &[u8]) -> (r: u64)
    ensures
        r == fnv_hash(bytes@),
{
    let mut h = LilFnvHasher::new();
    h.write(bytes);
    h.finish()
}

} // verus!
