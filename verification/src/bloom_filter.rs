//! The Bloom filter that guards each SSTable.
//!
//! A fixed-size bit array.  Three indices are derived from a key by hashing
//! its characters together with a per-index seed and reducing modulo the
//! array size.  The hash is a deterministic function of the key and seed
//! alone, so the filter can never deny a key it was given: no false
//! negatives.  Filters are rebuilt whenever an SSTable is created or loaded;
//! they are not persisted.

use vstd::prelude::*;

verus! {

/// The hash state after consuming the first `n` characters of `k`, starting
/// from `seed`.  Always below 2^32.
pub open spec fn hash_state(k: Seq<char>, seed: u64, n: int) -> nat
    decreases n,
{
    if n <= 0 {
        (seed % 0x1_0000_0000) as nat
    } else {
        (hash_state(k, seed, n - 1) * 31 + k[n - 1] as u32 as nat) % 0x1_0000_0000
    }
}

/// The bit index a key hashes to for one seed, in an array of `size` bits.
pub open spec fn spec_hash(k: Seq<char>, seed: u64, size: nat) -> nat {
    hash_state(k, seed, k.len() as int) % size
}

/// A probabilistic membership test for the keys of one SSTable.
pub struct BloomFilter {
    bit_array: Vec<bool>,
    size: usize,
}

impl BloomFilter {
    /// The number of bits.
    pub closed spec fn spec_size(&self) -> usize {
        self.size
    }

    /// The bit at index `i`.
    pub closed spec fn bit(&self, i: int) -> bool {
        self.bit_array@[i]
    }

    /// The array holds exactly `size` bits, and there is at least one.
    pub closed spec fn wf(&self) -> bool {
        self.size >= 1 && self.bit_array@.len() == self.size
    }

    /// All three bits derived from `k` are set: the filter answers "maybe".
    pub open spec fn spec_contains(&self, k: Seq<char>) -> bool {
        forall|s: u64|
            0 <= s < 3 ==> self.bit(spec_hash(k, s, self.spec_size() as nat) as int)
    }

    /// Creates a filter of `size` bits, all clear.
    pub fn new(size: usize) -> (f: BloomFilter)
        requires
            size >= 1,
        ensures
            f.wf(),
            f.spec_size() == size,
            forall|k: Seq<char>| !f.spec_contains(k),
    {
        let mut bits: Vec<bool> = Vec::new();
        let mut i: usize = 0;
        while i < size
            invariant
                i <= size,
                bits@.len() == i,
                forall|j: int| 0 <= j < i ==> !bits@[j],
            decreases size - i,
        {
            bits.push(false);
            i += 1;
        }
        let f = BloomFilter { bit_array: bits, size };
        proof {
            assert forall|k: Seq<char>| !f.spec_contains(k) by {
                let sz = f.spec_size() as nat;
                vstd::arithmetic::div_mod::lemma_mod_bound(
                    hash_state(k, 0u64, k.len() as int) as int,
                    sz as int,
                );
                assert(spec_hash(k, 0u64, sz) < sz);
                assert(!f.bit(spec_hash(k, 0u64, sz) as int));
                assert(!(0 <= 0u64 < 3 ==> f.bit(spec_hash(k, 0u64, sz) as int)));
            }
        }
        f
    }

    /// The bit index `key` hashes to for `seed`.
    pub fn hash(&self, key: &str, seed: u64) -> (h: usize)
        requires
            self.wf(),
        ensures
            h == spec_hash(key@, seed, self.spec_size() as nat),
            h < self.spec_size(),
    {
        let n = key.unicode_len();
        let mut state: u64 = seed % 0x1_0000_0000;
        let mut i: usize = 0;
        while i < n
            invariant
                i <= n,
                n == key@.len(),
                state < 0x1_0000_0000,
                state == hash_state(key@, seed, i as int),
            decreases n - i,
        {
            let c = key.get_char(i);
            state = (state * 31 + c as u64) % 0x1_0000_0000;
            i += 1;
        }
        (state % (self.size as u64)) as usize
    }

    /// Sets the three bits for `key`.  Bits are only ever set, never
    /// cleared, so everything the filter contained it still contains.
    pub fn insert(&mut self, key: &str)
        requires
            old(self).wf(),
        ensures
            final(self).wf(),
            final(self).spec_size() == old(self).spec_size(),
            final(self).spec_contains(key@),
            forall|k: Seq<char>|
                old(self).spec_contains(k) ==> final(self).spec_contains(k),
    {
        let ghost size = self.spec_size();
        let mut s: u64 = 0;
        while s < 3
            invariant
                s <= 3,
                self.wf(),
                self.spec_size() == size,
                self.bit_array@.len() == size,
                old(self).bit_array@.len() == size,
                forall|j: int|
                    0 <= j < size ==> (old(self).bit(j) ==> self.bit(j)),
                forall|t: u64|
                    0 <= t < s ==> self.bit(
                        spec_hash(key@, t, size as nat) as int,
                    ),
            decreases 3 - s,
        {
            let idx = self.hash(key, s);
            self.bit_array.set(idx, true);
            s += 1;
        }
    }

    /// True iff all three bits for `key` are set.  Consults only the bit
    /// array; a false answer proves the key was never inserted.
    pub fn might_contain(&self, key: &str) -> (r: bool)
        requires
            self.wf(),
    ensures
            r == self.spec_contains(key@),
    {
        let mut s: u64 = 0;
        while s < 3
            invariant
                s <= 3,
                self.wf(),
                forall|t: u64|
                    0 <= t < s ==> self.bit(
                        spec_hash(key@, t, self.spec_size() as nat) as int,
                    ),
            decreases 3 - s,
        {
            let idx = self.hash(key, s);
            if !self.bit_array[idx] {
                return false;
            }
            s += 1;
        }
        true
    }
}

} // verus!
