//! A Bloom filter: a fixed-size probabilistic membership structure with no
//! false negatives and a tunable false-positive rate.
//!
//! Construction fixes the number of cells and the number of probes per
//! operation; both are frozen afterwards. Inserting sets the cells that the
//! seeded hash selects for the item; a lookup reports "possibly present"
//! exactly when all of the item's cells are set. Cells are only ever set,
//! never cleared, so an inserted item keeps looking up as present no matter
//! what is inserted after it.

use crate::utils::{hash_with_seed, spec_hash_with_seed};
use vstd::prelude::*;

verus! {

/// A fixed-size cell array with its probe count, plus the bit pattern of the
/// false-positive probability the parameters were derived from (kept only so
/// a persisted filter restores verbatim).
#[derive(Debug, PartialEq)]
pub struct BloomFilter {
    pub fp_prob_bits: u32,
    pub size: u64,
    pub hash_count: u32,
    pub bitarray: Vec<u8>,
}

impl BloomFilter {
    /// The cell array has exactly `size` cells, at least one (probing reduces
    /// the digest modulo `size`), and every cell is a flag: 0 or 1.
    pub open spec fn wf(self) -> bool {
        &&& self.size >= 1
        &&& self.size <= usize::MAX
        &&& self.bitarray@.len() == self.size
        &&& forall|i: int|
            0 <= i < self.bitarray@.len() ==> (#[trigger] self.bitarray@[i]) == 0
                || self.bitarray@[i] == 1
    }

    /// The cell that probe number `k` selects for `word`.
    pub open spec fn probe(self, word: Seq<char>, k: int) -> int {
        spec_hash_with_seed(word, k as u32) as int % self.size as int
    }

    /// Every cell that any probe selects for `word` is set.
    pub open spec fn probes_set(self, word: Seq<char>) -> bool {
        forall|k: int|
            0 <= k < self.hash_count ==> self.bitarray@[#[trigger] self.probe(word, k)] == 1
    }

    /// A filter with `size` zeroed cells, probing `hash_count` times per
    /// operation. The parameters are taken as given; deriving them from an
    /// expected item count and a target false-positive probability is the
    /// caller's affair.
    pub fn from_params(size: u64, hash_count: u32, fp_prob_bits: u32) -> (f: BloomFilter)
        requires
            1 <= size <= usize::MAX,
        ensures
            f.wf(),
            f.size == size,
            f.hash_count == hash_count,
            f.fp_prob_bits == fp_prob_bits,
            forall|i: int| 0 <= i < f.bitarray@.len() ==> (#[trigger] f.bitarray@[i]) == 0,
    {
        let mut bitarray: Vec<u8> = Vec::new();
        let n = size as usize;
        let mut i: usize = 0;
        while i < n
            invariant
                i <= n,
                bitarray@.len() == i,
                forall|p: int| 0 <= p < i ==> (#[trigger] bitarray@[p]) == 0,
            decreases n - i,
        {
            bitarray.push(0);
            i += 1;
        }
        BloomFilter { fp_prob_bits, size, hash_count, bitarray }
    }

    /// Sets the cell each probe selects for `target`. No cell is ever
    /// cleared, and only the cells probed for `target` are newly set.
    #[verifier::loop_isolation(false)]
    pub fn insert(&mut self, target: &str)
        requires
            old(self).wf(),
        ensures
            final(self).wf(),
            final(self).size == old(self).size,
            final(self).hash_count == old(self).hash_count,
            final(self).fp_prob_bits == old(self).fp_prob_bits,
            final(self).probes_set(target@),
            forall|i: int|
                0 <= i < old(self).bitarray@.len() && old(self).bitarray@[i] == 1 ==> final(self).bitarray@[i] == 1,
            forall|i: int|
                0 <= i < final(self).bitarray@.len() && final(self).bitarray@[i] == 1 ==> old(self).bitarray@[i] == 1 || exists|k: int|
                    0 <= k < old(self).hash_count && i == #[trigger] old(self).probe(target@, k),
    {
        let mut k: u32 = 0;
        while k < self.hash_count
            invariant
                k <= self.hash_count,
                self.wf(),
                self.size == old(self).size,
                self.hash_count == old(self).hash_count,
                self.fp_prob_bits == old(self).fp_prob_bits,
                forall|p: int|
                    0 <= p < k ==> self.bitarray@[#[trigger] self.probe(target@, p)] == 1,
                forall|i: int|
                    0 <= i < old(self).bitarray@.len() && old(self).bitarray@[i] == 1
                        ==> self.bitarray@[i] == 1,
                forall|i: int|
                    0 <= i < self.bitarray@.len() && self.bitarray@[i] == 1 ==> old(self).bitarray@[i] == 1 || exists|p: int|
                        0 <= p < k && i == #[trigger] old(self).probe(target@, p),
            decreases self.hash_count - k,
        {
            let digest = hash_with_seed(target, k);
            let idx = (digest % self.size) as usize;
            let ghost pre = *self;
            self.bitarray[idx] = 1;
            proof {
                assert(self.probe(target@, k as int) == idx as int);
                assert(old(self).probe(target@, k as int) == idx as int);
                assert forall|p: int|
                    0 <= p < k + 1 implies self.bitarray@[#[trigger] self.probe(target@, p)]
                    == 1 by {
                    assert(pre.probe(target@, p) == self.probe(target@, p));
                    if p < k {
                        assert(pre.bitarray@[pre.probe(target@, p)] == 1);
                    }
                }
                assert forall|i: int|
                    0 <= i < self.bitarray@.len() && self.bitarray@[i] == 1 implies old(
                    self,
                ).bitarray@[i] == 1 || (exists|p: int|
                    0 <= p < k + 1 && i == #[trigger] old(self).probe(target@, p)) by {
                    if i != idx as int {
                        assert(pre.bitarray@[i] == 1);
                    } else {
                        assert(i == old(self).probe(target@, k as int));
                    }
                }
            }
            k += 1;
        }
    }

    /// Membership probe: true exactly when every cell selected for `target`
    /// is set — so false means definitely never inserted, while true may be a
    /// false positive.
    #[verifier::loop_isolation(false)]
    pub fn lookup(&self, target: &str) -> (r: bool)
        requires
            self.wf(),
        ensures
            r == self.probes_set(target@),
    {
        let mut k: u32 = 0;
        while k < self.hash_count
            invariant
                k <= self.hash_count,
                forall|p: int|
                    0 <= p < k ==> self.bitarray@[#[trigger] self.probe(target@, p)] == 1,
            decreases self.hash_count - k,
        {
            let digest = hash_with_seed(target, k);
            let idx = (digest % self.size) as usize;
            if self.bitarray[idx] == 0 {
                proof {
                    assert(self.probe(target@, k as int) == idx as int);
                }
                return false;
            }
            proof {
                assert(self.probe(target@, k as int) == idx as int);
            }
            k += 1;
        }
        true
    }
}

impl BloomFilter {
    /// Runtime check of the filter invariant, for values that arrive from
    /// outside the builder — a decoded blob, say: exactly the well-formed
    /// filters are accepted, and only those are safe to probe.
    pub fn check_wf(&self) -> (r: bool)
        ensures
            r == self.wf(),
    {
        if self.size < 1 {
            return false;
        }
        if self.size > usize::MAX as u64 {
            return false;
        }
        if self.bitarray.len() as u64 != self.size {
            return false;
        }
        let n = self.bitarray.len();
        let mut i: usize = 0;
        while i < n
            invariant
                i <= n,
                n == self.bitarray@.len(),
                forall|p: int|
                    0 <= p < i ==> (#[trigger] self.bitarray@[p]) == 0 || self.bitarray@[p] == 1,
            decreases n - i,
        {
            let c = self.bitarray[i];
            if c != 0 && c != 1 {
                return false;
            }
            i += 1;
        }
        true
    }
}

/// No false negatives: once an item's probe cells are all set, they stay set
/// under any later inserts (cells only ever grow), so the item keeps looking
/// up as present in every filter state reachable from that point.
pub proof fn lemma_no_false_negative(f1: BloomFilter, f2: BloomFilter, word: Seq<char>)
    requires
        f1.wf(),
        f2.wf(),
        f1.size == f2.size,
        f1.hash_count == f2.hash_count,
        f1.probes_set(word),
        forall|i: int| 0 <= i < f1.bitarray@.len() && f1.bitarray@[i] == 1 ==> f2.bitarray@[i] == 1,
    ensures
        f2.probes_set(word),
{
    assert forall|k: int|
        0 <= k < f2.hash_count implies f2.bitarray@[#[trigger] f2.probe(word, k)] == 1 by {
        assert(f1.probe(word, k) == f2.probe(word, k));
        assert(f1.bitarray@[f1.probe(word, k)] == 1);
    }
}

} // verus!
