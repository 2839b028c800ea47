//! Per-window k-mer count tables with a cheap reset.
//!
//! Two strategies share one interface (`bump` returns the prior count,
//! `reset` empties the table): a flat array over all `4^k` codes whose entries
//! are invalidated by an epoch counter, and a hash map for larger `k`.
use rustc_hash::FxHashMap;
use vstd::prelude::*;

verus! {

/// rustc_hash's `FxBuildHasher`, the hasher of the hashed count table.
#[verifier::external_type_specification]
#[verifier::external_body]
pub struct ExFxBuildHasher(rustc_hash::FxBuildHasher);

/// Relies on `HashMap::get` over rustc_hash's `FxBuildHasher`, whose hashers
/// all start from the same state, so a lookup finds what was inserted.
#[verifier::external_body]
fn fx_get(map: &FxHashMap<u64, u64>, code: u64) -> (r: Option<u64>)
    ensures
        r == (if map@.contains_key(code) {
            Some(map@[code])
        } else {
            None
        }),
{
    map.get(&code).copied()
}

/// Relies on `HashMap::insert` over rustc_hash's `FxBuildHasher`: the key is
/// mapped to the value, the other keys keep theirs.
#[verifier::external_body]
fn fx_insert(map: &mut FxHashMap<u64, u64>, code: u64, value: u64)
    ensures
        final(map)@ == old(map)@.insert(code, value),
{
    map.insert(code, value);
}

/// Counts in a flat array indexed by code. An entry counts only where its
/// stamp equals the current epoch, so a reset only moves the epoch on.
pub struct FlatCounts {
    counts: Vec<u64>,
    stamps: Vec<u32>,
    epoch: u32,
}

impl FlatCounts {
    pub closed spec fn wf(&self) -> bool {
        &&& self.counts@.len() == self.stamps@.len()
        &&& self.epoch >= 1
        &&& forall|i: int| 0 <= i < self.stamps@.len() ==> #[trigger] self.stamps@[i] <= self.epoch
    }

    /// Number of codes the table holds: codes below it can be counted.
    pub closed spec fn capacity(&self) -> nat {
        self.counts@.len()
    }

    pub closed spec fn count(&self, code: u64) -> nat {
        if (code as int) < self.counts@.len() && self.stamps@[code as int] == self.epoch {
            self.counts@[code as int] as nat
        } else {
            0
        }
    }

    /// An empty table for the codes below `capacity`.
    pub fn new(capacity: usize) -> (r: FlatCounts)
        ensures
            r.wf(),
            r.capacity() == capacity,
            forall|x: u64| r.count(x) == 0,
    {
        let mut counts: Vec<u64> = Vec::new();
        let mut stamps: Vec<u32> = Vec::new();
        let mut i: usize = 0;
        while i < capacity
            invariant
                i <= capacity,
                counts@.len() == i,
                stamps@.len() == i,
                forall|j: int| 0 <= j < i ==> #[trigger] stamps@[j] == 0,
            decreases capacity - i,
        {
            counts.push(0);
            stamps.push(0);
            i += 1;
        }
        FlatCounts { counts, stamps, epoch: 1 }
    }

    /// Empties the table; on epoch wrap-around every stamp is cleared.
    pub fn reset(&mut self)
        requires
            old(self).wf(),
        ensures
            final(self).wf(),
            final(self).capacity() == old(self).capacity(),
            forall|x: u64| final(self).count(x) == 0,
    {
        if self.epoch == u32::MAX {
            let n = self.stamps.len();
            let mut i: usize = 0;
            while i < n
                invariant
                    i <= n,
                    n == self.stamps@.len(),
                    self.counts@.len() == n,
                    forall|j: int| 0 <= j < i ==> #[trigger] self.stamps@[j] == 0,
                decreases n - i,
            {
                self.stamps.set(i, 0);
                i += 1;
            }
            self.epoch = 1;
        } else {
            self.epoch = self.epoch + 1;
        }
    }

    /// Adds one occurrence of `code` and returns its count before.
    pub fn bump(&mut self, code: u64) -> (prior: u64)
        requires
            old(self).wf(),
            (code as int) < old(self).capacity(),
            old(self).count(code) < u64::MAX,
        ensures
            final(self).wf(),
            final(self).capacity() == old(self).capacity(),
            prior == old(self).count(code),
            final(self).count(code) == old(self).count(code) + 1,
            forall|x: u64| x != code ==> final(self).count(x) == old(self).count(x),
    {
        let n = self.counts.len();
        assert(code < n);
        let i = code as usize;
        if self.stamps[i] == self.epoch {
            let c = self.counts[i];
            self.counts.set(i, c + 1);
            c
        } else {
            self.stamps.set(i, self.epoch);
            self.counts.set(i, 1);
            0
        }
    }
}

/// Counts in a hash map keyed by code.
pub struct HashCounts {
    map: FxHashMap<u64, u64>,
}

impl HashCounts {
    pub closed spec fn count(&self, code: u64) -> nat {
        if self.map@.contains_key(code) {
            self.map@[code] as nat
        } else {
            0
        }
    }

    pub fn new() -> (r: HashCounts)
        ensures
            forall|x: u64| r.count(x) == 0,
    {
        HashCounts { map: FxHashMap::default() }
    }

    pub fn reset(&mut self)
        ensures
            forall|x: u64| final(self).count(x) == 0,
    {
        self.map.clear();
    }

    /// The count of `code`.
    pub fn count_of(&self, code: u64) -> (c: u64)
        ensures
            c == self.count(code),
    {
        match fx_get(&self.map, code) {
            Some(c) => c,
            None => 0,
        }
    }

    /// Adds one occurrence of `code` and returns its count before.
    pub fn bump(&mut self, code: u64) -> (prior: u64)
        requires
            old(self).count(code) < u64::MAX,
        ensures
            prior == old(self).count(code),
            final(self).count(code) == old(self).count(code) + 1,
            forall|x: u64| x != code ==> final(self).count(x) == old(self).count(x),
    {
        let prior = match fx_get(&self.map, code) {
            Some(c) => c,
            None => 0,
        };
        fx_insert(&mut self.map, code, prior + 1);
        prior
    }
}

/// Largest `k` for which the flat table is used: `4^12` codes.
pub const FLAT_MAX_K: usize = 12;

/// A count table of either strategy.
pub enum CountTable {
    Flat(FlatCounts),
    Hashed(HashCounts),
}

impl CountTable {
    pub open spec fn wf(&self) -> bool {
        match self {
            CountTable::Flat(f) => f.wf(),
            CountTable::Hashed(_) => true,
        }
    }

    /// The table can count `code`.
    pub open spec fn accepts(&self, code: u64) -> bool {
        match self {
            CountTable::Flat(f) => (code as int) < f.capacity(),
            CountTable::Hashed(_) => true,
        }
    }

    pub open spec fn count(&self, code: u64) -> nat {
        match self {
            CountTable::Flat(f) => f.count(code),
            CountTable::Hashed(h) => h.count(code),
        }
    }

    /// An empty table for the codes of k-mers: flat up to `FLAT_MAX_K`, hashed above.
    pub fn for_k(k: usize) -> (r: CountTable)
        requires
            k <= 31,
        ensures
            r.wf(),
            forall|x: u64| x < crate::kmer::pow4(k as nat) ==> r.accepts(x),
            forall|x: u64| r.count(x) == 0,
    {
        if k <= FLAT_MAX_K {
            let mut capacity: usize = 1;
            let mut e: usize = 0;
            while e < k
                invariant
                    e <= k <= FLAT_MAX_K,
                    capacity == crate::kmer::pow4(e as nat),
                decreases k - e,
            {
                proof {
                    crate::kmer::lemma_pow4_monotone((e + 1) as nat, 12);
                    assert(crate::kmer::pow4(12) == 16777216) by {
                        reveal_with_fuel(crate::kmer::pow4, 13);
                    }
                }
                capacity = capacity * 4;
                e += 1;
            }
            CountTable::Flat(FlatCounts::new(capacity))
        } else {
            CountTable::Hashed(HashCounts::new())
        }
    }

    pub fn reset(&mut self)
        requires
            old(self).wf(),
        ensures
            final(self).wf(),
            forall|x: u64| final(self).accepts(x) == old(self).accepts(x),
            forall|x: u64| final(self).count(x) == 0,
    {
        match self {
            CountTable::Flat(f) => f.reset(),
            CountTable::Hashed(h) => h.reset(),
        }
    }

    /// Adds one occurrence of `code` and returns its count before.
    pub fn bump(&mut self, code: u64) -> (prior: u64)
        requires
            old(self).wf(),
            old(self).accepts(code),
            old(self).count(code) < u64::MAX,
        ensures
            final(self).wf(),
            forall|x: u64| final(self).accepts(x) == old(self).accepts(x),
            prior == old(self).count(code),
            final(self).count(code) == old(self).count(code) + 1,
            forall|x: u64| x != code ==> final(self).count(x) == old(self).count(x),
    {
        match self {
            CountTable::Flat(f) => f.bump(code),
            CountTable::Hashed(h) => h.bump(code),
        }
    }
}

} // verus!
