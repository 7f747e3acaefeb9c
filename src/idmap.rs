//! Buckets of row indices keyed by a hash of the primary key's bytes.
use vstd::prelude::*;
use std::collections::HashMap;

verus! {

broadcast use vstd::std_specs::hash::group_hash_axioms;

/// The FNV-1a offset basis.
pub const FNV_OFFSET: u64 = 0xcbf2_9ce4_8422_2325;

/// The FNV-1a prime.
pub const FNV_PRIME: u64 = 0x0000_0100_0000_01b3;

/// FNV-1a hash of a byte string.
pub open spec fn id_hash(s: Seq<u8>) -> u64
    decreases s.len(),
{
    if s.len() == 0 {
        FNV_OFFSET
    } else {
        (id_hash(s.drop_last()) ^ (s.last() as u64)).wrapping_mul(FNV_PRIME)
    }
}

/// The hash of `s`.
pub fn hash_bytes(s: &[u8]) -> (h: u64)
    ensures
        h == id_hash(s@),
{
    let mut h: u64 = FNV_OFFSET;
    let mut i: usize = 0;
    assert(s@.subrange(0, 0) =~= Seq::<u8>::empty());
    while i < s.len()
        invariant
            i <= s@.len(),
            h == id_hash(s@.subrange(0, i as int)),
        decreases s@.len() - i,
    {
        assert(s@.subrange(0, i + 1).drop_last() =~= s@.subrange(0, i as int));
        h = (h ^ (s[i] as u64)).wrapping_mul(FNV_PRIME);
        i += 1;
    }
    assert(s@.subrange(0, i as int) =~= s@);
    h
}

/// Row indices grouped by the hash of their primary key.
pub struct IdMap {
    buckets: HashMap<u64, Vec<u32>>,
}

impl IdMap {
    /// The rows in the bucket of hash `h`.
    pub closed spec fn bucket(&self, h: u64) -> Seq<u32> {
        if self.buckets@.contains_key(h) {
            self.buckets@[h]@
        } else {
            Seq::empty()
        }
    }

    /// A map with every bucket empty.
    pub fn new() -> (r: IdMap)
        ensures
            forall|h: u64| #[trigger] r.bucket(h) == Seq::<u32>::empty(),
    {
        IdMap { buckets: HashMap::new() }
    }

    /// Appends `row` to the bucket of `h`.
    pub fn add(&mut self, h: u64, row: u32)
        ensures
            forall|g: u64| #[trigger]
                final(self).bucket(g) == if g == h {
                    old(self).bucket(g).push(row)
                } else {
                    old(self).bucket(g)
                },
    {
        let mut list = match self.buckets.remove(&h) {
            Some(l) => l,
            None => Vec::new(),
        };
        list.push(row);
        self.buckets.insert(h, list);
        assert forall|g: u64| g != h implies #[trigger] self.bucket(g) == old(self).bucket(g) by {
            if self.buckets@.contains_key(g) {
                assert(old(self).buckets@.contains_key(g));
            }
        }
    }

    /// The rows in the bucket of `h`.
    pub fn get(&self, h: u64) -> (r: &[u32])
        ensures
            r@ == self.bucket(h),
    {
        match self.buckets.get(&h) {
            Some(l) => l.as_slice(),
            None => &[],
        }
    }
}

} // verus!
