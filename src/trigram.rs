//! Inverted index from the 3-byte windows of case-folded text to the rows
//! whose text holds them.
use vstd::prelude::*;
use std::collections::{HashMap, HashSet};
use crate::text::{has_trigram, lower, tri_key, trigram_keys, trigrams};
use vstd::std_specs::iter::IteratorSpec;

verus! {

broadcast use vstd::std_specs::hash::group_hash_axioms;

/// Maps a trigram key to its posting list: the set of rows that hold it.
pub struct TrigramIndex {
    index: HashMap<u32, HashSet<u32>>,
}

/// Some key of `keys` before position `n` is `t`.
pub open spec fn some_key(keys: Seq<u32>, n: int, t: u32) -> bool {
    exists|k: int| 0 <= k < n && keys[k] == t
}

impl TrigramIndex {
    /// The rows that the posting list of `t` holds.
    pub closed spec fn posting(&self, t: u32) -> Set<u32> {
        if self.index@.contains_key(t) {
            self.index@[t]@
        } else {
            Set::empty()
        }
    }

    /// `x` stands in the posting list of each of `keys`.
    closed spec fn in_all(&self, keys: Seq<u32>, x: u32) -> bool {
        forall|j: int| 0 <= j < keys.len() ==> #[trigger] self.index@[keys[j]]@.contains(x)
    }

    /// An index with no postings.
    pub fn new() -> (r: TrigramIndex)
        ensures
            forall|t: u32| #[trigger] r.posting(t) == Set::<u32>::empty(),
    {
        TrigramIndex { index: HashMap::new() }
    }

    /// Adds `row` to the posting list of `t`.
    fn add_key(&mut self, t: u32, row: u32)
        ensures
            forall|u: u32| #[trigger]
                final(self).posting(u) == if u == t {
                    old(self).posting(u).insert(row)
                } else {
                    old(self).posting(u)
                },
    {
        let mut set = match self.index.remove(&t) {
            Some(s) => s,
            None => HashSet::new(),
        };
        set.insert(row);
        self.index.insert(t, set);
        assert forall|u: u32| u != t implies #[trigger] self.posting(u) == old(self).posting(u) by {
            if self.index@.contains_key(u) {
                assert(old(self).index@.contains_key(u));
            }
        }
    }

    /// Takes `row` out of the posting list of `t`; the list itself stays.
    fn remove_key(&mut self, t: u32, row: u32)
        ensures
            forall|u: u32| #[trigger]
                final(self).posting(u) == if u == t {
                    old(self).posting(u).remove(row)
                } else {
                    old(self).posting(u)
                },
    {
        match self.index.remove(&t) {
            Some(s) => {
                let mut set = s;
                set.remove(&row);
                self.index.insert(t, set);
            },
            None => {
                assert(old(self).posting(t).remove(row) =~= Set::<u32>::empty());
            },
        }
        assert forall|u: u32| u != t implies #[trigger] self.posting(u) == old(self).posting(u) by {
            if self.index@.contains_key(u) {
                assert(old(self).index@.contains_key(u));
            }
        }
    }

    /// Adds `row` to the posting list of every trigram of the case-folded `text`.
    pub fn add(&mut self, row: u32, text: &[u8])
        ensures
            forall|t: u32| #[trigger]
                final(self).posting(t) == if trigrams(lower(text@)).contains(t) {
                    old(self).posting(t).insert(row)
                } else {
                    old(self).posting(t)
                },
    {
        let keys = trigram_keys(text);
        let mut i: usize = 0;
        while i < keys.len()
            invariant
                i <= keys@.len(),
                forall|t: u32| #[trigger]
                    self.posting(t) == if some_key(keys@, i as int, t) {
                        old(self).posting(t).insert(row)
                    } else {
                        old(self).posting(t)
                    },
            decreases keys@.len() - i,
        {
            let ghost mid = *self;
            self.add_key(keys[i], row);
            assert forall|t: u32| #[trigger]
                self.posting(t) == if some_key(keys@, i + 1, t) {
                    old(self).posting(t).insert(row)
                } else {
                    old(self).posting(t)
                } by {
                if t == keys@[i as int] {
                    assert(some_key(keys@, i + 1, t));
                    assert(mid.posting(t).insert(row) =~= old(self).posting(t).insert(row));
                } else if some_key(keys@, i + 1, t) {
                    let k = choose|k: int| 0 <= k < i + 1 && keys@[k] == t;
                    assert(some_key(keys@, i as int, t));
                }
            }
            i += 1;
        }
        proof {
            lemma_keys_are_trigrams(text@, keys@);
        }
    }

    /// Takes `row` out of the posting list of every trigram of the case-folded `text`.
    pub fn remove(&mut self, row: u32, text: &[u8])
        ensures
            forall|t: u32| #[trigger]
                final(self).posting(t) == if trigrams(lower(text@)).contains(t) {
                    old(self).posting(t).remove(row)
                } else {
                    old(self).posting(t)
                },
    {
        let keys = trigram_keys(text);
        let mut i: usize = 0;
        while i < keys.len()
            invariant
                i <= keys@.len(),
                forall|t: u32| #[trigger]
                    self.posting(t) == if some_key(keys@, i as int, t) {
                        old(self).posting(t).remove(row)
                    } else {
                        old(self).posting(t)
                    },
            decreases keys@.len() - i,
        {
            let ghost mid = *self;
            self.remove_key(keys[i], row);
            assert forall|t: u32| #[trigger]
                self.posting(t) == if some_key(keys@, i + 1, t) {
                    old(self).posting(t).remove(row)
                } else {
                    old(self).posting(t)
                } by {
                if t == keys@[i as int] {
                    assert(some_key(keys@, i + 1, t));
                    assert(mid.posting(t).remove(row) =~= old(self).posting(t).remove(row));
                } else if some_key(keys@, i + 1, t) {
                    let k = choose|k: int| 0 <= k < i + 1 && keys@[k] == t;
                    assert(some_key(keys@, i as int, t));
                }
            }
            i += 1;
        }
        proof {
            lemma_keys_are_trigrams(text@, keys@);
        }
    }

    /// Moves `row` from the trigrams of `old_text` to those of `new_text`;
    /// nothing changes when the two texts are equal.
    pub fn update(&mut self, row: u32, old_text: &[u8], new_text: &[u8])
        ensures
            old_text@ == new_text@ ==> forall|t: u32| #[trigger]
                final(self).posting(t) == old(self).posting(t),
            old_text@ != new_text@ ==> forall|t: u32| #[trigger]
                final(self).posting(t) == if trigrams(lower(new_text@)).contains(t) {
                    old(self).posting(t).insert(row)
                } else if trigrams(lower(old_text@)).contains(t) {
                    old(self).posting(t).remove(row)
                } else {
                    old(self).posting(t)
                },
    {
        if !bytes_equal(old_text, new_text) {
            let ghost start = *self;
            self.remove(row, old_text);
            let ghost mid = *self;
            self.add(row, new_text);
            assert forall|t: u32| #[trigger]
                self.posting(t) == if trigrams(lower(new_text@)).contains(t) {
                    start.posting(t).insert(row)
                } else if trigrams(lower(old_text@)).contains(t) {
                    start.posting(t).remove(row)
                } else {
                    start.posting(t)
                } by {
                if trigrams(lower(new_text@)).contains(t) {
                    assert(mid.posting(t).insert(row) =~= start.posting(t).insert(row));
                }
            }
        }
    }

    /// The rows that hold every trigram of the case-folded `query`, each once;
    /// nothing when the query is shorter than three bytes.
    pub fn search(&self, query: &[u8]) -> (r: Vec<u32>)
        ensures
            r@.no_duplicates(),
            query@.len() < 3 ==> r@.len() == 0,
            query@.len() >= 3 ==> forall|x: u32|
                r@.contains(x) <==> (forall|t: u32|
                    #[trigger] trigrams(lower(query@)).contains(t) ==> self.posting(t).contains(x)),
    {
        let keys = trigram_keys(query);
        proof {
            lemma_keys_are_trigrams(query@, keys@);
        }
        if keys.len() == 0 {
            return Vec::new();
        }
        let mut k: usize = 0;
        while k < keys.len()
            invariant
                k <= keys@.len(),
                forall|j: int| 0 <= j < k ==> self.index@.contains_key(#[trigger] keys@[j]),
                query@.len() < 3 ==> keys@.len() == 0,
                query@.len() >= 3 ==> keys@.len() == query@.len() - 2,
                forall|j: int| 0 <= j < keys@.len() ==> keys@[j] == tri_key(lower(query@), j),
            decreases keys@.len() - k,
        {
            if !self.index.contains_key(&keys[k]) {
                proof {
                    lemma_keys_are_trigrams(query@, keys@);
                }
                assert(trigrams(lower(query@)).contains(keys@[k as int]));
                assert(self.posting(keys@[k as int]) =~= Set::<u32>::empty());
                return Vec::new();
            }
            k += 1;
        }
        let first = rows_of(self.index.get(&keys[0]).unwrap());
        let mut result: Vec<u32> = Vec::new();
        let mut i: usize = 0;
        while i < first.len()
            invariant
                keys@.len() > 0,
                forall|j: int| 0 <= j < keys@.len() ==> self.index@.contains_key(#[trigger] keys@[j]),
                first@.no_duplicates(),
                forall|y: u32| #[trigger] first@.contains(y) <==> self.index@[keys@[0]]@.contains(y),
                i <= first@.len(),
                query@.len() < 3 ==> keys@.len() == 0,
                query@.len() >= 3 ==> keys@.len() == query@.len() - 2,
                forall|j: int| 0 <= j < keys@.len() ==> keys@[j] == tri_key(lower(query@), j),
                result@.no_duplicates(),
                forall|y: u32|
                    result@.contains(y) <==> (first@.subrange(0, i as int).contains(y)
                        && self.in_all(keys@, y)),
            decreases first@.len() - i,
        {
            let x = first[i];
            assert(first@.contains(x));
            assert(self.index@[keys@[0]]@.contains(x));
            let mut all = true;
            let mut j: usize = 1;
            while j < keys.len()
                invariant
                    forall|jj: int| 0 <= jj < keys@.len() ==> self.index@.contains_key(#[trigger] keys@[jj]),
                    x == first@[i as int],
                    i < first@.len(),
                    1 <= j <= keys@.len(),
                    all == (forall|jj: int| 0 <= jj < j ==> #[trigger] self.index@[keys@[jj]]@.contains(x)),
                decreases keys@.len() - j,
            {
                if !self.index.get(&keys[j]).unwrap().contains(&x) {
                    all = false;
                }
                j += 1;
            }
            let ghost seen = first@.subrange(0, i as int);
            assert(first@.subrange(0, i + 1) =~= seen.push(x));
            assert(self.index@.contains_key(keys@[0]));
            assert(first@.contains(x));
            assert(!seen.contains(x)) by {
                if seen.contains(x) {
                    let a = choose|a: int| 0 <= a < i && seen[a] == x;
                    assert(first@[a] == first@[i as int]);
                }
            }
            proof {
                lemma_push_no_dup(seen, x);
            }
            let ghost before = result@;
            if all {
                proof {
                    lemma_push_no_dup(before, x);
                }
                result.push(x);
            }
            assert forall|y: u32|
                result@.contains(y) <==> (first@.subrange(0, i + 1).contains(y) && self.in_all(
                    keys@,
                    y,
                )) by {
                if y != x {
                    assert(result@.contains(y) == before.contains(y));
                } else if all {
                    assert(self.in_all(keys@, x));
                    assert(result@[before.len() as int] == x);
                    assert(result@.contains(x));
                } else {
                    assert(!self.in_all(keys@, x));
                    assert(!before.contains(x));
                }
            }
            i += 1;
        }
        assert(first@.subrange(0, first@.len() as int) =~= first@);
        proof {
            lemma_keys_are_trigrams(query@, keys@);
        }
        assert forall|x: u32|
            #![trigger result@.contains(x)]
            result@.contains(x) <==> (forall|t: u32|
                #[trigger] trigrams(lower(query@)).contains(t) ==> self.posting(t).contains(x)) by {
            if result@.contains(x) {
                assert(self.in_all(keys@, x));
                assert forall|t: u32| #[trigger] trigrams(lower(query@)).contains(t) implies self.posting(
                    t,
                ).contains(x) by {
                    let j = choose|j: int| 0 <= j < keys@.len() && keys@[j] == t;
                    assert(self.index@[keys@[j]]@.contains(x));
                }
            }
            if forall|t: u32|
                #[trigger] trigrams(lower(query@)).contains(t) ==> self.posting(t).contains(x) {
                assert forall|j: int| 0 <= j < keys@.len() implies #[trigger] self.index@[keys@[
                    j
                ]]@.contains(x) by {
                    assert(trigrams(lower(query@)).contains(keys@[j]));
                    assert(self.posting(keys@[j]).contains(x));
                }
                assert(self.in_all(keys@, x));
                assert(self.index@[keys@[0]]@.contains(x));
                assert(first@.contains(x));
            }
        }
        result
    }

    /// Drops every posting list.
    pub fn clear(&mut self)
        ensures
            forall|t: u32| #[trigger] final(self).posting(t) == Set::<u32>::empty(),
    {
        self.index.clear();
    }
}

proof fn lemma_push_no_dup(s: Seq<u32>, x: u32)
    requires
        s.no_duplicates(),
        !s.contains(x),
    ensures
        s.push(x).no_duplicates(),
        forall|y: u32| s.push(x).contains(y) <==> (s.contains(y) || y == x),
{
    assert forall|y: u32| s.push(x).contains(y) <==> (s.contains(y) || y == x) by {
        if s.contains(y) {
            let a = choose|a: int| 0 <= a < s.len() && s[a] == y;
            assert(s.push(x)[a] == y);
        }
        if y == x {
            assert(s.push(x)[s.len() as int] == x);
        }
        if s.push(x).contains(y) {
            let a = choose|a: int| 0 <= a < s.len() + 1 && s.push(x)[a] == y;
            if a < s.len() {
                assert(s[a] == y);
            }
        }
    }
}

/// The rows of a posting list, each once, in the set's iteration order.
fn rows_of(set: &HashSet<u32>) -> (r: Vec<u32>)
    ensures
        r@.no_duplicates(),
        forall|y: u32| #[trigger] r@.contains(y) <==> set@.contains(y),
{
    let mut r: Vec<u32> = Vec::new();
    let ghost items = vstd::std_specs::hash::spec_hash_keys_iter(set).remaining();
    for x in it: set.iter()
        invariant
            it.seq() == items,
            r@ == it.seq().subrange(0, it.index() as int).unref(),
    {
        assert(it.seq().subrange(0, it.index() + 1).unref() =~= it.seq().subrange(
            0,
            it.index() as int,
        ).unref().push(*x));
        r.push(*x);
    }
    assert(r@ =~= items.unref());
    r
}

/// Whether two byte strings are equal.
pub fn bytes_equal(a: &[u8], b: &[u8]) -> (r: bool)
    ensures
        r == (a@ == b@),
{
    if a.len() != b.len() {
        return false;
    }
    let mut i: usize = 0;
    while i < a.len()
        invariant
            a@.len() == b@.len(),
            i <= a@.len(),
            forall|k: int| 0 <= k < i ==> a@[k] == b@[k],
        decreases a@.len() - i,
    {
        if a[i] != b[i] {
            return false;
        }
        i += 1;
    }
    assert(a@ =~= b@);
    true
}

/// The keys that `trigram_keys` gives are the trigrams of the case-folded text.
proof fn lemma_keys_are_trigrams(text: Seq<u8>, keys: Seq<u32>)
    requires
        text.len() < 3 ==> keys.len() == 0,
        text.len() >= 3 ==> keys.len() == text.len() - 2,
        forall|i: int| 0 <= i < keys.len() ==> keys[i] == tri_key(lower(text), i),
    ensures
        forall|t: u32| #[trigger] trigrams(lower(text)).contains(t) <==> some_key(keys, keys.len() as int, t),
        text.len() < 3 ==> forall|t: u32| !#[trigger] trigrams(lower(text)).contains(t),
        forall|j: int| 0 <= j < keys.len() ==> trigrams(lower(text)).contains(#[trigger] keys[j]),
{
    assert forall|t: u32| #[trigger] trigrams(lower(text)).contains(t) <==> some_key(keys, keys.len() as int, t) by {
        if has_trigram(lower(text), t) {
            let i = choose|i: int| 0 <= i && i + 3 <= lower(text).len() && #[trigger] tri_key(lower(text), i) == t;
            assert(keys[i] == t);
        }
        if some_key(keys, keys.len() as int, t) {
            let k = choose|k: int| 0 <= k < keys.len() && keys[k] == t;
            assert(tri_key(lower(text), k) == t);
        }
    }
    assert forall|j: int| 0 <= j < keys.len() implies trigrams(lower(text)).contains(#[trigger] keys[j]) by {
        assert(some_key(keys, keys.len() as int, keys[j]));
    }
}

} // verus!
