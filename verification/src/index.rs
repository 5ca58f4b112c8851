//! A hash table from object names to positions, kept as buckets keyed by the
//! first eight bytes of the name.
use vstd::prelude::*;

use std::collections::HashMap;

use crate::hash::GitHash;
use crate::pack::be_value;

verus! {

broadcast use vstd::std_specs::hash::group_hash_axioms;

/// The bucket of a name: its first eight bytes, big-endian.
pub open spec fn bucket_of(h: GitHash) -> u64 {
    be_value(h.0@, 0, 8) as u64
}

fn bucket_exec(h: &GitHash) -> (r: u64)
    ensures
        r == bucket_of(*h),
{
    let mut v: u64 = 0;
    let mut k: usize = 0;
    while k < 8
        invariant
            0 <= k <= 8,
            v as int == be_value(h.0@, 0, k as int),
        decreases 8 - k,
    {
        proof {
            crate::pack::lemma_be_value_bound(h.0@, 0, k as int);
            reveal_with_fuel(crate::pack::pow256, 9);
            crate::pack::lemma_pow256_mono(k as int, 7);
        }
        v = v * 256 + h.0[k] as u64;
        k = k + 1;
    }
    v
}

/// A map from object names to `usize` values.
///
/// The reachability walk keeps its visited set here rather than in a
/// `HashSet<GitHash>`: vstd specifies `HashMap` and `HashSet` for keys whose
/// hashing it models (integers among them), and a set keyed by `GitHash`,
/// whose `Hash` and `Eq` are a derive and an impl of this crate, would give
/// no usable contract for `insert` or `contains`. So the table is keyed by a
/// `u64` taken from the name, each bucket holds the names that share it, and
/// the ghost map records what the table means.
pub struct HashIndex {
    buckets: HashMap<u64, Vec<(GitHash, usize)>>,
    contents: Ghost<Map<GitHash, usize>>,
}

impl HashIndex {
    /// What the index maps.
    pub closed spec fn view(&self) -> Map<GitHash, usize> {
        self.contents@
    }

    /// Every entry of a bucket belongs to it, names occur once, and the
    /// entries are exactly the map's.
    pub closed spec fn wf(&self) -> bool {
        &&& forall|k: u64, i: int|
            #![trigger self.buckets@[k]@[i]]
            self.buckets@.contains_key(k) && 0 <= i < self.buckets@[k]@.len() ==> {
                let e = self.buckets@[k]@[i];
                &&& bucket_of(e.0) == k
                &&& self.contents@.contains_key(e.0)
                &&& self.contents@[e.0] == e.1
            }
        &&& forall|k: u64, i: int, j: int|
            #![trigger self.buckets@[k]@[i], self.buckets@[k]@[j]]
            self.buckets@.contains_key(k) && 0 <= i < j < self.buckets@[k]@.len()
                ==> self.buckets@[k]@[i].0 != self.buckets@[k]@[j].0
        &&& forall|h: GitHash|
            #![trigger self.contents@.contains_key(h)]
            self.contents@.contains_key(h) ==> self.buckets@.contains_key(bucket_of(h)) && exists|
                i: int,
            |
                0 <= i < self.buckets@[bucket_of(h)]@.len() && #[trigger] self.buckets@[bucket_of(
                    h,
                )]@[i].0 == h
    }

    pub fn new() -> (r: HashIndex)
        ensures
            r.wf(),
            r.view() == Map::<GitHash, usize>::empty(),
    {
        HashIndex { buckets: HashMap::new(), contents: Ghost(Map::empty()) }
    }

    /// The value stored for `h`, if any.
    pub fn get(&self, h: &GitHash) -> (r: Option<usize>)
        requires
            self.wf(),
        ensures
            r matches Some(v) ==> self.view().contains_key(*h) && self.view()[*h] == v,
            r is None ==> !self.view().contains_key(*h),
    {
        let k = bucket_exec(h);
        match self.buckets.get(&k) {
            None => {
                proof {
                    if self.contents@.contains_key(*h) {
                        assert(self.buckets@.contains_key(bucket_of(*h)));
                    }
                }
                None
            },
            Some(bucket) => {
                let mut i: usize = 0;
                while i < bucket.len()
                    invariant
                        self.wf(),
                        self.buckets@.contains_key(k),
                        *bucket == self.buckets@[k],
                        k == bucket_of(*h),
                        0 <= i <= bucket@.len(),
                        forall|j: int| 0 <= j < i ==> bucket@[j].0 != *h,
                    decreases bucket@.len() - i,
                {
                    let e = bucket[i];
                    if e.0 == *h {
                        proof {
                            crate::hash::lemma_hash_eq(e.0, *h);
                            assert(self.buckets@[k]@[i as int] == e);
                        }
                        return Some(e.1);
                    }
                    proof {
                        crate::hash::lemma_hash_eq(e.0, *h);
                    }
                    i = i + 1;
                }
                proof {
                    if self.contents@.contains_key(*h) {
                        let j = choose|j: int|
                            0 <= j < self.buckets@[bucket_of(*h)]@.len()
                                && #[trigger] self.buckets@[bucket_of(*h)]@[j].0 == *h;
                        assert(bucket@[j].0 == *h);
                    }
                }
                None
            },
        }
    }

    /// Record `h ↦ v`, when `h` is not recorded yet.
    pub fn insert(&mut self, h: GitHash, v: usize)
        requires
            old(self).wf(),
            !old(self).view().contains_key(h),
        ensures
            final(self).wf(),
            final(self).view() == old(self).view().insert(h, v),
    {
        let k = bucket_exec(&h);
        let mut bucket = match self.buckets.remove(&k) {
            Some(b) => b,
            None => Vec::new(),
        };
        let ghost old_bucket = bucket@;
        let ghost old_buckets = old(self).buckets@;
        proof {
            assert(old_buckets.contains_key(k) ==> old_bucket == old_buckets[k]@);
            assert(!old_buckets.contains_key(k) ==> old_bucket.len() == 0);
            assert forall|i: int| 0 <= i < old_bucket.len() implies old_bucket[i].0 != h by {
                assert(old_buckets.contains_key(k));
                assert(old_buckets[k]@[i] == old_bucket[i]);
            }
        }
        bucket.push((h, v));
        self.buckets.insert(k, bucket);
        self.contents = Ghost(self.contents@.insert(h, v));
        proof {
            let nb = self.buckets@;
            assert(nb[k]@ == old_bucket.push((h, v)));
            assert forall|kk: u64, i: int|
                #![trigger nb[kk]@[i]]
                nb.contains_key(kk) && 0 <= i < nb[kk]@.len() implies {
                    let e = nb[kk]@[i];
                    &&& bucket_of(e.0) == kk
                    &&& self.contents@.contains_key(e.0)
                    &&& self.contents@[e.0] == e.1
                } by {
                if kk == k {
                    if i < old_bucket.len() {
                        assert(old_buckets[k]@[i] == nb[kk]@[i]);
                        assert(old_bucket[i].0 != h);
                    }
                } else {
                    assert(old_buckets[kk]@[i] == nb[kk]@[i]);
                    assert(nb[kk]@[i].0 != h) by {
                        assert(bucket_of(nb[kk]@[i].0) == kk);
                    }
                }
            }
            assert forall|kk: u64, i: int, j: int|
                #![trigger nb[kk]@[i], nb[kk]@[j]]
                nb.contains_key(kk) && 0 <= i < j < nb[kk]@.len() implies nb[kk]@[i].0
                != nb[kk]@[j].0 by {
                if kk == k {
                    if j == old_bucket.len() {
                        assert(old_buckets[k]@[i] == nb[kk]@[i]);
                    } else {
                        assert(old_buckets[k]@[i] == nb[kk]@[i]);
                        assert(old_buckets[k]@[j] == nb[kk]@[j]);
                    }
                } else {
                    assert(old_buckets[kk]@[i] == nb[kk]@[i]);
                    assert(old_buckets[kk]@[j] == nb[kk]@[j]);
                }
            }
            assert forall|g: GitHash|
                #![trigger self.contents@.contains_key(g)]
                self.contents@.contains_key(g) implies nb.contains_key(bucket_of(g)) && exists|
                    i: int,
                |
                    0 <= i < nb[bucket_of(g)]@.len() && #[trigger] nb[bucket_of(g)]@[i].0 == g by {
                if g == h {
                    assert(nb[k]@[old_bucket.len() as int].0 == h);
                } else {
                    assert(old(self).contents@.contains_key(g));
                    let bg = bucket_of(g);
                    let i = choose|i: int|
                        0 <= i < old_buckets[bg]@.len() && #[trigger] old_buckets[bg]@[i].0 == g;
                    if bg == k {
                        assert(nb[bg]@[i] == old_buckets[bg]@[i]);
                    } else {
                        assert(nb[bg]@[i] == old_buckets[bg]@[i]);
                    }
                }
            }
        }
    }
}

} // verus!
