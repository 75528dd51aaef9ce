//! A sharded hash map.
//!
//! Keys are spread by a hash over a fixed number of independent shards, so
//! that work on unrelated keys touches unrelated shards. The map is modelled
//! by a single abstract `Map<K, V>`: the union of the shards, which never
//! share a key. A lookup scans the shards, so its answer is exact no matter
//! which shard the hash picked for the key when it was stored.

use vstd::prelude::*;
use vstd::pervasive::cloned;
use vstd::std_specs::hash::obeys_key_model;
use std::collections::HashMap;
use std::collections::hash_map::DefaultHasher;
use std::hash::{Hash, Hasher};

verus! {

broadcast use vstd::std_specs::hash::group_hash_axioms;

/// Relies on `Hash::hash`: feeds the key's representation into the hasher.
/// Nothing is assumed about the digest beyond what `DefaultHasher` promises.
#[verifier::external_body]
fn feed_key<K: Hash>(key: &K, state: &mut DefaultHasher) {
    key.hash(state)
}

/// The shard a key is filed under when it is first stored: the key's digest
/// folded into an index strictly below `num_shards`.
fn shard_slot<K: Hash>(key: &K, num_shards: usize) -> (r: usize)
    requires
        num_shards > 0,
    ensures
        r < num_shards,
{
    let mut hasher = DefaultHasher::new();
    feed_key(key, &mut hasher);
    let digest: u64 = hasher.finish();
    (digest % (num_shards as u64)) as usize
}

/// A map split into `num_shards` shards, each an ordinary hash map.
pub struct ConcurrentHashMap<K, V> where K: Eq + Hash + Clone, V: Clone {
    pub num_shards: usize,
    pub shards: Vec<HashMap<K, V>>,
}

impl<K, V> View for ConcurrentHashMap<K, V> where K: Eq + Hash + Clone, V: Clone {
    type V = Map<K, V>;

    /// The union of the shards: a key is present when some shard holds it,
    /// and maps to the value that shard gives it.
    closed spec fn view(&self) -> Map<K, V> {
        Map::new(
            |k: K|
                exists|i: int|
                    0 <= i < self.shards@.len() && (#[trigger] self.shards@[i])@.contains_key(k),
            |k: K|
                {
                    let i = choose|i: int|
                        0 <= i < self.shards@.len() && (#[trigger] self.shards@[i])@.contains_key(
                            k,
                        );
                    self.shards@[i]@[k]
                },
        )
    }
}

impl<K, V> ConcurrentHashMap<K, V> where K: Eq + Hash + Clone, V: Clone {
    /// Well-formedness: there is at least one shard, `num_shards` counts
    /// them, no two shards hold the same key, and the key type admits the
    /// hash-table key model.
    pub closed spec fn wf(&self) -> bool {
        &&& self.num_shards == self.shards@.len()
        &&& self.num_shards > 0
        &&& obeys_key_model::<K>()
        &&& forall|i: int, j: int, k: K|
            0 <= i < self.shards@.len() && 0 <= j < self.shards@.len() && i != j
                && #[trigger] self.shards@[i]@.dom().contains(k)
                ==> !(#[trigger] self.shards@[j]@.dom().contains(k))
    }

    pub fn new(num_shards: usize) -> (m: Self)
        requires
            num_shards > 0,
            obeys_key_model::<K>(),
        ensures
            m.wf(),
            m.num_shards == num_shards,
            m@ == Map::<K, V>::empty(),
    {
        let mut shards: Vec<HashMap<K, V>> = Vec::with_capacity(num_shards);
        while shards.len() < num_shards
            invariant
                shards@.len() <= num_shards,
                forall|i: int|
                    0 <= i < shards@.len() ==> (#[trigger] shards@[i])@ == Map::<K, V>::empty(),
            decreases num_shards - shards.len(),
        {
            shards.push(HashMap::new());
        }
        let m = ConcurrentHashMap { num_shards, shards };
        proof {
            assert(m@ =~= Map::<K, V>::empty());
        }
        m
    }

    pub fn get(&self, key: &K) -> (r: Option<V>)
        requires
            self.wf(),
        ensures
            self@.contains_key(*key) ==> r is Some && cloned(self@[*key], r.unwrap()),
            !self@.contains_key(*key) ==> r is None,
    {
        let mut idx: usize = 0;
        while idx < self.shards.len()
            invariant
                self.wf(),
                idx <= self.shards@.len(),
                forall|i: int| 0 <= i < idx ==> !(#[trigger] self.shards@[i])@.contains_key(*key),
            decreases self.shards@.len() - idx,
        {
            match self.shards[idx].get(key) {
                Some(v) => {
                    proof {
                        assert(self.shards@[idx as int]@.contains_key(*key));
                        assert(self@.contains_key(*key));
                        let j = choose|j: int|
                            0 <= j < self.shards@.len() && (
                            #[trigger] self.shards@[j])@.contains_key(*key);
                        assert(j == idx);
                        assert(self@[*key] == *v);
                    }
                    return Some(v.clone());
                }
                None => {
                    idx = idx + 1;
                }
            }
        }
        proof {
            assert(!self@.contains_key(*key));
        }
        None
    }

    pub fn insert(&mut self, key: K, value: V) -> (r: Option<V>)
        requires
            old(self).wf(),
        ensures
            final(self).wf(),
            final(self)@ == old(self)@.insert(key, value),
            old(self)@.contains_key(key) ==> r == Some(old(self)@[key]),
            !old(self)@.contains_key(key) ==> r is None,
    {
        let n = self.shards.len();
        let mut found: Option<usize> = None;
        let mut i: usize = 0;
        while i < n
            invariant
                *self == *old(self),
                self.wf(),
                n == self.shards@.len(),
                i <= n,
                match found {
                    Some(fi) => fi < n && (#[trigger] self.shards@[fi as int])@.contains_key(key),
                    None => forall|j: int|
                        0 <= j < i ==> !(#[trigger] self.shards@[j])@.contains_key(key),
                },
            decreases n - i,
        {
            if found.is_none() && self.shards[i].contains_key(&key) {
                found = Some(i);
            }
            i = i + 1;
        }
        let dest: usize = match found {
            Some(fi) => fi,
            None => shard_slot(&key, n),
        };
        proof {
            assert(dest < self.shards@.len());
            if found is Some {
                assert(self.shards@[dest as int]@.contains_key(key));
            } else {
                assert(forall|j: int|
                    0 <= j < self.shards@.len() ==> !(#[trigger] self.shards@[j])@.contains_key(
                        key,
                    ));
            }
        }
        let shard = &mut self.shards[dest];
        let r = shard.insert(key, value);
        proof {
            let pre = old(self).shards@;
            let post = self.shards@;
            assert(post =~= pre.update(dest as int, post[dest as int]));
            assert(post[dest as int]@ == pre[dest as int]@.insert(key, value));
            // The containing shard, if any, was `dest`, so `old(self)@[key]`
            // came from `dest` and the returned value matches the contract.
            if old(self)@.contains_key(key) {
                let j = choose|j: int|
                    0 <= j < pre.len() && (#[trigger] pre[j])@.contains_key(key);
                assert(j == dest);
                assert(old(self)@[key] == pre[dest as int]@[key]);
            }
            // Shards still never share a key: only `dest` changed, and the
            // key it gained lives in no other shard.
            assert forall|a: int, b: int, k2: K|
                0 <= a < post.len() && 0 <= b < post.len() && a != b
                    && #[trigger] post[a]@.dom().contains(k2) implies !(
            #[trigger] post[b]@.dom().contains(k2)) by {
                if k2 == key {
                    assert(post[dest as int]@.contains_key(k2));
                    if a != dest {
                        assert(pre[a]@.contains_key(k2));
                        assert(found is Some ==> a == dest);
                        assert(false);
                    }
                } else {
                    assert(pre[a]@.contains_key(k2));
                    assert(!pre[b]@.contains_key(k2));
                }
            }
            assert(self.wf());
            // The union map is the old union with `key` now bound to `value`.
            assert forall|k2: K| true implies #[trigger] self@.contains_key(k2) == old(
                self,
            )@.insert(key, value).contains_key(k2) by {
                if k2 == key {
                    assert(post[dest as int]@.contains_key(k2));
                    assert(self@.contains_key(k2));
                    assert(old(self)@.insert(key, value).contains_key(k2));
                } else {
                    assert(forall|j: int|
                        0 <= j < post.len() ==> ((#[trigger] post[j])@.contains_key(k2) <==> pre[j]@.contains_key(
                            k2,
                        )));
                    if self@.contains_key(k2) {
                        let ia = choose|ia: int|
                            0 <= ia < post.len() && (#[trigger] post[ia])@.contains_key(k2);
                        assert(pre[ia]@.contains_key(k2));
                        assert(old(self)@.contains_key(k2));
                    }
                    if old(self)@.contains_key(k2) {
                        let ib = choose|ib: int|
                            0 <= ib < pre.len() && (#[trigger] pre[ib])@.contains_key(k2);
                        assert(post[ib]@.contains_key(k2));
                        assert(self@.contains_key(k2));
                    }
                }
            }
            assert forall|k2: K| self@.contains_key(k2) implies #[trigger] self@[k2] == old(
                self,
            )@.insert(key, value)[k2] by {
                let j = choose|j: int|
                    0 <= j < post.len() && (#[trigger] post[j])@.contains_key(k2);
                if k2 == key {
                    assert(j == dest);
                    assert(self@[k2] == value);
                } else {
                    assert(pre[j]@.contains_key(k2));
                    assert(old(self)@.contains_key(k2));
                    let j2 = choose|j2: int|
                        0 <= j2 < pre.len() && (#[trigger] pre[j2])@.contains_key(k2);
                    assert(j2 == j);
                    assert(self@[k2] == post[j]@[k2]);
                    assert(old(self)@[k2] == pre[j]@[k2]);
                }
            }
            assert(self@ =~= old(self)@.insert(key, value));
        }
        r
    }

    pub fn remove(&mut self, key: &K) -> (r: Option<V>)
        requires
            old(self).wf(),
        ensures
            final(self).wf(),
            final(self)@ == old(self)@.remove(*key),
            old(self)@.contains_key(*key) ==> r == Some(old(self)@[*key]),
            !old(self)@.contains_key(*key) ==> r is None,
    {
        let n = self.shards.len();
        let mut found: Option<usize> = None;
        let mut i: usize = 0;
        while i < n
            invariant
                *self == *old(self),
                self.wf(),
                n == self.shards@.len(),
                i <= n,
                match found {
                    Some(fi) => fi < n && (#[trigger] self.shards@[fi as int])@.contains_key(*key),
                    None => forall|j: int|
                        0 <= j < i ==> !(#[trigger] self.shards@[j])@.contains_key(*key),
                },
            decreases n - i,
        {
            if found.is_none() && self.shards[i].contains_key(key) {
                found = Some(i);
            }
            i = i + 1;
        }
        match found {
            Some(fi) => {
                let shard = &mut self.shards[fi];
                let r = shard.remove(key);
                proof {
                    let pre = old(self).shards@;
                    let post = self.shards@;
                    assert(post =~= pre.update(fi as int, post[fi as int]));
                    assert(post[fi as int]@ == pre[fi as int]@.remove(*key));
                    let j = choose|j: int|
                        0 <= j < pre.len() && (#[trigger] pre[j])@.contains_key(*key);
                    assert(j == fi);
                    assert(old(self)@.contains_key(*key));
                    assert(old(self)@[*key] == pre[fi as int]@[*key]);
                    assert(r == Some(old(self)@[*key]));
                    assert forall|a: int, b: int, k2: K|
                        0 <= a < post.len() && 0 <= b < post.len() && a != b
                            && #[trigger] post[a]@.dom().contains(k2) implies !(
                    #[trigger] post[b]@.dom().contains(k2)) by {
                        assert(pre[a]@.contains_key(k2));
                        assert(!pre[b]@.contains_key(k2));
                    }
                    assert(self.wf());
                    assert forall|k2: K| true implies #[trigger] self@.contains_key(k2) == old(
                        self,
                    )@.remove(*key).contains_key(k2) by {
                        if k2 == *key {
                            assert(forall|j2: int|
                                0 <= j2 < post.len() ==> !(#[trigger] post[j2])@.contains_key(k2));
                            if self@.contains_key(k2) {
                                let ia = choose|ia: int|
                                    0 <= ia < post.len() && (#[trigger] post[ia])@.contains_key(
                                        k2,
                                    );
                                assert(false);
                            }
                        } else {
                            assert(forall|j2: int|
                                0 <= j2 < post.len() ==> ((#[trigger] post[j2])@.contains_key(k2)
                                    <==> pre[j2]@.contains_key(k2)));
                            if self@.contains_key(k2) {
                                let ia = choose|ia: int|
                                    0 <= ia < post.len() && (#[trigger] post[ia])@.contains_key(
                                        k2,
                                    );
                                assert(pre[ia]@.contains_key(k2));
                                assert(old(self)@.contains_key(k2));
                            }
                            if old(self)@.contains_key(k2) {
                                let ib = choose|ib: int|
                                    0 <= ib < pre.len() && (#[trigger] pre[ib])@.contains_key(k2);
                                assert(post[ib]@.contains_key(k2));
                                assert(self@.contains_key(k2));
                            }
                        }
                    }
                    assert forall|k2: K| self@.contains_key(k2) implies #[trigger] self@[k2]
                        == old(self)@.remove(*key)[k2] by {
                        let ja = choose|ja: int|
                            0 <= ja < post.len() && (#[trigger] post[ja])@.contains_key(k2);
                        assert(pre[ja]@.contains_key(k2));
                        assert(old(self)@.contains_key(k2));
                        let jb = choose|jb: int|
                            0 <= jb < pre.len() && (#[trigger] pre[jb])@.contains_key(k2);
                        assert(jb == ja);
                        assert(self@[k2] == post[ja]@[k2]);
                        assert(old(self)@[k2] == pre[ja]@[k2]);
                    }
                    assert(self@ =~= old(self)@.remove(*key));
                }
                r
            }
            None => {
                proof {
                    assert(!old(self)@.contains_key(*key));
                    assert(self@ =~= old(self)@.remove(*key));
                }
                None
            }
        }
    }
}

} // verus!
