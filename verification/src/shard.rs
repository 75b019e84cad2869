//! One shard: a single partition of the map's key space.
//!
//! A shard stores its `(key, value)` pairs together with each key's
//! precomputed digest, so that a lookup first narrows the search by digest
//! and only then compares keys, and a removal never hashes the key a second
//! time. The shard's contents are modelled as a mathematical map from key
//! views to values; every operation states exactly how it changes that map.

use crate::keys::{KeyHasher, ShardKey};
use core::marker::PhantomData;
use vstd::map::*;
use vstd::prelude::*;
use vstd::seq_lib::seq_to_set_is_finite;

verus! {

/// One stored pairing of a key, its digest under the map's hasher, and its
/// value.
struct Entry<K, V> {
    hash: u64,
    key: K,
    value: V,
}

/// One independently held segment of the map: a table of entries whose
/// digests were all computed by the hasher `H`.
pub struct Shard<K: ShardKey, V, H: KeyHasher<K>> {
    entries: Vec<Entry<K, V>>,
    hasher: PhantomData<H>,
}

impl<K: ShardKey, V, H: KeyHasher<K>> Shard<K, V, H> {
    /// A key view is present in some slot of the table `s`.
    spec fn seq_has_key(s: Seq<Entry<K, V>>, kv: K::V) -> bool {
        exists|i: int| 0 <= i < s.len() && (#[trigger] s[i]).key@ == kv
    }

    /// The slot of table `s` holding `kv`, when one exists.
    spec fn seq_slot_of(s: Seq<Entry<K, V>>, kv: K::V) -> int {
        choose|i: int| 0 <= i < s.len() && (#[trigger] s[i]).key@ == kv
    }

    /// The contents of a table: the mathematical map from each stored
    /// key's view to its value.
    spec fn map_of(s: Seq<Entry<K, V>>) -> Map<K::V, V> {
        Map::new(
            |kv: K::V| Self::seq_has_key(s, kv),
            |kv: K::V| s[Self::seq_slot_of(s, kv)].value,
        )
    }

    /// A well-formed table: no key occupies two slots, and every slot
    /// carries the digest of its own key.
    spec fn seq_wf(s: Seq<Entry<K, V>>) -> bool {
        &&& forall|i: int, j: int|
            0 <= i < j < s.len() ==> (#[trigger] s[i]).key@ != (#[trigger] s[j]).key@
        &&& forall|i: int|
            0 <= i < s.len() ==> (#[trigger] s[i]).hash == H::spec_hash(s[i].key@)
    }

    /// A key view is present in some slot of the table.
    spec fn has_key(self, kv: K::V) -> bool {
        Self::seq_has_key(self.entries@, kv)
    }

    /// The slot holding `kv`, when one exists.
    spec fn slot_of(self, kv: K::V) -> int {
        Self::seq_slot_of(self.entries@, kv)
    }

    /// The shard's contents: the mathematical map from each stored key's
    /// view to its value.
    pub closed spec fn as_map(self) -> Map<K::V, V> {
        Self::map_of(self.entries@)
    }

    /// Well-formed: no key occupies two slots, and every slot carries the
    /// digest of its own key.
    pub closed spec fn wf(self) -> bool {
        Self::seq_wf(self.entries@)
    }

    /// The number of entries the shard holds.
    pub closed spec fn size(self) -> nat {
        self.entries@.len()
    }

    /// The slot found for an indexed key is that index, and the modelled
    /// map agrees with the slot's contents.
    proof fn lemma_slot(self, i: int)
        requires
            self.wf(),
            0 <= i < self.entries@.len(),
        ensures
            self.as_map().contains_key(self.entries@[i].key@),
            self.as_map()[self.entries@[i].key@] == self.entries@[i].value,
    {
        let kv = self.entries@[i].key@;
        assert(self.has_key(kv));
        let j = self.slot_of(kv);
        assert(self.entries@[j].key@ == kv);
        assert(j == i);
    }

    /// Replacing the value in one slot keeps the table well formed and
    /// updates the modelled map at that slot's key alone.
    proof fn lemma_map_of_value_update(s: Seq<Entry<K, V>>, i: int, nv: V)
        requires
            Self::seq_wf(s),
            0 <= i < s.len(),
        ensures
            Self::seq_wf(s.update(i, (Entry { hash: s[i].hash, key: s[i].key, value: nv }))),
            Self::map_of(s.update(i, (Entry { hash: s[i].hash, key: s[i].key, value: nv })))
                == Self::map_of(s).insert(s[i].key@, nv),
    {
        let s1 = s.update(i, (Entry { hash: s[i].hash, key: s[i].key, value: nv }));
        let kv = s[i].key@;
        assert_maps_equal!(Self::map_of(s1), Self::map_of(s).insert(kv, nv), w => {
            if Self::seq_has_key(s1, w) {
                let j = Self::seq_slot_of(s1, w);
                assert(s1[j].key@ == w);
                if j != i {
                    assert(s[j].key@ == w);
                    assert(Self::seq_has_key(s, w));
                }
            }
            if Self::seq_has_key(s, w) {
                let j = Self::seq_slot_of(s, w);
                assert(s[j].key@ == w);
                assert(s1[j].key@ == w);
                assert(Self::seq_has_key(s1, w));
            }
            if Self::seq_has_key(s1, w) {
                let j1 = Self::seq_slot_of(s1, w);
                if w == kv {
                    assert(j1 == i);
                    assert(Self::map_of(s1)[w] == nv);
                } else {
                    let j0 = Self::seq_slot_of(s, w);
                    assert(s[j0].key@ == w);
                    assert(s1[j0].key@ == w);
                    assert(j1 == j0);
                    assert(Self::map_of(s1)[w] == Self::map_of(s)[w]);
                }
            }
        });
    }

    /// The shard holds finitely many keys; the model's domain size is the
    /// entry count.
    pub proof fn lemma_dom_finite(self)
        requires
            self.wf(),
        ensures
            self.as_map().dom().finite(),
            self.as_map().dom().len() == self.size(),
    {
        let kvs = self.entries@.map_values(|e: Entry<K, V>| e.key@);
        assert forall|kv: K::V|
            self.as_map().dom().contains(kv) <==> kvs.to_set().contains(kv) by {
            if self.has_key(kv) {
                let i = self.slot_of(kv);
                assert(kvs[i] == kv);
            }
            if kvs.contains(kv) {
                let i = choose|i: int| 0 <= i < kvs.len() && kvs[i] == kv;
                assert(self.entries@[i].key@ == kv);
            }
        }
        assert(self.as_map().dom() =~= kvs.to_set());
        seq_to_set_is_finite(kvs);
        assert(kvs.no_duplicates()) by {
            assert forall|i: int, j: int|
                0 <= i < j < kvs.len() implies kvs[i] != kvs[j] by {
                assert(self.entries@[i].key@ != self.entries@[j].key@);
            }
        }
        kvs.unique_seq_to_set();
    }

    /// Creates an empty shard.
    pub fn new() -> (s: Self)
        ensures
            s.wf(),
            s.as_map() == Map::<K::V, V>::empty(),
            s.size() == 0,
    {
        let s = Shard { entries: Vec::new(), hasher: PhantomData };
        proof {
            assert(s.as_map() =~= Map::<K::V, V>::empty());
        }
        s
    }

    /// Creates an empty shard whose table is pre-sized for `capacity`
    /// entries.
    pub fn with_capacity(capacity: usize) -> (s: Self)
        ensures
            s.wf(),
            s.as_map() == Map::<K::V, V>::empty(),
            s.size() == 0,
    {
        let s = Shard { entries: Vec::with_capacity(capacity), hasher: PhantomData };
        proof {
            assert(s.as_map() =~= Map::<K::V, V>::empty());
        }
        s
    }

    /// Looks the key up, comparing digests first and keys only on a digest
    /// match. Returns borrowed references to the stored key and value, valid
    /// while the shard is borrowed.
    pub fn find<'a>(&'a self, hash: u64, key: &K) -> (r: Option<(&'a K, &'a V)>)
        requires
            self.wf(),
            hash == H::spec_hash(key@),
        ensures
            match r {
                Some(p) => self.as_map().contains_key(key@) && p.0@ == key@ && *p.1
                    == self.as_map()[key@],
                None => !self.as_map().contains_key(key@),
            },
    {
        let n = self.entries.len();
        let mut i: usize = 0;
        while i < n
            invariant
                self.wf(),
                hash == H::spec_hash(key@),
                n == self.entries@.len(),
                i <= n,
                forall|j: int| 0 <= j < i ==> (#[trigger] self.entries@[j]).key@ != key@,
            decreases n - i,
        {
            let e = &self.entries[i];
            if e.hash == hash && e.key.key_eq(key) {
                proof {
                    self.lemma_slot(i as int);
                }
                return Some((&e.key, &e.value));
            }
            proof {
                if self.entries@[i as int].key@ == key@ {
                    assert(self.entries@[i as int].hash == H::spec_hash(key@));
                }
            }
            i = i + 1;
        }
        proof {
            if self.has_key(key@) {
                let j = self.slot_of(key@);
                assert(self.entries@[j].key@ != key@);
            }
        }
        None
    }

    /// Inserts the pairing, or replaces the value of an equal key already
    /// present and hands the replaced value back. `None` says the key was
    /// absent, so a caller keeping a count must grow it.
    pub fn upsert(&mut self, hash: u64, key: K, value: V) -> (prev: Option<V>)
        requires
            old(self).wf(),
            hash == H::spec_hash(key@),
        ensures
            final(self).wf(),
            final(self).as_map() == old(self).as_map().insert(key@, value),
            prev == (if old(self).as_map().contains_key(key@) {
                Some(old(self).as_map()[key@])
            } else {
                None::<V>
            }),
            final(self).size() == old(self).size() + (if old(self).as_map().contains_key(key@) {
                0int
            } else {
                1int
            }),
    {
        let n = self.entries.len();
        let mut i: usize = 0;
        while i < n
            invariant
                *self == *old(self),
                self.wf(),
                hash == H::spec_hash(key@),
                n == self.entries@.len(),
                i <= n,
                forall|j: int| 0 <= j < i ==> (#[trigger] self.entries@[j]).key@ != key@,
            decreases n - i,
        {
            let hit = {
                let e = &self.entries[i];
                e.hash == hash && e.key.key_eq(&key)
            };
            if hit {
                proof {
                    old(self).lemma_slot(i as int);
                }
                let mut prev_value = value;
                core::mem::swap(&mut prev_value, &mut self.entries[i].value);
                proof {
                    let m0 = old(self).as_map();
                    let e1 = self.entries@[i as int];
                    assert(e1.key@ == key@);
                    assert_maps_equal!(self.as_map(), m0.insert(key@, e1.value), w => {
                        if self.has_key(w) {
                            let j = self.slot_of(w);
                            self.lemma_slot(j);
                            if j == i as int {
                                assert(w == key@);
                            } else {
                                old(self).lemma_slot(j);
                                assert(m0.contains_key(w));
                            }
                        }
                        if m0.contains_key(w) {
                            let j = old(self).slot_of(w);
                            assert(self.entries@[j].key@ == w);
                            assert(self.has_key(w));
                        }
                        if w == key@ {
                            assert(self.entries@[i as int].key@ == w);
                            assert(self.has_key(w));
                            self.lemma_slot(i as int);
                        }
                    });
                }
                return Some(prev_value);
            }
            proof {
                if self.entries@[i as int].key@ == key@ {
                    assert(self.entries@[i as int].hash == H::spec_hash(key@));
                }
            }
            i = i + 1;
        }
        proof {
            if old(self).has_key(key@) {
                let j = old(self).slot_of(key@);
                assert(self.entries@[j].key@ != key@);
            }
        }
        let ghost kv = key@;
        self.entries.push(Entry { hash, key, value });
        proof {
            let m0 = old(self).as_map();
            let n_ = self.entries@.len() - 1;
            assert(self.entries@[n_].key@ == kv);
            assert_maps_equal!(self.as_map(), m0.insert(kv, value), w => {
                if self.has_key(w) {
                    let j = self.slot_of(w);
                    self.lemma_slot(j);
                    if j < n_ {
                        old(self).lemma_slot(j);
                        assert(m0.contains_key(w));
                    } else {
                        assert(w == kv);
                    }
                }
                if m0.contains_key(w) {
                    let j = old(self).slot_of(w);
                    assert(self.entries@[j].key@ == w);
                    assert(self.has_key(w));
                }
                if w == kv {
                    assert(self.has_key(w));
                    self.lemma_slot(n_);
                }
            });
        }
        None
    }

    /// Removes the entry of an equal key and hands its value back; absence
    /// is the ordinary `None` outcome, not an error. A caller keeping a
    /// count must shrink it exactly when a value comes back.
    pub fn remove(&mut self, hash: u64, key: &K) -> (prev: Option<V>)
        requires
            old(self).wf(),
            hash == H::spec_hash(key@),
        ensures
            final(self).wf(),
            final(self).as_map() == old(self).as_map().remove(key@),
            prev == (if old(self).as_map().contains_key(key@) {
                Some(old(self).as_map()[key@])
            } else {
                None::<V>
            }),
            final(self).size() == old(self).size() - (if old(self).as_map().contains_key(key@) {
                1int
            } else {
                0int
            }),
    {
        let n = self.entries.len();
        let mut i: usize = 0;
        while i < n
            invariant
                *self == *old(self),
                self.wf(),
                hash == H::spec_hash(key@),
                n == self.entries@.len(),
                i <= n,
                forall|j: int| 0 <= j < i ==> (#[trigger] self.entries@[j]).key@ != key@,
            decreases n - i,
        {
            let hit = {
                let e = &self.entries[i];
                e.hash == hash && e.key.key_eq(key)
            };
            if hit {
                proof {
                    old(self).lemma_slot(i as int);
                }
                let removed = self.entries.remove(i);
                proof {
                    old(self).entries@.remove_ensures(i as int);
                    let m0 = old(self).as_map();
                    assert_maps_equal!(self.as_map(), m0.remove(key@), w => {
                        if self.has_key(w) {
                            let j = self.slot_of(w);
                            self.lemma_slot(j);
                            let j0 = if j < i as int {
                                j
                            } else {
                                j + 1
                            };
                            assert(old(self).entries@[j0] == self.entries@[j]);
                            old(self).lemma_slot(j0);
                            assert(w != key@);
                            assert(m0.remove(key@).contains_key(w));
                        }
                        if m0.remove(key@).contains_key(w) {
                            let j0 = old(self).slot_of(w);
                            assert(old(self).entries@[j0].key@ == w);
                            assert(j0 != i as int);
                            let j = if j0 < i as int {
                                j0
                            } else {
                                j0 - 1
                            };
                            assert(self.entries@[j] == old(self).entries@[j0]);
                            assert(self.has_key(w));
                        }
                    });
                }
                return Some(removed.value);
            }
            proof {
                if self.entries@[i as int].key@ == key@ {
                    assert(self.entries@[i as int].hash == H::spec_hash(key@));
                }
            }
            i = i + 1;
        }
        proof {
            if old(self).has_key(key@) {
                let j = old(self).slot_of(key@);
                assert(self.entries@[j].key@ != key@);
            }
            assert(self.as_map() =~= old(self).as_map().remove(key@));
        }
        None
    }

    /// Looks the key up like `find`, but hands back a reference through
    /// which the value may be changed in place, without removing and
    /// reinserting it. The shard stays borrowed while the reference lives,
    /// and afterwards its contents hold whatever value the caller left
    /// behind, under the same key.
    pub fn find_mut<'a>(&'a mut self, hash: u64, key: &K) -> (r: Option<&'a mut V>)
        requires
            old(self).wf(),
            hash == H::spec_hash(key@),
        ensures
            match r {
                Some(rv) => {
                    &&& old(self).as_map().contains_key(key@)
                    &&& *rv == old(self).as_map()[key@]
                    &&& final(self).wf()
                    &&& final(self).as_map() == old(self).as_map().insert(key@, *final(rv))
                    &&& final(self).size() == old(self).size()
                },
                None => {
                    &&& !old(self).as_map().contains_key(key@)
                    &&& *final(self) == *old(self)
                },
            },
    {
        let n = self.entries.len();
        let mut i: usize = 0;
        while i < n
            invariant
                *self == *old(self),
                self.wf(),
                hash == H::spec_hash(key@),
                n == self.entries@.len(),
                i <= n,
                forall|j: int| 0 <= j < i ==> (#[trigger] self.entries@[j]).key@ != key@,
            decreases n - i,
        {
            let hit = {
                let e = &self.entries[i];
                e.hash == hash && e.key.key_eq(key)
            };
            if hit {
                proof {
                    self.lemma_slot(i as int);
                }
                let ghost s0 = self.entries@;
                let rv = &mut self.entries[i].value;
                proof {
                    Self::lemma_map_of_value_update(s0, i as int, *final(rv));
                }
                return Some(rv);
            }
            proof {
                if self.entries@[i as int].key@ == key@ {
                    assert(self.entries@[i as int].hash == H::spec_hash(key@));
                }
            }
            i = i + 1;
        }
        proof {
            if self.has_key(key@) {
                let j = self.slot_of(key@);
                assert(self.entries@[j].key@ != key@);
            }
        }
        None
    }

    /// Removes every entry.
    pub fn clear(&mut self)
        ensures
            final(self).wf(),
            final(self).as_map() == Map::<K::V, V>::empty(),
            final(self).size() == 0,
    {
        self.entries.clear();
        proof {
            assert(self.as_map() =~= Map::<K::V, V>::empty());
        }
    }
}

} // verus!
