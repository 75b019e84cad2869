//! The map facade: the full array of shards and the entry counter.
//!
//! Every operation hashes its key, routes the hash to exactly one shard,
//! and delegates to that shard; only `clear` walks all shards, one at a
//! time. The whole container is modelled as a single mathematical map from
//! key views to values, assembled from the shards' contents by the routing
//! function, and the counter provably equals the number of distinct live
//! keys.

use crate::keys::{FnvHasher, KeyHasher, ShardKey};
use crate::selector::{next_pow_of_two, route_key, route_spec, MAX_SHARDS};
use crate::shard::Shard;
use vstd::arithmetic::power2::is_pow2;
use vstd::map::*;
use vstd::prelude::*;
use vstd::set_lib::lemma_len_subset;

verus! {

broadcast use vstd::set::group_set_axioms;

/// The default shard count is a power of two, so a map built with it
/// keeps exactly that many shards.
proof fn lemma_default_shards_pow2()
    ensures
        is_pow2(DEFAULT_SHARDS as int),
{
    reveal_with_fuel(is_pow2, 6);
}

/// The shard count used when a map is built without an explicit one.
///
/// A caller that knows the process's available parallelism gets the
/// parallelism-derived count from `selector::shard_count` and passes it to
/// `with_shards`.
pub const DEFAULT_SHARDS: usize = 16;

/// A borrowed view of one entry: the stored key and value, readable for
/// as long as the map stays borrowed.
///
/// The references live inside the map's storage; the borrow of the map
/// that produced this value keeps them valid, and the borrow checker
/// refuses any use of them once the map is mutated again.
pub struct MapRef<'a, K, V> {
    key: &'a K,
    value: &'a V,
}

impl<'a, K, V> MapRef<'a, K, V> {
    /// The stored key.
    pub closed spec fn spec_key(self) -> K {
        *self.key
    }

    /// The stored value.
    pub closed spec fn spec_value(self) -> V {
        *self.value
    }

    /// Reads the entry's key.
    pub fn key(&self) -> (k: &'a K)
        ensures
            *k == self.spec_key(),
    {
        self.key
    }

    /// Reads the entry's value.
    pub fn value(&self) -> (v: &'a V)
        ensures
            *v == self.spec_value(),
    {
        self.value
    }
}

/// A key-value map partitioned into independently held shards.
///
/// A key's digest under the hasher `H` picks the one shard the key lives
/// in; the shard count is always a power of two so the route is a bitmask.
pub struct ShardMap<K: ShardKey, V, H: KeyHasher<K> = FnvHasher> {
    shards: Vec<Shard<K, V, H>>,
    length: usize,
    hasher: H,
}

impl<K: ShardKey, V, H: KeyHasher<K>> ShardMap<K, V, H> {
    /// The shard index that the key view `kv` routes to among `n` shards.
    spec fn route_of(kv: K::V, n: usize) -> int {
        route_spec(H::spec_hash(kv), n)
    }

    /// The contents of a shard array: each key view maps to its value in
    /// the one shard it routes to.
    spec fn map_view(s: Seq<Shard<K, V, H>>, n: usize) -> Map<K::V, V> {
        Map::new(
            |kv: K::V| s[Self::route_of(kv, n)].as_map().contains_key(kv),
            |kv: K::V| s[Self::route_of(kv, n)].as_map()[kv],
        )
    }

    /// A sound shard array: a power-of-two number of shards, each well
    /// formed, and every stored key lies in the shard its digest routes
    /// it to.
    spec fn shards_ok(s: Seq<Shard<K, V, H>>, n: usize) -> bool {
        &&& s.len() == n
        &&& n > 0
        &&& is_pow2(n as int)
        &&& forall|i: int| 0 <= i < s.len() ==> (#[trigger] s[i]).wf()
        &&& forall|i: int, kv: K::V|
            0 <= i < s.len() && #[trigger] s[i].as_map().contains_key(kv) ==> Self::route_of(
                kv,
                n,
            ) == i
    }

    /// The number of shards.
    pub closed spec fn shard_count_spec(self) -> usize {
        self.shards@.len() as usize
    }

    /// The shard index that the key view `kv` routes to in this map.
    pub closed spec fn shard_of(self, kv: K::V) -> int {
        Self::route_of(kv, self.shard_count_spec())
    }

    /// The contents of one shard, as a mathematical map.
    pub closed spec fn shard_view(self, i: int) -> Map<K::V, V> {
        self.shards@[i].as_map()
    }

    /// Well-formed: the shard array is sound and the counter equals the
    /// number of distinct keys held.
    pub closed spec fn wf(self) -> bool {
        &&& Self::shards_ok(self.shards@, self.shard_count_spec())
        &&& self.length as nat == self@.dom().len()
    }
}

impl<K: ShardKey, V, H: KeyHasher<K>> View for ShardMap<K, V, H> {
    type V = Map<K::V, V>;

    /// The whole container as one mathematical map.
    closed spec fn view(&self) -> Map<K::V, V> {
        Self::map_view(self.shards@, self.shard_count_spec())
    }
}

impl<K: ShardKey, V, H: KeyHasher<K>> ShardMap<K, V, H> {
    /// The union of the first `n` shards' key sets.
    spec fn doms_up_to(s: Seq<Shard<K, V, H>>, n: int) -> Set<K::V>
        decreases n,
    {
        if n <= 0 {
            Set::empty()
        } else {
            Self::doms_up_to(s, n - 1) + s[n - 1].as_map().dom()
        }
    }

    /// The union of finitely many well-formed shards' key sets is finite.
    proof fn lemma_doms_up_to_finite(s: Seq<Shard<K, V, H>>, n: int)
        requires
            n <= s.len(),
            forall|i: int| 0 <= i < s.len() ==> (#[trigger] s[i]).wf(),
        ensures
            Self::doms_up_to(s, n).finite(),
            forall|kv: K::V|
                #[trigger] Self::doms_up_to(s, n).contains(kv) <==> exists|i: int|
                    0 <= i < n && (#[trigger] s[i]).as_map().contains_key(kv),
        decreases n,
    {
        if n > 0 {
            Self::lemma_doms_up_to_finite(s, n - 1);
            s[n - 1].lemma_dom_finite();
            assert forall|kv: K::V| #[trigger]
                Self::doms_up_to(s, n).contains(kv) implies exists|i: int|
                0 <= i < n && (#[trigger] s[i]).as_map().contains_key(kv) by {
                if Self::doms_up_to(s, n - 1).contains(kv) {
                    let i = choose|i: int|
                        0 <= i < n - 1 && (#[trigger] s[i]).as_map().contains_key(kv);
                    assert(s[i].as_map().contains_key(kv));
                } else {
                    assert(s[n - 1].as_map().contains_key(kv));
                }
            }
        }
    }

    /// A well-formed map holds finitely many keys.
    proof fn lemma_dom_finite(s: Seq<Shard<K, V, H>>, n: usize)
        requires
            Self::shards_ok(s, n),
        ensures
            Self::map_view(s, n).dom().finite(),
            Self::map_view(s, n).dom().len() <= Self::doms_up_to(s, s.len() as int).len(),
    {
        Self::lemma_doms_up_to_finite(s, s.len() as int);
        let dom = Self::map_view(s, n).dom();
        let uni = Self::doms_up_to(s, s.len() as int);
        assert forall|kv: K::V| dom.contains(kv) implies uni.contains(kv) by {
            let i = Self::route_of(kv, n);
            assert(s[i].as_map().contains_key(kv));
        }
        lemma_len_subset(dom, uni);
    }

    /// Replacing the routed shard with one whose contents gained the
    /// pairing `kv -> nv` makes the whole map gain exactly that pairing.
    proof fn lemma_view_insert(s0: Seq<Shard<K, V, H>>, n: usize, kv: K::V, nv: V, sh1: Shard<
        K,
        V,
        H,
    >)
        requires
            Self::shards_ok(s0, n),
            sh1.wf(),
            sh1.as_map() == s0[Self::route_of(kv, n)].as_map().insert(kv, nv),
        ensures
            Self::shards_ok(s0.update(Self::route_of(kv, n), sh1), n),
            Self::map_view(s0.update(Self::route_of(kv, n), sh1), n) == Self::map_view(
                s0,
                n,
            ).insert(kv, nv),
    {
        let idx = Self::route_of(kv, n);
        let s1 = s0.update(idx, sh1);
        assert(0 <= idx < n);
        assert forall|i: int, w: K::V|
            0 <= i < s1.len() && #[trigger] s1[i].as_map().contains_key(w) implies Self::route_of(
            w,
            n,
        ) == i by {
            if i == idx {
                if w != kv {
                    assert(s0[i].as_map().contains_key(w));
                }
            } else {
                assert(s0[i].as_map().contains_key(w));
            }
        }
        assert_maps_equal!(Self::map_view(s1, n), Self::map_view(s0, n).insert(kv, nv), w => {
            let r = Self::route_of(w, n);
            assert(0 <= r < n);
            if r != idx {
                assert(s1[r] == s0[r]);
            }
        });
    }

    /// Replacing the routed shard with one whose contents lost the key
    /// `kv` makes the whole map lose exactly that key.
    proof fn lemma_view_remove(s0: Seq<Shard<K, V, H>>, n: usize, kv: K::V, sh1: Shard<K, V, H>)
        requires
            Self::shards_ok(s0, n),
            sh1.wf(),
            sh1.as_map() == s0[Self::route_of(kv, n)].as_map().remove(kv),
        ensures
            Self::shards_ok(s0.update(Self::route_of(kv, n), sh1), n),
            Self::map_view(s0.update(Self::route_of(kv, n), sh1), n) == Self::map_view(
                s0,
                n,
            ).remove(kv),
    {
        let idx = Self::route_of(kv, n);
        let s1 = s0.update(idx, sh1);
        assert(0 <= idx < n);
        assert forall|i: int, w: K::V|
            0 <= i < s1.len() && #[trigger] s1[i].as_map().contains_key(w) implies Self::route_of(
            w,
            n,
        ) == i by {
            if i == idx {
                assert(s0[i].as_map().contains_key(w));
            } else {
                assert(s0[i].as_map().contains_key(w));
            }
        }
        assert_maps_equal!(Self::map_view(s1, n), Self::map_view(s0, n).remove(kv), w => {
            let r = Self::route_of(w, n);
            assert(0 <= r < n);
            if r != idx {
                assert(s1[r] == s0[r]);
            }
        });
    }

    /// Inserts the pairing `key -> value`. When an entry with an equal key
    /// was present, its value is replaced and handed back; otherwise the
    /// entry is new and the counter grows by one.
    ///
    /// Only the one shard the key routes to is touched: every other
    /// shard's contents are left exactly as they were.
    pub fn insert(&mut self, key: K, value: V) -> (prev: Option<V>)
        requires
            old(self).wf(),
            old(self)@.dom().len() < usize::MAX,
        ensures
            final(self).wf(),
            final(self)@ == old(self)@.insert(key@, value),
            prev == (if old(self)@.contains_key(key@) {
                Some(old(self)@[key@])
            } else {
                None::<V>
            }),
            final(self)@.dom().len() == old(self)@.dom().len() + (if old(self)@.contains_key(
                key@,
            ) {
                0int
            } else {
                1int
            }),
            final(self).shard_count_spec() == old(self).shard_count_spec(),
            forall|i: int|
                0 <= i < old(self).shard_count_spec() && i != old(self).shard_of(key@)
                    ==> final(self).shard_view(i) == old(self).shard_view(i),
    {
        let hash = self.hasher.hash_key(&key);
        let n = self.shards.len();
        let idx = route_key(hash, n);
        let ghost kv = key@;
        let ghost s0 = self.shards@;
        let ghost v0 = self@;
        let sh = &mut self.shards[idx];
        let prev = sh.upsert(hash, key, value);
        proof {
            Self::lemma_view_insert(s0, n, kv, value, self.shards@[idx as int]);
            assert(self.shards@ == s0.update(idx as int, self.shards@[idx as int]));
            Self::lemma_dom_finite(s0, n);
            if v0.contains_key(kv) {
                assert(self@.dom() =~= v0.dom());
            } else {
                assert(self@.dom() =~= v0.dom().insert(kv));
            }
        }
        if prev.is_none() {
            self.length = self.length + 1;
        }
        prev
    }

    /// Looks the key up and hands back borrowed references to the stored
    /// key and value, or `None` when no entry with an equal key exists.
    pub fn get<'a>(&'a self, key: &K) -> (r: Option<MapRef<'a, K, V>>)
        requires
            self.wf(),
        ensures
            match r {
                Some(mr) => self@.contains_key(key@) && mr.spec_key()@ == key@ && mr.spec_value()
                    == self@[key@],
                None => !self@.contains_key(key@),
            },
    {
        let hash = self.hasher.hash_key(key);
        let idx = route_key(hash, self.shards.len());
        let sh = &self.shards[idx];
        match sh.find(hash, key) {
            Some((k, v)) => Some(MapRef { key: k, value: v }),
            None => None,
        }
    }

    /// Whether an entry with an equal key exists.
    pub fn contains_key(&self, key: &K) -> (b: bool)
        requires
            self.wf(),
        ensures
            b == self@.contains_key(key@),
    {
        let hash = self.hasher.hash_key(key);
        let idx = route_key(hash, self.shards.len());
        let sh = &self.shards[idx];
        sh.find(hash, key).is_some()
    }

    /// Looks the key up and hands back a reference through which the
    /// stored value may be changed in place. While the reference lives the
    /// map stays mutably borrowed; afterwards the map holds whatever value
    /// was left behind, under the same key, and no other entry has moved.
    pub fn get_mut<'a>(&'a mut self, key: &K) -> (r: Option<&'a mut V>)
        requires
            old(self).wf(),
        ensures
            match r {
                Some(rv) => {
                    &&& old(self)@.contains_key(key@)
                    &&& *rv == old(self)@[key@]
                    &&& final(self).wf()
                    &&& final(self)@ == old(self)@.insert(key@, *final(rv))
                    &&& final(self)@.dom().len() == old(self)@.dom().len()
                    &&& final(self).shard_count_spec() == old(self).shard_count_spec()
                    &&& forall|i: int|
                        0 <= i < old(self).shard_count_spec() && i != old(self).shard_of(key@)
                            ==> final(self).shard_view(i) == old(self).shard_view(i)
                },
                None => {
                    &&& !old(self)@.contains_key(key@)
                    &&& final(self).wf()
                    &&& final(self)@ == old(self)@
                    &&& final(self).shard_count_spec() == old(self).shard_count_spec()
                    &&& forall|i: int|
                        0 <= i < old(self).shard_count_spec() ==> final(self).shard_view(i) == old(
                            self,
                        ).shard_view(i)
                },
            },
    {
        let hash = self.hasher.hash_key(key);
        let n = self.shards.len();
        let idx = route_key(hash, n);
        let ghost kv = key@;
        let ghost s0 = self.shards@;
        let ghost v0 = self@;
        let ghost gidx = Self::route_of(kv, n);
        proof {
            assert forall|sh1: Shard<K, V, H>, nv: V|
                #![trigger s0.update(gidx, sh1), s0[gidx].as_map().insert(kv, nv)]
                (sh1.wf() && sh1.as_map() == s0[gidx].as_map().insert(kv, nv)) implies {
                &&& Self::shards_ok(s0.update(gidx, sh1), n)
                &&& Self::map_view(s0.update(gidx, sh1), n) == Self::map_view(s0, n).insert(
                    kv,
                    nv,
                )
            } by {
                Self::lemma_view_insert(s0, n, kv, nv, sh1);
            }
            assert(s0.update(gidx, s0[gidx]) =~= s0);
            Self::lemma_dom_finite(s0, n);
            if v0.contains_key(kv) {
                assert(v0.dom().insert(kv) =~= v0.dom());
            }
        }
        let sh = &mut self.shards[idx];
        sh.find_mut(hash, key)
    }

    /// Removes the entry with an equal key, handing its value back and
    /// shrinking the counter; absence is the ordinary `None` outcome.
    ///
    /// Only the one shard the key routes to is touched.
    pub fn remove(&mut self, key: &K) -> (prev: Option<V>)
        requires
            old(self).wf(),
        ensures
            final(self).wf(),
            final(self)@ == old(self)@.remove(key@),
            prev == (if old(self)@.contains_key(key@) {
                Some(old(self)@[key@])
            } else {
                None::<V>
            }),
            final(self)@.dom().len() == old(self)@.dom().len() - (if old(self)@.contains_key(
                key@,
            ) {
                1int
            } else {
                0int
            }),
            final(self).shard_count_spec() == old(self).shard_count_spec(),
            forall|i: int|
                0 <= i < old(self).shard_count_spec() && i != old(self).shard_of(key@)
                    ==> final(self).shard_view(i) == old(self).shard_view(i),
    {
        let hash = self.hasher.hash_key(key);
        let n = self.shards.len();
        let idx = route_key(hash, n);
        let ghost kv = key@;
        let ghost s0 = self.shards@;
        let ghost v0 = self@;
        let sh = &mut self.shards[idx];
        let prev = sh.remove(hash, key);
        proof {
            Self::lemma_view_remove(s0, n, kv, self.shards@[idx as int]);
            assert(self.shards@ == s0.update(idx as int, self.shards@[idx as int]));
            Self::lemma_dom_finite(s0, n);
            if v0.contains_key(kv) {
                assert(self@.dom() =~= v0.dom().remove(kv));
            } else {
                assert(self@.dom() =~= v0.dom());
            }
        }
        if prev.is_some() {
            self.length = self.length - 1;
        }
        prev
    }

    /// Empties every shard, one at a time, and resets the counter.
    pub fn clear(&mut self)
        requires
            old(self).wf(),
        ensures
            final(self).wf(),
            final(self)@ == Map::<K::V, V>::empty(),
            final(self)@.dom().len() == 0,
            final(self).shard_count_spec() == old(self).shard_count_spec(),
    {
        let n = self.shards.len();
        let mut i: usize = 0;
        while i < n
            invariant
                Self::shards_ok(old(self).shards@, n),
                n == self.shards@.len(),
                self.length == old(self).length,
                self.hasher == old(self).hasher,
                i <= n,
                forall|j: int|
                    0 <= j < i ==> (#[trigger] self.shards@[j]).wf() && self.shards@[j].as_map()
                        == Map::<K::V, V>::empty(),
                forall|j: int| i <= j < n ==> self.shards@[j] == old(self).shards@[j],
            decreases n - i,
        {
            let sh = &mut self.shards[i];
            sh.clear();
            i = i + 1;
        }
        self.length = 0;
        proof {
            assert(self@ =~= Map::<K::V, V>::empty());
            assert(self@.dom() =~= Set::<K::V>::empty());
        }
    }

    /// Creates a map with `shards` shards (rounded up to a power of two),
    /// each shard's table pre-sized for `capacity / shards` entries, and
    /// the hasher `hasher`.
    pub fn with_shards_and_capacity_and_hasher(shards: usize, capacity: usize, hasher: H) -> (m:
        Self)
        requires
            shards <= MAX_SHARDS,
            capacity < MAX_SHARDS,
        ensures
            m.wf(),
            m@ == Map::<K::V, V>::empty(),
            is_pow2(m.shard_count_spec() as int),
            m.shard_count_spec() >= shards,
            shards <= 1 ==> m.shard_count_spec() == 1,
            shards > 1 ==> m.shard_count_spec() < 2 * shards,
            is_pow2(shards as int) ==> m.shard_count_spec() == shards,
    {
        let n = next_pow_of_two(shards);
        let per_shard_raw = capacity / n + 1;
        let per_shard_pow = next_pow_of_two(per_shard_raw);
        let per_shard = if per_shard_pow < 4 {
            4
        } else {
            per_shard_pow
        };
        let mut v: Vec<Shard<K, V, H>> = Vec::new();
        let mut i: usize = 0;
        while i < n
            invariant
                i <= n,
                v@.len() == i,
                forall|j: int|
                    0 <= j < i ==> (#[trigger] v@[j]).wf() && v@[j].as_map() == Map::<
                        K::V,
                        V,
                    >::empty(),
            decreases n - i,
        {
            v.push(Shard::with_capacity(per_shard));
            i = i + 1;
        }
        let m = ShardMap { shards: v, length: 0, hasher };
        proof {
            assert(m@ =~= Map::<K::V, V>::empty());
            assert(m@.dom() =~= Set::<K::V>::empty());
        }
        m
    }

    /// Creates a map with `shards` shards (rounded up to a power of two)
    /// and the hasher `hasher`.
    pub fn with_shards_and_hasher(shards: usize, hasher: H) -> (m: Self)
        requires
            shards <= MAX_SHARDS,
        ensures
            m.wf(),
            m@ == Map::<K::V, V>::empty(),
            is_pow2(m.shard_count_spec() as int),
            m.shard_count_spec() >= shards,
            shards <= 1 ==> m.shard_count_spec() == 1,
            shards > 1 ==> m.shard_count_spec() < 2 * shards,
            is_pow2(shards as int) ==> m.shard_count_spec() == shards,
    {
        Self::with_shards_and_capacity_and_hasher(shards, 0, hasher)
    }

    /// Creates a map with the default shard count and the hasher `hasher`.
    pub fn with_hasher(hasher: H) -> (m: Self)
        ensures
            m.wf(),
            m@ == Map::<K::V, V>::empty(),
            m.shard_count_spec() == DEFAULT_SHARDS,
    {
        proof {
            lemma_default_shards_pow2();
        }
        Self::with_shards_and_hasher(DEFAULT_SHARDS, hasher)
    }

    /// Creates a map with the default shard count, pre-sized for
    /// `capacity` entries in all, and the hasher `hasher`.
    pub fn with_capacity_and_hasher(capacity: usize, hasher: H) -> (m: Self)
        requires
            capacity < MAX_SHARDS,
        ensures
            m.wf(),
            m@ == Map::<K::V, V>::empty(),
            m.shard_count_spec() == DEFAULT_SHARDS,
    {
        proof {
            lemma_default_shards_pow2();
        }
        Self::with_shards_and_capacity_and_hasher(DEFAULT_SHARDS, capacity, hasher)
    }

    /// Round trip: after `insert(k, v)`, a lookup of `k` yields exactly
    /// `v`; removing `k` then leaves it absent. Together with the
    /// operations' own contracts — `insert` makes the contents
    /// `old@.insert(k, v)`, `get` returns `self@[k]`, and `remove` hands
    /// back `old@[k]` and makes the contents `old@.remove(k)` — this pins
    /// the whole insert/get/remove cycle.
    pub proof fn lemma_round_trip(m: Map<K::V, V>, kv: K::V, v: V)
        ensures
            m.insert(kv, v).contains_key(kv),
            m.insert(kv, v)[kv] == v,
            !m.insert(kv, v).remove(kv).contains_key(kv),
    {
    }

    /// Shard independence: two inserts whose keys route to different
    /// shards touch disjoint state, so they commute — applying them in
    /// either order leaves the same contents. With each shard behind its
    /// own lock, such operations never wait on one another.
    pub proof fn lemma_distinct_shards_commute(
        m: Map<K::V, V>,
        k1: K::V,
        v1: V,
        k2: K::V,
        v2: V,
        n: usize,
    )
        requires
            route_spec(H::spec_hash(k1), n) != route_spec(H::spec_hash(k2), n),
        ensures
            m.insert(k1, v1).insert(k2, v2) == m.insert(k2, v2).insert(k1, v1),
    {
        assert(k1 != k2);
        assert(m.insert(k1, v1).insert(k2, v2) =~= m.insert(k2, v2).insert(k1, v1));
    }

    /// Uniqueness: a map holds at most one entry per distinct key, so a
    /// second insert of the same key replaces the first entry instead of
    /// adding one, and leaves the number of entries unchanged.
    pub proof fn lemma_insert_same_key(m: Map<K::V, V>, kv: K::V, v1: V, v2: V)
        requires
            m.dom().finite(),
        ensures
            m.insert(kv, v1).insert(kv, v2) == m.insert(kv, v2),
            m.insert(kv, v1).insert(kv, v2).dom().len() == m.insert(kv, v1).dom().len(),
    {
        assert(m.insert(kv, v1).insert(kv, v2) =~= m.insert(kv, v2));
        assert(m.insert(kv, v1).dom() =~= m.insert(kv, v2).dom());
    }

    /// Idempotent clear: clearing leaves the empty contents, so clearing
    /// an already empty map changes nothing, and afterwards every key is
    /// absent and the count is zero. Together with `clear`'s own contract
    /// — the contents become the empty map — this is immediate.
    pub proof fn lemma_clear_idempotent(m: Map<K::V, V>)
        ensures
            m == Map::<K::V, V>::empty() ==> m.dom().len() == 0,
            forall|kv: K::V| !Map::<K::V, V>::empty().contains_key(kv),
    {
        if m == Map::<K::V, V>::empty() {
            assert(m.dom() =~= Set::<K::V>::empty());
        }
    }

    /// The number of entries in the map, read from the counter without
    /// touching any shard.
    pub fn len(&self) -> (n: usize)
        requires
            self.wf(),
        ensures
            n == self@.dom().len(),
    {
        self.length
    }

    /// Whether the map holds no entry.
    pub fn is_empty(&self) -> (b: bool)
        requires
            self.wf(),
        ensures
            b == (self@.dom().len() == 0),
            b == (self@ == Map::<K::V, V>::empty()),
    {
        let b = self.len() == 0;
        proof {
            Self::lemma_dom_finite(self.shards@, self.shard_count_spec());
            if self@.dom().len() == 0 {
                vstd::set_lib::lemma_set_empty_equivalency_len(self@.dom());
                assert(self@ =~= Map::<K::V, V>::empty());
            } else {
                assert(Map::<K::V, V>::empty().dom() =~= Set::<K::V>::empty());
                assert(self@ != Map::<K::V, V>::empty());
            }
        }
        b
    }
}

impl<K: ShardKey, V> ShardMap<K, V, FnvHasher> where FnvHasher: KeyHasher<K> {
    /// Creates a map with the default shard count and the default hasher.
    pub fn new() -> (m: Self)
        ensures
            m.wf(),
            m@ == Map::<K::V, V>::empty(),
            m.shard_count_spec() == DEFAULT_SHARDS,
    {
        proof {
            lemma_default_shards_pow2();
        }
        Self::with_shards_and_hasher(DEFAULT_SHARDS, FnvHasher)
    }

    /// Creates a map with `shards` shards (rounded up to a power of two)
    /// and the default hasher.
    pub fn with_shards(shards: usize) -> (m: Self)
        requires
            shards <= MAX_SHARDS,
        ensures
            m.wf(),
            m@ == Map::<K::V, V>::empty(),
            m.shard_count_spec() >= shards,
            shards <= 1 ==> m.shard_count_spec() == 1,
    {
        Self::with_shards_and_hasher(shards, FnvHasher)
    }

    /// Creates a map pre-sized for `capacity` entries, with the default
    /// shard count and hasher.
    pub fn with_capacity(capacity: usize) -> (m: Self)
        requires
            capacity < MAX_SHARDS,
        ensures
            m.wf(),
            m@ == Map::<K::V, V>::empty(),
            m.shard_count_spec() == DEFAULT_SHARDS,
    {
        Self::with_capacity_and_hasher(capacity, FnvHasher)
    }

    /// Creates a map with `shards` shards, pre-sized for `capacity`
    /// entries, with the default hasher.
    pub fn with_shards_and_capacity(shards: usize, capacity: usize) -> (m: Self)
        requires
            shards <= MAX_SHARDS,
            capacity < MAX_SHARDS,
        ensures
            m.wf(),
            m@ == Map::<K::V, V>::empty(),
            m.shard_count_spec() >= shards,
            shards <= 1 ==> m.shard_count_spec() == 1,
    {
        Self::with_shards_and_capacity_and_hasher(shards, capacity, FnvHasher)
    }
}

} // verus!
