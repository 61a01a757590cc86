//! The hash map with temporarily-stable indices.

use vstd::prelude::*;
use crate::key_index::{
    ki_capacity, ki_clear, ki_contains, ki_drain, ki_get, ki_insert, ki_len, ki_new, ki_pairs,
    ki_remove, ki_reserve, ki_shrink_to_fit, ki_with_capacity, key_index_view, KeyIndex,
};
use crate::linear_storage::{
    compact_threshold, forced_compaction, lemma_no_free_all_occupied, lemma_occupied_card,
    lemma_pair_updated_facts, lemma_pos_index_injective, lemma_same_state_facts,
    lemma_valid_pos_range, lemma_value_updated_facts, occ_set, same_storage_state,
    storage_pair_updated, storage_value_updated, LinearStorage,
};
use crate::occupied_error::OccupiedError;
use crate::pos_vec::Pos;

verus! {

broadcast use crate::linear_storage::lemma_occupied_range;

/// A map from `u64` keys to values in which every key also has a numeric
/// index.
///
/// The index is stable: it changes only when the key is removed, when the
/// map is cleared, or across an explicit [`compact`](StableMap::compact) or
/// [`force_compact`](StableMap::force_compact). Indices of removed keys are
/// reused smallest-first by later insertions. This supports iterating over
/// the index space (`0..index_len()`) while keys are inserted and removed
/// underneath, as a callback registry does.
///
/// The abstract value of the map, `self@`, is the map of keys to values;
/// [`spec_index_of`](StableMap::spec_index_of) gives each present key's
/// index and [`occupied_index`](StableMap::occupied_index) says which
/// indices are live.
pub struct StableMap<V> {
    key_to_pos: KeyIndex,
    storage: LinearStorage<V>,
}

impl<V> View for StableMap<V> {
    type V = Map<u64, V>;

    closed spec fn view(&self) -> Map<u64, V> {
        Map::new(
            |k: u64| key_index_view(self.key_to_pos).contains_key(k),
            |k: u64|
                self.storage.value_at(
                    self.storage.pos_index(key_index_view(self.key_to_pos)[k]),
                ),
        )
    }
}

impl<V> StableMap<V> {
    /// The key-to-handle table, as a mathematical map.
    spec fn key_view(self) -> Map<u64, Pos> {
        key_index_view(self.key_to_pos)
    }

    /// The index currently assigned to key `k`.
    pub closed spec fn spec_index_of(self, k: u64) -> int
        recommends
            self@.contains_key(k),
    {
        self.storage.pos_index(self.key_view()[k])
    }

    /// One more than the highest index any key can currently have.
    pub closed spec fn spec_index_len(self) -> nat {
        self.storage.spec_len()
    }

    /// Whether some present key currently has index `i`.
    pub closed spec fn occupied_index(self, i: int) -> bool {
        self.storage.occupied(i)
    }

    /// The value stored at index `i`, when it is occupied.
    pub closed spec fn spec_value_at(self, i: int) -> V
        recommends
            self.occupied_index(i),
    {
        self.storage.value_at(i)
    }

    /// The number of indices below `spec_index_len()` that no key has: the
    /// length of the free list.
    pub closed spec fn free_count(self) -> nat {
        self.storage.free_len()
    }

    /// Number of unoccupied indices below `i`: the rank an empty index has
    /// in the free list.
    pub closed spec fn spec_hole_rank(self, i: int) -> int {
        self.storage.hole_rank(i)
    }

    /// Number of occupied indices above `i`.
    pub closed spec fn spec_occ_above(self, i: int) -> int {
        self.storage.occ_rank_above(i)
    }

    /// The map invariant. The storage is well formed; every key's handle is
    /// valid; distinct keys hold distinct handles; and every occupied slot
    /// belongs to some key.
    pub closed spec fn wf(self) -> bool {
        &&& self.storage.wf()
        &&& self.key_view().dom().finite()
        &&& forall|k: u64| #[trigger] self.key_view().contains_key(k)
            ==> self.storage.valid_pos(self.key_view()[k])
        &&& forall|k1: u64, k2: u64|
            #![trigger self.key_view()[k1], self.key_view()[k2]]
            self.key_view().contains_key(k1) && self.key_view().contains_key(k2) && k1 != k2
                ==> self.key_view()[k1] != self.key_view()[k2]
        &&& forall|i: int| #[trigger] self.storage.occupied(i) ==> exists|k: u64|
            #[trigger] self.key_view().contains_key(k) && self.storage.pos_index(
                self.key_view()[k],
            ) == i
    }

    /// The key set of the view is the key set of the table.
    proof fn lemma_view_dom(self)
        ensures
            forall|k: u64| self@.contains_key(k) <==> #[trigger] self.key_view().contains_key(k),
            self.key_view().dom() =~= self@.dom(),
            forall|k: u64| #[trigger] self@.contains_key(k) ==> self@[k] == self.storage.value_at(
                self.storage.pos_index(self.key_view()[k]),
            ),
    {
    }

    /// Law: the number of keys never exceeds the index length, and the
    /// difference between the two is exactly the free count.
    pub proof fn lemma_len_le_index_len(self)
        requires
            self.wf(),
        ensures
            self@.dom().finite(),
            self@.dom().len() + self.free_count() == self.spec_index_len(),
            self@.dom().len() <= self.spec_index_len(),
    {
        self.lemma_view_dom();
        let f = |k: u64| self.storage.pos_index(self.key_view()[k]);
        assert forall|k1: u64, k2: u64|
            self@.dom().contains(k1) && self@.dom().contains(k2) && k1 != k2 implies f(k1) != f(
            k2,
        ) by {
            lemma_pos_index_injective(
                self.storage,
                self.key_view()[k1],
                self.key_view()[k2],
            );
        }
        assert(vstd::relations::injective_on(f, self@.dom()));
        assert(self@.dom().map(f) =~= occ_set(self.storage)) by {
            assert forall|i: int| occ_set(self.storage).contains(i) implies self@.dom().map(
                f,
            ).contains(i) by {
                assert(self.storage.occupied(i));
                let k = choose|k: u64|
                    #[trigger] self.key_view().contains_key(k) && self.storage.pos_index(
                        self.key_view()[k],
                    ) == i;
                assert(self@.dom().contains(k) && f(k) == i);
            }
            assert forall|i: int| self@.dom().map(f).contains(i) implies occ_set(
                self.storage,
            ).contains(i) by {
                let k = choose|k: u64| self@.dom().contains(k) && f(k) == i;
                lemma_valid_pos_range(self.storage, self.key_view()[k]);
            }
        }
        vstd::set_lib::lemma_map_size(self@.dom(), occ_set(self.storage), f);
        lemma_occupied_card(self.storage);
    }

    /// Law: a present key's index is occupied, lies below the index
    /// length, and the value found there is the key's value.
    pub proof fn lemma_index_consistent(self, k: u64)
        requires
            self.wf(),
            self@.contains_key(k),
        ensures
            0 <= self.spec_index_of(k) < self.spec_index_len(),
            self.occupied_index(self.spec_index_of(k)),
            self.spec_value_at(self.spec_index_of(k)) == self@[k],
    {
        self.lemma_view_dom();
        lemma_valid_pos_range(self.storage, self.key_view()[k]);
    }

    /// Law: when the index length equals the number of keys, the live
    /// indices are exactly the dense range below the key count.
    pub proof fn lemma_dense_indices(self)
        requires
            self.wf(),
            self.spec_index_len() == self@.dom().len(),
        ensures
            forall|i: int| 0 <= i < self.spec_index_len() ==> #[trigger] self.occupied_index(i),
            forall|k: u64| #[trigger] self@.contains_key(k) ==> 0 <= self.spec_index_of(k)
                < self@.dom().len(),
    {
        self.lemma_len_le_index_len();
        assert forall|i: int| 0 <= i < self.spec_index_len() implies #[trigger] self.occupied_index(
            i,
        ) by {
            lemma_no_free_all_occupied(self.storage, i);
        }
        assert forall|k: u64| #[trigger] self@.contains_key(k) implies 0 <= self.spec_index_of(k)
            < self@.dom().len() by {
            self.lemma_index_consistent(k);
        }
    }

    /// Law: recursive characterization of
    /// [`spec_hole_rank`](StableMap::spec_hole_rank), the rank a free
    /// index has in the free list: the number of unoccupied indices
    /// below it.
    pub proof fn lemma_hole_rank_unfold(self, i: int)
        ensures
            i <= 0 || i > self.spec_index_len() ==> self.spec_hole_rank(i) == 0,
            0 < i <= self.spec_index_len() ==> self.spec_hole_rank(i) == self.spec_hole_rank(
                i - 1,
            ) + if self.occupied_index(i - 1) {
                0int
            } else {
                1int
            },
    {
        crate::linear_storage::lemma_hole_rank_unfold(self.storage, i);
    }

    /// Law: recursive characterization of
    /// [`spec_occ_above`](StableMap::spec_occ_above), the number of
    /// occupied indices above a given one.
    pub proof fn lemma_occ_above_unfold(self, i: int)
        ensures
            i == self.spec_index_len() - 1 ==> self.spec_occ_above(i) == 0,
            -1 <= i < self.spec_index_len() - 1 ==> self.spec_occ_above(i) == self.spec_occ_above(
                i + 1,
            ) + if self.occupied_index(i + 1) {
                1int
            } else {
                0int
            },
    {
        crate::linear_storage::lemma_occ_above_unfold(self.storage, i);
    }

    /// Creates an empty map.
    pub fn new() -> (r: Self)
        ensures
            r.wf(),
            r@ == Map::<u64, V>::empty(),
            r.spec_index_len() == 0,
            r.free_count() == 0,
    {
        let r = StableMap { key_to_pos: ki_new(), storage: LinearStorage::with_capacity(0) };
        proof {
            assert(r.key_view().dom() =~= Set::<u64>::empty());
            assert(r@ =~= Map::<u64, V>::empty());
        }
        r
    }

    /// Creates an empty map with room for `capacity` keys.
    pub fn with_capacity(capacity: usize) -> (r: Self)
        ensures
            r.wf(),
            r@ == Map::<u64, V>::empty(),
            r.spec_index_len() == 0,
            r.free_count() == 0,
    {
        let r = StableMap {
            key_to_pos: ki_with_capacity(capacity),
            storage: LinearStorage::with_capacity(capacity),
        };
        proof {
            assert(r.key_view().dom() =~= Set::<u64>::empty());
            assert(r@ =~= Map::<u64, V>::empty());
        }
        r
    }

    /// Returns the number of keys in the map.
    pub fn len(&self) -> (r: usize)
        requires
            self.wf(),
        ensures
            r == self@.dom().len(),
    {
        proof {
            self.lemma_view_dom();
        }
        ki_len(&self.key_to_pos)
    }

    /// Returns whether the map holds no keys.
    pub fn is_empty(&self) -> (r: bool)
        requires
            self.wf(),
        ensures
            r <==> self@.dom().len() == 0,
    {
        let n = self.len();
        n == 0
    }

    /// Returns whether the map holds at least one key.
    pub fn is_not_empty(&self) -> (r: bool)
        requires
            self.wf(),
        ensures
            r <==> self@.dom().len() > 0,
    {
        !self.is_empty()
    }

    /// Returns the number of keys the map can hold without reallocating.
    pub fn capacity(&self) -> (r: usize)
        requires
            self.wf(),
        ensures
            r >= self@.dom().len(),
    {
        proof {
            self.lemma_view_dom();
            self.lemma_len_le_index_len();
        }
        let a = ki_capacity(&self.key_to_pos);
        let b = self.storage.capacity();
        if a < b {
            a
        } else {
            b
        }
    }

    /// Returns whether the map contains the key.
    pub fn contains_key(&self, k: u64) -> (r: bool)
        requires
            self.wf(),
        ensures
            r == self@.contains_key(k),
    {
        proof {
            self.lemma_view_dom();
        }
        ki_contains(&self.key_to_pos, k)
    }

    /// Returns a reference to the value of key `k`, if present.
    pub fn get(&self, k: u64) -> (r: Option<&V>)
        requires
            self.wf(),
        ensures
            match r {
                Some(v) => self@.contains_key(k) && *v == self@[k],
                None => !self@.contains_key(k),
            },
    {
        proof {
            self.lemma_view_dom();
        }
        match ki_get(&self.key_to_pos, k) {
            Some(p) => Some(self.storage.get_via_pos(&p)),
            None => None,
        }
    }

    /// Returns the key together with a reference to its value, if present.
    pub fn get_key_value(&self, k: u64) -> (r: Option<(u64, &V)>)
        requires
            self.wf(),
        ensures
            match r {
                Some(kv) => self@.contains_key(k) && kv.0 == k && *kv.1 == self@[k],
                None => !self@.contains_key(k),
            },
    {
        match self.get(k) {
            Some(v) => Some((k, v)),
            None => None,
        }
    }

    /// Returns the index the key maps to: `Some` if and only if the key is
    /// present. The index only changes across removal, clearing, or
    /// compaction.
    pub fn get_index(&self, k: u64) -> (r: Option<usize>)
        requires
            self.wf(),
        ensures
            match r {
                Some(i) => self@.contains_key(k) && i as int == self.spec_index_of(k),
                None => !self@.contains_key(k),
            },
    {
        proof {
            self.lemma_view_dom();
        }
        match ki_get(&self.key_to_pos, k) {
            Some(p) => {
                proof {
                    lemma_valid_pos_range(self.storage, p);
                }
                Some(self.storage.index_of_pos(&p))
            },
            None => None,
        }
    }

    /// Returns one more than the highest index any key can currently have.
    /// Higher indices always read as vacant.
    pub fn index_len(&self) -> (r: usize)
        ensures
            r == self.spec_index_len(),
    {
        self.storage.len()
    }

    /// Returns a reference to the value at a numeric index: `Some` exactly
    /// when some key currently has that index, and then the same value that
    /// key maps to.
    pub fn get_by_index(&self, index: usize) -> (r: Option<&V>)
        ensures
            match r {
                Some(v) => self.occupied_index(index as int) && *v == self.spec_value_at(
                    index as int,
                ),
                None => !self.occupied_index(index as int),
            },
    {
        self.storage.get(index)
    }


    /// Inserts a key-value pair. If the key was present its value is
    /// replaced, its index is untouched, and the old value comes back.
    /// A new key receives the smallest free index if one exists, and the
    /// next fresh index otherwise; no other key's index moves.
    pub fn insert(&mut self, k: u64, value: V) -> (r: Option<V>)
        requires
            old(self).wf(),
        ensures
            final(self).wf(),
            final(self)@ == old(self)@.insert(k, value),
            match r {
                Some(v) => old(self)@.contains_key(k) && v == old(self)@[k],
                None => !old(self)@.contains_key(k),
            },
            forall|k2: u64|
                #[trigger] old(self)@.contains_key(k2) && k2 != k ==> final(self).spec_index_of(
                    k2,
                ) == old(self).spec_index_of(k2),
            old(self)@.contains_key(k) ==> {
                &&& final(self).spec_index_of(k) == old(self).spec_index_of(k)
                &&& final(self).spec_index_len() == old(self).spec_index_len()
                &&& final(self).free_count() == old(self).free_count()
                &&& forall|i: int|
                    #[trigger] final(self).occupied_index(i) <==> old(self).occupied_index(i)
            },
            !old(self)@.contains_key(k) ==> {
                &&& 0 <= final(self).spec_index_of(k) < final(self).spec_index_len()
                &&& final(self).occupied_index(final(self).spec_index_of(k))
                &&& forall|i: int|
                    0 <= i < old(self).spec_index_len() && i != final(self).spec_index_of(k)
                        ==> (#[trigger] final(self).occupied_index(i) <==> old(self).occupied_index(i))
                &&& old(self).free_count() > 0 ==> {
                    &&& final(self).spec_index_len() == old(self).spec_index_len()
                    &&& final(self).free_count() == old(self).free_count() - 1
                    &&& !old(self).occupied_index(final(self).spec_index_of(k))
                    &&& forall|h: int|
                        0 <= h < old(self).spec_index_len() && !#[trigger] old(self).occupied_index(h) ==> final(self).spec_index_of(k) <= h
                }
                &&& old(self).free_count() == 0 ==> {
                    &&& final(self).spec_index_len() == old(self).spec_index_len() + 1
                    &&& final(self).free_count() == 0
                    &&& final(self).spec_index_of(k) == old(self).spec_index_len()
                }
            },
    {
        proof {
            old(self).lemma_view_dom();
        }
        match ki_get(&self.key_to_pos, k) {
            Some(p) => {
                let ghost idx = old(self).spec_index_of(k);
                let slot = self.storage.get_via_pos_mut(&p);
                let mut tmp = value;
                core::mem::swap(&mut tmp, slot);
                proof {
                    self.lemma_insert_replace(*old(self), k, value, tmp);
                }
                Some(tmp)
            },
            None => {
                let ghost mid0 = *self;
                let p = self.storage.insert(value);
                let ghost mid = *self;
                let _prev = ki_insert(&mut self.key_to_pos, k, p);
                proof {
                    self.lemma_insert_new(*old(self), mid, k, p, value);
                }
                None
            },
        }
    }

    /// Re-establishes the invariant after replacing the value of a key
    /// that was already present.
    proof fn lemma_insert_replace(self, pre: Self, k: u64, value: V, taken: V)
        requires
            pre.wf(),
            pre@.contains_key(k),
            self.key_to_pos == pre.key_to_pos,
            storage_value_updated(pre.storage, self.storage, pre.spec_index_of(k), value),
            taken == pre.storage.value_at(pre.spec_index_of(k)),
        ensures
            self.wf(),
            self@ == pre@.insert(k, value),
            taken == pre@[k],
            forall|k2: u64|
                #[trigger] pre@.contains_key(k2) && k2 != k ==> self.spec_index_of(k2)
                    == pre.spec_index_of(k2),
            self.spec_index_of(k) == pre.spec_index_of(k),
            self.spec_index_len() == pre.spec_index_len(),
            self.free_count() == pre.free_count(),
            forall|i: int| #[trigger] self.occupied_index(i) <==> pre.occupied_index(i),
    {
        pre.lemma_view_dom();
        self.lemma_view_dom();
        lemma_value_updated_facts(
            pre.storage,
            self.storage,
            pre.spec_index_of(k),
            value,
        );
        assert forall|i: int| #[trigger] self.storage.occupied(i) implies exists|k2: u64|
            #[trigger] self.key_view().contains_key(k2) && self.storage.pos_index(
                self.key_view()[k2],
            ) == i by {
            assert(pre.storage.occupied(i));
            let k2 = choose|k2: u64|
                #[trigger] pre.key_view().contains_key(k2) && pre.storage.pos_index(
                    pre.key_view()[k2],
                ) == i;
            assert(self.key_view().contains_key(k2));
        }
        assert(self@ =~= pre@.insert(k, value)) by {
            assert forall|k2: u64| #[trigger] self@.contains_key(k2) implies self@[k2]
                == pre@.insert(k, value)[k2] by {
                assert(pre.storage.valid_pos(pre.key_view()[k2]));
                lemma_valid_pos_range(pre.storage, pre.key_view()[k2]);
                if k2 != k {
                    lemma_pos_index_injective(
                        pre.storage,
                        pre.key_view()[k2],
                        pre.key_view()[k],
                    );
                }
            }
        }
    }

    /// Re-establishes the invariant after inserting a key that was
    /// absent: `mid` is the state after the storage accepted the value
    /// but before the key was recorded.
    proof fn lemma_insert_new(self, pre: Self, mid: Self, k: u64, p: Pos, value: V)
        requires
            pre.wf(),
            !pre@.contains_key(k),
            mid.key_to_pos == pre.key_to_pos,
            self.storage == mid.storage,
            self.key_view() == pre.key_view().insert(k, p),
            mid.storage.wf(),
            mid.storage.valid_pos(p),
            mid.storage.occupied(mid.storage.pos_index(p)),
            mid.storage.value_at(mid.storage.pos_index(p)) == value,
            0 <= mid.storage.pos_index(p) < mid.storage.spec_len(),
            pre.free_count() > 0 ==> mid.storage.spec_len() == pre.storage.spec_len()
                && mid.storage.free_len() == pre.storage.free_len() - 1 && !pre.storage.occupied(
                mid.storage.pos_index(p),
            ) && forall|h: int|
                0 <= h < pre.storage.spec_len() && !#[trigger] pre.storage.occupied(h)
                    ==> mid.storage.pos_index(p) <= h,
            pre.free_count() == 0 ==> mid.storage.spec_len() == pre.storage.spec_len() + 1
                && mid.storage.free_len() == 0 && mid.storage.pos_index(p)
                == pre.storage.spec_len(),
            forall|i: int|
                0 <= i < pre.storage.spec_len() && i != mid.storage.pos_index(p) ==> (
                #[trigger] mid.storage.occupied(i) <==> pre.storage.occupied(i)) && (
                pre.storage.occupied(i) ==> mid.storage.value_at(i) == pre.storage.value_at(i)),
            forall|q: Pos| #[trigger] pre.storage.valid_pos(q) ==> mid.storage.valid_pos(q)
                && mid.storage.pos_index(q) == pre.storage.pos_index(q) && q != p
                && mid.storage.value_at(mid.storage.pos_index(q)) == pre.storage.value_at(
                pre.storage.pos_index(q),
            ),
        ensures
            self.wf(),
            self@ == pre@.insert(k, value),
            self.spec_index_of(k) == mid.storage.pos_index(p),
            forall|k2: u64|
                #[trigger] pre@.contains_key(k2) && k2 != k ==> self.spec_index_of(k2)
                    == pre.spec_index_of(k2),
            forall|i: int|
                0 <= i < pre.spec_index_len() && i != self.spec_index_of(k) ==> (
                #[trigger] self.occupied_index(i) <==> pre.occupied_index(i)),
            self.spec_index_len() == mid.storage.spec_len(),
            self.free_count() == mid.storage.free_len(),
            self.occupied_index(self.spec_index_of(k)),
    {
        pre.lemma_view_dom();
        self.lemma_view_dom();
        assert forall|k2: u64| #[trigger] self.key_view().contains_key(k2) implies
            self.storage.valid_pos(self.key_view()[k2]) by {
            if k2 != k {
                assert(pre.key_view().contains_key(k2));
            }
        }
        assert forall|k1: u64, k2: u64|
            #![trigger self.key_view()[k1], self.key_view()[k2]]
            self.key_view().contains_key(k1) && self.key_view().contains_key(k2) && k1
            != k2 implies self.key_view()[k1] != self.key_view()[k2] by {
            if k1 != k && k2 != k {
                assert(pre.key_view()[k1] != pre.key_view()[k2]);
            }
        }
        assert forall|i: int| #[trigger] self.storage.occupied(i) implies exists|k2: u64|
            #[trigger] self.key_view().contains_key(k2) && self.storage.pos_index(
                self.key_view()[k2],
            ) == i by {
            if i == mid.storage.pos_index(p) {
                assert(self.key_view().contains_key(k) && self.storage.pos_index(
                    self.key_view()[k],
                ) == i);
            } else {
                assert(pre.storage.occupied(i));
                let k2 = choose|k2: u64|
                    #[trigger] pre.key_view().contains_key(k2) && pre.storage.pos_index(
                        pre.key_view()[k2],
                    ) == i;
                assert(self.key_view().contains_key(k2) && self.storage.pos_index(
                    self.key_view()[k2],
                ) == i);
            }
        }
        assert(self@ =~= pre@.insert(k, value)) by {
            assert forall|k2: u64| #[trigger] self@.contains_key(k2) implies self@[k2]
                == pre@.insert(k, value)[k2] by {
                if k2 != k {
                    assert(pre.storage.valid_pos(pre.key_view()[k2]));
                }
            }
        }
    }

    /// Removes a key, returning its value. The key's index becomes free
    /// and joins the free list; every other key keeps its index.
    pub fn remove(&mut self, k: u64) -> (r: Option<V>)
        requires
            old(self).wf(),
        ensures
            final(self).wf(),
            final(self)@ == old(self)@.remove(k),
            match r {
                Some(v) => old(self)@.contains_key(k) && v == old(self)@[k],
                None => !old(self)@.contains_key(k),
            },
            final(self).spec_index_len() == old(self).spec_index_len(),
            forall|k2: u64|
                #[trigger] old(self)@.contains_key(k2) && k2 != k ==> final(self).spec_index_of(
                    k2,
                ) == old(self).spec_index_of(k2),
            old(self)@.contains_key(k) ==> {
                &&& final(self).free_count() == old(self).free_count() + 1
                &&& !final(self).occupied_index(old(self).spec_index_of(k))
                &&& forall|i: int|
                    0 <= i < old(self).spec_index_len() && i != old(self).spec_index_of(k)
                        ==> (#[trigger] final(self).occupied_index(i) <==> old(self).occupied_index(i))
            },
            !old(self)@.contains_key(k) ==> final(self).free_count() == old(self).free_count()
                && forall|i: int|
                #[trigger] final(self).occupied_index(i) <==> old(self).occupied_index(i),
    {
        proof {
            old(self).lemma_view_dom();
        }
        match ki_remove(&mut self.key_to_pos, k) {
            Some(p) => {
                proof {
                    assert(old(self).storage.valid_pos(p));
                }
                let v = self.storage.take(p);
                proof {
                    self.lemma_remove_present(*old(self), k, p);
                }
                Some(v)
            },
            None => {
                proof {
                    assert(self.key_view() =~= old(self).key_view());
                    self.lemma_view_dom();
                    old(self).lemma_view_dom();
                    assert(self@ =~= old(self)@);
                    assert(self@ =~= old(self)@.remove(k));
                }
                None
            },
        }
    }

    /// Re-establishes the invariant after removing a present key.
    proof fn lemma_remove_present(self, pre: Self, k: u64, p: Pos)
        requires
            pre.wf(),
            pre@.contains_key(k),
            p == pre.key_view()[k],
            self.key_view() == pre.key_view().remove(k),
            self.storage.wf(),
            self.storage.spec_len() == pre.storage.spec_len(),
            self.storage.free_len() == pre.storage.free_len() + 1,
            !self.storage.occupied(pre.storage.pos_index(p)),
            forall|i: int|
                0 <= i < pre.storage.spec_len() && i != pre.storage.pos_index(p) ==> (
                #[trigger] self.storage.occupied(i) <==> pre.storage.occupied(i)) && (
                pre.storage.occupied(i) ==> self.storage.value_at(i) == pre.storage.value_at(i)),
            forall|q: Pos|
                #[trigger] pre.storage.valid_pos(q) && q != p ==> self.storage.valid_pos(q)
                    && self.storage.pos_index(q) == pre.storage.pos_index(q)
                    && self.storage.value_at(self.storage.pos_index(q))
                    == pre.storage.value_at(pre.storage.pos_index(q)),
        ensures
            self.wf(),
            self@ == pre@.remove(k),
            forall|k2: u64|
                #[trigger] pre@.contains_key(k2) && k2 != k ==> self.spec_index_of(k2)
                    == pre.spec_index_of(k2),
            !self.occupied_index(pre.spec_index_of(k)),
            forall|i: int|
                0 <= i < pre.spec_index_len() && i != pre.spec_index_of(k) ==> (
                #[trigger] self.occupied_index(i) <==> pre.occupied_index(i)),
    {
        pre.lemma_view_dom();
        self.lemma_view_dom();
        assert forall|k2: u64| #[trigger] self.key_view().contains_key(k2) implies
            self.storage.valid_pos(self.key_view()[k2]) by {
            assert(pre.key_view().contains_key(k2) && k2 != k);
            assert(pre.key_view()[k2] != p);
        }
        assert forall|i: int| #[trigger] self.storage.occupied(i) implies exists|k2: u64|
            #[trigger] self.key_view().contains_key(k2) && self.storage.pos_index(
                self.key_view()[k2],
            ) == i by {
            assert(i != pre.storage.pos_index(p));
            assert(pre.storage.occupied(i));
            let k2 = choose|k2: u64|
                #[trigger] pre.key_view().contains_key(k2) && pre.storage.pos_index(
                    pre.key_view()[k2],
                ) == i;
            assert(k2 != k) by {
                if k2 == k {
                    assert(pre.storage.pos_index(p) == i);
                }
            }
            assert(pre.key_view()[k2] != p);
            assert(self.key_view().contains_key(k2) && self.storage.pos_index(
                self.key_view()[k2],
            ) == i);
        }
        assert(self@ =~= pre@.remove(k)) by {
            assert forall|k2: u64| #[trigger] self@.contains_key(k2) implies self@[k2]
                == pre@.remove(k)[k2] by {
                assert(k2 != k);
                assert(pre.key_view()[k2] != p);
            }
        }
    }

    /// Removes a key, returning the key together with its value.
    pub fn remove_entry(&mut self, k: u64) -> (r: Option<(u64, V)>)
        requires
            old(self).wf(),
        ensures
            final(self).wf(),
            final(self)@ == old(self)@.remove(k),
            match r {
                Some(kv) => old(self)@.contains_key(k) && kv.0 == k && kv.1 == old(self)@[k],
                None => !old(self)@.contains_key(k),
            },
            final(self).spec_index_len() == old(self).spec_index_len(),
            forall|k2: u64|
                #[trigger] old(self)@.contains_key(k2) && k2 != k ==> final(self).spec_index_of(
                    k2,
                ) == old(self).spec_index_of(k2),
    {
        match self.remove(k) {
            Some(v) => Some((k, v)),
            None => None,
        }
    }

    /// Empties the map. Every index becomes invalid at once.
    pub fn clear(&mut self)
        ensures
            final(self).wf(),
            final(self)@ == Map::<u64, V>::empty(),
            final(self).spec_index_len() == 0,
            final(self).free_count() == 0,
    {
        ki_clear(&mut self.key_to_pos);
        self.storage.clear();
        proof {
            assert(self.key_view().dom() =~= Set::<u64>::empty());
            assert(self@ =~= Map::<u64, V>::empty());
        }
    }

    /// Reserves room for `additional` further keys, counting reusable
    /// free indices against the request.
    pub fn reserve(&mut self, additional: usize)
        requires
            old(self).wf(),
        ensures
            final(self).wf(),
            final(self)@ == old(self)@,
            final(self).spec_index_len() == old(self).spec_index_len(),
            final(self).free_count() == old(self).free_count(),
            forall|k: u64|
                #[trigger] old(self)@.contains_key(k) ==> final(self).spec_index_of(k) == old(self).spec_index_of(k),
            forall|i: int|
                #[trigger] final(self).occupied_index(i) <==> old(self).occupied_index(i),
    {
        ki_reserve(&mut self.key_to_pos, additional);
        self.storage.reserve(additional);
        proof {
            self.lemma_unchanged(*old(self));
        }
    }

    /// Drops spare capacity.
    pub fn shrink_to_fit(&mut self)
        requires
            old(self).wf(),
        ensures
            final(self).wf(),
            final(self)@ == old(self)@,
            final(self).spec_index_len() == old(self).spec_index_len(),
            final(self).free_count() == old(self).free_count(),
            forall|k: u64|
                #[trigger] old(self)@.contains_key(k) ==> final(self).spec_index_of(k) == old(self).spec_index_of(k),
            forall|i: int|
                #[trigger] final(self).occupied_index(i) <==> old(self).occupied_index(i),
    {
        ki_shrink_to_fit(&mut self.key_to_pos);
        self.storage.shrink_to_fit();
        proof {
            self.lemma_unchanged(*old(self));
        }
    }

    /// The abstraction is untouched when neither the key table's entries
    /// nor the storage state changed.
    proof fn lemma_unchanged(self, pre: Self)
        requires
            pre.wf(),
            self.key_view() == pre.key_view(),
            same_storage_state(pre.storage, self.storage),
        ensures
            self.wf(),
            self@ == pre@,
            self.spec_index_len() == pre.spec_index_len(),
            self.free_count() == pre.free_count(),
            forall|k: u64| #[trigger] pre@.contains_key(k) ==> self.spec_index_of(k)
                == pre.spec_index_of(k),
            forall|i: int| #[trigger] self.occupied_index(i) <==> pre.occupied_index(i),
    {
        lemma_same_state_facts(pre.storage, self.storage);
        pre.lemma_view_dom();
        self.lemma_view_dom();
        assert forall|i: int| #[trigger] self.storage.occupied(i) implies exists|k2: u64|
            #[trigger] self.key_view().contains_key(k2) && self.storage.pos_index(
                self.key_view()[k2],
            ) == i by {
            assert(pre.storage.occupied(i));
            let k2 = choose|k2: u64|
                #[trigger] pre.key_view().contains_key(k2) && pre.storage.pos_index(
                    pre.key_view()[k2],
                ) == i;
            assert(self.key_view().contains_key(k2));
        }
        assert(self@ =~= pre@) by {
            assert forall|k2: u64| #[trigger] self@.contains_key(k2) implies self@[k2]
                == pre@[k2] by {
                assert(pre.storage.valid_pos(pre.key_view()[k2]));
                lemma_valid_pos_range(pre.storage, pre.key_view()[k2]);
            }
        }
    }

    /// Inserts only if the key is absent; a present key leaves the map
    /// untouched and hands the rejected value back in the error.
    pub fn try_insert(&mut self, k: u64, value: V) -> (r: Result<(), OccupiedError<V>>)
        requires
            old(self).wf(),
        ensures
            final(self).wf(),
            match r {
                Ok(()) => !old(self)@.contains_key(k) && final(self)@ == old(self)@.insert(
                    k,
                    value,
                ) && forall|k2: u64|
                    #[trigger] old(self)@.contains_key(k2) ==> final(self).spec_index_of(k2)
                        == old(self).spec_index_of(k2),
                Err(e) => old(self)@.contains_key(k) && e.key == k && e.value == value && *final(self) == *old(self),
            },
    {
        if self.contains_key(k) {
            return Err(OccupiedError { key: k, value });
        }
        let _prev = self.insert(k, value);
        Ok(())
    }

    /// Compacts the map, but only when fragmentation is heavy: with no
    /// more than `max(index_len() / 2, 8)` free indices this does
    /// nothing. Afterwards the free count is always at or below that
    /// bound, so a second call in a row never changes anything.
    pub fn compact(&mut self)
        requires
            old(self).wf(),
        ensures
            final(self).wf(),
            old(self).free_count() <= compact_threshold(old(self).spec_index_len()) ==> *final(self) == *old(self),
            old(self).free_count() > compact_threshold(old(self).spec_index_len())
                ==> map_compaction(*old(self), *final(self)),
            final(self).free_count() <= compact_threshold(final(self).spec_index_len()),
    {
        self.storage.compact();
        proof {
            if old(self).free_count() > compact_threshold(old(self).spec_index_len()) {
                self.lemma_map_compaction(*old(self));
            }
        }
    }

    /// Compacts the map unconditionally: afterwards the index length
    /// equals the number of keys and the indices in use are exactly the
    /// dense range below it.
    pub fn force_compact(&mut self)
        requires
            old(self).wf(),
        ensures
            final(self).wf(),
            map_compaction(*old(self), *final(self)),
    {
        self.storage.force_compact();
        proof {
            self.lemma_map_compaction(*old(self));
        }
    }

    /// Lifts a forced storage compaction to the map abstraction.
    proof fn lemma_map_compaction(self, pre: Self)
        requires
            pre.wf(),
            self.key_to_pos == pre.key_to_pos,
            self.storage.wf(),
            forced_compaction(pre.storage, self.storage),
        ensures
            self.wf(),
            map_compaction(pre, self),
    {
        pre.lemma_view_dom();
        self.lemma_view_dom();
        pre.lemma_len_le_index_len();
        let ln = self.storage.spec_len() as int;
        assert forall|k2: u64| #[trigger] self.key_view().contains_key(k2) implies
            self.storage.valid_pos(self.key_view()[k2]) && 0 <= self.storage.pos_index(
            self.key_view()[k2],
        ) < ln by {
            assert(pre.storage.valid_pos(pre.key_view()[k2]));
            lemma_valid_pos_range(self.storage, self.key_view()[k2]);
        }
        // The key indices after compaction fill the dense range exactly.
        let f = |k2: u64| self.storage.pos_index(self.key_view()[k2]);
        assert forall|k1: u64, k2: u64|
            self@.dom().contains(k1) && self@.dom().contains(k2) && k1 != k2 implies f(k1) != f(
            k2,
        ) by {
            lemma_pos_index_injective(
                self.storage,
                self.key_view()[k1],
                self.key_view()[k2],
            );
        }
        assert(vstd::relations::injective_on(f, self@.dom()));
        let image = self@.dom().map(f);
        vstd::set_lib::lemma_map_size(self@.dom(), image, f);
        let range = vstd::set_lib::set_int_range(0, ln);
        vstd::set_lib::lemma_int_range(0, ln);
        assert(self@.dom() =~= pre@.dom());
        assert(image.subset_of(range)) by {
            assert forall|i: int| image.contains(i) implies range.contains(i) by {
                let k2 = choose|k2: u64| self@.dom().contains(k2) && f(k2) == i;
            }
        }
        assert(image =~= range) by {
            if exists|i: int| range.contains(i) && !image.contains(i) {
                let i = choose|i: int| range.contains(i) && !image.contains(i);
                assert(image.subset_of(range.remove(i)));
                vstd::set_lib::lemma_len_subset(image, range.remove(i));
                assert(range.remove(i).len() == range.len() - 1);
                assert(false);
            }
            assert forall|i: int| range.contains(i) implies image.contains(i) by {}
        }
        assert forall|i: int| #[trigger] self.storage.occupied(i) implies exists|k2: u64|
            #[trigger] self.key_view().contains_key(k2) && self.storage.pos_index(
                self.key_view()[k2],
            ) == i by {
            assert(0 <= i < ln);
            assert(image.contains(i));
            let k2 = choose|k2: u64| self@.dom().contains(k2) && f(k2) == i;
            assert(self.key_view().contains_key(k2));
        }
        assert(self@ =~= pre@) by {
            assert forall|k2: u64| #[trigger] self@.contains_key(k2) implies self@[k2]
                == pre@[k2] by {
                assert(pre.storage.valid_pos(pre.key_view()[k2]));
            }
        }
        assert forall|i: int| 0 <= i < ln implies #[trigger] self.occupied_index(i) by {
            assert(image.contains(i));
            let k2 = choose|k2: u64| self@.dom().contains(k2) && f(k2) == i;
            lemma_valid_pos_range(self.storage, self.key_view()[k2]);
        }
    }


    /// Returns a mutable reference to the value of key `k`, if present.
    /// Only that value changes: the key set, every index, and the free
    /// list stay as they are (see [`lemma_value_update`]).
    pub fn get_mut(&mut self, k: u64) -> (r: Option<&mut V>)
        requires
            old(self).wf(),
        ensures
            r is Some <==> old(self)@.contains_key(k),
            r is None ==> *final(self) == *old(self),
            r is Some ==> *r.unwrap() == old(self)@[k] && map_value_updated(
                *old(self),
                *final(self),
                old(self).spec_index_of(k),
                *final(r.unwrap()),
            ),
    {
        proof {
            old(self).lemma_view_dom();
        }
        match ki_get(&self.key_to_pos, k) {
            Some(p) => Some(self.storage.get_via_pos_mut(&p)),
            None => None,
        }
    }

    /// Returns the key together with a mutable reference to its value.
    pub fn get_key_value_mut(&mut self, k: u64) -> (r: Option<(u64, &mut V)>)
        requires
            old(self).wf(),
        ensures
            r is Some <==> old(self)@.contains_key(k),
            r is None ==> *final(self) == *old(self),
            r is Some ==> r.unwrap().0 == k && *r.unwrap().1 == old(self)@[k]
                && map_value_updated(
                *old(self),
                *final(self),
                old(self).spec_index_of(k),
                *final(r.unwrap().1),
            ),
    {
        match self.get_mut(k) {
            Some(v) => Some((k, v)),
            None => None,
        }
    }

    /// Returns a mutable reference to the value at a numeric index, if
    /// some key currently has that index.
    pub fn get_by_index_mut(&mut self, index: usize) -> (r: Option<&mut V>)
        ensures
            r is Some <==> old(self).occupied_index(index as int),
            r is None ==> *final(self) == *old(self),
            r is Some ==> *r.unwrap() == old(self).spec_value_at(index as int)
                && map_value_updated(
                *old(self),
                *final(self),
                index as int,
                *final(r.unwrap()),
            ),
    {
        self.storage.get_mut(index)
    }

    /// Mutable access by an index the caller has already proved occupied.
    pub fn get_by_index_unchecked_mut(&mut self, index: usize) -> (r: &mut V)
        requires
            old(self).occupied_index(index as int),
        ensures
            *r == old(self).spec_value_at(index as int),
            map_value_updated(*old(self), *final(self), index as int, *final(r)),
    {
        self.storage.get_occupied_mut(index)
    }

    /// Inserts a key the caller has already proved absent. The assigned
    /// index follows the same policy as [`insert`](StableMap::insert).
    pub fn insert_unique_unchecked(&mut self, k: u64, value: V)
        requires
            old(self).wf(),
            !old(self)@.contains_key(k),
        ensures
            final(self).wf(),
            final(self)@ == old(self)@.insert(k, value),
            forall|k2: u64|
                #[trigger] old(self)@.contains_key(k2) ==> final(self).spec_index_of(k2) == old(self).spec_index_of(k2),
            0 <= final(self).spec_index_of(k) < final(self).spec_index_len(),
            old(self).free_count() == 0 ==> final(self).spec_index_of(k) == old(self).spec_index_len()
                && final(self).spec_index_len() == old(self).spec_index_len() + 1
                && final(self).free_count() == 0,
            old(self).free_count() > 0 ==> final(self).spec_index_len() == old(self).spec_index_len()
                && final(self).free_count() == old(self).free_count() - 1,
    {
        proof {
            old(self).lemma_view_dom();
        }
        let p = self.storage.insert(value);
        let ghost mid = *self;
        let _prev = ki_insert(&mut self.key_to_pos, k, p);
        proof {
            self.lemma_insert_new(*old(self), mid, k, p, value);
        }
    }

    /// Returns the keys of the map, each exactly once, in no particular
    /// order.
    #[verifier::loop_isolation(false)]
    pub fn keys(&self) -> (r: Vec<u64>)
        requires
            self.wf(),
        ensures
            r@.len() == self@.dom().len(),
            forall|i: int| 0 <= i < r@.len() ==> self@.contains_key(#[trigger] r@[i]),
            forall|i: int, j: int| 0 <= i < j < r@.len() ==> r@[i] != r@[j],
            forall|k: u64| #[trigger] self@.contains_key(k) ==> exists|i: int|
                0 <= i < r@.len() && #[trigger] r@[i] == k,
    {
        proof {
            self.lemma_view_dom();
        }
        let pairs = ki_pairs(&self.key_to_pos);
        let mut r: Vec<u64> = Vec::new();
        let mut i: usize = 0;
        while i < pairs.len()
            invariant
                0 <= i <= pairs@.len(),
                r@.len() == i,
                forall|j: int| 0 <= j < i ==> #[trigger] r@[j] == pairs@[j].0,
            decreases pairs@.len() - i,
        {
            let e = pairs[i];
            r.push(e.0);
            i = i + 1;
        }
        proof {
            assert forall|k: u64| #[trigger] self@.contains_key(k) implies exists|j: int|
                0 <= j < r@.len() && #[trigger] r@[j] == k by {
                let j = choose|j: int| 0 <= j < pairs@.len() && #[trigger] pairs@[j].0 == k;
                assert(r@[j] == k);
            }
        }
        r
    }


    /// Empties the map, returning every key-value pair exactly once, in
    /// no particular order. Afterwards the index space is empty too.
    #[verifier::loop_isolation(false)]
    pub fn drain(&mut self) -> (r: Vec<(u64, V)>)
        requires
            old(self).wf(),
        ensures
            final(self).wf(),
            final(self)@ == Map::<u64, V>::empty(),
            final(self).spec_index_len() == 0,
            final(self).free_count() == 0,
            r@.len() == old(self)@.dom().len(),
            forall|i: int|
                0 <= i < r@.len() ==> old(self)@.contains_key(#[trigger] r@[i].0) && old(self)@[r@[i].0] == r@[i].1,
            forall|i: int, j: int| 0 <= i < j < r@.len() ==> r@[i].0 != r@[j].0,
            forall|k: u64| #[trigger] old(self)@.contains_key(k) ==> exists|i: int|
                0 <= i < r@.len() && (#[trigger] r@[i]).0 == k,
    {
        proof {
            old(self).lemma_view_dom();
        }
        let pairs = ki_drain(&mut self.key_to_pos);
        let ghost ki_after = self.key_to_pos;
        let mut out: Vec<(u64, V)> = Vec::new();
        let mut i: usize = 0;
        proof {
            assert forall|j: int|
                0 <= j < pairs@.len() implies self.storage.valid_pos((#[trigger] pairs@[j]).1)
                && self.storage.value_at(self.storage.pos_index(pairs@[j].1)) == old(self)@[pairs@[j].0] by {
                assert(old(self).key_view().contains_key(pairs@[j].0));
            }
        }
        while i < pairs.len()
            invariant
                0 <= i <= pairs@.len(),
                out@.len() == i,
                self.key_to_pos == ki_after,
                self.storage.wf(),
                forall|j: int|
                    i <= j < pairs@.len() ==> self.storage.valid_pos((#[trigger] pairs@[j]).1)
                        && self.storage.value_at(self.storage.pos_index(pairs@[j].1)) == old(self)@[pairs@[j].0],
                forall|j: int|
                    0 <= j < i ==> (#[trigger] out@[j]).0 == pairs@[j].0 && out@[j].1 == old(self)@[pairs@[j].0],
            decreases pairs@.len() - i,
        {
            let e = pairs[i];
            let ghost pre_storage = self.storage;
            let v = self.storage.take(e.1);
            out.push((e.0, v));
            proof {
                assert forall|j: int|
                    i + 1 <= j < pairs@.len() implies self.storage.valid_pos(
                    (#[trigger] pairs@[j]).1,
                ) && self.storage.value_at(self.storage.pos_index(pairs@[j].1)) == old(self)@[pairs@[j].0] by {
                    assert(pairs@[j].0 != pairs@[i as int].0);
                    assert(old(self).key_view()[pairs@[j].0] != old(self).key_view()[pairs@[
                        i as int
                    ].0]);
                    assert(pre_storage.valid_pos(pairs@[j].1));
                }
            }
            i = i + 1;
        }
        self.storage.clear();
        proof {
            assert(self.key_view().dom() =~= Set::<u64>::empty());
            assert(self@ =~= Map::<u64, V>::empty());
            assert forall|k: u64| #[trigger] old(self)@.contains_key(k) implies exists|i2: int|
                0 <= i2 < out@.len() && (#[trigger] out@[i2]).0 == k by {
                let j = choose|j: int|
                    0 <= j < pairs@.len() && #[trigger] pairs@[j].0 == k;
                assert((out@[j]).0 == k);
            }
        }
        out
    }

    /// Consumes the map, returning its keys.
    pub fn into_keys(self) -> (r: Vec<u64>)
        requires
            self.wf(),
        ensures
            r@.len() == self@.dom().len(),
            forall|i: int| 0 <= i < r@.len() ==> self@.contains_key(#[trigger] r@[i]),
            forall|i: int, j: int| 0 <= i < j < r@.len() ==> r@[i] != r@[j],
            forall|k: u64| #[trigger] self@.contains_key(k) ==> exists|i: int|
                0 <= i < r@.len() && #[trigger] r@[i] == k,
    {
        self.keys()
    }

    /// Consumes the map, returning its values, one per key, in no
    /// particular order: the value at position `i` belongs to the key at
    /// position `i` of the returned key list.
    #[verifier::loop_isolation(false)]
    pub fn into_pairs_values(self) -> (r: (Vec<u64>, Vec<V>))
        requires
            self.wf(),
        ensures
            r.0@.len() == self@.dom().len(),
            r.1@.len() == self@.dom().len(),
            forall|i: int|
                0 <= i < r.0@.len() ==> self@.contains_key(#[trigger] r.0@[i]) && self@[r.0@[i]]
                    == r.1@[i],
            forall|i: int, j: int| 0 <= i < j < r.0@.len() ==> r.0@[i] != r.0@[j],
            forall|k: u64| #[trigger] self@.contains_key(k) ==> exists|i: int|
                0 <= i < r.0@.len() && #[trigger] r.0@[i] == k,
    {
        let mut m = self;
        let mut pairs = m.drain();
        let ghost p0 = pairs@;
        let mut ks: Vec<u64> = Vec::new();
        let mut vs: Vec<V> = Vec::new();
        while pairs.len() > 0
            invariant
                ks@.len() == vs@.len(),
                ks@.len() + pairs@.len() == p0.len(),
                pairs@ == p0.subrange(0, pairs@.len() as int),
                forall|j: int|
                    0 <= j < ks@.len() ==> #[trigger] ks@[j] == p0[p0.len() - 1 - j].0 && vs@[j]
                        == p0[p0.len() - 1 - j].1,
            decreases pairs@.len(),
        {
            let e = pairs.pop().unwrap();
            ks.push(e.0);
            vs.push(e.1);
        }
        proof {
            assert forall|k: u64| #[trigger] self@.contains_key(k) implies exists|i2: int|
                0 <= i2 < ks@.len() && #[trigger] ks@[i2] == k by {
                let j = choose|j: int| 0 <= j < p0.len() && (#[trigger] p0[j]).0 == k;
                assert(ks@[p0.len() - 1 - j] == k);
            }
        }
        (ks, vs)
    }

    /// Consumes the map, returning its values, one per key, in no
    /// particular order.
    pub fn into_values(self) -> (r: Vec<V>)
        requires
            self.wf(),
        ensures
            r@.len() == self@.dom().len(),
    {
        let p = self.into_pairs_values();
        p.1
    }


    /// Removes and returns every pair the predicate selects, in one pass.
    /// Retained keys keep their value and their index; each removed pair
    /// comes back exactly once.
    #[verifier::loop_isolation(false)]
    pub fn extract_if<F: Fn(u64, &V) -> bool>(&mut self, f: F) -> (r: Vec<(u64, V)>)
        requires
            old(self).wf(),
            forall|k: u64, v: &V| #[trigger] f.requires((k, v)),
        ensures
            final(self).wf(),
            final(self).spec_index_len() == old(self).spec_index_len(),
            final(self).free_count() == old(self).free_count() + r@.len(),
            forall|k: u64| #[trigger] final(self)@.contains_key(k) ==> old(self)@.contains_key(k)
                && final(self)@[k] == old(self)@[k] && final(self).spec_index_of(k) == old(self).spec_index_of(k) && f.ensures((k, &old(self)@[k]), false),
            forall|k: u64|
                old(self)@.contains_key(k) && !final(self)@.contains_key(k) ==> f.ensures(
                    (k, &old(self)@[k]),
                    true,
                ),
            forall|i: int|
                0 <= i < r@.len() ==> old(self)@.contains_key(#[trigger] r@[i].0) && old(self)@[r@[i].0] == r@[i].1 && !final(self)@.contains_key(r@[i].0),
            forall|i: int, j: int| 0 <= i < j < r@.len() ==> r@[i].0 != r@[j].0,
            forall|k: u64|
                old(self)@.contains_key(k) && !final(self)@.contains_key(k) ==> exists|i: int|
                    0 <= i < r@.len() && (#[trigger] r@[i]).0 == k,
    {
        proof {
            old(self).lemma_view_dom();
        }
        let pairs = ki_pairs(&self.key_to_pos);
        let mut removed: Vec<(u64, V)> = Vec::new();
        let ghost mut ridx: Map<u64, int> = Map::empty();
        let mut i: usize = 0;
        while i < pairs.len()
            invariant
                0 <= i <= pairs@.len(),
                self.wf(),
                self.spec_index_len() == old(self).spec_index_len(),
                self.free_count() == old(self).free_count() + removed@.len(),
                // keys still to visit are untouched
                forall|j: int|
                    i <= j < pairs@.len() ==> self@.contains_key((#[trigger] pairs@[j]).0)
                        && self.key_view().contains_key(pairs@[j].0) && self.key_view()[pairs@[
                        j
                    ].0] == pairs@[j].1,
                // the current map is a restriction of the map at entry
                forall|k: u64| #[trigger] self@.contains_key(k) ==> old(self)@.contains_key(k)
                    && self@[k] == old(self)@[k] && self.spec_index_of(k) == old(self).spec_index_of(k),
                // visited keys have been decided by the predicate
                forall|j: int|
                    0 <= j < i ==> (self@.contains_key((#[trigger] pairs@[j]).0) ==> f.ensures(
                        (pairs@[j].0, &old(self)@[pairs@[j].0]),
                        false,
                    )) && (!self@.contains_key(pairs@[j].0) ==> f.ensures(
                        (pairs@[j].0, &old(self)@[pairs@[j].0]),
                        true,
                    )),
                // unvisited keys are still present
                forall|j: int| i <= j < pairs@.len() ==> self@.contains_key(
                    (#[trigger] pairs@[j]).0,
                ),
                // the removed list holds exactly the dropped keys
                forall|j2: int|
                    0 <= j2 < removed@.len() ==> old(self)@.contains_key(
                        (#[trigger] removed@[j2]).0,
                    ) && old(self)@[removed@[j2].0] == removed@[j2].1 && !self@.contains_key(
                        removed@[j2].0,
                    ),
                forall|j2: int, j3: int|
                    0 <= j2 < j3 < removed@.len() ==> removed@[j2].0 != removed@[j3].0,
                forall|k: u64|
                    old(self)@.contains_key(k) && !#[trigger] self@.contains_key(k)
                        ==> ridx.contains_key(k) && 0 <= ridx[k] < removed@.len()
                        && removed@[ridx[k]].0 == k,
            decreases pairs@.len() - i,
        {
            let e = pairs[i];
            let ghost pre = *self;
            let vref = self.storage.get_via_pos(&e.1);
            let drop_it = f(e.0, vref);
            if drop_it {
                let _p = ki_remove(&mut self.key_to_pos, e.0);
                let v = self.storage.take(e.1);
                proof {
                    self.lemma_remove_present(pre, e.0, e.1);
                }
                removed.push((e.0, v));
                proof {
                    ridx = ridx.insert(e.0, removed@.len() - 1);
                }
            }
            i = i + 1;
        }
        proof {
            assert forall|k: u64|
                old(self)@.contains_key(k) && !final(self)@.contains_key(k) implies exists|
                i2: int,
            | 0 <= i2 < removed@.len() && (#[trigger] removed@[i2]).0 == k by {
                assert(removed@[ridx[k]].0 == k);
            }
        }
        removed
    }

    /// Keeps only the pairs the predicate accepts; the rest are removed.
    /// Retained keys keep their value and their index.
    #[verifier::loop_isolation(false)]
    pub fn retain<F: Fn(u64, &V) -> bool>(&mut self, f: F)
        requires
            old(self).wf(),
            forall|k: u64, v: &V| #[trigger] f.requires((k, v)),
        ensures
            final(self).wf(),
            final(self).spec_index_len() == old(self).spec_index_len(),
            forall|k: u64| #[trigger] final(self)@.contains_key(k) ==> old(self)@.contains_key(k)
                && final(self)@[k] == old(self)@[k] && final(self).spec_index_of(k) == old(self).spec_index_of(k) && f.ensures((k, &old(self)@[k]), true),
            forall|k: u64|
                old(self)@.contains_key(k) && !final(self)@.contains_key(k) ==> f.ensures(
                    (k, &old(self)@[k]),
                    false,
                ),
    {
        proof {
            old(self).lemma_view_dom();
        }
        let pairs = ki_pairs(&self.key_to_pos);
        let mut i: usize = 0;
        while i < pairs.len()
            invariant
                0 <= i <= pairs@.len(),
                self.wf(),
                self.spec_index_len() == old(self).spec_index_len(),
                forall|j: int|
                    i <= j < pairs@.len() ==> self@.contains_key((#[trigger] pairs@[j]).0)
                        && self.key_view().contains_key(pairs@[j].0) && self.key_view()[pairs@[
                        j
                    ].0] == pairs@[j].1,
                forall|k: u64| #[trigger] self@.contains_key(k) ==> old(self)@.contains_key(k)
                    && self@[k] == old(self)@[k] && self.spec_index_of(k) == old(self).spec_index_of(k),
                forall|j: int|
                    0 <= j < i ==> (self@.contains_key((#[trigger] pairs@[j]).0) ==> f.ensures(
                        (pairs@[j].0, &old(self)@[pairs@[j].0]),
                        true,
                    )) && (!self@.contains_key(pairs@[j].0) ==> f.ensures(
                        (pairs@[j].0, &old(self)@[pairs@[j].0]),
                        false,
                    )),
            decreases pairs@.len() - i,
        {
            let e = pairs[i];
            let ghost pre = *self;
            let vref = self.storage.get_via_pos(&e.1);
            let keep = f(e.0, vref);
            if !keep {
                let _p = ki_remove(&mut self.key_to_pos, e.0);
                let _v = self.storage.take(e.1);
                proof {
                    self.lemma_remove_present(pre, e.0, e.1);
                }
            }
            i = i + 1;
        }
    }


    /// Hands the value of key `k`, if present, to `f`. A new value from
    /// `f` replaces the old one in place, keeping the key's index; `None`
    /// from `f` removes the entry. Returns whether the key is still
    /// present afterwards.
    pub fn replace_entry_with<F: FnOnce(u64, V) -> Option<V>>(&mut self, k: u64, f: F) -> (kept:
        bool)
        requires
            old(self).wf(),
            forall|v: V| #[trigger] f.requires((k, v)),
        ensures
            final(self).wf(),
            !old(self)@.contains_key(k) ==> *final(self) == *old(self) && !kept,
            old(self)@.contains_key(k) && kept ==> {
                &&& final(self)@.contains_key(k)
                &&& f.ensures((k, old(self)@[k]), Some(final(self)@[k]))
                &&& final(self)@ == old(self)@.insert(k, final(self)@[k])
                &&& final(self).spec_index_of(k) == old(self).spec_index_of(k)
                &&& final(self).spec_index_len() == old(self).spec_index_len()
                &&& final(self).free_count() == old(self).free_count()
                &&& forall|k2: u64|
                    #[trigger] old(self)@.contains_key(k2) ==> final(self).spec_index_of(k2)
                        == old(self).spec_index_of(k2)
            },
            old(self)@.contains_key(k) && !kept ==> {
                &&& f.ensures((k, old(self)@[k]), None)
                &&& final(self)@ == old(self)@.remove(k)
                &&& final(self).spec_index_len() == old(self).spec_index_len()
                &&& final(self).free_count() == old(self).free_count() + 1
                &&& forall|k2: u64|
                    #[trigger] old(self)@.contains_key(k2) && k2 != k ==> final(self).spec_index_of(k2) == old(self).spec_index_of(k2)
            },
    {
        proof {
            old(self).lemma_view_dom();
        }
        match ki_get(&self.key_to_pos, k) {
            None => false,
            Some(p) => {
                let ghost pre = *self;
                let g = move |v: V| -> (r: Option<V>)
                    requires
                        f.requires((k, v)),
                    ensures
                        f.ensures((k, v), r),
                    { f(k, v) };
                let kept = self.storage.replace_with(p, g);
                if kept {
                    proof {
                        self.lemma_insert_replace(
                            pre,
                            k,
                            self.storage.value_at(pre.spec_index_of(k)),
                            pre.storage.value_at(pre.spec_index_of(k)),
                        );
                    }
                    true
                } else {
                    let _p = ki_remove(&mut self.key_to_pos, k);
                    proof {
                        self.lemma_remove_present(pre, k, p);
                    }
                    false
                }
            },
        }
    }


    /// Returns mutable references to the values of two distinct keys at
    /// once; a missing key gives `None` in its place. The references are
    /// independent and usable simultaneously. Only those values change:
    /// the key set, every index, and the free list stay as they are.
    pub fn get_many_mut(&mut self, k1: u64, k2: u64) -> (r: (Option<&mut V>, Option<&mut V>))
        requires
            old(self).wf(),
            k1 != k2,
        ensures
            r.0 is Some <==> old(self)@.contains_key(k1),
            r.1 is Some <==> old(self)@.contains_key(k2),
            r.0 is Some && r.1 is Some ==> *r.0.unwrap() == old(self)@[k1] && *r.1.unwrap()
                == old(self)@[k2] && map_pair_updated(
                *old(self),
                *final(self),
                k1,
                k2,
                *final(r.0.unwrap()),
                *final(r.1.unwrap()),
            ),
            r.0 is Some && r.1 is None ==> *r.0.unwrap() == old(self)@[k1] && map_value_updated(
                *old(self),
                *final(self),
                old(self).spec_index_of(k1),
                *final(r.0.unwrap()),
            ),
            r.0 is None && r.1 is Some ==> *r.1.unwrap() == old(self)@[k2] && map_value_updated(
                *old(self),
                *final(self),
                old(self).spec_index_of(k2),
                *final(r.1.unwrap()),
            ),
            r.0 is None && r.1 is None ==> *final(self) == *old(self),
    {
        proof {
            old(self).lemma_view_dom();
        }
        let o1 = ki_get(&self.key_to_pos, k1);
        let o2 = ki_get(&self.key_to_pos, k2);
        match (o1, o2) {
            (Some(p1), Some(p2)) => {
                proof {
                    assert(p1 != p2);
                }
                let pair = self.storage.get_pair_via_pos_mut(&p1, &p2);
                (Some(pair.0), Some(pair.1))
            },
            (Some(p1), None) => (Some(self.storage.get_via_pos_mut(&p1)), None),
            (None, Some(p2)) => (None, Some(self.storage.get_via_pos_mut(&p2))),
            (None, None) => (None, None),
        }
    }

    /// Access by an index the caller has already proved occupied.
    pub fn get_by_index_unchecked(&self, index: usize) -> (r: &V)
        requires
            self.occupied_index(index as int),
        ensures
            *r == self.spec_value_at(index as int),
    {
        self.storage.get_occupied(index)
    }
}


impl<V> Default for StableMap<V> {
    /// The empty map.
    fn default() -> (r: Self)
        ensures
            r.wf(),
            r@ == Map::<u64, V>::empty(),
            r.spec_index_len() == 0,
            r.free_count() == 0,
    {
        StableMap::new()
    }
}

impl<V: Clone> Clone for StableMap<V> {
    /// Cloning enumerates the live pairs and reinserts them, so the clone
    /// comes out freshly compacted: its index length equals its key
    /// count. Values are cloned with `V::clone`, whose effect the clone's
    /// contract carries through [`cloned`](vstd::pervasive::cloned).
    #[verifier::loop_isolation(false)]
    fn clone(&self) -> (r: Self)
        ensures
            r.wf(),
            self.wf() ==> {
                &&& r@.dom() == self@.dom()
                &&& forall|k: u64| #[trigger] r@.contains_key(k) ==> vstd::pervasive::cloned::<
                    V,
                >(self@[k], r@[k])
                &&& r.spec_index_len() == r@.dom().len()
                &&& r.free_count() == 0
            },
    {
        proof {
            if self.wf() {
                self.lemma_view_dom();
            }
        }
        let pairs = ki_pairs(&self.key_to_pos);
        let mut m = StableMap::<V>::with_capacity(pairs.len());
        let ghost mut src: Map<u64, int> = Map::empty();
        let mut i: usize = 0;
        while i < pairs.len()
            invariant
                0 <= i <= pairs@.len(),
                m.wf(),
                forall|k: u64| #[trigger] m@.contains_key(k) ==> src.contains_key(k) && 0
                    <= src[k] < i && pairs@[src[k]].0 == k,
                self.wf() ==> {
                    &&& m.free_count() == 0
                    &&& forall|j: int|
                        0 <= j < i ==> m@.contains_key(#[trigger] pairs@[j].0)
                            && vstd::pervasive::cloned::<V>(
                            self@[pairs@[j].0],
                            m@[pairs@[j].0],
                        )
                    &&& forall|k: u64| #[trigger] m@.contains_key(k) ==> self@.contains_key(k)
                },
            decreases pairs@.len() - i,
        {
            let e = pairs[i];
            match self.storage.get_checked_pos(&e.1) {
                Some(v) => {
                    let v2 = v.clone();
                    proof {
                        if m@.contains_key(e.0) {
                            assert(pairs@[src[e.0]].0 == e.0);
                            assert(false);
                        }
                    }
                    let _prev = m.insert(e.0, v2);
                    proof {
                        src = src.insert(e.0, i as int);
                    }
                },
                None => {
                    proof {
                        if self.wf() {
                            assert(self.key_view().contains_key(e.0));
                            assert(self.storage.valid_pos(e.1));
                            assert(false);
                        }
                    }
                },
            }
            i = i + 1;
        }
        proof {
            if self.wf() {
                assert(m@.dom() =~= self@.dom()) by {
                    assert forall|k: u64| self@.contains_key(k) implies m@.contains_key(k) by {
                        let j = choose|j: int|
                            0 <= j < pairs@.len() && #[trigger] pairs@[j].0 == k;
                        assert(m@.contains_key(pairs@[j].0));
                    }
                }
                m.lemma_len_le_index_len();
            }
        }
        m
    }
}

/// Only the value at index `i` changed, to `v`; the key table, every
/// index, and the free list are exactly as they were.
pub closed spec fn map_value_updated<V>(
    pre: StableMap<V>,
    post: StableMap<V>,
    i: int,
    v: V,
) -> bool {
    &&& post.key_to_pos == pre.key_to_pos
    &&& storage_value_updated(pre.storage, post.storage, i, v)
}

/// What an in-place value update means for the map abstraction: the key
/// whose index was touched now maps to the new value; nothing else moved.
pub proof fn lemma_value_update<V>(pre: StableMap<V>, post: StableMap<V>, i: int, v: V)
    requires
        pre.wf(),
        map_value_updated(pre, post, i, v),
    ensures
        post.wf(),
        post.spec_index_len() == pre.spec_index_len(),
        post.free_count() == pre.free_count(),
        forall|j: int| #[trigger] post.occupied_index(j) <==> pre.occupied_index(j),
        post@.dom() == pre@.dom(),
        forall|k: u64| #[trigger] pre@.contains_key(k) ==> post.spec_index_of(k)
            == pre.spec_index_of(k),
        forall|k: u64|
            #[trigger] pre@.contains_key(k) ==> post@[k] == if pre.spec_index_of(k) == i {
                v
            } else {
                pre@[k]
            },
{
    pre.lemma_view_dom();
    post.lemma_view_dom();
    lemma_value_updated_facts(pre.storage, post.storage, i, v);
    assert forall|j: int| #[trigger] post.storage.occupied(j) implies exists|k2: u64|
        #[trigger] post.key_view().contains_key(k2) && post.storage.pos_index(
            post.key_view()[k2],
        ) == j by {
        assert(pre.storage.occupied(j));
        let k2 = choose|k2: u64|
            #[trigger] pre.key_view().contains_key(k2) && pre.storage.pos_index(
                pre.key_view()[k2],
            ) == j;
        assert(post.key_view().contains_key(k2));
    }
    assert(post@.dom() =~= pre@.dom());
    assert forall|k: u64| #[trigger] pre@.contains_key(k) implies post@[k] == if pre.spec_index_of(
        k,
    ) == i {
        v
    } else {
        pre@[k]
    } by {
        assert(pre.storage.valid_pos(pre.key_view()[k]));
        lemma_valid_pos_range(pre.storage, pre.key_view()[k]);
    }
}

/// Only the values of the two distinct keys `k1` and `k2` changed, to
/// `v1` and `v2`; the key table, every index, and the free list are
/// exactly as they were.
pub closed spec fn map_pair_updated<V>(
    pre: StableMap<V>,
    post: StableMap<V>,
    k1: u64,
    k2: u64,
    v1: V,
    v2: V,
) -> bool {
    &&& post.key_to_pos == pre.key_to_pos
    &&& storage_pair_updated(
        pre.storage,
        post.storage,
        pre.spec_index_of(k1),
        v1,
        pre.spec_index_of(k2),
        v2,
    )
}

/// What a two-value update means for the map abstraction: the two keys now
/// map to the new values; nothing else moved.
pub proof fn lemma_pair_update<V>(
    pre: StableMap<V>,
    post: StableMap<V>,
    k1: u64,
    k2: u64,
    v1: V,
    v2: V,
)
    requires
        pre.wf(),
        pre@.contains_key(k1),
        pre@.contains_key(k2),
        k1 != k2,
        map_pair_updated(pre, post, k1, k2, v1, v2),
    ensures
        post.wf(),
        post@ == pre@.insert(k1, v1).insert(k2, v2),
        post.spec_index_len() == pre.spec_index_len(),
        post.free_count() == pre.free_count(),
        forall|j: int| #[trigger] post.occupied_index(j) <==> pre.occupied_index(j),
        forall|k: u64| #[trigger] pre@.contains_key(k) ==> post.spec_index_of(k)
            == pre.spec_index_of(k),
{
    pre.lemma_view_dom();
    post.lemma_view_dom();
    let i1 = pre.spec_index_of(k1);
    let i2 = pre.spec_index_of(k2);
    lemma_pos_index_injective(pre.storage, pre.key_view()[k1], pre.key_view()[k2]);
    lemma_valid_pos_range(pre.storage, pre.key_view()[k1]);
    lemma_valid_pos_range(pre.storage, pre.key_view()[k2]);
    lemma_pair_updated_facts(pre.storage, post.storage, i1, v1, i2, v2);
    assert forall|j: int| #[trigger] post.storage.occupied(j) implies exists|k: u64|
        #[trigger] post.key_view().contains_key(k) && post.storage.pos_index(
            post.key_view()[k],
        ) == j by {
        assert(pre.storage.occupied(j));
        let k = choose|k: u64|
            #[trigger] pre.key_view().contains_key(k) && pre.storage.pos_index(
                pre.key_view()[k],
            ) == j;
        assert(post.key_view().contains_key(k));
    }
    assert(post@ =~= pre@.insert(k1, v1).insert(k2, v2)) by {
        assert forall|k: u64| #[trigger] post@.contains_key(k) implies post@[k] == pre@.insert(
            k1,
            v1,
        ).insert(k2, v2)[k] by {
            assert(pre.storage.valid_pos(pre.key_view()[k]));
            lemma_valid_pos_range(pre.storage, pre.key_view()[k]);
            if k != k1 && k != k2 {
                lemma_pos_index_injective(pre.storage, pre.key_view()[k], pre.key_view()[k1]);
                lemma_pos_index_injective(pre.storage, pre.key_view()[k], pre.key_view()[k2]);
            }
        }
    }
}

/// The effect of an unconditional compaction on the map abstraction. The
/// key-to-value view is untouched; the free count drops to zero; the index
/// length shrinks to the number of keys; keys whose index already lay
/// below the new length keep it, and each key with a higher index moves to
/// the free index whose rank among the free indices equals the number of
/// occupied indices that were above the key's old index.
pub open spec fn map_compaction<V>(pre: StableMap<V>, post: StableMap<V>) -> bool {
    &&& post@ == pre@
    &&& post.free_count() == 0
    &&& post.spec_index_len() + pre.free_count() == pre.spec_index_len()
    &&& post.spec_index_len() == pre@.dom().len()
    &&& forall|i: int| 0 <= i < post.spec_index_len() ==> #[trigger] post.occupied_index(i)
    &&& forall|k: u64| #[trigger] pre@.contains_key(k) ==> {
        &&& 0 <= post.spec_index_of(k) < post.spec_index_len()
        &&& (pre.spec_index_of(k) < post.spec_index_len() ==> post.spec_index_of(k)
            == pre.spec_index_of(k))
        &&& (pre.spec_index_of(k) >= post.spec_index_len() ==> !pre.occupied_index(
            post.spec_index_of(k),
        ) && pre.spec_hole_rank(post.spec_index_of(k)) == pre.spec_occ_above(
            pre.spec_index_of(k),
        ))
    }
}

} // verus!
