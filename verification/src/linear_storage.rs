//! The slot array combined with a min-ordered free list.

use vstd::prelude::*;
use vstd::multiset::Multiset;
use crate::free_heap::{heap_clear, heap_len, heap_new, heap_pop_min, heap_push, heap_view};
use crate::pos_vec::{
    lemma_all_occupied, lemma_counts_agree, lemma_counts_split, lemma_counts_update,
    lemma_none_upto_constant, lemma_occ_set_card, lemma_pos_fields, none_upto, occ_from, occ_upto,
    Pos, PosVec,
};
use min_max_heap::MinMaxHeap;

verus! {

broadcast use vstd::multiset::group_multiset_axioms;

/// The slot array plus a free list of its empty slots.
///
/// The free list holds one `(slot index, cell)` entry for every empty slot,
/// ordered by index, so an insertion reuses the smallest free index before
/// the array grows. Handles returned by [`LinearStorage::insert`] stay
/// valid until they are passed to [`LinearStorage::take`] or the storage is
/// cleared; compaction only changes the index they stand for.
pub struct LinearStorage<V> {
    pub(crate) values: PosVec<V>,
    pub(crate) free_list: MinMaxHeap<(usize, usize)>,
}

impl<V> LinearStorage<V> {
    /// Number of slots, empty ones included.
    pub closed spec fn spec_len(self) -> nat {
        self.values.spec_len()
    }

    /// Whether slot `i` holds a value.
    pub closed spec fn occupied(self, i: int) -> bool {
        self.values.occupied(i)
    }

    /// The value in occupied slot `i`.
    pub closed spec fn value_at(self, i: int) -> V
        recommends
            self.occupied(i),
    {
        self.values.value_at(i)
    }

    /// Number of empty slots, equivalently the length of the free list.
    pub closed spec fn free_len(self) -> nat {
        heap_view(self.free_list).len()
    }

    /// A handle this storage has issued and not taken back.
    pub closed spec fn valid_pos(self, p: Pos) -> bool {
        self.values.valid_in_use(p)
    }

    /// The slot index a valid handle currently stands for.
    pub closed spec fn pos_index(self, p: Pos) -> int
        recommends
            self.valid_pos(p),
    {
        self.values.index_of(p)
    }

    /// Number of empty slots below index `i`.
    pub closed spec fn hole_rank(self, i: int) -> int {
        none_upto(self.values.slots_view(), i)
    }

    /// Number of occupied slots above index `i`.
    pub closed spec fn occ_rank_above(self, i: int) -> int {
        occ_from(self.values.slots_view(), i + 1)
    }

    /// The storage invariant: the slot array is well formed and the free
    /// list holds exactly one entry per empty slot, each entry naming the
    /// cell that points at that slot.
    pub closed spec fn wf(self) -> bool {
        &&& self.values.wf()
        &&& forall|e: (usize, usize)| #[trigger] heap_view(self.free_list).contains(e) ==> {
            &&& heap_view(self.free_list).count(e) == 1
            &&& (e.0 as int) < self.values.spec_len()
            &&& !self.values.occupied(e.0 as int)
            &&& (e.1 as int) < self.values.cells_len()
            &&& self.values.cell_points(e.1 as int) == e.0 as int
        }
        &&& forall|e1: (usize, usize), e2: (usize, usize)|
            #[trigger] heap_view(self.free_list).contains(e1) && #[trigger] heap_view(
                self.free_list,
            ).contains(e2) && e1 != e2 ==> e1.0 != e2.0 && e1.1 != e2.1
        &&& forall|i: int|
            0 <= i < self.values.spec_len() && !#[trigger] self.values.occupied(i) ==> exists|
                e: (usize, usize),
            | #[trigger] heap_view(self.free_list).contains(e) && e.0 == i
        &&& heap_view(self.free_list).len() + occ_upto(
            self.values.slots_view(),
            self.values.spec_len() as int,
        ) == self.values.spec_len()
    }

    /// Creates an empty storage with the requested capacity.
    pub fn with_capacity(capacity: usize) -> (r: Self)
        ensures
            r.wf(),
            r.spec_len() == 0,
            r.free_len() == 0,
            forall|i: int| !#[trigger] r.occupied(i),
    {
        LinearStorage { values: PosVec::with_capacity(capacity), free_list: heap_new() }
    }

    /// Returns the number of slots, empty ones included.
    pub fn len(&self) -> (r: usize)
        ensures
            r == self.spec_len(),
    {
        self.values.len()
    }

    /// Returns the number of slots the storage can hold without
    /// reallocating.
    pub fn capacity(&self) -> (r: usize)
        ensures
            r >= self.spec_len(),
    {
        self.values.capacity()
    }

    /// Reserves room for `additional` further values, counting reusable
    /// empty slots against the request.
    pub fn reserve(&mut self, additional: usize)
        requires
            old(self).wf(),
        ensures
            final(self).wf(),
            same_storage_state(*old(self), *final(self)),
    {
        let free = heap_len(&self.free_list);
        let grow = if additional > free {
            additional - free
        } else {
            0
        };
        self.values.reserve(grow);
        proof {
            lemma_same_state_facts(*old(self), *self);
        }
    }

    /// Drops spare capacity.
    pub fn shrink_to_fit(&mut self)
        requires
            old(self).wf(),
        ensures
            final(self).wf(),
            same_storage_state(*old(self), *final(self)),
    {
        self.values.shrink_to_fit();
        proof {
            lemma_same_state_facts(*old(self), *self);
        }
    }

    /// Empties the storage. Every handle it has issued becomes invalid.
    pub fn clear(&mut self)
        ensures
            final(self).wf(),
            final(self).spec_len() == 0,
            final(self).free_len() == 0,
            forall|i: int| !#[trigger] final(self).occupied(i),
    {
        self.values.clear();
        heap_clear(&mut self.free_list);
    }

    /// Checked access by raw slot index.
    pub fn get(&self, pos: usize) -> (r: Option<&V>)
        ensures
            match r {
                Some(v) => self.occupied(pos as int) && *v == self.value_at(pos as int),
                None => !self.occupied(pos as int),
            },
    {
        self.values.get(pos)
    }

    /// Checked mutable access by raw slot index. The storage structure is
    /// untouched: only the value behind the returned reference changes.
    pub fn get_mut(&mut self, pos: usize) -> (r: Option<&mut V>)
        ensures
            r is Some <==> old(self).occupied(pos as int),
            r is None ==> *final(self) == *old(self),
            r is Some ==> *r.unwrap() == old(self).value_at(pos as int) && storage_value_updated(
                *old(self),
                *final(self),
                pos as int,
                *final(r.unwrap()),
            ),
    {
        self.values.get_mut(pos)
    }

    /// Access through a handle.
    pub fn get_via_pos(&self, pos: &Pos) -> (r: &V)
        requires
            self.valid_pos(*pos),
        ensures
            *r == self.value_at(self.pos_index(*pos)),
    {
        self.values.get_via_pos(pos)
    }

    /// Mutable access through a handle. The storage structure is
    /// untouched: only the value behind the returned reference changes.
    pub fn get_via_pos_mut(&mut self, pos: &Pos) -> (r: &mut V)
        requires
            old(self).valid_pos(*pos),
        ensures
            *r == old(self).value_at(old(self).pos_index(*pos)),
            storage_value_updated(
                *old(self),
                *final(self),
                old(self).pos_index(*pos),
                *final(r),
            ),
    {
        self.values.get_via_pos_mut(pos)
    }

    /// Mutable access by a slot index the caller has already proved
    /// occupied. The storage structure is untouched: only the value behind
    /// the returned reference changes.
    pub fn get_occupied_mut(&mut self, idx: usize) -> (r: &mut V)
        requires
            old(self).occupied(idx as int),
        ensures
            *r == old(self).value_at(idx as int),
            storage_value_updated(*old(self), *final(self), idx as int, *final(r)),
    {
        self.values.get_occupied_mut(idx)
    }

    /// Fully checked access through a handle, with no precondition.
    pub fn get_checked_pos(&self, p: &Pos) -> (r: Option<&V>)
        ensures
            r is Some <==> self.valid_pos(*p),
            r matches Some(v) ==> *v == self.value_at(self.pos_index(*p)),
    {
        self.values.get_checked(p)
    }

    /// Reads the index a valid handle stands for.
    pub fn index_of_pos(&self, p: &Pos) -> (r: usize)
        requires
            self.valid_pos(*p),
        ensures
            r as int == self.pos_index(*p),
    {
        self.values.index_of_pos(p)
    }

    /// Access by raw slot index that the caller has already proved
    /// occupied.
    pub fn get_occupied(&self, idx: usize) -> (r: &V)
        requires
            self.occupied(idx as int),
        ensures
            *r == self.value_at(idx as int),
    {
        self.values.get_occupied(idx)
    }

    /// Stores a value, reusing the smallest free index if one exists and
    /// growing the array otherwise. Returns the handle for the new value.
    pub fn insert(&mut self, value: V) -> (r: Pos)
        requires
            old(self).wf(),
        ensures
            final(self).wf(),
            final(self).valid_pos(r),
            final(self).occupied(final(self).pos_index(r)),
            final(self).value_at(final(self).pos_index(r)) == value,
            0 <= final(self).pos_index(r) < final(self).spec_len(),
            old(self).free_len() > 0 ==> {
                &&& final(self).spec_len() == old(self).spec_len()
                &&& final(self).free_len() == old(self).free_len() - 1
                &&& !old(self).occupied(final(self).pos_index(r))
                &&& forall|h: int|
                    0 <= h < old(self).spec_len() && !#[trigger] old(self).occupied(h) ==> final(self).pos_index(r) <= h
            },
            old(self).free_len() == 0 ==> {
                &&& final(self).spec_len() == old(self).spec_len() + 1
                &&& final(self).free_len() == 0
                &&& final(self).pos_index(r) == old(self).spec_len()
            },
            forall|i: int|
                0 <= i < old(self).spec_len() && i != final(self).pos_index(r) ==> (
                #[trigger] final(self).occupied(i) <==> old(self).occupied(i)) && (old(self).occupied(i) ==> final(self).value_at(i) == old(self).value_at(i)),
            forall|p: Pos| #[trigger] old(self).valid_pos(p) ==> final(self).valid_pos(p) && final(self).pos_index(p) == old(self).pos_index(p) && p != r && final(self).value_at(
                final(self).pos_index(p),
            ) == old(self).value_at(old(self).pos_index(p)),
    {
        let ghost pre = *self;
        let popped = heap_pop_min(&mut self.free_list);
        match popped {
            Some(e) => {
                proof {
                    assert(heap_view(pre.free_list).contains(e));
                }
                let p = self.values.pos_for_cell(e.1);
                proof {
                    assert(self.values.valid_free(p));
                }
                let r = self.values.store(p, value);
                proof {
                    self.lemma_insert_reuse_wf(pre, e, value);
                }
                r
            },
            None => {
                let p = self.values.create_pos();
                let r = self.values.store(p, value);
                proof {
                    self.lemma_insert_grow_wf(pre, value);
                }
                r
            },
        }
    }

    /// Re-establishes the invariant after an insertion that reused the
    /// free-list entry `e`, and carries the frame facts for slots and
    /// handles across it.
    proof fn lemma_insert_reuse_wf(self, pre: Self, e: (usize, usize), value: V)
        requires
            pre.wf(),
            heap_view(pre.free_list).contains(e),
            forall|e2: (usize, usize)| #[trigger] heap_view(self.free_list).contains(e2) ==> (e.0
                < e2.0 || (e.0 == e2.0 && e.1 <= e2.1)),
            heap_view(self.free_list) == heap_view(pre.free_list).remove(e),
            self.values.slots_view() == pre.values.slots_view().update(
                e.0 as int,
                Some((e.1 as int, value)),
            ),
            self.values.cells_view() == pre.values.cells_view(),
            self.values.tag_of() == pre.values.tag_of(),
            self.values.wf(),
        ensures
            self.wf(),
            self.free_len() == pre.free_len() - 1,
            forall|h: int|
                0 <= h < pre.spec_len() && !#[trigger] pre.occupied(h) ==> e.0 as int <= h,
            forall|i: int|
                0 <= i < pre.spec_len() && i != e.0 as int ==> (#[trigger] self.occupied(i) <==> pre.occupied(i))
                    && (pre.occupied(i) ==> self.value_at(i) == pre.value_at(i)),
            forall|p: Pos| #[trigger] pre.valid_pos(p) ==> self.valid_pos(p) && self.pos_index(p)
                == pre.pos_index(p) && p.spec_cell() != e.1 as int && self.value_at(
                self.pos_index(p),
            ) == pre.value_at(pre.pos_index(p)),
    {
        assert forall|h: int|
            0 <= h < pre.spec_len() && !#[trigger] pre.occupied(h) implies e.0 as int <= h by {
            let e2 = choose|e2: (usize, usize)| #[trigger] heap_view(pre.free_list).contains(e2)
                && e2.0 == h;
            if e2 != e {
                assert(heap_view(self.free_list).contains(e2));
            }
        }
        assert forall|p: Pos| #[trigger] pre.valid_pos(p) implies self.valid_pos(p)
            && self.pos_index(p) == pre.pos_index(p) && p.spec_cell() != e.1 as int
            && self.value_at(self.pos_index(p)) == pre.value_at(pre.pos_index(p)) by {
            let i = pre.values.index_of(p);
            assert(pre.values.occupied(i));
            assert(i != e.0 as int);
            assert(p.spec_cell() != e.1 as int) by {
                if p.spec_cell() == e.1 as int {
                    assert(pre.values.cell_points(e.1 as int) == e.0 as int);
                }
            }
        }
        let msp = heap_view(pre.free_list);
        let ms = heap_view(self.free_list);
        assert(ms.len() == msp.len() - 1);
        assert forall|e2: (usize, usize)| #[trigger] ms.contains(e2) implies {
            &&& ms.count(e2) == 1
            &&& (e2.0 as int) < self.values.spec_len()
            &&& !self.values.occupied(e2.0 as int)
            &&& (e2.1 as int) < self.values.cells_len()
            &&& self.values.cell_points(e2.1 as int) == e2.0 as int
        } by {
            assert(msp.contains(e2));
            assert(e2 != e);
            assert(e2.0 != e.0);
        }
        assert forall|i: int|
            0 <= i < self.values.spec_len() && !#[trigger] self.values.occupied(i) implies exists|
            e2: (usize, usize),
        | #[trigger] ms.contains(e2) && e2.0 == i by {
            assert(!pre.values.occupied(i));
            let e2 = choose|e2: (usize, usize)| #[trigger] msp.contains(e2) && e2.0 == i;
            assert(e2 != e);
            assert(ms.contains(e2));
        }
        assert forall|e1: (usize, usize), e2: (usize, usize)|
            #[trigger] ms.contains(e1) && #[trigger] ms.contains(e2) && e1 != e2 implies e1.0
            != e2.0 && e1.1 != e2.1 by {
            assert(msp.contains(e1));
            assert(msp.contains(e2));
        }
        lemma_counts_update(
            pre.values.slots_view(),
            e.0 as int,
            Some((e.1 as int, value)),
            pre.values.spec_len() as int,
        );
    }

    /// Re-establishes the invariant after an insertion that grew the
    /// array because the free list was empty, and carries the frame facts
    /// for slots and handles across it.
    proof fn lemma_insert_grow_wf(self, pre: Self, value: V)
        requires
            pre.wf(),
            heap_view(pre.free_list).len() == 0,
            heap_view(self.free_list) == heap_view(pre.free_list),
            self.values.slots_view() == pre.values.slots_view().push(None).update(
                pre.values.spec_len() as int,
                Some((pre.values.cells_len() as int, value)),
            ),
            self.values.cells_view() == pre.values.cells_view().push(
                pre.values.spec_len() as int,
            ),
            self.values.tag_of() == pre.values.tag_of(),
            self.values.wf(),
        ensures
            self.wf(),
            self.free_len() == 0,
            forall|i: int|
                0 <= i < pre.spec_len() ==> (#[trigger] self.occupied(i) <==> pre.occupied(i))
                    && (pre.occupied(i) ==> self.value_at(i) == pre.value_at(i)),
            forall|p: Pos| #[trigger] pre.valid_pos(p) ==> self.valid_pos(p) && self.pos_index(p)
                == pre.pos_index(p) && p.spec_cell() != pre.values.cells_len() && self.value_at(
                self.pos_index(p),
            ) == pre.value_at(pre.pos_index(p)),
    {
        assert forall|p: Pos| #[trigger] pre.valid_pos(p) implies self.valid_pos(p)
            && self.pos_index(p) == pre.pos_index(p) && p.spec_cell() != pre.values.cells_len()
            && self.value_at(self.pos_index(p)) == pre.value_at(pre.pos_index(p)) by {
            let i = pre.values.index_of(p);
            assert(pre.values.occupied(i));
        }
        let n = pre.values.spec_len() as int;
        assert forall|e2: (usize, usize)| !(#[trigger] heap_view(self.free_list).contains(
            e2,
        )) by {
            if heap_view(self.free_list).contains(e2) {
                assert(heap_view(self.free_list).count(e2) > 0);
                vstd::multiset::lemma_multiset_empty_len(heap_view(self.free_list));
            }
        }
        assert forall|i: int|
            0 <= i < self.values.spec_len() implies #[trigger] self.values.occupied(i) by {
            if i < n {
                lemma_all_occupied(pre.values.slots_view(), n, i);
                assert(pre.values.occupied(i));
            }
        }
        lemma_counts_agree(
            pre.values.slots_view(),
            pre.values.slots_view().push(None),
            n,
        );
        lemma_counts_update(
            pre.values.slots_view().push(None),
            n,
            Some((pre.values.cells_len() as int, value)),
            n + 1,
        );
    }

    /// Compacts the storage, but only when fragmentation is heavy: with no
    /// more than `max(index length / 2, 8)` free slots this does nothing.
    /// Afterwards the free count is always at or below that bound, so a
    /// second call in a row never does anything.
    pub fn compact(&mut self)
        requires
            old(self).wf(),
        ensures
            final(self).wf(),
            old(self).free_len() <= compact_threshold(old(self).spec_len()) ==> *final(self)
                == *old(self),
            old(self).free_len() > compact_threshold(old(self).spec_len())
                ==> forced_compaction(*old(self), *final(self)),
            final(self).free_len() <= compact_threshold(final(self).spec_len()),
    {
        let free = heap_len(&self.free_list);
        let len = self.values.len();
        let half = len / 2;
        let threshold = if half > 8 {
            half
        } else {
            8
        };
        if free <= threshold {
            return ;
        }
        self.force_compact();
    }

    /// Compacts the storage unconditionally: every free slot is eliminated
    /// by relocation, so afterwards the index length equals the number of
    /// stored values and the free list is empty.
    pub fn force_compact(&mut self)
        requires
            old(self).wf(),
        ensures
            final(self).wf(),
            forced_compaction(*old(self), *final(self)),
    {
        let ghost pre = *self;
        let ghost ms0 = heap_view(old(self).free_list);
        let mut frees: Vec<usize> = Vec::new();
        while heap_len(&self.free_list) > 0
            invariant
                pre.wf(),
                ms0 == heap_view(pre.free_list),
                self.values == pre.values,
                frees@.len() + heap_view(self.free_list).len() == ms0.len(),
                heap_view(self.free_list).subset_of(ms0),
                forall|e: (usize, usize)| #[trigger] ms0.contains(e) ==> heap_view(
                    self.free_list,
                ).contains(e) || frees@.contains(e.0),
                forall|j: int|
                    #![trigger frees@[j]]
                    0 <= j < frees@.len() ==> frees@[j] < pre.values.spec_len()
                        && !pre.values.occupied(frees@[j] as int),
                forall|j1: int, j2: int| 0 <= j1 < j2 < frees@.len() ==> frees@[j1] < frees@[j2],
                forall|j: int, e: (usize, usize)|
                    #![trigger frees@[j], heap_view(self.free_list).contains(e)]
                    0 <= j < frees@.len() && heap_view(self.free_list).contains(e) ==> frees@[j]
                        < e.0,
            decreases heap_view(self.free_list).len(),
        {
            let ghost msc = heap_view(self.free_list);
            let m = heap_pop_min(&mut self.free_list);
            match m {
                Some(e) => {
                    proof {
                        assert(msc.contains(e));
                        assert(ms0.contains(e)) by {
                            assert(msc.count(e) > 0);
                            assert(msc.count(e) <= ms0.count(e));
                        }
                        assert(heap_view(pre.free_list).contains(e));
                        assert((e.0 as int) < pre.values.spec_len() && !pre.values.occupied(
                            e.0 as int,
                        ));
                        assert forall|j: int, e2: (usize, usize)|
                            #![trigger frees@.push(e.0)[j], heap_view(self.free_list).contains(e2)]
                            0 <= j < frees@.len() + 1 && heap_view(self.free_list).contains(
                                e2,
                            ) implies frees@.push(e.0)[j] < e2.0 by {
                            assert(msc.contains(e2)) by {
                                assert(heap_view(self.free_list).count(e2) > 0);
                                assert(heap_view(self.free_list).count(e2) <= msc.count(e2));
                            }
                            if j < frees@.len() {
                                assert(frees@[j] < e2.0);
                            } else {
                                assert(e.0 <= e2.0);
                                if e.0 == e2.0 {
                                    assert(e2 != e) by {
                                        assert(heap_view(self.free_list).count(e) == msc.count(e)
                                            - 1);
                                        assert(ms0.count(e) <= 1) by {
                                            assert(ms0.contains(e));
                                        }
                                    }
                                    assert(e2.0 != e.0) by {
                                        assert(ms0.contains(e2));
                                    }
                                }
                            }
                        }
                    }
                    let ghost frees0 = frees@;
                    frees.push(e.0);
                    proof {
                        assert(frees@ == frees0.push(e.0));
                        assert forall|e2: (usize, usize)| #[trigger] ms0.contains(e2) implies
                            heap_view(self.free_list).contains(e2) || frees@.contains(e2.0) by {
                            if e2 == e {
                                assert(frees@[frees@.len() - 1] == e.0);
                            } else if msc.contains(e2) {
                                assert(heap_view(self.free_list).count(e2) == msc.count(e2));
                            } else {
                                assert(frees0.contains(e2.0));
                                let j = choose|j: int|
                                    0 <= j < frees0.len() && frees0[j] == e2.0;
                                assert(frees@[j] == e2.0);
                            }
                        }
                        assert forall|j: int|
                            #![trigger frees@[j]]
                            0 <= j < frees@.len() implies frees@[j] < pre.values.spec_len()
                            && !pre.values.occupied(frees@[j] as int) by {
                            if j < frees@.len() - 1 {
                                assert(frees@[j] == frees0[j]);
                            }
                        }
                    }
                },
                None => {
                    proof {
                        assert(msc.len() == 0);
                    }
                },
            }
        }
        proof {
            self.lemma_drained_frees(pre, ms0, frees@);
        }
        self.values.compact(&frees);
        proof {
            self.lemma_force_compact_post(pre, frees@);
        }
    }

    /// After the free list has been fully drained into `frees`, the list
    /// is exactly the ascending enumeration of the empty slots.
    proof fn lemma_drained_frees(self, pre: Self, ms0: Multiset<(usize, usize)>, frees: Seq<usize>)
        requires
            pre.wf(),
            ms0 == heap_view(pre.free_list),
            self.values == pre.values,
            heap_view(self.free_list).len() == 0,
            frees.len() + heap_view(self.free_list).len() == ms0.len(),
            forall|e: (usize, usize)| #[trigger] ms0.contains(e) ==> heap_view(
                self.free_list,
            ).contains(e) || frees.contains(e.0),
            forall|j: int|
                #![trigger frees[j]]
                0 <= j < frees.len() ==> frees[j] < pre.values.spec_len()
                    && !pre.values.occupied(frees[j] as int),
            forall|j1: int, j2: int| 0 <= j1 < j2 < frees.len() ==> frees[j1] < frees[j2],
        ensures
            forall|j: int| 0 <= j < frees.len() ==> #[trigger] frees[j]
                < self.values.spec_len() && !self.values.occupied(frees[j] as int),
            forall|i: int|
                0 <= i < self.values.spec_len() && !#[trigger] self.values.occupied(i)
                    ==> exists|j: int| 0 <= j < frees.len() && #[trigger] frees[j] == i,
    {
        assert forall|i: int|
            0 <= i < self.values.spec_len() && !#[trigger] self.values.occupied(i) implies exists|
            j: int,
        | 0 <= j < frees.len() && #[trigger] frees[j] == i by {
            let e = choose|e: (usize, usize)| #[trigger] ms0.contains(e) && e.0 == i;
            assert(!heap_view(self.free_list).contains(e)) by {
                vstd::multiset::lemma_multiset_empty_len(heap_view(self.free_list));
            }
            assert(frees.contains(e.0));
        }
    }

    /// Re-establishes the invariant and the handle relocation facts after
    /// the slot array has been compacted with the drained free list.
    proof fn lemma_force_compact_post(self, pre: Self, frees: Seq<usize>)
        requires
            pre.wf(),
            heap_view(self.free_list).len() == 0,
            frees.len() == heap_view(pre.free_list).len(),
            self.values.tag_of() == pre.values.tag_of(),
            self.values.cells_len() == pre.values.cells_len(),
            self.values.spec_len() + frees.len() == pre.values.spec_len(),
            self.values.wf(),
            forall|i: int| 0 <= i < self.values.spec_len() ==> #[trigger] self.values.occupied(i),
            forall|i: int|
                0 <= i < self.values.spec_len() && #[trigger] pre.values.occupied(i)
                    ==> self.values.slots_view()[i] == pre.values.slots_view()[i],
            forall|i: int, f: int|
                #![trigger pre.values.occupied(i), pre.values.occupied(f)]
                self.values.spec_len() <= i < pre.values.spec_len() && pre.values.occupied(i)
                    && 0 <= f < self.values.spec_len() && !pre.values.occupied(f) && none_upto(
                    pre.values.slots_view(),
                    f,
                ) == occ_from(pre.values.slots_view(), i + 1) ==> self.values.slots_view()[f]
                    == pre.values.slots_view()[i],
            forall|i: int|
                self.values.spec_len() <= i < pre.values.spec_len() && #[trigger] pre.values.occupied(
                    i,
                ) ==> exists|f: int|
                    0 <= f < self.values.spec_len() && !pre.values.occupied(f) && #[trigger] none_upto(
                        pre.values.slots_view(),
                        f,
                    ) == occ_from(pre.values.slots_view(), i + 1),
        ensures
            self.wf(),
            forced_compaction(pre, self),
    {
        vstd::multiset::lemma_multiset_empty_len(heap_view(self.free_list));
        let n2 = self.values.spec_len() as int;
        assert forall|i: int| 0 <= i < n2 implies self.values.slots_view()[i] is Some by {
            assert(self.values.occupied(i));
        }
        lemma_none_upto_constant(self.values.slots_view(), 0, n2);
        lemma_counts_split(self.values.slots_view(), n2);
        assert forall|p: Pos| #[trigger] pre.valid_pos(p) implies self.valid_pos(p)
            && self.value_at(self.pos_index(p)) == pre.value_at(pre.pos_index(p)) && (
        pre.pos_index(p) < self.spec_len() ==> self.pos_index(p) == pre.pos_index(p)) && (
        pre.pos_index(p) >= self.spec_len() ==> {
            &&& 0 <= self.pos_index(p) < self.spec_len()
            &&& !pre.occupied(self.pos_index(p))
            &&& pre.hole_rank(self.pos_index(p)) == pre.occ_rank_above(pre.pos_index(p))
        }) by {
            let i = pre.values.index_of(p);
            assert(pre.values.occupied(i));
            assert(pre.values.cell_of(i) == p.spec_cell());
            if i < n2 {
                assert(self.values.slots_view()[i] == pre.values.slots_view()[i]);
                assert(self.values.occupied(i) && self.values.cell_of(i) == p.spec_cell());
                assert(self.values.cell_points(p.spec_cell()) == i);
            } else {
                let f = choose|f: int|
                    0 <= f < n2 && !pre.values.occupied(f) && #[trigger] none_upto(
                        pre.values.slots_view(),
                        f,
                    ) == occ_from(pre.values.slots_view(), i + 1);
                assert(self.values.slots_view()[f] == pre.values.slots_view()[i]);
                assert(self.values.occupied(f) && self.values.cell_of(f) == p.spec_cell());
                assert(self.values.cell_points(p.spec_cell()) == f);
            }
        }
    }

    /// Hands the value a handle stands for to `f`. If `f` returns a new
    /// value it is stored back into the same slot, so the handle and its
    /// index survive; if `f` returns nothing the slot is freed as
    /// [`take`](LinearStorage::take) would free it.
    pub fn replace_with<F: FnOnce(V) -> Option<V>>(&mut self, pos: Pos, f: F) -> (kept: bool)
        requires
            old(self).wf(),
            old(self).valid_pos(pos),
            forall|v: V| #[trigger] f.requires((v,)),
        ensures
            final(self).wf(),
            kept ==> f.ensures(
                (old(self).value_at(old(self).pos_index(pos)),),
                Some(final(self).value_at(old(self).pos_index(pos))),
            ) && storage_value_updated(
                *old(self),
                *final(self),
                old(self).pos_index(pos),
                final(self).value_at(old(self).pos_index(pos)),
            ),
            !kept ==> f.ensures((old(self).value_at(old(self).pos_index(pos)),), None) && {
                &&& final(self).spec_len() == old(self).spec_len()
                &&& final(self).free_len() == old(self).free_len() + 1
                &&& !final(self).occupied(old(self).pos_index(pos))
                &&& forall|i: int|
                    0 <= i < old(self).spec_len() && i != old(self).pos_index(pos) ==> (
                    #[trigger] final(self).occupied(i) <==> old(self).occupied(i)) && (old(self).occupied(i) ==> final(self).value_at(i) == old(self).value_at(i))
                &&& forall|p2: Pos|
                    #[trigger] old(self).valid_pos(p2) && p2 != pos ==> final(self).valid_pos(p2)
                        && final(self).pos_index(p2) == old(self).pos_index(p2) && final(self).value_at(final(self).pos_index(p2)) == old(self).value_at(
                        old(self).pos_index(p2),
                    )
            },
    {
        let ghost pre = *self;
        let idx = self.values.index_of_pos(&pos);
        let cell = pos.cell_index();
        let (v, fp) = self.values.take(pos);
        match f(v) {
            Some(v2) => {
                let _p = self.values.store(fp, v2);
                proof {
                    assert(self.values.slots_view() =~= pre.values.slots_view().update(
                        idx as int,
                        Some((pos.spec_cell(), v2)),
                    ));
                    lemma_value_updated_facts(
                        pre,
                        *self,
                        idx as int,
                        self.values.value_at(idx as int),
                    );
                }
                true
            },
            None => {
                heap_push(&mut self.free_list, (idx, cell));
                proof {
                    self.lemma_take_wf(pre, pos, idx, cell);
                }
                false
            },
        }
    }

    /// Mutable access through two distinct handles at once. The two
    /// references are independent and usable simultaneously; only the two
    /// values behind them change.
    pub fn get_pair_via_pos_mut(&mut self, p1: &Pos, p2: &Pos) -> (r: (&mut V, &mut V))
        requires
            old(self).wf(),
            old(self).valid_pos(*p1),
            old(self).valid_pos(*p2),
            *p1 != *p2,
        ensures
            *r.0 == old(self).value_at(old(self).pos_index(*p1)),
            *r.1 == old(self).value_at(old(self).pos_index(*p2)),
            storage_pair_updated(
                *old(self),
                *final(self),
                old(self).pos_index(*p1),
                *final(r.0),
                old(self).pos_index(*p2),
                *final(r.1),
            ),
    {
        proof {
            lemma_pos_index_injective(*old(self), *p1, *p2);
        }
        let i1 = self.values.index_of_pos(p1);
        let i2 = self.values.index_of_pos(p2);
        self.values.get_pair_mut(i1, i2)
    }

    /// Takes the value a handle stands for out of the storage. The slot
    /// becomes free and its index joins the free list; the handle is
    /// invalid from here on.
    pub fn take(&mut self, pos: Pos) -> (r: V)
        requires
            old(self).wf(),
            old(self).valid_pos(pos),
        ensures
            final(self).wf(),
            r == old(self).value_at(old(self).pos_index(pos)),
            final(self).spec_len() == old(self).spec_len(),
            final(self).free_len() == old(self).free_len() + 1,
            !final(self).occupied(old(self).pos_index(pos)),
            forall|i: int|
                0 <= i < old(self).spec_len() && i != old(self).pos_index(pos) ==> (
                #[trigger] final(self).occupied(i) <==> old(self).occupied(i)) && (old(self).occupied(i) ==> final(self).value_at(i) == old(self).value_at(i)),
            forall|p2: Pos|
                #[trigger] old(self).valid_pos(p2) && p2 != pos ==> final(self).valid_pos(p2)
                    && final(self).pos_index(p2) == old(self).pos_index(p2) && final(self).value_at(final(self).pos_index(p2)) == old(self).value_at(
                    old(self).pos_index(p2),
                ),
    {
        let ghost pre = *self;
        let idx = self.values.index_of_pos(&pos);
        let cell = pos.cell_index();
        let (v, _fp) = self.values.take(pos);
        heap_push(&mut self.free_list, (idx, cell));
        proof {
            self.lemma_take_wf(pre, pos, idx, cell);
        }
        v
    }

    /// Re-establishes the invariant after a removal.
    proof fn lemma_take_wf(self, pre: Self, pos: Pos, idx: usize, cell: usize)
        requires
            pre.wf(),
            pre.valid_pos(pos),
            idx as int == pre.values.index_of(pos),
            cell as int == pos.spec_cell(),
            heap_view(self.free_list) == heap_view(pre.free_list).insert((idx, cell)),
            self.values.slots_view() == pre.values.slots_view().update(idx as int, None),
            self.values.cells_view() == pre.values.cells_view(),
            self.values.tag_of() == pre.values.tag_of(),
            self.values.wf(),
        ensures
            self.wf(),
            self.free_len() == pre.free_len() + 1,
            forall|p2: Pos|
                #[trigger] pre.valid_pos(p2) && p2 != pos ==> self.valid_pos(p2)
                    && self.pos_index(p2) == pre.pos_index(p2),
    {
        let msp = heap_view(pre.free_list);
        let ms = heap_view(self.free_list);
        let en = (idx, cell);
        assert(!msp.contains(en)) by {
            if msp.contains(en) {
                assert(!pre.values.occupied(en.0 as int));
            }
        }
        assert forall|e2: (usize, usize)| #[trigger] ms.contains(e2) implies {
            &&& ms.count(e2) == 1
            &&& (e2.0 as int) < self.values.spec_len()
            &&& !self.values.occupied(e2.0 as int)
            &&& (e2.1 as int) < self.values.cells_len()
            &&& self.values.cell_points(e2.1 as int) == e2.0 as int
        } by {
            if e2 == en {
                assert(pre.values.cell_points(cell as int) == idx as int);
            } else {
                assert(msp.contains(e2));
                assert(e2.0 != idx) by {
                    if e2.0 == idx {
                        assert(!pre.values.occupied(e2.0 as int));
                    }
                }
            }
        }
        assert forall|e1: (usize, usize), e2: (usize, usize)|
            #[trigger] ms.contains(e1) && #[trigger] ms.contains(e2) && e1 != e2 implies e1.0
            != e2.0 && e1.1 != e2.1 by {
            assert(e1 == en || msp.contains(e1));
            assert(e2 == en || msp.contains(e2));
            if e1 == en && msp.contains(e2) {
                assert(e2.0 != idx) by {
                    if e2.0 == idx {
                        assert(!pre.values.occupied(idx as int));
                    }
                }
                assert(e2.1 != cell) by {
                    if e2.1 == cell {
                        assert(pre.values.cell_points(cell as int) == e2.0 as int);
                        assert(pre.values.cell_points(cell as int) == idx as int);
                    }
                }
            }
            if e2 == en && msp.contains(e1) {
                assert(e1.0 != idx) by {
                    if e1.0 == idx {
                        assert(!pre.values.occupied(idx as int));
                    }
                }
                assert(e1.1 != cell) by {
                    if e1.1 == cell {
                        assert(pre.values.cell_points(cell as int) == e1.0 as int);
                        assert(pre.values.cell_points(cell as int) == idx as int);
                    }
                }
            }
        }
        assert forall|i: int|
            0 <= i < self.values.spec_len() && !#[trigger] self.values.occupied(i) implies exists|
            e2: (usize, usize),
        | #[trigger] ms.contains(e2) && e2.0 == i by {
            if i == idx as int {
                assert(ms.contains(en) && en.0 == i);
            } else {
                assert(!pre.values.occupied(i));
                let e2 = choose|e2: (usize, usize)| #[trigger] msp.contains(e2) && e2.0 == i;
                assert(ms.contains(e2));
            }
        }
        lemma_counts_update(
            pre.values.slots_view(),
            idx as int,
            None,
            pre.values.spec_len() as int,
        );
        assert forall|p2: Pos| #[trigger] pre.valid_pos(p2) && p2 != pos implies self.valid_pos(
            p2,
        ) && self.pos_index(p2) == pre.pos_index(p2) by {
            assert(p2.spec_cell() != pos.spec_cell()) by {
                if p2.spec_cell() == pos.spec_cell() {
                    lemma_pos_fields(p2, pos);
                }
            }
            assert(pre.values.index_of(p2) != idx as int) by {
                if pre.values.index_of(p2) == idx as int {
                    assert(pre.values.cell_of(idx as int) == p2.spec_cell());
                    assert(pre.values.cell_of(idx as int) == pos.spec_cell());
                }
            }
        }
    }
}

/// An occupied slot always lies within the index range.
pub broadcast proof fn lemma_occupied_range<V>(s: LinearStorage<V>, i: int)
    ensures
        #[trigger] s.occupied(i) ==> 0 <= i < s.spec_len(),
{
}

/// Recursive characterization of [`LinearStorage::hole_rank`]: counting
/// empty slots from the left.
pub proof fn lemma_hole_rank_unfold<V>(s: LinearStorage<V>, i: int)
    ensures
        i <= 0 || i > s.spec_len() ==> s.hole_rank(i) == 0,
        0 < i <= s.spec_len() ==> s.hole_rank(i) == s.hole_rank(i - 1) + if s.occupied(i - 1) {
            0int
        } else {
            1int
        },
{
}

/// Recursive characterization of [`LinearStorage::occ_rank_above`]:
/// counting occupied slots from the right.
pub proof fn lemma_occ_above_unfold<V>(s: LinearStorage<V>, i: int)
    ensures
        i == s.spec_len() - 1 ==> s.occ_rank_above(i) == 0,
        -1 <= i < s.spec_len() - 1 ==> s.occ_rank_above(i) == s.occ_rank_above(i + 1)
            + if s.occupied(i + 1) {
            1int
        } else {
            0int
        },
{
    let sv = s.values.slots_view();
    if -1 <= i < s.spec_len() - 1 {
        assert(occ_upto(sv, i + 2) == occ_upto(sv, i + 1) + if sv[i + 1] is Some {
            1int
        } else {
            0int
        });
    }
}

/// Two distinct valid handles always stand for distinct slots.
pub proof fn lemma_pos_index_injective<V>(s: LinearStorage<V>, p1: Pos, p2: Pos)
    requires
        s.valid_pos(p1),
        s.valid_pos(p2),
        p1 != p2,
    ensures
        s.pos_index(p1) != s.pos_index(p2),
{
    if p1.spec_cell() == p2.spec_cell() {
        lemma_pos_fields(p1, p2);
    }
    if s.pos_index(p1) == s.pos_index(p2) {
        assert(s.values.cell_of(s.values.index_of(p1)) == p1.spec_cell());
        assert(s.values.cell_of(s.values.index_of(p2)) == p2.spec_cell());
    }
}

/// A valid handle stands for an occupied slot within the index range.
pub proof fn lemma_valid_pos_range<V>(s: LinearStorage<V>, p: Pos)
    requires
        s.valid_pos(p),
    ensures
        0 <= s.pos_index(p) < s.spec_len(),
        s.occupied(s.pos_index(p)),
{
}

/// When the free list is empty, every slot is occupied.
pub proof fn lemma_no_free_all_occupied<V>(s: LinearStorage<V>, i: int)
    requires
        s.wf(),
        s.free_len() == 0,
        0 <= i < s.spec_len(),
    ensures
        s.occupied(i),
{
    lemma_all_occupied(s.values.slots_view(), s.values.spec_len() as int, i);
}

/// The number of occupied slots and the free count partition the index
/// range: there are exactly `spec_len() - free_len()` occupied slots.
pub proof fn lemma_occupied_card<V>(s: LinearStorage<V>)
    requires
        s.wf(),
    ensures
        occ_set(s).finite(),
        occ_set(s).len() + s.free_len() == s.spec_len(),
{
    lemma_occ_set_card(s.values.slots_view(), s.values.spec_len() as int);
    assert(occ_set(s) =~= crate::pos_vec::occ_set_upto(
        s.values.slots_view(),
        s.values.spec_len() as int,
    ));
}

/// The set of occupied slot indices.
pub open spec fn occ_set<V>(s: LinearStorage<V>) -> Set<int> {
    Set::new(|i: int| s.occupied(i))
}

/// The threshold of the conditional compaction: it does nothing while the
/// free count is at or below `max(index length / 2, 8)`.
pub open spec fn compact_threshold(len: nat) -> nat {
    if len / 2 > 8 {
        len / 2
    } else {
        8
    }
}

/// The effect of an unconditional compaction. The free list empties, the
/// index length shrinks to the number of stored values, slots below the new
/// length stay put, and every handle stays valid: one standing for a slot
/// below the new length keeps its index, and one standing for a relocated
/// slot moves to the empty slot whose rank among the empty slots equals the
/// number of occupied slots that were above it.
pub open spec fn forced_compaction<V>(pre: LinearStorage<V>, post: LinearStorage<V>) -> bool {
    &&& post.free_len() == 0
    &&& post.spec_len() + pre.free_len() == pre.spec_len()
    &&& forall|i: int| 0 <= i < post.spec_len() ==> #[trigger] post.occupied(i)
    &&& forall|i: int|
        0 <= i < post.spec_len() && #[trigger] pre.occupied(i) ==> post.occupied(i)
            && post.value_at(i) == pre.value_at(i)
    &&& forall|p: Pos| #[trigger] pre.valid_pos(p) ==> post.valid_pos(p) && post.value_at(
        post.pos_index(p),
    ) == pre.value_at(pre.pos_index(p)) && (pre.pos_index(p) < post.spec_len()
        ==> post.pos_index(p) == pre.pos_index(p)) && (pre.pos_index(p) >= post.spec_len()
        ==> {
        &&& 0 <= post.pos_index(p) < post.spec_len()
        &&& !pre.occupied(post.pos_index(p))
        &&& pre.hole_rank(post.pos_index(p)) == pre.occ_rank_above(pre.pos_index(p))
    })
}

/// Only the values in the two distinct occupied slots `i1` and `i2`
/// changed, to `v1` and `v2`; the slot and cell structure and the free
/// list are exactly as they were.
pub closed spec fn storage_pair_updated<V>(
    pre: LinearStorage<V>,
    post: LinearStorage<V>,
    i1: int,
    v1: V,
    i2: int,
    v2: V,
) -> bool {
    &&& post.values.cells_view() == pre.values.cells_view()
    &&& post.values.tag_of() == pre.values.tag_of()
    &&& post.free_list == pre.free_list
    &&& post.values.spec_len() == pre.values.spec_len()
    &&& forall|j: int|
        0 <= j < pre.values.spec_len() && j != i1 && j != i2
            ==> #[trigger] post.values.slots_view()[j] == pre.values.slots_view()[j]
    &&& post.values.slots_view()[i1] == Some((pre.values.cell_of(i1), v1))
    &&& post.values.slots_view()[i2] == Some((pre.values.cell_of(i2), v2))
}

/// What a two-slot value update means for the storage abstraction: the
/// shape is untouched, every handle keeps its index, and only the two
/// values changed.
pub proof fn lemma_pair_updated_facts<V>(
    pre: LinearStorage<V>,
    post: LinearStorage<V>,
    i1: int,
    v1: V,
    i2: int,
    v2: V,
)
    requires
        pre.wf(),
        pre.occupied(i1),
        pre.occupied(i2),
        i1 != i2,
        storage_pair_updated(pre, post, i1, v1, i2, v2),
    ensures
        post.wf(),
        post.spec_len() == pre.spec_len(),
        post.free_len() == pre.free_len(),
        forall|j: int| #[trigger] post.occupied(j) <==> pre.occupied(j),
        forall|j: int|
            pre.occupied(j) && j != i1 && j != i2 ==> #[trigger] post.value_at(j)
                == pre.value_at(j),
        post.value_at(i1) == v1,
        post.value_at(i2) == v2,
        forall|p: Pos| #[trigger] pre.valid_pos(p) <==> post.valid_pos(p),
        forall|p: Pos| pre.valid_pos(p) ==> #[trigger] post.pos_index(p) == pre.pos_index(p),
{
    assert forall|j: int| #[trigger] post.values.occupied(j) implies 0 <= post.values.cell_of(j)
        < post.values.cells_len() && post.values.cell_points(post.values.cell_of(j)) == j by {
        assert(pre.values.occupied(j));
    }
    assert forall|e: (usize, usize)| #[trigger] heap_view(post.free_list).contains(e) implies {
        &&& heap_view(post.free_list).count(e) == 1
        &&& (e.0 as int) < post.values.spec_len()
        &&& !post.values.occupied(e.0 as int)
        &&& (e.1 as int) < post.values.cells_len()
        &&& post.values.cell_points(e.1 as int) == e.0 as int
    } by {
        assert(heap_view(pre.free_list).contains(e));
        assert(!pre.values.occupied(e.0 as int));
    }
    assert forall|j: int|
        0 <= j < post.values.spec_len() && !#[trigger] post.values.occupied(j) implies exists|
        e: (usize, usize),
    | #[trigger] heap_view(post.free_list).contains(e) && e.0 == j by {
        assert(!pre.values.occupied(j));
    }
    lemma_counts_agree_update(
        pre.values.slots_view(),
        post.values.slots_view(),
        pre.values.spec_len() as int,
    );
}

/// The storage's observable state is untouched: only capacity may differ.
pub closed spec fn same_storage_state<V>(pre: LinearStorage<V>, post: LinearStorage<V>) -> bool {
    &&& post.values.slots_view() == pre.values.slots_view()
    &&& post.values.cells_view() == pre.values.cells_view()
    &&& post.values.tag_of() == pre.values.tag_of()
    &&& post.free_list == pre.free_list
}

/// What sameness of state means for the storage abstraction.
pub proof fn lemma_same_state_facts<V>(pre: LinearStorage<V>, post: LinearStorage<V>)
    requires
        same_storage_state(pre, post),
    ensures
        post.spec_len() == pre.spec_len(),
        post.free_len() == pre.free_len(),
        forall|j: int| #[trigger] post.occupied(j) <==> pre.occupied(j),
        forall|j: int| pre.occupied(j) ==> #[trigger] post.value_at(j) == pre.value_at(j),
        forall|p: Pos| #[trigger] pre.valid_pos(p) <==> post.valid_pos(p),
        forall|p: Pos| pre.valid_pos(p) ==> #[trigger] post.pos_index(p) == pre.pos_index(p),
        pre.wf() ==> post.wf(),
{
    assert forall|j: int| #[trigger] post.occupied(j) <==> pre.occupied(j) by {}
    if pre.wf() {
        assert forall|i: int| #[trigger] post.values.occupied(i) implies 0 <= post.values.cell_of(
            i,
        ) < post.values.cells_len() && post.values.cell_points(post.values.cell_of(i)) == i by {
            assert(pre.values.occupied(i));
        }
        assert forall|i: int|
            0 <= i < post.values.spec_len() && !#[trigger] post.values.occupied(i) implies exists|
            e: (usize, usize),
        | #[trigger] heap_view(post.free_list).contains(e) && e.0 == i by {
            assert(!pre.values.occupied(i));
        }
    }
}

/// Only the value in occupied slot `i` changed, to `v`; the slot and cell
/// structure and the free list are exactly as they were.
pub closed spec fn storage_value_updated<V>(
    pre: LinearStorage<V>,
    post: LinearStorage<V>,
    i: int,
    v: V,
) -> bool {
    &&& post.values.cells_view() == pre.values.cells_view()
    &&& post.values.tag_of() == pre.values.tag_of()
    &&& post.free_list == pre.free_list
    &&& pre.values.occupied(i) ==> post.values.slots_view() == pre.values.slots_view().update(
        i,
        Some((pre.values.cell_of(i), v)),
    )
    &&& !pre.values.occupied(i) ==> post == pre
}

/// What an in-place value update means for the storage abstraction: the
/// shape is untouched, every handle keeps its index, and only slot `i`'s
/// value changed.
pub proof fn lemma_value_updated_facts<V>(
    pre: LinearStorage<V>,
    post: LinearStorage<V>,
    i: int,
    v: V,
)
    requires
        pre.wf(),
        storage_value_updated(pre, post, i, v),
    ensures
        post.wf(),
        post.spec_len() == pre.spec_len(),
        post.free_len() == pre.free_len(),
        forall|j: int| #[trigger] post.occupied(j) <==> pre.occupied(j),
        forall|j: int|
            pre.occupied(j) && j != i ==> #[trigger] post.value_at(j) == pre.value_at(j),
        pre.occupied(i) ==> post.value_at(i) == v,
        forall|p: Pos| #[trigger] pre.valid_pos(p) <==> post.valid_pos(p),
        forall|p: Pos| pre.valid_pos(p) ==> #[trigger] post.pos_index(p) == pre.pos_index(p),
        forall|j: int| 0 <= j <= pre.spec_len() ==> #[trigger] post.hole_rank(j) == pre.hole_rank(
            j,
        ),
        forall|j: int| #[trigger] post.occ_rank_above(j) == pre.occ_rank_above(j),
{
    if pre.values.occupied(i) {
        crate::pos_vec::lemma_wf_value_update(pre.values, post.values, i, v);
        assert forall|j: int| 0 <= j <= pre.spec_len() implies #[trigger] post.hole_rank(j)
            == pre.hole_rank(j) by {
            lemma_counts_agree_update(pre.values.slots_view(), post.values.slots_view(), j);
        }
        assert forall|j: int| #[trigger] post.occ_rank_above(j) == pre.occ_rank_above(j) by {
            lemma_occ_from_agree(pre.values.slots_view(), post.values.slots_view(), j + 1);
        }
        assert forall|e: (usize, usize)| #[trigger] heap_view(post.free_list).contains(
            e,
        ) implies {
            &&& heap_view(post.free_list).count(e) == 1
            &&& (e.0 as int) < post.values.spec_len()
            &&& !post.values.occupied(e.0 as int)
            &&& (e.1 as int) < post.values.cells_len()
            &&& post.values.cell_points(e.1 as int) == e.0 as int
        } by {
            assert(heap_view(pre.free_list).contains(e));
            assert(!pre.values.occupied(e.0 as int));
        }
        assert forall|j: int|
            0 <= j < post.values.spec_len() && !#[trigger] post.values.occupied(j) implies exists|
            e: (usize, usize),
        | #[trigger] heap_view(post.free_list).contains(e) && e.0 == j by {
            assert(!pre.values.occupied(j));
        }
        lemma_counts_update(
            pre.values.slots_view(),
            i,
            Some((pre.values.cell_of(i), v)),
            pre.values.spec_len() as int,
        );
    }
}

/// Occupancy-preserving pointwise agreement keeps the empty-slot counter.
proof fn lemma_counts_agree_update<V>(s: Seq<Option<(int, V)>>, t: Seq<Option<(int, V)>>, n: int)
    requires
        s.len() == t.len(),
        forall|j: int| 0 <= j < s.len() ==> (#[trigger] s[j] is Some <==> t[j] is Some),
        0 <= n <= s.len(),
    ensures
        none_upto(t, n) == none_upto(s, n),
        occ_upto(t, n) == occ_upto(s, n),
    decreases n,
{
    if n > 0 {
        lemma_counts_agree_update(s, t, n - 1);
    }
}

/// The same, for the occupied-above counter.
proof fn lemma_occ_from_agree<V>(s: Seq<Option<(int, V)>>, t: Seq<Option<(int, V)>>, n: int)
    requires
        s.len() == t.len(),
        forall|j: int| 0 <= j < s.len() ==> (#[trigger] s[j] is Some <==> t[j] is Some),
    ensures
        occ_from(t, n) == occ_from(s, n),
{
    lemma_counts_agree_update(s, t, s.len() as int);
    if 0 <= n <= s.len() {
        lemma_counts_agree_update(s, t, n);
    }
}

} // verus!
