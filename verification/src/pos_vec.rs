//! The sparse, generation-tagged slot array.

use vstd::prelude::*;
use crate::tag::Tag;

verus! {

/// A handle for a position in a slot array.
///
/// A handle does not store the slot index itself. It names a *cell* of the
/// issuing array's indirection table; the cell holds the current index, and
/// the array rewrites the cell in place when the slot's value is relocated
/// during compaction. Every holder of the handle therefore observes the new
/// index without any propagation step.
///
/// A handle is *free* while its cell points at an empty slot and *in use*
/// while its cell points at an occupied slot that links back to the same
/// cell. Which of the two states applies is tracked by the contracts of
/// [`PosVec`], not by the handle itself.
#[derive(Clone, Copy, Debug, PartialEq, Eq, Structural)]
pub struct Pos {
    pub(crate) tag: Tag,
    pub(crate) cell: usize,
}

impl Pos {
    /// The tag of the array epoch that issued this handle.
    pub closed spec fn spec_tag(self) -> Tag {
        self.tag
    }

    /// The indirection-table cell this handle names.
    pub closed spec fn spec_cell(self) -> int {
        self.cell as int
    }

    /// Returns the cell this handle names.
    pub fn cell_index(&self) -> (r: usize)
        ensures
            r as int == self.spec_cell(),
    {
        self.cell
    }
}

/// A handle is nothing but its tag and its cell: two handles agreeing on
/// both are the same handle.
pub proof fn lemma_pos_fields(p1: Pos, p2: Pos)
    requires
        p1.spec_tag() == p2.spec_tag(),
        p1.spec_cell() == p2.spec_cell(),
    ensures
        p1 == p2,
{
}

/// An occupied slot: the stored value together with the indirection-table
/// cell that currently maps to this slot. The cell travels with the value
/// when the slot's contents are relocated during compaction.
pub(crate) struct PositionedValue<V> {
    pub(crate) cell: usize,
    pub(crate) value: V,
}

/// A sparse vector addressed through relocatable position handles.
///
/// Slots are either empty or occupied. A [`Pos`] handle names a cell of the
/// indirection table (`cells`); the cell holds the slot index the handle
/// currently stands for. Compaction moves occupied slots down into empty
/// ones and rewrites the moved slot's cell, so every outstanding handle
/// observes the new index without being touched itself.
///
/// The well-formedness invariant [`PosVec::wf`] ties each occupied slot to
/// its cell: the cell recorded in slot `i` points back at `i`.
pub struct PosVec<V> {
    pub(crate) tag: Tag,
    pub(crate) slots: Vec<Option<PositionedValue<V>>>,
    pub(crate) cells: Vec<usize>,
}

impl<V> PosVec<V> {
    /// The slots, abstracted as a sequence of `None` (empty) or
    /// `Some((cell, value))` (occupied) entries.
    pub closed spec fn slots_view(self) -> Seq<Option<(int, V)>> {
        self.slots@.map_values(
            |o: Option<PositionedValue<V>>|
                match o {
                    Some(pv) => Some((pv.cell as int, pv.value)),
                    None => None,
                },
        )
    }

    /// The indirection table, abstracted as a sequence of slot indices.
    pub closed spec fn cells_view(self) -> Seq<int> {
        self.cells@.map_values(|c: usize| c as int)
    }

    /// The current generation tag.
    pub closed spec fn tag_of(self) -> Tag {
        self.tag
    }

    /// Number of slots, empty ones included.
    pub open spec fn spec_len(self) -> nat {
        self.slots_view().len()
    }

    /// Number of cells ever issued in this generation.
    pub open spec fn cells_len(self) -> nat {
        self.cells_view().len()
    }

    /// Whether slot `i` exists and holds a value.
    pub open spec fn occupied(self, i: int) -> bool {
        0 <= i < self.spec_len() && self.slots_view()[i] is Some
    }

    /// The value stored in occupied slot `i`.
    pub open spec fn value_at(self, i: int) -> V
        recommends
            self.occupied(i),
    {
        (self.slots_view()[i]->Some_0).1
    }

    /// The cell recorded in occupied slot `i`.
    pub open spec fn cell_of(self, i: int) -> int
        recommends
            self.occupied(i),
    {
        (self.slots_view()[i]->Some_0).0
    }

    /// The slot index cell `c` currently holds.
    pub open spec fn cell_points(self, c: int) -> int
        recommends
            0 <= c < self.cells_len(),
    {
        self.cells_view()[c]
    }

    /// The slot index a handle currently stands for.
    pub open spec fn index_of(self, p: Pos) -> int
        recommends
            0 <= p.spec_cell() < self.cells_len(),
    {
        self.cell_points(p.spec_cell())
    }

    /// A handle of this generation whose cell points at an empty slot.
    pub open spec fn valid_free(self, p: Pos) -> bool {
        &&& p.spec_tag() == self.tag_of()
        &&& 0 <= p.spec_cell() < self.cells_len()
        &&& 0 <= self.index_of(p) < self.spec_len()
        &&& !self.occupied(self.index_of(p))
    }

    /// A handle of this generation whose cell points at an occupied slot
    /// that links back to the same cell.
    pub open spec fn valid_in_use(self, p: Pos) -> bool {
        &&& p.spec_tag() == self.tag_of()
        &&& 0 <= p.spec_cell() < self.cells_len()
        &&& self.occupied(self.index_of(p))
        &&& self.cell_of(self.index_of(p)) == p.spec_cell()
    }

    /// Every occupied slot is linked to a cell that points back at it.
    ///
    /// Two occupied slots can therefore never share a cell, and the index a
    /// valid in-use handle reads is exactly the slot its value sits in.
    pub open spec fn wf(self) -> bool {
        forall|i: int|
            #[trigger] self.occupied(i) ==> 0 <= self.cell_of(i) < self.cells_len()
                && self.cell_points(self.cell_of(i)) == i
    }

    /// Creates an empty slot array with the requested capacity.
    pub fn with_capacity(capacity: usize) -> (r: Self)
        ensures
            r.spec_len() == 0,
            r.cells_len() == 0,
            r.wf(),
    {
        PosVec { tag: Tag::first(), slots: Vec::with_capacity(capacity), cells: Vec::new() }
    }

    /// Returns the number of slots, empty ones included.
    pub fn len(&self) -> (r: usize)
        ensures
            r == self.spec_len(),
    {
        self.slots.len()
    }

    /// Returns the number of slots the array can hold without reallocating.
    pub fn capacity(&self) -> (r: usize)
        ensures
            r >= self.spec_len(),
    {
        vec_capacity(&self.slots)
    }

    /// Reserves room for `additional` further slots.
    pub fn reserve(&mut self, additional: usize)
        ensures
            final(self).slots_view() == old(self).slots_view(),
            final(self).cells_view() == old(self).cells_view(),
            final(self).tag_of() == old(self).tag_of(),
    {
        self.slots.reserve(additional);
    }

    /// Drops spare capacity beyond the current number of slots.
    pub fn shrink_to_fit(&mut self)
        ensures
            final(self).slots_view() == old(self).slots_view(),
            final(self).cells_view() == old(self).cells_view(),
            final(self).tag_of() == old(self).tag_of(),
    {
        vec_shrink_to_fit(&mut self.slots);
        vec_shrink_to_fit(&mut self.cells);
    }

    /// Appends an empty slot and returns a free handle for it.
    pub fn create_pos(&mut self) -> (r: Pos)
        ensures
            final(self).slots_view() == old(self).slots_view().push(None),
            final(self).cells_view() == old(self).cells_view().push(old(self).spec_len() as int),
            final(self).tag_of() == old(self).tag_of(),
            r.spec_tag() == old(self).tag_of(),
            r.spec_cell() == old(self).cells_len(),
            final(self).valid_free(r),
            final(self).index_of(r) == old(self).spec_len(),
            old(self).wf() ==> final(self).wf(),
    {
        let idx = self.slots.len();
        let cell = self.cells.len();
        self.cells.push(idx);
        self.slots.push(None);
        proof {
            assert(self.slots_view() =~= old(self).slots_view().push(None));
            assert(self.cells_view() =~= old(self).cells_view().push(idx as int));
            assert forall|i: int| #[trigger] self.occupied(i) implies old(self).occupied(i)
                && self.cell_of(i) == old(self).cell_of(i) by {}
        }
        Pos { tag: self.tag, cell }
    }

    /// Writes a value into the empty slot a free handle stands for. The
    /// handle becomes an in-use handle for the same slot.
    pub fn store(&mut self, pos: Pos, value: V) -> (r: Pos)
        requires
            old(self).wf(),
            old(self).valid_free(pos),
        ensures
            r == pos,
            final(self).slots_view() == old(self).slots_view().update(
                old(self).index_of(pos),
                Some((pos.spec_cell(), value)),
            ),
            final(self).cells_view() == old(self).cells_view(),
            final(self).tag_of() == old(self).tag_of(),
            final(self).wf(),
            final(self).valid_in_use(pos),
            final(self).index_of(pos) == old(self).index_of(pos),
    {
        let idx = self.cells[pos.cell];
        let ghost pre = *self;
        self.slots[idx] = Some(PositionedValue { cell: pos.cell, value });
        proof {
            assert(self.slots_view() =~= pre.slots_view().update(
                idx as int,
                Some((pos.spec_cell(), value)),
            ));
            assert forall|i: int| #[trigger] self.occupied(i) implies 0 <= self.cell_of(i)
                < self.cells_len() && self.cell_points(self.cell_of(i)) == i by {
                if i != idx as int {
                    assert(pre.occupied(i));
                }
            }
        }
        pos
    }

    /// Takes the value out of the occupied slot an in-use handle stands
    /// for. The handle becomes a free handle for the now-empty slot.
    pub fn take(&mut self, pos: Pos) -> (r: (V, Pos))
        requires
            old(self).wf(),
            old(self).valid_in_use(pos),
        ensures
            r.1 == pos,
            r.0 == old(self).value_at(old(self).index_of(pos)),
            final(self).slots_view() == old(self).slots_view().update(
                old(self).index_of(pos),
                None,
            ),
            final(self).cells_view() == old(self).cells_view(),
            final(self).tag_of() == old(self).tag_of(),
            final(self).wf(),
            final(self).valid_free(pos),
            final(self).index_of(pos) == old(self).index_of(pos),
    {
        let idx = self.cells[pos.cell];
        let ghost pre = *self;
        let taken = self.slots[idx].take();
        proof {
            assert(self.slots_view() =~= pre.slots_view().update(idx as int, None));
            assert forall|i: int| #[trigger] self.occupied(i) implies 0 <= self.cell_of(i)
                < self.cells_len() && self.cell_points(self.cell_of(i)) == i by {
                assert(pre.occupied(i));
            }
        }
        match taken {
            Some(pv) => (pv.value, pos),
            None => vstd::pervasive::unreached(),
        }
    }

    /// Invalidates every outstanding handle: a new generation begins, the
    /// slots and the indirection table are emptied.
    pub fn clear(&mut self)
        ensures
            final(self).spec_len() == 0,
            final(self).cells_len() == 0,
            final(self).tag_of() != old(self).tag_of(),
            final(self).wf(),
    {
        self.tag = self.tag.next();
        self.slots.clear();
        self.cells.clear();
    }

    /// Checked access by raw slot index, independent of any handle.
    pub fn get(&self, pos: usize) -> (r: Option<&V>)
        ensures
            match r {
                Some(v) => self.occupied(pos as int) && *v == self.value_at(pos as int),
                None => !self.occupied(pos as int),
            },
    {
        if pos < self.slots.len() {
            match &self.slots[pos] {
                Some(pv) => Some(&pv.value),
                None => None,
            }
        } else {
            None
        }
    }

    /// Checked mutable access by raw slot index.
    pub fn get_mut(&mut self, pos: usize) -> (r: Option<&mut V>)
        ensures
            r is Some <==> old(self).occupied(pos as int),
            r is None ==> *final(self) == *old(self),
            r is Some ==> *r.unwrap() == old(self).value_at(pos as int)
                && final(self).slots_view() == old(self).slots_view().update(
                    pos as int,
                    Some((old(self).cell_of(pos as int), *final(r.unwrap()))),
                )
                && final(self).cells_view() == old(self).cells_view()
                && final(self).tag_of() == old(self).tag_of(),
    {
        if pos < self.slots.len() && self.slots[pos].is_some() {
            let slot = &mut self.slots[pos];
            match slot {
                Some(pv) => Some(&mut pv.value),
                None => vstd::pervasive::unreached(),
            }
        } else {
            None
        }
    }

    /// Access through an in-use handle, following its cell to the slot.
    pub fn get_via_pos(&self, pos: &Pos) -> (r: &V)
        requires
            self.valid_in_use(*pos),
        ensures
            *r == self.value_at(self.index_of(*pos)),
    {
        let idx = self.cells[pos.cell];
        match &self.slots[idx] {
            Some(pv) => &pv.value,
            None => vstd::pervasive::unreached(),
        }
    }

    /// Mutable access through an in-use handle.
    pub fn get_via_pos_mut(&mut self, pos: &Pos) -> (r: &mut V)
        requires
            old(self).valid_in_use(*pos),
        ensures
            *r == old(self).value_at(old(self).index_of(*pos)),
            final(self).slots_view() == old(self).slots_view().update(
                old(self).index_of(*pos),
                Some((pos.spec_cell(), *final(r))),
            ),
            final(self).cells_view() == old(self).cells_view(),
            final(self).tag_of() == old(self).tag_of(),
    {
        let idx = self.cells[pos.cell];
        let slot = &mut self.slots[idx];
        match slot {
            Some(pv) => &mut pv.value,
            None => vstd::pervasive::unreached(),
        }
    }

    /// Closes the index gaps listed in `frees` by moving occupied slots
    /// down from the tail, then drops the emptied tail.
    ///
    /// `frees` must list the indices of *all* empty slots in ascending
    /// order. Empty slots below the final length are filled in ascending
    /// order with the occupied slots popped off the tail in descending
    /// order; each moved slot's cell is rewritten to its new index, so
    /// handles of moved values keep working. Slots that already sit below
    /// the final length stay exactly where they are.
    #[verifier::loop_isolation(false)]
    #[verifier::rlimit(100)]
    pub fn compact(&mut self, frees: &Vec<usize>)
        requires
            old(self).wf(),
            forall|j: int| 0 <= j < frees@.len() ==> #[trigger] frees@[j] < old(self).spec_len()
                && !old(self).occupied(frees@[j] as int),
            forall|j1: int, j2: int| 0 <= j1 < j2 < frees@.len() ==> frees@[j1] < frees@[j2],
            forall|i: int| 0 <= i < old(self).spec_len() && !#[trigger] old(self).occupied(i)
                ==> exists|j: int| 0 <= j < frees@.len() && #[trigger] frees@[j] == i,
        ensures
            final(self).tag_of() == old(self).tag_of(),
            final(self).cells_len() == old(self).cells_len(),
            final(self).spec_len() + frees@.len() == old(self).spec_len(),
            final(self).wf(),
            forall|i: int| 0 <= i < final(self).spec_len() ==> #[trigger] final(self).occupied(i),
            forall|i: int| 0 <= i < final(self).spec_len() && #[trigger] old(self).occupied(i)
                ==> final(self).slots_view()[i] == old(self).slots_view()[i],
            forall|i: int, f: int|
                #![trigger old(self).occupied(i), old(self).occupied(f)]
                final(self).spec_len() <= i < old(self).spec_len() && old(self).occupied(i)
                    && 0 <= f < final(self).spec_len() && !old(self).occupied(f)
                    && none_upto(old(self).slots_view(), f) == occ_from(
                    old(self).slots_view(),
                    i + 1,
                ) ==> final(self).slots_view()[f] == old(self).slots_view()[i],
            forall|i: int|
                final(self).spec_len() <= i < old(self).spec_len() && #[trigger] old(self).occupied(i) ==> exists|f: int|
                    0 <= f < final(self).spec_len() && !old(self).occupied(f) && #[trigger] none_upto(
                        old(self).slots_view(),
                        f,
                    ) == occ_from(old(self).slots_view(), i + 1),
    {
        let ghost osv = old(self).slots_view();
        proof {
            assert forall|j: int| 0 <= j < frees@.len() implies #[trigger] frees@[j] < osv.len()
                && osv[frees@[j] as int] is None by {}
            assert forall|i: int| 0 <= i < osv.len() && #[trigger] osv[i] is None implies exists|
                j: int,
            | 0 <= j < frees@.len() && #[trigger] frees@[j] == i by {
                assert(!old(self).occupied(i));
            }
            lemma_frees_enumerate_holes(osv, frees@);
            lemma_counts_split(osv, osv.len() as int);
        }
        let target = self.slots.len() - frees.len();
        let mut fi: usize = 0;
        proof {
            assert(occ_upto(osv, osv.len() as int) == target);
        }
        while self.slots.len() > target
            invariant
                fi <= frees@.len(),
                target <= self.spec_len() <= osv.len(),
                self.cells_len() == old(self).cells_len(),
                self.tag_of() == old(self).tag_of(),
                self.wf(),
                occ_from(osv, self.spec_len() as int) == fi,
                forall|i: int| 0 <= i < self.spec_len() && osv[i] is Some
                    ==> #[trigger] self.slots_view()[i] == osv[i],
                forall|i: int|
                    0 <= i < self.spec_len() && osv[i] is None && none_upto(osv, i) >= fi
                        ==> #[trigger] self.slots_view()[i] is None,
                forall|j: int| 0 <= j < fi ==> #[trigger] frees@[j] < target,
                forall|j: int, t: int|
                    #![trigger frees@[j], osv[t]]
                    0 <= j < fi && 0 <= t < osv.len() && osv[t] is Some && occ_from(osv, t + 1)
                        == j ==> self.slots_view()[frees@[j] as int] == osv[t],
            decreases self.slots.len(),
        {
            let ghost pre = *self;
            let ghost p = self.spec_len() as int - 1;
            let popped = self.slots.pop().unwrap();
            proof {
                assert(self.slots_view() =~= pre.slots_view().drop_last());
                assert(pre.slots_view()[p] == if popped is Some {
                    Some((popped->Some_0.cell as int, popped->Some_0.value))
                } else {
                    None::<(int, V)>
                });
                assert(occ_from(osv, p) == occ_from(osv, p + 1) + if osv[p] is Some {
                    1int
                } else {
                    0int
                });
            }
            match popped {
                None => {
                    proof {
                        // The popped tail slot was empty, so it was empty from
                        // the start: filled holes all lie below `target`.
                        if osv[p] is Some {
                            assert(pre.slots_view()[p] == osv[p]);
                        }
                        assert(osv[p] is None);
                        if none_upto(osv, p) < fi {
                            assert(frees@[none_upto(osv, p)] < target);
                            let j0 = choose|j0: int|
                                0 <= j0 < frees@.len() && frees@[j0] == p;
                            lemma_frees_rank(osv, frees@, j0);
                            lemma_hole_rank_injective(
                                osv,
                                frees@[none_upto(osv, p)] as int,
                                p,
                            );
                        }
                        assert forall|i: int|
                            0 <= i < self.spec_len() && osv[i] is None && none_upto(osv, i)
                                >= fi implies #[trigger] self.slots_view()[i] is None by {
                            assert(pre.slots_view()[i] is None);
                        }
                        assert forall|i: int| #[trigger] self.occupied(i) implies 0
                            <= self.cell_of(i) < self.cells_len() && self.cell_points(
                            self.cell_of(i),
                        ) == i by {
                            assert(pre.occupied(i));
                        }
                    }
                },
                Some(pv) => {
                    proof {
                        // The popped slot is occupied, hence unchanged since
                        // entry: a filled hole would lie below target.
                        if osv[p] is None {
                            if none_upto(osv, p) >= fi {
                                assert(pre.slots_view()[p] is None);
                            } else {
                                let j0 = choose|j0: int|
                                    0 <= j0 < frees@.len() && frees@[j0] == p;
                                lemma_frees_rank(osv, frees@, j0);
                                lemma_hole_rank_injective(
                                    osv,
                                    frees@[none_upto(osv, p)] as int,
                                    p,
                                );
                                assert(frees@[none_upto(osv, p)] < target);
                                assert(false);
                            }
                        }
                        assert(osv[p] is Some);
                        assert(pre.slots_view()[p] == osv[p]);
                        assert(pv.cell as int == (osv[p]->Some_0).0);
                        assert(pre.occupied(p));
                        // There are at least fi + 1 holes below target.
                        lemma_counts_monotone(osv, target as int, p);
                        lemma_counts_split(osv, target as int);
                        assert(none_upto(osv, target as int) >= fi + 1);
                        lemma_counts_monotone(osv, target as int, osv.len() as int);
                        assert(fi < frees@.len());
                        // The hole of rank fi lies below target.
                        lemma_frees_rank(osv, frees@, fi as int);
                        if frees@[fi as int] >= target {
                            lemma_counts_monotone(osv, target as int, frees@[fi as int] as int);
                        }
                        assert(frees@[fi as int] < target);
                    }
                    let f = frees[fi];
                    let c = pv.cell;
                    let ghost mid = *self;
                    self.cells[c] = f;
                    self.slots[f] = Some(pv);
                    fi = fi + 1;
                    proof {
                        assert(self.cells_view() =~= mid.cells_view().update(c as int, f as int));
                        assert(self.slots_view() =~= mid.slots_view().update(
                            f as int,
                            Some((c as int, (osv[p]->Some_0).1)),
                        ));
                        assert(self.slots_view()[f as int] == osv[p]);
                        // Well-formedness: the moved slot's cell now points at
                        // its new index; no other occupied slot used that cell.
                        assert forall|i: int| #[trigger] self.occupied(i) implies 0 <= self.cell_of(
                            i,
                        ) < self.cells_len() && self.cell_points(self.cell_of(i)) == i by {
                            if i != f as int {
                                assert(mid.occupied(i));
                                assert(pre.occupied(i));
                                if mid.cell_of(i) == c as int {
                                    assert(pre.cell_points(c as int) == p);
                                    assert(pre.cell_points(c as int) == i);
                                    assert(false);
                                }
                            }
                        }
                        assert forall|j: int, t: int|
                            #![trigger frees@[j], osv[t]]
                            0 <= j < fi && 0 <= t < osv.len() && osv[t] is Some && occ_from(
                                osv,
                                t + 1,
                            ) == j implies self.slots_view()[frees@[j] as int] == osv[t] by {
                            if j == fi - 1 {
                                assert(occ_from(osv, p + 1) == j);
                                if t != p {
                                    if t < p {
                                        lemma_counts_monotone(osv, t + 1, p);
                                        assert(occ_upto(osv, p + 1) == occ_upto(osv, p) + 1);
                                    } else {
                                        lemma_counts_monotone(osv, p + 1, t);
                                        assert(occ_upto(osv, t + 1) == occ_upto(osv, t) + 1);
                                    }
                                    assert(false);
                                }
                            } else {
                                assert(frees@[j] != frees@[fi - 1]);
                                assert(mid.slots_view()[frees@[j] as int] == osv[t]);
                            }
                        }
                        assert forall|i: int|
                            0 <= i < self.spec_len() && osv[i] is None && none_upto(osv, i)
                                >= fi implies #[trigger] self.slots_view()[i] is None by {
                            lemma_frees_rank(osv, frees@, fi - 1);
                            if i == frees@[fi - 1] as int {
                                assert(none_upto(osv, i) == fi - 1);
                            }
                            assert(pre.slots_view()[i] is None);
                        }
                    }
                },
            }
        }
        proof {
            // The loop left exactly `target` slots; all of them are occupied
            // and each listed hole below target was filled by rank.
            assert(occ_from(osv, target as int) == fi);
            lemma_counts_split(osv, target as int);
            assert(none_upto(osv, target as int) == fi);
            assert forall|i: int| 0 <= i < self.spec_len() implies #[trigger] self.occupied(i) by {
                if osv[i] is None {
                    lemma_counts_monotone(osv, i + 1, target as int);
                    assert(none_upto(osv, i + 1) == none_upto(osv, i) + 1);
                    assert(none_upto(osv, i) < fi);
                    let j0 = choose|j0: int| 0 <= j0 < frees@.len() && frees@[j0] == i;
                    lemma_frees_rank(osv, frees@, j0);
                    lemma_hole_rank_injective(osv, frees@[none_upto(osv, i)] as int, i);
                    lemma_source_exists(osv, target as int, none_upto(osv, i));
                    let t = choose|t: int|
                        target <= t < osv.len() && osv[t] is Some && occ_from(osv, t + 1)
                            == none_upto(osv, i);
                    assert(self.slots_view()[i] == osv[t]);
                }
            }
            assert forall|i: int, f: int|
                #![trigger old(self).occupied(i), old(self).occupied(f)]
                self.spec_len() <= i < old(self).spec_len() && old(self).occupied(i) && 0 <= f
                    < self.spec_len() && !old(self).occupied(f) && none_upto(osv, f) == occ_from(
                    osv,
                    i + 1,
                ) implies self.slots_view()[f] == osv[i] by {
                assert(none_upto(osv, f) < fi) by {
                    lemma_counts_monotone(osv, f + 1, target as int);
                    assert(none_upto(osv, f + 1) == none_upto(osv, f) + 1);
                }
            }
            assert forall|i: int|
                self.spec_len() <= i < old(self).spec_len() && #[trigger] old(self).occupied(
                    i,
                ) implies exists|f: int|
                    0 <= f < self.spec_len() && !old(self).occupied(f) && #[trigger] none_upto(
                        osv,
                        f,
                    ) == occ_from(osv, i + 1) by {
                let j = occ_from(osv, i + 1);
                assert(0 <= j < fi) by {
                    assert(osv[i] is Some);
                    lemma_counts_monotone(osv, target as int, i);
                    assert(occ_upto(osv, i + 1) == occ_upto(osv, i) + 1);
                    lemma_counts_monotone(osv, i + 1, osv.len() as int);
                }
                lemma_frees_rank(osv, frees@, j);
                assert(frees@[j] < target);
                assert(!old(self).occupied(frees@[j] as int));
            }
        }
    }

    /// Mutable access by raw slot index that the caller has already
    /// proved occupied.
    pub fn get_occupied_mut(&mut self, idx: usize) -> (r: &mut V)
        requires
            old(self).occupied(idx as int),
        ensures
            *r == old(self).value_at(idx as int),
            final(self).slots_view() == old(self).slots_view().update(
                idx as int,
                Some((old(self).cell_of(idx as int), *final(r))),
            ),
            final(self).cells_view() == old(self).cells_view(),
            final(self).tag_of() == old(self).tag_of(),
    {
        let slot = &mut self.slots[idx];
        match slot {
            Some(pv) => &mut pv.value,
            None => vstd::pervasive::unreached(),
        }
    }

    /// Mutable access to two distinct occupied slots at once. The two
    /// references are independent and usable simultaneously.
    pub fn get_pair_mut(&mut self, i1: usize, i2: usize) -> (r: (&mut V, &mut V))
        requires
            old(self).occupied(i1 as int),
            old(self).occupied(i2 as int),
            i1 != i2,
        ensures
            *r.0 == old(self).value_at(i1 as int),
            *r.1 == old(self).value_at(i2 as int),
            final(self).spec_len() == old(self).spec_len(),
            forall|j: int|
                0 <= j < old(self).spec_len() && j != i1 && j != i2 ==> final(self).slots_view()[j] == old(self).slots_view()[j],
            final(self).slots_view()[i1 as int] == Some(
                (old(self).cell_of(i1 as int), *final(r.0)),
            ),
            final(self).slots_view()[i2 as int] == Some(
                (old(self).cell_of(i2 as int), *final(r.1)),
            ),
            final(self).cells_view() == old(self).cells_view(),
            final(self).tag_of() == old(self).tag_of(),
    {
        if i1 < i2 {
            let pair = self.get_pair_mut_ordered(i1, i2);
            pair
        } else {
            let pair = self.get_pair_mut_ordered(i2, i1);
            (pair.1, pair.0)
        }
    }

    /// The ordered case of [`PosVec::get_pair_mut`]: the backing vector is
    /// split at the higher index, so each reference lives in its own half.
    fn get_pair_mut_ordered(&mut self, lo: usize, hi: usize) -> (r: (&mut V, &mut V))
        requires
            old(self).occupied(lo as int),
            old(self).occupied(hi as int),
            lo < hi,
        ensures
            *r.0 == old(self).value_at(lo as int),
            *r.1 == old(self).value_at(hi as int),
            final(self).spec_len() == old(self).spec_len(),
            forall|j: int|
                0 <= j < old(self).spec_len() && j != lo && j != hi ==> final(self).slots_view()[j] == old(self).slots_view()[j],
            final(self).slots_view()[lo as int] == Some(
                (old(self).cell_of(lo as int), *final(r.0)),
            ),
            final(self).slots_view()[hi as int] == Some(
                (old(self).cell_of(hi as int), *final(r.1)),
            ),
            final(self).cells_view() == old(self).cells_view(),
            final(self).tag_of() == old(self).tag_of(),
    {
        let s = self.slots.as_mut_slice();
        let (left, right) = s.split_at_mut(hi);
        let bslot = right.first_mut().unwrap();
        let pair = left.split_at_mut(lo + 1);
        let ll = pair.0;
        let aslot = ll.last_mut().unwrap();
        let a = match aslot {
            Some(pv) => &mut pv.value,
            None => vstd::pervasive::unreached(),
        };
        let b = match bslot {
            Some(pv) => &mut pv.value,
            None => vstd::pervasive::unreached(),
        };
        (a, b)
    }

    /// Fully checked access through a handle: `Some` exactly when the
    /// handle is a valid in-use handle of this array.
    pub fn get_checked(&self, p: &Pos) -> (r: Option<&V>)
        ensures
            r is Some <==> self.valid_in_use(*p),
            r matches Some(v) ==> *v == self.value_at(self.index_of(*p)),
    {
        if p.tag == self.tag && p.cell < self.cells.len() {
            let idx = self.cells[p.cell];
            if idx < self.slots.len() {
                match &self.slots[idx] {
                    Some(pv) => {
                        if pv.cell == p.cell {
                            Some(&pv.value)
                        } else {
                            None
                        }
                    },
                    None => None,
                }
            } else {
                None
            }
        } else {
            None
        }
    }

    /// Builds the handle for a given cell of this array's current
    /// generation.
    pub fn pos_for_cell(&self, cell: usize) -> (r: Pos)
        ensures
            r.spec_tag() == self.tag_of(),
            r.spec_cell() == cell as int,
    {
        Pos { tag: self.tag, cell }
    }

    /// Reads the slot index a handle's cell currently holds.
    pub fn index_of_pos(&self, p: &Pos) -> (r: usize)
        requires
            0 <= p.spec_cell() < self.cells_len(),
        ensures
            r as int == self.index_of(*p),
    {
        self.cells[p.cell]
    }

    /// Access by raw slot index that the caller has already proved occupied.
    pub fn get_occupied(&self, idx: usize) -> (r: &V)
        requires
            self.occupied(idx as int),
        ensures
            *r == self.value_at(idx as int),
    {
        match &self.slots[idx] {
            Some(pv) => &pv.value,
            None => vstd::pervasive::unreached(),
        }
    }
}

/// Number of occupied slots among the first `n` entries of a slot view.
pub open spec fn occ_upto<V>(s: Seq<Option<(int, V)>>, n: int) -> int
    decreases n,
{
    if n <= 0 || n > s.len() {
        0
    } else {
        occ_upto(s, n - 1) + if s[n - 1] is Some {
            1int
        } else {
            0int
        }
    }
}

/// Number of empty slots among the first `n` entries of a slot view.
pub open spec fn none_upto<V>(s: Seq<Option<(int, V)>>, n: int) -> int
    decreases n,
{
    if n <= 0 || n > s.len() {
        0
    } else {
        none_upto(s, n - 1) + if s[n - 1] is None {
            1int
        } else {
            0int
        }
    }
}

/// Number of occupied slots at index `n` or above.
pub open spec fn occ_from<V>(s: Seq<Option<(int, V)>>, n: int) -> int {
    occ_upto(s, s.len() as int) - occ_upto(s, n)
}

/// Occupied and empty slots below `n` together account for all of them.
pub proof fn lemma_counts_split<V>(s: Seq<Option<(int, V)>>, n: int)
    requires
        0 <= n <= s.len(),
    ensures
        occ_upto(s, n) + none_upto(s, n) == n,
        0 <= occ_upto(s, n),
        0 <= none_upto(s, n),
    decreases n,
{
    if n > 0 {
        lemma_counts_split(s, n - 1);
    }
}

/// Both counters are monotone in the prefix length.
pub proof fn lemma_counts_monotone<V>(s: Seq<Option<(int, V)>>, m: int, n: int)
    requires
        0 <= m <= n <= s.len(),
    ensures
        occ_upto(s, m) <= occ_upto(s, n),
        none_upto(s, m) <= none_upto(s, n),
        none_upto(s, n) - none_upto(s, m) <= n - m,
        occ_upto(s, n) - occ_upto(s, m) <= n - m,
    decreases n,
{
    if m < n {
        lemma_counts_monotone(s, m, n - 1);
    }
}

/// A prefix without empty slots has an empty-slot count of zero, and the
/// count does not move across a stretch of occupied slots.
pub proof fn lemma_none_upto_constant<V>(s: Seq<Option<(int, V)>>, m: int, n: int)
    requires
        0 <= m <= n <= s.len(),
        forall|i: int| m <= i < n ==> #[trigger] s[i] is Some,
    ensures
        none_upto(s, n) == none_upto(s, m),
    decreases n,
{
    if m < n {
        lemma_none_upto_constant(s, m, n - 1);
    }
}

/// The counters only look at the prefix: sequences agreeing below `n`
/// count alike there.
pub proof fn lemma_counts_agree<V>(s: Seq<Option<(int, V)>>, t: Seq<Option<(int, V)>>, n: int)
    requires
        0 <= n <= s.len(),
        n <= t.len(),
        forall|j: int| 0 <= j < n ==> s[j] == #[trigger] t[j],
    ensures
        occ_upto(s, n) == occ_upto(t, n),
        none_upto(s, n) == none_upto(t, n),
    decreases n,
{
    if n > 0 {
        lemma_counts_agree(s, t, n - 1);
    }
}

/// Changing one slot moves the counters by at most the change at that slot.
pub proof fn lemma_counts_update<V>(
    s: Seq<Option<(int, V)>>,
    i: int,
    e: Option<(int, V)>,
    n: int,
)
    requires
        0 <= i < s.len(),
        0 <= n <= s.len(),
    ensures
        occ_upto(s.update(i, e), n) == occ_upto(s, n) + if i < n {
            (if e is Some {
                1int
            } else {
                0int
            }) - (if s[i] is Some {
                1int
            } else {
                0int
            })
        } else {
            0int
        },
    decreases n,
{
    if n > 0 {
        lemma_counts_update(s, i, e, n - 1);
    }
}

/// When the occupied count of a prefix is the whole prefix, every slot in
/// it is occupied.
pub proof fn lemma_all_occupied<V>(s: Seq<Option<(int, V)>>, n: int, i: int)
    requires
        0 <= n <= s.len(),
        occ_upto(s, n) == n,
        0 <= i < n,
    ensures
        s[i] is Some,
{
    if s[i] is None {
        lemma_counts_split(s, i);
        lemma_counts_monotone(s, i + 1, n);
        assert(none_upto(s, i + 1) == none_upto(s, i) + 1);
        lemma_counts_split(s, n);
    }
}

/// The set of occupied slot indices below `n`.
pub open spec fn occ_set_upto<V>(s: Seq<Option<(int, V)>>, n: int) -> Set<int> {
    Set::new(|i: int| 0 <= i < n && s[i] is Some)
}

/// The occupied counter agrees with the cardinality of the occupied set.
pub proof fn lemma_occ_set_card<V>(s: Seq<Option<(int, V)>>, n: int)
    requires
        0 <= n <= s.len(),
    ensures
        occ_set_upto(s, n).finite(),
        occ_set_upto(s, n).len() == occ_upto(s, n),
    decreases n,
{
    if n == 0 {
        assert(occ_set_upto(s, 0) =~= Set::empty());
    } else {
        lemma_occ_set_card(s, n - 1);
        if s[n - 1] is Some {
            assert(occ_set_upto(s, n) =~= occ_set_upto(s, n - 1).insert(n - 1));
        } else {
            assert(occ_set_upto(s, n) =~= occ_set_upto(s, n - 1));
        }
    }
}

/// Two empty slots with the same rank are the same slot.
pub proof fn lemma_hole_rank_injective<V>(s: Seq<Option<(int, V)>>, a: int, b: int)
    requires
        0 <= a < s.len(),
        0 <= b < s.len(),
        s[a] is None,
        s[b] is None,
        none_upto(s, a) == none_upto(s, b),
    ensures
        a == b,
{
    if a < b {
        lemma_counts_monotone(s, a + 1, b);
        assert(none_upto(s, a + 1) == none_upto(s, a) + 1);
    }
    if b < a {
        lemma_counts_monotone(s, b + 1, a);
        assert(none_upto(s, b + 1) == none_upto(s, b) + 1);
    }
}

/// An ascending, complete list of the empty slots enumerates them by rank:
/// the `j`-th entry is the empty slot with exactly `j` empty slots below it,
/// and the list's length is the total number of empty slots.
pub proof fn lemma_frees_enumerate_holes<V>(s: Seq<Option<(int, V)>>, frees: Seq<usize>)
    requires
        forall|j: int| 0 <= j < frees.len() ==> #[trigger] frees[j] < s.len()
            && s[frees[j] as int] is None,
        forall|j1: int, j2: int| 0 <= j1 < j2 < frees.len() ==> frees[j1] < frees[j2],
        forall|i: int| 0 <= i < s.len() && #[trigger] s[i] is None ==> exists|j: int|
            0 <= j < frees.len() && #[trigger] frees[j] == i,
    ensures
        forall|j: int| 0 <= j < frees.len() ==> #[trigger] none_upto(s, frees[j] as int) == j,
        none_upto(s, s.len() as int) == frees.len(),
{
    assert forall|j: int| 0 <= j < frees.len() implies #[trigger] none_upto(s, frees[j] as int)
        == j by {
        lemma_frees_rank(s, frees, j);
    }
    if frees.len() == 0 {
        assert forall|i: int| 0 <= i < s.len() implies #[trigger] s[i] is Some by {
            if s[i] is None {
                let j = choose|j: int| 0 <= j < frees.len() && frees[j] == i;
            }
        }
        lemma_none_upto_constant(s, 0, s.len() as int);
    } else {
        let last = frees.len() - 1;
        lemma_frees_rank(s, frees, last);
        assert forall|i: int| frees[last] < i < s.len() implies #[trigger] s[i] is Some by {
            if s[i] is None {
                let j = choose|j: int| 0 <= j < frees.len() && frees[j] == i;
                if j < last {
                    assert(frees[j] < frees[last]);
                }
            }
        }
        lemma_none_upto_constant(s, frees[last] as int + 1, s.len() as int);
        assert(none_upto(s, frees[last] as int + 1) == none_upto(s, frees[last] as int) + 1);
    }
}

/// Among the slots at `n` or above there is, for each rank `j` below their
/// occupied count, an occupied slot with exactly `j` occupied slots above it.
proof fn lemma_source_exists<V>(s: Seq<Option<(int, V)>>, n: int, j: int)
    requires
        0 <= n <= s.len(),
        0 <= j < occ_from(s, n),
    ensures
        exists|t: int| n <= t < s.len() && #[trigger] s[t] is Some && occ_from(s, t + 1) == j,
    decreases s.len() - n,
{
    assert(n < s.len());
    assert(occ_upto(s, n + 1) == occ_upto(s, n) + if s[n] is Some {
        1int
    } else {
        0int
    });
    if j < occ_from(s, n + 1) {
        lemma_source_exists(s, n + 1, j);
        let t = choose|t: int|
            n + 1 <= t < s.len() && #[trigger] s[t] is Some && occ_from(s, t + 1) == j;
        assert(n <= t < s.len() && s[t] is Some && occ_from(s, t + 1) == j);
    } else {
        assert(s[n] is Some && occ_from(s, n + 1) == j);
    }
}

/// The rank of the `j`-th listed empty slot is `j`.
proof fn lemma_frees_rank<V>(s: Seq<Option<(int, V)>>, frees: Seq<usize>, j: int)
    requires
        0 <= j < frees.len(),
        forall|j0: int| 0 <= j0 < frees.len() ==> #[trigger] frees[j0] < s.len()
            && s[frees[j0] as int] is None,
        forall|j1: int, j2: int| 0 <= j1 < j2 < frees.len() ==> frees[j1] < frees[j2],
        forall|i: int| 0 <= i < s.len() && #[trigger] s[i] is None ==> exists|j0: int|
            0 <= j0 < frees.len() && #[trigger] frees[j0] == i,
    ensures
        none_upto(s, frees[j] as int) == j,
    decreases j,
{
    if j == 0 {
        assert forall|i: int| 0 <= i < frees[0] implies #[trigger] s[i] is Some by {
            if s[i] is None {
                let j0 = choose|j0: int| 0 <= j0 < frees.len() && frees[j0] == i;
                if j0 > 0 {
                    assert(frees[0] < frees[j0]);
                }
            }
        }
        lemma_none_upto_constant(s, 0, frees[0] as int);
    } else {
        lemma_frees_rank(s, frees, j - 1);
        let prev = frees[j - 1] as int;
        assert forall|i: int| prev + 1 <= i < frees[j] implies #[trigger] s[i] is Some by {
            if s[i] is None {
                let j0 = choose|j0: int| 0 <= j0 < frees.len() && frees[j0] == i;
                if j0 <= j - 1 {
                    assert(frees[j0] <= frees[j - 1]);
                }
                if j0 >= j {
                    assert(frees[j] <= frees[j0]);
                }
            }
        }
        lemma_none_upto_constant(s, prev + 1, frees[j] as int);
        assert(none_upto(s, prev + 1) == none_upto(s, prev) + 1);
    }
}

/// Overwriting the value of an occupied slot, with the slot's cell left in
/// place, preserves well-formedness. Callers of
/// [`PosVec::get_via_pos_mut`] and [`PosVec::get_mut`] use this once the
/// returned borrow has settled.
pub proof fn lemma_wf_value_update<V>(a: PosVec<V>, b: PosVec<V>, i: int, v: V)
    requires
        a.wf(),
        a.occupied(i),
        b.slots_view() == a.slots_view().update(i, Some((a.cell_of(i), v))),
        b.cells_view() == a.cells_view(),
    ensures
        b.wf(),
        forall|j: int| #[trigger] b.occupied(j) <==> a.occupied(j),
        forall|j: int| a.occupied(j) && j != i ==> #[trigger] b.value_at(j) == a.value_at(j),
        forall|j: int| a.occupied(j) ==> #[trigger] b.cell_of(j) == a.cell_of(j),
        b.value_at(i) == v,
{
    assert forall|j: int| #[trigger] b.occupied(j) implies 0 <= b.cell_of(j) < b.cells_len()
        && b.cell_points(b.cell_of(j)) == j by {
        assert(a.occupied(j));
    }
}

/// Relies on `Vec::capacity`: at least the current length is allocated.
#[verifier::external_body]
fn vec_capacity<T>(v: &Vec<T>) -> (r: usize)
    ensures
        r >= v@.len(),
{
    v.capacity()
}

/// Relies on `Vec::shrink_to_fit`: only spare capacity is dropped, the
/// contents stay as they are.
#[verifier::external_body]
fn vec_shrink_to_fit<T>(v: &mut Vec<T>)
    ensures
        final(v)@ == old(v)@,
{
    v.shrink_to_fit()
}

} // verus!
