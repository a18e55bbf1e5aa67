//! The generational arena [`Prison`].
use vstd::prelude::*;

use crate::{AccessError, CellKey};
use std::ops::{Bound, RangeBounds};


verus! {

use super::model::{
    count_occupied, count_referenced, free_next, free_prev, free_top, lemma_acquire_release,
    lemma_acquire_release_all, lemma_count_bound, lemma_count_push, lemma_count_update,
    lemma_many_error_prefix, lemma_many_step, lemma_set_refs_inv,
    lemma_set_val_inv, lemma_holds_all_mut, lemma_set_vals_pointwise, lemma_set_vals_inv,
    distinct_idxs, lemma_acquire_all_keeps_vals, lemma_release_all_set_vals, key_reqs, idx_reqs,
    PrisonView, CellState, PrisonStatus, SliceBound, bound_start, bound_end, bounds_reqs, bounds_indexes, range_reqs,
    lemma_range_is_its_indexes,
    lemma_many_lookup_prefix, lemma_many_error_out_of_range, lemma_evolves_trans,
    lemma_set_refs_evolves, lemma_set_val_evolves, lemma_occupy_evolves, lemma_push_evolves,
    lemma_retire_evolves, lemma_replace_evolves, SlotView, INVALID_IDX, MAX_CAP, MAX_GEN, REFS_MAX_IMMUT,
    REFS_MUT,
};

/// The model of a single slot of the underlying `Vec`.
spec fn cell_view<T>(c: PrisonCell<T>) -> SlotView<T> {
    match c {
        PrisonCell::Cell { refs, gen, val } => SlotView::Occupied { refs, gen, val },
        PrisonCell::Free { .. } => SlotView::Vacant,
    }
}

/// One slot of the underlying `Vec`: a value, or a link in the list of free slots.
enum PrisonCell<T> {
    /// A live value, its reference count and its generation.
    Cell { refs: usize, gen: usize, val: T },
    /// A free slot with the free slots before and after it in the free list.
    Free { prev: usize, next: usize },
}

/// A generational arena: a `Vec` of values, each addressed by a [`CellKey`] and lent out
/// under run-time reference counting.
///
/// Removed values leave free slots behind that later inserts fill again, most recently freed
/// first. A key stays valid only as long as the value it was issued for lives.
pub struct Prison<T> {
    access_count: usize,
    generation: usize,
    free_count: usize,
    next_free: usize,
    vec: Vec<PrisonCell<T>>,
    free: Ghost<Seq<usize>>,
}

/// The capacity of a `Vec`.
///
/// Calls `Vec::capacity`; claims only that the capacity is at least the length, as the
/// documentation of `Vec` guarantees. What the capacity is beyond that depends on the allocator.
#[verifier::external_body]
fn vec_capacity<T>(v: &Vec<T>) -> (cap: usize)
    ensures
        cap >= v@.len(),
{
    v.capacity()
}

impl<T> View for Prison<T> {
    type V = PrisonView<T>;

    closed spec fn view(&self) -> PrisonView<T> {
        PrisonView {
            slots: self.vec@.map_values(|c: PrisonCell<T>| cell_view(c)),
            free: self.free@,
            generation: self.generation,
            access_count: self.access_count,
        }
    }
}

impl<T> Prison<T> {
    /// The concrete invariant: the model's invariant, and the links of the free slots, the
    /// top of the free list and the free count agree with the model's free list.
    pub closed spec fn wf(&self) -> bool {
        &&& self@.inv()
        &&& self.free_count == self.free@.len()
        &&& self.next_free == free_top(self.free@)
        &&& links_ok(self.vec@, self.free@)
    }

    /// A well-formed arena satisfies the model's invariant.
    pub proof fn lemma_inv(&self)
        requires
            self.wf(),
        ensures
            self@.inv(),
    {
    }

    /// Creates an empty arena.
    pub fn new() -> (prison: Self)
        ensures
            prison.wf(),
            prison@.slots == Seq::<SlotView<T>>::empty(),
            prison@.free == Seq::<usize>::empty(),
            prison@.generation == 0,
            prison@.access_count == 0,
    {
        let prison = Prison {
            access_count: 0,
            generation: 0,
            free_count: 0,
            next_free: INVALID_IDX,
            vec: Vec::new(),
            free: Ghost(Seq::empty()),
        };
        assert(prison@.slots =~= Seq::<SlotView<T>>::empty());
        prison
    }

    /// Creates an empty arena whose `Vec` can hold at least `size` values before it grows.
    pub fn with_capacity(size: usize) -> (prison: Self)
        ensures
            prison.wf(),
            prison@.slots == Seq::<SlotView<T>>::empty(),
            prison@.free == Seq::<usize>::empty(),
            prison@.generation == 0,
            prison@.access_count == 0,
    {
        let prison = Prison {
            access_count: 0,
            generation: 0,
            free_count: 0,
            next_free: INVALID_IDX,
            vec: Vec::with_capacity(size),
            free: Ghost(Seq::empty()),
        };
        assert(prison@.slots =~= Seq::<SlotView<T>>::empty());
        prison
    }

    /// The length of the underlying `Vec`, free slots included.
    pub fn vec_len(&self) -> (len: usize)
        ensures
            len == self@.slots.len(),
    {
        self.vec.len()
    }

    /// The capacity of the underlying `Vec`.
    pub fn vec_cap(&self) -> (cap: usize)
        ensures
            cap >= self@.slots.len(),
    {
        vec_capacity(&self.vec)
    }
}


impl<T> Prison<T> {
    /// Sets the link to the previous free slot of the free slot `idx`.
    fn set_free_prev(&mut self, idx: usize, prev: usize)
        requires
            idx < old(self).vec@.len(),
            old(self).vec@[idx as int] is Free,
        ensures
            final(self).vec@ == old(self).vec@.update(
                idx as int,
                PrisonCell::Free { prev, next: old(self).vec@[idx as int]->Free_next },
            ),
            final(self).access_count == old(self).access_count,
            final(self).generation == old(self).generation,
            final(self).free_count == old(self).free_count,
            final(self).next_free == old(self).next_free,
            final(self).free@ == old(self).free@,
    {
        let next = match &self.vec[idx] {
            PrisonCell::Free { next, .. } => *next,
            PrisonCell::Cell { .. } => INVALID_IDX,
        };
        self.vec.set(idx, PrisonCell::Free { prev, next });
    }

    /// Sets the link to the next free slot of the free slot `idx`.
    fn set_free_next(&mut self, idx: usize, next: usize)
        requires
            idx < old(self).vec@.len(),
            old(self).vec@[idx as int] is Free,
        ensures
            final(self).vec@ == old(self).vec@.update(
                idx as int,
                PrisonCell::Free { prev: old(self).vec@[idx as int]->Free_prev, next },
            ),
            final(self).access_count == old(self).access_count,
            final(self).generation == old(self).generation,
            final(self).free_count == old(self).free_count,
            final(self).next_free == old(self).next_free,
            final(self).free@ == old(self).free@,
    {
        let prev = match &self.vec[idx] {
            PrisonCell::Free { prev, .. } => *prev,
            PrisonCell::Cell { .. } => INVALID_IDX,
        };
        self.vec.set(idx, PrisonCell::Free { prev, next });
    }

    /// Inserts `value` as [`Prison::insert`] does when the capacity of the `Vec` is `cap`.
    ///
    /// A free slot is filled first (the most recently freed one). Without one, the value is
    /// appended, unless the `Vec` is full (`cap <= len`) while a value is referenced, or the
    /// `Vec` reached [`MAX_CAP`].
    pub fn insert_with_capacity(&mut self, value: T, cap: usize) -> (r: Result<CellKey, AccessError>)
        requires
            old(self).wf(),
            cap >= old(self)@.slots.len(),
        ensures
            final(self).wf(),
            ({
                let pre = old(self)@;
                let post = final(self)@;
                if pre.free.len() > 0 {
                    &&& r == Ok::<CellKey, AccessError>(
                        CellKey::spec_from_raw_parts(pre.free[0], pre.generation),
                    )
                    &&& post == PrisonView { free: pre.free.drop_first(), ..pre.occupy(pre.free[0] as int, value) }
                } else if cap <= pre.slots.len() && pre.access_count > 0 {
                    &&& r == Err::<CellKey, AccessError>(
                        AccessError::InsertAtMaxCapacityWhileAValueIsReferenced,
                    )
                    &&& post == pre
                } else if pre.slots.len() >= MAX_CAP {
                    &&& r == Err::<CellKey, AccessError>(AccessError::MaximumCapacityReached)
                    &&& post == pre
                } else {
                    &&& r == Ok::<CellKey, AccessError>(
                        CellKey::spec_from_raw_parts(pre.slots.len() as usize, pre.generation),
                    )
                    &&& post == PrisonView {
                        slots: pre.slots.push(
                            SlotView::Occupied { refs: 0, gen: pre.generation, val: value },
                        ),
                        ..pre
                    }
                }
            }),
            old(self)@.evolves_to(final(self)@),
            r matches Ok(key) ==> final(self)@.holds_fresh(key.spec_idx(), key.spec_gen(), value),
            old(self)@.free.len() == 0 && cap > old(self)@.slots.len() && old(self)@.slots.len() < MAX_CAP
                ==> r == Ok::<CellKey, AccessError>(
                CellKey::spec_from_raw_parts(old(self)@.slots.len() as usize, old(self)@.generation),
            ),
            r == Err::<CellKey, AccessError>(AccessError::InsertAtMaxCapacityWhileAValueIsReferenced) ==> {
                &&& old(self)@.free.len() == 0
                &&& cap <= old(self)@.slots.len()
                &&& old(self)@.access_count > 0
            },
    {
        let len = self.vec.len();
        let gen = self.generation;
        if self.next_free == INVALID_IDX {
            if cap <= len && self.access_count > 0 {
                return Err(AccessError::InsertAtMaxCapacityWhileAValueIsReferenced);
            }
            if len >= MAX_CAP {
                return Err(AccessError::MaximumCapacityReached);
            }
            let ghost pre = self@;
            self.vec.push(PrisonCell::Cell { refs: 0, gen, val: value });
            proof {
                let cv = |c: PrisonCell<T>| cell_view(c);
                assert(self@.slots =~= pre.slots.push(
                    SlotView::Occupied { refs: 0, gen, val: value },
                ));
                lemma_count_push(pre.slots, SlotView::Occupied { refs: 0, gen, val: value });
                lemma_push_evolves(pre, value);
                assert forall|k: int| 0 <= k < self.free@.len() implies (#[trigger] self.vec@[self.free@[k] as int]
                    matches PrisonCell::Free { prev, next } && prev == free_prev(self.free@, k) && next
                    == free_next(self.free@, k)) by {
                    assert(self.free@.len() == 0);
                }
            }
            return Ok(CellKey::from_raw_parts(len, gen));
        }
        let new_idx = self.next_free;
        let ghost pre = self@;
        let ghost free = self.free@;
        proof {
            assert(free.len() > 0);
            assert(free[0] == new_idx);
            assert(self.vec@[free[0] as int] is Free);
        }
        let next = match &self.vec[new_idx] {
            PrisonCell::Free { next, .. } => *next,
            PrisonCell::Cell { .. } => {
                proof {
                    assert(false);
                }
                return Err(AccessError::MAJOR_MALFUNCTION(String::new()));
            },
        };
        let ghost vec0 = self.vec@;
        if next != INVALID_IDX {
            proof {
                assert(free.len() > 1);
                assert(self.vec@[free[1] as int] is Free);
            }
            self.set_free_prev(next, INVALID_IDX);
        }
        self.vec.set(new_idx, PrisonCell::Cell { refs: 0, gen, val: value });
        self.next_free = next;
        self.free_count = self.free_count - 1;
        self.free = Ghost(free.drop_first());
        proof {
            let nf = free.drop_first();
            assert(self@.slots =~= pre.slots.update(
                new_idx as int,
                SlotView::Occupied { refs: 0, gen, val: value },
            )) by {
                if next != INVALID_IDX {
                    assert(free[1] != free[0]);
                }
            }
            lemma_count_update(pre.slots, new_idx as int, SlotView::Occupied { refs: 0, gen, val: value });
            lemma_occupy_evolves(pre, new_idx as int, value);
            assert(nf.no_duplicates());
            assert forall|k: int| 0 <= k < nf.len() implies (#[trigger] self.vec@[nf[k] as int]
                matches PrisonCell::Free { prev, next } && prev == free_prev(nf, k) && next
                == free_next(nf, k)) by {
                assert(nf[k] == free[k + 1]);
                assert(free[k + 1] != free[0]);
                assert(vec0[free[k + 1] as int] matches PrisonCell::Free { prev, next } && prev == free_prev(free, k + 1) && next == free_next(free, k + 1));
            }
            assert forall|i: int|
                0 <= i < self@.slots.len() && #[trigger] self@.slots[i] is Vacant implies nf.contains(
                i as usize,
            ) by {
                assert(pre.slots[i] is Vacant);
                assert(free.contains(i as usize));
                let k = choose|k: int| 0 <= k < free.len() && free[k] == i as usize;
                assert(k != 0);
                assert(nf[k - 1] == i as usize);
            }
        }
        Ok(CellKey::from_raw_parts(new_idx, gen))
    }

    /// Inserts `value` and returns the key that addresses it.
    ///
    /// The most recently freed slot is filled first; without a free slot the value is
    /// appended to the `Vec`. Appending to a full `Vec` (one that would have to grow) is
    /// refused while any value is referenced.
    ///
    /// Appending is also refused with [`AccessError::MaximumCapacityReached`] once the `Vec`
    /// holds [`MAX_CAP`] slots, whatever its capacity: every index must stay below
    /// [`INVALID_IDX`], the value that marks the end of the free list. Each slot of the `Vec`
    /// takes at least two `usize`s, even for a zero-sized value, so no allocation can reach
    /// that many slots: the `Vec` runs out of capacity first.
    pub fn insert(&mut self, value: T) -> (r: Result<CellKey, AccessError>)
        requires
            old(self).wf(),
        ensures
            final(self).wf(),
            ({
                let pre = old(self)@;
                let post = final(self)@;
                if pre.free.len() > 0 {
                    &&& r == Ok::<CellKey, AccessError>(
                        CellKey::spec_from_raw_parts(pre.free[0], pre.generation),
                    )
                    &&& post == PrisonView { free: pre.free.drop_first(), ..pre.occupy(pre.free[0] as int, value) }
                } else {
                    let appended = PrisonView {
                        slots: pre.slots.push(
                            SlotView::Occupied { refs: 0, gen: pre.generation, val: value },
                        ),
                        ..pre
                    };
                    let key = CellKey::spec_from_raw_parts(pre.slots.len() as usize, pre.generation);
                    ||| pre.slots.len() < MAX_CAP && r == Ok::<CellKey, AccessError>(key) && post == appended
                    ||| pre.access_count > 0 && r == Err::<CellKey, AccessError>(
                        AccessError::InsertAtMaxCapacityWhileAValueIsReferenced,
                    ) && post == pre
                    ||| pre.slots.len() >= MAX_CAP && r == Err::<CellKey, AccessError>(
                        AccessError::MaximumCapacityReached,
                    ) && post == pre
                }
            }),
            old(self)@.access_count == 0 && old(self)@.slots.len() < MAX_CAP ==> r is Ok,
            old(self)@.evolves_to(final(self)@),
            r matches Ok(key) ==> final(self)@.holds_fresh(key.spec_idx(), key.spec_gen(), value),
    {
        let cap = vec_capacity(&self.vec);
        self.insert_with_capacity(value, cap)
    }
}

/// The links of the free slots in `vec` follow the order of `free`.
spec fn links_ok<T>(vec: Seq<PrisonCell<T>>, free: Seq<usize>) -> bool {
    forall|k: int|
        0 <= k < free.len() ==> {
            &&& #[trigger] free[k] < vec.len()
            &&& vec[free[k] as int] matches PrisonCell::Free { prev, next } && prev == free_prev(
                free,
                k,
            ) && next == free_next(free, k)
        }
}

/// Removing position `k` from the free list keeps the links in order once the neighbours of
/// `free[k]` point at each other.
#[verifier::spinoff_prover]
#[verifier::rlimit(40)]
proof fn lemma_unlink<T>(vec0: Seq<PrisonCell<T>>, vec1: Seq<PrisonCell<T>>, free: Seq<usize>, k: int)
    requires
        links_ok(vec0, free),
        free.no_duplicates(),
        0 <= k < free.len(),
        vec1.len() == vec0.len(),
        forall|j: int|
            0 <= j < vec0.len() && (k == 0 || j != free[k - 1]) && (k + 1 >= free.len() || j
                != free[k + 1]) ==> vec1[j] == vec0[j],
        k > 0 ==> vec1[free[k - 1] as int] == (PrisonCell::<T>::Free {
            prev: free_prev(free, k - 1),
            next: free_next(free, k),
        }),
        k + 1 < free.len() ==> vec1[free[k + 1] as int] == (PrisonCell::<T>::Free {
            prev: free_prev(free, k),
            next: free_next(free, k + 1),
        }),
    ensures
        links_ok(vec1, free.remove(k)),
        free.remove(k).no_duplicates(),
        forall|j: int| 0 <= j < free.remove(k).len() ==> #[trigger] free.remove(k)[j] != free[k],
        forall|j: int|
            0 <= j < free.len() && j != k ==> free.remove(k).contains(#[trigger] free[j]),
{
    let nf = free.remove(k);
    free.remove_ensures(k);
    assert forall|a: int, b: int| 0 <= a < nf.len() && 0 <= b < nf.len() && a != b implies nf[a]
        != nf[b] by {
        let a0 = if a < k { a } else { a + 1 };
        let b0 = if b < k { b } else { b + 1 };
        assert(nf[a] == free[a0]);
        assert(nf[b] == free[b0]);
    }
    assert forall|j: int| 0 <= j < nf.len() implies #[trigger] nf[j] != free[k] by {
        let j0 = if j < k { j } else { j + 1 };
        assert(nf[j] == free[j0]);
    }
    assert forall|j: int| 0 <= j < free.len() && j != k implies nf.contains(#[trigger] free[j]) by {
        if j < k {
            assert(nf[j] == free[j]);
        } else {
            assert(nf[j - 1] == free[j]);
        }
    }
    assert forall|j: int|
        0 <= j < nf.len() implies {
            &&& #[trigger] nf[j] < vec1.len()
            &&& vec1[nf[j] as int] matches PrisonCell::Free { prev, next } && prev == free_prev(
                nf,
                j,
            ) && next == free_next(nf, j)
        } by {
        let j0 = if j < k { j } else { j + 1 };
        assert(nf[j] == free[j0]);
        assert(free[j0] < vec0.len());
        if k > 0 && j0 == k - 1 {
        } else if k + 1 < free.len() && j0 == k + 1 {
        } else {
            if k > 0 {
                assert(free[j0] != free[k - 1]);
            }
            if k + 1 < free.len() {
                assert(free[j0] != free[k + 1]);
            }
            assert(vec1[free[j0] as int] == vec0[free[j0] as int]);
        }
    }
}

impl<T> Prison<T> {
    /// Takes the free slot `idx` out of the free list, relinking its neighbours.
    fn unlink_free(&mut self, idx: usize)
        requires
            old(self).wf(),
            idx < old(self).vec@.len(),
            old(self).vec@[idx as int] is Free,
        ensures
            final(self).free@ == old(self).free@.remove(old(self).free@.index_of(idx)),
            final(self)@.slots == old(self)@.slots,
            final(self).vec@.len() == old(self).vec@.len(),
            final(self).vec@[idx as int] == old(self).vec@[idx as int],
            final(self).generation == old(self).generation,
            final(self).access_count == old(self).access_count,
            final(self).free_count == final(self).free@.len(),
            final(self).next_free == free_top(final(self).free@),
            final(self).free@.no_duplicates(),
            links_ok(final(self).vec@, final(self).free@),
            forall|j: int|
                0 <= j < final(self).free@.len() ==> #[trigger] final(self).free@[j] != idx,
            forall|j: int|
                0 <= j < old(self).vec@.len() && j != idx && #[trigger] old(self)@.slots[j] is Vacant
                    ==> final(self).free@.contains(j as usize),
    {
        let ghost free = self.free@;
        let ghost vec0 = self.vec@;
        proof {
            assert(self@.slots[idx as int] is Vacant);
            assert(free.contains(idx));
        }
        let ghost k = free.index_of(idx);
        proof {
            assert(free[k] == idx);
            assert(vec0[free[k] as int] matches PrisonCell::Free { prev, next } && prev == free_prev(free, k) && next == free_next(free, k));
        }
        let (prev, next) = match &self.vec[idx] {
            PrisonCell::Free { prev, next } => (*prev, *next),
            PrisonCell::Cell { .. } => {
                proof {
                    assert(false);
                }
                (INVALID_IDX, INVALID_IDX)
            },
        };
        proof {
            if k > 0 {
                assert(free[k - 1] < vec0.len());
                assert(vec0[free[k - 1] as int] matches PrisonCell::Free { prev, next } && prev == free_prev(free, k - 1) && next == free_next(free, k - 1));
            }
            if k + 1 < free.len() {
                assert(free[k + 1] < vec0.len());
                assert(free[k + 1] != free[k]);
                assert(vec0[free[k + 1] as int] matches PrisonCell::Free { prev, next } && prev == free_prev(free, k + 1) && next == free_next(free, k + 1));
                if k > 0 {
                    assert(free[k - 1] != free[k + 1]);
                }
            }
        }
        if prev != INVALID_IDX {
            self.set_free_next(prev, next);
        } else if self.next_free == idx {
            self.next_free = next;
        } else {
            proof {
                assert(false);
            }
        }
        if next != INVALID_IDX {
            self.set_free_prev(next, prev);
        }
        self.free_count = self.free_count - 1;
        self.free = Ghost(free.remove(k));
        proof {
            lemma_unlink(vec0, self.vec@, free, k);
            assert forall|j: int| 0 <= j < vec0.len() implies cell_view(self.vec@[j]) == cell_view(vec0[j]) by {
                if k > 0 && j == free[k - 1] {
                    assert(vec0[j] is Free);
                }
                if k + 1 < free.len() && j == free[k + 1] {
                    assert(vec0[j] is Free);
                }
            }
            assert(self@.slots =~= old(self)@.slots);
            assert forall|j: int|
                0 <= j < vec0.len() && j != idx && #[trigger] old(self)@.slots[j] is Vacant
                    implies self.free@.contains(j as usize) by {
                assert(free.contains(j as usize));
                let m = choose|m: int| 0 <= m < free.len() && free[m] == j as usize;
                assert(free.remove(k).contains(free[m]));
            }
        }
    }
}


impl<T> Prison<T> {
    /// Fills the free slot `idx` with `val`, taking it out of the free list.
    fn fill_free(&mut self, idx: usize, value: T) -> (r: Result<CellKey, AccessError>)
        requires
            old(self).wf(),
            idx < old(self)@.slots.len(),
            old(self)@.slots[idx as int] is Vacant,
        ensures
            final(self).wf(),
            r == Ok::<CellKey, AccessError>(CellKey::spec_from_raw_parts(idx, old(self)@.generation)),
            final(self)@ == old(self)@.fill(idx as int, value),
            old(self)@.evolves_to(final(self)@),
    {
        let ghost pre = self@;
        proof {
            assert(cell_view(self.vec@[idx as int]) is Vacant);
        }
        self.unlink_free(idx);
        let ghost vec1 = self.vec@;
        let gen = self.generation;
        self.vec.set(idx, PrisonCell::Cell { refs: 0, gen, val: value });
        proof {
            let x = SlotView::Occupied { refs: 0, gen, val: value };
            assert(self@.slots =~= pre.slots.update(idx as int, x));
            lemma_count_update(pre.slots, idx as int, x);
            lemma_occupy_evolves(pre, idx as int, value);
            let free = pre.free;
            let k = free.index_of(idx);
            assert(free.contains(idx));
            free.remove_ensures(k);
            assert(self.free@.len() == free.len() - 1);
            assert forall|j: int| 0 <= j < self.free@.len() implies {
                &&& #[trigger] self.free@[j] < self.vec@.len()
                &&& self.vec@[self.free@[j] as int] matches PrisonCell::Free { prev, next } && prev
                    == free_prev(self.free@, j) && next == free_next(self.free@, j)
            } by {
                assert(self.free@[j] != idx);
                assert(links_ok(vec1, self.free@));
            }
            assert forall|k2: int| 0 <= k2 < self.free@.len() implies {
                &&& 0 <= #[trigger] self.free@[k2] < self@.slots.len()
                &&& self@.slots[self.free@[k2] as int] is Vacant
            } by {
                assert(self.free@[k2] != idx);
                assert(links_ok(vec1, self.free@));
            }
            assert forall|i: int| 0 <= i < self@.slots.len() && #[trigger] self@.slots[i] is Vacant implies self.free@.contains(
                i as usize,
            ) by {
                assert(i != idx);
                assert(pre.slots[i] is Vacant);
            }
        }
        Ok(CellKey::from_raw_parts(idx, gen))
    }

    /// Takes the value out of slot `idx` and makes the slot the top of the free list, unless
    /// the value is referenced or its retirement would overflow the generation.
    #[verifier::spinoff_prover]
    #[verifier::rlimit(60)]
    fn retire(&mut self, idx: usize) -> (r: Result<T, AccessError>)
        requires
            old(self).wf(),
            idx < old(self)@.slots.len(),
            old(self)@.slots[idx as int] is Occupied,
        ensures
            final(self).wf(),
            ({
                let pre = old(self)@;
                let post = final(self)@;
                match pre.slots[idx as int] {
                    SlotView::Occupied { refs, gen, val } => if refs != 0 {
                        r == Err::<T, AccessError>(AccessError::RemoveWhileValueReferenced(idx))
                            && post == pre
                    } else if gen == MAX_GEN {
                        r == Err::<T, AccessError>(AccessError::MaxValueForGenerationReached)
                            && post == pre
                    } else {
                        r == Ok::<T, AccessError>(val) && post == pre.retire(idx as int, gen)
                    },
                    SlotView::Vacant => false,
                }
            }),
            old(self)@.evolves_to(final(self)@),
            r is Ok ==> final(self)@.key_retired(idx, old(self)@.gen_at(idx as int)->0),
    {
        let ghost pre = self@;
        let ghost vec0 = self.vec@;
        let (refs, gen) = match &self.vec[idx] {
            PrisonCell::Cell { refs, gen, .. } => (*refs, *gen),
            PrisonCell::Free { .. } => {
                proof {
                    assert(cell_view(vec0[idx as int]) is Occupied);
                }
                (0, 0)
            },
        };
        if refs > 0 {
            return Err(AccessError::RemoveWhileValueReferenced(idx));
        }
        if gen >= self.generation {
            if gen == MAX_GEN {
                return Err(AccessError::MaxValueForGenerationReached);
            }
            self.generation = gen + 1;
        } else if gen == MAX_GEN {
            return Err(AccessError::MaxValueForGenerationReached);
        }
        let old_top = self.next_free;
        let ghost free = self.free@;
        proof {
            lemma_count_bound(pre.slots);
            assert(!free.contains(idx)) by {
                if free.contains(idx) {
                    let m = choose|m: int| 0 <= m < free.len() && free[m] == idx;
                    assert(pre.slots[free[m] as int] is Vacant);
                }
            }
            if free.len() > 0 {
                assert(vec0[free[0] as int] is Free);
                assert(free[0] != idx);
            }
        }
        let mut slot = PrisonCell::Free { prev: INVALID_IDX, next: old_top };
        self.vec.set_and_swap(idx, &mut slot);
        if old_top != INVALID_IDX {
            self.set_free_prev(old_top, idx);
        }
        self.next_free = idx;
        self.free_count = self.free_count + 1;
        let ghost nf = seq![idx] + free;
        self.free = Ghost(nf);
        proof {
            assert(self@.slots =~= pre.slots.update(idx as int, SlotView::Vacant)) by {
                assert forall|j: int| 0 <= j < vec0.len() implies cell_view(self.vec@[j]) == #[trigger] cell_view(vec0[j]) || j == idx by {
                    if free.len() > 0 && j == free[0] {
                        assert(vec0[j] is Free);
                    }
                }
            }
            lemma_count_update(pre.slots, idx as int, SlotView::Vacant);
            assert forall|a: int, b: int| 0 <= a < nf.len() && 0 <= b < nf.len() && a != b implies nf[a] != nf[b] by {
                if a > 0 && b > 0 {
                    assert(nf[a] == free[a - 1]);
                    assert(nf[b] == free[b - 1]);
                } else if a == 0 {
                    assert(nf[b] == free[b - 1]);
                } else {
                    assert(nf[a] == free[a - 1]);
                }
            }
            assert forall|j: int| 0 <= j < nf.len() implies {
                &&& #[trigger] nf[j] < self.vec@.len()
                &&& self.vec@[nf[j] as int] matches PrisonCell::Free { prev, next } && prev
                    == free_prev(nf, j) && next == free_next(nf, j)
            } by {
                if j > 0 {
                    assert(nf[j] == free[j - 1]);
                    assert(free[j - 1] != idx);
                    assert(vec0[free[j - 1] as int] matches PrisonCell::Free { prev, next } && prev == free_prev(free, j - 1) && next == free_next(free, j - 1));
                }
            }
            assert forall|k2: int| 0 <= k2 < nf.len() implies {
                &&& 0 <= #[trigger] nf[k2] < self@.slots.len()
                &&& self@.slots[nf[k2] as int] is Vacant
            } by {
                if k2 > 0 {
                    assert(nf[k2] == free[k2 - 1]);
                }
            }
            assert forall|i: int| 0 <= i < self@.slots.len() && #[trigger] self@.slots[i] is Vacant implies nf.contains(
                i as usize,
            ) by {
                if i == idx {
                    assert(nf[0] == idx);
                } else {
                    assert(pre.slots[i] is Vacant);
                    let m = choose|m: int| 0 <= m < free.len() && free[m] == i as usize;
                    assert(nf[m + 1] == i as usize);
                }
            }
            assert(self@ == pre.retire(idx as int, gen));
            lemma_retire_evolves(pre, idx, gen);
        }
        match slot {
            PrisonCell::Cell { val, .. } => Ok(val),
            PrisonCell::Free { .. } => {
                proof {
                    assert(false);
                }
                Err(AccessError::MAJOR_MALFUNCTION(String::new()))
            },
        }
    }
}

impl<T> Prison<T> {
    /// Inserts `value` into the free slot `idx` and returns the key that addresses it.
    ///
    /// Refused with [`AccessError::IndexOutOfRange`] when `idx` is beyond the `Vec`, and
    /// with [`AccessError::IndexIsNotFree`] when the slot holds a value.
    pub fn insert_at(&mut self, idx: usize, value: T) -> (r: Result<CellKey, AccessError>)
        requires
            old(self).wf(),
        ensures
            final(self).wf(),
            ({
                let pre = old(self)@;
                let post = final(self)@;
                if idx >= pre.slots.len() {
                    r == Err::<CellKey, AccessError>(AccessError::IndexOutOfRange(idx)) && post == pre
                } else if pre.slots[idx as int] is Occupied {
                    r == Err::<CellKey, AccessError>(AccessError::IndexIsNotFree(idx)) && post == pre
                } else {
                    &&& r == Ok::<CellKey, AccessError>(CellKey::spec_from_raw_parts(idx, pre.generation))
                    &&& post == pre.fill(idx as int, value)
                }
            }),
            old(self)@.evolves_to(final(self)@),
            r matches Ok(key) ==> final(self)@.holds_fresh(key.spec_idx(), key.spec_gen(), value),
    {
        if idx >= self.vec.len() {
            return Err(AccessError::IndexOutOfRange(idx));
        }
        let is_free = match &self.vec[idx] {
            PrisonCell::Free { .. } => true,
            PrisonCell::Cell { .. } => false,
        };
        if !is_free {
            return Err(AccessError::IndexIsNotFree(idx));
        }
        self.fill_free(idx, value)
    }

    /// Stores `value` in slot `idx`, whether the slot is free or holds a value, and returns the
    /// key that addresses it.
    ///
    /// Replacing a value drops it and moves the generation past it, so every key issued for it
    /// stops matching. A referenced value cannot be replaced.
    pub fn overwrite(&mut self, idx: usize, value: T) -> (r: Result<CellKey, AccessError>)
        requires
            old(self).wf(),
        ensures
            final(self).wf(),
            ({
                let pre = old(self)@;
                let post = final(self)@;
                if idx >= pre.slots.len() {
                    r == Err::<CellKey, AccessError>(AccessError::IndexOutOfRange(idx)) && post == pre
                } else {
                    match pre.slots[idx as int] {
                        SlotView::Occupied { refs, gen, .. } => if refs != 0 {
                            &&& r == Err::<CellKey, AccessError>(
                                AccessError::OverwriteWhileValueReferenced(idx),
                            )
                            &&& post == pre
                        } else if gen == MAX_GEN {
                            &&& r == Err::<CellKey, AccessError>(
                                AccessError::MaxValueForGenerationReached,
                            )
                            &&& post == pre
                        } else {
                            let g = pre.generation_after_retiring(gen);
                            &&& r == Ok::<CellKey, AccessError>(CellKey::spec_from_raw_parts(idx, g))
                            &&& post == (PrisonView { generation: g, ..pre }).occupy(idx as int, value)
                        },
                        SlotView::Vacant => {
                            &&& r == Ok::<CellKey, AccessError>(
                                CellKey::spec_from_raw_parts(idx, pre.generation),
                            )
                            &&& post == pre.fill(idx as int, value)
                        },
                    }
                }
            }),
            old(self)@.evolves_to(final(self)@),
            r is Ok && old(self)@.gen_at(idx as int) is Some ==> final(self)@.key_retired(
                idx,
                old(self)@.gen_at(idx as int)->0,
            ),
            r matches Ok(key) ==> final(self)@.holds_fresh(key.spec_idx(), key.spec_gen(), value),
    {
        if idx >= self.vec.len() {
            return Err(AccessError::IndexOutOfRange(idx));
        }
        let ghost pre = self@;
        let ghost vec0 = self.vec@;
        let (is_free, refs, gen) = match &self.vec[idx] {
            PrisonCell::Free { .. } => (true, 0, 0),
            PrisonCell::Cell { refs, gen, .. } => (false, *refs, *gen),
        };
        if is_free {
            return self.fill_free(idx, value);
        }
        if refs > 0 {
            return Err(AccessError::OverwriteWhileValueReferenced(idx));
        }
        if gen >= self.generation {
            if gen == MAX_GEN {
                return Err(AccessError::MaxValueForGenerationReached);
            }
            self.generation = gen + 1;
        } else if gen == MAX_GEN {
            return Err(AccessError::MaxValueForGenerationReached);
        }
        let new_gen = self.generation;
        self.vec.set(idx, PrisonCell::Cell { refs: 0, gen: new_gen, val: value });
        proof {
            let x = SlotView::Occupied { refs: 0, gen: new_gen, val: value };
            assert(self@.slots =~= pre.slots.update(idx as int, x));
            lemma_count_update(pre.slots, idx as int, x);
            lemma_replace_evolves(pre, idx, gen, value);
            assert(self@ == (PrisonView { generation: pre.generation_after_retiring(gen), ..pre }).occupy(idx as int, value));
            assert forall|k: int| 0 <= k < self.free@.len() implies {
                &&& #[trigger] self.free@[k] < self.vec@.len()
                &&& self.vec@[self.free@[k] as int] matches PrisonCell::Free { prev, next } && prev
                    == free_prev(self.free@, k) && next == free_next(self.free@, k)
            } by {
                assert(vec0[self.free@[k] as int] is Free);
            }
        }
        Ok(CellKey::from_raw_parts(idx, new_gen))
    }

    /// Removes and returns the value addressed by `key`.
    ///
    /// The slot becomes the top of the free list, and the generation moves past the removed
    /// value so that `key` never matches again. Refused when the key is out of range, when its
    /// value is gone or of another generation, and when the value is referenced.
    pub fn remove(&mut self, key: CellKey) -> (r: Result<T, AccessError>)
        requires
            old(self).wf(),
        ensures
            final(self).wf(),
            ({
                let pre = old(self)@;
                let post = final(self)@;
                let idx = key.spec_idx();
                if idx >= pre.slots.len() {
                    r == Err::<T, AccessError>(AccessError::IndexOutOfRange(idx)) && post == pre
                } else {
                    match pre.slots[idx as int] {
                        SlotView::Occupied { refs, gen, val } => if gen != key.spec_gen() {
                            &&& r == Err::<T, AccessError>(
                                AccessError::ValueDeleted(idx, key.spec_gen()),
                            )
                            &&& post == pre
                        } else if refs != 0 {
                            &&& r == Err::<T, AccessError>(AccessError::RemoveWhileValueReferenced(idx))
                            &&& post == pre
                        } else if gen == MAX_GEN {
                            &&& r == Err::<T, AccessError>(AccessError::MaxValueForGenerationReached)
                            &&& post == pre
                        } else {
                            r == Ok::<T, AccessError>(val) && post == pre.retire(idx as int, gen)
                        },
                        SlotView::Vacant => {
                            &&& r == Err::<T, AccessError>(
                                AccessError::ValueDeleted(idx, key.spec_gen()),
                            )
                            &&& post == pre
                        },
                    }
                }
            }),
            old(self)@.evolves_to(final(self)@),
            r is Ok ==> final(self)@.key_retired(key.spec_idx(), key.spec_gen()),
            r is Ok ==> {
                &&& final(self)@.slots.len() == old(self)@.slots.len()
                &&& final(self)@.free.len() == old(self)@.free.len() + 1
                &&& count_occupied(final(self)@.slots) + 1 == count_occupied(old(self)@.slots)
            },
            forall|v: T|
                #[trigger] old(self)@.holds_fresh(key.spec_idx(), key.spec_gen(), v) && key.spec_gen() < MAX_GEN
                    ==> r == Ok::<T, AccessError>(v),
    {
        let idx = key.idx;
        if idx >= self.vec.len() {
            return Err(AccessError::IndexOutOfRange(idx));
        }
        let matches = match &self.vec[idx] {
            PrisonCell::Cell { gen, .. } => *gen == key.gen,
            PrisonCell::Free { .. } => false,
        };
        if !matches {
            return Err(AccessError::ValueDeleted(idx, key.gen));
        }
        self.retire(idx)
    }

    /// Removes and returns the value in slot `idx`, whatever its generation.
    ///
    /// Like [`Prison::remove`], but a free slot is reported as `ValueDeleted(idx, 0)`.
    pub fn remove_idx(&mut self, idx: usize) -> (r: Result<T, AccessError>)
        requires
            old(self).wf(),
        ensures
            final(self).wf(),
            ({
                let pre = old(self)@;
                let post = final(self)@;
                if idx >= pre.slots.len() {
                    r == Err::<T, AccessError>(AccessError::IndexOutOfRange(idx)) && post == pre
                } else {
                    match pre.slots[idx as int] {
                        SlotView::Occupied { refs, gen, val } => if refs != 0 {
                            &&& r == Err::<T, AccessError>(AccessError::RemoveWhileValueReferenced(idx))
                            &&& post == pre
                        } else if gen == MAX_GEN {
                            &&& r == Err::<T, AccessError>(AccessError::MaxValueForGenerationReached)
                            &&& post == pre
                        } else {
                            r == Ok::<T, AccessError>(val) && post == pre.retire(idx as int, gen)
                        },
                        SlotView::Vacant => {
                            &&& r == Err::<T, AccessError>(AccessError::ValueDeleted(idx, 0))
                            &&& post == pre
                        },
                    }
                }
            }),
            old(self)@.evolves_to(final(self)@),
            r is Ok ==> final(self)@.key_retired(idx, old(self)@.gen_at(idx as int)->0),
            r is Ok ==> {
                &&& final(self)@.slots.len() == old(self)@.slots.len()
                &&& final(self)@.free.len() == old(self)@.free.len() + 1
                &&& count_occupied(final(self)@.slots) + 1 == count_occupied(old(self)@.slots)
            },
    {
        if idx >= self.vec.len() {
            return Err(AccessError::IndexOutOfRange(idx));
        }
        let is_cell = match &self.vec[idx] {
            PrisonCell::Cell { .. } => true,
            PrisonCell::Free { .. } => false,
        };
        if !is_cell {
            return Err(AccessError::ValueDeleted(idx, 0));
        }
        self.retire(idx)
    }
}

impl<T> Prison<T> {
    /// Replaces the reference count of the value in slot `idx`.
    fn set_cell_refs(&mut self, idx: usize, refs: usize)
        requires
            idx < old(self).vec@.len(),
            old(self).vec@[idx as int] is Cell,
        ensures
            final(self).vec@ == old(self).vec@.update(
                idx as int,
                PrisonCell::Cell {
                    refs,
                    gen: old(self).vec@[idx as int]->Cell_gen,
                    val: old(self).vec@[idx as int]->Cell_val,
                },
            ),
            final(self).access_count == old(self).access_count,
            final(self).generation == old(self).generation,
            final(self).free_count == old(self).free_count,
            final(self).next_free == old(self).next_free,
            final(self).free@ == old(self).free@,
    {
        let mut slot = PrisonCell::Free { prev: INVALID_IDX, next: INVALID_IDX };
        self.vec.set_and_swap(idx, &mut slot);
        match slot {
            PrisonCell::Cell { gen, val, .. } => {
                self.vec.set(idx, PrisonCell::Cell { refs, gen, val });
            },
            PrisonCell::Free { .. } => {
                self.vec.set(idx, slot);
            },
        }
    }

    /// Moves the concrete state along a change of the reference count of slot `idx`.
    proof fn lemma_refs_changed(&self, pre: Self, idx: usize, refs: usize)
        requires
            pre.wf(),
            idx < pre.vec@.len(),
            pre.vec@[idx as int] is Cell,
            self.vec@ == pre.vec@.update(
                idx as int,
                PrisonCell::Cell {
                    refs,
                    gen: pre.vec@[idx as int]->Cell_gen,
                    val: pre.vec@[idx as int]->Cell_val,
                },
            ),
            self.access_count == pre@.set_refs(idx, refs).access_count,
            self.generation == pre.generation,
            self.free_count == pre.free_count,
            self.next_free == pre.next_free,
            self.free@ == pre.free@,
        ensures
            self.wf(),
            self@ == pre@.set_refs(idx, refs),
            pre@.evolves_to(self@),
    {
        assert(self@.slots =~= pre@.set_refs(idx, refs).slots);
        lemma_set_refs_inv(pre@, idx, refs);
        lemma_set_refs_evolves(pre@, idx, refs);
        assert forall|k: int| 0 <= k < self.free@.len() implies {
            &&& #[trigger] self.free@[k] < self.vec@.len()
            &&& self.vec@[self.free@[k] as int] matches PrisonCell::Free { prev, next } && prev
                == free_prev(self.free@, k) && next == free_next(self.free@, k)
        } by {
            assert(pre@.slots[self.free@[k] as int] is Vacant);
        }
    }

    /// Lends out one reference (mutable when `mutable`) to the value in slot `idx`, checking
    /// its generation against `gen` when `use_gen`.
    fn add_ref(&mut self, idx: usize, gen: usize, use_gen: bool, mutable: bool) -> (r: Result<(), AccessError>)
        requires
            old(self).wf(),
        ensures
            final(self).wf(),
            old(self)@.evolves_to(final(self)@),
            match old(self)@.ref_error(idx, gen, use_gen, mutable) {
                Some(e) => r == Err::<(), AccessError>(e) && final(self)@ == old(self)@,
                None => r is Ok && final(self)@ == old(self)@.acquire(idx, mutable),
            },
    {
        if idx >= self.vec.len() {
            return Err(AccessError::IndexOutOfRange(idx));
        }
        let (found, refs) = match &self.vec[idx] {
            PrisonCell::Cell { refs, gen: g, .. } => (!use_gen || *g == gen, *refs),
            PrisonCell::Free { .. } => (false, 0),
        };
        if !found {
            return Err(AccessError::ValueDeleted(idx, gen));
        }
        if refs == REFS_MUT {
            return Err(AccessError::ValueAlreadyMutablyReferenced(idx));
        }
        if mutable && refs > 0 {
            return Err(AccessError::ValueStillImmutablyReferenced(idx));
        }
        if !mutable && refs == REFS_MAX_IMMUT {
            return Err(AccessError::MaximumImmutableReferencesReached(idx));
        }
        let ghost pre = *self;
        proof {
            lemma_count_bound(pre@.slots);
        }
        let new_refs = if mutable { REFS_MUT } else { refs + 1 };
        if refs == 0 {
            self.access_count = self.access_count + 1;
        }
        self.set_cell_refs(idx, new_refs);
        proof {
            self.lemma_refs_changed(pre, idx, new_refs);
        }
        Ok(())
    }

    /// Gives back one reference (mutable when `mutable`) to the value in slot `idx`.
    fn remove_ref(&mut self, idx: usize, mutable: bool)
        requires
            old(self).wf(),
            old(self)@.holds_ref(idx, mutable),
        ensures
            final(self).wf(),
            final(self)@ == old(self)@.release(idx, mutable),
            old(self)@.evolves_to(final(self)@),
    {
        let ghost pre = *self;
        let refs = match &self.vec[idx] {
            PrisonCell::Cell { refs, .. } => *refs,
            PrisonCell::Free { .. } => 0,
        };
        proof {
            assert(pre@.slots[idx as int] is Occupied);
            lemma_count_update(pre@.slots, idx as int, SlotView::Vacant);
        }
        let new_refs = if mutable { 0 } else { refs - 1 };
        if new_refs == 0 {
            self.access_count = self.access_count - 1;
        }
        self.set_cell_refs(idx, new_refs);
        proof {
            self.lemma_refs_changed(pre, idx, new_refs);
        }
    }
}

impl<T> Prison<T> {
    /// Lends out one reference to every slot of `reqs`, in order; on the first refusal every
    /// reference lent out so far is given back and the error is returned.
    fn add_many_refs(&mut self, reqs: &Vec<(usize, usize)>, use_gen: bool, mutable: bool) -> (r: Result<(), AccessError>)
        requires
            old(self).wf(),
        ensures
            final(self).wf(),
            old(self)@.evolves_to(final(self)@),
            match old(self)@.many_ref_error(reqs@, use_gen, mutable) {
                Some(e) => r == Err::<(), AccessError>(e) && final(self)@ == old(self)@,
                None => r is Ok && final(self)@ == old(self)@.acquire_all(reqs@, mutable),
            },
    {
        let ghost orig = self@;
        let n = reqs.len();
        let mut i: usize = 0;
        while i < n
            invariant
                self.wf(),
                orig.inv(),
                orig == old(self)@,
                0 <= i <= n,
                n == reqs@.len(),
                self@ == orig.acquire_all(reqs@.take(i as int), mutable),
                orig.many_ref_error(reqs@.take(i as int), use_gen, mutable) is None,
                orig.evolves_to(self@),
            decreases n - i,
        {
            let (idx, gen) = reqs[i];
            proof {
                lemma_many_step(orig, reqs@, i as int, use_gen, mutable);
            }
            let ghost before = self@;
            match self.add_ref(idx, gen, use_gen, mutable) {
                Ok(()) => {
                    proof {
                        lemma_evolves_trans(orig, before, self@);
                    }
                    i = i + 1;
                },
                Err(e) => {
                    proof {
                        lemma_many_error_prefix(orig, reqs@, i + 1, use_gen, mutable);
                    }
                    let mut j: usize = i;
                    while j > 0
                        invariant
                            self.wf(),
                            orig.inv(),
                            orig == old(self)@,
                            0 <= j <= i < n,
                            n == reqs@.len(),
                            self@ == orig.acquire_all(reqs@.take(j as int), mutable),
                            orig.many_ref_error(reqs@.take(i as int), use_gen, mutable) is None,
                            orig.many_ref_error(reqs@, use_gen, mutable) == Some(e),
                            orig.evolves_to(self@),
                        decreases j,
                    {
                        j = j - 1;
                        let (idx2, gen2) = reqs[j];
                        proof {
                            assert(reqs@.take(i as int).take(j + 1) =~= reqs@.take(j + 1));
                            if orig.many_ref_error(reqs@.take(j + 1), use_gen, mutable) is Some {
                                lemma_many_error_prefix(orig, reqs@.take(i as int), j + 1, use_gen, mutable);
                            }
                            lemma_many_step(orig, reqs@, j as int, use_gen, mutable);
                            lemma_acquire_release_all(orig, reqs@.take(j as int), use_gen, mutable);
                            lemma_acquire_release(
                                orig.acquire_all(reqs@.take(j as int), mutable),
                                idx2,
                                gen2,
                                use_gen,
                                mutable,
                            );
                        }
                        let ghost before2 = self@;
                        self.remove_ref(idx2, mutable);
                        proof {
                            lemma_evolves_trans(orig, before2, self@);
                        }
                    }
                    proof {
                        assert(reqs@.take(0) =~= Seq::<(usize, usize)>::empty());
                    }
                    return Err(e);
                },
            }
        }
        proof {
            assert(reqs@.take(n as int) =~= reqs@);
        }
        Ok(())
    }

    /// Gives back one reference to every slot of `reqs`, last one first.
    fn remove_many_refs(&mut self, reqs: &Vec<(usize, usize)>, mutable: bool)
        requires
            old(self).wf(),
            old(self)@.holds_all(reqs@, mutable),
        ensures
            final(self).wf(),
            final(self)@ == old(self)@.release_all(reqs@, mutable),
            old(self)@.evolves_to(final(self)@),
    {
        let ghost orig = self@;
        let mut k = reqs.len();
        proof {
            assert(reqs@.take(k as int) =~= reqs@);
        }
        while k > 0
            invariant
                self.wf(),
                k <= reqs@.len(),
                self@.holds_all(reqs@.take(k as int), mutable),
                self@.release_all(reqs@.take(k as int), mutable) == orig.release_all(reqs@, mutable),
                orig.evolves_to(self@),
            decreases k,
        {
            proof {
                assert(reqs@.take(k as int).drop_last() =~= reqs@.take(k - 1));
            }
            k = k - 1;
            let (idx, _) = reqs[k];
            let ghost before = self@;
            self.remove_ref(idx, mutable);
            proof {
                lemma_evolves_trans(orig, before, self@);
            }
        }
        proof {
            assert(reqs@.take(0) =~= Seq::<(usize, usize)>::empty());
        }
    }
}

impl<T> Prison<T> {
    /// Runs `operation` on the value in slot `idx`, which must be lent out mutably.
    fn operate_mut<F>(&mut self, idx: usize, operation: F) -> (r: Result<(), AccessError>)
        where
            F: FnOnce(&mut T) -> Result<(), AccessError>,
        requires
            old(self).wf(),
            idx < old(self)@.slots.len(),
            old(self)@.slots[idx as int] is Occupied,
            forall|x: &mut T| operation.requires((x,)),
        ensures
            final(self).wf(),
            old(self)@.evolves_to(final(self)@),
            exists|m: &mut T|
                *m == old(self)@.val(idx) && operation.ensures((m,), r) && final(self)@ == old(self)@.set_val(
                    idx,
                    *final(m),
                ),
    {
        let ghost pre = *self;
        let mut slot = PrisonCell::Free { prev: INVALID_IDX, next: INVALID_IDX };
        self.vec.set_and_swap(idx, &mut slot);
        let r = match slot {
            PrisonCell::Cell { refs, gen, mut val } => {
                let r = operation(&mut val);
                self.vec.set(idx, PrisonCell::Cell { refs, gen, val });
                r
            },
            PrisonCell::Free { .. } => {
                proof {
                    assert(pre@.slots[idx as int] is Occupied);
                }
                self.vec.set(idx, slot);
                Ok(())
            },
        };
        proof {
            let v = self.vec@[idx as int]->Cell_val;
            assert(self@ == pre@.set_val(idx, v)) by {
                assert(self@.slots =~= pre@.set_val(idx, v).slots);
            }
            lemma_set_val_inv(pre@, idx, v);
            lemma_set_val_evolves(pre@, idx, v);
            assert forall|k: int| 0 <= k < self.free@.len() implies {
                &&& #[trigger] self.free@[k] < self.vec@.len()
                &&& self.vec@[self.free@[k] as int] matches PrisonCell::Free { prev, next } && prev
                    == free_prev(self.free@, k) && next == free_next(self.free@, k)
            } by {
                assert(pre@.slots[self.free@[k] as int] is Vacant);
            }
        }
        r
    }
}

impl<T> Prison<T> {
    /// Runs `operation` on the values of the slots of `reqs`, which must all be lent out
    /// mutably; the values are handed over in a `Vec`, in the order of `reqs`.
    fn operate_many_mut<F>(&mut self, reqs: &Vec<(usize, usize)>, operation: F) -> (r: Result<(), AccessError>)
        where
            F: FnOnce(&mut Vec<T>) -> Result<(), AccessError>,
        requires
            old(self).wf(),
            old(self)@.holds_all(reqs@, true),
            forall|m: &mut Vec<T>| operation.requires((m,)),
            forall|m: &mut Vec<T>, res: Result<(), AccessError>|
                operation.ensures((m,), res) ==> final(m)@.len() == m@.len(),
        ensures
            final(self).wf(),
            old(self)@.evolves_to(final(self)@),
            exists|m: &mut Vec<T>|
                m@ == old(self)@.vals_of(reqs@) && operation.ensures((m,), r) && final(self)@
                    == old(self)@.set_vals(reqs@, final(m)@),
    {
        let ghost pre = *self;
        let ghost placeholder = PrisonCell::<T>::Free { prev: INVALID_IDX, next: INVALID_IDX };
        proof {
            lemma_holds_all_mut(pre@, reqs@);
        }
        let n = reqs.len();
        let mut vals: Vec<T> = Vec::new();
        let mut gens: Vec<usize> = Vec::new();
        let mut k: usize = 0;
        while k < n
            invariant
                n == reqs@.len(),
                k <= n,
                pre.wf(),
                placeholder == (PrisonCell::<T>::Free { prev: INVALID_IDX, next: INVALID_IDX }),
                distinct_idxs(reqs@),
                forall|j: int| 0 <= j < n ==> pre@.holds_ref(#[trigger] reqs@[j].0, true),
                vals@.len() == k,
                gens@.len() == k,
                forall|j: int|
                    0 <= j < k ==> vals@[j] == pre@.val(#[trigger] reqs@[j].0) && gens@[j]
                        == pre.vec@[reqs@[j].0 as int]->Cell_gen,
                self.vec@.len() == pre.vec@.len(),
                forall|j: int| 0 <= j < k ==> self.vec@[#[trigger] reqs@[j].0 as int] == placeholder,
                forall|i: int|
                    0 <= i < pre.vec@.len() && (forall|j: int| 0 <= j < k ==> reqs@[j].0 != i) ==> #[trigger] self.vec@[i] == pre.vec@[i],
                self.access_count == pre.access_count,
                self.generation == pre.generation,
                self.free_count == pre.free_count,
                self.next_free == pre.next_free,
                self.free@ == pre.free@,
            decreases n - k,
        {
            let (idx, _) = reqs[k];
            proof {
                assert(pre@.holds_ref(reqs@[k as int].0, true));
                assert forall|j: int| 0 <= j < k implies reqs@[j].0 != idx by {
                    assert(j != k);
                }
                assert(pre.vec@[idx as int] is Cell);
            }
            let mut slot = PrisonCell::Free { prev: INVALID_IDX, next: INVALID_IDX };
            self.vec.set_and_swap(idx, &mut slot);
            match slot {
                PrisonCell::Cell { gen, val, .. } => {
                    vals.push(val);
                    gens.push(gen);
                },
                PrisonCell::Free { .. } => {
                    proof {
                        assert(false);
                    }
                },
            }
            k = k + 1;
            proof {
                assert forall|j: int| 0 <= j < k implies self.vec@[#[trigger] reqs@[j].0 as int] == placeholder by {
                    if j < k - 1 {
                        assert(reqs@[j].0 != idx);
                    }
                }
                assert forall|i: int|
                    0 <= i < pre.vec@.len() && (forall|j: int| 0 <= j < k ==> reqs@[j].0 != i) implies #[trigger] self.vec@[i] == pre.vec@[i] by {
                    assert(reqs@[k - 1].0 != i);
                }
            }
        }
        let ghost before = vals@;
        proof {
            assert(before =~= pre@.vals_of(reqs@));
        }
        let r = operation(&mut vals);
        let ghost after = vals@;
        while k > 0
            invariant
                n == reqs@.len(),
                k <= n,
                pre.wf(),
                placeholder == (PrisonCell::<T>::Free { prev: INVALID_IDX, next: INVALID_IDX }),
                distinct_idxs(reqs@),
                forall|j: int| 0 <= j < n ==> pre@.holds_ref(#[trigger] reqs@[j].0, true),
                after.len() == n,
                vals@ == after.take(k as int),
                gens@.len() == n,
                forall|j: int| 0 <= j < n ==> gens@[j] == pre.vec@[#[trigger] reqs@[j].0 as int]->Cell_gen,
                self.vec@.len() == pre.vec@.len(),
                forall|j: int| 0 <= j < k ==> self.vec@[#[trigger] reqs@[j].0 as int] == placeholder,
                forall|j: int|
                    k <= j < n ==> self.vec@[#[trigger] reqs@[j].0 as int] == (PrisonCell::Cell {
                        refs: REFS_MUT,
                        gen: gens@[j],
                        val: after[j],
                    }),
                forall|i: int|
                    0 <= i < pre.vec@.len() && (forall|j: int| 0 <= j < n ==> reqs@[j].0 != i) ==> #[trigger] self.vec@[i] == pre.vec@[i],
                self.access_count == pre.access_count,
                self.generation == pre.generation,
                self.free_count == pre.free_count,
                self.next_free == pre.next_free,
                self.free@ == pre.free@,
            decreases k,
        {
            k = k - 1;
            let (idx, _) = reqs[k];
            let gen = gens[k];
            proof {
                assert(vals@.len() == k + 1);
            }
            match vals.pop() {
                Some(val) => {
                    self.vec.set(idx, PrisonCell::Cell { refs: REFS_MUT, gen, val });
                },
                None => {
                    proof {
                        assert(false);
                    }
                },
            }
            proof {
                assert(vals@ =~= after.take(k as int));
                assert forall|j: int| 0 <= j < k implies self.vec@[#[trigger] reqs@[j].0 as int] == placeholder by {
                    assert(reqs@[j].0 != idx);
                }
                assert forall|j: int|
                    k <= j < n implies self.vec@[#[trigger] reqs@[j].0 as int] == (PrisonCell::Cell {
                        refs: REFS_MUT,
                        gen: gens@[j],
                        val: after[j],
                    }) by {
                    if j != k {
                        assert(reqs@[j].0 != idx);
                    }
                }
            }
        }
        proof {
            assert forall|j: int| 0 <= j < n implies #[trigger] reqs@[j].0 < pre@.slots.len() && pre@.slots[reqs@[j].0 as int] is Occupied by {
                assert(pre@.holds_ref(reqs@[j].0, true));
            }
            lemma_set_vals_pointwise(pre@, reqs@, after);
            lemma_set_vals_inv(pre@, reqs@, after);
            let goal = pre@.set_vals(reqs@, after);
            assert forall|i: int| 0 <= i < pre.vec@.len() implies #[trigger] cell_view(self.vec@[i]) == goal.slots[i] by {
                if exists|j: int| 0 <= j < n && reqs@[j].0 == i {
                    let j = choose|j: int| 0 <= j < n && reqs@[j].0 == i;
                    assert(pre@.holds_ref(reqs@[j].0, true));
                    assert(self.vec@[reqs@[j].0 as int] == (PrisonCell::Cell { refs: REFS_MUT, gen: gens@[j], val: after[j] }));
                } else {
                    assert(self.vec@[i] == pre.vec@[i]);
                }
            }
            assert(self@.slots =~= goal.slots);
            assert forall|i: int| #[trigger] self@.gen_at(i) is Some && self@.gen_at(i)->0 < pre@.generation implies pre@.gen_at(i)
                == self@.gen_at(i) by {
                if exists|j: int| 0 <= j < n && reqs@[j].0 == i {
                    let j = choose|j: int| 0 <= j < n && reqs@[j].0 == i;
                    assert(pre@.holds_ref(reqs@[j].0, true));
                    assert(self.vec@[reqs@[j].0 as int] == (PrisonCell::Cell { refs: REFS_MUT, gen: gens@[j], val: after[j] }));
                } else {
                    assert(self.vec@[i] == pre.vec@[i]);
                }
            }
            assert forall|q: int| 0 <= q < self.free@.len() implies {
                &&& #[trigger] self.free@[q] < self.vec@.len()
                &&& self.vec@[self.free@[q] as int] matches PrisonCell::Free { prev, next } && prev
                    == free_prev(self.free@, q) && next == free_next(self.free@, q)
            } by {
                let f = self.free@[q] as int;
                assert(pre@.slots[f] is Vacant);
                assert forall|j: int| 0 <= j < n implies reqs@[j].0 != f by {
                    assert(pre@.holds_ref(reqs@[j].0, true));
                }
            }
        }
        r
    }
}

/// A value of a [`Prison`] lent out mutably; it stays lent out until
/// [`PrisonValueMut::unguard`] gives it back.
///
/// Dropping the guard does not give the value back: only `unguard` does.
pub struct PrisonValueMut {
    idx: usize,
}

/// A value of a [`Prison`] lent out immutably; it stays lent out until
/// [`PrisonValueRef::unguard`] gives it back.
///
/// Dropping the guard does not give the value back: only `unguard` does.
pub struct PrisonValueRef {
    idx: usize,
}

/// Several values of a [`Prison`] lent out mutably, in the order they were requested.
///
/// Dropping the guard does not give the value back: only `unguard` does.
pub struct PrisonSliceMut {
    reqs: Vec<(usize, usize)>,
}

/// Several values of a [`Prison`] lent out immutably, in the order they were requested.
///
/// Dropping the guard does not give the value back: only `unguard` does.
pub struct PrisonSliceRef {
    reqs: Vec<(usize, usize)>,
}

impl PrisonValueMut {
    /// The slot whose value is lent out.
    pub closed spec fn index(&self) -> usize {
        self.idx
    }
}

impl PrisonValueRef {
    /// The slot whose value is lent out.
    pub closed spec fn index(&self) -> usize {
        self.idx
    }
}

impl PrisonSliceMut {
    /// The requests (index, generation) the values were lent out for.
    pub closed spec fn requests(&self) -> Seq<(usize, usize)> {
        self.reqs@
    }
}

impl PrisonSliceRef {
    /// The requests (index, generation) the values were lent out for.
    pub closed spec fn requests(&self) -> Seq<(usize, usize)> {
        self.reqs@
    }
}

/// The requests made by a list of keys.
fn requests_from_keys(keys: &[CellKey]) -> (reqs: Vec<(usize, usize)>)
    ensures
        reqs@ == key_reqs(keys@),
{
    let mut reqs: Vec<(usize, usize)> = Vec::new();
    let mut i: usize = 0;
    while i < keys.len()
        invariant
            i <= keys@.len(),
            reqs@ == key_reqs(keys@.take(i as int)),
        decreases keys@.len() - i,
    {
        let key = keys[i];
        reqs.push((key.idx(), key.into_raw_parts().1));
        proof {
            assert(key_reqs(keys@.take(i + 1)) =~= key_reqs(keys@.take(i as int)).push(
                (keys@[i as int].spec_idx(), keys@[i as int].spec_gen()),
            ));
        }
        i = i + 1;
    }
    proof {
        assert(keys@.take(keys@.len() as int) =~= keys@);
    }
    reqs
}

/// The requests made by a list of plain indexes.
fn requests_from_idxs(idxs: &[usize]) -> (reqs: Vec<(usize, usize)>)
    ensures
        reqs@ == idx_reqs(idxs@),
{
    let mut reqs: Vec<(usize, usize)> = Vec::new();
    let mut i: usize = 0;
    while i < idxs.len()
        invariant
            i <= idxs@.len(),
            reqs@ == idx_reqs(idxs@.take(i as int)),
        decreases idxs@.len() - i,
    {
        reqs.push((idxs[i], 0));
        proof {
            assert(idx_reqs(idxs@.take(i + 1)) =~= idx_reqs(idxs@.take(i as int)).push((idxs@[i as int], 0usize)));
        }
        i = i + 1;
    }
    proof {
        assert(idxs@.take(idxs@.len() as int) =~= idxs@);
    }
    reqs
}

impl<T> Prison<T> {
    /// Whether slot `idx` could be lent out, without lending it out.
    fn ref_check(&self, idx: usize, gen: usize, use_gen: bool, mutable: bool) -> (r: Result<(), AccessError>)
        requires
            self.wf(),
        ensures
            r == match self@.ref_error(idx, gen, use_gen, mutable) {
                Some(e) => Err::<(), AccessError>(e),
                None => Ok(()),
            },
    {
        if idx >= self.vec.len() {
            return Err(AccessError::IndexOutOfRange(idx));
        }
        let (found, refs) = match &self.vec[idx] {
            PrisonCell::Cell { refs, gen: g, .. } => (!use_gen || *g == gen, *refs),
            PrisonCell::Free { .. } => (false, 0),
        };
        if !found {
            return Err(AccessError::ValueDeleted(idx, gen));
        }
        if refs == REFS_MUT {
            return Err(AccessError::ValueAlreadyMutablyReferenced(idx));
        }
        if mutable && refs > 0 {
            return Err(AccessError::ValueStillImmutablyReferenced(idx));
        }
        if !mutable && refs == REFS_MAX_IMMUT {
            return Err(AccessError::MaximumImmutableReferencesReached(idx));
        }
        Ok(())
    }

    /// Whether slot `idx` holds a value (of generation `gen` when `use_gen`).
    fn lookup_check(&self, idx: usize, gen: usize, use_gen: bool) -> (r: Result<(), AccessError>)
        requires
            self.wf(),
        ensures
            r == match self@.lookup_error(idx, gen, use_gen) {
                Some(e) => Err::<(), AccessError>(e),
                None => Ok(()),
            },
    {
        if idx >= self.vec.len() {
            return Err(AccessError::IndexOutOfRange(idx));
        }
        let found = match &self.vec[idx] {
            PrisonCell::Cell { gen: g, .. } => !use_gen || *g == gen,
            PrisonCell::Free { .. } => false,
        };
        if !found {
            return Err(AccessError::ValueDeleted(idx, gen));
        }
        Ok(())
    }

    /// The value in slot `idx`.
    fn value_at(&self, idx: usize) -> (v: &T)
        requires
            self.wf(),
            idx < self@.slots.len(),
            self@.slots[idx as int] is Occupied,
        ensures
            *v == self@.val(idx),
    {
        match &self.vec[idx] {
            PrisonCell::Cell { val, .. } => val,
            PrisonCell::Free { .. } => {
                proof {
                    assert(cell_view(self.vec@[idx as int]) is Occupied);
                }
                vstd::pervasive::unreached()
            },
        }
    }

    /// Replaces the value in slot `idx`, returning the previous one.
    fn replace_at(&mut self, idx: usize, value: T) -> (previous: T)
        requires
            old(self).wf(),
            idx < old(self)@.slots.len(),
            old(self)@.slots[idx as int] is Occupied,
        ensures
            final(self).wf(),
            previous == old(self)@.val(idx),
            final(self)@ == old(self)@.set_val(idx, value),
            old(self)@.evolves_to(final(self)@),
    {
        let ghost pre = *self;
        let mut slot = PrisonCell::Free { prev: INVALID_IDX, next: INVALID_IDX };
        self.vec.set_and_swap(idx, &mut slot);
        match slot {
            PrisonCell::Cell { refs, gen, val } => {
                self.vec.set(idx, PrisonCell::Cell { refs, gen, val: value });
                proof {
                    assert(self@.slots =~= pre@.set_val(idx, value).slots);
                    lemma_set_val_inv(pre@, idx, value);
                    lemma_set_val_evolves(pre@, idx, value);
                    assert forall|k: int| 0 <= k < self.free@.len() implies {
                        &&& #[trigger] self.free@[k] < self.vec@.len()
                        &&& self.vec@[self.free@[k] as int] matches PrisonCell::Free { prev, next }
                            && prev == free_prev(self.free@, k) && next == free_next(self.free@, k)
                    } by {
                        assert(pre@.slots[self.free@[k] as int] is Vacant);
                    }
                }
                val
            },
            PrisonCell::Free { .. } => {
                proof {
                    assert(cell_view(pre.vec@[idx as int]) is Occupied);
                }
                vstd::pervasive::unreached()
            },
        }
    }
}

impl<T> Prison<T> {
    /// Lends out every slot of `reqs` mutably, runs `operation` on their values and gives
    /// them back.
    fn visit_many_mut_reqs<F>(&mut self, reqs: &Vec<(usize, usize)>, use_gen: bool, operation: F) -> (r: Result<(), AccessError>)
        where
            F: FnOnce(&mut Vec<T>) -> Result<(), AccessError>,
        requires
            old(self).wf(),
            forall|m: &mut Vec<T>| operation.requires((m,)),
            forall|m: &mut Vec<T>, res: Result<(), AccessError>|
                operation.ensures((m,), res) ==> final(m)@.len() == m@.len(),
        ensures
            final(self).wf(),
            old(self)@.evolves_to(final(self)@),
            match old(self)@.many_ref_error(reqs@, use_gen, true) {
                Some(e) => r == Err::<(), AccessError>(e) && final(self)@ == old(self)@,
                None => exists|m: &mut Vec<T>|
                    m@ == old(self)@.vals_of(reqs@) && operation.ensures((m,), r) && final(self)@
                        == old(self)@.set_vals(reqs@, final(m)@),
            },
    {
        let ghost pre = self@;
        match self.add_many_refs(reqs, use_gen, true) {
            Err(e) => {
                return Err(e);
            },
            Ok(()) => {},
        }
        let ghost a = self@;
        proof {
            lemma_acquire_release_all(pre, reqs@, use_gen, true);
            lemma_acquire_all_keeps_vals(pre, reqs@, use_gen, true);
            assert forall|vals: Seq<T>|
                #![trigger a.set_vals(reqs@, vals)]
                a.set_vals(reqs@, vals).holds_all(reqs@, true) && a.set_vals(reqs@, vals).release_all(reqs@, true)
                    == pre.set_vals(reqs@, vals) by {
                assert forall|k: int|
                    0 <= k < reqs@.len() implies #[trigger] reqs@[k].0 < a.slots.len() && a.slots[reqs@[k].0 as int] is Occupied by {
                    assert(pre.slots[reqs@[k].0 as int] is Occupied);
                }
                lemma_release_all_set_vals(a, reqs@, reqs@, vals, true);
            }
        }
        let r = self.operate_many_mut(reqs, operation);
        let ghost b = self@;
        self.remove_many_refs(reqs, true);
        proof {
            lemma_evolves_trans(pre, a, b);
            lemma_evolves_trans(pre, b, self@);
        }
        r
    }

    /// Lends out every slot of `reqs` immutably, runs `operation` on their values and gives
    /// them back.
    fn visit_many_ref_reqs<F>(&mut self, reqs: &Vec<(usize, usize)>, use_gen: bool, operation: F) -> (r: Result<(), AccessError>)
        where
            F: FnOnce(&[&T]) -> Result<(), AccessError>,
        requires
            old(self).wf(),
            forall|s: &[&T]| operation.requires((s,)),
        ensures
            final(self).wf(),
            final(self)@ == old(self)@,
            match old(self)@.many_ref_error(reqs@, use_gen, false) {
                Some(e) => r == Err::<(), AccessError>(e),
                None => exists|s: &[&T]|
                    s@.len() == reqs@.len() && (forall|k: int|
                        0 <= k < reqs@.len() ==> *#[trigger] s@[k] == old(self)@.val(reqs@[k].0))
                        && operation.ensures((s,), r),
            },
    {
        let ghost pre = self@;
        match self.add_many_refs(reqs, use_gen, false) {
            Err(e) => {
                return Err(e);
            },
            Ok(()) => {},
        }
        let ghost a = self@;
        proof {
            lemma_acquire_release_all(pre, reqs@, use_gen, false);
            lemma_acquire_all_keeps_vals(pre, reqs@, use_gen, false);
        }
        let n = reqs.len();
        let mut vals: Vec<&T> = Vec::new();
        let mut k: usize = 0;
        while k < n
            invariant
                n == reqs@.len(),
                k <= n,
                self.wf(),
                self@ == a,
                forall|j: int|
                    0 <= j < n ==> #[trigger] reqs@[j].0 < pre.slots.len() && pre.slots[reqs@[j].0 as int] is Occupied,
                a.slots.len() == pre.slots.len(),
                forall|i: int|
                    0 <= i < pre.slots.len() ==> (#[trigger] a.slots[i] is Occupied) == (pre.slots[i] is Occupied),
                forall|i: usize| i < pre.slots.len() ==> #[trigger] a.val(i) == pre.val(i),
                vals@.len() == k,
                forall|j: int| 0 <= j < k ==> *#[trigger] vals@[j] == pre.val(reqs@[j].0),
            decreases n - k,
        {
            let (idx, _) = reqs[k];
            proof {
                assert(reqs@[k as int].0 < pre.slots.len());
                assert(a.slots[idx as int] is Occupied);
            }
            vals.push(self.value_at(idx));
            k = k + 1;
        }
        let r = operation(vals.as_slice());
        self.remove_many_refs(reqs, false);
        r
    }
}

impl<T> Prison<T> {
    /// Runs `operation` on a mutable reference to the value addressed by `key`, and returns what it returns.
    ///
    /// Refused, without running `operation`, when the value cannot be lent out mutably: it is
    /// out of range, gone, of another generation, or already referenced.
    pub fn visit_mut<F>(&mut self, key: CellKey, operation: F) -> (r: Result<(), AccessError>)
        where
            F: FnOnce(&mut T) -> Result<(), AccessError>,
        requires
            old(self).wf(),
            forall|x: &mut T| operation.requires((x,)),
        ensures
            final(self).wf(),
            old(self)@.evolves_to(final(self)@),
            match old(self)@.ref_error(key.spec_idx(), key.spec_gen(), true, true) {
                Some(e) => r == Err::<(), AccessError>(e) && final(self)@ == old(self)@,
                None => exists|m: &mut T|
                    *m == old(self)@.val(key.spec_idx()) && operation.ensures((m,), r) && final(self)@
                        == old(self)@.set_val(key.spec_idx(), *final(m)),
            },
    {
        match self.ref_check(key.idx, key.gen, true, true) {
            Err(e) => Err(e),
            Ok(()) => self.operate_mut(key.idx, operation),
        }
    }

    /// Runs `operation` on an immutable reference to the value addressed by `key`, and returns what it returns.
    ///
    /// Refused, without running `operation`, when the value cannot be lent out immutably: it
    /// is out of range, gone, of another generation, mutably referenced, or at the largest number of
    /// immutable references.
    ///
    /// The arena stays borrowed while `operation` runs, so nothing can lend the value out
    /// mutably meanwhile; the reference is therefore not added to the value's count.
    pub fn visit_ref<F>(&self, key: CellKey, operation: F) -> (r: Result<(), AccessError>)
        where
            F: FnOnce(&T) -> Result<(), AccessError>,
        requires
            self.wf(),
            forall|x: &T| operation.requires((x,)),
        ensures
            match self@.ref_error(key.spec_idx(), key.spec_gen(), true, false) {
                Some(e) => r == Err::<(), AccessError>(e),
                None => operation.ensures((&self@.val(key.spec_idx()),), r),
            },
    {
        match self.ref_check(key.idx, key.gen, true, false) {
            Err(e) => Err(e),
            Ok(()) => operation(self.value_at(key.idx)),
        }
    }

    /// Runs `operation` on a mutable reference to the value in slot `idx`, whatever its generation, and returns what it returns.
    ///
    /// Refused, without running `operation`, when the value cannot be lent out mutably: it is
    /// out of range, gone, or already referenced.
    pub fn visit_mut_idx<F>(&mut self, idx: usize, operation: F) -> (r: Result<(), AccessError>)
        where
            F: FnOnce(&mut T) -> Result<(), AccessError>,
        requires
            old(self).wf(),
            forall|x: &mut T| operation.requires((x,)),
        ensures
            final(self).wf(),
            old(self)@.evolves_to(final(self)@),
            match old(self)@.ref_error(idx, 0, false, true) {
                Some(e) => r == Err::<(), AccessError>(e) && final(self)@ == old(self)@,
                None => exists|m: &mut T|
                    *m == old(self)@.val(idx) && operation.ensures((m,), r) && final(self)@
                        == old(self)@.set_val(idx, *final(m)),
            },
    {
        match self.ref_check(idx, 0, false, true) {
            Err(e) => Err(e),
            Ok(()) => self.operate_mut(idx, operation),
        }
    }

    /// Runs `operation` on an immutable reference to the value in slot `idx`, whatever its generation, and returns what it returns.
    ///
    /// Refused, without running `operation`, when the value cannot be lent out immutably: it
    /// is out of range, gone, mutably referenced, or at the largest number of
    /// immutable references.
    ///
    /// The arena stays borrowed while `operation` runs, so nothing can lend the value out
    /// mutably meanwhile; the reference is therefore not added to the value's count.
    pub fn visit_ref_idx<F>(&self, idx: usize, operation: F) -> (r: Result<(), AccessError>)
        where
            F: FnOnce(&T) -> Result<(), AccessError>,
        requires
            self.wf(),
            forall|x: &T| operation.requires((x,)),
        ensures
            match self@.ref_error(idx, 0, false, false) {
                Some(e) => r == Err::<(), AccessError>(e),
                None => operation.ensures((&self@.val(idx),), r),
            },
    {
        match self.ref_check(idx, 0, false, false) {
            Err(e) => Err(e),
            Ok(()) => operation(self.value_at(idx)),
        }
    }

    /// Runs `operation` on the values addressed by `keys`, handed over mutably in a `Vec` in the order requested,
    /// and returns what it returns.
    ///
    /// The values are lent out one after the other; the first one that cannot be lent out
    /// mutably (a repeated slot among them) is refused, everything lent out so far is given
    /// back and `operation` does not run. `operation` must leave the length of the `Vec` as it
    /// found it.
    pub fn visit_many_mut<F>(&mut self, keys: &[CellKey], operation: F) -> (r: Result<(), AccessError>)
        where
            F: FnOnce(&mut Vec<T>) -> Result<(), AccessError>,
        requires
            old(self).wf(),
            forall|m: &mut Vec<T>| operation.requires((m,)),
            forall|m: &mut Vec<T>, res: Result<(), AccessError>|
                operation.ensures((m,), res) ==> final(m)@.len() == m@.len(),
        ensures
            final(self).wf(),
            old(self)@.evolves_to(final(self)@),
            match old(self)@.many_ref_error(key_reqs(keys@), true, true) {
                Some(e) => r == Err::<(), AccessError>(e) && final(self)@ == old(self)@,
                None => exists|m: &mut Vec<T>|
                    m@ == old(self)@.vals_of(key_reqs(keys@)) && operation.ensures((m,), r) && final(self)@
                        == old(self)@.set_vals(key_reqs(keys@), final(m)@),
            },
    {
        let reqs = requests_from_keys(keys);
        self.visit_many_mut_reqs(&reqs, true, operation)
    }

    /// Runs `operation` on immutable references to the values addressed by `keys`, in the order requested, and
    /// returns what it returns.
    ///
    /// The values are lent out one after the other (a slot may be repeated); the first one
    /// that cannot be lent out immutably is refused, everything lent out so far is given back
    /// and `operation` does not run. The arena ends as it began.
    pub fn visit_many_ref<F>(&mut self, keys: &[CellKey], operation: F) -> (r: Result<(), AccessError>)
        where
            F: FnOnce(&[&T]) -> Result<(), AccessError>,
        requires
            old(self).wf(),
            forall|s: &[&T]| operation.requires((s,)),
        ensures
            final(self).wf(),
            final(self)@ == old(self)@,
            match old(self)@.many_ref_error(key_reqs(keys@), true, false) {
                Some(e) => r == Err::<(), AccessError>(e),
                None => exists|s: &[&T]|
                    s@.len() == key_reqs(keys@).len() && (forall|k: int|
                        0 <= k < key_reqs(keys@).len() ==> *#[trigger] s@[k] == old(self)@.val(key_reqs(keys@)[k].0))
                        && operation.ensures((s,), r),
            },
    {
        let reqs = requests_from_keys(keys);
        self.visit_many_ref_reqs(&reqs, true, operation)
    }

    /// Runs `operation` on the values in the slots `indexes`, whatever their generations, handed over mutably in a `Vec` in the order requested,
    /// and returns what it returns.
    ///
    /// The values are lent out one after the other; the first one that cannot be lent out
    /// mutably (a repeated slot among them) is refused, everything lent out so far is given
    /// back and `operation` does not run. `operation` must leave the length of the `Vec` as it
    /// found it.
    pub fn visit_many_mut_idx<F>(&mut self, indexes: &[usize], operation: F) -> (r: Result<(), AccessError>)
        where
            F: FnOnce(&mut Vec<T>) -> Result<(), AccessError>,
        requires
            old(self).wf(),
            forall|m: &mut Vec<T>| operation.requires((m,)),
            forall|m: &mut Vec<T>, res: Result<(), AccessError>|
                operation.ensures((m,), res) ==> final(m)@.len() == m@.len(),
        ensures
            final(self).wf(),
            old(self)@.evolves_to(final(self)@),
            match old(self)@.many_ref_error(idx_reqs(indexes@), false, true) {
                Some(e) => r == Err::<(), AccessError>(e) && final(self)@ == old(self)@,
                None => exists|m: &mut Vec<T>|
                    m@ == old(self)@.vals_of(idx_reqs(indexes@)) && operation.ensures((m,), r) && final(self)@
                        == old(self)@.set_vals(idx_reqs(indexes@), final(m)@),
            },
    {
        let reqs = requests_from_idxs(indexes);
        self.visit_many_mut_reqs(&reqs, false, operation)
    }

    /// Runs `operation` on immutable references to the values in the slots `indexes`, whatever their generations, in the order requested, and
    /// returns what it returns.
    ///
    /// The values are lent out one after the other (a slot may be repeated); the first one
    /// that cannot be lent out immutably is refused, everything lent out so far is given back
    /// and `operation` does not run. The arena ends as it began.
    pub fn visit_many_ref_idx<F>(&mut self, indexes: &[usize], operation: F) -> (r: Result<(), AccessError>)
        where
            F: FnOnce(&[&T]) -> Result<(), AccessError>,
        requires
            old(self).wf(),
            forall|s: &[&T]| operation.requires((s,)),
        ensures
            final(self).wf(),
            final(self)@ == old(self)@,
            match old(self)@.many_ref_error(idx_reqs(indexes@), false, false) {
                Some(e) => r == Err::<(), AccessError>(e),
                None => exists|s: &[&T]|
                    s@.len() == idx_reqs(indexes@).len() && (forall|k: int|
                        0 <= k < idx_reqs(indexes@).len() ==> *#[trigger] s@[k] == old(self)@.val(idx_reqs(indexes@)[k].0))
                        && operation.ensures((s,), r),
            },
    {
        let reqs = requests_from_idxs(indexes);
        self.visit_many_ref_reqs(&reqs, false, operation)
    }

    /// Lends out the value addressed by `key` mutably until the returned guard is given back.
    pub fn guard_mut(&mut self, key: CellKey) -> (r: Result<PrisonValueMut, AccessError>)
        requires
            old(self).wf(),
        ensures
            final(self).wf(),
            old(self)@.evolves_to(final(self)@),
            match old(self)@.ref_error(key.spec_idx(), key.spec_gen(), true, true) {
                Some(e) => r == Err::<PrisonValueMut, AccessError>(e) && final(self)@ == old(self)@,
                None => r matches Ok(guard) && guard.index() == key.spec_idx() && final(self)@ == old(self)@.acquire(
                    key.spec_idx(),
                    true,
                ),
            },
    {
        match self.add_ref(key.idx, key.gen, true, true) {
            Err(e) => Err(e),
            Ok(()) => Ok(PrisonValueMut { idx: key.idx }),
        }
    }

    /// Lends out the value addressed by `key` immutably until the returned guard is given back.
    pub fn guard_ref(&mut self, key: CellKey) -> (r: Result<PrisonValueRef, AccessError>)
        requires
            old(self).wf(),
        ensures
            final(self).wf(),
            old(self)@.evolves_to(final(self)@),
            match old(self)@.ref_error(key.spec_idx(), key.spec_gen(), true, false) {
                Some(e) => r == Err::<PrisonValueRef, AccessError>(e) && final(self)@ == old(self)@,
                None => r matches Ok(guard) && guard.index() == key.spec_idx() && final(self)@ == old(self)@.acquire(
                    key.spec_idx(),
                    false,
                ),
            },
    {
        match self.add_ref(key.idx, key.gen, true, false) {
            Err(e) => Err(e),
            Ok(()) => Ok(PrisonValueRef { idx: key.idx }),
        }
    }

    /// Lends out the value in slot `idx`, whatever its generation mutably until the returned guard is given back.
    pub fn guard_mut_idx(&mut self, idx: usize) -> (r: Result<PrisonValueMut, AccessError>)
        requires
            old(self).wf(),
        ensures
            final(self).wf(),
            old(self)@.evolves_to(final(self)@),
            match old(self)@.ref_error(idx, 0, false, true) {
                Some(e) => r == Err::<PrisonValueMut, AccessError>(e) && final(self)@ == old(self)@,
                None => r matches Ok(guard) && guard.index() == idx && final(self)@ == old(self)@.acquire(
                    idx,
                    true,
                ),
            },
    {
        match self.add_ref(idx, 0, false, true) {
            Err(e) => Err(e),
            Ok(()) => Ok(PrisonValueMut { idx: idx }),
        }
    }

    /// Lends out the value in slot `idx`, whatever its generation immutably until the returned guard is given back.
    pub fn guard_ref_idx(&mut self, idx: usize) -> (r: Result<PrisonValueRef, AccessError>)
        requires
            old(self).wf(),
        ensures
            final(self).wf(),
            old(self)@.evolves_to(final(self)@),
            match old(self)@.ref_error(idx, 0, false, false) {
                Some(e) => r == Err::<PrisonValueRef, AccessError>(e) && final(self)@ == old(self)@,
                None => r matches Ok(guard) && guard.index() == idx && final(self)@ == old(self)@.acquire(
                    idx,
                    false,
                ),
            },
    {
        match self.add_ref(idx, 0, false, false) {
            Err(e) => Err(e),
            Ok(()) => Ok(PrisonValueRef { idx: idx }),
        }
    }

    /// Lends out the values addressed by `keys` mutably, in order, until the returned guard is given back.
    ///
    /// On the first value that cannot be lent out, everything lent out so far is given back.
    pub fn guard_many_mut(&mut self, keys: &[CellKey]) -> (r: Result<PrisonSliceMut, AccessError>)
        requires
            old(self).wf(),
        ensures
            final(self).wf(),
            old(self)@.evolves_to(final(self)@),
            match old(self)@.many_ref_error(key_reqs(keys@), true, true) {
                Some(e) => r == Err::<PrisonSliceMut, AccessError>(e) && final(self)@ == old(self)@,
                None => r matches Ok(guard) && guard.requests() == key_reqs(keys@) && final(self)@
                    == old(self)@.acquire_all(key_reqs(keys@), true),
            },
    {
        let reqs = requests_from_keys(keys);
        match self.add_many_refs(&reqs, true, true) {
            Err(e) => Err(e),
            Ok(()) => Ok(PrisonSliceMut { reqs }),
        }
    }

    /// Lends out the values addressed by `keys` immutably, in order, until the returned guard is given back.
    ///
    /// On the first value that cannot be lent out, everything lent out so far is given back.
    pub fn guard_many_ref(&mut self, keys: &[CellKey]) -> (r: Result<PrisonSliceRef, AccessError>)
        requires
            old(self).wf(),
        ensures
            final(self).wf(),
            old(self)@.evolves_to(final(self)@),
            match old(self)@.many_ref_error(key_reqs(keys@), true, false) {
                Some(e) => r == Err::<PrisonSliceRef, AccessError>(e) && final(self)@ == old(self)@,
                None => r matches Ok(guard) && guard.requests() == key_reqs(keys@) && final(self)@
                    == old(self)@.acquire_all(key_reqs(keys@), false),
            },
    {
        let reqs = requests_from_keys(keys);
        match self.add_many_refs(&reqs, true, false) {
            Err(e) => Err(e),
            Ok(()) => Ok(PrisonSliceRef { reqs }),
        }
    }

    /// Lends out the values in the slots `indexes`, whatever their generations mutably, in order, until the returned guard is given back.
    ///
    /// On the first value that cannot be lent out, everything lent out so far is given back.
    pub fn guard_many_mut_idx(&mut self, indexes: &[usize]) -> (r: Result<PrisonSliceMut, AccessError>)
        requires
            old(self).wf(),
        ensures
            final(self).wf(),
            old(self)@.evolves_to(final(self)@),
            match old(self)@.many_ref_error(idx_reqs(indexes@), false, true) {
                Some(e) => r == Err::<PrisonSliceMut, AccessError>(e) && final(self)@ == old(self)@,
                None => r matches Ok(guard) && guard.requests() == idx_reqs(indexes@) && final(self)@
                    == old(self)@.acquire_all(idx_reqs(indexes@), true),
            },
    {
        let reqs = requests_from_idxs(indexes);
        match self.add_many_refs(&reqs, false, true) {
            Err(e) => Err(e),
            Ok(()) => Ok(PrisonSliceMut { reqs }),
        }
    }

    /// Lends out the values in the slots `indexes`, whatever their generations immutably, in order, until the returned guard is given back.
    ///
    /// On the first value that cannot be lent out, everything lent out so far is given back.
    pub fn guard_many_ref_idx(&mut self, indexes: &[usize]) -> (r: Result<PrisonSliceRef, AccessError>)
        requires
            old(self).wf(),
        ensures
            final(self).wf(),
            old(self)@.evolves_to(final(self)@),
            match old(self)@.many_ref_error(idx_reqs(indexes@), false, false) {
                Some(e) => r == Err::<PrisonSliceRef, AccessError>(e) && final(self)@ == old(self)@,
                None => r matches Ok(guard) && guard.requests() == idx_reqs(indexes@) && final(self)@
                    == old(self)@.acquire_all(idx_reqs(indexes@), false),
            },
    {
        let reqs = requests_from_idxs(indexes);
        match self.add_many_refs(&reqs, false, false) {
            Err(e) => Err(e),
            Ok(()) => Ok(PrisonSliceRef { reqs }),
        }
    }
}

impl PrisonValueMut {
    /// The value lent out.
    pub fn value<'a, T>(&self, prison: &'a Prison<T>) -> (v: &'a T)
        requires
            prison.wf(),
            prison@.holds_ref(self.index(), true),
        ensures
            *v == prison@.val(self.index()),
    {
        prison.value_at(self.idx)
    }

    /// Replaces the value lent out with `value`, returning the previous one.
    pub fn replace<T>(&self, prison: &mut Prison<T>, value: T) -> (previous: T)
        requires
            old(prison).wf(),
            old(prison)@.holds_ref(self.index(), true),
        ensures
            final(prison).wf(),
            old(prison)@.evolves_to(final(prison)@),
            previous == old(prison)@.val(self.index()),
            final(prison)@ == old(prison)@.set_val(self.index(), value),
    {
        prison.replace_at(self.idx, value)
    }

    /// Gives the value back to `prison`: it is no longer referenced.
    pub fn unguard<T>(guard: Self, prison: &mut Prison<T>)
        requires
            old(prison).wf(),
            old(prison)@.holds_ref(guard.index(), true),
        ensures
            final(prison).wf(),
            old(prison)@.evolves_to(final(prison)@),
            final(prison)@ == old(prison)@.release(guard.index(), true),
    {
        prison.remove_ref(guard.idx, true);
    }
}

impl PrisonValueRef {
    /// The value lent out.
    pub fn value<'a, T>(&self, prison: &'a Prison<T>) -> (v: &'a T)
        requires
            prison.wf(),
            prison@.holds_ref(self.index(), false),
        ensures
            *v == prison@.val(self.index()),
    {
        prison.value_at(self.idx)
    }

    /// Gives one immutable reference back to `prison`.
    pub fn unguard<T>(guard: Self, prison: &mut Prison<T>)
        requires
            old(prison).wf(),
            old(prison)@.holds_ref(guard.index(), false),
        ensures
            final(prison).wf(),
            old(prison)@.evolves_to(final(prison)@),
            final(prison)@ == old(prison)@.release(guard.index(), false),
    {
        prison.remove_ref(guard.idx, false);
    }
}

impl PrisonSliceMut {
    /// The number of values lent out.
    pub fn len(&self) -> (n: usize)
        ensures
            n == self.requests().len(),
    {
        self.reqs.len()
    }

    /// The `i`-th value lent out.
    pub fn value<'a, T>(&self, i: usize, prison: &'a Prison<T>) -> (v: &'a T)
        requires
            prison.wf(),
            i < self.requests().len(),
            prison@.holds_ref(self.requests()[i as int].0, true),
        ensures
            *v == prison@.val(self.requests()[i as int].0),
    {
        prison.value_at(self.reqs[i].0)
    }

    /// Replaces the `i`-th value lent out with `value`, returning the previous one.
    pub fn replace<T>(&self, i: usize, prison: &mut Prison<T>, value: T) -> (previous: T)
        requires
            old(prison).wf(),
            i < self.requests().len(),
            old(prison)@.holds_ref(self.requests()[i as int].0, true),
        ensures
            final(prison).wf(),
            old(prison)@.evolves_to(final(prison)@),
            previous == old(prison)@.val(self.requests()[i as int].0),
            final(prison)@ == old(prison)@.set_val(self.requests()[i as int].0, value),
    {
        prison.replace_at(self.reqs[i].0, value)
    }

    /// Gives every value back to `prison`.
    pub fn unguard<T>(guard: Self, prison: &mut Prison<T>)
        requires
            old(prison).wf(),
            old(prison)@.holds_all(guard.requests(), true),
        ensures
            final(prison).wf(),
            old(prison)@.evolves_to(final(prison)@),
            final(prison)@ == old(prison)@.release_all(guard.requests(), true),
    {
        prison.remove_many_refs(&guard.reqs, true);
    }
}

impl PrisonSliceRef {
    /// The number of values lent out.
    pub fn len(&self) -> (n: usize)
        ensures
            n == self.requests().len(),
    {
        self.reqs.len()
    }

    /// The `i`-th value lent out.
    pub fn value<'a, T>(&self, i: usize, prison: &'a Prison<T>) -> (v: &'a T)
        requires
            prison.wf(),
            i < self.requests().len(),
            prison@.holds_ref(self.requests()[i as int].0, false),
        ensures
            *v == prison@.val(self.requests()[i as int].0),
    {
        prison.value_at(self.reqs[i].0)
    }

    /// Gives one immutable reference to every value back to `prison`.
    pub fn unguard<T>(guard: Self, prison: &mut Prison<T>)
        requires
            old(prison).wf(),
            old(prison)@.holds_all(guard.requests(), false),
        ensures
            final(prison).wf(),
            old(prison)@.evolves_to(final(prison)@),
            final(prison)@ == old(prison)@.release_all(guard.requests(), false),
    {
        prison.remove_many_refs(&guard.reqs, false);
    }
}

/// Where a range of slot indexes starts.
///
/// Calls `RangeBounds::start_bound` and converts the `Bound` it returns, variant by variant.
/// Nothing is claimed of the result: it is whatever the range's own impl of the trait returns.
#[verifier::external_body]
fn range_start<R: RangeBounds<usize>>(range: &R) -> SliceBound {
    match range.start_bound() {
        Bound::Included(x) => SliceBound::Included(*x),
        Bound::Excluded(x) => SliceBound::Excluded(*x),
        Bound::Unbounded => SliceBound::Unbounded,
    }
}

/// Where a range of slot indexes ends.
///
/// Calls `RangeBounds::end_bound` and converts the `Bound` it returns, variant by variant.
/// Nothing is claimed of the result: it is whatever the range's own impl of the trait returns.
#[verifier::external_body]
fn range_end<R: RangeBounds<usize>>(range: &R) -> SliceBound {
    match range.end_bound() {
        Bound::Included(x) => SliceBound::Included(*x),
        Bound::Excluded(x) => SliceBound::Excluded(*x),
        Bound::Unbounded => SliceBound::Unbounded,
    }
}

/// The requests of the range from `start` to `end`, cut short just after the first index that
/// is out of range for an arena of `len` slots (every request after it would fail anyway).
fn slice_requests(start: SliceBound, end: SliceBound, len: usize) -> (reqs: Vec<(usize, usize)>)
    ensures
        reqs@.len() <= bounds_reqs(start, end, len as nat).len(),
        reqs@ == bounds_reqs(start, end, len as nat).take(reqs@.len() as int),
        reqs@.len() < bounds_reqs(start, end, len as nat).len() ==> reqs@.len() > 0 && reqs@[reqs@.len()
            - 1].0 >= len,
{
    let s: u128 = match start {
        SliceBound::Included(x) => x as u128,
        SliceBound::Excluded(x) => x as u128 + 1,
        SliceBound::Unbounded => 0,
    };
    let e: u128 = match end {
        SliceBound::Included(x) => x as u128 + 1,
        SliceBound::Excluded(x) => x as u128,
        SliceBound::Unbounded => len as u128,
    };
    let top: u128 = if s > len as u128 { s } else { len as u128 };
    let stop: u128 = if e < top + 1 { e } else { top + 1 };
    let ghost full = bounds_reqs(start, end, len as nat);
    proof {
        assert(full =~= range_reqs(s as int, e as int));
    }
    let mut reqs: Vec<(usize, usize)> = Vec::new();
    let mut i: u128 = s;
    while i < stop
        invariant
            s <= i,
            i <= stop || stop <= s,
            stop <= e,
            e <= usize::MAX + 1,
            full == range_reqs(s as int, e as int),
            reqs@ == full.take(i - s),
            i - s <= full.len(),
        decreases stop - i,
    {
        reqs.push((i as usize, 0));
        proof {
            assert(full.take(i - s + 1) =~= full.take(i - s).push(((i as int) as usize, 0usize)));
        }
        i = i + 1;
    }
    proof {
        if stop <= s {
            assert(reqs@ =~= full.take(0));
        }
    }
    reqs
}

impl<T> Prison<T> {
    /// The value in slot `idx` looked up by plain index or by key, without lending it out.
    fn peek_checked(&self, idx: usize, gen: usize, use_gen: bool) -> (r: Result<&T, AccessError>)
        requires
            self.wf(),
        ensures
            match self@.lookup_error(idx, gen, use_gen) {
                Some(e) => r == Err::<&T, AccessError>(e),
                None => r matches Ok(v) && *v == self@.val(idx),
            },
    {
        match self.lookup_check(idx, gen, use_gen) {
            Err(e) => Err(e),
            Ok(()) => Ok(self.value_at(idx)),
        }
    }

    /// Returns a reference to the value addressed by `key`, whether or not it is lent out.
    ///
    /// Refused when the key is out of range or its value is gone or of another generation.
    pub fn peek_ref(&self, key: CellKey) -> (r: Result<&T, AccessError>)
        requires
            self.wf(),
        ensures
            match self@.lookup_error(key.spec_idx(), key.spec_gen(), true) {
                Some(e) => r == Err::<&T, AccessError>(e),
                None => r matches Ok(v) && *v == self@.val(key.spec_idx()),
            },
    {
        self.peek_checked(key.idx, key.gen, true)
    }

    /// Returns a reference to the value in slot `idx`, whether or not it is lent out.
    ///
    /// Refused when `idx` is out of range or the slot is free.
    pub fn peek_ref_idx(&self, idx: usize) -> (r: Result<&T, AccessError>)
        requires
            self.wf(),
        ensures
            match self@.lookup_error(idx, 0, false) {
                Some(e) => r == Err::<&T, AccessError>(e),
                None => r matches Ok(v) && *v == self@.val(idx),
            },
    {
        self.peek_checked(idx, 0, false)
    }

    /// Returns a clone of the value addressed by `key`, whether or not it is lent out.
    ///
    /// Refused when the key is out of range or its value is gone or of another generation.
    pub fn clone_val(&self, key: CellKey) -> (r: Result<T, AccessError>)
        where
            T: Clone,
        requires
            self.wf(),
        ensures
            match self@.lookup_error(key.spec_idx(), key.spec_gen(), true) {
                Some(e) => r == Err::<T, AccessError>(e),
                None => r matches Ok(c) && cloned(self@.val(key.spec_idx()), c),
            },
    {
        match self.peek_checked(key.idx, key.gen, true) {
            Err(e) => Err(e),
            Ok(v) => Ok(v.clone()),
        }
    }

    /// Returns a clone of the value in slot `idx`, whether or not it is lent out.
    ///
    /// Refused when `idx` is out of range or the slot is free.
    pub fn clone_val_idx(&self, idx: usize) -> (r: Result<T, AccessError>)
        where
            T: Clone,
        requires
            self.wf(),
        ensures
            match self@.lookup_error(idx, 0, false) {
                Some(e) => r == Err::<T, AccessError>(e),
                None => r matches Ok(c) && cloned(self@.val(idx), c),
            },
    {
        match self.peek_checked(idx, 0, false) {
            Err(e) => Err(e),
            Ok(v) => Ok(v.clone()),
        }
    }

    /// Clones the values of the slots of `reqs`, in order, stopping at the first that cannot
    /// be looked up.
    fn clone_many_reqs(&self, reqs: &Vec<(usize, usize)>, use_gen: bool) -> (r: Result<Vec<T>, AccessError>)
        where
            T: Clone,
        requires
            self.wf(),
        ensures
            match self@.many_lookup_error(reqs@, use_gen) {
                Some(e) => r == Err::<Vec<T>, AccessError>(e),
                None => r matches Ok(vals) && vals@.len() == reqs@.len() && forall|k: int|
                    0 <= k < reqs@.len() ==> cloned(self@.val(reqs@[k].0), #[trigger] vals@[k]),
            },
    {
        let n = reqs.len();
        let mut vals: Vec<T> = Vec::with_capacity(n);
        let mut i: usize = 0;
        while i < n
            invariant
                self.wf(),
                n == reqs@.len(),
                i <= n,
                self@.many_lookup_error(reqs@.take(i as int), use_gen) is None,
                vals@.len() == i,
                forall|k: int| 0 <= k < i ==> cloned(self@.val(reqs@[k].0), #[trigger] vals@[k]),
            decreases n - i,
        {
            let (idx, gen) = reqs[i];
            proof {
                assert(reqs@.take(i + 1).drop_last() =~= reqs@.take(i as int));
            }
            match self.peek_checked(idx, gen, use_gen) {
                Err(e) => {
                    proof {
                        lemma_many_lookup_prefix(self@, reqs@, i + 1, use_gen);
                    }
                    return Err(e);
                },
                Ok(v) => {
                    vals.push(v.clone());
                },
            }
            i = i + 1;
        }
        proof {
            assert(reqs@.take(n as int) =~= reqs@);
        }
        Ok(vals)
    }

    /// Returns clones of the values addressed by `keys`, in order.
    ///
    /// Refused with the error of the first key that is out of range or whose value is gone or
    /// of another generation.
    pub fn clone_many_vals(&self, keys: &[CellKey]) -> (r: Result<Vec<T>, AccessError>)
        where
            T: Clone,
        requires
            self.wf(),
        ensures
            match self@.many_lookup_error(key_reqs(keys@), true) {
                Some(e) => r == Err::<Vec<T>, AccessError>(e),
                None => r matches Ok(vals) && vals@.len() == keys@.len() && forall|k: int|
                    0 <= k < keys@.len() ==> cloned(
                        self@.val(keys@[k].spec_idx()),
                        #[trigger] vals@[k],
                    ),
            },
    {
        let reqs = requests_from_keys(keys);
        self.clone_many_reqs(&reqs, true)
    }

    /// Returns clones of the values in the slots `indexes`, in order.
    ///
    /// Refused with the error of the first index that is out of range or names a free slot.
    pub fn clone_many_vals_idx(&self, indexes: &[usize]) -> (r: Result<Vec<T>, AccessError>)
        where
            T: Clone,
        requires
            self.wf(),
        ensures
            match self@.many_lookup_error(idx_reqs(indexes@), false) {
                Some(e) => r == Err::<Vec<T>, AccessError>(e),
                None => r matches Ok(vals) && vals@.len() == indexes@.len() && forall|k: int|
                    0 <= k < indexes@.len() ==> cloned(self@.val(indexes@[k]), #[trigger] vals@[k]),
            },
    {
        let reqs = requests_from_idxs(indexes);
        self.clone_many_reqs(&reqs, false)
    }
}

impl<T> Prison<T> {
    /// Runs `operation` on the values in the slots from `start` to `end`, handed over mutably in
    /// a `Vec` in index order, as [`Prison::visit_many_mut_idx`] does with those indexes; an
    /// unbounded end stops at the length of the `Vec`.
    pub fn visit_bounds_mut<F>(&mut self, start: SliceBound, end: SliceBound, operation: F) -> (r: Result<(), AccessError>)
        where
            F: FnOnce(&mut Vec<T>) -> Result<(), AccessError>,
        requires
            old(self).wf(),
            forall|m: &mut Vec<T>| operation.requires((m,)),
            forall|m: &mut Vec<T>, res: Result<(), AccessError>|
                operation.ensures((m,), res) ==> final(m)@.len() == m@.len(),
        ensures
            final(self).wf(),
            old(self)@.evolves_to(final(self)@),
            match old(self)@.many_ref_error(idx_reqs(bounds_indexes(start, end, old(self)@.slots.len())), false, true) {
                Some(e) => r == Err::<(), AccessError>(e) && final(self)@ == old(self)@,
                None => exists|m: &mut Vec<T>|
                    m@ == old(self)@.vals_of(idx_reqs(bounds_indexes(start, end, old(self)@.slots.len()))) && operation.ensures((m,), r) && final(self)@
                        == old(self)@.set_vals(idx_reqs(bounds_indexes(start, end, old(self)@.slots.len())), final(m)@),
            },
    {
        proof {
            lemma_range_is_its_indexes(start, end, self@.slots.len());
        }
        let ghost pre = self@;
        let reqs = slice_requests(start, end, self.vec.len());
        proof {
            let full = bounds_reqs(start, end, pre.slots.len());
            if reqs@.len() < full.len() {
                lemma_many_error_out_of_range(pre, full, reqs@.len() as int, false, true);
            } else {
                assert(reqs@ =~= full);
            }
        }
        self.visit_many_mut_reqs(&reqs, false, operation)
    }

    /// Runs `operation` on the values in the slots of `range`, lent out mutably in order, as
    /// the plain-index many-visit does with the indexes of the range, and returns what it
    /// returns.
    ///
    /// The ends of the range are whatever its `RangeBounds` impl reports; an unbounded end
    /// stops at the length of the `Vec`.
    pub fn visit_slice_mut<R, F>(&mut self, range: R, operation: F) -> (r: Result<(), AccessError>)
        where
            R: RangeBounds<usize>,
            F: FnOnce(&mut Vec<T>) -> Result<(), AccessError>,
        requires
            old(self).wf(),
            forall|m: &mut Vec<T>| operation.requires((m,)),
            forall|m: &mut Vec<T>, res: Result<(), AccessError>|
                operation.ensures((m,), res) ==> final(m)@.len() == m@.len(),
        ensures
            final(self).wf(),
            old(self)@.evolves_to(final(self)@),
            exists|start: SliceBound, end: SliceBound|
                #![trigger idx_reqs(bounds_indexes(start, end, old(self)@.slots.len()))]
                match old(self)@.many_ref_error(idx_reqs(bounds_indexes(start, end, old(self)@.slots.len())), false, true) {
                Some(e) => r == Err::<(), AccessError>(e) && final(self)@ == old(self)@,
                None => exists|m: &mut Vec<T>|
                    m@ == old(self)@.vals_of(idx_reqs(bounds_indexes(start, end, old(self)@.slots.len()))) && operation.ensures((m,), r) && final(self)@
                        == old(self)@.set_vals(idx_reqs(bounds_indexes(start, end, old(self)@.slots.len())), final(m)@),
            },
    {
        let start = range_start(&range);
        let end = range_end(&range);
        self.visit_bounds_mut(start, end, operation)
    }

    /// Lends out the values in the slots from `start` to `end` mutably, in index order, as
    /// [`Prison::guard_many_mut_idx`] does with those indexes; an unbounded end stops at the
    /// length of the `Vec`.
    pub fn guard_bounds_mut(&mut self, start: SliceBound, end: SliceBound) -> (r: Result<PrisonSliceMut, AccessError>)
        requires
            old(self).wf(),
        ensures
            final(self).wf(),
            old(self)@.evolves_to(final(self)@),
            match old(self)@.many_ref_error(idx_reqs(bounds_indexes(start, end, old(self)@.slots.len())), false, true) {
                Some(e) => r == Err::<PrisonSliceMut, AccessError>(e) && final(self)@ == old(self)@,
                None => r matches Ok(guard) && guard.requests() == idx_reqs(bounds_indexes(start, end, old(self)@.slots.len())) && final(self)@
                    == old(self)@.acquire_all(idx_reqs(bounds_indexes(start, end, old(self)@.slots.len())), true),
            },
    {
        proof {
            lemma_range_is_its_indexes(start, end, self@.slots.len());
        }
        let ghost pre = self@;
        let reqs = slice_requests(start, end, self.vec.len());
        proof {
            let full = bounds_reqs(start, end, pre.slots.len());
            if reqs@.len() < full.len() {
                lemma_many_error_out_of_range(pre, full, reqs@.len() as int, false, true);
            } else {
                assert(reqs@ =~= full);
            }
        }
        match self.add_many_refs(&reqs, false, true) {
            Err(e) => Err(e),
            Ok(()) => Ok(PrisonSliceMut { reqs }),
        }
    }

    /// Lends out the values in the slots of `range` mutably, in order, as the plain-index
    /// many-guard does with the indexes of the range.
    pub fn guard_slice_mut<R>(&mut self, range: R) -> (r: Result<PrisonSliceMut, AccessError>)
        where
            R: RangeBounds<usize>,
        requires
            old(self).wf(),
        ensures
            final(self).wf(),
            old(self)@.evolves_to(final(self)@),
            exists|start: SliceBound, end: SliceBound|
                #![trigger idx_reqs(bounds_indexes(start, end, old(self)@.slots.len()))]
                match old(self)@.many_ref_error(idx_reqs(bounds_indexes(start, end, old(self)@.slots.len())), false, true) {
                    Some(e) => r == Err::<PrisonSliceMut, AccessError>(e) && final(self)@ == old(self)@,
                    None => r matches Ok(guard) && guard.requests() == idx_reqs(bounds_indexes(start, end, old(self)@.slots.len())) && final(self)@
                        == old(self)@.acquire_all(idx_reqs(bounds_indexes(start, end, old(self)@.slots.len())), true),
                },
    {
        let start = range_start(&range);
        let end = range_end(&range);
        self.guard_bounds_mut(start, end)
    }

    /// Runs `operation` on immutable references to the values in the slots from `start` to
    /// `end`, in index order, as [`Prison::visit_many_ref_idx`] does with those indexes; an
    /// unbounded end stops at the length of the `Vec`.
    pub fn visit_bounds_ref<F>(&mut self, start: SliceBound, end: SliceBound, operation: F) -> (r: Result<(), AccessError>)
        where
            F: FnOnce(&[&T]) -> Result<(), AccessError>,
        requires
            old(self).wf(),
            forall|s: &[&T]| operation.requires((s,)),
        ensures
            final(self).wf(),
            final(self)@ == old(self)@,
            match old(self)@.many_ref_error(idx_reqs(bounds_indexes(start, end, old(self)@.slots.len())), false, false) {
                Some(e) => r == Err::<(), AccessError>(e),
                None => exists|s: &[&T]|
                    s@.len() == idx_reqs(bounds_indexes(start, end, old(self)@.slots.len())).len() && (forall|k: int|
                        0 <= k < idx_reqs(bounds_indexes(start, end, old(self)@.slots.len())).len() ==> *#[trigger] s@[k] == old(self)@.val(idx_reqs(bounds_indexes(start, end, old(self)@.slots.len()))[k].0))
                        && operation.ensures((s,), r),
            },
    {
        proof {
            lemma_range_is_its_indexes(start, end, self@.slots.len());
        }
        let ghost pre = self@;
        let reqs = slice_requests(start, end, self.vec.len());
        proof {
            let full = bounds_reqs(start, end, pre.slots.len());
            if reqs@.len() < full.len() {
                lemma_many_error_out_of_range(pre, full, reqs@.len() as int, false, false);
            } else {
                assert(reqs@ =~= full);
            }
        }
        self.visit_many_ref_reqs(&reqs, false, operation)
    }

    /// Runs `operation` on the values in the slots of `range`, lent out immutably in order, as
    /// the plain-index many-visit does with the indexes of the range, and returns what it
    /// returns.
    ///
    /// The ends of the range are whatever its `RangeBounds` impl reports; an unbounded end
    /// stops at the length of the `Vec`.
    pub fn visit_slice_ref<R, F>(&mut self, range: R, operation: F) -> (r: Result<(), AccessError>)
        where
            R: RangeBounds<usize>,
            F: FnOnce(&[&T]) -> Result<(), AccessError>,
        requires
            old(self).wf(),
            forall|s: &[&T]| operation.requires((s,)),
        ensures
            final(self).wf(),
            final(self)@ == old(self)@,
            exists|start: SliceBound, end: SliceBound|
                #![trigger idx_reqs(bounds_indexes(start, end, old(self)@.slots.len()))]
                match old(self)@.many_ref_error(idx_reqs(bounds_indexes(start, end, old(self)@.slots.len())), false, false) {
                Some(e) => r == Err::<(), AccessError>(e),
                None => exists|s: &[&T]|
                    s@.len() == idx_reqs(bounds_indexes(start, end, old(self)@.slots.len())).len() && (forall|k: int|
                        0 <= k < idx_reqs(bounds_indexes(start, end, old(self)@.slots.len())).len() ==> *#[trigger] s@[k] == old(self)@.val(idx_reqs(bounds_indexes(start, end, old(self)@.slots.len()))[k].0))
                        && operation.ensures((s,), r),
            },
    {
        let start = range_start(&range);
        let end = range_end(&range);
        self.visit_bounds_ref(start, end, operation)
    }

    /// Lends out the values in the slots from `start` to `end` immutably, in index order, as
    /// [`Prison::guard_many_ref_idx`] does with those indexes; an unbounded end stops at the
    /// length of the `Vec`.
    pub fn guard_bounds_ref(&mut self, start: SliceBound, end: SliceBound) -> (r: Result<PrisonSliceRef, AccessError>)
        requires
            old(self).wf(),
        ensures
            final(self).wf(),
            old(self)@.evolves_to(final(self)@),
            match old(self)@.many_ref_error(idx_reqs(bounds_indexes(start, end, old(self)@.slots.len())), false, false) {
                Some(e) => r == Err::<PrisonSliceRef, AccessError>(e) && final(self)@ == old(self)@,
                None => r matches Ok(guard) && guard.requests() == idx_reqs(bounds_indexes(start, end, old(self)@.slots.len())) && final(self)@
                    == old(self)@.acquire_all(idx_reqs(bounds_indexes(start, end, old(self)@.slots.len())), false),
            },
    {
        proof {
            lemma_range_is_its_indexes(start, end, self@.slots.len());
        }
        let ghost pre = self@;
        let reqs = slice_requests(start, end, self.vec.len());
        proof {
            let full = bounds_reqs(start, end, pre.slots.len());
            if reqs@.len() < full.len() {
                lemma_many_error_out_of_range(pre, full, reqs@.len() as int, false, false);
            } else {
                assert(reqs@ =~= full);
            }
        }
        match self.add_many_refs(&reqs, false, false) {
            Err(e) => Err(e),
            Ok(()) => Ok(PrisonSliceRef { reqs }),
        }
    }

    /// Lends out the values in the slots of `range` immutably, in order, as the plain-index
    /// many-guard does with the indexes of the range.
    pub fn guard_slice_ref<R>(&mut self, range: R) -> (r: Result<PrisonSliceRef, AccessError>)
        where
            R: RangeBounds<usize>,
        requires
            old(self).wf(),
        ensures
            final(self).wf(),
            old(self)@.evolves_to(final(self)@),
            exists|start: SliceBound, end: SliceBound|
                #![trigger idx_reqs(bounds_indexes(start, end, old(self)@.slots.len()))]
                match old(self)@.many_ref_error(idx_reqs(bounds_indexes(start, end, old(self)@.slots.len())), false, false) {
                    Some(e) => r == Err::<PrisonSliceRef, AccessError>(e) && final(self)@ == old(self)@,
                    None => r matches Ok(guard) && guard.requests() == idx_reqs(bounds_indexes(start, end, old(self)@.slots.len())) && final(self)@
                        == old(self)@.acquire_all(idx_reqs(bounds_indexes(start, end, old(self)@.slots.len())), false),
                },
    {
        let start = range_start(&range);
        let end = range_end(&range);
        self.guard_bounds_ref(start, end)
    }

    /// The bookkeeping of slot `idx`: its reference count and generation when it holds a
    /// value, its neighbours in the free list when it is free, `None` when it is out of range.
    pub fn cell_state(&self, idx: usize) -> (r: Option<CellState>)
        requires
            self.wf(),
        ensures
            r == self@.cell_state(idx),
    {
        if idx >= self.vec.len() {
            return None;
        }
        proof {
            if self@.slots[idx as int] is Vacant {
                let k = self.free@.index_of(idx);
                assert(self.free@.contains(idx));
                assert(self.free@[k] == idx);
            }
        }
        match &self.vec[idx] {
            PrisonCell::Cell { refs, gen, .. } => Some(CellState::Occupied { refs: *refs, gen: *gen }),
            PrisonCell::Free { prev, next } => Some(CellState::Free { prev: *prev, next: *next }),
        }
    }

    /// The counters of the arena.
    pub fn status(&self) -> (s: PrisonStatus)
        requires
            self.wf(),
        ensures
            s == (PrisonStatus {
                access_count: self@.access_count,
                generation: self@.generation,
                next_free: free_top(self@.free),
                free_count: self@.free.len() as usize,
                vec_len: self@.slots.len() as usize,
            }),
    {
        PrisonStatus {
            access_count: self.access_count,
            generation: self.generation,
            next_free: self.next_free,
            free_count: self.free_count,
            vec_len: self.vec.len(),
        }
    }

    /// The number of slots that hold a value.
    pub fn num_used(&self) -> (n: usize)
        requires
            self.wf(),
        ensures
            n == count_occupied(self@.slots),
            n == self@.slots.len() - self@.free.len(),
    {
        self.vec.len() - self.free_count
    }

    /// The number of values that can be added without the `Vec` growing: the free slots and
    /// the room left in the `Vec`'s capacity.
    pub fn num_free(&self) -> (n: usize)
        requires
            self.wf(),
        ensures
            n >= self@.free.len(),
            n - self@.free.len() + self@.slots.len() <= usize::MAX,
    {
        let cap = vec_capacity(&self.vec);
        self.num_free_with_capacity(cap)
    }

    /// The number of values that can be added without the `Vec` growing when its capacity is
    /// `cap`: the free slots and the room left between the length and `cap`. Together with
    /// the slots in use it makes up the whole capacity.
    pub fn num_free_with_capacity(&self, cap: usize) -> (n: usize)
        requires
            self.wf(),
            cap >= self@.slots.len(),
        ensures
            n == self@.free.len() + (cap - self@.slots.len()),
            n + (self@.slots.len() - self@.free.len()) == cap,
            n + count_occupied(self@.slots) == cap,
    {
        self.free_count + (cap - self.vec.len())
    }
}

impl<T> Default for Prison<T> {
    fn default() -> (prison: Self)
        ensures
            prison.wf(),
            prison@.slots == Seq::<SlotView<T>>::empty(),
            prison@.free == Seq::<usize>::empty(),
            prison@.generation == 0,
            prison@.access_count == 0,
    {
        Prison::new()
    }
}

} // verus!
