//! The mathematical model of a `Prison` and the facts proved about it.
use vstd::prelude::*;

use crate::{AccessError, CellKey};

verus! {
/// The largest number of slots the underlying `Vec` may hold.
pub const MAX_CAP: usize = usize::MAX / 2;

/// The index value that stands for "no index" in the links of the free list.
pub const INVALID_IDX: usize = usize::MAX / 2;

/// The largest generation a value can be issued with.
pub const MAX_GEN: usize = usize::MAX / 2;

/// The reference count of a value that is lent out mutably.
pub const REFS_MUT: usize = usize::MAX;

/// The largest number of simultaneous immutable references to one value.
pub const REFS_MAX_IMMUT: usize = usize::MAX - 1;

/// What one slot of a [`Prison`] holds, as contracts see it.
pub enum SlotView<T> {
    /// A live value with its reference count and generation.
    Occupied { refs: usize, gen: usize, val: T },
    /// A free slot; its place in the free list is recorded in [`PrisonView::free`].
    Vacant,
}

/// The mathematical model of a [`Prison`].
pub struct PrisonView<T> {
    /// One entry per slot of the underlying `Vec`.
    pub slots: Seq<SlotView<T>>,
    /// The free slots, most recently freed first: the next plain insert fills `free[0]`.
    pub free: Seq<usize>,
    /// The generation given to newly inserted values.
    pub generation: usize,
    /// The number of slots that are currently referenced.
    pub access_count: usize,
}

/// What the bookkeeping of one slot says, as [`crate::single_threaded::Prison::cell_state`] reports it.
#[derive(Debug, Clone, Copy, PartialEq, Eq, Structural)]
pub enum CellState {
    /// The slot holds a value with this reference count and generation.
    Occupied { refs: usize, gen: usize },
    /// The slot is free; its neighbours in the free list ([`INVALID_IDX`] for none).
    Free { prev: usize, next: usize },
}

/// The counters of a `Prison`, as [`crate::single_threaded::Prison::status`] reports them.
#[derive(Debug, Clone, Copy, PartialEq, Eq, Structural)]
pub struct PrisonStatus {
    /// The number of referenced slots.
    pub access_count: usize,
    /// The generation given to newly inserted values.
    pub generation: usize,
    /// The top of the free list ([`INVALID_IDX`] when it is empty).
    pub next_free: usize,
    /// The number of free slots.
    pub free_count: usize,
    /// The length of the underlying `Vec`.
    pub vec_len: usize,
}

/// One end of a range of slots, as a `RangeBounds` reports it.
#[derive(Debug, Clone, Copy, PartialEq, Eq, Structural)]
pub enum SliceBound {
    /// The end includes this index.
    Included(usize),
    /// The end excludes this index.
    Excluded(usize),
    /// There is no end on this side.
    Unbounded,
}

/// The first index of a range that starts at `b`.
pub open spec fn bound_start(b: SliceBound) -> int {
    match b {
        SliceBound::Included(x) => x as int,
        SliceBound::Excluded(x) => x + 1,
        SliceBound::Unbounded => 0,
    }
}

/// The index just past a range that ends at `b`, in an arena of `len` slots.
pub open spec fn bound_end(b: SliceBound, len: nat) -> int {
    match b {
        SliceBound::Included(x) => x + 1,
        SliceBound::Excluded(x) => x as int,
        SliceBound::Unbounded => len as int,
    }
}

/// The requests for every index from `s` up to, but excluding, `e`.
pub open spec fn range_reqs(s: int, e: int) -> Seq<(usize, usize)> {
    Seq::new(if e > s { (e - s) as nat } else { 0 }, |k: int| ((s + k) as usize, 0usize))
}

/// The requests made by a range with ends `start` and `end` in an arena of `len` slots.
pub open spec fn bounds_reqs(start: SliceBound, end: SliceBound, len: nat) -> Seq<(usize, usize)> {
    range_reqs(bound_start(start), bound_end(end, len))
}

/// The indexes of a range with ends `start` and `end` in an arena of `len` slots, in order.
pub open spec fn bounds_indexes(start: SliceBound, end: SliceBound, len: nat) -> Seq<usize> {
    let s = bound_start(start);
    let e = bound_end(end, len);
    Seq::new(if e > s { (e - s) as nat } else { 0 }, |k: int| (s + k) as usize)
}

/// The requests (index, generation) made by a list of keys.
pub open spec fn key_reqs(keys: Seq<CellKey>) -> Seq<(usize, usize)> {
    keys.map_values(|k: CellKey| (k.spec_idx(), k.spec_gen()))
}

/// The requests (index, generation `0`) made by a list of plain indexes.
pub open spec fn idx_reqs(idxs: Seq<usize>) -> Seq<(usize, usize)> {
    idxs.map_values(|i: usize| (i, 0usize))
}

/// No two requests name the same slot.
pub open spec fn distinct_idxs(reqs: Seq<(usize, usize)>) -> bool {
    forall|a: int, b: int| 0 <= a < reqs.len() && 0 <= b < reqs.len() && a != b ==> reqs[a].0 != reqs[b].0
}

/// `1` when the slot is a referenced value, `0` otherwise.
pub open spec fn referenced<T>(s: SlotView<T>) -> nat {
    match s {
        SlotView::Occupied { refs, .. } => if refs != 0 { 1 } else { 0 },
        SlotView::Vacant => 0,
    }
}

/// `1` when the slot holds a value, `0` when it is free.
pub open spec fn occupied<T>(s: SlotView<T>) -> nat {
    match s {
        SlotView::Occupied { .. } => 1,
        SlotView::Vacant => 0,
    }
}

/// The number of slots in `s` that hold a value.
pub open spec fn count_occupied<T>(s: Seq<SlotView<T>>) -> nat
    decreases s.len(),
{
    if s.len() == 0 {
        0
    } else {
        count_occupied(s.drop_last()) + occupied(s.last())
    }
}

/// The number of referenced slots in `s`.
pub open spec fn count_referenced<T>(s: Seq<SlotView<T>>) -> nat
    decreases s.len(),
{
    if s.len() == 0 {
        0
    } else {
        count_referenced(s.drop_last()) + referenced(s.last())
    }
}

/// The index before position `k` of the free list, or [`INVALID_IDX`] at its top.
pub open spec fn free_prev(free: Seq<usize>, k: int) -> usize {
    if k == 0 { INVALID_IDX } else { free[k - 1] }
}

/// The index after position `k` of the free list, or [`INVALID_IDX`] at its bottom.
pub open spec fn free_next(free: Seq<usize>, k: int) -> usize {
    if k + 1 < free.len() { free[k + 1] } else { INVALID_IDX }
}

/// The top of the free list, or [`INVALID_IDX`] when it is empty.
pub open spec fn free_top(free: Seq<usize>) -> usize {
    if free.len() == 0 { INVALID_IDX } else { free[0] }
}

impl<T> PrisonView<T> {
    /// The invariant of the model: the free list holds every free slot exactly once,
    /// generations never exceed the current one, and `access_count` counts referenced slots.
    pub open spec fn inv(self) -> bool {
        &&& self.slots.len() <= MAX_CAP
        &&& self.generation <= MAX_GEN
        &&& forall|i: int|
            0 <= i < self.slots.len() ==> (#[trigger] self.slots[i] matches SlotView::Occupied {
                gen,
                ..
            } ==> gen <= self.generation)
        &&& self.free.no_duplicates()
        &&& forall|k: int|
            0 <= k < self.free.len() ==> {
                &&& 0 <= #[trigger] self.free[k] < self.slots.len()
                &&& self.slots[self.free[k] as int] is Vacant
            }
        &&& forall|i: int|
            0 <= i < self.slots.len() && #[trigger] self.slots[i] is Vacant ==> self.free.contains(
                i as usize,
            )
        &&& self.access_count == count_referenced(self.slots)
        &&& self.free.len() + count_occupied(self.slots) == self.slots.len()
    }

    /// The state with `val` stored as a fresh, unreferenced value in slot `idx`.
    pub open spec fn occupy(self, idx: int, val: T) -> Self {
        PrisonView {
            slots: self.slots.update(idx, SlotView::Occupied { refs: 0, gen: self.generation, val }),
            ..self
        }
    }

    /// The state after the value in slot `idx`, of generation `gen`, left the arena: the slot
    /// becomes the top of the free list and the generation moves past `gen`.
    pub open spec fn retire(self, idx: int, gen: usize) -> Self {
        PrisonView {
            slots: self.slots.update(idx, SlotView::Vacant),
            free: seq![idx as usize] + self.free,
            generation: self.generation_after_retiring(gen),
            access_count: self.access_count,
        }
    }

    /// The state after the free slot `idx` was filled with `val`: the slot leaves the free list.
    pub open spec fn fill(self, idx: int, val: T) -> Self {
        PrisonView {
            free: self.free.remove(self.free.index_of(idx as usize)),
            ..self.occupy(idx, val)
        }
    }

    /// Why slot `idx` cannot be looked up: it is out of range, free, or (when `use_gen`) holds
    /// a value of a generation other than `gen`.
    pub open spec fn lookup_error(self, idx: usize, gen: usize, use_gen: bool) -> Option<AccessError> {
        if idx >= self.slots.len() {
            Some(AccessError::IndexOutOfRange(idx))
        } else {
            match self.slots[idx as int] {
                SlotView::Occupied { gen: g, .. } => if use_gen && g != gen {
                    Some(AccessError::ValueDeleted(idx, gen))
                } else {
                    None
                },
                SlotView::Vacant => Some(AccessError::ValueDeleted(idx, gen)),
            }
        }
    }

    /// The reference count of slot `idx`.
    pub open spec fn refs(self, idx: usize) -> usize {
        self.slots[idx as int]->Occupied_refs
    }

    /// Why slot `idx` cannot be referenced (mutably when `mutable`, else immutably).
    ///
    /// A mutable reference needs a value with no references at all; an immutable one needs a
    /// value that is not mutably referenced and has fewer than [`REFS_MAX_IMMUT`] references.
    pub open spec fn ref_error(self, idx: usize, gen: usize, use_gen: bool, mutable: bool) -> Option<
        AccessError,
    > {
        match self.lookup_error(idx, gen, use_gen) {
            Some(e) => Some(e),
            None => if self.refs(idx) == REFS_MUT {
                Some(AccessError::ValueAlreadyMutablyReferenced(idx))
            } else if mutable && self.refs(idx) > 0 {
                Some(AccessError::ValueStillImmutablyReferenced(idx))
            } else if !mutable && self.refs(idx) == REFS_MAX_IMMUT {
                Some(AccessError::MaximumImmutableReferencesReached(idx))
            } else {
                None
            },
        }
    }

    /// The state with the reference count of the value in slot `idx` set to `refs`.
    pub open spec fn set_refs(self, idx: usize, refs: usize) -> Self {
        let s = self.slots[idx as int];
        PrisonView {
            slots: self.slots.update(
                idx as int,
                SlotView::Occupied { refs, gen: s->Occupied_gen, val: s->Occupied_val },
            ),
            access_count: (self.access_count - referenced(s) + (if refs != 0 { 1int } else { 0 })) as usize,
            ..self
        }
    }

    /// The state after one more reference to slot `idx` was lent out.
    pub open spec fn acquire(self, idx: usize, mutable: bool) -> Self {
        self.set_refs(idx, if mutable { REFS_MUT } else { (self.refs(idx) + 1) as usize })
    }

    /// The state after one reference to slot `idx` was given back.
    pub open spec fn release(self, idx: usize, mutable: bool) -> Self {
        self.set_refs(idx, if mutable { 0 } else { (self.refs(idx) - 1) as usize })
    }

    /// Slot `idx` holds a value that has a reference of the given kind to give back.
    pub open spec fn holds_ref(self, idx: usize, mutable: bool) -> bool {
        &&& idx < self.slots.len()
        &&& self.slots[idx as int] is Occupied
        &&& if mutable {
            self.refs(idx) == REFS_MUT
        } else {
            self.refs(idx) != REFS_MUT && self.refs(idx) > 0
        }
    }

    /// The state after referencing every slot of `reqs` (index, generation) in order.
    pub open spec fn acquire_all(self, reqs: Seq<(usize, usize)>, mutable: bool) -> Self
        decreases reqs.len(),
    {
        if reqs.len() == 0 {
            self
        } else {
            self.acquire_all(reqs.drop_last(), mutable).acquire(reqs.last().0, mutable)
        }
    }

    /// The first error met while referencing every slot of `reqs` in order, if any.
    pub open spec fn many_ref_error(self, reqs: Seq<(usize, usize)>, use_gen: bool, mutable: bool) -> Option<
        AccessError,
    >
        decreases reqs.len(),
    {
        if reqs.len() == 0 {
            None
        } else {
            match self.many_ref_error(reqs.drop_last(), use_gen, mutable) {
                Some(e) => Some(e),
                None => self.acquire_all(reqs.drop_last(), mutable).ref_error(
                    reqs.last().0,
                    reqs.last().1,
                    use_gen,
                    mutable,
                ),
            }
        }
    }

    /// The state after giving back one reference to every slot of `reqs`, last one first.
    pub open spec fn release_all(self, reqs: Seq<(usize, usize)>, mutable: bool) -> Self
        decreases reqs.len(),
    {
        if reqs.len() == 0 {
            self
        } else {
            self.release(reqs.last().0, mutable).release_all(reqs.drop_last(), mutable)
        }
    }

    /// Every slot of `reqs` has a reference to give back, taking repetitions into account.
    pub open spec fn holds_all(self, reqs: Seq<(usize, usize)>, mutable: bool) -> bool
        decreases reqs.len(),
    {
        reqs.len() == 0 || (self.holds_ref(reqs.last().0, mutable) && self.release(
            reqs.last().0,
            mutable,
        ).holds_all(reqs.drop_last(), mutable))
    }

    /// The value in slot `idx`.
    pub open spec fn val(self, idx: usize) -> T {
        self.slots[idx as int]->Occupied_val
    }

    /// The state with the value in slot `idx` replaced by `val`.
    pub open spec fn set_val(self, idx: usize, val: T) -> Self {
        let s = self.slots[idx as int];
        PrisonView {
            slots: self.slots.update(
                idx as int,
                SlotView::Occupied { refs: s->Occupied_refs, gen: s->Occupied_gen, val },
            ),
            ..self
        }
    }

    /// The values in the slots of `reqs`, in order.
    pub open spec fn vals_of(self, reqs: Seq<(usize, usize)>) -> Seq<T> {
        reqs.map_values(|p: (usize, usize)| self.val(p.0))
    }

    /// The state with the value in slot `reqs[k].0` replaced by `vals[k]`, for every `k`.
    pub open spec fn set_vals(self, reqs: Seq<(usize, usize)>, vals: Seq<T>) -> Self
        decreases reqs.len(),
    {
        if reqs.len() == 0 {
            self
        } else {
            self.set_vals(reqs.drop_last(), vals.drop_last()).set_val(reqs.last().0, vals.last())
        }
    }

    /// The bookkeeping of slot `idx`, or `None` when it is out of range.
    pub open spec fn cell_state(self, idx: usize) -> Option<CellState> {
        if idx >= self.slots.len() {
            None
        } else {
            match self.slots[idx as int] {
                SlotView::Occupied { refs, gen, .. } => Some(CellState::Occupied { refs, gen }),
                SlotView::Vacant => {
                    let k = self.free.index_of(idx);
                    Some(CellState::Free { prev: free_prev(self.free, k), next: free_next(self.free, k) })
                },
            }
        }
    }

    /// The first error met looking up every slot of `reqs` in order, if any.
    pub open spec fn many_lookup_error(self, reqs: Seq<(usize, usize)>, use_gen: bool) -> Option<AccessError>
        decreases reqs.len(),
    {
        if reqs.len() == 0 {
            None
        } else {
            match self.many_lookup_error(reqs.drop_last(), use_gen) {
                Some(e) => Some(e),
                None => self.lookup_error(reqs.last().0, reqs.last().1, use_gen),
            }
        }
    }

    /// The generation after the value of generation `gen` leaves the arena.
    pub open spec fn generation_after_retiring(self, gen: usize) -> usize {
        if gen >= self.generation { (gen + 1) as usize } else { self.generation }
    }

    /// The generation of the value in slot `i`, or `None` when the slot is free or out of range.
    pub open spec fn gen_at(self, i: int) -> Option<usize> {
        if 0 <= i < self.slots.len() {
            match self.slots[i] {
                SlotView::Occupied { gen, .. } => Some(gen),
                SlotView::Vacant => None,
            }
        } else {
            None
        }
    }

    /// Slot `idx` holds `val` with generation `gen` and no reference: a value that was just
    /// stored, reachable by the key (`idx`, `gen`).
    pub open spec fn holds_fresh(self, idx: usize, gen: usize, val: T) -> bool {
        idx < self.slots.len() && self.slots[idx as int] == (SlotView::Occupied { refs: 0, gen, val })
    }

    /// The key (`idx`, `gen`) belongs to the past: its generation is older than the one given
    /// to new values, and slot `idx` holds no value of that generation.
    pub open spec fn key_retired(self, idx: usize, gen: usize) -> bool {
        gen < self.generation && self.gen_at(idx as int) != Some(gen)
    }

    /// `later` can follow this state: the generation never goes back, and a value that
    /// `later` holds with a generation older than this state's current one was already here,
    /// in the same slot and with the same generation.
    pub open spec fn evolves_to(self, later: Self) -> bool {
        &&& self.generation <= later.generation
        &&& forall|i: int|
            #[trigger] later.gen_at(i) is Some && later.gen_at(i)->0 < self.generation ==> self.gen_at(i)
                == later.gen_at(i)
    }
}

/// Counting referenced and occupied slots after one slot changed.
pub(crate) proof fn lemma_count_update<T>(s: Seq<SlotView<T>>, i: int, x: SlotView<T>)
    requires
        0 <= i < s.len(),
    ensures
        count_referenced(s.update(i, x)) == count_referenced(s) - referenced(s[i]) + referenced(x),
        count_occupied(s.update(i, x)) == count_occupied(s) - occupied(s[i]) + occupied(x),
    decreases s.len(),
{
    let t = s.update(i, x);
    if i == s.len() - 1 {
        assert(t.drop_last() =~= s.drop_last());
    } else {
        assert(t.drop_last() =~= s.drop_last().update(i, x));
        lemma_count_update(s.drop_last(), i, x);
    }
}

/// Counting referenced and occupied slots after a slot was appended.
pub(crate) proof fn lemma_count_push<T>(s: Seq<SlotView<T>>, x: SlotView<T>)
    ensures
        count_referenced(s.push(x)) == count_referenced(s) + referenced(x),
        count_occupied(s.push(x)) == count_occupied(s) + occupied(x),
{
    assert(s.push(x).drop_last() =~= s);
}

/// Only occupied slots can be referenced, and there are no more of them than slots.
pub(crate) proof fn lemma_count_bound<T>(s: Seq<SlotView<T>>)
    ensures
        count_referenced(s) <= count_occupied(s) <= s.len(),
    decreases s.len(),
{
    if s.len() > 0 {
        lemma_count_bound(s.drop_last());
    }
}

/// Changing the reference count of a value keeps the model's invariant.
pub(crate) proof fn lemma_set_refs_inv<T>(v: PrisonView<T>, idx: usize, refs: usize)
    requires
        v.inv(),
        idx < v.slots.len(),
        v.slots[idx as int] is Occupied,
    ensures
        v.set_refs(idx, refs).inv(),
        v.set_refs(idx, refs).free == v.free,
        v.set_refs(idx, refs).generation == v.generation,
        v.set_refs(idx, refs).slots.len() == v.slots.len(),
        v.set_refs(idx, refs).access_count == count_referenced(v.set_refs(idx, refs).slots),
{
    let s = v.slots[idx as int];
    let x = SlotView::Occupied { refs, gen: s->Occupied_gen, val: s->Occupied_val };
    lemma_count_update(v.slots, idx as int, x);
    lemma_count_bound(v.slots);
    let w = v.set_refs(idx, refs);
    assert forall|i: int| 0 <= i < w.slots.len() && #[trigger] w.slots[i] is Vacant implies w.free.contains(
        i as usize,
    ) by {
        assert(v.slots[i] is Vacant);
    }
}

/// Lending out a reference and giving it back restores the arena exactly.
pub proof fn lemma_acquire_release<T>(v: PrisonView<T>, idx: usize, gen: usize, use_gen: bool, mutable: bool)
    requires
        v.inv(),
        v.ref_error(idx, gen, use_gen, mutable) is None,
    ensures
        v.acquire(idx, mutable).inv(),
        v.acquire(idx, mutable).holds_ref(idx, mutable),
        v.acquire(idx, mutable).release(idx, mutable) == v,
{
    let a = v.acquire(idx, mutable);
    let new_refs: usize = if mutable { REFS_MUT } else { (v.refs(idx) + 1) as usize };
    lemma_set_refs_inv(v, idx, new_refs);
    lemma_set_refs_inv(a, idx, v.refs(idx));
    let r = a.release(idx, mutable);
    assert(r.slots =~= v.slots);
}

/// An error met on a prefix of the requests is the error of all of them.
pub(crate) proof fn lemma_many_error_prefix<T>(
    v: PrisonView<T>,
    reqs: Seq<(usize, usize)>,
    j: int,
    use_gen: bool,
    mutable: bool,
)
    requires
        0 <= j <= reqs.len(),
        v.many_ref_error(reqs.take(j), use_gen, mutable) is Some,
    ensures
        v.many_ref_error(reqs, use_gen, mutable) == v.many_ref_error(reqs.take(j), use_gen, mutable),
    decreases reqs.len() - j,
{
    if j == reqs.len() {
        assert(reqs.take(j) =~= reqs);
    } else {
        assert(reqs.drop_last().take(j) =~= reqs.take(j));
        lemma_many_error_prefix(v, reqs.drop_last(), j, use_gen, mutable);
    }
}

/// Taking one more request: its state and its error follow from the shorter prefix.
pub(crate) proof fn lemma_many_step<T>(v: PrisonView<T>, reqs: Seq<(usize, usize)>, i: int, use_gen: bool, mutable: bool)
    requires
        0 <= i < reqs.len(),
    ensures
        v.acquire_all(reqs.take(i + 1), mutable) == v.acquire_all(reqs.take(i), mutable).acquire(
            reqs[i].0,
            mutable,
        ),
        v.many_ref_error(reqs.take(i + 1), use_gen, mutable) == match v.many_ref_error(
            reqs.take(i),
            use_gen,
            mutable,
        ) {
            Some(e) => Some(e),
            None => v.acquire_all(reqs.take(i), mutable).ref_error(
                reqs[i].0,
                reqs[i].1,
                use_gen,
                mutable,
            ),
        },
{
    assert(reqs.take(i + 1).drop_last() =~= reqs.take(i));
}

/// Referencing every requested slot and giving every reference back, last one first,
/// restores the arena exactly; in between every reference can be given back.
pub proof fn lemma_acquire_release_all<T>(
    v: PrisonView<T>,
    reqs: Seq<(usize, usize)>,
    use_gen: bool,
    mutable: bool,
)
    requires
        v.inv(),
        v.many_ref_error(reqs, use_gen, mutable) is None,
    ensures
        v.acquire_all(reqs, mutable).inv(),
        v.acquire_all(reqs, mutable).holds_all(reqs, mutable),
        v.acquire_all(reqs, mutable).release_all(reqs, mutable) == v,
    decreases reqs.len(),
{
    if reqs.len() > 0 {
        let rest = reqs.drop_last();
        let x = reqs.last();
        lemma_acquire_release_all(v, rest, use_gen, mutable);
        let a = v.acquire_all(rest, mutable);
        lemma_acquire_release(a, x.0, x.1, use_gen, mutable);
    }
}

/// Replacing a value keeps the model's invariant.
pub(crate) proof fn lemma_set_val_inv<T>(v: PrisonView<T>, idx: usize, val: T)
    requires
        v.inv(),
        idx < v.slots.len(),
        v.slots[idx as int] is Occupied,
    ensures
        v.set_val(idx, val).inv(),
{
    let s = v.slots[idx as int];
    let x = SlotView::Occupied { refs: s->Occupied_refs, gen: s->Occupied_gen, val };
    lemma_count_update(v.slots, idx as int, x);
    let w = v.set_val(idx, val);
    assert forall|i: int| 0 <= i < w.slots.len() && #[trigger] w.slots[i] is Vacant implies w.free.contains(
        i as usize,
    ) by {
        assert(v.slots[i] is Vacant);
    }
}


/// Mutable references held on every slot of `reqs` name distinct slots, each lent out mutably.
pub(crate) proof fn lemma_holds_all_mut<T>(v: PrisonView<T>, reqs: Seq<(usize, usize)>)
    requires
        v.holds_all(reqs, true),
    ensures
        distinct_idxs(reqs),
        forall|j: int| 0 <= j < reqs.len() ==> v.holds_ref(#[trigger] reqs[j].0, true),
    decreases reqs.len(),
{
    if reqs.len() > 0 {
        let x = reqs.last();
        let rest = reqs.drop_last();
        let r = v.release(x.0, true);
        lemma_holds_all_mut(r, rest);
        assert forall|j: int| 0 <= j < rest.len() implies rest[j].0 != x.0 by {
            assert(r.holds_ref(rest[j].0, true));
        }
        assert forall|j: int| 0 <= j < reqs.len() implies v.holds_ref(#[trigger] reqs[j].0, true) by {
            if j < reqs.len() - 1 {
                assert(reqs[j] == rest[j]);
                assert(r.holds_ref(rest[j].0, true));
                assert(rest[j].0 != x.0);
            }
        }
        assert forall|a: int, b: int|
            0 <= a < reqs.len() && 0 <= b < reqs.len() && a != b implies reqs[a].0 != reqs[b].0 by {
            if a < reqs.len() - 1 && b < reqs.len() - 1 {
                assert(reqs[a] == rest[a] && reqs[b] == rest[b]);
            } else if a < reqs.len() - 1 {
                assert(reqs[a] == rest[a]);
            } else if b < reqs.len() - 1 {
                assert(reqs[b] == rest[b]);
            }
        }
    }
}

/// Replacing values of distinct slots, described slot by slot.
pub(crate) proof fn lemma_set_vals_pointwise<T>(v: PrisonView<T>, reqs: Seq<(usize, usize)>, vals: Seq<T>)
    requires
        distinct_idxs(reqs),
        vals.len() == reqs.len(),
        forall|j: int| 0 <= j < reqs.len() ==> #[trigger] reqs[j].0 < v.slots.len(),
    ensures
        v.set_vals(reqs, vals).slots.len() == v.slots.len(),
        v.set_vals(reqs, vals).free == v.free,
        v.set_vals(reqs, vals).generation == v.generation,
        v.set_vals(reqs, vals).access_count == v.access_count,
        forall|j: int|
            0 <= j < reqs.len() ==> v.set_vals(reqs, vals).slots[#[trigger] reqs[j].0 as int] == (
            SlotView::Occupied {
                refs: v.slots[reqs[j].0 as int]->Occupied_refs,
                gen: v.slots[reqs[j].0 as int]->Occupied_gen,
                val: vals[j],
            }),
        forall|i: int|
            0 <= i < v.slots.len() && (forall|j: int| 0 <= j < reqs.len() ==> reqs[j].0 != i)
                ==> #[trigger] v.set_vals(reqs, vals).slots[i] == v.slots[i],
    decreases reqs.len(),
{
    if reqs.len() > 0 {
        let rest = reqs.drop_last();
        let x = reqs.last();
        lemma_set_vals_pointwise(v, rest, vals.drop_last());
        let w = v.set_vals(rest, vals.drop_last());
        assert forall|j: int| 0 <= j < rest.len() implies #[trigger] rest[j].0 != x.0 by {
            assert(rest[j] == reqs[j]);
        }
        assert(w.slots[x.0 as int] == v.slots[x.0 as int]);
        assert forall|j: int|
            0 <= j < reqs.len() implies v.set_vals(reqs, vals).slots[#[trigger] reqs[j].0 as int] == (
            SlotView::Occupied {
                refs: v.slots[reqs[j].0 as int]->Occupied_refs,
                gen: v.slots[reqs[j].0 as int]->Occupied_gen,
                val: vals[j],
            }) by {
            if j < reqs.len() - 1 {
                assert(reqs[j] == rest[j]);
                assert(rest[j].0 != x.0);
                assert(vals[j] == vals.drop_last()[j]);
            }
        }
        assert forall|i: int|
            0 <= i < v.slots.len() && (forall|j: int| 0 <= j < reqs.len() ==> reqs[j].0 != i)
                implies #[trigger] v.set_vals(reqs, vals).slots[i] == v.slots[i] by {
            assert(reqs[reqs.len() - 1].0 != i);
            assert forall|j: int| 0 <= j < rest.len() implies rest[j].0 != i by {
                assert(rest[j] == reqs[j]);
            }
        }
    }
}

/// Replacing one value and giving back one reference commute.
pub(crate) proof fn lemma_release_set_val<T>(v: PrisonView<T>, j: usize, i: usize, x: T, mutable: bool)
    requires
        i < v.slots.len(),
        v.slots[i as int] is Occupied,
        j < v.slots.len(),
        v.slots[j as int] is Occupied,
    ensures
        v.set_val(i, x).release(j, mutable) == v.release(j, mutable).set_val(i, x),
        v.set_val(i, x).holds_ref(j, mutable) == v.holds_ref(j, mutable),
{
    assert(v.set_val(i, x).release(j, mutable).slots =~= v.release(j, mutable).set_val(i, x).slots);
}

/// Replacing values and giving back one reference commute.
pub(crate) proof fn lemma_release_set_vals<T>(v: PrisonView<T>, j: usize, reqs: Seq<(usize, usize)>, vals: Seq<T>, mutable: bool)
    requires
        j < v.slots.len(),
        v.slots[j as int] is Occupied,
        forall|k: int|
            0 <= k < reqs.len() ==> #[trigger] reqs[k].0 < v.slots.len() && v.slots[reqs[k].0 as int] is Occupied,
    ensures
        v.set_vals(reqs, vals).release(j, mutable) == v.release(j, mutable).set_vals(reqs, vals),
        v.set_vals(reqs, vals).holds_ref(j, mutable) == v.holds_ref(j, mutable),
        v.set_vals(reqs, vals).slots.len() == v.slots.len(),
        forall|i: int| 0 <= i < v.slots.len() ==> (#[trigger] v.set_vals(reqs, vals).slots[i] is Occupied) == (v.slots[i] is Occupied),
    decreases reqs.len(),
{
    if reqs.len() > 0 {
        let rest = reqs.drop_last();
        let x = reqs.last();
        assert forall|k: int| 0 <= k < rest.len() implies #[trigger] rest[k].0 < v.slots.len() && v.slots[rest[k].0 as int] is Occupied by {
            assert(rest[k] == reqs[k]);
        }
        lemma_release_set_vals(v, j, rest, vals.drop_last(), mutable);
        let w = v.set_vals(rest, vals.drop_last());
        assert(x == reqs[reqs.len() - 1]);
        lemma_release_set_val(w, j, x.0, vals.last(), mutable);
        assert(v.release(j, mutable).slots[x.0 as int] is Occupied);
        assert(v.set_vals(reqs, vals).slots =~= w.set_val(x.0, vals.last()).slots);
    }
}

/// Replacing values and then giving back references equals giving back references and then
/// replacing values; the references can be given back in either case.
pub(crate) proof fn lemma_release_all_set_vals<T>(
    v: PrisonView<T>,
    q: Seq<(usize, usize)>,
    reqs: Seq<(usize, usize)>,
    vals: Seq<T>,
    mutable: bool,
)
    requires
        v.holds_all(q, mutable),
        forall|k: int|
            0 <= k < reqs.len() ==> #[trigger] reqs[k].0 < v.slots.len() && v.slots[reqs[k].0 as int] is Occupied,
    ensures
        v.set_vals(reqs, vals).holds_all(q, mutable),
        v.set_vals(reqs, vals).release_all(q, mutable) == v.release_all(q, mutable).set_vals(reqs, vals),
    decreases q.len(),
{
    if q.len() > 0 {
        let y = q.last();
        lemma_release_set_vals(v, y.0, reqs, vals, mutable);
        let r = v.release(y.0, mutable);
        assert forall|k: int|
            0 <= k < reqs.len() implies #[trigger] reqs[k].0 < r.slots.len() && r.slots[reqs[k].0 as int] is Occupied by {
            assert(v.slots[reqs[k].0 as int] is Occupied);
        }
        lemma_release_all_set_vals(r, q.drop_last(), reqs, vals, mutable);
    }
}

/// Replacing values of occupied slots keeps the model's invariant.
pub(crate) proof fn lemma_set_vals_inv<T>(v: PrisonView<T>, reqs: Seq<(usize, usize)>, vals: Seq<T>)
    requires
        v.inv(),
        forall|k: int|
            0 <= k < reqs.len() ==> #[trigger] reqs[k].0 < v.slots.len() && v.slots[reqs[k].0 as int] is Occupied,
    ensures
        v.set_vals(reqs, vals).inv(),
        v.set_vals(reqs, vals).slots.len() == v.slots.len(),
        forall|i: int| 0 <= i < v.slots.len() ==> (#[trigger] v.set_vals(reqs, vals).slots[i] is Occupied) == (v.slots[i] is Occupied),
    decreases reqs.len(),
{
    if reqs.len() > 0 {
        let rest = reqs.drop_last();
        assert forall|k: int| 0 <= k < rest.len() implies #[trigger] rest[k].0 < v.slots.len() && v.slots[rest[k].0 as int] is Occupied by {
            assert(rest[k] == reqs[k]);
        }
        lemma_set_vals_inv(v, rest, vals.drop_last());
        let w = v.set_vals(rest, vals.drop_last());
        let x = reqs[reqs.len() - 1];
        assert(w.slots[x.0 as int] is Occupied);
        lemma_set_val_inv(w, x.0, vals.last());
    }
}

/// Lending out references changes neither which slots hold values nor the values, and every
/// slot that could be referenced holds a value.
pub proof fn lemma_acquire_all_keeps_vals<T>(v: PrisonView<T>, reqs: Seq<(usize, usize)>, use_gen: bool, mutable: bool)
    requires
        v.many_ref_error(reqs, use_gen, mutable) is None,
    ensures
        v.acquire_all(reqs, mutable).slots.len() == v.slots.len(),
        forall|i: int|
            0 <= i < v.slots.len() ==> (#[trigger] v.acquire_all(reqs, mutable).slots[i] is Occupied) == (
            v.slots[i] is Occupied),
        forall|i: usize| i < v.slots.len() ==> #[trigger] v.acquire_all(reqs, mutable).val(i) == v.val(i),
        forall|k: int|
            0 <= k < reqs.len() ==> #[trigger] reqs[k].0 < v.slots.len() && v.slots[reqs[k].0 as int] is Occupied,
        v.acquire_all(reqs, mutable).vals_of(reqs) == v.vals_of(reqs),
    decreases reqs.len(),
{
    if reqs.len() > 0 {
        let rest = reqs.drop_last();
        lemma_acquire_all_keeps_vals(v, rest, use_gen, mutable);
        let a = v.acquire_all(rest, mutable);
        let x = reqs.last();
        assert(a.ref_error(x.0, x.1, use_gen, mutable) is None);
        let b = v.acquire_all(reqs, mutable);
        assert(b == a.acquire(x.0, mutable));
        assert forall|i: usize| i < v.slots.len() implies #[trigger] b.val(i) == v.val(i) by {
            assert(a.val(i) == v.val(i));
        }
        assert forall|k: int|
            0 <= k < reqs.len() implies #[trigger] reqs[k].0 < v.slots.len() && v.slots[reqs[k].0 as int] is Occupied by {
            if k < reqs.len() - 1 {
                assert(reqs[k] == rest[k]);
            } else {
                assert(a.slots[x.0 as int] is Occupied);
            }
        }
        assert(b.vals_of(reqs) =~= v.vals_of(reqs)) by {
            assert forall|k: int| 0 <= k < reqs.len() implies b.vals_of(reqs)[k] == v.vals_of(reqs)[k] by {
                let i = reqs[k].0;
                assert(b.val(i) == v.val(i));
            }
        }
    }
}

/// An error met looking up a prefix of the requests is the error of all of them.
pub(crate) proof fn lemma_many_lookup_prefix<T>(v: PrisonView<T>, reqs: Seq<(usize, usize)>, j: int, use_gen: bool)
    requires
        0 <= j <= reqs.len(),
        v.many_lookup_error(reqs.take(j), use_gen) is Some,
    ensures
        v.many_lookup_error(reqs, use_gen) == v.many_lookup_error(reqs.take(j), use_gen),
    decreases reqs.len() - j,
{
    if j == reqs.len() {
        assert(reqs.take(j) =~= reqs);
    } else {
        assert(reqs.drop_last().take(j) =~= reqs.take(j));
        lemma_many_lookup_prefix(v, reqs.drop_last(), j, use_gen);
    }
}

/// Referencing a slot out of range fails whatever was referenced before: a list of requests
/// whose prefix of length `m` ends with an index out of range fails as that prefix does.
pub(crate) proof fn lemma_many_error_out_of_range<T>(
    v: PrisonView<T>,
    reqs: Seq<(usize, usize)>,
    m: int,
    use_gen: bool,
    mutable: bool,
)
    requires
        0 < m <= reqs.len(),
        reqs[m - 1].0 >= v.slots.len(),
    ensures
        v.many_ref_error(reqs.take(m), use_gen, mutable) is Some,
        v.many_ref_error(reqs, use_gen, mutable) == v.many_ref_error(reqs.take(m), use_gen, mutable),
{
    lemma_many_step(v, reqs, m - 1, use_gen, mutable);
    if v.many_ref_error(reqs.take(m - 1), use_gen, mutable) is None {
        lemma_acquire_all_keeps_vals(v, reqs.take(m - 1), use_gen, mutable);
    }
    lemma_many_error_prefix(v, reqs, m, use_gen, mutable);
}
/// Arena states follow one another: a state that follows one that follows `a` follows `a`.
pub proof fn lemma_evolves_trans<T>(a: PrisonView<T>, b: PrisonView<T>, c: PrisonView<T>)
    requires
        a.evolves_to(b),
        b.evolves_to(c),
    ensures
        a.evolves_to(c),
{
    assert forall|i: int| #[trigger] c.gen_at(i) is Some && c.gen_at(i)->0 < a.generation implies a.gen_at(i)
        == c.gen_at(i) by {
        assert(b.gen_at(i) == c.gen_at(i));
    }
}

/// A key that belongs to the past stays there: in every state that follows, the key is still
/// retired and looking it up is refused.
pub proof fn lemma_retired_key_stays_retired<T>(s: PrisonView<T>, t: PrisonView<T>, idx: usize, gen: usize)
    requires
        s.key_retired(idx, gen),
        s.evolves_to(t),
    ensures
        t.key_retired(idx, gen),
        t.lookup_error(idx, gen, true) is Some,
{
    if t.gen_at(idx as int) == Some(gen) {
        assert(s.gen_at(idx as int) == t.gen_at(idx as int));
    }
}

/// Changing the reference count of a value keeps every generation.
pub(crate) proof fn lemma_set_refs_evolves<T>(v: PrisonView<T>, idx: usize, refs: usize)
    requires
        idx < v.slots.len(),
        v.slots[idx as int] is Occupied,
    ensures
        v.evolves_to(v.set_refs(idx, refs)),
{
    let w = v.set_refs(idx, refs);
    assert forall|i: int| #[trigger] w.gen_at(i) is Some && w.gen_at(i)->0 < v.generation implies v.gen_at(i)
        == w.gen_at(i) by {
        if i != idx {
            assert(w.slots[i] == v.slots[i]);
        }
    }
}

/// Replacing a value keeps every generation.
pub(crate) proof fn lemma_set_val_evolves<T>(v: PrisonView<T>, idx: usize, val: T)
    requires
        idx < v.slots.len(),
        v.slots[idx as int] is Occupied,
    ensures
        v.evolves_to(v.set_val(idx, val)),
{
    let w = v.set_val(idx, val);
    assert forall|i: int| #[trigger] w.gen_at(i) is Some && w.gen_at(i)->0 < v.generation implies v.gen_at(i)
        == w.gen_at(i) by {
        if i != idx {
            assert(w.slots[i] == v.slots[i]);
        }
    }
}

/// Storing a fresh value, with the current generation, in a slot of the arena.
pub(crate) proof fn lemma_occupy_evolves<T>(v: PrisonView<T>, idx: int, val: T)
    requires
        0 <= idx < v.slots.len(),
    ensures
        v.evolves_to(v.occupy(idx, val)),
{
    let w = v.occupy(idx, val);
    assert forall|i: int| #[trigger] w.gen_at(i) is Some && w.gen_at(i)->0 < v.generation implies v.gen_at(i)
        == w.gen_at(i) by {
        if i != idx {
            assert(w.slots[i] == v.slots[i]);
        }
    }
}

/// Appending a fresh value, with the current generation, to the arena.
pub(crate) proof fn lemma_push_evolves<T>(v: PrisonView<T>, val: T)
    ensures
        v.evolves_to(
            PrisonView {
                slots: v.slots.push(SlotView::Occupied { refs: 0, gen: v.generation, val }),
                ..v
            },
        ),
{
    let w = PrisonView {
        slots: v.slots.push(SlotView::Occupied { refs: 0, gen: v.generation, val }),
        ..v
    };
    assert forall|i: int| #[trigger] w.gen_at(i) is Some && w.gen_at(i)->0 < v.generation implies v.gen_at(i)
        == w.gen_at(i) by {
        if i < v.slots.len() {
            assert(w.slots[i] == v.slots[i]);
        }
    }
}

/// Taking the value of generation `gen` out of slot `idx` retires its key.
pub(crate) proof fn lemma_retire_evolves<T>(v: PrisonView<T>, idx: usize, gen: usize)
    requires
        idx < v.slots.len(),
        gen < MAX_GEN,
    ensures
        v.evolves_to(v.retire(idx as int, gen)),
        v.retire(idx as int, gen).key_retired(idx, gen),
{
    let w = v.retire(idx as int, gen);
    assert forall|i: int| #[trigger] w.gen_at(i) is Some && w.gen_at(i)->0 < v.generation implies v.gen_at(i)
        == w.gen_at(i) by {
        assert(i != idx);
        assert(w.slots[i] == v.slots[i]);
    }
}

/// Replacing the value of generation `gen` in slot `idx` by a fresh one retires its key.
pub(crate) proof fn lemma_replace_evolves<T>(v: PrisonView<T>, idx: usize, gen: usize, val: T)
    requires
        idx < v.slots.len(),
        gen < MAX_GEN,
    ensures
        v.evolves_to((PrisonView { generation: v.generation_after_retiring(gen), ..v }).occupy(idx as int, val)),
        (PrisonView { generation: v.generation_after_retiring(gen), ..v }).occupy(idx as int, val).key_retired(
            idx,
            gen,
        ),
{
    let w = (PrisonView { generation: v.generation_after_retiring(gen), ..v }).occupy(idx as int, val);
    assert forall|i: int| #[trigger] w.gen_at(i) is Some && w.gen_at(i)->0 < v.generation implies v.gen_at(i)
        == w.gen_at(i) by {
        assert(i != idx);
        assert(w.slots[i] == v.slots[i]);
    }
    assert(w.gen_at(idx as int) == Some(v.generation_after_retiring(gen)));
}
/// A value that was just stored is found by its key and can be lent out, mutably or
/// immutably.
pub proof fn lemma_fresh_value_accessible<T>(v: PrisonView<T>, idx: usize, gen: usize, val: T)
    requires
        v.holds_fresh(idx, gen, val),
    ensures
        v.lookup_error(idx, gen, true) is None,
        v.ref_error(idx, gen, true, true) is None,
        v.ref_error(idx, gen, true, false) is None,
        v.val(idx) == val,
{
}
/// A range of slots is requested exactly as the list of its indexes is: visiting or guarding
/// a range does what visiting or guarding those plain indexes does.
pub proof fn lemma_range_is_its_indexes(start: SliceBound, end: SliceBound, len: nat)
    ensures
        idx_reqs(bounds_indexes(start, end, len)) == bounds_reqs(start, end, len),
{
    assert(idx_reqs(bounds_indexes(start, end, len)) =~= bounds_reqs(start, end, len));
}
/// A value written into a slot is what is read back from it; every other slot, the
/// reference counts and the generations stay as they were.
pub proof fn lemma_write_then_read<T>(v: PrisonView<T>, idx: usize, val: T)
    requires
        v.inv(),
        idx < v.slots.len(),
        v.slots[idx as int] is Occupied,
    ensures
        v.set_val(idx, val).val(idx) == val,
        v.set_val(idx, val).inv(),
        v.set_val(idx, val).refs(idx) == v.refs(idx),
        v.set_val(idx, val).gen_at(idx as int) == v.gen_at(idx as int),
        forall|i: usize|
            i < v.slots.len() && i != idx ==> #[trigger] v.set_val(idx, val).slots[i as int] == v.slots[i as int],
{
    lemma_set_val_inv(v, idx, val);
}
} // verus!
