//! The arena and the stand-alone cell for use from a single thread.
use vstd::prelude::*;

mod jail;
mod model;
mod prison;

verus! {

pub use model::{
    bound_end, bound_start, bounds_indexes, bounds_reqs, count_occupied, count_referenced, distinct_idxs, free_next,
    free_prev, free_top, idx_reqs, key_reqs, lemma_acquire_all_keeps_vals, lemma_acquire_release,
    lemma_acquire_release_all, lemma_evolves_trans, lemma_fresh_value_accessible, lemma_range_is_its_indexes,
    lemma_retired_key_stays_retired, lemma_write_then_read, occupied, range_reqs, referenced, CellState, PrisonStatus,
    PrisonView, SliceBound, SlotView, INVALID_IDX, MAX_CAP, MAX_GEN, REFS_MAX_IMMUT, REFS_MUT,
};
pub use jail::{lemma_jail_acquire_release, JailCell, JailValueMut, JailValueRef, JailView};
pub use prison::{Prison, PrisonSliceMut, PrisonSliceRef, PrisonValueMut, PrisonValueRef};

} // verus!
