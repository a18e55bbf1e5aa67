//! A generational arena whose elements are lent out under run-time reference counting.
//!
//! [`single_threaded::Prison`] stores values in a `Vec`, hands out [`CellKey`]s that pair an
//! index with the generation in which the value was created, and tracks for every element how
//! it is currently referenced. [`single_threaded::JailCell`] applies the same reference-counting
//! rules to a single stand-alone value. Every operation that would break the referencing rules
//! returns an [`AccessError`] instead of panicking.
use vstd::prelude::*;

mod error;
pub mod single_threaded;

pub use error::AccessError;

verus! {

pub use error::lemma_kind_identifies_error;

/// An index into a `Prison` together with the generation of the value it was issued for.
#[derive(Debug, Clone, Copy, PartialEq, Eq, Structural)]
pub struct CellKey {
    idx: usize,
    gen: usize,
}

impl CellKey {
    /// The index this key points at.
    pub closed spec fn spec_idx(self) -> usize {
        self.idx
    }

    /// The generation this key was issued for.
    pub closed spec fn spec_gen(self) -> usize {
        self.gen
    }

    /// The key with index `idx` and generation `gen`.
    pub closed spec fn spec_from_raw_parts(idx: usize, gen: usize) -> CellKey {
        CellKey { idx, gen }
    }

    /// A key is determined by its index and generation.
    pub proof fn lemma_raw_parts(idx: usize, gen: usize)
        ensures
            CellKey::spec_from_raw_parts(idx, gen).spec_idx() == idx,
            CellKey::spec_from_raw_parts(idx, gen).spec_gen() == gen,
    {
    }

    /// Builds a key from an index and a generation.
    pub fn from_raw_parts(idx: usize, gen: usize) -> (key: CellKey)
        ensures
            key == CellKey::spec_from_raw_parts(idx, gen),
            key.spec_idx() == idx,
            key.spec_gen() == gen,
    {
        CellKey { idx, gen }
    }

    /// Returns the index and the generation of the key, in that order.
    pub fn into_raw_parts(&self) -> (parts: (usize, usize))
        ensures
            parts == (self.spec_idx(), self.spec_gen()),
    {
        (self.idx, self.gen)
    }

    /// Returns the index of the key.
    pub fn idx(&self) -> (idx: usize)
        ensures
            idx == self.spec_idx(),
    {
        self.idx
    }

    /// Two keys are equal exactly when their indexes and generations are.
    pub proof fn lemma_key_eq(a: CellKey, b: CellKey)
        ensures
            a == b <==> (a.spec_idx() == b.spec_idx() && a.spec_gen() == b.spec_gen()),
    {
    }
}

} // verus!
