//! [`JailCell`]: a single value lent out under the same reference counting as a `Prison` slot.
use vstd::prelude::*;

use crate::AccessError;

verus! {

use super::model::{REFS_MAX_IMMUT, REFS_MUT};

/// The mathematical model of a [`JailCell`].
pub struct JailView<T> {
    /// [`REFS_MUT`] while the value is lent out mutably, else the number of immutable references.
    pub refs: usize,
    /// The value.
    pub val: T,
}

impl<T> JailView<T> {
    /// Why the value cannot be lent out (mutably when `mutable`); the index in the error is `0`.
    pub open spec fn ref_error(self, mutable: bool) -> Option<AccessError> {
        if self.refs == REFS_MUT {
            Some(AccessError::ValueAlreadyMutablyReferenced(0))
        } else if mutable && self.refs > 0 {
            Some(AccessError::ValueStillImmutablyReferenced(0))
        } else if self.refs == REFS_MAX_IMMUT {
            Some(AccessError::MaximumImmutableReferencesReached(0))
        } else {
            None
        }
    }

    /// The state after one more reference was lent out.
    pub open spec fn acquire(self, mutable: bool) -> Self {
        JailView { refs: if mutable { REFS_MUT } else { (self.refs + 1) as usize }, ..self }
    }

    /// The state after one reference was given back: a mutable reference leaves no reference,
    /// an immutable one lowers the count, and a count of zero stays zero.
    pub open spec fn release(self) -> Self {
        JailView {
            refs: if self.refs == REFS_MUT {
                0
            } else if self.refs > 0 {
                (self.refs - 1) as usize
            } else {
                0
            },
            ..self
        }
    }
}

/// A single value that can be lent out mutably once or immutably many times at a time, with
/// the reference counting checked at run time.
pub struct JailCell<T> {
    refs: usize,
    val: T,
}

/// The value of a [`JailCell`] lent out mutably, until [`JailValueMut::unguard`] gives it back.
///
/// Dropping the guard does not give the value back: only `unguard` does.
pub struct JailValueMut {}

/// The value of a [`JailCell`] lent out immutably, until [`JailValueRef::unguard`] gives it back.
///
/// Dropping the guard does not give the value back: only `unguard` does.
pub struct JailValueRef {}

impl<T> View for JailCell<T> {
    type V = JailView<T>;

    closed spec fn view(&self) -> JailView<T> {
        JailView { refs: self.refs, val: self.val }
    }
}

/// Lending out a reference and giving it back restores the cell exactly.
pub proof fn lemma_jail_acquire_release<T>(v: JailView<T>, mutable: bool)
    requires
        v.ref_error(mutable) is None,
    ensures
        v.acquire(mutable).release() == v,
{
}

impl<T> JailCell<T> {
    /// Puts `value` in a cell with no references.
    pub fn new(value: T) -> (jail: JailCell<T>)
        ensures
            jail@ == (JailView { refs: 0, val: value }),
    {
        JailCell { refs: 0, val: value }
    }

    /// The reference count: [`REFS_MUT`] while lent out mutably, else the number of immutable
    /// references.
    pub fn ref_count(&self) -> (refs: usize)
        ensures
            refs == self@.refs,
    {
        self.refs
    }

    /// Lends out one reference, or returns why it cannot.
    fn add_ref(&mut self, mutable: bool) -> (r: Result<(), AccessError>)
        ensures
            match old(self)@.ref_error(mutable) {
                Some(e) => r == Err::<(), AccessError>(e) && final(self)@ == old(self)@,
                None => r is Ok && final(self)@ == old(self)@.acquire(mutable),
            },
    {
        if self.refs == REFS_MUT {
            return Err(AccessError::ValueAlreadyMutablyReferenced(0));
        }
        if mutable && self.refs > 0 {
            return Err(AccessError::ValueStillImmutablyReferenced(0));
        }
        if self.refs == REFS_MAX_IMMUT {
            return Err(AccessError::MaximumImmutableReferencesReached(0));
        }
        if mutable {
            self.refs = REFS_MUT;
        } else {
            self.refs = self.refs + 1;
        }
        Ok(())
    }

    /// Gives one reference back.
    fn remove_ref(&mut self)
        ensures
            final(self)@ == old(self)@.release(),
    {
        if self.refs == REFS_MUT {
            self.refs = 0;
        } else if self.refs > 0 {
            self.refs = self.refs - 1;
        }
    }

    /// Runs `operation` on a mutable reference to the value and returns what it returns.
    ///
    /// Refused, without running `operation`, while the value is referenced.
    pub fn visit_mut<F>(&mut self, operation: F) -> (r: Result<(), AccessError>)
        where
            F: FnOnce(&mut T) -> Result<(), AccessError>,
        requires
            forall|x: &mut T| operation.requires((x,)),
        ensures
            match old(self)@.ref_error(true) {
                Some(e) => r == Err::<(), AccessError>(e) && final(self)@ == old(self)@,
                None => exists|m: &mut T|
                    *m == old(self)@.val && operation.ensures((m,), r) && final(self)@ == (JailView {
                        refs: old(self)@.refs,
                        val: *final(m),
                    }),
            },
    {
        match self.add_ref(true) {
            Err(e) => Err(e),
            Ok(()) => {
                let r = operation(&mut self.val);
                self.remove_ref();
                r
            },
        }
    }

    /// Runs `operation` on an immutable reference to the value and returns what it returns.
    ///
    /// Refused, without running `operation`, while the value is mutably referenced or has the
    /// largest number of immutable references.
    ///
    /// The cell stays borrowed while `operation` runs, so nothing can lend the value out
    /// mutably meanwhile; the reference is therefore not added to the count.
    pub fn visit_ref<F>(&self, operation: F) -> (r: Result<(), AccessError>)
        where
            F: FnOnce(&T) -> Result<(), AccessError>,
        requires
            forall|x: &T| operation.requires((x,)),
        ensures
            match self@.ref_error(false) {
                Some(e) => r == Err::<(), AccessError>(e),
                None => operation.ensures((&self@.val,), r),
            },
    {
        if self.refs == REFS_MUT {
            return Err(AccessError::ValueAlreadyMutablyReferenced(0));
        }
        if self.refs == REFS_MAX_IMMUT {
            return Err(AccessError::MaximumImmutableReferencesReached(0));
        }
        operation(&self.val)
    }

    /// Lends out the value mutably until the returned guard is given back.
    pub fn guard_mut(&mut self) -> (r: Result<JailValueMut, AccessError>)
        ensures
            match old(self)@.ref_error(true) {
                Some(e) => r == Err::<JailValueMut, AccessError>(e) && final(self)@ == old(self)@,
                None => r is Ok && final(self)@ == old(self)@.acquire(true),
            },
    {
        match self.add_ref(true) {
            Err(e) => Err(e),
            Ok(()) => Ok(JailValueMut {  }),
        }
    }

    /// Lends out the value immutably until the returned guard is given back.
    pub fn guard_ref(&mut self) -> (r: Result<JailValueRef, AccessError>)
        ensures
            match old(self)@.ref_error(false) {
                Some(e) => r == Err::<JailValueRef, AccessError>(e) && final(self)@ == old(self)@,
                None => r is Ok && final(self)@ == old(self)@.acquire(false),
            },
    {
        match self.add_ref(false) {
            Err(e) => Err(e),
            Ok(()) => Ok(JailValueRef {  }),
        }
    }

    /// Returns a clone of the value, whether or not it is lent out.
    pub fn clone_val(&self) -> (c: T)
        where
            T: Clone,
        ensures
            cloned(self@.val, c),
    {
        self.val.clone()
    }

    /// Returns a reference to the value, whether or not it is lent out.
    pub fn peek_ref(&self) -> (v: &T)
        ensures
            *v == self@.val,
    {
        &self.val
    }
}

impl<T: Default> Default for JailCell<T> {
    fn default() -> (jail: JailCell<T>)
        ensures
            jail@.refs == 0,
    {
        JailCell::new(T::default())
    }
}

impl JailValueMut {
    /// The value lent out.
    pub fn value<'a, T>(&self, jail: &'a JailCell<T>) -> (v: &'a T)
        requires
            jail@.refs == REFS_MUT,
        ensures
            *v == jail@.val,
    {
        &jail.val
    }

    /// Replaces the value lent out with `value`, returning the previous one.
    pub fn replace<T>(&self, jail: &mut JailCell<T>, value: T) -> (previous: T)
        requires
            old(jail)@.refs == REFS_MUT,
        ensures
            previous == old(jail)@.val,
            final(jail)@ == (JailView { refs: old(jail)@.refs, val: value }),
    {
        let mut previous = value;
        std::mem::swap(&mut jail.val, &mut previous);
        previous
    }

    /// Gives the value back: it is no longer referenced.
    pub fn unguard<T>(guard: Self, jail: &mut JailCell<T>)
        requires
            old(jail)@.refs == REFS_MUT,
        ensures
            final(jail)@ == old(jail)@.release(),
    {
        jail.remove_ref();
    }
}

impl JailValueRef {
    /// The value lent out.
    pub fn value<'a, T>(&self, jail: &'a JailCell<T>) -> (v: &'a T)
        requires
            jail@.refs != REFS_MUT,
            jail@.refs > 0,
        ensures
            *v == jail@.val,
    {
        &jail.val
    }

    /// Gives one immutable reference back.
    pub fn unguard<T>(guard: Self, jail: &mut JailCell<T>)
        requires
            old(jail)@.refs != REFS_MUT,
            old(jail)@.refs > 0,
        ensures
            final(jail)@ == old(jail)@.release(),
    {
        jail.remove_ref();
    }
}

} // verus!
