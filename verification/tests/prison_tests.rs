use grit_data_prison::single_threaded::{
    CellState, Prison, PrisonSliceMut, PrisonSliceRef, PrisonValueMut, PrisonValueRef, INVALID_IDX,
    REFS_MUT,
};
use grit_data_prison::{AccessError, CellKey};

#[derive(Debug, PartialEq, Eq)]
struct MyNoCopy(usize);

const INVALID: usize = INVALID_IDX;

fn assert_prison_state<T>(
    prison: &Prison<T>,
    access_count: usize,
    generation: usize,
    next_free: usize,
    free_count: usize,
    vec_len: usize,
) {
    let s = prison.status();
    assert_eq!(
        (s.access_count, s.generation, s.next_free, s.free_count, s.vec_len),
        (access_count, generation, next_free, free_count, vec_len),
        "incorrect prison state"
    );
}

fn assert_cell_state<T: PartialEq + std::fmt::Debug>(
    prison: &Prison<T>,
    idx: usize,
    refs: usize,
    gen: usize,
    val: T,
) {
    assert_eq!(prison.cell_state(idx), Some(CellState::Occupied { refs, gen }), "index {}", idx);
    assert_eq!(prison.peek_ref_idx(idx).unwrap(), &val, "index {}", idx);
}

fn assert_free_state<T>(prison: &Prison<T>, idx: usize, prev: usize, next: usize) {
    assert_eq!(prison.cell_state(idx), Some(CellState::Free { prev, next }), "index {}", idx);
}

fn assert_access_err<T>(result: Result<T, AccessError>, expected: AccessError) {
    match result {
        Err(e) => assert_eq!(e, expected),
        Ok(_) => panic!("operation did not return {:?}", expected),
    }
}

fn assert_cell_key(result: Result<CellKey, AccessError>, idx: usize, gen: usize) -> CellKey {
    match result {
        Ok(key) => {
            assert_eq!(key.into_raw_parts(), (idx, gen));
            key
        },
        Err(e) => panic!("operation returned {:?} instead of a key", e),
    }
}

fn check_insert() -> Result<(), AccessError> {
    let mut prison: Prison<MyNoCopy> = Prison::with_capacity(3);
    assert_prison_state(&prison, 0, 0, INVALID, 0, 0);
    let key_0 = assert_cell_key(prison.insert(MyNoCopy(0)), 0, 0);
    assert_prison_state(&prison, 0, 0, INVALID, 0, 1);
    assert_cell_key(prison.insert(MyNoCopy(1)), 1, 0);
    assert_prison_state(&prison, 0, 0, INVALID, 0, 2);
    let key_2 = assert_cell_key(prison.insert(MyNoCopy(2)), 2, 0);
    assert_prison_state(&prison, 0, 0, INVALID, 0, 3);
    let val_0 = prison.guard_ref(key_0)?;
    assert_access_err(
        prison.insert(MyNoCopy(3)),
        AccessError::InsertAtMaxCapacityWhileAValueIsReferenced,
    );
    PrisonValueRef::unguard(val_0, &mut prison);
    let val_0 = prison.guard_mut(key_0)?;
    assert_access_err(
        prison.insert(MyNoCopy(3)),
        AccessError::InsertAtMaxCapacityWhileAValueIsReferenced,
    );
    PrisonValueMut::unguard(val_0, &mut prison);
    assert_cell_key(prison.insert(MyNoCopy(3)), 3, 0);
    assert_prison_state(&prison, 0, 0, INVALID, 0, 4);
    assert_cell_state(&prison, 0, 0, 0, MyNoCopy(0));
    assert_cell_state(&prison, 1, 0, 0, MyNoCopy(1));
    assert_cell_state(&prison, 2, 0, 0, MyNoCopy(2));
    assert_cell_state(&prison, 3, 0, 0, MyNoCopy(3));
    prison.remove(key_2)?;
    assert_free_state(&prison, 2, INVALID, INVALID);
    assert_prison_state(&prison, 0, 1, 2, 1, 4);
    assert_cell_key(prison.insert(MyNoCopy(22)), 2, 1);
    assert_cell_state(&prison, 2, 0, 1, MyNoCopy(22));
    assert_prison_state(&prison, 0, 1, INVALID, 0, 4);
    Ok(())
}

fn check_insert_at() -> Result<(), AccessError> {
    let mut prison: Prison<MyNoCopy> = Prison::with_capacity(3);
    assert_prison_state(&prison, 0, 0, INVALID, 0, 0);
    assert_access_err(prison.insert_at(0, MyNoCopy(0)), AccessError::IndexOutOfRange(0));
    let key_0 = assert_cell_key(prison.insert(MyNoCopy(0)), 0, 0);
    assert_prison_state(&prison, 0, 0, INVALID, 0, 1);
    let key_1 = assert_cell_key(prison.insert(MyNoCopy(1)), 1, 0);
    assert_prison_state(&prison, 0, 0, INVALID, 0, 2);
    let key_2 = assert_cell_key(prison.insert(MyNoCopy(2)), 2, 0);
    assert_prison_state(&prison, 0, 0, INVALID, 0, 3);
    prison.remove(key_0)?;
    assert_prison_state(&prison, 0, 1, 0, 1, 3);
    assert_free_state(&prison, 0, INVALID, INVALID);
    prison.remove(key_1)?;
    assert_prison_state(&prison, 0, 1, 1, 2, 3);
    assert_free_state(&prison, 1, INVALID, 0);
    assert_free_state(&prison, 0, 1, INVALID);
    prison.remove(key_2)?;
    assert_free_state(&prison, 2, INVALID, 1);
    assert_free_state(&prison, 1, 2, 0);
    assert_free_state(&prison, 0, 1, INVALID);
    assert_prison_state(&prison, 0, 1, 2, 3, 3);
    let key_0 = assert_cell_key(prison.insert_at(0, MyNoCopy(10)), 0, 1);
    assert_prison_state(&prison, 0, 1, 2, 2, 3);
    assert_free_state(&prison, 2, INVALID, 1);
    assert_free_state(&prison, 1, 2, INVALID);
    let key_1 = assert_cell_key(prison.insert_at(1, MyNoCopy(11)), 1, 1);
    assert_prison_state(&prison, 0, 1, 2, 1, 3);
    assert_free_state(&prison, 2, INVALID, INVALID);
    let key_2 = assert_cell_key(prison.insert_at(2, MyNoCopy(12)), 2, 1);
    assert_prison_state(&prison, 0, 1, INVALID, 0, 3);
    assert_access_err(prison.insert_at(0, MyNoCopy(0)), AccessError::IndexIsNotFree(0));
    assert_cell_state(&prison, 0, 0, 1, MyNoCopy(10));
    assert_cell_state(&prison, 1, 0, 1, MyNoCopy(11));
    assert_cell_state(&prison, 2, 0, 1, MyNoCopy(12));
    prison.remove(key_0)?;
    prison.remove(key_1)?;
    prison.remove(key_2)?;
    assert_cell_key(prison.insert_at(1, MyNoCopy(111)), 1, 2);
    assert_free_state(&prison, 2, INVALID, 0);
    assert_cell_state(&prison, 1, 0, 2, MyNoCopy(111));
    assert_free_state(&prison, 0, 2, INVALID);
    Ok(())
}

fn check_overwrite() -> Result<(), AccessError> {
    let mut prison: Prison<MyNoCopy> = Prison::with_capacity(3);
    assert_prison_state(&prison, 0, 0, INVALID, 0, 0);
    assert_access_err(prison.insert_at(0, MyNoCopy(0)), AccessError::IndexOutOfRange(0));
    let key_0 = assert_cell_key(prison.insert(MyNoCopy(0)), 0, 0);
    assert_prison_state(&prison, 0, 0, INVALID, 0, 1);
    let key_1 = assert_cell_key(prison.insert(MyNoCopy(1)), 1, 0);
    assert_prison_state(&prison, 0, 0, INVALID, 0, 2);
    let key_2 = assert_cell_key(prison.insert(MyNoCopy(2)), 2, 0);
    assert_prison_state(&prison, 0, 0, INVALID, 0, 3);
    prison.remove(key_0)?;
    assert_prison_state(&prison, 0, 1, 0, 1, 3);
    assert_free_state(&prison, 0, INVALID, INVALID);
    prison.remove(key_1)?;
    assert_prison_state(&prison, 0, 1, 1, 2, 3);
    assert_free_state(&prison, 1, INVALID, 0);
    assert_free_state(&prison, 0, 1, INVALID);
    prison.remove(key_2)?;
    assert_free_state(&prison, 2, INVALID, 1);
    assert_free_state(&prison, 1, 2, 0);
    assert_free_state(&prison, 0, 1, INVALID);
    assert_prison_state(&prison, 0, 1, 2, 3, 3);
    let key_0 = assert_cell_key(prison.overwrite(0, MyNoCopy(10)), 0, 1);
    assert_prison_state(&prison, 0, 1, 2, 2, 3);
    assert_free_state(&prison, 2, INVALID, 1);
    assert_free_state(&prison, 1, 2, INVALID);
    let key_1 = assert_cell_key(prison.overwrite(1, MyNoCopy(11)), 1, 1);
    assert_prison_state(&prison, 0, 1, 2, 1, 3);
    assert_free_state(&prison, 2, INVALID, INVALID);
    let key_2 = assert_cell_key(prison.overwrite(2, MyNoCopy(12)), 2, 1);
    assert_prison_state(&prison, 0, 1, INVALID, 0, 3);
    assert_cell_state(&prison, 0, 0, 1, MyNoCopy(10));
    assert_cell_state(&prison, 1, 0, 1, MyNoCopy(11));
    assert_cell_state(&prison, 2, 0, 1, MyNoCopy(12));
    prison.remove(key_0)?;
    prison.remove(key_1)?;
    prison.remove(key_2)?;
    assert_cell_key(prison.overwrite(1, MyNoCopy(111)), 1, 2);
    assert_free_state(&prison, 2, INVALID, 0);
    assert_cell_state(&prison, 1, 0, 2, MyNoCopy(111));
    assert_free_state(&prison, 0, 2, INVALID);
    // overwriting a cell that holds a value
    assert_cell_key(prison.overwrite(1, MyNoCopy(1111)), 1, 3);
    assert_cell_state(&prison, 1, 0, 3, MyNoCopy(1111));
    assert_prison_state(&prison, 0, 3, 2, 2, 3);
    Ok(())
}

#[test]
fn insert() -> Result<(), AccessError> {
    check_insert()
}

#[test]
fn insert_at() -> Result<(), AccessError> {
    check_insert_at()
}

#[test]
fn overwrite() -> Result<(), AccessError> {
    check_overwrite()
}

#[test]
fn prison_insert() -> Result<(), AccessError> {
    check_insert()
}

#[test]
fn prison_insert_at() -> Result<(), AccessError> {
    check_insert_at()
}

#[test]
fn prison_overwrite() -> Result<(), AccessError> {
    check_overwrite()
}

#[test]
fn prison_remove() -> Result<(), AccessError> {
    let mut prison: Prison<MyNoCopy> = Prison::with_capacity(3);
    let key_0 = prison.insert(MyNoCopy(0))?;
    let key_1 = prison.insert(MyNoCopy(1))?;
    let key_2 = prison.insert(MyNoCopy(2))?;
    prison.remove(key_0)?;
    assert_prison_state(&prison, 0, 1, 0, 1, 3);
    assert_free_state(&prison, 0, INVALID, INVALID);
    prison.remove(key_1)?;
    assert_prison_state(&prison, 0, 1, 1, 2, 3);
    assert_free_state(&prison, 1, INVALID, 0);
    assert_free_state(&prison, 0, 1, INVALID);
    prison.remove(key_2)?;
    assert_free_state(&prison, 2, INVALID, 1);
    assert_free_state(&prison, 1, 2, 0);
    assert_free_state(&prison, 0, 1, INVALID);
    assert_prison_state(&prison, 0, 1, 2, 3, 3);
    let key_0 = prison.insert_at(0, MyNoCopy(10))?;
    let key_1 = prison.insert_at(1, MyNoCopy(11))?;
    let key_2 = prison.insert_at(2, MyNoCopy(12))?;
    assert_prison_state(&prison, 0, 1, INVALID, 0, 3);
    prison.remove(key_2)?;
    assert_prison_state(&prison, 0, 2, 2, 1, 3);
    assert_free_state(&prison, 2, INVALID, INVALID);
    prison.remove(key_1)?;
    assert_prison_state(&prison, 0, 2, 1, 2, 3);
    assert_free_state(&prison, 1, INVALID, 2);
    assert_free_state(&prison, 2, 1, INVALID);
    prison.remove(key_0)?;
    assert_prison_state(&prison, 0, 2, 0, 3, 3);
    assert_free_state(&prison, 0, INVALID, 1);
    assert_free_state(&prison, 1, 0, 2);
    assert_free_state(&prison, 2, 1, INVALID);
    let key_0 = prison.insert_at(0, MyNoCopy(100))?;
    let key_1 = prison.insert_at(1, MyNoCopy(110))?;
    let key_2 = prison.insert_at(2, MyNoCopy(120))?;
    assert_prison_state(&prison, 0, 2, INVALID, 0, 3);
    prison.remove(key_1)?;
    assert_prison_state(&prison, 0, 3, 1, 1, 3);
    assert_free_state(&prison, 1, INVALID, INVALID);
    prison.remove(key_0)?;
    assert_prison_state(&prison, 0, 3, 0, 2, 3);
    assert_free_state(&prison, 0, INVALID, 1);
    assert_free_state(&prison, 1, 0, INVALID);
    prison.remove(key_2)?;
    assert_prison_state(&prison, 0, 3, 2, 3, 3);
    assert_free_state(&prison, 2, INVALID, 0);
    assert_free_state(&prison, 0, 2, 1);
    assert_free_state(&prison, 1, 0, INVALID);
    Ok(())
}

#[test]
fn prison_remove_idx() -> Result<(), AccessError> {
    let mut prison: Prison<MyNoCopy> = Prison::with_capacity(3);
    prison.insert(MyNoCopy(0))?;
    prison.insert(MyNoCopy(1))?;
    prison.insert(MyNoCopy(2))?;
    prison.remove_idx(0)?;
    assert_prison_state(&prison, 0, 1, 0, 1, 3);
    assert_free_state(&prison, 0, INVALID, INVALID);
    prison.remove_idx(1)?;
    assert_prison_state(&prison, 0, 1, 1, 2, 3);
    assert_free_state(&prison, 1, INVALID, 0);
    assert_free_state(&prison, 0, 1, INVALID);
    prison.remove_idx(2)?;
    assert_free_state(&prison, 2, INVALID, 1);
    assert_free_state(&prison, 1, 2, 0);
    assert_free_state(&prison, 0, 1, INVALID);
    assert_prison_state(&prison, 0, 1, 2, 3, 3);
    prison.insert_at(0, MyNoCopy(10))?;
    prison.insert_at(1, MyNoCopy(11))?;
    prison.insert_at(2, MyNoCopy(12))?;
    assert_prison_state(&prison, 0, 1, INVALID, 0, 3);
    prison.remove_idx(2)?;
    assert_prison_state(&prison, 0, 2, 2, 1, 3);
    assert_free_state(&prison, 2, INVALID, INVALID);
    prison.remove_idx(1)?;
    assert_prison_state(&prison, 0, 2, 1, 2, 3);
    assert_free_state(&prison, 1, INVALID, 2);
    assert_free_state(&prison, 2, 1, INVALID);
    prison.remove_idx(0)?;
    assert_prison_state(&prison, 0, 2, 0, 3, 3);
    assert_free_state(&prison, 0, INVALID, 1);
    assert_free_state(&prison, 1, 0, 2);
    assert_free_state(&prison, 2, 1, INVALID);
    prison.insert_at(0, MyNoCopy(100))?;
    prison.insert_at(1, MyNoCopy(110))?;
    prison.insert_at(2, MyNoCopy(120))?;
    assert_prison_state(&prison, 0, 2, INVALID, 0, 3);
    prison.remove_idx(1)?;
    assert_prison_state(&prison, 0, 3, 1, 1, 3);
    assert_free_state(&prison, 1, INVALID, INVALID);
    prison.remove_idx(0)?;
    assert_prison_state(&prison, 0, 3, 0, 2, 3);
    assert_free_state(&prison, 0, INVALID, 1);
    assert_free_state(&prison, 1, 0, INVALID);
    prison.remove_idx(2)?;
    assert_prison_state(&prison, 0, 3, 2, 3, 3);
    assert_free_state(&prison, 2, INVALID, 0);
    assert_free_state(&prison, 0, 2, 1);
    assert_free_state(&prison, 1, 0, INVALID);
    Ok(())
}

#[test]
fn prison_visit_mut() -> Result<(), AccessError> {
    let mut prison: Prison<MyNoCopy> = Prison::with_capacity(3);
    assert_access_err(
        prison.visit_mut(CellKey::from_raw_parts(0, 0), |_| Ok(())),
        AccessError::IndexOutOfRange(0),
    );
    let key_0 = prison.insert(MyNoCopy(0))?;
    let key_1 = prison.insert(MyNoCopy(1))?;
    let key_2 = prison.insert(MyNoCopy(2))?;
    prison.visit_mut(key_0, |val_0| {
        assert_eq!(*val_0, MyNoCopy(0));
        *val_0 = MyNoCopy(10);
        assert_eq!(*val_0, MyNoCopy(10));
        Ok(())
    })?;
    assert_cell_state(&prison, 0, 0, 0, MyNoCopy(10));
    // while the value is lent out mutably
    let val_0 = prison.guard_mut(key_0)?;
    assert_cell_state(&prison, 0, REFS_MUT, 0, MyNoCopy(10));
    assert_access_err(
        prison.visit_mut(key_0, |_| Ok(())),
        AccessError::ValueAlreadyMutablyReferenced(0),
    );
    PrisonValueMut::unguard(val_0, &mut prison);
    // while the value is lent out immutably
    let val_0 = prison.guard_ref(key_0)?;
    assert_access_err(
        prison.visit_mut(key_0, |_| Ok(())),
        AccessError::ValueStillImmutablyReferenced(0),
    );
    PrisonValueRef::unguard(val_0, &mut prison);
    // three values lent out mutably at once
    let val_0 = prison.guard_mut(key_0)?;
    let val_1 = prison.guard_mut(key_1)?;
    let val_2 = prison.guard_mut(key_2)?;
    assert_eq!(*val_0.value(&prison), MyNoCopy(10));
    assert_eq!(*val_1.value(&prison), MyNoCopy(1));
    assert_eq!(*val_2.value(&prison), MyNoCopy(2));
    val_0.replace(&mut prison, MyNoCopy(100));
    val_1.replace(&mut prison, MyNoCopy(200));
    val_2.replace(&mut prison, MyNoCopy(300));
    assert_eq!(*val_0.value(&prison), MyNoCopy(100));
    assert_eq!(*val_1.value(&prison), MyNoCopy(200));
    assert_eq!(*val_2.value(&prison), MyNoCopy(300));
    assert_cell_state(&prison, 0, REFS_MUT, 0, MyNoCopy(100));
    assert_cell_state(&prison, 1, REFS_MUT, 0, MyNoCopy(200));
    assert_cell_state(&prison, 2, REFS_MUT, 0, MyNoCopy(300));
    PrisonValueMut::unguard(val_2, &mut prison);
    PrisonValueMut::unguard(val_1, &mut prison);
    PrisonValueMut::unguard(val_0, &mut prison);
    assert_cell_state(&prison, 0, 0, 0, MyNoCopy(100));
    assert_cell_state(&prison, 1, 0, 0, MyNoCopy(200));
    assert_cell_state(&prison, 2, 0, 0, MyNoCopy(300));
    prison.remove(key_0)?;
    assert_access_err(prison.visit_mut(key_0, |_| Ok(())), AccessError::ValueDeleted(0, 0));
    Ok(())
}

#[test]
fn prison_visit_ref() -> Result<(), AccessError> {
    let mut prison: Prison<MyNoCopy> = Prison::with_capacity(3);
    assert_access_err(
        prison.visit_ref(CellKey::from_raw_parts(0, 0), |_| Ok(())),
        AccessError::IndexOutOfRange(0),
    );
    let key_0 = prison.insert(MyNoCopy(0))?;
    let key_1 = prison.insert(MyNoCopy(1))?;
    let key_2 = prison.insert(MyNoCopy(2))?;
    prison.visit_ref(key_0, |val_0| {
        assert_eq!(*val_0, MyNoCopy(0));
        Ok(())
    })?;
    let val_0 = prison.guard_ref(key_0)?;
    assert_cell_state(&prison, 0, 1, 0, MyNoCopy(0));
    PrisonValueRef::unguard(val_0, &mut prison);
    let val_0 = prison.guard_mut(key_0)?;
    assert_access_err(
        prison.visit_ref(key_0, |_| Ok(())),
        AccessError::ValueAlreadyMutablyReferenced(0),
    );
    PrisonValueMut::unguard(val_0, &mut prison);
    let val_0 = prison.guard_ref(key_0)?;
    let val_1 = prison.guard_ref(key_1)?;
    let val_2 = prison.guard_ref(key_2)?;
    assert_eq!(*val_0.value(&prison), MyNoCopy(0));
    assert_eq!(*val_1.value(&prison), MyNoCopy(1));
    assert_eq!(*val_2.value(&prison), MyNoCopy(2));
    assert_cell_state(&prison, 0, 1, 0, MyNoCopy(0));
    assert_cell_state(&prison, 1, 1, 0, MyNoCopy(1));
    assert_cell_state(&prison, 2, 1, 0, MyNoCopy(2));
    let val_2_b = prison.guard_ref(key_2)?;
    assert_cell_state(&prison, 2, 2, 0, MyNoCopy(2));
    let val_2_c = prison.guard_ref(key_2)?;
    assert_cell_state(&prison, 2, 3, 0, MyNoCopy(2));
    prison.visit_ref(key_2, |val| {
        assert_eq!(*val, MyNoCopy(2));
        Ok(())
    })?;
    PrisonValueRef::unguard(val_2_c, &mut prison);
    assert_cell_state(&prison, 2, 2, 0, MyNoCopy(2));
    PrisonValueRef::unguard(val_2_b, &mut prison);
    PrisonValueRef::unguard(val_2, &mut prison);
    PrisonValueRef::unguard(val_1, &mut prison);
    PrisonValueRef::unguard(val_0, &mut prison);
    assert_cell_state(&prison, 0, 0, 0, MyNoCopy(0));
    assert_cell_state(&prison, 1, 0, 0, MyNoCopy(1));
    assert_cell_state(&prison, 2, 0, 0, MyNoCopy(2));
    prison.remove(key_0)?;
    assert_access_err(prison.visit_ref(key_0, |_| Ok(())), AccessError::ValueDeleted(0, 0));
    Ok(())
}

#[test]
fn prison_visit_mut_idx() -> Result<(), AccessError> {
    let mut prison: Prison<MyNoCopy> = Prison::with_capacity(3);
    assert_access_err(prison.visit_mut_idx(0, |_| Ok(())), AccessError::IndexOutOfRange(0));
    prison.insert(MyNoCopy(0))?;
    prison.insert(MyNoCopy(1))?;
    prison.insert(MyNoCopy(2))?;
    prison.visit_mut_idx(0, |val_0| {
        assert_eq!(*val_0, MyNoCopy(0));
        *val_0 = MyNoCopy(10);
        assert_eq!(*val_0, MyNoCopy(10));
        Ok(())
    })?;
    let val_0 = prison.guard_mut_idx(0)?;
    assert_cell_state(&prison, 0, REFS_MUT, 0, MyNoCopy(10));
    assert_access_err(
        prison.visit_mut_idx(0, |_| Ok(())),
        AccessError::ValueAlreadyMutablyReferenced(0),
    );
    PrisonValueMut::unguard(val_0, &mut prison);
    let val_0 = prison.guard_ref_idx(0)?;
    assert_access_err(
        prison.visit_mut_idx(0, |_| Ok(())),
        AccessError::ValueStillImmutablyReferenced(0),
    );
    PrisonValueRef::unguard(val_0, &mut prison);
    let val_0 = prison.guard_mut_idx(0)?;
    let val_1 = prison.guard_mut_idx(1)?;
    let val_2 = prison.guard_mut_idx(2)?;
    assert_eq!(*val_0.value(&prison), MyNoCopy(10));
    assert_eq!(*val_1.value(&prison), MyNoCopy(1));
    assert_eq!(*val_2.value(&prison), MyNoCopy(2));
    val_0.replace(&mut prison, MyNoCopy(100));
    val_1.replace(&mut prison, MyNoCopy(200));
    val_2.replace(&mut prison, MyNoCopy(300));
    assert_cell_state(&prison, 0, REFS_MUT, 0, MyNoCopy(100));
    assert_cell_state(&prison, 1, REFS_MUT, 0, MyNoCopy(200));
    assert_cell_state(&prison, 2, REFS_MUT, 0, MyNoCopy(300));
    PrisonValueMut::unguard(val_2, &mut prison);
    PrisonValueMut::unguard(val_1, &mut prison);
    PrisonValueMut::unguard(val_0, &mut prison);
    assert_cell_state(&prison, 0, 0, 0, MyNoCopy(100));
    assert_cell_state(&prison, 1, 0, 0, MyNoCopy(200));
    assert_cell_state(&prison, 2, 0, 0, MyNoCopy(300));
    prison.remove_idx(0)?;
    assert_access_err(prison.visit_mut_idx(0, |_| Ok(())), AccessError::ValueDeleted(0, 0));
    Ok(())
}

#[test]
fn prison_visit_ref_idx() -> Result<(), AccessError> {
    let mut prison: Prison<MyNoCopy> = Prison::with_capacity(3);
    assert_access_err(
        prison.visit_ref(CellKey::from_raw_parts(0, 0), |_| Ok(())),
        AccessError::IndexOutOfRange(0),
    );
    prison.insert(MyNoCopy(0))?;
    prison.insert(MyNoCopy(1))?;
    prison.insert(MyNoCopy(2))?;
    prison.visit_ref_idx(0, |val_0| {
        assert_eq!(*val_0, MyNoCopy(0));
        Ok(())
    })?;
    let val_0 = prison.guard_mut_idx(0)?;
    assert_access_err(
        prison.visit_ref_idx(0, |_| Ok(())),
        AccessError::ValueAlreadyMutablyReferenced(0),
    );
    PrisonValueMut::unguard(val_0, &mut prison);
    let val_0 = prison.guard_ref_idx(0)?;
    let val_1 = prison.guard_ref_idx(1)?;
    let val_2 = prison.guard_ref_idx(2)?;
    assert_cell_state(&prison, 0, 1, 0, MyNoCopy(0));
    assert_cell_state(&prison, 1, 1, 0, MyNoCopy(1));
    assert_cell_state(&prison, 2, 1, 0, MyNoCopy(2));
    let val_2_b = prison.guard_ref_idx(2)?;
    assert_cell_state(&prison, 2, 2, 0, MyNoCopy(2));
    let val_2_c = prison.guard_ref_idx(2)?;
    assert_cell_state(&prison, 2, 3, 0, MyNoCopy(2));
    prison.visit_ref_idx(2, |val| {
        assert_eq!(*val, MyNoCopy(2));
        Ok(())
    })?;
    PrisonValueRef::unguard(val_2_c, &mut prison);
    assert_cell_state(&prison, 2, 2, 0, MyNoCopy(2));
    PrisonValueRef::unguard(val_2_b, &mut prison);
    PrisonValueRef::unguard(val_2, &mut prison);
    PrisonValueRef::unguard(val_1, &mut prison);
    PrisonValueRef::unguard(val_0, &mut prison);
    assert_cell_state(&prison, 0, 0, 0, MyNoCopy(0));
    assert_cell_state(&prison, 1, 0, 0, MyNoCopy(1));
    assert_cell_state(&prison, 2, 0, 0, MyNoCopy(2));
    prison.remove_idx(0)?;
    assert_access_err(prison.visit_ref_idx(0, |_| Ok(())), AccessError::ValueDeleted(0, 0));
    Ok(())
}

fn five_values() -> Result<(Prison<MyNoCopy>, [CellKey; 5]), AccessError> {
    let mut prison: Prison<MyNoCopy> = Prison::with_capacity(5);
    let key_0 = prison.insert(MyNoCopy(0))?;
    let key_1 = prison.insert(MyNoCopy(1))?;
    let key_2 = prison.insert(MyNoCopy(2))?;
    let key_3 = prison.insert(MyNoCopy(3))?;
    let key_4 = prison.insert(MyNoCopy(4))?;
    Ok((prison, [key_0, key_1, key_2, key_3, key_4]))
}

#[test]
fn prison_visit_many_mut() -> Result<(), AccessError> {
    let mut prison: Prison<MyNoCopy> = Prison::with_capacity(5);
    assert_access_err(
        prison.visit_many_mut(&[CellKey::from_raw_parts(0, 0)], |_| Ok(())),
        AccessError::IndexOutOfRange(0),
    );
    assert!(prison.visit_many_mut(&[], |_| Ok(())).is_ok());
    let (mut prison, [key_0, key_1, key_2, key_3, key_4]) = five_values()?;
    prison.visit_many_mut(&[key_0, key_1], |vals_0_1| {
        assert_eq!(vals_0_1[0], MyNoCopy(0));
        assert_eq!(vals_0_1[1], MyNoCopy(1));
        vals_0_1[0] = MyNoCopy(10);
        vals_0_1[1] = MyNoCopy(11);
        assert_eq!(vals_0_1[0], MyNoCopy(10));
        assert_eq!(vals_0_1[1], MyNoCopy(11));
        Ok(())
    })?;
    assert_cell_state(&prison, 0, 0, 0, MyNoCopy(10));
    assert_cell_state(&prison, 1, 0, 0, MyNoCopy(11));
    let vals_0_1 = prison.guard_many_mut(&[key_0, key_1])?;
    assert_cell_state(&prison, 0, REFS_MUT, 0, MyNoCopy(10));
    assert_cell_state(&prison, 1, REFS_MUT, 0, MyNoCopy(11));
    assert_access_err(
        prison.visit_many_mut(&[key_0], |_| Ok(())),
        AccessError::ValueAlreadyMutablyReferenced(0),
    );
    PrisonSliceMut::unguard(vals_0_1, &mut prison);
    let val_0 = prison.guard_ref(key_0)?;
    assert_access_err(
        prison.visit_many_mut(&[key_0, key_1], |_| Ok(())),
        AccessError::ValueStillImmutablyReferenced(0),
    );
    PrisonValueRef::unguard(val_0, &mut prison);
    let vals_0_2_4 = prison.guard_many_mut(&[key_0, key_2, key_4])?;
    prison.visit_many_mut(&[key_1, key_3], |vals_1_3| {
        assert_eq!(vals_1_3[0], MyNoCopy(11));
        assert_eq!(vals_1_3[1], MyNoCopy(3));
        vals_1_3[0] = MyNoCopy(200);
        vals_1_3[1] = MyNoCopy(400);
        Ok(())
    })?;
    assert_eq!(*vals_0_2_4.value(0, &prison), MyNoCopy(10));
    assert_eq!(*vals_0_2_4.value(1, &prison), MyNoCopy(2));
    assert_eq!(*vals_0_2_4.value(2, &prison), MyNoCopy(4));
    vals_0_2_4.replace(0, &mut prison, MyNoCopy(100));
    vals_0_2_4.replace(1, &mut prison, MyNoCopy(300));
    vals_0_2_4.replace(2, &mut prison, MyNoCopy(500));
    assert_cell_state(&prison, 0, REFS_MUT, 0, MyNoCopy(100));
    assert_cell_state(&prison, 1, 0, 0, MyNoCopy(200));
    assert_cell_state(&prison, 2, REFS_MUT, 0, MyNoCopy(300));
    assert_cell_state(&prison, 3, 0, 0, MyNoCopy(400));
    assert_cell_state(&prison, 4, REFS_MUT, 0, MyNoCopy(500));
    PrisonSliceMut::unguard(vals_0_2_4, &mut prison);
    assert_cell_state(&prison, 0, 0, 0, MyNoCopy(100));
    assert_cell_state(&prison, 1, 0, 0, MyNoCopy(200));
    assert_cell_state(&prison, 2, 0, 0, MyNoCopy(300));
    assert_cell_state(&prison, 3, 0, 0, MyNoCopy(400));
    assert_cell_state(&prison, 4, 0, 0, MyNoCopy(500));
    prison.remove(key_0)?;
    assert_access_err(
        prison.visit_many_mut(&[key_0], |_| Ok(())),
        AccessError::ValueDeleted(0, 0),
    );
    Ok(())
}

#[test]
fn prison_visit_many_ref() -> Result<(), AccessError> {
    let mut prison: Prison<MyNoCopy> = Prison::with_capacity(5);
    assert_access_err(
        prison.visit_many_ref(&[CellKey::from_raw_parts(0, 0)], |_| Ok(())),
        AccessError::IndexOutOfRange(0),
    );
    assert!(prison.visit_many_ref(&[], |_| Ok(())).is_ok());
    let (mut prison, [key_0, key_1, key_2, key_3, key_4]) = five_values()?;
    prison.visit_many_ref(&[key_0, key_1], |vals_0_1| {
        assert_eq!(*vals_0_1[0], MyNoCopy(0));
        assert_eq!(*vals_0_1[1], MyNoCopy(1));
        Ok(())
    })?;
    let val_0 = prison.guard_mut(key_0)?;
    assert_access_err(
        prison.visit_many_ref(&[key_0, key_1], |_| Ok(())),
        AccessError::ValueAlreadyMutablyReferenced(0),
    );
    PrisonValueMut::unguard(val_0, &mut prison);
    let vals_a = prison.guard_many_ref(&[key_0, key_1, key_2, key_3, key_4])?;
    assert_cell_state(&prison, 0, 1, 0, MyNoCopy(0));
    assert_cell_state(&prison, 4, 1, 0, MyNoCopy(4));
    prison.visit_many_ref(&[key_0, key_1, key_2, key_3, key_4], |vals_b| {
        assert_eq!(*vals_b[0], MyNoCopy(0));
        assert_eq!(*vals_b[1], MyNoCopy(1));
        assert_eq!(*vals_b[2], MyNoCopy(2));
        assert_eq!(*vals_b[3], MyNoCopy(3));
        assert_eq!(*vals_b[4], MyNoCopy(4));
        Ok(())
    })?;
    let vals_b = prison.guard_many_ref(&[key_0, key_1, key_2, key_3, key_4])?;
    assert_eq!(*vals_a.value(0, &prison), MyNoCopy(0));
    assert_eq!(*vals_b.value(1, &prison), MyNoCopy(1));
    assert_eq!(*vals_a.value(2, &prison), MyNoCopy(2));
    assert_eq!(*vals_b.value(3, &prison), MyNoCopy(3));
    assert_eq!(*vals_a.value(4, &prison), MyNoCopy(4));
    assert_cell_state(&prison, 0, 2, 0, MyNoCopy(0));
    assert_cell_state(&prison, 1, 2, 0, MyNoCopy(1));
    assert_cell_state(&prison, 2, 2, 0, MyNoCopy(2));
    assert_cell_state(&prison, 3, 2, 0, MyNoCopy(3));
    assert_cell_state(&prison, 4, 2, 0, MyNoCopy(4));
    PrisonSliceRef::unguard(vals_b, &mut prison);
    assert_cell_state(&prison, 0, 1, 0, MyNoCopy(0));
    assert_cell_state(&prison, 4, 1, 0, MyNoCopy(4));
    PrisonSliceRef::unguard(vals_a, &mut prison);
    assert_cell_state(&prison, 0, 0, 0, MyNoCopy(0));
    assert_cell_state(&prison, 1, 0, 0, MyNoCopy(1));
    assert_cell_state(&prison, 2, 0, 0, MyNoCopy(2));
    assert_cell_state(&prison, 3, 0, 0, MyNoCopy(3));
    assert_cell_state(&prison, 4, 0, 0, MyNoCopy(4));
    prison.remove(key_0)?;
    assert_access_err(
        prison.visit_many_ref(&[key_0], |_| Ok(())),
        AccessError::ValueDeleted(0, 0),
    );
    Ok(())
}

#[test]
fn prison_visit_many_mut_idx() -> Result<(), AccessError> {
    let mut prison: Prison<MyNoCopy> = Prison::with_capacity(5);
    assert_access_err(
        prison.visit_many_mut_idx(&[0], |_| Ok(())),
        AccessError::IndexOutOfRange(0),
    );
    assert!(prison.visit_many_mut_idx(&[], |_| Ok(())).is_ok());
    let (mut prison, _) = five_values()?;
    prison.visit_many_mut_idx(&[0, 1], |vals_0_1| {
        assert_eq!(vals_0_1[0], MyNoCopy(0));
        assert_eq!(vals_0_1[1], MyNoCopy(1));
        vals_0_1[0] = MyNoCopy(10);
        vals_0_1[1] = MyNoCopy(11);
        Ok(())
    })?;
    assert_cell_state(&prison, 0, 0, 0, MyNoCopy(10));
    assert_cell_state(&prison, 1, 0, 0, MyNoCopy(11));
    let vals_0_1 = prison.guard_many_mut_idx(&[0, 1])?;
    assert_access_err(
        prison.visit_many_mut_idx(&[0], |_| Ok(())),
        AccessError::ValueAlreadyMutablyReferenced(0),
    );
    PrisonSliceMut::unguard(vals_0_1, &mut prison);
    let val_0 = prison.guard_ref_idx(0)?;
    assert_access_err(
        prison.visit_many_mut_idx(&[0, 1], |_| Ok(())),
        AccessError::ValueStillImmutablyReferenced(0),
    );
    PrisonValueRef::unguard(val_0, &mut prison);
    let vals_0_2_4 = prison.guard_many_mut_idx(&[0, 2, 4])?;
    prison.visit_many_mut_idx(&[1, 3], |vals_1_3| {
        assert_eq!(vals_1_3[0], MyNoCopy(11));
        assert_eq!(vals_1_3[1], MyNoCopy(3));
        vals_1_3[0] = MyNoCopy(200);
        vals_1_3[1] = MyNoCopy(400);
        Ok(())
    })?;
    vals_0_2_4.replace(0, &mut prison, MyNoCopy(100));
    vals_0_2_4.replace(1, &mut prison, MyNoCopy(300));
    vals_0_2_4.replace(2, &mut prison, MyNoCopy(500));
    assert_cell_state(&prison, 0, REFS_MUT, 0, MyNoCopy(100));
    assert_cell_state(&prison, 2, REFS_MUT, 0, MyNoCopy(300));
    assert_cell_state(&prison, 4, REFS_MUT, 0, MyNoCopy(500));
    PrisonSliceMut::unguard(vals_0_2_4, &mut prison);
    assert_cell_state(&prison, 0, 0, 0, MyNoCopy(100));
    assert_cell_state(&prison, 1, 0, 0, MyNoCopy(200));
    assert_cell_state(&prison, 2, 0, 0, MyNoCopy(300));
    assert_cell_state(&prison, 3, 0, 0, MyNoCopy(400));
    assert_cell_state(&prison, 4, 0, 0, MyNoCopy(500));
    prison.remove_idx(0)?;
    assert_access_err(
        prison.visit_many_mut_idx(&[0], |_| Ok(())),
        AccessError::ValueDeleted(0, 0),
    );
    Ok(())
}

#[test]
fn prison_visit_many_ref_idx() -> Result<(), AccessError> {
    let mut prison: Prison<MyNoCopy> = Prison::with_capacity(5);
    assert_access_err(
        prison.visit_many_ref_idx(&[0], |_| Ok(())),
        AccessError::IndexOutOfRange(0),
    );
    assert!(prison.visit_many_ref_idx(&[], |_| Ok(())).is_ok());
    let (mut prison, _) = five_values()?;
    prison.visit_many_ref_idx(&[0, 1], |vals_0_1| {
        assert_eq!(*vals_0_1[0], MyNoCopy(0));
        assert_eq!(*vals_0_1[1], MyNoCopy(1));
        Ok(())
    })?;
    let val_0 = prison.guard_mut_idx(0)?;
    assert_access_err(
        prison.visit_many_ref_idx(&[0, 1], |_| Ok(())),
        AccessError::ValueAlreadyMutablyReferenced(0),
    );
    PrisonValueMut::unguard(val_0, &mut prison);
    let vals_a = prison.guard_many_ref_idx(&[0, 1, 2, 3, 4])?;
    assert_cell_state(&prison, 2, 1, 0, MyNoCopy(2));
    prison.visit_many_ref_idx(&[0, 1, 2, 3, 4], |vals_b| {
        assert_eq!(*vals_b[0], MyNoCopy(0));
        assert_eq!(*vals_b[1], MyNoCopy(1));
        assert_eq!(*vals_b[2], MyNoCopy(2));
        assert_eq!(*vals_b[3], MyNoCopy(3));
        assert_eq!(*vals_b[4], MyNoCopy(4));
        Ok(())
    })?;
    let vals_b = prison.guard_many_ref_idx(&[0, 1, 2, 3, 4])?;
    assert_cell_state(&prison, 0, 2, 0, MyNoCopy(0));
    assert_cell_state(&prison, 4, 2, 0, MyNoCopy(4));
    PrisonSliceRef::unguard(vals_b, &mut prison);
    PrisonSliceRef::unguard(vals_a, &mut prison);
    assert_cell_state(&prison, 0, 0, 0, MyNoCopy(0));
    assert_cell_state(&prison, 4, 0, 0, MyNoCopy(4));
    prison.remove_idx(0)?;
    assert_access_err(
        prison.visit_many_ref_idx(&[0], |_| Ok(())),
        AccessError::ValueDeleted(0, 0),
    );
    Ok(())
}

#[test]
fn prison_visit_slice_mut() -> Result<(), AccessError> {
    let mut prison: Prison<MyNoCopy> = Prison::with_capacity(5);
    assert_access_err(prison.visit_slice_mut(0..1, |_| Ok(())), AccessError::IndexOutOfRange(0));
    assert!(prison.visit_slice_mut(.., |_| Ok(())).is_ok());
    let (mut prison, _) = five_values()?;
    prison.visit_slice_mut(0..=1, |vals_0_1| {
        assert_eq!(vals_0_1[0], MyNoCopy(0));
        assert_eq!(vals_0_1[1], MyNoCopy(1));
        vals_0_1[0] = MyNoCopy(10);
        vals_0_1[1] = MyNoCopy(11);
        Ok(())
    })?;
    assert_cell_state(&prison, 0, 0, 0, MyNoCopy(10));
    assert_cell_state(&prison, 1, 0, 0, MyNoCopy(11));
    let vals_0_1 = prison.guard_slice_mut(0..=1)?;
    assert_access_err(
        prison.visit_slice_mut(0..1, |_| Ok(())),
        AccessError::ValueAlreadyMutablyReferenced(0),
    );
    PrisonSliceMut::unguard(vals_0_1, &mut prison);
    let val_0 = prison.guard_ref_idx(0)?;
    assert_access_err(
        prison.visit_slice_mut(0..1, |_| Ok(())),
        AccessError::ValueStillImmutablyReferenced(0),
    );
    PrisonValueRef::unguard(val_0, &mut prison);
    let vals_0_1_2 = prison.guard_slice_mut(..3)?;
    prison.visit_slice_mut(3.., |vals_3_4| {
        assert_eq!(vals_3_4[0], MyNoCopy(3));
        assert_eq!(vals_3_4[1], MyNoCopy(4));
        vals_3_4[0] = MyNoCopy(400);
        vals_3_4[1] = MyNoCopy(500);
        Ok(())
    })?;
    assert_eq!(*vals_0_1_2.value(0, &prison), MyNoCopy(10));
    assert_eq!(*vals_0_1_2.value(1, &prison), MyNoCopy(11));
    assert_eq!(*vals_0_1_2.value(2, &prison), MyNoCopy(2));
    vals_0_1_2.replace(0, &mut prison, MyNoCopy(100));
    vals_0_1_2.replace(1, &mut prison, MyNoCopy(200));
    vals_0_1_2.replace(2, &mut prison, MyNoCopy(300));
    assert_cell_state(&prison, 0, REFS_MUT, 0, MyNoCopy(100));
    assert_cell_state(&prison, 1, REFS_MUT, 0, MyNoCopy(200));
    assert_cell_state(&prison, 2, REFS_MUT, 0, MyNoCopy(300));
    PrisonSliceMut::unguard(vals_0_1_2, &mut prison);
    assert_cell_state(&prison, 0, 0, 0, MyNoCopy(100));
    assert_cell_state(&prison, 1, 0, 0, MyNoCopy(200));
    assert_cell_state(&prison, 2, 0, 0, MyNoCopy(300));
    assert_cell_state(&prison, 3, 0, 0, MyNoCopy(400));
    assert_cell_state(&prison, 4, 0, 0, MyNoCopy(500));
    prison.remove_idx(0)?;
    assert_access_err(prison.visit_slice_mut(.., |_| Ok(())), AccessError::ValueDeleted(0, 0));
    Ok(())
}

#[test]
fn prison_visit_slice_ref() -> Result<(), AccessError> {
    let mut prison: Prison<MyNoCopy> = Prison::with_capacity(5);
    assert_access_err(prison.visit_slice_ref(0..1, |_| Ok(())), AccessError::IndexOutOfRange(0));
    assert!(prison.visit_slice_ref(.., |_| Ok(())).is_ok());
    let (mut prison, _) = five_values()?;
    prison.visit_slice_ref(0..=1, |vals_0_1| {
        assert_eq!(*vals_0_1[0], MyNoCopy(0));
        assert_eq!(*vals_0_1[1], MyNoCopy(1));
        Ok(())
    })?;
    let val_0 = prison.guard_mut_idx(0)?;
    assert_access_err(
        prison.visit_slice_ref(0..1, |_| Ok(())),
        AccessError::ValueAlreadyMutablyReferenced(0),
    );
    PrisonValueMut::unguard(val_0, &mut prison);
    let vals_a = prison.guard_slice_ref(..)?;
    assert_cell_state(&prison, 0, 1, 0, MyNoCopy(0));
    assert_cell_state(&prison, 4, 1, 0, MyNoCopy(4));
    prison.visit_slice_ref(0..5, |vals_b| {
        assert_eq!(*vals_b[0], MyNoCopy(0));
        assert_eq!(*vals_b[1], MyNoCopy(1));
        assert_eq!(*vals_b[2], MyNoCopy(2));
        assert_eq!(*vals_b[3], MyNoCopy(3));
        assert_eq!(*vals_b[4], MyNoCopy(4));
        Ok(())
    })?;
    let vals_b = prison.guard_slice_ref(0..5)?;
    assert_cell_state(&prison, 0, 2, 0, MyNoCopy(0));
    assert_cell_state(&prison, 4, 2, 0, MyNoCopy(4));
    PrisonSliceRef::unguard(vals_b, &mut prison);
    assert_cell_state(&prison, 0, 1, 0, MyNoCopy(0));
    PrisonSliceRef::unguard(vals_a, &mut prison);
    assert_cell_state(&prison, 0, 0, 0, MyNoCopy(0));
    assert_cell_state(&prison, 4, 0, 0, MyNoCopy(4));
    prison.remove_idx(0)?;
    assert_access_err(prison.visit_slice_ref(0..1, |_| Ok(())), AccessError::ValueDeleted(0, 0));
    Ok(())
}

#[test]
fn prison_guard_mut() -> Result<(), AccessError> {
    let mut prison: Prison<MyNoCopy> = Prison::with_capacity(3);
    assert_access_err(
        prison.guard_mut(CellKey::from_raw_parts(0, 0)),
        AccessError::IndexOutOfRange(0),
    );
    let key_0 = prison.insert(MyNoCopy(0))?;
    let key_1 = prison.insert(MyNoCopy(1))?;
    let key_2 = prison.insert(MyNoCopy(2))?;
    {
        let val_0 = prison.guard_mut(key_0)?;
        assert_cell_state(&prison, 0, REFS_MUT, 0, MyNoCopy(0));
        assert_eq!(*val_0.value(&prison), MyNoCopy(0));
        val_0.replace(&mut prison, MyNoCopy(10));
        assert_eq!(*val_0.value(&prison), MyNoCopy(10));
        assert_cell_state(&prison, 0, REFS_MUT, 0, MyNoCopy(10));
        assert_access_err(prison.guard_mut(key_0), AccessError::ValueAlreadyMutablyReferenced(0));
        PrisonValueMut::unguard(val_0, &mut prison);
    }
    assert_cell_state(&prison, 0, 0, 0, MyNoCopy(10));
    {
        let val_0 = prison.guard_ref(key_0)?;
        assert_access_err(prison.guard_mut(key_0), AccessError::ValueStillImmutablyReferenced(0));
        PrisonValueRef::unguard(val_0, &mut prison);
    }
    let val_0 = prison.guard_mut(key_0)?;
    let val_1 = prison.guard_mut(key_1)?;
    let val_2 = prison.guard_mut(key_2)?;
    assert_eq!(*val_0.value(&prison), MyNoCopy(10));
    assert_eq!(*val_1.value(&prison), MyNoCopy(1));
    assert_eq!(*val_2.value(&prison), MyNoCopy(2));
    val_0.replace(&mut prison, MyNoCopy(100));
    val_1.replace(&mut prison, MyNoCopy(200));
    val_2.replace(&mut prison, MyNoCopy(300));
    assert_eq!(*val_0.value(&prison), MyNoCopy(100));
    assert_eq!(*val_1.value(&prison), MyNoCopy(200));
    assert_eq!(*val_2.value(&prison), MyNoCopy(300));
    assert_cell_state(&prison, 0, REFS_MUT, 0, MyNoCopy(100));
    assert_cell_state(&prison, 1, REFS_MUT, 0, MyNoCopy(200));
    assert_cell_state(&prison, 2, REFS_MUT, 0, MyNoCopy(300));
    PrisonValueMut::unguard(val_0, &mut prison);
    PrisonValueMut::unguard(val_1, &mut prison);
    PrisonValueMut::unguard(val_2, &mut prison);
    assert_cell_state(&prison, 0, 0, 0, MyNoCopy(100));
    assert_cell_state(&prison, 1, 0, 0, MyNoCopy(200));
    assert_cell_state(&prison, 2, 0, 0, MyNoCopy(300));
    prison.remove(key_0)?;
    assert_access_err(prison.guard_mut(key_0), AccessError::ValueDeleted(0, 0));
    Ok(())
}

#[test]
fn prison_guard_ref() -> Result<(), AccessError> {
    let mut prison: Prison<MyNoCopy> = Prison::with_capacity(3);
    assert_access_err(
        prison.guard_ref(CellKey::from_raw_parts(0, 0)),
        AccessError::IndexOutOfRange(0),
    );
    let key_0 = prison.insert(MyNoCopy(0))?;
    let key_1 = prison.insert(MyNoCopy(1))?;
    let key_2 = prison.insert(MyNoCopy(2))?;
    {
        let val_0 = prison.guard_ref(key_0)?;
        assert_cell_state(&prison, 0, 1, 0, MyNoCopy(0));
        assert_eq!(*val_0.value(&prison), MyNoCopy(0));
        PrisonValueRef::unguard(val_0, &mut prison);
    }
    {
        let val_0 = prison.guard_mut(key_0)?;
        assert_access_err(prison.guard_ref(key_0), AccessError::ValueAlreadyMutablyReferenced(0));
        PrisonValueMut::unguard(val_0, &mut prison);
    }
    let val_0 = prison.guard_ref(key_0)?;
    let val_1 = prison.guard_ref(key_1)?;
    let val_2 = prison.guard_ref(key_2)?;
    assert_eq!(*val_0.value(&prison), MyNoCopy(0));
    assert_eq!(*val_1.value(&prison), MyNoCopy(1));
    assert_eq!(*val_2.value(&prison), MyNoCopy(2));
    assert_cell_state(&prison, 0, 1, 0, MyNoCopy(0));
    assert_cell_state(&prison, 1, 1, 0, MyNoCopy(1));
    assert_cell_state(&prison, 2, 1, 0, MyNoCopy(2));
    let val_2_b = prison.guard_ref(key_2)?;
    assert_cell_state(&prison, 2, 2, 0, MyNoCopy(2));
    let val_2_c = prison.guard_ref(key_2)?;
    assert_cell_state(&prison, 2, 3, 0, MyNoCopy(2));
    PrisonValueRef::unguard(val_2_b, &mut prison);
    assert_cell_state(&prison, 2, 2, 0, MyNoCopy(2));
    PrisonValueRef::unguard(val_2_c, &mut prison);
    PrisonValueRef::unguard(val_2, &mut prison);
    PrisonValueRef::unguard(val_0, &mut prison);
    PrisonValueRef::unguard(val_1, &mut prison);
    assert_cell_state(&prison, 0, 0, 0, MyNoCopy(0));
    assert_cell_state(&prison, 1, 0, 0, MyNoCopy(1));
    assert_cell_state(&prison, 2, 0, 0, MyNoCopy(2));
    prison.remove(key_0)?;
    assert_access_err(prison.guard_ref(key_0), AccessError::ValueDeleted(0, 0));
    Ok(())
}

#[test]
fn prison_guard_mut_idx() -> Result<(), AccessError> {
    let mut prison: Prison<MyNoCopy> = Prison::with_capacity(3);
    assert_access_err(prison.guard_mut_idx(0), AccessError::IndexOutOfRange(0));
    prison.insert(MyNoCopy(0))?;
    prison.insert(MyNoCopy(1))?;
    prison.insert(MyNoCopy(2))?;
    {
        let val_0 = prison.guard_mut_idx(0)?;
        assert_cell_state(&prison, 0, REFS_MUT, 0, MyNoCopy(0));
        assert_eq!(*val_0.value(&prison), MyNoCopy(0));
        val_0.replace(&mut prison, MyNoCopy(10));
        assert_eq!(*val_0.value(&prison), MyNoCopy(10));
        assert_cell_state(&prison, 0, REFS_MUT, 0, MyNoCopy(10));
        assert_access_err(prison.guard_mut_idx(0), AccessError::ValueAlreadyMutablyReferenced(0));
        PrisonValueMut::unguard(val_0, &mut prison);
    }
    assert_cell_state(&prison, 0, 0, 0, MyNoCopy(10));
    {
        let val_0 = prison.guard_ref_idx(0)?;
        assert_access_err(prison.guard_mut_idx(0), AccessError::ValueStillImmutablyReferenced(0));
        PrisonValueRef::unguard(val_0, &mut prison);
    }
    let val_0 = prison.guard_mut_idx(0)?;
    let val_1 = prison.guard_mut_idx(1)?;
    let val_2 = prison.guard_mut_idx(2)?;
    assert_eq!(*val_0.value(&prison), MyNoCopy(10));
    assert_eq!(*val_1.value(&prison), MyNoCopy(1));
    assert_eq!(*val_2.value(&prison), MyNoCopy(2));
    val_0.replace(&mut prison, MyNoCopy(100));
    val_1.replace(&mut prison, MyNoCopy(200));
    val_2.replace(&mut prison, MyNoCopy(300));
    assert_eq!(*val_0.value(&prison), MyNoCopy(100));
    assert_eq!(*val_1.value(&prison), MyNoCopy(200));
    assert_eq!(*val_2.value(&prison), MyNoCopy(300));
    assert_cell_state(&prison, 0, REFS_MUT, 0, MyNoCopy(100));
    assert_cell_state(&prison, 1, REFS_MUT, 0, MyNoCopy(200));
    assert_cell_state(&prison, 2, REFS_MUT, 0, MyNoCopy(300));
    PrisonValueMut::unguard(val_0, &mut prison);
    PrisonValueMut::unguard(val_1, &mut prison);
    PrisonValueMut::unguard(val_2, &mut prison);
    assert_cell_state(&prison, 0, 0, 0, MyNoCopy(100));
    assert_cell_state(&prison, 1, 0, 0, MyNoCopy(200));
    assert_cell_state(&prison, 2, 0, 0, MyNoCopy(300));
    prison.remove_idx(0)?;
    assert_access_err(prison.guard_mut_idx(0), AccessError::ValueDeleted(0, 0));
    Ok(())
}

#[test]
fn prison_guard_ref_idx() -> Result<(), AccessError> {
    let mut prison: Prison<MyNoCopy> = Prison::with_capacity(3);
    assert_access_err(
        prison.guard_ref(CellKey::from_raw_parts(0, 0)),
        AccessError::IndexOutOfRange(0),
    );
    prison.insert(MyNoCopy(0))?;
    prison.insert(MyNoCopy(1))?;
    prison.insert(MyNoCopy(2))?;
    {
        let val_0 = prison.guard_ref_idx(0)?;
        assert_cell_state(&prison, 0, 1, 0, MyNoCopy(0));
        assert_eq!(*val_0.value(&prison), MyNoCopy(0));
        PrisonValueRef::unguard(val_0, &mut prison);
    }
    {
        let val_0 = prison.guard_mut_idx(0)?;
        assert_access_err(prison.guard_ref_idx(0), AccessError::ValueAlreadyMutablyReferenced(0));
        PrisonValueMut::unguard(val_0, &mut prison);
    }
    let val_0 = prison.guard_ref_idx(0)?;
    let val_1 = prison.guard_ref_idx(1)?;
    let val_2 = prison.guard_ref_idx(2)?;
    assert_eq!(*val_0.value(&prison), MyNoCopy(0));
    assert_eq!(*val_1.value(&prison), MyNoCopy(1));
    assert_eq!(*val_2.value(&prison), MyNoCopy(2));
    assert_cell_state(&prison, 0, 1, 0, MyNoCopy(0));
    assert_cell_state(&prison, 1, 1, 0, MyNoCopy(1));
    assert_cell_state(&prison, 2, 1, 0, MyNoCopy(2));
    let val_2_b = prison.guard_ref_idx(2)?;
    assert_cell_state(&prison, 2, 2, 0, MyNoCopy(2));
    let val_2_c = prison.guard_ref_idx(2)?;
    assert_cell_state(&prison, 2, 3, 0, MyNoCopy(2));
    PrisonValueRef::unguard(val_2_b, &mut prison);
    assert_cell_state(&prison, 2, 2, 0, MyNoCopy(2));
    PrisonValueRef::unguard(val_2_c, &mut prison);
    PrisonValueRef::unguard(val_2, &mut prison);
    PrisonValueRef::unguard(val_0, &mut prison);
    PrisonValueRef::unguard(val_1, &mut prison);
    assert_cell_state(&prison, 0, 0, 0, MyNoCopy(0));
    assert_cell_state(&prison, 1, 0, 0, MyNoCopy(1));
    assert_cell_state(&prison, 2, 0, 0, MyNoCopy(2));
    prison.remove_idx(0)?;
    assert_access_err(prison.guard_ref_idx(0), AccessError::ValueDeleted(0, 0));
    Ok(())
}

#[test]
fn prison_guard_many_mut() -> Result<(), AccessError> {
    let mut prison: Prison<MyNoCopy> = Prison::with_capacity(5);
    assert_access_err(
        prison.guard_many_mut(&[CellKey::from_raw_parts(0, 0)]),
        AccessError::IndexOutOfRange(0),
    );
    let empty = prison.guard_many_mut(&[])?;
    PrisonSliceMut::unguard(empty, &mut prison);
    let (mut prison, [key_0, key_1, key_2, key_3, key_4]) = five_values()?;
    {
        let vals_0_1 = prison.guard_many_mut(&[key_0, key_1])?;
        assert_cell_state(&prison, 0, REFS_MUT, 0, MyNoCopy(0));
        assert_eq!(*vals_0_1.value(0, &prison), MyNoCopy(0));
        assert_cell_state(&prison, 1, REFS_MUT, 0, MyNoCopy(1));
        assert_eq!(*vals_0_1.value(1, &prison), MyNoCopy(1));
        vals_0_1.replace(0, &mut prison, MyNoCopy(10));
        vals_0_1.replace(1, &mut prison, MyNoCopy(11));
        assert_cell_state(&prison, 0, REFS_MUT, 0, MyNoCopy(10));
        assert_eq!(*vals_0_1.value(0, &prison), MyNoCopy(10));
        assert_cell_state(&prison, 1, REFS_MUT, 0, MyNoCopy(11));
        assert_eq!(*vals_0_1.value(1, &prison), MyNoCopy(11));
        assert_access_err(
            prison.guard_many_mut(&[key_0]),
            AccessError::ValueAlreadyMutablyReferenced(0),
        );
        PrisonSliceMut::unguard(vals_0_1, &mut prison);
    }
    {
        let val_0 = prison.guard_ref(key_0)?;
        assert_access_err(
            prison.guard_many_mut(&[key_0, key_1]),
            AccessError::ValueStillImmutablyReferenced(0),
        );
        PrisonValueRef::unguard(val_0, &mut prison);
    }
    let vals_0_2_4 = prison.guard_many_mut(&[key_0, key_2, key_4])?;
    let vals_1_3 = prison.guard_many_mut(&[key_1, key_3])?;
    assert_eq!(*vals_0_2_4.value(0, &prison), MyNoCopy(10));
    assert_eq!(*vals_1_3.value(0, &prison), MyNoCopy(11));
    assert_eq!(*vals_0_2_4.value(1, &prison), MyNoCopy(2));
    assert_eq!(*vals_1_3.value(1, &prison), MyNoCopy(3));
    assert_eq!(*vals_0_2_4.value(2, &prison), MyNoCopy(4));
    vals_0_2_4.replace(0, &mut prison, MyNoCopy(100));
    vals_1_3.replace(0, &mut prison, MyNoCopy(200));
    vals_0_2_4.replace(1, &mut prison, MyNoCopy(300));
    vals_1_3.replace(1, &mut prison, MyNoCopy(400));
    vals_0_2_4.replace(2, &mut prison, MyNoCopy(500));
    assert_eq!(*vals_0_2_4.value(0, &prison), MyNoCopy(100));
    assert_eq!(*vals_1_3.value(0, &prison), MyNoCopy(200));
    assert_eq!(*vals_0_2_4.value(1, &prison), MyNoCopy(300));
    assert_eq!(*vals_1_3.value(1, &prison), MyNoCopy(400));
    assert_eq!(*vals_0_2_4.value(2, &prison), MyNoCopy(500));
    assert_cell_state(&prison, 0, REFS_MUT, 0, MyNoCopy(100));
    assert_cell_state(&prison, 1, REFS_MUT, 0, MyNoCopy(200));
    assert_cell_state(&prison, 2, REFS_MUT, 0, MyNoCopy(300));
    assert_cell_state(&prison, 3, REFS_MUT, 0, MyNoCopy(400));
    assert_cell_state(&prison, 4, REFS_MUT, 0, MyNoCopy(500));
    PrisonSliceMut::unguard(vals_1_3, &mut prison);
    PrisonSliceMut::unguard(vals_0_2_4, &mut prison);
    assert_cell_state(&prison, 0, 0, 0, MyNoCopy(100));
    assert_cell_state(&prison, 1, 0, 0, MyNoCopy(200));
    assert_cell_state(&prison, 2, 0, 0, MyNoCopy(300));
    assert_cell_state(&prison, 3, 0, 0, MyNoCopy(400));
    assert_cell_state(&prison, 4, 0, 0, MyNoCopy(500));
    prison.remove(key_0)?;
    assert_access_err(prison.guard_many_mut(&[key_0]), AccessError::ValueDeleted(0, 0));
    Ok(())
}

#[test]
fn prison_guard_many_ref() -> Result<(), AccessError> {
    let mut prison: Prison<MyNoCopy> = Prison::with_capacity(5);
    assert_access_err(
        prison.guard_many_ref(&[CellKey::from_raw_parts(0, 0)]),
        AccessError::IndexOutOfRange(0),
    );
    let empty = prison.guard_many_ref(&[])?;
    PrisonSliceRef::unguard(empty, &mut prison);
    let (mut prison, [key_0, key_1, key_2, key_3, key_4]) = five_values()?;
    {
        let vals_0_1 = prison.guard_many_ref(&[key_0, key_1])?;
        assert_cell_state(&prison, 0, 1, 0, MyNoCopy(0));
        assert_eq!(*vals_0_1.value(0, &prison), MyNoCopy(0));
        assert_cell_state(&prison, 1, 1, 0, MyNoCopy(1));
        assert_eq!(*vals_0_1.value(1, &prison), MyNoCopy(1));
        PrisonSliceRef::unguard(vals_0_1, &mut prison);
    }
    {
        let val_0 = prison.guard_mut(key_0)?;
        assert_access_err(
            prison.guard_many_ref(&[key_0, key_1]),
            AccessError::ValueAlreadyMutablyReferenced(0),
        );
        PrisonValueMut::unguard(val_0, &mut prison);
    }
    let vals_a = prison.guard_many_ref(&[key_0, key_1, key_2, key_3, key_4])?;
    assert_cell_state(&prison, 0, 1, 0, MyNoCopy(0));
    assert_cell_state(&prison, 1, 1, 0, MyNoCopy(1));
    assert_cell_state(&prison, 2, 1, 0, MyNoCopy(2));
    assert_cell_state(&prison, 3, 1, 0, MyNoCopy(3));
    assert_cell_state(&prison, 4, 1, 0, MyNoCopy(4));
    let vals_b = prison.guard_many_ref(&[key_0, key_1, key_2, key_3, key_4])?;
    assert_eq!(*vals_a.value(0, &prison), MyNoCopy(0));
    assert_eq!(*vals_b.value(1, &prison), MyNoCopy(1));
    assert_eq!(*vals_a.value(2, &prison), MyNoCopy(2));
    assert_eq!(*vals_b.value(3, &prison), MyNoCopy(3));
    assert_eq!(*vals_a.value(4, &prison), MyNoCopy(4));
    assert_cell_state(&prison, 0, 2, 0, MyNoCopy(0));
    assert_cell_state(&prison, 1, 2, 0, MyNoCopy(1));
    assert_cell_state(&prison, 2, 2, 0, MyNoCopy(2));
    assert_cell_state(&prison, 3, 2, 0, MyNoCopy(3));
    assert_cell_state(&prison, 4, 2, 0, MyNoCopy(4));
    PrisonSliceRef::unguard(vals_b, &mut prison);
    assert_cell_state(&prison, 0, 1, 0, MyNoCopy(0));
    assert_cell_state(&prison, 1, 1, 0, MyNoCopy(1));
    assert_cell_state(&prison, 2, 1, 0, MyNoCopy(2));
    assert_cell_state(&prison, 3, 1, 0, MyNoCopy(3));
    assert_cell_state(&prison, 4, 1, 0, MyNoCopy(4));
    PrisonSliceRef::unguard(vals_a, &mut prison);
    assert_cell_state(&prison, 0, 0, 0, MyNoCopy(0));
    assert_cell_state(&prison, 1, 0, 0, MyNoCopy(1));
    assert_cell_state(&prison, 2, 0, 0, MyNoCopy(2));
    assert_cell_state(&prison, 3, 0, 0, MyNoCopy(3));
    assert_cell_state(&prison, 4, 0, 0, MyNoCopy(4));
    prison.remove(key_0)?;
    assert_access_err(prison.guard_many_ref(&[key_0]), AccessError::ValueDeleted(0, 0));
    Ok(())
}

#[test]
fn prison_guard_many_mut_idx() -> Result<(), AccessError> {
    let mut prison: Prison<MyNoCopy> = Prison::with_capacity(5);
    assert_access_err(prison.guard_many_mut_idx(&[0]), AccessError::IndexOutOfRange(0));
    let empty = prison.guard_many_mut_idx(&[])?;
    PrisonSliceMut::unguard(empty, &mut prison);
    let (mut prison, _) = five_values()?;
    {
        let vals_0_1 = prison.guard_many_mut_idx(&[0, 1])?;
        assert_cell_state(&prison, 0, REFS_MUT, 0, MyNoCopy(0));
        assert_eq!(*vals_0_1.value(0, &prison), MyNoCopy(0));
        assert_cell_state(&prison, 1, REFS_MUT, 0, MyNoCopy(1));
        assert_eq!(*vals_0_1.value(1, &prison), MyNoCopy(1));
        vals_0_1.replace(0, &mut prison, MyNoCopy(10));
        vals_0_1.replace(1, &mut prison, MyNoCopy(11));
        assert_cell_state(&prison, 0, REFS_MUT, 0, MyNoCopy(10));
        assert_cell_state(&prison, 1, REFS_MUT, 0, MyNoCopy(11));
        assert_access_err(
            prison.guard_many_mut_idx(&[0]),
            AccessError::ValueAlreadyMutablyReferenced(0),
        );
        PrisonSliceMut::unguard(vals_0_1, &mut prison);
    }
    {
        let val_0 = prison.guard_ref_idx(0)?;
        assert_access_err(
            prison.guard_many_mut_idx(&[0, 1]),
            AccessError::ValueStillImmutablyReferenced(0),
        );
        PrisonValueRef::unguard(val_0, &mut prison);
    }
    let vals_0_2_4 = prison.guard_many_mut_idx(&[0, 2, 4])?;
    let vals_1_3 = prison.guard_many_mut_idx(&[1, 3])?;
    assert_eq!(*vals_0_2_4.value(0, &prison), MyNoCopy(10));
    assert_eq!(*vals_1_3.value(0, &prison), MyNoCopy(11));
    assert_eq!(*vals_0_2_4.value(1, &prison), MyNoCopy(2));
    assert_eq!(*vals_1_3.value(1, &prison), MyNoCopy(3));
    assert_eq!(*vals_0_2_4.value(2, &prison), MyNoCopy(4));
    vals_0_2_4.replace(0, &mut prison, MyNoCopy(100));
    vals_1_3.replace(0, &mut prison, MyNoCopy(200));
    vals_0_2_4.replace(1, &mut prison, MyNoCopy(300));
    vals_1_3.replace(1, &mut prison, MyNoCopy(400));
    vals_0_2_4.replace(2, &mut prison, MyNoCopy(500));
    assert_cell_state(&prison, 0, REFS_MUT, 0, MyNoCopy(100));
    assert_cell_state(&prison, 1, REFS_MUT, 0, MyNoCopy(200));
    assert_cell_state(&prison, 2, REFS_MUT, 0, MyNoCopy(300));
    assert_cell_state(&prison, 3, REFS_MUT, 0, MyNoCopy(400));
    assert_cell_state(&prison, 4, REFS_MUT, 0, MyNoCopy(500));
    PrisonSliceMut::unguard(vals_1_3, &mut prison);
    PrisonSliceMut::unguard(vals_0_2_4, &mut prison);
    assert_cell_state(&prison, 0, 0, 0, MyNoCopy(100));
    assert_cell_state(&prison, 1, 0, 0, MyNoCopy(200));
    assert_cell_state(&prison, 2, 0, 0, MyNoCopy(300));
    assert_cell_state(&prison, 3, 0, 0, MyNoCopy(400));
    assert_cell_state(&prison, 4, 0, 0, MyNoCopy(500));
    prison.remove_idx(0)?;
    assert_access_err(prison.guard_many_mut_idx(&[0]), AccessError::ValueDeleted(0, 0));
    Ok(())
}

#[test]
fn prison_guard_many_ref_idx() -> Result<(), AccessError> {
    let mut prison: Prison<MyNoCopy> = Prison::with_capacity(5);
    assert_access_err(prison.guard_many_ref_idx(&[0]), AccessError::IndexOutOfRange(0));
    let empty = prison.guard_many_ref_idx(&[])?;
    PrisonSliceRef::unguard(empty, &mut prison);
    let (mut prison, _) = five_values()?;
    {
        let vals_0_1 = prison.guard_many_ref_idx(&[0, 1])?;
        assert_cell_state(&prison, 0, 1, 0, MyNoCopy(0));
        assert_eq!(*vals_0_1.value(0, &prison), MyNoCopy(0));
        assert_cell_state(&prison, 1, 1, 0, MyNoCopy(1));
        assert_eq!(*vals_0_1.value(1, &prison), MyNoCopy(1));
        PrisonSliceRef::unguard(vals_0_1, &mut prison);
    }
    {
        let val_0 = prison.guard_mut_idx(0)?;
        assert_access_err(
            prison.guard_many_ref_idx(&[0, 1]),
            AccessError::ValueAlreadyMutablyReferenced(0),
        );
        PrisonValueMut::unguard(val_0, &mut prison);
    }
    let vals_a = prison.guard_many_ref_idx(&[0, 1, 2, 3, 4])?;
    assert_cell_state(&prison, 0, 1, 0, MyNoCopy(0));
    assert_cell_state(&prison, 1, 1, 0, MyNoCopy(1));
    assert_cell_state(&prison, 2, 1, 0, MyNoCopy(2));
    assert_cell_state(&prison, 3, 1, 0, MyNoCopy(3));
    assert_cell_state(&prison, 4, 1, 0, MyNoCopy(4));
    let vals_b = prison.guard_many_ref_idx(&[0, 1, 2, 3, 4])?;
    assert_eq!(*vals_a.value(0, &prison), MyNoCopy(0));
    assert_eq!(*vals_b.value(1, &prison), MyNoCopy(1));
    assert_eq!(*vals_a.value(2, &prison), MyNoCopy(2));
    assert_eq!(*vals_b.value(3, &prison), MyNoCopy(3));
    assert_eq!(*vals_a.value(4, &prison), MyNoCopy(4));
    assert_cell_state(&prison, 0, 2, 0, MyNoCopy(0));
    assert_cell_state(&prison, 4, 2, 0, MyNoCopy(4));
    PrisonSliceRef::unguard(vals_b, &mut prison);
    assert_cell_state(&prison, 0, 1, 0, MyNoCopy(0));
    assert_cell_state(&prison, 4, 1, 0, MyNoCopy(4));
    PrisonSliceRef::unguard(vals_a, &mut prison);
    assert_cell_state(&prison, 0, 0, 0, MyNoCopy(0));
    assert_cell_state(&prison, 4, 0, 0, MyNoCopy(4));
    prison.remove_idx(0)?;
    assert_access_err(prison.guard_many_ref_idx(&[0]), AccessError::ValueDeleted(0, 0));
    Ok(())
}

#[test]
fn prison_guard_slice_mut() -> Result<(), AccessError> {
    let mut prison: Prison<MyNoCopy> = Prison::with_capacity(5);
    assert_access_err(prison.guard_slice_mut(0..1), AccessError::IndexOutOfRange(0));
    let empty = prison.guard_slice_mut(..)?;
    PrisonSliceMut::unguard(empty, &mut prison);
    let (mut prison, _) = five_values()?;
    {
        let vals_0_1 = prison.guard_slice_mut(0..=1)?;
        assert_cell_state(&prison, 0, REFS_MUT, 0, MyNoCopy(0));
        assert_eq!(*vals_0_1.value(0, &prison), MyNoCopy(0));
        assert_cell_state(&prison, 1, REFS_MUT, 0, MyNoCopy(1));
        assert_eq!(*vals_0_1.value(1, &prison), MyNoCopy(1));
        vals_0_1.replace(0, &mut prison, MyNoCopy(10));
        vals_0_1.replace(1, &mut prison, MyNoCopy(11));
        assert_cell_state(&prison, 0, REFS_MUT, 0, MyNoCopy(10));
        assert_eq!(*vals_0_1.value(0, &prison), MyNoCopy(10));
        assert_cell_state(&prison, 1, REFS_MUT, 0, MyNoCopy(11));
        assert_eq!(*vals_0_1.value(1, &prison), MyNoCopy(11));
        assert_access_err(prison.guard_slice_mut(0..1), AccessError::ValueAlreadyMutablyReferenced(0));
        PrisonSliceMut::unguard(vals_0_1, &mut prison);
    }
    {
        let val_0 = prison.guard_ref_idx(0)?;
        assert_access_err(prison.guard_slice_mut(0..1), AccessError::ValueStillImmutablyReferenced(0));
        PrisonValueRef::unguard(val_0, &mut prison);
    }
    let vals_0_1_2 = prison.guard_slice_mut(..3)?;
    let vals_3_4 = prison.guard_slice_mut(3..)?;
    assert_eq!(*vals_0_1_2.value(0, &prison), MyNoCopy(10));
    assert_eq!(*vals_0_1_2.value(1, &prison), MyNoCopy(11));
    assert_eq!(*vals_0_1_2.value(2, &prison), MyNoCopy(2));
    assert_eq!(*vals_3_4.value(0, &prison), MyNoCopy(3));
    assert_eq!(*vals_3_4.value(1, &prison), MyNoCopy(4));
    vals_0_1_2.replace(0, &mut prison, MyNoCopy(100));
    vals_0_1_2.replace(1, &mut prison, MyNoCopy(200));
    vals_0_1_2.replace(2, &mut prison, MyNoCopy(300));
    vals_3_4.replace(0, &mut prison, MyNoCopy(400));
    vals_3_4.replace(1, &mut prison, MyNoCopy(500));
    assert_eq!(*vals_0_1_2.value(0, &prison), MyNoCopy(100));
    assert_eq!(*vals_0_1_2.value(1, &prison), MyNoCopy(200));
    assert_eq!(*vals_0_1_2.value(2, &prison), MyNoCopy(300));
    assert_eq!(*vals_3_4.value(0, &prison), MyNoCopy(400));
    assert_eq!(*vals_3_4.value(1, &prison), MyNoCopy(500));
    assert_cell_state(&prison, 0, REFS_MUT, 0, MyNoCopy(100));
    assert_cell_state(&prison, 1, REFS_MUT, 0, MyNoCopy(200));
    assert_cell_state(&prison, 2, REFS_MUT, 0, MyNoCopy(300));
    assert_cell_state(&prison, 3, REFS_MUT, 0, MyNoCopy(400));
    assert_cell_state(&prison, 4, REFS_MUT, 0, MyNoCopy(500));
    PrisonSliceMut::unguard(vals_0_1_2, &mut prison);
    PrisonSliceMut::unguard(vals_3_4, &mut prison);
    assert_cell_state(&prison, 0, 0, 0, MyNoCopy(100));
    assert_cell_state(&prison, 1, 0, 0, MyNoCopy(200));
    assert_cell_state(&prison, 2, 0, 0, MyNoCopy(300));
    assert_cell_state(&prison, 3, 0, 0, MyNoCopy(400));
    assert_cell_state(&prison, 4, 0, 0, MyNoCopy(500));
    prison.remove_idx(0)?;
    assert_access_err(prison.guard_slice_mut(..), AccessError::ValueDeleted(0, 0));
    Ok(())
}

#[test]
fn prison_guard_slice_ref() -> Result<(), AccessError> {
    let mut prison: Prison<MyNoCopy> = Prison::with_capacity(5);
    assert_access_err(prison.guard_slice_ref(0..1), AccessError::IndexOutOfRange(0));
    let empty = prison.guard_slice_ref(..)?;
    PrisonSliceRef::unguard(empty, &mut prison);
    let (mut prison, _) = five_values()?;
    {
        let vals_0_1 = prison.guard_slice_ref(0..=1)?;
        assert_cell_state(&prison, 0, 1, 0, MyNoCopy(0));
        assert_eq!(*vals_0_1.value(0, &prison), MyNoCopy(0));
        assert_cell_state(&prison, 1, 1, 0, MyNoCopy(1));
        assert_eq!(*vals_0_1.value(1, &prison), MyNoCopy(1));
        PrisonSliceRef::unguard(vals_0_1, &mut prison);
    }
    {
        let val_0 = prison.guard_mut_idx(0)?;
        assert_access_err(prison.guard_slice_ref(0..1), AccessError::ValueAlreadyMutablyReferenced(0));
        PrisonValueMut::unguard(val_0, &mut prison);
    }
    let vals_a = prison.guard_slice_ref(..)?;
    assert_cell_state(&prison, 0, 1, 0, MyNoCopy(0));
    assert_cell_state(&prison, 1, 1, 0, MyNoCopy(1));
    assert_cell_state(&prison, 2, 1, 0, MyNoCopy(2));
    assert_cell_state(&prison, 3, 1, 0, MyNoCopy(3));
    assert_cell_state(&prison, 4, 1, 0, MyNoCopy(4));
    let vals_b = prison.guard_slice_ref(..)?;
    assert_eq!(*vals_a.value(0, &prison), MyNoCopy(0));
    assert_eq!(*vals_b.value(1, &prison), MyNoCopy(1));
    assert_eq!(*vals_a.value(2, &prison), MyNoCopy(2));
    assert_eq!(*vals_b.value(3, &prison), MyNoCopy(3));
    assert_eq!(*vals_a.value(4, &prison), MyNoCopy(4));
    assert_cell_state(&prison, 0, 2, 0, MyNoCopy(0));
    assert_cell_state(&prison, 1, 2, 0, MyNoCopy(1));
    assert_cell_state(&prison, 2, 2, 0, MyNoCopy(2));
    assert_cell_state(&prison, 3, 2, 0, MyNoCopy(3));
    assert_cell_state(&prison, 4, 2, 0, MyNoCopy(4));
    PrisonSliceRef::unguard(vals_b, &mut prison);
    assert_cell_state(&prison, 0, 1, 0, MyNoCopy(0));
    assert_cell_state(&prison, 1, 1, 0, MyNoCopy(1));
    assert_cell_state(&prison, 2, 1, 0, MyNoCopy(2));
    assert_cell_state(&prison, 3, 1, 0, MyNoCopy(3));
    assert_cell_state(&prison, 4, 1, 0, MyNoCopy(4));
    PrisonSliceRef::unguard(vals_a, &mut prison);
    assert_cell_state(&prison, 0, 0, 0, MyNoCopy(0));
    assert_cell_state(&prison, 1, 0, 0, MyNoCopy(1));
    assert_cell_state(&prison, 2, 0, 0, MyNoCopy(2));
    assert_cell_state(&prison, 3, 0, 0, MyNoCopy(3));
    assert_cell_state(&prison, 4, 0, 0, MyNoCopy(4));
    prison.remove_idx(0)?;
    assert_access_err(prison.guard_slice_ref(0..1), AccessError::ValueDeleted(0, 0));
    Ok(())
}

fn five_words() -> Result<(Prison<String>, [CellKey; 5]), AccessError> {
    let mut prison: Prison<String> = Prison::with_capacity(5);
    let key_0 = prison.insert(String::from("The"))?;
    let key_1 = prison.insert(String::from("quick"))?;
    let key_2 = prison.insert(String::from("red"))?;
    let key_3 = prison.insert(String::from("fox"))?;
    let key_4 = prison.insert(String::from("jumped"))?;
    Ok((prison, [key_0, key_1, key_2, key_3, key_4]))
}

#[test]
fn prison_clone_val() -> Result<(), AccessError> {
    let (mut prison, [_, _, _, key_3, key_4]) = five_words()?;
    let val_4 = prison.guard_mut(key_4)?;
    let mut jumped = prison.clone_val(key_4)?;
    let mut jumped_2 = val_4.value(&prison).clone();
    val_4.replace(&mut prison, String::from("skipped"));
    PrisonValueMut::unguard(val_4, &mut prison);
    assert_eq!(jumped, String::from("jumped"));
    assert_eq!(jumped, jumped_2);
    jumped = String::from("fell");
    jumped_2 = String::from("exploded");
    assert_ne!(jumped, jumped_2);
    assert_cell_state(&prison, 4, 0, 0, String::from("skipped"));
    assert_access_err(
        prison.clone_val(CellKey::from_raw_parts(5, 0)),
        AccessError::IndexOutOfRange(5),
    );
    prison.remove(key_3)?;
    assert_access_err(prison.clone_val(key_3), AccessError::ValueDeleted(3, 0));
    prison.insert(String::from("orange"))?;
    assert_access_err(prison.clone_val(key_3), AccessError::ValueDeleted(3, 0));
    Ok(())
}

#[test]
fn prison_clone_val_idx() -> Result<(), AccessError> {
    let (mut prison, _) = five_words()?;
    let val_4 = prison.guard_mut_idx(4)?;
    let mut jumped = prison.clone_val_idx(4)?;
    let mut jumped_2 = val_4.value(&prison).clone();
    val_4.replace(&mut prison, String::from("skipped"));
    PrisonValueMut::unguard(val_4, &mut prison);
    assert_eq!(jumped, String::from("jumped"));
    assert_eq!(jumped, jumped_2);
    jumped = String::from("fell");
    jumped_2 = String::from("exploded");
    assert_ne!(jumped, jumped_2);
    assert_cell_state(&prison, 4, 0, 0, String::from("skipped"));
    assert_access_err(
        prison.clone_val(CellKey::from_raw_parts(5, 0)),
        AccessError::IndexOutOfRange(5),
    );
    prison.remove_idx(3)?;
    assert_access_err(prison.clone_val_idx(3), AccessError::ValueDeleted(3, 0));
    Ok(())
}

fn sentence(words: &[String]) -> String {
    words.iter().fold(String::new(), |mut sentence, word| {
        sentence.push_str(word);
        sentence.push(' ');
        sentence
    })
}

#[test]
fn prison_clone_many_vals() -> Result<(), AccessError> {
    let (mut prison, [key_0, key_1, key_2, key_3, key_4]) = five_words()?;
    let vals = prison.guard_slice_mut(..)?;
    let mut words_1 = prison.clone_many_vals(&[key_0, key_1, key_2, key_3, key_4])?;
    let mut words_2: Vec<String> = Vec::new();
    for i in 0..vals.len() {
        words_2.push(vals.value(i, &prison).clone());
        vals.replace(i, &mut prison, String::from("null"));
    }
    PrisonSliceMut::unguard(vals, &mut prison);
    let sentence_1 = sentence(&words_1);
    let sentence_2 = sentence(&words_2);
    assert_eq!(sentence_1, String::from("The quick red fox jumped "));
    assert_eq!(sentence_1, sentence_2);
    words_1[4] = String::from("fell");
    words_2[4] = String::from("exploded");
    assert_ne!(words_1, words_2);
    assert_cell_state(&prison, 4, 0, 0, String::from("null"));
    assert_access_err(
        prison.clone_many_vals(&[CellKey::from_raw_parts(5, 0)]),
        AccessError::IndexOutOfRange(5),
    );
    prison.remove(key_3)?;
    assert_access_err(
        prison.clone_many_vals(&[key_0, key_1, key_2, key_3, key_4]),
        AccessError::ValueDeleted(3, 0),
    );
    prison.insert(String::from("nil"))?;
    assert_access_err(
        prison.clone_many_vals(&[key_0, key_1, key_2, key_3, key_4]),
        AccessError::ValueDeleted(3, 0),
    );
    Ok(())
}

#[test]
fn prison_clone_many_vals_idx() -> Result<(), AccessError> {
    let (mut prison, _) = five_words()?;
    let vals = prison.guard_slice_mut(..)?;
    let mut words_1 = prison.clone_many_vals_idx(&[0, 1, 2, 3, 4])?;
    let mut words_2: Vec<String> = Vec::new();
    for i in 0..vals.len() {
        words_2.push(vals.value(i, &prison).clone());
        vals.replace(i, &mut prison, String::from("null"));
    }
    PrisonSliceMut::unguard(vals, &mut prison);
    let sentence_1 = sentence(&words_1);
    let sentence_2 = sentence(&words_2);
    assert_eq!(sentence_1, String::from("The quick red fox jumped "));
    assert_eq!(sentence_1, sentence_2);
    words_1[4] = String::from("fell");
    words_2[4] = String::from("exploded");
    assert_ne!(words_1, words_2);
    assert_cell_state(&prison, 4, 0, 0, String::from("null"));
    assert_access_err(prison.clone_many_vals_idx(&[5]), AccessError::IndexOutOfRange(5));
    prison.remove_idx(3)?;
    assert_access_err(
        prison.clone_many_vals_idx(&[0, 1, 2, 3, 4]),
        AccessError::ValueDeleted(3, 0),
    );
    Ok(())
}

#[test]
fn prison_peek_ref() -> Result<(), AccessError> {
    let (mut prison, [_, _, _, _, key_4]) = five_words()?;
    let val_4 = prison.guard_mut(key_4)?;
    let jumped_ref = prison.peek_ref(key_4)?;
    assert_eq!(*jumped_ref, String::from("jumped"));
    assert_cell_state(&prison, 4, REFS_MUT, 0, String::from("jumped"));
    PrisonValueMut::unguard(val_4, &mut prison);
    assert_cell_state(&prison, 4, 0, 0, String::from("jumped"));
    Ok(())
}

#[test]
fn prison_peek_ref_idx() -> Result<(), AccessError> {
    let (mut prison, _) = five_words()?;
    let val_4 = prison.guard_mut_idx(4)?;
    let jumped_ref = prison.peek_ref_idx(4)?;
    assert_eq!(*jumped_ref, String::from("jumped"));
    assert_cell_state(&prison, 4, REFS_MUT, 0, String::from("jumped"));
    PrisonValueMut::unguard(val_4, &mut prison);
    assert_cell_state(&prison, 4, 0, 0, String::from("jumped"));
    Ok(())
}
