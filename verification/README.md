# grit_data_prison

A generational arena, `Prison<T>`, whose elements are lent out under run-time reference
counting, and a stand-alone cell, `JailCell<T>`, that applies the same rules to one value.
The library is written in Verus: every function carries a contract over a mathematical model
of the arena, and Verus proves the code against it.

## Layout

- `src/lib.rs`: `CellKey`, the (index, generation) pair that addresses a value.
- `src/error.rs`: `AccessError` and its textual forms (`kind`, `description`, `details`).
- `src/single_threaded/model.rs`: `PrisonView`, the model of an arena (slots, free list,
  generation, number of referenced slots), its invariant, and the laws proved about it.
- `src/single_threaded/prison.rs`: `Prison` and its guard tokens.
- `src/single_threaded/jail.rs`: `JailCell` and its guard tokens.
- `app/lib.rs`: `density`, the only measure that needs floating point, and `ReportedError`,
  which gives `AccessError` the `Display`, `Debug` and `Error` impls.
- `tests/`: the test suite.

## What is proved

- Every operation keeps the invariant: the free list holds each free slot exactly once, in
  the order it will be reused, and the reference counter equals the number of referenced
  slots.
- A value is lent out mutably only when nothing references it, and immutably only when it is
  not lent out mutably; removing, overwriting or growing the `Vec` is refused while it could
  invalidate a reference.
- A key whose value was removed or overwritten never reaches a value again, whatever happens
  to the arena afterwards.
- Lending out values and giving them back restores the arena exactly; a refused request
  leaves nothing lent out.

## Using the interface

The arena is mutated through `&mut self`. Guards are plain tokens: the value they lend out is
read with `value`, replaced with `replace`, and given back with `unguard`. Closures that visit
several values mutably receive them in a `Vec` and must keep its length.
