//! The error type of the arena and the cell, and its textual forms.
use vstd::prelude::*;

verus! {

/// Why an operation on a `Prison` or a `JailCell` was refused.
#[derive(Debug, PartialEq, Eq)]
pub enum AccessError {
    /// The index lies beyond the end of the underlying `Vec`.
    IndexOutOfRange(usize),
    /// The value at this index is already lent out mutably.
    ValueAlreadyMutablyReferenced(usize),
    /// The value at this index is lent out immutably, so it cannot be lent out mutably.
    ValueStillImmutablyReferenced(usize),
    /// Overwriting the value at this index would invalidate active references to it.
    OverwriteWhileValueReferenced(usize),
    /// Growing the full `Vec` while any value is referenced would invalidate those references.
    InsertAtMaxCapacityWhileAValueIsReferenced,
    /// The value at this index is referenced and cannot be removed.
    RemoveWhileValueReferenced(usize),
    /// The value was removed (or replaced) since the key was issued: index and generation of the key.
    ValueDeleted(usize, usize),
    /// The generation counter reached its maximum value.
    MaxValueForGenerationReached,
    /// The index does not hold a free slot, so inserting there would destroy a live value.
    IndexIsNotFree(usize),
    /// The `Vec` reached the largest length the arena can index.
    MaximumCapacityReached,
    /// The value at this index already has the largest number of immutable references.
    MaximumImmutableReferencesReached(usize),
    /// The arena found its own bookkeeping in a state that its invariant rules out.
    #[allow(non_camel_case_types)]
    MAJOR_MALFUNCTION(String),
}

/// The character of the decimal digit `d`.
pub open spec fn digit_char(d: nat) -> char {
    if d == 0 {
        '0'
    } else if d == 1 {
        '1'
    } else if d == 2 {
        '2'
    } else if d == 3 {
        '3'
    } else if d == 4 {
        '4'
    } else if d == 5 {
        '5'
    } else if d == 6 {
        '6'
    } else if d == 7 {
        '7'
    } else if d == 8 {
        '8'
    } else {
        '9'
    }
}

/// The decimal digits of `n`, most significant first, without leading zeros.
pub open spec fn decimal(n: nat) -> Seq<char>
    decreases n,
{
    if n < 10 {
        seq![digit_char(n)]
    } else {
        decimal(n / 10).push(digit_char(n % 10))
    }
}

/// The one-character text of the decimal digit `d`.
fn digit_str(d: usize) -> (s: &'static str)
    requires
        d < 10,
    ensures
        s@ == seq![digit_char(d as nat)],
{
    if d == 0 {
        proof {
            reveal_strlit("0");
        }
        "0"
    } else if d == 1 {
        proof {
            reveal_strlit("1");
        }
        "1"
    } else if d == 2 {
        proof {
            reveal_strlit("2");
        }
        "2"
    } else if d == 3 {
        proof {
            reveal_strlit("3");
        }
        "3"
    } else if d == 4 {
        proof {
            reveal_strlit("4");
        }
        "4"
    } else if d == 5 {
        proof {
            reveal_strlit("5");
        }
        "5"
    } else if d == 6 {
        proof {
            reveal_strlit("6");
        }
        "6"
    } else if d == 7 {
        proof {
            reveal_strlit("7");
        }
        "7"
    } else if d == 8 {
        proof {
            reveal_strlit("8");
        }
        "8"
    } else if d == 9 {
        proof {
            reveal_strlit("9");
        }
        "9"
    } else {
        proof {
            assert(false);
        }
        "9"
    }
}

/// Appends the decimal digits of `n` to `out`.
fn push_decimal(out: &mut String, n: usize)
    ensures
        final(out)@ == old(out)@ + decimal(n as nat),
    decreases n,
{
    if n >= 10 {
        push_decimal(out, n / 10);
    }
    out.append(digit_str(n % 10));
    proof {
        if n < 10 {
            assert(decimal(n as nat) =~= seq![digit_char(n as nat)]);
        }
    }
}


/// `prefix`, the decimal digits of `n`, then `suffix`.
fn with_number(prefix: &str, n: usize, suffix: &str) -> (s: String)
    ensures
        s@ == prefix@ + decimal(n as nat) + suffix@,
{
    let mut s = String::from_str(prefix);
    push_decimal(&mut s, n);
    s.append(suffix);
    s
}

/// `prefix`, the digits of `n`, `middle`, the digits of `m`, then `suffix`.
fn with_two_numbers(prefix: &str, n: usize, middle: &str, m: usize, suffix: &str) -> (s: String)
    ensures
        s@ == prefix@ + decimal(n as nat) + middle@ + decimal(m as nat) + suffix@,
{
    let mut s = String::from_str(prefix);
    push_decimal(&mut s, n);
    s.append(middle);
    push_decimal(&mut s, m);
    s.append(suffix);
    s
}

impl AccessError {
    /// The variant and its fields, written as the variant would be written in code.
    pub open spec fn kind_text(&self) -> Seq<char> {
        match self {
            AccessError::IndexOutOfRange(i) => "AccessError::IndexOutOfRange("@ + decimal(i as nat) + ")"@,
            AccessError::ValueAlreadyMutablyReferenced(i) => "AccessError::ValueAlreadyMutablyReferenced("@ + decimal(i as nat) + ")"@,
            AccessError::ValueStillImmutablyReferenced(i) => "AccessError::ValueStillImmutablyReferenced("@ + decimal(i as nat) + ")"@,
            AccessError::InsertAtMaxCapacityWhileAValueIsReferenced => "AccessError::InsertAtMaxCapacityWhileAValueIsReferenced"@,
            AccessError::ValueDeleted(i, g) => "AccessError::ValueDeleted("@ + decimal(i as nat) + ", "@ + decimal(g as nat) + ")"@,
            AccessError::MaxValueForGenerationReached => "AccessError::MaxValueForGenerationReached"@,
            AccessError::RemoveWhileValueReferenced(i) => "AccessError::RemoveWhileValueReferenced("@ + decimal(i as nat) + ")"@,
            AccessError::IndexIsNotFree(i) => "AccessError::IndexIsNotFree("@ + decimal(i as nat) + ")"@,
            AccessError::MaximumCapacityReached => "AccessError::MaximumCapacityReached"@,
            AccessError::MaximumImmutableReferencesReached(i) => "AccessError::MaximumImmutableReferencesReached("@ + decimal(i as nat) + ")"@,
            AccessError::OverwriteWhileValueReferenced(i) => "AccessError::OverwriteWhileValueReferenced("@ + decimal(i as nat) + ")"@,
            AccessError::MAJOR_MALFUNCTION(msg) => "AccessError::MAJOR_MALFUNCTION("@ + msg@ + ")"@,
        }
    }

    /// A short description of the problem.
    pub open spec fn description_text(&self) -> Seq<char> {
        match self {
            AccessError::IndexOutOfRange(i) => "Index ["@ + decimal(i as nat) + "] is out of range"@,
            AccessError::ValueAlreadyMutablyReferenced(i) => "Value at index ["@ + decimal(i as nat) + "] is already being mutably referenced by another operation"@,
            AccessError::ValueStillImmutablyReferenced(i) => "Value at index ["@ + decimal(i as nat) + "] is still being immutably referenced by another operation, cannot mutably reference"@,
            AccessError::InsertAtMaxCapacityWhileAValueIsReferenced => "Prison is at max capacity, cannot insert new value while any values are still referenced"@,
            AccessError::ValueDeleted(i, g) => "Value requested at index "@ + decimal(i as nat) + " gen "@ + decimal(g as nat) + " was already deleted"@,
            AccessError::MaxValueForGenerationReached => "Maximum value for generation counter reached"@,
            AccessError::RemoveWhileValueReferenced(i) => "Index ["@ + decimal(i as nat) + "] is currently being referenced, cannot remove"@,
            AccessError::IndexIsNotFree(i) => "Index ["@ + decimal(i as nat) + "] is not free and may be still in use, cannot overwrite with unrelated value"@,
            AccessError::MaximumCapacityReached => "Prison has reached the maximum capacity allowed by Rust"@,
            AccessError::MaximumImmutableReferencesReached(i) => "Value at index ["@ + decimal(i as nat) + "] has reached the maximum number of immutable references: "@ + decimal((usize::MAX - 2) as nat) + ""@,
            AccessError::OverwriteWhileValueReferenced(i) => "Value at index ["@ + decimal(i as nat) + "] still has active references, cannot overwrite"@,
            AccessError::MAJOR_MALFUNCTION(msg) => msg@ + "\n-------\nIndicates that the operation created an invalid and unexpected state. This may have resulted in memory leaking, mutable aliasing, undefined behavior, etc."@,
        }
    }

    /// Returns a string that shows the variant and its fields, such as
    /// `AccessError::ValueDeleted(3, 0)`.
    pub fn kind(&self) -> (s: String)
        ensures
            s@ == self.kind_text(),
    {
        match self {
            AccessError::IndexOutOfRange(i) => with_number("AccessError::IndexOutOfRange(", *i, ")"),
            AccessError::ValueAlreadyMutablyReferenced(i) => with_number("AccessError::ValueAlreadyMutablyReferenced(", *i, ")"),
            AccessError::ValueStillImmutablyReferenced(i) => with_number("AccessError::ValueStillImmutablyReferenced(", *i, ")"),
            AccessError::InsertAtMaxCapacityWhileAValueIsReferenced => String::from_str("AccessError::InsertAtMaxCapacityWhileAValueIsReferenced"),
            AccessError::ValueDeleted(i, g) => with_two_numbers("AccessError::ValueDeleted(", *i, ", ", *g, ")"),
            AccessError::MaxValueForGenerationReached => String::from_str("AccessError::MaxValueForGenerationReached"),
            AccessError::RemoveWhileValueReferenced(i) => with_number("AccessError::RemoveWhileValueReferenced(", *i, ")"),
            AccessError::IndexIsNotFree(i) => with_number("AccessError::IndexIsNotFree(", *i, ")"),
            AccessError::MaximumCapacityReached => String::from_str("AccessError::MaximumCapacityReached"),
            AccessError::MaximumImmutableReferencesReached(i) => with_number("AccessError::MaximumImmutableReferencesReached(", *i, ")"),
            AccessError::OverwriteWhileValueReferenced(i) => with_number("AccessError::OverwriteWhileValueReferenced(", *i, ")"),
            AccessError::MAJOR_MALFUNCTION(msg) => {
                let mut s = String::from_str("AccessError::MAJOR_MALFUNCTION(");
                s.append(msg.as_str());
                s.append(")");
                s
            },
        }
    }

    /// Returns a short description of the problem, such as `Index [5] is out of range`.
    pub fn description(&self) -> (s: String)
        ensures
            s@ == self.description_text(),
    {
        match self {
            AccessError::IndexOutOfRange(i) => with_number("Index [", *i, "] is out of range"),
            AccessError::ValueAlreadyMutablyReferenced(i) => with_number("Value at index [", *i, "] is already being mutably referenced by another operation"),
            AccessError::ValueStillImmutablyReferenced(i) => with_number("Value at index [", *i, "] is still being immutably referenced by another operation, cannot mutably reference"),
            AccessError::InsertAtMaxCapacityWhileAValueIsReferenced => String::from_str("Prison is at max capacity, cannot insert new value while any values are still referenced"),
            AccessError::ValueDeleted(i, g) => with_two_numbers("Value requested at index ", *i, " gen ", *g, " was already deleted"),
            AccessError::MaxValueForGenerationReached => String::from_str("Maximum value for generation counter reached"),
            AccessError::RemoveWhileValueReferenced(i) => with_number("Index [", *i, "] is currently being referenced, cannot remove"),
            AccessError::IndexIsNotFree(i) => with_number("Index [", *i, "] is not free and may be still in use, cannot overwrite with unrelated value"),
            AccessError::MaximumCapacityReached => String::from_str("Prison has reached the maximum capacity allowed by Rust"),
            AccessError::MaximumImmutableReferencesReached(i) => with_two_numbers("Value at index [", *i, "] has reached the maximum number of immutable references: ", usize::MAX - 2, ""),
            AccessError::OverwriteWhileValueReferenced(i) => with_number("Value at index [", *i, "] still has active references, cannot overwrite"),
            AccessError::MAJOR_MALFUNCTION(msg) => {
                let mut s = msg.clone();
                s.append("\n-------\nIndicates that the operation created an invalid and unexpected state. This may have resulted in memory leaking, mutable aliasing, undefined behavior, etc.");
                s
            },
        }
    }

    /// What [`AccessError::details`] adds to the description: the reason the operation had to
    /// be refused (nothing for an index out of range).
    pub open spec fn explanation_text(&self) -> Seq<char> {
        match self {
            AccessError::IndexOutOfRange(_) => Seq::empty(),
            AccessError::ValueAlreadyMutablyReferenced(_) => "\n---------\nMutably referencing the same cell twice or immutably referencing a value being mutably referenced violates Rust's memory saftey rules"@,
            AccessError::ValueStillImmutablyReferenced(_) => "\n---------\nMutably referencing a cell while an immutable reference to it is still in scope violates Rust's memory saftey rules"@,
            AccessError::InsertAtMaxCapacityWhileAValueIsReferenced => "\n---------\nInserting a value in a Vec at max capacity while a value reference is still in scope may cause re-allocation that will invalidate it"@,
            AccessError::ValueDeleted(_, _) => "\n---------\nWhen deleting a value, it is recomended you take steps to invalidate any held keys refering to it"@,
            AccessError::MaxValueForGenerationReached => "\n---------\nA large number of removals and inserts has caused the generation counter to reach its max value. Manually perform a Prison::purge() and re-issue the keys to continue using this Prison"@,
            AccessError::RemoveWhileValueReferenced(_) => "\n---------\nRemoving a value with an active reference in scope will could overwrite the memory at that location and cause undefined behavior"@,
            AccessError::IndexIsNotFree(_) => "\n---------\nWriting a new value to this index will cause any keys referencing the old value to return errors. If this is truly the behavior you want, use Prison::overwrite() instead of Prison::insert()"@,
            AccessError::MaximumCapacityReached => "\n---------\nRust does not allow a [Vec] to have a capacity longer than [isize::MAX] becuase most operating systems only allow half of the total memory space to be addressed by programs"@,
            AccessError::MaximumImmutableReferencesReached(_) => "\n---------\nThis highly unlikely scenario means you somehow created "@ + decimal((usize::MAX - 2) as nat) + " immutable references to the value already"@,
            AccessError::OverwriteWhileValueReferenced(_) => "\n---------\nOverwriting a value with active references is the same as mutating a variable being immutably referenced, violating Rust's memory safety rules"@,
            AccessError::MAJOR_MALFUNCTION(_) => "\n---------\nThis error should be considered a BUG inside the library crate `grit-data-prison` and reported to the author of the crate"@,
        }
    }

    /// Returns the description followed by an explanation of why the operation had to be
    /// refused.
    pub fn details(&self) -> (s: String)
        ensures
            s@ == self.description_text() + self.explanation_text(),
    {
        let mut s = self.description();
        match self {
            AccessError::IndexOutOfRange(_) => {},
            AccessError::ValueAlreadyMutablyReferenced(_) => s.append("\n---------\nMutably referencing the same cell twice or immutably referencing a value being mutably referenced violates Rust's memory saftey rules"),
            AccessError::ValueStillImmutablyReferenced(_) => s.append("\n---------\nMutably referencing a cell while an immutable reference to it is still in scope violates Rust's memory saftey rules"),
            AccessError::InsertAtMaxCapacityWhileAValueIsReferenced => s.append("\n---------\nInserting a value in a Vec at max capacity while a value reference is still in scope may cause re-allocation that will invalidate it"),
            AccessError::ValueDeleted(_, _) => s.append("\n---------\nWhen deleting a value, it is recomended you take steps to invalidate any held keys refering to it"),
            AccessError::MaxValueForGenerationReached => s.append("\n---------\nA large number of removals and inserts has caused the generation counter to reach its max value. Manually perform a Prison::purge() and re-issue the keys to continue using this Prison"),
            AccessError::RemoveWhileValueReferenced(_) => s.append("\n---------\nRemoving a value with an active reference in scope will could overwrite the memory at that location and cause undefined behavior"),
            AccessError::IndexIsNotFree(_) => s.append("\n---------\nWriting a new value to this index will cause any keys referencing the old value to return errors. If this is truly the behavior you want, use Prison::overwrite() instead of Prison::insert()"),
            AccessError::MaximumCapacityReached => s.append("\n---------\nRust does not allow a [Vec] to have a capacity longer than [isize::MAX] becuase most operating systems only allow half of the total memory space to be addressed by programs"),
            AccessError::MaximumImmutableReferencesReached(_) => {
                let tail = with_number("\n---------\nThis highly unlikely scenario means you somehow created ", usize::MAX - 2, " immutable references to the value already");
                s.append(tail.as_str());
            },
            AccessError::OverwriteWhileValueReferenced(_) => s.append("\n---------\nOverwriting a value with active references is the same as mutating a variable being immutably referenced, violating Rust's memory safety rules"),
            AccessError::MAJOR_MALFUNCTION(_) => s.append("\n---------\nThis error should be considered a BUG inside the library crate `grit-data-prison` and reported to the author of the crate"),
        }
        s
    }
}

impl AccessError {
    /// The two errors carry the same information: the same variant with the same fields, a
    /// message counting as the same when its text is.
    pub open spec fn same_error(self, other: AccessError) -> bool {
        match self {
            AccessError::MAJOR_MALFUNCTION(m) => match other {
                AccessError::MAJOR_MALFUNCTION(n) => m@ == n@,
                _ => false,
            },
            _ => self == other,
        }
    }
}

/// Characters of [`AccessError::kind_text`] at positions 13, 14, 16, 18 and 20, taken from the
/// variant's name; no two variants share them.
spec fn kind_marks(e: AccessError) -> (char, char, char, char, char) {
    match e {
        AccessError::IndexOutOfRange(_) => ('I', 'n', 'e', 'O', 't'),
        AccessError::ValueAlreadyMutablyReferenced(_) => ('V', 'a', 'u', 'A', 'r'),
        AccessError::ValueStillImmutablyReferenced(_) => ('V', 'a', 'u', 'S', 'i'),
        AccessError::InsertAtMaxCapacityWhileAValueIsReferenced => ('I', 'n', 'e', 't', 't'),
        AccessError::ValueDeleted(_, _) => ('V', 'a', 'u', 'D', 'l'),
        AccessError::MaxValueForGenerationReached => ('M', 'a', 'V', 'l', 'e'),
        AccessError::RemoveWhileValueReferenced(_) => ('R', 'e', 'o', 'e', 'h'),
        AccessError::IndexIsNotFree(_) => ('I', 'n', 'e', 'I', 'N'),
        AccessError::MaximumCapacityReached => ('M', 'a', 'i', 'u', 'C'),
        AccessError::MaximumImmutableReferencesReached(_) => ('M', 'a', 'i', 'u', 'I'),
        AccessError::OverwriteWhileValueReferenced(_) => ('O', 'v', 'r', 'r', 't'),
        AccessError::MAJOR_MALFUNCTION(_) => ('M', 'A', 'O', '_', 'A'),
    }
}

/// Where the marks of [`kind_marks`] stand in the kind text.
proof fn lemma_kind_marks(e: AccessError)
    ensures
        e.kind_text().len() > 20,
        (e.kind_text()[13], e.kind_text()[14], e.kind_text()[16], e.kind_text()[18], e.kind_text()[20])
            == kind_marks(e),
{
    reveal_strlit("AccessError::IndexOutOfRange(");
    reveal_strlit("AccessError::ValueAlreadyMutablyReferenced(");
    reveal_strlit("AccessError::ValueStillImmutablyReferenced(");
    reveal_strlit("AccessError::InsertAtMaxCapacityWhileAValueIsReferenced");
    reveal_strlit("AccessError::ValueDeleted(");
    reveal_strlit("AccessError::MaxValueForGenerationReached");
    reveal_strlit("AccessError::RemoveWhileValueReferenced(");
    reveal_strlit("AccessError::IndexIsNotFree(");
    reveal_strlit("AccessError::MaximumCapacityReached");
    reveal_strlit("AccessError::MaximumImmutableReferencesReached(");
    reveal_strlit("AccessError::OverwriteWhileValueReferenced(");
    reveal_strlit("AccessError::MAJOR_MALFUNCTION(");
}

/// The code of the decimal digit `d`.
proof fn lemma_digit_char_code(d: nat)
    requires
        d < 10,
    ensures
        digit_char(d) as int == 48 + d,
{
}

/// Decimal digits are one or more characters between `0` and `9`, two or more from ten on.
proof fn lemma_decimal_digits(n: nat)
    ensures
        decimal(n).len() >= 1,
        n >= 10 ==> decimal(n).len() >= 2,
        forall|k: int| 0 <= k < decimal(n).len() ==> 48 <= #[trigger] decimal(n)[k] as int <= 57,
    decreases n,
{
    if n >= 10 {
        lemma_decimal_digits(n / 10);
        lemma_digit_char_code(n % 10);
        assert forall|k: int| 0 <= k < decimal(n).len() implies 48 <= #[trigger] decimal(n)[k] as int <= 57 by {
            if k < decimal(n / 10).len() {
                assert(decimal(n)[k] == decimal(n / 10)[k]);
            }
        }
    } else {
        lemma_digit_char_code(n);
    }
}

/// Different numbers have different decimal digits.
proof fn lemma_decimal_injective(n: nat, m: nat)
    requires
        decimal(n) == decimal(m),
    ensures
        n == m,
    decreases n,
{
    lemma_decimal_digits(n);
    lemma_decimal_digits(m);
    if n < 10 && m < 10 {
        lemma_digit_char_code(n);
        lemma_digit_char_code(m);
        assert(decimal(n)[0] == decimal(m)[0]);
    } else if n >= 10 && m >= 10 {
        assert(decimal(n).drop_last() =~= decimal(n / 10));
        assert(decimal(m).drop_last() =~= decimal(m / 10));
        lemma_decimal_injective(n / 10, m / 10);
        lemma_digit_char_code(n % 10);
        lemma_digit_char_code(m % 10);
        assert(decimal(n).last() == digit_char(n % 10));
        assert(decimal(m).last() == digit_char(m % 10));
        assert(n % 10 == m % 10);
        assert(n == 10 * (n / 10) + n % 10);
        assert(m == 10 * (m / 10) + m % 10);
    } else if n < 10 {
        assert(decimal(n).len() == 1);
    } else {
        assert(decimal(m).len() == 1);
    }
}

/// Equal texts with the same prefix and suffix have the same middle.
proof fn lemma_strip(p: Seq<char>, x: Seq<char>, y: Seq<char>, s: Seq<char>)
    requires
        p + x + s == p + y + s,
    ensures
        x == y,
{
    let t = p + x + s;
    assert(t.len() == (p + y + s).len());
    assert(x =~= t.subrange(p.len() as int, (p.len() + x.len()) as int));
    assert(y =~= t.subrange(p.len() as int, (p.len() + y.len()) as int));
}

/// Two numbers written with `", "` between them can be read back.
proof fn lemma_two_decimals(i: nat, g: nat, j: nat, h: nat)
    requires
        decimal(i) + ", "@ + decimal(g) == decimal(j) + ", "@ + decimal(h),
    ensures
        i == j,
        g == h,
{
    reveal_strlit(", ");
    lemma_decimal_digits(i);
    lemma_decimal_digits(j);
    let a = decimal(i);
    let b = decimal(j);
    let l = a + ", "@ + decimal(g);
    let r = b + ", "@ + decimal(h);
    if a.len() < b.len() {
        assert(l[a.len() as int] == ',');
        assert(r[a.len() as int] == b[a.len() as int]);
    }
    if b.len() < a.len() {
        assert(r[b.len() as int] == ',');
        assert(l[b.len() as int] == a[b.len() as int]);
    }
    assert(a =~= l.subrange(0, a.len() as int));
    assert(b =~= r.subrange(0, b.len() as int));
    lemma_decimal_injective(i, j);
    assert(decimal(g) =~= l.subrange((a.len() + 2) as int, l.len() as int));
    assert(decimal(h) =~= r.subrange((b.len() + 2) as int, r.len() as int));
    lemma_decimal_injective(g, h);
}

/// The kind text tells errors apart: two errors have the same kind text exactly when they
/// are the same error.
pub proof fn lemma_kind_identifies_error(a: AccessError, b: AccessError)
    ensures
        a.kind_text() == b.kind_text() <==> a.same_error(b),
{
    if a.kind_text() == b.kind_text() {
        lemma_kind_marks(a);
        lemma_kind_marks(b);
        assert(kind_marks(a) == kind_marks(b));
        match a {
            AccessError::IndexOutOfRange(i) => {
                if let AccessError::IndexOutOfRange(j) = b {
                    lemma_strip("AccessError::IndexOutOfRange("@, decimal(i as nat), decimal(j as nat), ")"@);
                    lemma_decimal_injective(i as nat, j as nat);
                }
            },
            AccessError::ValueAlreadyMutablyReferenced(i) => {
                if let AccessError::ValueAlreadyMutablyReferenced(j) = b {
                    lemma_strip("AccessError::ValueAlreadyMutablyReferenced("@, decimal(i as nat), decimal(j as nat), ")"@);
                    lemma_decimal_injective(i as nat, j as nat);
                }
            },
            AccessError::ValueStillImmutablyReferenced(i) => {
                if let AccessError::ValueStillImmutablyReferenced(j) = b {
                    lemma_strip("AccessError::ValueStillImmutablyReferenced("@, decimal(i as nat), decimal(j as nat), ")"@);
                    lemma_decimal_injective(i as nat, j as nat);
                }
            },
            AccessError::InsertAtMaxCapacityWhileAValueIsReferenced => {},
            AccessError::ValueDeleted(i, g) => {
                if let AccessError::ValueDeleted(j, h) = b {
                    assert(a.kind_text() =~= "AccessError::ValueDeleted("@ + (decimal(i as nat) + ", "@ + decimal(g as nat)) + ")"@);
                    assert(b.kind_text() =~= "AccessError::ValueDeleted("@ + (decimal(j as nat) + ", "@ + decimal(h as nat)) + ")"@);
                    lemma_strip(
                        "AccessError::ValueDeleted("@,
                        decimal(i as nat) + ", "@ + decimal(g as nat),
                        decimal(j as nat) + ", "@ + decimal(h as nat),
                        ")"@,
                    );
                    lemma_two_decimals(i as nat, g as nat, j as nat, h as nat);
                }
            },
            AccessError::MaxValueForGenerationReached => {},
            AccessError::RemoveWhileValueReferenced(i) => {
                if let AccessError::RemoveWhileValueReferenced(j) = b {
                    lemma_strip("AccessError::RemoveWhileValueReferenced("@, decimal(i as nat), decimal(j as nat), ")"@);
                    lemma_decimal_injective(i as nat, j as nat);
                }
            },
            AccessError::IndexIsNotFree(i) => {
                if let AccessError::IndexIsNotFree(j) = b {
                    lemma_strip("AccessError::IndexIsNotFree("@, decimal(i as nat), decimal(j as nat), ")"@);
                    lemma_decimal_injective(i as nat, j as nat);
                }
            },
            AccessError::MaximumCapacityReached => {},
            AccessError::MaximumImmutableReferencesReached(i) => {
                if let AccessError::MaximumImmutableReferencesReached(j) = b {
                    lemma_strip("AccessError::MaximumImmutableReferencesReached("@, decimal(i as nat), decimal(j as nat), ")"@);
                    lemma_decimal_injective(i as nat, j as nat);
                }
            },
            AccessError::OverwriteWhileValueReferenced(i) => {
                if let AccessError::OverwriteWhileValueReferenced(j) = b {
                    lemma_strip("AccessError::OverwriteWhileValueReferenced("@, decimal(i as nat), decimal(j as nat), ")"@);
                    lemma_decimal_injective(i as nat, j as nat);
                }
            },
            AccessError::MAJOR_MALFUNCTION(m) => {
                if let AccessError::MAJOR_MALFUNCTION(n) = b {
                    lemma_strip("AccessError::MAJOR_MALFUNCTION("@, m@, n@, ")"@);
                }
            },
        }
    }
}

} // verus!
