//! What the example components decide: which label, branch or row follows
//! from the current values. The markup around these decisions is not here.

use crate::reconcile::ListState;
use vstd::prelude::*;

verus! {

/// The number is odd.
pub open spec fn odd(value: i32) -> bool {
    value % 2 != 0
}

/// Whether the number is odd.
pub fn is_odd(value: i32) -> (answer: bool)
    ensures
        answer == odd(value),
{
    assert((value & 1 == 1) == (value % 2 != 0)) by (bit_vector);
    value & 1 == 1
}

/// The new state of a toggle.
pub fn toggled(on: bool) -> (now: bool)
    ensures
        now == !on,
{
    !on
}

/// The message that is shown for odd numbers only.
pub fn ding(value: i32) -> (message: Option<&'static str>)
    ensures
        match message {
            Some(text) => odd(value) && text@ == "Ding Ding Ding"@,
            None => !odd(value),
        },
{
    if is_odd(value) {
        Some("Ding Ding Ding")
    } else {
        None
    }
}

/// The parity of a number in words.
pub open spec fn parity_text(value: i32) -> Seq<char> {
    if odd(value) {
        "Odd"@
    } else {
        "Even"@
    }
}

/// The parity of a number in words.
pub fn parity(value: i32) -> (text: &'static str)
    ensures
        text@ == parity_text(value),
{
    if is_odd(value) {
        "Odd"
    } else {
        "Even"
    }
}

/// The name of a number: zero and one by their names, every other number by its parity.
pub open spec fn name_text(value: i32) -> Seq<char> {
    if value == 0 {
        "Zero"@
    } else if value == 1 {
        "One"@
    } else {
        parity_text(value)
    }
}

/// The name of a number: zero and one by their names, every other number by its parity.
pub fn name(value: i32) -> (text: &'static str)
    ensures
        text@ == name_text(value),
{
    if value == 0 {
        "Zero"
    } else if value == 1 {
        "One"
    } else {
        parity(value)
    }
}

/// What a block shows that has one content for odd numbers and a fallback for the rest.
pub fn oddment(value: i32) -> (text: &'static str)
    ensures
        text@ == if odd(value) {
            "Oddment"@
        } else {
            "Even Steven"@
        },
{
    if is_odd(value) {
        "Oddment"
    } else {
        "Even Steven"
    }
}

/// The element that shows a number, where branches of different types meet.
#[derive(Clone, Copy, Debug, PartialEq, Eq, Structural)]
pub enum Branch {
    /// Preformatted text that reads "One".
    One,
    /// A paragraph that reads "Two".
    Two,
    /// A text area that holds the number.
    Number(i32),
}

/// Chooses the element that shows a number.
pub fn branch(value: i32) -> (chosen: Branch)
    ensures
        chosen == if value == 1 {
            Branch::One
        } else if value == 2 {
            Branch::Two
        } else {
            Branch::Number(value)
        },
{
    let uneven = is_odd(value);
    if uneven && value == 1 {
        Branch::One
    } else if !uneven && value == 2 {
        Branch::Two
    } else {
        Branch::Number(value)
    }
}

/// Whether an option of a select is the selected one.
pub fn is_selected(value: &String, option: &String) -> (selected: bool)
    ensures
        selected == (value@ == option@),
{
    *value == *option
}

/// The counts that a static list of `length` counters starts with: one to `length`.
pub fn first_counts(length: usize) -> (counts: Vec<usize>)
    ensures
        counts@ == Seq::new(length as nat, |i: int| (i + 1) as usize),
{
    let mut counts: Vec<usize> = Vec::new();
    let mut i: usize = 0;
    while i < length
        invariant
            i <= length,
            counts@ == Seq::new(i as nat, |k: int| (k + 1) as usize),
        decreases length - i,
    {
        counts.push(i + 1);
        i = i + 1;
        assert(counts@ =~= Seq::new(i as nat, |k: int| (k + 1) as usize));
    }
    counts
}

/// The row that a dynamic list of counters holds for a key: the key and the
/// count that its counter starts with, one more than the key.
pub open spec fn row_of(key: u64) -> (u64, u64) {
    (key, (key + 1) as u64)
}

/// The rows that a dynamic list of `length` counters starts with: the keys
/// from zero up, each with its first count.
pub fn first_rows(length: u32) -> (rows: Vec<(u64, u64)>)
    ensures
        rows@ == Seq::new(length as nat, |i: int| row_of(i as u64)),
{
    let mut rows: Vec<(u64, u64)> = Vec::new();
    let mut i: u32 = 0;
    while i < length
        invariant
            i <= length,
            rows@ == Seq::new(i as nat, |k: int| row_of(k as u64)),
        decreases length - i,
    {
        let key = i as u64;
        rows.push((key, key + 1));
        i = i + 1;
        assert(rows@ =~= Seq::new(i as nat, |k: int| row_of(k as u64)));
    }
    rows
}

/// The row of the next counter of a dynamic list: the next key of the list's
/// generator with its first count. `None` where the generator has no key left.
pub fn next_row<V>(list: &mut ListState<V>) -> (row: Option<(u64, u64)>)
    requires
        old(list).wf(),
    ensures
        final(list).wf(),
        match row {
            Some(row) => {
                &&& old(list)@.next_key < u64::MAX
                &&& row == row_of(old(list)@.next_key)
                &&& final(list)@.next_key == old(list)@.next_key + 1
                &&& final(list)@.items == old(list)@.items
                &&& final(list)@.scopes == old(list)@.scopes
                &&& final(list)@.owner == old(list)@.owner
            },
            None => old(list)@.next_key == u64::MAX && final(list)@ == old(list)@,
        },
{
    match list.fresh_key() {
        Some(key) => Some((key, key + 1)),
        None => None,
    }
}

/// The rows whose key is not `key`.
pub open spec fn other_rows<V>(key: u64) -> spec_fn((u64, V)) -> bool {
    |row: (u64, V)| row.0 != key
}

/// The rows of a dynamic list without the row of `key`, in their order.
pub fn remove_row<V: Copy>(rows: &Vec<(u64, V)>, key: u64) -> (kept: Vec<(u64, V)>)
    ensures
        kept@ == rows@.filter(other_rows(key)),
{
    let mut kept: Vec<(u64, V)> = Vec::new();
    let mut i: usize = 0;
    proof {
        reveal(Seq::filter);
        assert(rows@.take(0) =~= Seq::<(u64, V)>::empty());
    }
    while i < rows.len()
        invariant
            i <= rows@.len(),
            kept@ == rows@.take(i as int).filter(other_rows(key)),
        decreases rows@.len() - i,
    {
        proof {
            rows@.take(i as int).lemma_filter_push(rows@[i as int], other_rows(key));
            assert(rows@.take(i as int).push(rows@[i as int]) =~= rows@.take(i + 1));
        }
        if rows[i].0 != key {
            kept.push(rows[i]);
        }
        i = i + 1;
    }
    assert(rows@.take(rows@.len() as int) =~= rows@);
    kept
}

/// Twice the value fits the type.
pub open spec fn can_double(value: i32) -> bool {
    i32::MIN <= 2 * value <= i32::MAX
}

/// Whether every value can be doubled.
pub fn all_can_double(values: &Vec<i32>) -> (all: bool)
    ensures
        all == forall|i: int| 0 <= i < values@.len() ==> can_double(#[trigger] values@[i]),
{
    let mut i: usize = 0;
    while i < values.len()
        invariant
            i <= values@.len(),
            forall|k: int| 0 <= k < i ==> can_double(#[trigger] values@[k]),
        decreases values@.len() - i,
    {
        if values[i] < i32::MIN / 2 || values[i] > i32::MAX / 2 {
            assert(!can_double(values@[i as int]));
            return false;
        }
        i = i + 1;
    }
    true
}

/// Doubles every value in place.
pub fn double_values(values: &mut Vec<i32>)
    requires
        forall|i: int| 0 <= i < old(values)@.len() ==> can_double(#[trigger] old(values)@[i]),
    ensures
        final(values)@.len() == old(values)@.len(),
        forall|i: int|
            0 <= i < old(values)@.len() ==> #[trigger] final(values)@[i] == 2 * old(values)@[i],
{
    let mut i: usize = 0;
    while i < values.len()
        invariant
            i <= values@.len(),
            values@.len() == old(values)@.len(),
            forall|k: int| 0 <= k < i ==> #[trigger] values@[k] == 2 * old(values)@[k],
            forall|k: int| i <= k < values@.len() ==> #[trigger] values@[k] == old(values)@[k],
            forall|k: int| 0 <= k < old(values)@.len() ==> can_double(#[trigger] old(values)@[k]),
        decreases values@.len() - i,
    {
        assert(can_double(old(values)@[i as int]));
        let doubled = values[i] * 2;
        values[i] = doubled;
        i = i + 1;
    }
}

} // verus!
