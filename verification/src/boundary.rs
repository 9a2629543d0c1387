//! User input that may fail to validate, carried by signals as ordinary
//! values, and the error boundary that shows a fallback while any of the
//! values it watches is a failure.

use crate::error::ReactiveError;
use crate::model::ids_below;
use crate::runtime::{Runtime, SignalId};
use vstd::prelude::*;
use vstd::std_specs::cmp::PartialEqSpecImpl;

verus! {

/// Why a text is no number.
#[derive(Clone, Copy, Debug, PartialEq, Eq, Structural)]
pub enum NumberError {
    /// The text is empty.
    Empty,
    /// The text holds a character that is no digit where a digit must stand.
    InvalidDigit,
    /// The number is too large for the type.
    TooLarge,
    /// The number is too small for the type.
    TooSmall,
    /// Any other reason.
    Other,
}

impl NumberError {
    /// What the error says of itself.
    pub open spec fn text(self) -> Seq<char> {
        match self {
            NumberError::Empty => "cannot parse integer from empty string"@,
            NumberError::InvalidDigit => "invalid digit found in string"@,
            NumberError::TooLarge => "number too large to fit in target type"@,
            NumberError::TooSmall => "number too small to fit in target type"@,
            NumberError::Other => "not a number"@,
        }
    }

    /// A description of the error for the user.
    pub fn message(&self) -> (text: &'static str)
        ensures
            text@ == self.text(),
    {
        match self {
            NumberError::Empty => "cannot parse integer from empty string",
            NumberError::InvalidDigit => "invalid digit found in string",
            NumberError::TooLarge => "number too large to fit in target type",
            NumberError::TooSmall => "number too small to fit in target type",
            NumberError::Other => "not a number",
        }
    }
}

/// What the user entered into a numeric input: a number, or the reason why
/// the text is none.
#[derive(Clone, Copy, Debug)]
pub enum Entered {
    Number(i32),
    Failure(NumberError),
}

impl PartialEq for Entered {
    fn eq(&self, other: &Self) -> (same: bool) {
        match (self, other) {
            (Entered::Number(left), Entered::Number(right)) => *left == *right,
            (Entered::Failure(left), Entered::Failure(right)) => *left == *right,
            _ => false,
        }
    }
}

impl PartialEqSpecImpl for Entered {
    open spec fn obeys_eq_spec() -> bool {
        true
    }

    open spec fn eq_spec(&self, other: &Self) -> bool {
        *self == *other
    }
}

/// What `str::parse::<i32>` makes of a text.
pub uninterp spec fn parsed_i32(text: Seq<char>) -> Entered;

/// Parses a text as an `i32` with `str::parse`, which is `i32::from_str`:
/// an optional sign and decimal digits. The result is a function of the text
/// alone; the contract gives it a name and states no more.
#[verifier::external_body]
fn parse_i32(text: &str) -> (entered: Entered)
    ensures
        entered == parsed_i32(text@),
{
    match text.parse::<i32>() {
        Ok(number) => Entered::Number(number),
        Err(error) => Entered::Failure(
            match error.kind() {
                std::num::IntErrorKind::Empty => NumberError::Empty,
                std::num::IntErrorKind::InvalidDigit => NumberError::InvalidDigit,
                std::num::IntErrorKind::PosOverflow => NumberError::TooLarge,
                std::num::IntErrorKind::NegOverflow => NumberError::TooSmall,
                _ => NumberError::Other,
            },
        ),
    }
}

/// Validates what the user typed into a numeric input: the number that the
/// text stands for, or the reason why it stands for none.
pub fn validate_number(text: &str) -> (entered: Entered)
    ensures
        entered == parsed_i32(text@),
{
    parse_i32(text)
}

/// Takes what the user typed into a numeric input: the text is parsed and
/// the outcome, number or failure, is written to the signal like any other
/// value. A text that is no number is no fault: it fails nothing and aborts
/// nothing. Fails only where the signal is not alive.
pub fn enter_number(runtime: &mut Runtime<Entered>, signal: SignalId, text: &str) -> (written:
    Result<bool, ReactiveError>)
    requires
        old(runtime).wf(),
    ensures
        final(runtime).wf(),
        match written {
            Ok(changed) => {
                &&& old(runtime)@.live_signal(signal.0)
                &&& changed == old(runtime)@.changes(signal.0, parsed_i32(text@))
                &&& final(runtime)@ == old(runtime)@.written(
                    signal.0,
                    parsed_i32(text@),
                    changed,
                )
            },
            Err(error) => {
                &&& !old(runtime)@.live_signal(signal.0)
                &&& error == ReactiveError::UseAfterDispose
                &&& final(runtime)@ == old(runtime)@
            },
        },
{
    let entered = validate_number(text);
    runtime.write(signal, entered)
}

/// What an error boundary shows.
#[derive(Debug)]
pub enum Shown {
    /// No watched value is a failure: the boundary shows its children.
    Children,
    /// Some watched value is a failure: the boundary shows its fallback,
    /// which is given every current failure with the position of its value.
    Fallback(Vec<(usize, NumberError)>),
}

/// The value at `index` is a failure.
pub open spec fn fails_at(values: Seq<Entered>, index: usize) -> bool {
    index < values.len() && values[index as int] is Failure
}

/// The positions at which `values` holds a failure.
pub open spec fn failing_in(values: Seq<Entered>) -> spec_fn(usize) -> bool {
    |i: usize| fails_at(values, i)
}

/// The positions of the failures among `values`, ascending.
pub open spec fn failing(values: Seq<Entered>) -> Seq<usize> {
    ids_below(values.len()).filter(failing_in(values))
}

/// The failures among `values`, each with its position, in their order.
pub open spec fn failures(values: Seq<Entered>) -> Seq<(usize, NumberError)> {
    Seq::new(
        failing(values).len(),
        |k: int| (failing(values)[k], values[failing(values)[k] as int]->Failure_0),
    )
}

/// Decides what an error boundary shows for the current values of what it
/// watches: its children where none of them is a failure, else the fallback
/// with every failure.
pub fn show(values: &Vec<Entered>) -> (shown: Shown)
    ensures
        match shown {
            Shown::Children => failures(values@).len() == 0,
            Shown::Fallback(errors) => errors@.len() > 0 && errors@ == failures(values@),
        },
{
    let ghost ids = ids_below(values@.len());
    let ghost fails = failing_in(values@);
    let mut errors: Vec<(usize, NumberError)> = Vec::new();
    let mut i: usize = 0;
    proof {
        reveal(Seq::filter);
        assert(ids.take(0) =~= Seq::<usize>::empty());
    }
    while i < values.len()
        invariant
            i <= values@.len(),
            ids == ids_below(values@.len()),
            fails == failing_in(values@),
            errors@.len() == ids.take(i as int).filter(fails).len(),
            forall|k: int|
                0 <= k < errors@.len() ==> (#[trigger] errors@[k]).0 == ids.take(i as int).filter(
                    fails,
                )[k] && errors@[k].0 < i && values@[errors@[k].0 as int] == Entered::Failure(
                    errors@[k].1,
                ),
        decreases values@.len() - i,
    {
        proof {
            ids.take(i as int).lemma_filter_push(i, fails);
            assert(ids.take(i as int).push(i) =~= ids.take(i + 1));
        }
        match values[i] {
            Entered::Failure(error) => {
                errors.push((i, error));
            },
            Entered::Number(_) => {},
        }
        i = i + 1;
    }
    proof {
        assert(ids.take(values@.len() as int) =~= ids);
        assert(failing(values@) == ids.filter(fails));
        assert(errors@ =~= failures(values@));
    }
    if errors.len() == 0 {
        Shown::Children
    } else {
        Shown::Fallback(errors)
    }
}

} // verus!
