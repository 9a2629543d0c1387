use reactive_core::boundary::{
    enter_number, show, validate_number, Entered, NumberError, Shown,
};
use reactive_core::error::ReactiveError;
use reactive_core::node_ref::NodeRef;
use reactive_core::runtime::{Runtime, ScopeId, SignalId};

fn entered(text: &str) -> Entered {
    let mut rt: Runtime<Entered> = Runtime::new();
    let s = rt.create_signal(Entered::Number(0)).unwrap();
    enter_number(&mut rt, s, text).unwrap();
    *rt.read_untracked(s).unwrap()
}

fn fallback_of(values: &Vec<Entered>) -> Option<Vec<(usize, NumberError)>> {
    match show(values) {
        Shown::Children => None,
        Shown::Fallback(errors) => Some(errors),
    }
}

#[test]
fn text_is_parsed_as_a_number() {
    assert_eq!(entered("12"), Entered::Number(12));
    assert_eq!(entered("-7"), Entered::Number(-7));
    assert_eq!(entered("+7"), Entered::Number(7));
    assert_eq!(entered("007"), Entered::Number(7));
    assert_eq!(entered("2147483647"), Entered::Number(i32::MAX));
    assert_eq!(entered("-2147483648"), Entered::Number(i32::MIN));
}

#[test]
fn text_that_is_no_number_is_a_failure_value() {
    assert_eq!(entered(""), Entered::Failure(NumberError::Empty));
    assert_eq!(entered("abc"), Entered::Failure(NumberError::InvalidDigit));
    assert_eq!(entered("1 "), Entered::Failure(NumberError::InvalidDigit));
    assert_eq!(entered("-"), Entered::Failure(NumberError::InvalidDigit));
    assert_eq!(entered("1.5"), Entered::Failure(NumberError::InvalidDigit));
    assert_eq!(entered("2147483648"), Entered::Failure(NumberError::TooLarge));
    assert_eq!(entered("-2147483649"), Entered::Failure(NumberError::TooSmall));
}

#[test]
fn entering_into_a_disposed_signal_fails() {
    let mut rt: Runtime<Entered> = Runtime::new();
    let scope = rt.create_scope().unwrap();
    rt.enter_scope(scope).unwrap();
    let s = rt.create_signal(Entered::Number(0)).unwrap();
    assert!(rt.dispose(scope));
    assert_eq!(enter_number(&mut rt, s, "1"), Err(ReactiveError::UseAfterDispose));
    assert_eq!(enter_number(&mut rt, SignalId(9), "1"), Err(ReactiveError::UseAfterDispose));
}

#[test]
fn entered_values_compare_by_what_they_hold() {
    assert!(Entered::Number(1) == Entered::Number(1));
    assert!(Entered::Number(1) != Entered::Number(2));
    assert!(Entered::Failure(NumberError::Empty) == Entered::Failure(NumberError::Empty));
    assert!(Entered::Failure(NumberError::Empty) != Entered::Failure(NumberError::TooLarge));
    assert!(Entered::Number(0) != Entered::Failure(NumberError::Empty));
}

#[test]
fn boundary_shows_children_without_failures() {
    assert_eq!(fallback_of(&vec![]), None);
    assert_eq!(fallback_of(&vec![Entered::Number(1), Entered::Number(2)]), None);
}

#[test]
fn boundary_hands_every_failure_to_the_fallback() {
    let values = vec![
        Entered::Failure(NumberError::Empty),
        Entered::Number(3),
        Entered::Failure(NumberError::TooLarge),
    ];
    assert_eq!(
        fallback_of(&values),
        Some(vec![(0, NumberError::Empty), (2, NumberError::TooLarge)])
    );
}

#[test]
fn boundary_follows_the_signal_without_a_remount() {
    let mut rt: Runtime<Entered> = Runtime::new();
    let value = rt.create_signal(Entered::Number(0)).unwrap();
    let boundary = rt.create_effect().unwrap();
    let mut shown: Vec<Option<Vec<(usize, NumberError)>>> = Vec::new();
    let mut render = |rt: &mut Runtime<Entered>| {
        assert!(rt.begin_flush());
        while let Some(effect) = rt.next_effect() {
            assert_eq!(effect, boundary);
            let current = vec![*rt.read(value).unwrap()];
            shown.push(fallback_of(&current));
            assert!(rt.end_effect(effect));
        }
    };
    render(&mut rt);
    assert_eq!(enter_number(&mut rt, value, "12x"), Ok(true));
    render(&mut rt);
    // a failure does not abort the flush, and another failure shows again
    assert_eq!(enter_number(&mut rt, value, ""), Ok(true));
    render(&mut rt);
    assert_eq!(enter_number(&mut rt, value, "12"), Ok(true));
    render(&mut rt);
    // the same text again is no change
    assert_eq!(enter_number(&mut rt, value, "12"), Ok(false));
    render(&mut rt);
    assert_eq!(
        shown,
        vec![
            None,
            Some(vec![(0, NumberError::InvalidDigit)]),
            Some(vec![(0, NumberError::Empty)]),
            None,
        ]
    );
    // the boundary is the effect it was, under the scope it was created in
    assert!(rt.is_effect_alive(boundary));
    assert!(rt.is_scope_alive(ScopeId(0)));
    assert_eq!(rt.read_untracked(value), Ok(&Entered::Number(12)));
}

#[test]
fn node_handle_is_read_only_once_mounted() {
    let mut handle = NodeRef::new();
    assert!(!handle.is_mounted());
    assert_eq!(handle.get(), Err(ReactiveError::NotMounted));
    assert!(handle.attach(42));
    assert!(handle.is_mounted());
    assert_eq!(handle.get(), Ok(42));
}

#[test]
fn node_handle_is_bound_once() {
    let mut handle = NodeRef::new();
    assert!(handle.attach(1));
    assert!(!handle.attach(2));
    assert_eq!(handle.get(), Ok(1));
}

#[test]
fn validation_gives_the_number_or_the_reason() {
    assert_eq!(validate_number("42"), Entered::Number(42));
    assert_eq!(validate_number("-0"), Entered::Number(0));
    assert_eq!(validate_number("4 2"), Entered::Failure(NumberError::InvalidDigit));
    assert_eq!(validate_number("+"), Entered::Failure(NumberError::InvalidDigit));
    assert_eq!(validate_number("٣"), Entered::Failure(NumberError::InvalidDigit));
}

#[test]
fn number_error_describes_itself() {
    assert_eq!(NumberError::Empty.message(), "cannot parse integer from empty string");
    assert_eq!(NumberError::InvalidDigit.message(), "invalid digit found in string");
    assert_eq!(NumberError::TooLarge.message(), "number too large to fit in target type");
    assert_eq!(NumberError::TooSmall.message(), "number too small to fit in target type");
    assert_eq!(NumberError::Other.message(), "not a number");
}
