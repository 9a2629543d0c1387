use reactive_core::components::{
    all_can_double, branch, ding, double_values, first_counts, first_rows, is_odd, is_selected,
    name, next_row, oddment, parity, remove_row, toggled, Branch,
};
use reactive_core::reconcile::ListState;
use reactive_core::runtime::{Runtime, ScopeId};

#[test]
fn odd_numbers_are_told_from_even_ones() {
    assert!(is_odd(1));
    assert!(is_odd(3));
    assert!(is_odd(-1));
    assert!(is_odd(i32::MAX));
    assert!(!is_odd(0));
    assert!(!is_odd(2));
    assert!(!is_odd(-2));
    assert!(!is_odd(i32::MIN));
}

#[test]
fn toggle_flips() {
    assert!(toggled(false));
    assert!(!toggled(true));
}

#[test]
fn ding_sounds_for_odd_numbers_only() {
    assert_eq!(ding(1), Some("Ding Ding Ding"));
    assert_eq!(ding(-3), Some("Ding Ding Ding"));
    assert_eq!(ding(0), None);
    assert_eq!(ding(4), None);
}

#[test]
fn numbers_are_named() {
    assert_eq!(name(0), "Zero");
    assert_eq!(name(1), "One");
    assert_eq!(name(2), "Even");
    assert_eq!(name(3), "Odd");
    assert_eq!(name(-1), "Odd");
    assert_eq!(name(-4), "Even");
    assert_eq!(parity(0), "Even");
    assert_eq!(parity(1), "Odd");
    assert_eq!(oddment(1), "Oddment");
    assert_eq!(oddment(2), "Even Steven");
}

#[test]
fn branch_follows_the_number() {
    assert_eq!(branch(1), Branch::One);
    assert_eq!(branch(2), Branch::Two);
    assert_eq!(branch(0), Branch::Number(0));
    assert_eq!(branch(3), Branch::Number(3));
    assert_eq!(branch(-1), Branch::Number(-1));
}

#[test]
fn option_is_selected_by_its_value() {
    assert!(is_selected(&"B".to_string(), &"B".to_string()));
    assert!(!is_selected(&"B".to_string(), &"A".to_string()));
    assert!(!is_selected(&"B".to_string(), &"b".to_string()));
    assert!(is_selected(&String::new(), &String::new()));
}

#[test]
fn static_list_counts_from_one() {
    assert_eq!(first_counts(5), vec![1, 2, 3, 4, 5]);
    assert_eq!(first_counts(0), Vec::<usize>::new());
}

#[test]
fn dynamic_list_starts_with_a_row_for_each_key() {
    assert_eq!(first_rows(3), vec![(0, 1), (1, 2), (2, 3)]);
    assert_eq!(first_rows(0), vec![]);
}

#[test]
fn added_row_gets_the_next_key() {
    let mut list: ListState<u64> = ListState::new(ScopeId(0), 3);
    let mut rows = first_rows(3);
    assert_eq!(next_row(&mut list), Some((3, 4)));
    rows.push((3, 4));
    assert_eq!(next_row(&mut list), Some((4, 5)));
    rows.push((4, 5));
    // a removed key is not handed out again
    let rows = remove_row(&rows, 4);
    assert_eq!(rows, vec![(0, 1), (1, 2), (2, 3), (3, 4)]);
    assert_eq!(next_row(&mut list), Some((5, 6)));
}

#[test]
fn no_row_is_added_once_the_keys_are_used_up() {
    let mut list: ListState<u64> = ListState::new(ScopeId(0), u64::MAX - 1);
    assert_eq!(next_row(&mut list), Some((u64::MAX - 1, u64::MAX)));
    assert_eq!(next_row(&mut list), None);
    assert_eq!(next_row(&mut list), None);
}

#[test]
fn removed_row_leaves_the_others_in_order() {
    let rows = vec![(0, 1), (1, 2), (2, 3)];
    assert_eq!(remove_row(&rows, 1), vec![(0, 1), (2, 3)]);
    assert_eq!(remove_row(&rows, 7), rows);
    assert_eq!(remove_row(&Vec::<(u64, u64)>::new(), 0), vec![]);
    let named = vec![(1, "a"), (2, "b"), (1, "c")];
    assert_eq!(remove_row(&named, 1), vec![(2, "b")]);
}

#[test]
fn rows_of_a_dynamic_list_reconcile_by_key() {
    let mut rt: Runtime<u64> = Runtime::new();
    let mut list: ListState<u64> = ListState::new(ScopeId(0), 2);
    let mut rows = first_rows(2);
    list.reconcile(&mut rt, rows.clone()).unwrap();
    let kept = list.scope_at(1).unwrap();
    rows.push(next_row(&mut list).unwrap());
    let rows = remove_row(&rows, 0);
    let changes = list.reconcile(&mut rt, rows).unwrap();
    assert_eq!(changes.removed, vec![0]);
    assert_eq!(list.key_at(0), Some(1));
    assert_eq!(list.key_at(1), Some(2));
    assert_eq!(list.scope_at(0), Some(kept));
}

#[test]
fn values_are_doubled_in_place() {
    let mut values = vec![10, 20, 30];
    assert!(all_can_double(&values));
    double_values(&mut values);
    assert_eq!(values, vec![20, 40, 60]);
    double_values(&mut values);
    assert_eq!(values, vec![40, 80, 120]);
    let mut edge = vec![i32::MAX / 2, i32::MIN / 2, -1, 0];
    assert!(all_can_double(&edge));
    double_values(&mut edge);
    assert_eq!(edge, vec![i32::MAX - 1, i32::MIN, -2, 0]);
}

#[test]
fn values_that_would_overflow_are_found() {
    assert!(!all_can_double(&vec![1, i32::MAX / 2 + 1]));
    assert!(!all_can_double(&vec![i32::MIN / 2 - 1]));
    assert!(!all_can_double(&vec![i32::MAX]));
    assert!(all_can_double(&vec![]));
}
