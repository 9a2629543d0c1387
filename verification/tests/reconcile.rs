use reactive_core::error::ReactiveError;
use reactive_core::reconcile::{keys_are_distinct, ListState, Placement};
use reactive_core::runtime::{Runtime, ScopeId};

fn reused(from: usize, moved: bool, updated: bool) -> Placement {
    Placement::Reused { from, moved, updated }
}

/// A list of `(key, value)` rows under the root scope, reconciled once.
fn list_of(rt: &mut Runtime<i64>, rows: Vec<(u64, &'static str)>) -> ListState<&'static str> {
    let mut list = ListState::new(ScopeId(0), 0);
    list.reconcile(rt, rows).unwrap();
    list
}

fn scopes_of(list: &ListState<&'static str>) -> Vec<ScopeId> {
    (0..list.len()).map(|i| list.scope_at(i).unwrap()).collect()
}

#[test]
fn first_reconciliation_creates_every_item() {
    let mut rt: Runtime<i64> = Runtime::new();
    let mut list: ListState<&str> = ListState::new(ScopeId(0), 0);
    assert_eq!(list.len(), 0);
    let changes = list.reconcile(&mut rt, vec![(10, "a"), (20, "b")]).unwrap();
    assert_eq!(changes.removed, Vec::<usize>::new());
    assert_eq!(
        changes.placed,
        vec![Placement::Created { scope: 1 }, Placement::Created { scope: 2 }]
    );
    assert_eq!(list.len(), 2);
    assert_eq!(list.key_at(0), Some(10));
    assert_eq!(list.key_at(1), Some(20));
    assert_eq!(list.key_at(2), None);
    assert_eq!(list.value_at(1), Some(&"b"));
    assert_eq!(list.value_at(2), None);
    assert_eq!(list.scope_at(0), Some(ScopeId(1)));
    assert_eq!(list.scope_at(1), Some(ScopeId(2)));
    assert_eq!(list.scope_at(2), None);
    assert!(rt.is_scope_alive(ScopeId(1)));
    assert!(rt.is_scope_alive(ScopeId(2)));
    assert_eq!(list.owner(), ScopeId(0));
}

#[test]
fn reorder_reuses_every_subtree() {
    let mut rt: Runtime<i64> = Runtime::new();
    let mut list = list_of(&mut rt, vec![(1, "a"), (2, "b"), (3, "c")]);
    let before = scopes_of(&list);
    // each row owns a signal
    let mut signals = Vec::new();
    for (i, scope) in before.iter().enumerate() {
        rt.enter_scope(*scope).unwrap();
        signals.push(rt.create_signal(i as i64).unwrap());
    }
    rt.enter_scope(ScopeId(0)).unwrap();
    let changes = list.reconcile(&mut rt, vec![(3, "c'"), (1, "a"), (2, "b")]).unwrap();
    // no creation, no disposal, three reused subtrees, one update
    assert_eq!(changes.removed, Vec::<usize>::new());
    assert_eq!(
        changes.placed,
        vec![reused(2, true, true), reused(0, true, false), reused(1, true, false)]
    );
    assert_eq!(scopes_of(&list), vec![before[2], before[0], before[1]]);
    assert_eq!(list.value_at(0), Some(&"c'"));
    assert_eq!(list.value_at(1), Some(&"a"));
    assert_eq!(list.value_at(2), Some(&"b"));
    for scope in before {
        assert!(rt.is_scope_alive(scope));
    }
    // the rows' own state survives
    assert_eq!(rt.read(signals[2]), Ok(&2));
    assert_eq!(rt.read(signals[0]), Ok(&0));
    // nothing was added to the scope tree
    assert_eq!(rt.create_scope(), Ok(ScopeId(4)));
}

#[test]
fn unchanged_list_is_neither_moved_nor_updated() {
    let mut rt: Runtime<i64> = Runtime::new();
    let mut list = list_of(&mut rt, vec![(1, "a"), (2, "b")]);
    let changes = list.reconcile(&mut rt, vec![(1, "a"), (2, "b")]).unwrap();
    assert_eq!(changes.removed, Vec::<usize>::new());
    assert_eq!(changes.placed, vec![reused(0, false, false), reused(1, false, false)]);
}

#[test]
fn removal_disposes_and_insertion_creates() {
    let mut rt: Runtime<i64> = Runtime::new();
    let mut list = list_of(&mut rt, vec![(1, "a"), (2, "b")]);
    let before = scopes_of(&list);
    rt.enter_scope(before[0]).unwrap();
    let gone = rt.create_signal(1).unwrap();
    rt.enter_scope(before[1]).unwrap();
    let kept = rt.create_signal(2).unwrap();
    rt.enter_scope(ScopeId(0)).unwrap();
    let changes = list.reconcile(&mut rt, vec![(2, "b"), (3, "c")]).unwrap();
    assert_eq!(changes.removed, vec![0]);
    assert_eq!(changes.placed, vec![reused(1, true, false), Placement::Created { scope: 3 }]);
    assert_eq!(scopes_of(&list), vec![before[1], ScopeId(3)]);
    assert!(!rt.is_scope_alive(before[0]));
    assert!(rt.is_scope_alive(before[1]));
    assert!(rt.is_scope_alive(ScopeId(3)));
    assert_eq!(rt.read(gone), Err(ReactiveError::UseAfterDispose));
    assert_eq!(rt.read(kept), Ok(&2));
}

#[test]
fn duplicate_key_changes_nothing() {
    let mut rt: Runtime<i64> = Runtime::new();
    let mut list = list_of(&mut rt, vec![(1, "a"), (2, "b")]);
    let before = scopes_of(&list);
    let outcome = list.reconcile(&mut rt, vec![(1, "a"), (1, "b")]);
    assert_eq!(outcome.err(), Some(ReactiveError::DuplicateKey));
    assert_eq!(list.len(), 2);
    assert_eq!(list.key_at(0), Some(1));
    assert_eq!(list.key_at(1), Some(2));
    assert_eq!(list.value_at(0), Some(&"a"));
    assert_eq!(list.value_at(1), Some(&"b"));
    assert_eq!(scopes_of(&list), before);
    assert!(rt.is_scope_alive(before[0]));
    assert!(rt.is_scope_alive(before[1]));
    // no scope was created on the way
    assert_eq!(rt.create_scope(), Ok(ScopeId(3)));
}

#[test]
fn duplicate_key_on_an_empty_list_is_refused() {
    let mut rt: Runtime<i64> = Runtime::new();
    let mut list: ListState<&str> = ListState::new(ScopeId(0), 0);
    let outcome = list.reconcile(&mut rt, vec![(5, "a"), (6, "b"), (5, "c")]);
    assert_eq!(outcome.err(), Some(ReactiveError::DuplicateKey));
    assert_eq!(list.len(), 0);
    assert_eq!(rt.create_scope(), Ok(ScopeId(1)));
}

#[test]
fn list_under_a_disposed_owner_is_refused() {
    let mut rt: Runtime<i64> = Runtime::new();
    let owner = rt.create_scope().unwrap();
    let mut list: ListState<&str> = ListState::new(owner, 0);
    list.reconcile(&mut rt, vec![(1, "a")]).unwrap();
    let row = list.scope_at(0).unwrap();
    assert!(rt.dispose(owner));
    assert!(!rt.is_scope_alive(row));
    let outcome = list.reconcile(&mut rt, vec![(2, "b")]);
    assert_eq!(outcome.err(), Some(ReactiveError::UseAfterDispose));
    assert_eq!(list.len(), 1);
    assert_eq!(list.key_at(0), Some(1));
    // a duplicate is reported before the owner is looked at
    let outcome = list.reconcile(&mut rt, vec![(2, "b"), (2, "c")]);
    assert_eq!(outcome.err(), Some(ReactiveError::DuplicateKey));
}

#[test]
fn clearing_the_list_disposes_every_row() {
    let mut rt: Runtime<i64> = Runtime::new();
    let mut list = list_of(&mut rt, vec![(1, "a"), (2, "b"), (3, "c")]);
    let before = scopes_of(&list);
    let changes = list.reconcile(&mut rt, vec![]).unwrap();
    assert_eq!(changes.removed, vec![0, 1, 2]);
    assert_eq!(changes.placed, vec![]);
    assert_eq!(list.len(), 0);
    for scope in before {
        assert!(!rt.is_scope_alive(scope));
    }
}

#[test]
fn creations_and_moves_together_compare_plain_indices() {
    let mut rt: Runtime<i64> = Runtime::new();
    let mut list = list_of(&mut rt, vec![(1, "a"), (2, "b"), (3, "c")]);
    // two new rows in front: the old rows keep their order and still count as moved
    let changes = list
        .reconcile(&mut rt, vec![(8, "x"), (9, "y"), (1, "a"), (3, "c")])
        .unwrap();
    assert_eq!(changes.removed, vec![1]);
    assert_eq!(
        changes.placed,
        vec![
            Placement::Created { scope: 4 },
            Placement::Created { scope: 5 },
            reused(0, true, false),
            reused(2, true, false),
        ]
    );
}

#[test]
fn row_effect_stops_with_its_row() {
    let mut rt: Runtime<i64> = Runtime::new();
    let shared = rt.create_signal(0).unwrap();
    let mut list = list_of(&mut rt, vec![(1, "a"), (2, "b")]);
    let scopes = scopes_of(&list);
    rt.enter_scope(scopes[0]).unwrap();
    let first = rt.create_effect().unwrap();
    rt.enter_scope(scopes[1]).unwrap();
    let second = rt.create_effect().unwrap();
    rt.enter_scope(ScopeId(0)).unwrap();
    assert!(rt.begin_flush());
    while let Some(e) = rt.next_effect() {
        rt.read(shared).unwrap();
        assert!(rt.end_effect(e));
    }
    list.reconcile(&mut rt, vec![(2, "b")]).unwrap();
    rt.write(shared, 1).unwrap();
    assert!(!rt.is_scheduled(first));
    assert!(rt.is_scheduled(second));
}

#[test]
fn generator_hands_out_ascending_keys() {
    let mut list: ListState<i64> = ListState::new(ScopeId(0), 5);
    assert_eq!(list.fresh_key(), Some(5));
    assert_eq!(list.fresh_key(), Some(6));
    assert_eq!(list.fresh_key(), Some(7));
    let mut last: ListState<i64> = ListState::new(ScopeId(0), u64::MAX - 1);
    assert_eq!(last.fresh_key(), Some(u64::MAX - 1));
    assert_eq!(last.fresh_key(), None);
    assert_eq!(last.fresh_key(), None);
}

#[test]
fn distinct_keys_are_told_from_duplicates() {
    assert!(keys_are_distinct(&Vec::<(u64, i64)>::new()));
    assert!(keys_are_distinct(&vec![(1, 0)]));
    assert!(keys_are_distinct(&vec![(1, 0), (2, 0), (3, 0)]));
    assert!(!keys_are_distinct(&vec![(1, 0), (2, 0), (1, 5)]));
    assert!(!keys_are_distinct(&vec![(2, 0), (2, 0)]));
}
