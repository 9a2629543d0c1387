//! Keyed lists: an ordered sequence of items, each with a key of its own and a
//! reactive subtree under a scope of its own, and the reconciliation of such a
//! list against a new sequence.
//!
//! Reconciling never tears a subtree down to build it again: an item whose key
//! persists keeps its scope, wherever it stands in the new sequence. Each
//! item of the new sequence gets one placement. A persisting item counts as
//! moved where its index in the new sequence differs from its index in the
//! old one; no attempt is made to find a smaller set of moves.

use crate::error::ReactiveError;
use crate::graph::lemma_filter_keeps;
use crate::model::{ids_below, RuntimeView};
use crate::runtime::{Runtime, ScopeId};
use std::collections::HashMap;
use vstd::prelude::*;
use vstd::std_specs::cmp::PartialEqSpec;

verus! {

/// What became of the item at one position of the new sequence.
#[derive(Clone, Copy, Debug, PartialEq, Eq, Structural)]
pub enum Placement {
    /// The key is new: the item got a subtree under the fresh scope `scope`.
    Created { scope: usize },
    /// The key was in the list at index `from`: the item keeps its subtree.
    /// `moved` says whether its index changed, `updated` whether its value did.
    Reused { from: usize, moved: bool, updated: bool },
}

/// The outcome of a reconciliation.
#[derive(Debug)]
pub struct Reconciliation {
    /// The indices in the old sequence of the items that are gone, ascending.
    /// Their scopes have been disposed.
    pub removed: Vec<usize>,
    /// For each item of the new sequence, what became of it.
    pub placed: Vec<Placement>,
}

/// The state of a keyed list.
pub struct ListView<V> {
    /// The items in their order, each a key and a value.
    pub items: Seq<(u64, V)>,
    /// The scope of each item's subtree.
    pub scopes: Seq<usize>,
    /// The scope under which the scopes of new items are created.
    pub owner: usize,
    /// The next key that the list's generator hands out.
    pub next_key: u64,
}

/// Some item has the key.
pub open spec fn has_key<V>(items: Seq<(u64, V)>, key: u64) -> bool {
    exists|i: int| 0 <= i < items.len() && (#[trigger] items[i]).0 == key
}

/// The index of an item that has the key.
pub open spec fn index_of_key<V>(items: Seq<(u64, V)>, key: u64) -> int {
    choose|i: int| 0 <= i < items.len() && (#[trigger] items[i]).0 == key
}

/// No two items share a key.
pub open spec fn distinct_keys<V>(items: Seq<(u64, V)>) -> bool {
    forall|i: int, j: int|
        0 <= i < j < items.len() ==> (#[trigger] items[i]).0 != (#[trigger] items[j]).0
}

/// How many of the first `upto` items of `items` have a key that `before` lacks.
pub open spec fn created_before<V>(before: Seq<(u64, V)>, items: Seq<(u64, V)>, upto: int) -> nat
    decreases upto,
{
    if upto <= 0 {
        0
    } else {
        created_before(before, items, upto - 1) + if has_key(before, items[upto - 1].0) {
            0nat
        } else {
            1nat
        }
    }
}

/// The indices of the items of `before` whose key `items` lacks.
pub open spec fn dropped<V>(before: Seq<(u64, V)>, items: Seq<(u64, V)>) -> spec_fn(usize) -> bool {
    |j: usize| j < before.len() && !has_key(items, before[j as int].0)
}

/// The scopes at the indices of `indices`.
pub open spec fn scopes_at(scopes: Seq<usize>, indices: Seq<usize>) -> Seq<usize> {
    Seq::new(indices.len(), |k: int| scopes[indices[k] as int])
}

impl<V> ListView<V> {
    /// The invariant of every list: one scope for each item, and no key twice.
    pub open spec fn wf(self) -> bool {
        &&& self.items.len() <= usize::MAX
        &&& self.scopes.len() == self.items.len()
        &&& distinct_keys(self.items)
    }

    /// The indices of the items that a reconciliation against `items` removes, ascending.
    pub open spec fn removed_by(self, items: Seq<(u64, V)>) -> Seq<usize> {
        ids_below(self.items.len()).filter(dropped(self.items, items))
    }

    /// The scope of the item at `index` of `items` after a reconciliation
    /// that found `fresh` scopes in the runtime.
    pub open spec fn scope_after(self, items: Seq<(u64, V)>, fresh: nat, index: int) -> usize {
        if has_key(self.items, items[index].0) {
            self.scopes[index_of_key(self.items, items[index].0)]
        } else {
            (fresh + created_before(self.items, items, index)) as usize
        }
    }

    /// The list after a reconciliation against `items` that found `fresh`
    /// scopes in the runtime.
    pub open spec fn reconciled(self, items: Seq<(u64, V)>, fresh: nat) -> Self {
        ListView {
            items,
            scopes: Seq::new(items.len(), |i: int| self.scope_after(items, fresh, i)),
            ..self
        }
    }

    /// The runtime after a reconciliation of the list against `items`: a
    /// scope for each new key under the list's owner, then the scope of each
    /// removed item disposed.
    pub open spec fn runtime_after<T>(self, items: Seq<(u64, V)>, runtime: RuntimeView<T>)
        -> RuntimeView<T> {
        runtime.with_scopes_under(
            self.owner,
            created_before(self.items, items, items.len() as int),
        ).disposed_each(scopes_at(self.scopes, self.removed_by(items)))
    }
}

impl<V: PartialEq> ListView<V> {
    /// `placement` is what a reconciliation that found `fresh` scopes in the
    /// runtime makes of the item at `index` of `items`. Whether a value
    /// counts as updated is decided by `==`, and is stated where `==` has a
    /// meaning for the type.
    pub open spec fn places(
        self,
        items: Seq<(u64, V)>,
        fresh: nat,
        index: int,
        placement: Placement,
    ) -> bool {
        let key = items[index].0;
        match placement {
            Placement::Created { scope } => !has_key(self.items, key) && scope
                == self.scope_after(items, fresh, index),
            Placement::Reused { from, moved, updated } => {
                &&& has_key(self.items, key)
                &&& from == index_of_key(self.items, key)
                &&& moved == (from != index)
                &&& V::obeys_eq_spec() ==> updated == !self.items[from as int].1.eq_spec(
                    &items[index].1,
                )
            },
        }
    }

    /// What a reconciliation that found `fresh` scopes in the runtime makes
    /// of the item at `index` of `items`.
    pub open spec fn placement(self, items: Seq<(u64, V)>, fresh: nat, index: int) -> Placement {
        let key = items[index].0;
        if has_key(self.items, key) {
            let from = index_of_key(self.items, key);
            Placement::Reused {
                from: from as usize,
                moved: from != index,
                updated: !self.items[from].1.eq_spec(&items[index].1),
            }
        } else {
            Placement::Created { scope: self.scope_after(items, fresh, index) }
        }
    }
}

/// A keyed list.
pub struct ListState<V> {
    items: Vec<(u64, V)>,
    scopes: Vec<usize>,
    owner: usize,
    next_key: u64,
}

impl<V> View for ListState<V> {
    type V = ListView<V>;

    closed spec fn view(&self) -> ListView<V> {
        ListView {
            items: self.items@,
            scopes: self.scopes@,
            owner: self.owner,
            next_key: self.next_key,
        }
    }
}

/// `index` maps the key of each item to the index at which the item stands,
/// and holds no other key.
pub open spec fn indexes<V>(index: Map<u64, usize>, items: Seq<(u64, V)>) -> bool {
    &&& forall|key: u64| #[trigger] index.contains_key(key) <==> has_key(items, key)
    &&& forall|i: int|
        0 <= i < items.len() ==> index.contains_key((#[trigger] items[i]).0) && index[items[i].0]
            == i
}

/// Builds the mapping from each key to its index. `None` where two items share a key.
fn index_keys<V>(items: &Vec<(u64, V)>) -> (built: Option<HashMap<u64, usize>>)
    ensures
        match built {
            Some(index) => distinct_keys(items@) && indexes(index@, items@),
            None => !distinct_keys(items@),
        },
{
    let mut index: HashMap<u64, usize> = HashMap::new();
    let mut i: usize = 0;
    while i < items.len()
        invariant
            i <= items@.len(),
            distinct_keys(items@.take(i as int)),
            indexes(index@, items@.take(i as int)),
        decreases items@.len() - i,
    {
        let key = items[i].0;
        let ghost seen = items@.take(i as int);
        let ghost known = index@;
        match index.insert(key, i) {
            Some(_) => {
                proof {
                    assert(has_key(seen, key));
                    let k = choose|k: int| 0 <= k < seen.len() && (#[trigger] seen[k]).0 == key;
                    assert(items@[k].0 == items@[i as int].0);
                }
                return None;
            },
            None => {},
        }
        proof {
            let longer = items@.take(i + 1);
            assert(!has_key(seen, key));
            assert forall|a: int, b: int| 0 <= a < b < longer.len() implies (#[trigger] longer[a]).0
                != (#[trigger] longer[b]).0 by {
                if b < i {
                    assert(seen[a].0 != seen[b].0);
                } else {
                    assert(seen[a].0 == longer[a].0);
                }
            }
            assert forall|other: u64| #[trigger] index@.contains_key(other) <==> has_key(
                longer,
                other,
            ) by {
                if has_key(longer, other) {
                    let k = choose|k: int| 0 <= k < longer.len() && (#[trigger] longer[k]).0 == other;
                    if k < i {
                        assert(seen[k].0 == other);
                        assert(has_key(seen, other));
                        assert(known.contains_key(other));
                    }
                }
                if index@.contains_key(other) {
                    if other == key {
                        assert(longer[i as int].0 == key);
                    } else {
                        assert(known.contains_key(other));
                        assert(has_key(seen, other));
                        let k = choose|k: int| 0 <= k < seen.len() && (#[trigger] seen[k]).0 == other;
                        assert(longer[k].0 == other);
                    }
                }
            }
            assert forall|k: int| 0 <= k < longer.len() implies index@.contains_key(
                (#[trigger] longer[k]).0,
            ) && index@[longer[k].0] == k by {
                if k < i {
                    assert(seen[k].0 == longer[k].0);
                    assert(known.contains_key(seen[k].0));
                }
            }
        }
        i = i + 1;
    }
    assert(items@.take(items@.len() as int) =~= items@);
    Some(index)
}

/// The index that the mapping holds for the key, if it holds one.
fn find_key(index: &HashMap<u64, usize>, key: u64) -> (found: Option<usize>)
    ensures
        match found {
            Some(at) => index@.contains_key(key) && index@[key] == at,
            None => !index@.contains_key(key),
        },
{
    match index.get(&key) {
        Some(at) => Some(*at),
        None => None,
    }
}

/// Whether no two items share a key.
pub fn keys_are_distinct<V>(items: &Vec<(u64, V)>) -> (distinct: bool)
    ensures
        distinct == distinct_keys(items@),
{
    index_keys(items).is_some()
}

impl<V> ListState<V> {
    /// The invariant of the list.
    pub open spec fn wf(&self) -> bool {
        self@.wf()
    }

    /// An empty list whose items will live under scopes of `owner`, and whose
    /// generator hands out the keys from `first_key` on.
    pub fn new(owner: ScopeId, first_key: u64) -> (list: Self)
        ensures
            list.wf(),
            list@ == (ListView::<V> {
                items: Seq::empty(),
                scopes: Seq::empty(),
                owner: owner.0,
                next_key: first_key,
            }),
    {
        ListState { items: Vec::new(), scopes: Vec::new(), owner: owner.0, next_key: first_key }
    }

    /// Hands out a key that the generator of this list has not handed out
    /// before: the keys come in ascending order. `None` once they are used up.
    pub fn fresh_key(&mut self) -> (key: Option<u64>)
        requires
            old(self).wf(),
        ensures
            final(self).wf(),
            match key {
                Some(key) => {
                    &&& key == old(self)@.next_key
                    &&& key < u64::MAX
                    &&& final(self)@ == (ListView { next_key: (key + 1) as u64, ..old(self)@ })
                },
                None => old(self)@.next_key == u64::MAX && final(self)@ == old(self)@,
            },
    {
        if self.next_key == u64::MAX {
            return None;
        }
        let key = self.next_key;
        self.next_key = key + 1;
        Some(key)
    }

    /// The number of items.
    pub fn len(&self) -> (count: usize)
        ensures
            count == self@.items.len(),
    {
        self.items.len()
    }

    /// The scope under which the scopes of new items are created.
    pub fn owner(&self) -> (owner: ScopeId)
        ensures
            owner.0 == self@.owner,
    {
        ScopeId(self.owner)
    }

    /// The key of the item at `index`, if there is one.
    pub fn key_at(&self, index: usize) -> (key: Option<u64>)
        ensures
            key == if index < self@.items.len() {
                Some(self@.items[index as int].0)
            } else {
                None
            },
    {
        if index < self.items.len() {
            Some(self.items[index].0)
        } else {
            None
        }
    }

    /// The value of the item at `index`, if there is one.
    pub fn value_at(&self, index: usize) -> (value: Option<&V>)
        ensures
            match value {
                Some(value) => index < self@.items.len() && *value == self@.items[index as int].1,
                None => index >= self@.items.len(),
            },
    {
        if index < self.items.len() {
            Some(&self.items[index].1)
        } else {
            None
        }
    }

    /// The scope of the subtree of the item at `index`, if there is one.
    pub fn scope_at(&self, index: usize) -> (scope: Option<ScopeId>)
        requires
            self.wf(),
        ensures
            match scope {
                Some(scope) => index < self@.items.len() && scope.0 == self@.scopes[index as int],
                None => index >= self@.items.len(),
            },
    {
        if index < self.items.len() {
            Some(ScopeId(self.scopes[index]))
        } else {
            None
        }
    }
}

/// In a list without duplicate keys the index of a key is the one index that holds it.
pub proof fn lemma_index_of_key<V>(items: Seq<(u64, V)>, index: int)
    requires
        distinct_keys(items),
        0 <= index < items.len(),
    ensures
        has_key(items, items[index].0),
        index_of_key(items, items[index].0) == index,
{
    let found = index_of_key(items, items[index].0);
    if found < index {
        assert(items[found].0 != items[index].0);
    } else if index < found {
        assert(items[index].0 != items[found].0);
    }
}

impl<V: PartialEq> ListState<V> {
    /// Reconciles the list against `items`, the new sequence.
    ///
    /// Two items of `items` that share a key are an error, and so is an owner
    /// scope that is not alive; then neither the list nor the runtime
    /// changes. Else the list holds `items` afterwards. An item whose key was
    /// in the list keeps the scope of its subtree; an item with a new key gets
    /// a fresh scope under the list's owner; the scope of an item whose key is
    /// gone is disposed.
    pub fn reconcile<T>(&mut self, runtime: &mut Runtime<T>, items: Vec<(u64, V)>) -> (outcome:
        Result<Reconciliation, ReactiveError>)
        requires
            old(self).wf(),
            old(runtime).wf(),
        ensures
            final(self).wf(),
            final(runtime).wf(),
            match outcome {
                Ok(changes) => {
                    &&& distinct_keys(items@)
                    &&& old(runtime)@.live_scope(old(self)@.owner)
                    &&& changes.placed@.len() == items@.len()
                    &&& forall|i: int|
                        0 <= i < items@.len() ==> old(self)@.places(
                            items@,
                            old(runtime)@.parents.len(),
                            i,
                            #[trigger] changes.placed@[i],
                        )
                    &&& V::obeys_eq_spec() ==> changes.placed@ == Seq::new(
                        items@.len(),
                        |i: int| old(self)@.placement(items@, old(runtime)@.parents.len(), i),
                    )
                    &&& changes.removed@ == old(self)@.removed_by(items@)
                    &&& final(self)@ == old(self)@.reconciled(items@, old(runtime)@.parents.len())
                    &&& final(runtime)@ == old(self)@.runtime_after(items@, old(runtime)@)
                },
                Err(error) => {
                    &&& final(self)@ == old(self)@
                    &&& final(runtime)@ == old(runtime)@
                    &&& error == if !distinct_keys(items@) {
                        ReactiveError::DuplicateKey
                    } else {
                        ReactiveError::UseAfterDispose
                    }
                    &&& distinct_keys(items@) ==> !old(runtime)@.live_scope(old(self)@.owner)
                },
            },
    {
        let new_index = match index_keys(&items) {
            Some(index) => index,
            None => {
                return Err(ReactiveError::DuplicateKey);
            },
        };
        if !runtime.is_scope_alive(ScopeId(self.owner)) {
            return Err(ReactiveError::UseAfterDispose);
        }
        let old_index = match index_keys(&self.items) {
            Some(index) => index,
            None => {
                assert(false);
                return Err(ReactiveError::DuplicateKey);
            },
        };
        let ghost before = self@;
        let ghost start = runtime@;
        let ghost fresh = start.parents.len();
        let owner = self.owner;
        let mut placed: Vec<Placement> = Vec::new();
        let mut scopes: Vec<usize> = Vec::new();
        let mut i: usize = 0;
        while i < items.len()
            invariant
                i <= items@.len(),
                before.wf(),
                self@ == before,
                owner == before.owner,
                indexes(old_index@, before.items),
                fresh == start.parents.len(),
                runtime.wf(),
                runtime@.live_scope(owner),
                runtime@ == start.with_scopes_under(
                    owner,
                    created_before(before.items, items@, i as int),
                ),
                placed@.len() == i,
                scopes@.len() == i,
                forall|k: int|
                    0 <= k < i ==> before.places(items@, fresh, k, #[trigger] placed@[k]),
                forall|k: int|
                    0 <= k < i ==> #[trigger] scopes@[k] == before.scope_after(items@, fresh, k),
            decreases items@.len() - i,
        {
            match find_key(&old_index, items[i].0) {
                Some(from) => {
                    proof {
                        let key = items@[i as int].0;
                        assert(has_key(before.items, key));
                        let k = choose|k: int|
                            0 <= k < before.items.len() && (#[trigger] before.items[k]).0 == key;
                        assert(old_index@[before.items[k].0] == k);
                        lemma_index_of_key(before.items, from as int);
                    }
                    let updated = self.items[from].1 != items[i].1;
                    placed.push(Placement::Reused { from, moved: from != i, updated });
                    scopes.push(self.scopes[from]);
                },
                None => {
                    let ghost grown = runtime@;
                    match runtime.create_scope_under(ScopeId(owner)) {
                        Ok(scope) => {
                            assert(scope.0 == fresh + created_before(
                                before.items,
                                items@,
                                i as int,
                            )) by {
                                lemma_scopes_grow(
                                    start,
                                    owner,
                                    created_before(before.items, items@, i as int),
                                );
                            }
                            placed.push(Placement::Created { scope: scope.0 });
                            scopes.push(scope.0);
                        },
                        Err(_) => {
                            assert(false);
                        },
                    }
                },
            }
            i = i + 1;
        }
        let ghost grown = runtime@;
        let ghost gone = dropped(before.items, items@);
        let ghost ids = ids_below(before.items.len());
        let mut removed: Vec<usize> = Vec::new();
        let ghost mut gone_scopes: Seq<usize> = Seq::empty();
        let mut j: usize = 0;
        proof {
            reveal(Seq::filter);
            assert(ids.take(0) =~= Seq::<usize>::empty());
            assert(removed@ =~= ids.take(0).filter(gone));
        }
        while j < self.items.len()
            invariant
                j <= before.items.len(),
                before.wf(),
                self@ == before,
                indexes(new_index@, items@),
                gone == dropped(before.items, items@),
                ids == ids_below(before.items.len()),
                runtime.wf(),
                runtime@ == grown.disposed_each(gone_scopes),
                removed@ == ids.take(j as int).filter(gone),
                gone_scopes == scopes_at(before.scopes, removed@),
                forall|k: int| 0 <= k < removed@.len() ==> (#[trigger] removed@[k]) < j,
            decreases before.items.len() - j,
        {
            proof {
                ids.take(j as int).lemma_filter_push(j, gone);
                assert(ids.take(j as int).push(j) =~= ids.take(j + 1));
            }
            match find_key(&new_index, self.items[j].0) {
                Some(_) => {},
                None => {
                    let scope = self.scopes[j];
                    runtime.dispose(ScopeId(scope));
                    removed.push(j);
                    proof {
                        let longer = gone_scopes.push(scope);
                        assert(longer.drop_last() =~= gone_scopes);
                        gone_scopes = longer;
                        assert(gone_scopes =~= scopes_at(before.scopes, removed@));
                    }
                },
            }
            j = j + 1;
        }
        proof {
            assert(ids.take(before.items.len() as int) =~= ids);
            if V::obeys_eq_spec() {
                assert(placed@ =~= Seq::new(
                    items@.len(),
                    |i: int| before.placement(items@, fresh, i),
                ));
            }
            assert(scopes@ =~= before.reconciled(items@, fresh).scopes);
        }
        let count = items.len();
        self.items = items;
        self.scopes = scopes;
        assert(self.items@.len() == count);
        Ok(Reconciliation { removed, placed })
    }
}

/// Each new scope adds one to the number of scopes.
pub proof fn lemma_scopes_grow<T>(runtime: RuntimeView<T>, parent: usize, count: nat)
    ensures
        runtime.with_scopes_under(parent, count).parents.len() == runtime.parents.len() + count,
    decreases count,
{
    if count > 0 {
        lemma_scopes_grow(runtime, parent, (count - 1) as nat);
    }
}

} // verus!
