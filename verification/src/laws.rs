//! What holds of the runtime in every state, stated over its model and proved.

use crate::boundary::{failing, failing_in, failures, Entered};
use crate::graph::{
    edge, ends_unmarked, is_not, is_unmarked, lemma_filter_keeps,
    lemma_no_subscribers_reaches_nothing, lemma_reached_is_subscriber, lemma_reaches_direct,
    not_read_by, reaches,
};
use crate::model::{apart, ids_below, in_subtree, NodeKind, RuntimeView};
use crate::reconcile::{
    created_before, distinct_keys, dropped, has_key, index_of_key, lemma_index_of_key, scopes_at,
    ListView, Placement,
};
use vstd::prelude::*;
use vstd::std_specs::cmp::PartialEqSpec;

verus! {

/// Filtering out an id that a sequence does not hold leaves the sequence as it is.
pub proof fn lemma_filter_absent(ids: Seq<usize>, id: usize)
    requires
        !ids.contains(id),
    ensures
        ids.filter(is_not(id)) == ids,
    decreases ids.len(),
{
    reveal(Seq::filter);
    if ids.len() > 0 {
        let front = ids.drop_last();
        assert forall|k: int| 0 <= k < front.len() implies front[k] != id by {
            assert(ids[k] == front[k]);
        }
        lemma_filter_absent(front, id);
        assert(ids[ids.len() - 1] != id);
        assert(front.push(ids.last()) =~= ids);
    } else {
        assert(ids.filter(is_not(id)) =~= ids);
    }
}

/// Filtering its first id out of a sequence without duplicates leaves the rest.
pub proof fn lemma_filter_first(ids: Seq<usize>)
    requires
        ids.len() > 0,
        ids.no_duplicates(),
    ensures
        ids.filter(is_not(ids[0])) == ids.skip(1),
{
    let first = ids[0];
    let rest = ids.skip(1);
    assert forall|k: int| 0 <= k < rest.len() implies rest[k] != first by {
        assert(rest[k] == ids[k + 1]);
    }
    lemma_filter_absent(rest, first);
    let head = seq![first];
    assert(head + rest =~= ids);
    Seq::filter_distributes_over_add(head, rest, is_not(first));
    assert(head.filter(is_not(first)) =~= Seq::<usize>::empty()) by {
        reveal(Seq::filter);
        assert(head.drop_last() =~= Seq::<usize>::empty());
        assert(head.drop_last().filter(is_not(first)) =~= Seq::<usize>::empty());
    }
    assert(Seq::<usize>::empty() + rest =~= rest);
}

/// After a write that counts as a change, every effect that read the signal
/// during its last run is scheduled, and scheduled once: no queue holds an
/// effect twice and no effect is in both. It joins the batch at hand unless
/// the flush in progress has already run it.
pub proof fn law_write_schedules_readers<T>(
    state: RuntimeView<T>,
    signal: usize,
    value: T,
    effect: usize,
)
    requires
        state.wf(),
        state.live_signal(signal),
        state.is_effect(effect),
        state.subscribed(signal, effect),
    ensures
        state.written(signal, value, true).scheduled(effect),
        !state.scheduled(effect) && !state.ran_in_flush(effect) ==> state.written(
            signal,
            value,
            true,
        ).pending.contains(effect),
        state.written(signal, value, true).pending.no_duplicates(),
        state.written(signal, value, true).deferred.no_duplicates(),
        !(state.written(signal, value, true).pending.contains(effect) && state.written(
            signal,
            value,
            true,
        ).deferred.contains(effect)),
{
    lemma_reaches_direct(state.edges, signal, effect);
    law_write_schedules_what_it_reaches(state, signal, value, effect);
}

/// The same holds of every effect that the signal reaches through derived
/// computations: an effect that read a derived computation that read the
/// signal, however long the chain, is scheduled by the write, and scheduled
/// once.
pub proof fn law_write_schedules_what_it_reaches<T>(
    state: RuntimeView<T>,
    signal: usize,
    value: T,
    effect: usize,
)
    requires
        state.wf(),
        state.live_signal(signal),
        state.is_effect(effect),
        reaches(state.edges, signal, effect),
    ensures
        state.written(signal, value, true).scheduled(effect),
        !state.scheduled(effect) && !state.ran_in_flush(effect) ==> state.written(
            signal,
            value,
            true,
        ).pending.contains(effect),
        state.written(signal, value, true).pending.no_duplicates(),
        state.written(signal, value, true).deferred.no_duplicates(),
        !(state.written(signal, value, true).pending.contains(effect) && state.written(
            signal,
            value,
            true,
        ).deferred.contains(effect)),
{
    let stored = state.stored(signal, value);
    let after = stored.notified(signal);
    lemma_notified_queues(stored, signal);
    let ids = ids_below(stored.kinds.len());
    assert(ids[effect as int] == effect);
    assert(ids.contains(effect));
    lemma_filter_keeps(ids, stored.joins_batch(signal));
    lemma_filter_keeps(ids, stored.joins_next_batch(signal));
    if state.pending.contains(effect) {
        let k = choose|k: int| 0 <= k < state.pending.len() && state.pending[k] == effect;
        assert(after.pending[k] == effect);
    } else if state.deferred.contains(effect) {
        let k = choose|k: int| 0 <= k < state.deferred.len() && state.deferred[k] == effect;
        assert(after.deferred[k] == effect);
    } else if stored.ran_in_flush(effect) {
        let added = ids.filter(stored.joins_next_batch(signal));
        assert(added.contains(effect));
        let k = choose|k: int| 0 <= k < added.len() && added[k] == effect;
        assert(after.deferred[state.deferred.len() + k] == effect);
    } else {
        let added = ids.filter(stored.joins_batch(signal));
        assert(added.contains(effect));
        let k = choose|k: int| 0 <= k < added.len() && added[k] == effect;
        assert(after.pending[state.pending.len() + k] == effect);
    }
    if after.pending.contains(effect) && after.deferred.contains(effect) {
        let k = choose|k: int| 0 <= k < after.pending.len() && after.pending[k] == effect;
        assert(!after.deferred.contains(after.pending[k]));
    }
}

/// What a change to `source` does to queues that hold no effect twice: each
/// queue still holds no effect twice, the two hold no effect in common, and
/// an effect is in a queue afterwards just where it was before or the change
/// newly reached it.
pub proof fn lemma_notified_queues<T>(state: RuntimeView<T>, source: usize)
    requires
        state.kinds.len() <= usize::MAX,
        state.pending.no_duplicates(),
        state.deferred.no_duplicates(),
        apart(state.pending, state.deferred),
    ensures
        state.notified(source).pending.no_duplicates(),
        state.notified(source).deferred.no_duplicates(),
        forall|i: int|
            0 <= i < state.notified(source).pending.len() ==> !state.notified(
                source,
            ).deferred.contains(#[trigger] state.notified(source).pending[i]),
        forall|n: usize|
            state.notified(source).pending.contains(n) <==> (state.pending.contains(n) || (
            state.newly_reached(source, n) && !state.ran_in_flush(n))),
        forall|n: usize|
            state.notified(source).deferred.contains(n) <==> (state.deferred.contains(n) || (
            state.newly_reached(source, n) && state.ran_in_flush(n))),
{
    let after = state.notified(source);
    let ids = ids_below(state.kinds.len());
    let batch = ids.filter(state.joins_batch(source));
    let next = ids.filter(state.joins_next_batch(source));
    lemma_filter_keeps(ids, state.joins_batch(source));
    lemma_filter_keeps(ids, state.joins_next_batch(source));
    assert(ids.no_duplicates());
    assert forall|n: usize| after.pending.contains(n) <==> (state.pending.contains(n) || (
    state.newly_reached(source, n) && !state.ran_in_flush(n))) by {
        if after.pending.contains(n) {
            let k = choose|k: int| 0 <= k < after.pending.len() && after.pending[k] == n;
            if k < state.pending.len() {
                assert(state.pending[k] == n);
            } else {
                assert(batch[k - state.pending.len()] == n);
            }
        }
        if state.pending.contains(n) {
            let k = choose|k: int| 0 <= k < state.pending.len() && state.pending[k] == n;
            assert(after.pending[k] == n);
        }
        if state.newly_reached(source, n) && !state.ran_in_flush(n) {
            assert(ids[n as int] == n);
            assert(batch.contains(n));
            let k = choose|k: int| 0 <= k < batch.len() && batch[k] == n;
            assert(after.pending[state.pending.len() + k] == n);
        }
    }
    assert forall|n: usize| after.deferred.contains(n) <==> (state.deferred.contains(n) || (
    state.newly_reached(source, n) && state.ran_in_flush(n))) by {
        if after.deferred.contains(n) {
            let k = choose|k: int| 0 <= k < after.deferred.len() && after.deferred[k] == n;
            if k < state.deferred.len() {
                assert(state.deferred[k] == n);
            } else {
                assert(next[k - state.deferred.len()] == n);
            }
        }
        if state.deferred.contains(n) {
            let k = choose|k: int| 0 <= k < state.deferred.len() && state.deferred[k] == n;
            assert(after.deferred[k] == n);
        }
        if state.newly_reached(source, n) && state.ran_in_flush(n) {
            assert(ids[n as int] == n);
            assert(next.contains(n));
            let k = choose|k: int| 0 <= k < next.len() && next[k] == n;
            assert(after.deferred[state.deferred.len() + k] == n);
        }
    }
    assert forall|i: int, j: int|
        0 <= i < state.pending.len() && 0 <= j < batch.len() implies state.pending[i]
        != batch[j] by {
        assert(state.pending.contains(state.pending[i]));
    }
    vstd::seq_lib::lemma_no_dup_in_concat(state.pending, batch);
    assert forall|i: int, j: int|
        0 <= i < state.deferred.len() && 0 <= j < next.len() implies state.deferred[i]
        != next[j] by {
        assert(state.deferred.contains(state.deferred[i]));
    }
    vstd::seq_lib::lemma_no_dup_in_concat(state.deferred, next);
    assert forall|i: int| 0 <= i < after.pending.len() implies !after.deferred.contains(
        #[trigger] after.pending[i],
    ) by {
        let n = after.pending[i];
        assert(after.pending.contains(n));
        if state.pending.contains(n) {
            let k = choose|k: int| 0 <= k < state.pending.len() && state.pending[k] == n;
            assert(!state.deferred.contains(state.pending[k]));
        }
    }
}

/// A write schedules no effect that the signal does not reach, and takes none
/// out of a queue: an effect that never read the signal, directly or through
/// derived computations, is not re-run on its account.
pub proof fn law_write_spares_the_rest<T>(
    state: RuntimeView<T>,
    signal: usize,
    value: T,
    changed: bool,
    effect: usize,
)
    requires
        state.wf(),
        !reaches(state.edges, signal, effect),
    ensures
        state.written(signal, value, changed).pending.contains(effect) == state.pending.contains(
            effect,
        ),
        state.written(signal, value, changed).deferred.contains(effect)
            == state.deferred.contains(effect),
{
    if changed {
        lemma_notified_queues(state.stored(signal, value), signal);
    }
}

/// A flush hands out the effects of its batch in their order, each once: after
/// `steps` quiet steps the batch is what was left of it, the effects handed
/// out are on record, the next one up is the next of the batch, and nothing
/// that is on record is still in the batch.
pub proof fn law_flush_runs_batch_in_order<T>(state: RuntimeView<T>, steps: nat)
    requires
        state.wf(),
        state.flushing,
        steps <= state.pending.len(),
    ensures
        state.stepped_quietly(steps).wf(),
        state.stepped_quietly(steps).flushing,
        state.stepped_quietly(steps).pending == state.pending.skip(steps as int),
        state.stepped_quietly(steps).ran == state.ran + state.pending.take(steps as int),
        state.stepped_quietly(steps).deferred == state.deferred,
        state.stepped_quietly(steps).running == state.running,
        state.stepped_quietly(steps).next_up() == if steps < state.pending.len() {
            Some(state.pending[steps as int])
        } else {
            None
        },
    decreases steps,
{
    if steps == 0 {
        assert(state.pending.skip(0) =~= state.pending);
        assert(state.ran + state.pending.take(0) =~= state.ran);
    } else {
        let previous = state.stepped_quietly((steps - 1) as nat);
        law_flush_runs_batch_in_order(state, (steps - 1) as nat);
        let effect = previous.pending[0];
        assert(effect == state.pending[steps - 1]);
        lemma_filter_first(previous.pending);
        assert(!previous.deferred.contains(effect)) by {
            assert(!previous.deferred.contains(previous.pending[0]));
        }
        lemma_filter_absent(previous.deferred, effect);
        let after = previous.stepped().ended();
        assert(after.pending =~= state.pending.skip(steps as int));
        assert(after.ran =~= state.ran + state.pending.take(steps as int));
        assert(after.running =~= state.running);
        lemma_filter_keeps(previous.edges, not_read_by(effect));
        assert(after.wf()) by {
            assert forall|i: int| 0 <= i < after.pending.len() implies !after.ran.contains(
                #[trigger] after.pending[i],
            ) by {
                let n = after.pending[i];
                assert(n == previous.pending[i + 1]);
                assert(!previous.ran.contains(previous.pending[i + 1]));
                if after.ran.contains(n) {
                    let k = choose|k: int| 0 <= k < after.ran.len() && after.ran[k] == n;
                    if k < previous.ran.len() {
                        assert(previous.ran[k] == n);
                    }
                }
            }
            assert forall|i: int| 0 <= i < after.pending.len() implies !after.deferred.contains(
                #[trigger] after.pending[i],
            ) by {
                assert(after.pending[i] == previous.pending[i + 1]);
            }
            assert forall|i: int| 0 <= i < after.pending.len() implies (#[trigger] after.pending[i])
                < after.kinds.len() && after.alive[after.pending[i] as int]
                && after.kinds[after.pending[i] as int] == NodeKind::Effect by {
                assert(after.pending[i] == previous.pending[i + 1]);
            }
            assert(after.pending.no_duplicates());
            assert forall|i: int| 0 <= i < after.ran.len() implies (#[trigger] after.ran[i])
                < after.kinds.len() by {
                if i < previous.ran.len() {
                    assert(after.ran[i] == previous.ran[i]);
                }
            }
        }
        if steps < state.pending.len() {
            assert(after.pending[0] == state.pending[steps as int]);
        }
    }
}

/// Only live effects run, and none twice in one flush: the effect that a
/// flush is about to hand out is alive and has not run in this flush.
pub proof fn law_only_live_effects_run<T>(state: RuntimeView<T>, effect: usize)
    requires
        state.wf(),
        state.next_up() == Some(effect),
    ensures
        state.live_effect(effect),
        !state.ran.contains(effect),
{
    assert(state.pending[0] == effect);
}

/// A derived computation is memoized. While it is fresh a read hands out the
/// cache and leaves it fresh, so that nothing asks for a recomputation. A
/// write that counts as a change and reaches it makes it stale; a write that
/// does not reach it, or that is no change, leaves it as it was. A
/// recomputation that runs from its beginning to its end leaves it fresh
/// again, with the new value.
pub proof fn law_derived_is_memoized<T>(
    state: RuntimeView<T>,
    derived: usize,
    signal: usize,
    value: T,
    result: T,
)
    requires
        state.wf(),
        state.live_derived(derived),
        state.live_signal(signal),
    ensures
        state.fresh(derived) ==> state.observed(derived).fresh(derived),
        state.observed(derived).values == state.values,
        state.subscribed(signal, derived) ==> !state.written(signal, value, true).fresh(derived),
        !reaches(state.edges, signal, derived) ==> state.written(signal, value, true).fresh(
            derived,
        ) == state.fresh(derived),
        state.written(signal, value, false).fresh(derived) == state.fresh(derived),
        !state.running.contains(derived) ==> state.begun_derived(derived).completed(
            derived,
            result,
        ).fresh(derived),
        state.begun_derived(derived).completed(derived, result).values[derived as int] == Some(
            result,
        ),
{
    if state.subscribed(signal, derived) {
        lemma_reaches_direct(state.edges, signal, derived);
    }
    let begun = state.begun_derived(derived);
    assert(begun.running.drop_last() =~= state.running);
}

/// Disposal is final and idempotent. Every node that a scope in the disposed
/// subtree owns is dead, reads nothing and is read by nothing, and is not
/// scheduled; no later write schedules it; and disposing the scope again
/// changes nothing.
pub proof fn law_disposed_stays_out<T>(
    state: RuntimeView<T>,
    scope: usize,
    node: usize,
    signal: usize,
    value: T,
    changed: bool,
)
    requires
        state.wf(),
        state.live_scope(scope),
        node < state.kinds.len(),
        in_subtree(state.parents, state.owners[node as int], scope),
    ensures
        !state.disposed(scope).live_scope(scope),
        !state.disposed(scope).node_alive(node),
        forall|other: usize|
            !state.disposed(scope).subscribed(other, node) && !state.disposed(scope).subscribed(
                node,
                other,
            ),
        !state.disposed(scope).scheduled(node),
        !state.disposed(scope).written(signal, value, changed).scheduled(node),
        state.disposed(scope).disposed(scope) == state.disposed(scope),
{
    let after = state.disposed(scope);
    let doomed = state.doomed(scope);
    assert(doomed[node as int]);
    lemma_filter_keeps(state.edges, ends_unmarked(doomed));
    lemma_filter_keeps(state.pending, is_unmarked(doomed));
    lemma_filter_keeps(state.deferred, is_unmarked(doomed));
    assert forall|other: usize|
        !after.subscribed(other, node) && !after.subscribed(node, other) by {
        if after.edges.contains(edge(other, node)) {
            let k = choose|k: int| 0 <= k < after.edges.len() && after.edges[k] == edge(other, node);
            assert(ends_unmarked(doomed)(after.edges[k]));
        }
        if after.edges.contains(edge(node, other)) {
            let k = choose|k: int| 0 <= k < after.edges.len() && after.edges[k] == edge(node, other);
            assert(ends_unmarked(doomed)(after.edges[k]));
        }
    }
    assert(!after.pending.contains(node)) by {
        if after.pending.contains(node) {
            let k = choose|k: int| 0 <= k < after.pending.len() && after.pending[k] == node;
            assert(is_unmarked(doomed)(after.pending[k]));
        }
    }
    assert(!after.deferred.contains(node)) by {
        if after.deferred.contains(node) {
            let k = choose|k: int| 0 <= k < after.deferred.len() && after.deferred[k] == node;
            assert(is_unmarked(doomed)(after.deferred[k]));
        }
    }
    assert(in_subtree(state.parents, scope, scope));
    let stored = after.stored(signal, value);
    if changed {
        if reaches(stored.edges, signal, node) {
            lemma_reached_is_subscriber(stored.edges, signal, node);
        }
        let written = stored.notified(signal);
        let ids = ids_below(stored.kinds.len());
        lemma_filter_keeps(ids, stored.joins_batch(signal));
        lemma_filter_keeps(ids, stored.joins_next_batch(signal));
        let batch = ids.filter(stored.joins_batch(signal));
        let next = ids.filter(stored.joins_next_batch(signal));
        if written.pending.contains(node) {
            let k = choose|k: int| 0 <= k < written.pending.len() && written.pending[k] == node;
            if k < stored.pending.len() {
                assert(stored.pending[k] == node);
            } else {
                assert(batch[k - stored.pending.len()] == node);
            }
        }
        if written.deferred.contains(node) {
            let k = choose|k: int| 0 <= k < written.deferred.len() && written.deferred[k] == node;
            if k < stored.deferred.len() {
                assert(stored.deferred[k] == node);
            } else {
                assert(next[k - stored.deferred.len()] == node);
            }
        }
    }
}

/// A write to a signal that nothing has read schedules nothing and makes
/// nothing stale.
pub proof fn law_write_without_readers_changes_no_schedule<T>(
    state: RuntimeView<T>,
    signal: usize,
    value: T,
    changed: bool,
)
    requires
        state.wf(),
        forall|reader: usize| !state.subscribed(signal, reader),
    ensures
        state.written(signal, value, changed).pending == state.pending,
        state.written(signal, value, changed).deferred == state.deferred,
        state.written(signal, value, changed).stale == state.stale,
{
    if changed {
        let stored = state.stored(signal, value);
        assert forall|i: int| 0 <= i < stored.edges.len() implies (#[trigger] stored.edges[i]).source
            != signal by {
            let e = stored.edges[i];
            if e.source == signal {
                assert(stored.edges.contains(edge(signal, e.subscriber)));
                assert(state.subscribed(signal, e.subscriber));
            }
        }
        assert forall|n: usize| !reaches(stored.edges, signal, n) by {
            lemma_no_subscribers_reaches_nothing(stored.edges, signal, n);
        }
        let ids = ids_below(stored.kinds.len());
        lemma_filter_keeps(ids, stored.joins_batch(signal));
        lemma_filter_keeps(ids, stored.joins_next_batch(signal));
        let batch = ids.filter(stored.joins_batch(signal));
        let next = ids.filter(stored.joins_next_batch(signal));
        if batch.len() > 0 {
            assert(stored.joins_batch(signal)(batch[0]));
        }
        if next.len() > 0 {
            assert(stored.joins_next_batch(signal)(next[0]));
        }
        assert(stored.notified(signal).pending =~= state.pending);
        assert(stored.notified(signal).deferred =~= state.deferred);
        assert(stored.notified(signal).stale =~= state.stale);
    }
}

/// The number of new keys among the first items grows with their number, by
/// at most one for each item.
pub proof fn lemma_created_grows<V>(
    before: Seq<(u64, V)>,
    items: Seq<(u64, V)>,
    fewer: int,
    more: int,
)
    requires
        0 <= fewer <= more,
    ensures
        created_before(before, items, fewer) <= created_before(before, items, more),
        created_before(before, items, more) <= more,
    decreases more,
{
    if more > 0 {
        if fewer < more {
            lemma_created_grows(before, items, fewer, more - 1);
        } else {
            lemma_created_grows(before, items, fewer - 1, more - 1);
        }
    }
}

/// Reconciling a list against the same keys in another order, whatever the
/// values, creates nothing and disposes nothing: no item is removed, the
/// runtime is as it was, and every item is reused with the scope it had. Its
/// value counts as updated just where it differs from the one before.
pub proof fn law_reorder_reuses_every_subtree<V: PartialEq, T>(
    list: ListView<V>,
    items: Seq<(u64, V)>,
    runtime: RuntimeView<T>,
    index: int,
)
    requires
        list.wf(),
        distinct_keys(items),
        forall|i: int| 0 <= i < items.len() ==> has_key(list.items, (#[trigger] items[i]).0),
        forall|j: int| 0 <= j < list.items.len() ==> has_key(items, (#[trigger] list.items[j]).0),
        0 <= index < items.len(),
    ensures
        list.removed_by(items) == Seq::<usize>::empty(),
        created_before(list.items, items, items.len() as int) == 0,
        list.runtime_after(items, runtime) == runtime,
        list.placement(items, runtime.parents.len(), index) is Reused,
        list.items[list.placement(items, runtime.parents.len(), index)->from as int].0
            == items[index].0,
        list.reconciled(items, runtime.parents.len()).scopes[index]
            == list.scopes[list.placement(items, runtime.parents.len(), index)->from as int],
        list.placement(items, runtime.parents.len(), index)->updated == !list.items[list.placement(
            items,
            runtime.parents.len(),
            index,
        )->from as int].1.eq_spec(&items[index].1),
{
    let ids = ids_below(list.items.len());
    let removed = list.removed_by(items);
    lemma_filter_keeps(ids, dropped(list.items, items));
    if removed.len() > 0 {
        let j = removed[0];
        assert(dropped(list.items, items)(j));
        assert(has_key(items, list.items[j as int].0));
    }
    assert(removed =~= Seq::<usize>::empty());
    lemma_nothing_created(list.items, items, items.len() as int);
    assert(scopes_at(list.scopes, removed) =~= Seq::<usize>::empty());
    let from = index_of_key(list.items, items[index].0);
    assert(0 <= from < list.items.len());
}

/// Where every key was in the list before, no item counts as created.
proof fn lemma_nothing_created<V>(before: Seq<(u64, V)>, items: Seq<(u64, V)>, upto: int)
    requires
        0 <= upto <= items.len(),
        forall|i: int| 0 <= i < items.len() ==> has_key(before, (#[trigger] items[i]).0),
    ensures
        created_before(before, items, upto) == 0,
    decreases upto,
{
    if upto > 0 {
        lemma_nothing_created(before, items, upto - 1);
        assert(has_key(before, items[upto - 1].0));
    }
}

/// An item whose key persists keeps its subtree: whatever its new position,
/// it is reused from its old one, with the scope it had there.
pub proof fn law_persisting_key_keeps_its_scope<V: PartialEq>(
    list: ListView<V>,
    items: Seq<(u64, V)>,
    fresh: nat,
    index: int,
    from: int,
)
    requires
        list.wf(),
        0 <= index < items.len(),
        0 <= from < list.items.len(),
        items[index].0 == list.items[from].0,
    ensures
        list.reconciled(items, fresh).scopes[index] == list.scopes[from],
        list.reconciled(items, fresh).items[index] == items[index],
        list.placement(items, fresh, index) == (Placement::Reused {
            from: from as usize,
            moved: from != index,
            updated: !list.items[from].1.eq_spec(&items[index].1),
        }),
        !list.removed_by(items).contains(from as usize),
{
    lemma_index_of_key(list.items, from);
    let removed = list.removed_by(items);
    lemma_filter_keeps(ids_below(list.items.len()), dropped(list.items, items));
    if removed.contains(from as usize) {
        let k = choose|k: int| 0 <= k < removed.len() && removed[k] == from as usize;
        assert(dropped(list.items, items)(removed[k]));
        assert(has_key(items, items[index].0));
    }
}

/// An item whose key is new gets a scope that did not exist before the
/// reconciliation, and no two new items get the same.
pub proof fn law_new_key_gets_a_fresh_scope<V: PartialEq>(
    list: ListView<V>,
    items: Seq<(u64, V)>,
    fresh: nat,
    index: int,
    later: int,
)
    requires
        list.wf(),
        0 <= index < later < items.len(),
        !has_key(list.items, items[index].0),
        !has_key(list.items, items[later].0),
        fresh + items.len() <= usize::MAX,
    ensures
        list.placement(items, fresh, index) == (Placement::Created {
            scope: list.reconciled(items, fresh).scopes[index],
        }),
        fresh <= list.reconciled(items, fresh).scopes[index],
        list.reconciled(items, fresh).scopes[index] < list.reconciled(items, fresh).scopes[later],
        list.reconciled(items, fresh).scopes[later] < fresh + created_before(
            list.items,
            items,
            items.len() as int,
        ),
{
    lemma_created_grows(list.items, items, index, items.len() as int);
    lemma_created_grows(list.items, items, index + 1, later);
    lemma_created_grows(list.items, items, later + 1, items.len() as int);
    assert(created_before(list.items, items, index + 1) == created_before(list.items, items, index)
        + 1);
    assert(created_before(list.items, items, later + 1) == created_before(list.items, items, later)
        + 1);
}

/// A scope that is not alive stays so, whatever is disposed afterwards.
pub proof fn lemma_dead_scope_stays_dead<T>(
    runtime: RuntimeView<T>,
    roots: Seq<usize>,
    scope: usize,
)
    requires
        !runtime.live_scope(scope),
        runtime.scope_alive.len() == runtime.parents.len(),
    ensures
        !runtime.disposed_each(roots).live_scope(scope),
        runtime.disposed_each(roots).scope_alive.len() == runtime.scope_alive.len(),
        runtime.disposed_each(roots).parents == runtime.parents,
    decreases roots.len(),
{
    if roots.len() > 0 {
        lemma_dead_scope_stays_dead(runtime, roots.drop_last(), scope);
    }
}

/// Disposing scopes one after the other leaves each of them dead.
pub proof fn lemma_disposed_each_is_dead<T>(runtime: RuntimeView<T>, roots: Seq<usize>, at: int)
    requires
        runtime.scope_alive.len() == runtime.parents.len(),
        0 <= at < roots.len(),
    ensures
        !runtime.disposed_each(roots).live_scope(roots[at]),
        runtime.disposed_each(roots).scope_alive.len() == runtime.scope_alive.len(),
        runtime.disposed_each(roots).parents == runtime.parents,
    decreases roots.len(),
{
    let front = roots.drop_last();
    let earlier = runtime.disposed_each(front);
    if at < roots.len() - 1 {
        lemma_disposed_each_is_dead(runtime, front, at);
        assert(front[at] == roots[at]);
    } else {
        if front.len() > 0 {
            lemma_disposed_each_is_dead(runtime, front, 0);
        }
        if earlier.live_scope(roots.last()) {
            assert(in_subtree(earlier.parents, roots.last(), roots.last()));
        }
    }
}

/// An item whose key is gone is removed: its index is reported, and the
/// scope of its subtree is not alive afterwards.
pub proof fn law_gone_key_is_disposed<V, T>(
    list: ListView<V>,
    items: Seq<(u64, V)>,
    runtime: RuntimeView<T>,
    from: int,
)
    requires
        list.wf(),
        runtime.wf(),
        0 <= from < list.items.len(),
        !has_key(items, list.items[from].0),
    ensures
        list.removed_by(items).contains(from as usize),
        !list.runtime_after(items, runtime).live_scope(list.scopes[from]),
{
    let ids = ids_below(list.items.len());
    let removed = list.removed_by(items);
    lemma_filter_keeps(ids, dropped(list.items, items));
    assert(ids[from] == from as usize);
    assert(ids.contains(from as usize));
    assert(dropped(list.items, items)(from as usize));
    assert(removed.contains(from as usize));
    let k = choose|k: int| 0 <= k < removed.len() && removed[k] == from as usize;
    let grown = runtime.with_scopes_under(
        list.owner,
        created_before(list.items, items, items.len() as int),
    );
    lemma_grown_sizes(runtime, list.owner, created_before(list.items, items, items.len() as int));
    lemma_disposed_each_is_dead(grown, scopes_at(list.scopes, removed), k);
}

/// New scopes keep the two sequences that describe scopes at one length.
proof fn lemma_grown_sizes<T>(runtime: RuntimeView<T>, parent: usize, count: nat)
    requires
        runtime.scope_alive.len() == runtime.parents.len(),
    ensures
        runtime.with_scopes_under(parent, count).scope_alive.len() == runtime.with_scopes_under(
            parent,
            count,
        ).parents.len(),
    decreases count,
{
    if count > 0 {
        lemma_grown_sizes(runtime, parent, (count - 1) as nat);
    }
}

/// An error boundary shows its fallback just while some value that it
/// watches is a failure, and the fallback is given each failure with its
/// position: a value that becomes a number again brings the children back.
pub proof fn law_fallback_just_for_failures(values: Seq<Entered>, index: int)
    requires
        0 <= index < values.len(),
        values.len() <= usize::MAX,
    ensures
        values[index] is Failure ==> failures(values).len() > 0,
        values[index] is Failure ==> exists|k: int|
            0 <= k < failures(values).len() && #[trigger] failures(values)[k] == (
                index as usize,
                values[index]->Failure_0,
            ),
        (forall|i: int| 0 <= i < values.len() ==> (#[trigger] values[i]) is Number) ==> failures(
            values,
        ).len() == 0,
{
    let ids = ids_below(values.len());
    let fails = failing_in(values);
    lemma_filter_keeps(ids, fails);
    if values[index] is Failure {
        assert(ids[index] == index as usize);
        assert(ids.contains(index as usize));
        assert(fails(index as usize));
        assert(failing(values).contains(index as usize));
        let k = choose|k: int| 0 <= k < failing(values).len() && failing(values)[k] == index as usize;
        assert(failures(values)[k] == (index as usize, values[index]->Failure_0));
    }
    if forall|i: int| 0 <= i < values.len() ==> (#[trigger] values[i]) is Number {
        if failing(values).len() > 0 {
            let first = failing(values)[0];
            assert(fails(first));
            assert(values[first as int] is Number);
        }
    }
}

} // verus!
