//! The reactive runtime: signal store, dependency tracker, effect scheduler,
//! derived computations and disposal scopes in one arena.
//!
//! The runtime holds no code of its users. A computation's body runs outside:
//! the caller starts a run, reads and writes through the runtime while the
//! body executes, and ends the run. The runtime decides what is tracked, what
//! is stale and what runs next.

use crate::error::ReactiveError;
use crate::graph::{
    edge, ends_unmarked, holds, holds_edge, is_not, is_unmarked, lemma_filter_keeps,
    lemma_reached_is_subscriber, mark_reachable, not_read_by, reaches, sources, subscribers,
    without_id, without_marked, without_marked_ends, without_subscriber, Edge,
};
use crate::model::{apart, ids_below, in_subtree, parents_ok, queue_ok, NodeKind, RuntimeView};
use vstd::prelude::*;
use vstd::std_specs::cmp::PartialEqSpec;

verus! {

/// The handle of a signal.
#[derive(Clone, Copy, Debug, PartialEq, Eq, Hash, Structural)]
pub struct SignalId(pub usize);

/// The handle of a derived computation.
#[derive(Clone, Copy, Debug, PartialEq, Eq, Hash, Structural)]
pub struct DerivedId(pub usize);

/// The handle of an effect.
#[derive(Clone, Copy, Debug, PartialEq, Eq, Hash, Structural)]
pub struct EffectId(pub usize);

/// The handle of a disposal scope.
#[derive(Clone, Copy, Debug, PartialEq, Eq, Hash, Structural)]
pub struct ScopeId(pub usize);

/// A reactive runtime over values of type `T`.
pub struct Runtime<T> {
    kinds: Vec<NodeKind>,
    alive: Vec<bool>,
    owners: Vec<usize>,
    values: Vec<Option<T>>,
    stale: Vec<bool>,
    parents: Vec<Option<usize>>,
    scope_alive: Vec<bool>,
    edges: Vec<Edge>,
    running: Vec<usize>,
    pending: Vec<usize>,
    deferred: Vec<usize>,
    ran: Vec<usize>,
    flushing: bool,
    current: usize,
    always_notify: bool,
}

impl<T> View for Runtime<T> {
    type V = RuntimeView<T>;

    closed spec fn view(&self) -> RuntimeView<T> {
        RuntimeView {
            kinds: self.kinds@,
            alive: self.alive@,
            owners: self.owners@,
            values: self.values@,
            stale: self.stale@,
            parents: self.parents@,
            scope_alive: self.scope_alive@,
            edges: self.edges@,
            running: self.running@,
            pending: self.pending@,
            deferred: self.deferred@,
            ran: self.ran@,
            flushing: self.flushing,
            current: self.current,
            always_notify: self.always_notify,
        }
    }
}

impl<T> Runtime<T> {
    /// The invariant of the runtime.
    pub open spec fn wf(&self) -> bool {
        self@.wf()
    }

    /// A runtime that holds a live root scope and nothing else.
    pub fn new() -> (runtime: Self)
        ensures
            runtime.wf(),
            runtime@ == RuntimeView::<T>::initial(),
    {
        let mut parents: Vec<Option<usize>> = Vec::new();
        parents.push(None);
        let mut scope_alive: Vec<bool> = Vec::new();
        scope_alive.push(true);
        let runtime = Runtime {
            kinds: Vec::new(),
            alive: Vec::new(),
            owners: Vec::new(),
            values: Vec::new(),
            stale: Vec::new(),
            parents,
            scope_alive,
            edges: Vec::new(),
            running: Vec::new(),
            pending: Vec::new(),
            deferred: Vec::new(),
            ran: Vec::new(),
            flushing: false,
            current: 0,
            always_notify: false,
        };
        assert(runtime.parents@ =~= seq![None]);
        assert(runtime.scope_alive@ =~= seq![true]);
        runtime
    }

    /// Chooses whether a write of an equal value notifies the subscribers.
    pub fn set_always_notify(&mut self, on: bool)
        requires
            old(self).wf(),
        ensures
            final(self).wf(),
            final(self)@ == (RuntimeView { always_notify: on, ..old(self)@ }),
    {
        self.always_notify = on;
    }

    /// The scope under which nodes and scopes are created.
    pub fn current_scope(&self) -> (scope: ScopeId)
        ensures
            scope.0 == self@.current,
    {
        ScopeId(self.current)
    }

    /// Whether the scope exists and has not been disposed.
    pub fn is_scope_alive(&self, scope: ScopeId) -> (alive: bool)
        ensures
            alive == self@.live_scope(scope.0),
    {
        scope.0 < self.scope_alive.len() && self.scope_alive[scope.0]
    }

    /// Creates a scope under `parent`. Fails where `parent` is not alive.
    pub fn create_scope_under(&mut self, parent: ScopeId) -> (created: Result<
        ScopeId,
        ReactiveError,
    >)
        requires
            old(self).wf(),
        ensures
            final(self).wf(),
            match created {
                Ok(scope) => {
                    &&& old(self)@.live_scope(parent.0)
                    &&& scope.0 == old(self)@.parents.len()
                    &&& final(self)@ == old(self)@.with_scope_under(parent.0)
                },
                Err(error) => {
                    &&& !old(self)@.live_scope(parent.0)
                    &&& error == ReactiveError::UseAfterDispose
                    &&& final(self)@ == old(self)@
                },
            },
    {
        if !self.is_scope_alive(parent) {
            return Err(ReactiveError::UseAfterDispose);
        }
        let id = self.parents.len();
        self.parents.push(Some(parent.0));
        self.scope_alive.push(true);
        let count = self.parents.len();
        assert(count == id + 1);
        Ok(ScopeId(id))
    }

    /// Creates a scope under the current scope. Fails where the current scope
    /// has been disposed.
    pub fn create_scope(&mut self) -> (created: Result<ScopeId, ReactiveError>)
        requires
            old(self).wf(),
        ensures
            final(self).wf(),
            match created {
                Ok(scope) => {
                    &&& old(self)@.live_scope(old(self)@.current)
                    &&& scope.0 == old(self)@.parents.len()
                    &&& final(self)@ == old(self)@.with_scope()
                },
                Err(error) => {
                    &&& !old(self)@.live_scope(old(self)@.current)
                    &&& error == ReactiveError::UseAfterDispose
                    &&& final(self)@ == old(self)@
                },
            },
    {
        self.create_scope_under(ScopeId(self.current))
    }

    /// Makes `scope` the current scope and returns the scope that was current.
    /// Fails where `scope` is not alive.
    pub fn enter_scope(&mut self, scope: ScopeId) -> (before: Result<ScopeId, ReactiveError>)
        requires
            old(self).wf(),
        ensures
            final(self).wf(),
            match before {
                Ok(previous) => {
                    &&& old(self)@.live_scope(scope.0)
                    &&& previous.0 == old(self)@.current
                    &&& final(self)@ == old(self)@.entered(scope.0)
                },
                Err(error) => {
                    &&& !old(self)@.live_scope(scope.0)
                    &&& error == ReactiveError::UseAfterDispose
                    &&& final(self)@ == old(self)@
                },
            },
    {
        if !self.is_scope_alive(scope) {
            return Err(ReactiveError::UseAfterDispose);
        }
        let previous = self.current;
        self.current = scope.0;
        Ok(ScopeId(previous))
    }

    /// Adds a node under the current scope.
    fn add_node(&mut self, kind: NodeKind, value: Option<T>, stale: bool) -> (id: usize)
        requires
            old(self).wf(),
            kind == NodeKind::Signal ==> value is Some,
        ensures
            final(self).wf(),
            id == old(self)@.kinds.len(),
            final(self)@ == old(self)@.with_node(kind, value, stale),
    {
        let id = self.kinds.len();
        self.kinds.push(kind);
        self.alive.push(true);
        self.owners.push(self.current);
        self.values.push(value);
        self.stale.push(stale);
        let count = self.kinds.len();
        assert(count == id + 1);
        id
    }

    /// Creates a signal that holds `initial`, under the current scope. Fails
    /// where the current scope has been disposed.
    pub fn create_signal(&mut self, initial: T) -> (created: Result<SignalId, ReactiveError>)
        requires
            old(self).wf(),
        ensures
            final(self).wf(),
            match created {
                Ok(signal) => {
                    &&& old(self)@.live_scope(old(self)@.current)
                    &&& signal.0 == old(self)@.kinds.len()
                    &&& final(self)@ == old(self)@.with_node(
                        NodeKind::Signal,
                        Some(initial),
                        false,
                    )
                },
                Err(error) => {
                    &&& !old(self)@.live_scope(old(self)@.current)
                    &&& error == ReactiveError::UseAfterDispose
                    &&& final(self)@ == old(self)@
                },
            },
    {
        if !self.scope_alive[self.current] {
            return Err(ReactiveError::UseAfterDispose);
        }
        let id = self.add_node(NodeKind::Signal, Some(initial), false);
        Ok(SignalId(id))
    }

    /// Creates a derived computation under the current scope. It has no value
    /// yet and is stale. Fails where the current scope has been disposed.
    pub fn create_derived(&mut self) -> (created: Result<DerivedId, ReactiveError>)
        requires
            old(self).wf(),
        ensures
            final(self).wf(),
            match created {
                Ok(derived) => {
                    &&& old(self)@.live_scope(old(self)@.current)
                    &&& derived.0 == old(self)@.kinds.len()
                    &&& final(self)@ == old(self)@.with_node(NodeKind::Derived, None, true)
                },
                Err(error) => {
                    &&& !old(self)@.live_scope(old(self)@.current)
                    &&& error == ReactiveError::UseAfterDispose
                    &&& final(self)@ == old(self)@
                },
            },
    {
        if !self.scope_alive[self.current] {
            return Err(ReactiveError::UseAfterDispose);
        }
        let id = self.add_node(NodeKind::Derived, None, true);
        Ok(DerivedId(id))
    }

    /// Creates an effect under the current scope and schedules its first run.
    /// Fails where the current scope has been disposed.
    pub fn create_effect(&mut self) -> (created: Result<EffectId, ReactiveError>)
        requires
            old(self).wf(),
        ensures
            final(self).wf(),
            match created {
                Ok(effect) => {
                    &&& old(self)@.live_scope(old(self)@.current)
                    &&& effect.0 == old(self)@.kinds.len()
                    &&& final(self)@ == old(self)@.with_effect()
                },
                Err(error) => {
                    &&& !old(self)@.live_scope(old(self)@.current)
                    &&& error == ReactiveError::UseAfterDispose
                    &&& final(self)@ == old(self)@
                },
            },
    {
        if !self.scope_alive[self.current] {
            return Err(ReactiveError::UseAfterDispose);
        }
        let id = self.add_node(NodeKind::Effect, None, false);
        proof {
            let before = old(self)@;
            assert(!before.pending.contains(id)) by {
                if before.pending.contains(id) {
                    let i = choose|i: int| 0 <= i < before.pending.len() && before.pending[i] == id;
                    assert(before.pending[i] < before.kinds.len());
                }
            }
            assert(!before.deferred.contains(id)) by {
                if before.deferred.contains(id) {
                    let i = choose|i: int|
                        0 <= i < before.deferred.len() && before.deferred[i] == id;
                    assert(before.deferred[i] < before.kinds.len());
                }
            }
            assert(!before.ran.contains(id)) by {
                if before.ran.contains(id) {
                    let i = choose|i: int| 0 <= i < before.ran.len() && before.ran[i] == id;
                    assert(before.ran[i] < before.kinds.len());
                }
            }
        }
        self.pending.push(id);
        assert(self@.pending.no_duplicates());
        Ok(EffectId(id))
    }

    /// Whether the handle names a live node of the kind.
    fn is_live(&self, node: usize, kind: NodeKind) -> (live: bool)
        requires
            self.wf(),
        ensures
            live == (self@.node_alive(node) && self@.kinds[node as int] == kind),
    {
        node < self.kinds.len() && self.alive[node] && self.kinds[node] == kind
    }

    /// Whether the signal exists and has not been disposed.
    pub fn is_signal_alive(&self, signal: SignalId) -> (alive: bool)
        requires
            self.wf(),
        ensures
            alive == self@.live_signal(signal.0),
    {
        self.is_live(signal.0, NodeKind::Signal)
    }

    /// Registers the running computation as a subscriber of `source`.
    fn observe(&mut self, source: usize)
        requires
            old(self).wf(),
            old(self)@.live_signal(source) || old(self)@.live_derived(source),
        ensures
            final(self).wf(),
            final(self)@ == old(self)@.observed(source),
    {
        let depth = self.running.len();
        if depth > 0 {
            let reader = self.running[depth - 1];
            if self.alive[reader] && !holds_edge(&self.edges, source, reader) {
                self.edges.push(Edge { source, subscriber: reader });
            }
        }
    }

    /// Reads the signal. Inside a running computation the read is recorded:
    /// the computation becomes a subscriber of the signal. Fails where the
    /// signal is not alive.
    pub fn read(&mut self, signal: SignalId) -> (read: Result<&T, ReactiveError>)
        requires
            old(self).wf(),
        ensures
            final(self).wf(),
            match read {
                Ok(value) => {
                    &&& old(self)@.live_signal(signal.0)
                    &&& old(self)@.values[signal.0 as int] == Some(*value)
                    &&& final(self)@ == old(self)@.observed(signal.0)
                },
                Err(error) => {
                    &&& !old(self)@.live_signal(signal.0)
                    &&& error == ReactiveError::UseAfterDispose
                    &&& final(self)@ == old(self)@
                },
            },
    {
        if !self.is_live(signal.0, NodeKind::Signal) {
            return Err(ReactiveError::UseAfterDispose);
        }
        self.observe(signal.0);
        match &self.values[signal.0] {
            Some(value) => Ok(value),
            None => Err(ReactiveError::UseAfterDispose),
        }
    }

    /// Reads the signal without recording the read. Fails where the signal is
    /// not alive.
    pub fn read_untracked(&self, signal: SignalId) -> (read: Result<&T, ReactiveError>)
        requires
            self.wf(),
        ensures
            match read {
                Ok(value) => {
                    &&& self@.live_signal(signal.0)
                    &&& self@.values[signal.0 as int] == Some(*value)
                },
                Err(error) => {
                    &&& !self@.live_signal(signal.0)
                    &&& error == ReactiveError::UseAfterDispose
                },
            },
    {
        if !self.is_live(signal.0, NodeKind::Signal) {
            return Err(ReactiveError::UseAfterDispose);
        }
        match &self.values[signal.0] {
            Some(value) => Ok(value),
            None => Err(ReactiveError::UseAfterDispose),
        }
    }
}

impl<T> Runtime<T> {
    /// Records that `source` has changed: what the change reaches becomes
    /// stale or is scheduled.
    fn notify(&mut self, source: usize)
        requires
            old(self).wf(),
        ensures
            final(self).wf(),
            final(self)@ == old(self)@.notified(source),
    {
        let count = self.kinds.len();
        let marks = mark_reachable(&self.edges, count, source);
        let ghost before = self@;
        let ghost ids = ids_below(count as nat);
        let ghost to_batch = before.joins_batch(source);
        let ghost to_next = before.joins_next_batch(source);
        let mut i: usize = 0;
        proof {
            reveal(Seq::filter);
            assert(ids.take(0) =~= Seq::<usize>::empty());
            assert(self.pending@ =~= before.pending + ids.take(0).filter(to_batch));
            assert(self.deferred@ =~= before.deferred + ids.take(0).filter(to_next));
        }
        while i < count
            invariant
                i <= count,
                count == before.kinds.len(),
                before.wf(),
                ids == ids_below(count as nat),
                to_batch == before.joins_batch(source),
                to_next == before.joins_next_batch(source),
                marks@.len() == count,
                forall|n: usize| n < count ==> (marks@[n as int] <==> reaches(before.edges, source, n)),
                self.kinds@ == before.kinds,
                self.alive@ == before.alive,
                self.owners@ == before.owners,
                self.values@ == before.values,
                self.parents@ == before.parents,
                self.scope_alive@ == before.scope_alive,
                self.edges@ == before.edges,
                self.running@ == before.running,
                self.ran@ == before.ran,
                self.flushing == before.flushing,
                self.current == before.current,
                self.always_notify == before.always_notify,
                self.stale@.len() == count,
                forall|k: int|
                    0 <= k < count ==> #[trigger] self.stale@[k] == (before.stale[k] || (k < i
                        && before.is_derived(k as usize) && reaches(
                        before.edges,
                        source,
                        k as usize,
                    ))),
                self.pending@ == before.pending + ids.take(i as int).filter(to_batch),
                self.deferred@ == before.deferred + ids.take(i as int).filter(to_next),
                queue_ok(self.kinds@, self.alive@, self.pending@),
                queue_ok(self.kinds@, self.alive@, self.deferred@),
                apart(self.pending@, self.deferred@),
                apart(self.pending@, self.ran@),
                !self.flushing ==> self.deferred@.len() == 0,
                forall|x: usize| self.pending@.contains(x) ==> before.pending.contains(x) || x < i,
                forall|x: usize| self.deferred@.contains(x) ==> before.deferred.contains(x) || x < i,
                forall|x: usize| before.pending.contains(x) ==> self.pending@.contains(x),
                forall|x: usize| before.deferred.contains(x) ==> self.deferred@.contains(x),
            decreases count - i,
        {
            let ghost pending_before = self.pending@;
            let ghost deferred_before = self.deferred@;
            proof {
                ids.take(i as int).lemma_filter_push(i, to_batch);
                ids.take(i as int).lemma_filter_push(i, to_next);
                assert(ids.take(i as int).push(i) =~= ids.take(i + 1));
                if marks@[i as int] {
                    lemma_reached_is_subscriber(before.edges, source, i);
                    let from = choose|from: usize| #[trigger]
                        before.edges.contains(edge(from, i));
                    let j = choose|j: int|
                        0 <= j < before.edges.len() && before.edges[j] == edge(
                            from,
                            i,
                        );
                    assert(before.edges[j].subscriber == i);
                    assert(before.alive[i as int]);
                }
            }
            let mut joins_batch = false;
            let mut joins_next = false;
            if marks[i] {
                match self.kinds[i] {
                    NodeKind::Signal => {},
                    NodeKind::Derived => {
                        self.stale[i] = true;
                    },
                    NodeKind::Effect => {
                        if !holds(&self.pending, i) && !holds(&self.deferred, i) {
                            if self.flushing && holds(&self.ran, i) {
                                joins_next = true;
                            } else {
                                joins_batch = true;
                            }
                        }
                    },
                }
            }
            assert(joins_batch == to_batch(i));
            assert(joins_next == to_next(i));
            if joins_batch {
                self.pending.push(i);
                proof {
                    assert(self.pending@ =~= before.pending + ids.take(i + 1).filter(to_batch));
                    assert forall|x: usize| self.pending@.contains(x) implies before.pending.contains(
                        x,
                    ) || x < i + 1 by {
                        if x != i {
                            assert(pending_before.contains(x));
                        }
                    }
                    assert forall|x: usize| before.pending.contains(x) implies self.pending@.contains(
                        x,
                    ) by {
                        let k = choose|k: int|
                            0 <= k < pending_before.len() && pending_before[k] == x;
                        assert(self.pending@[k] == x);
                    }
                    assert(apart(self.pending@, self.deferred@));
                    assert(apart(self.pending@, self.ran@));
                }
            }
            if joins_next {
                self.deferred.push(i);
                proof {
                    assert(self.deferred@ =~= before.deferred + ids.take(i + 1).filter(to_next));
                    assert forall|x: usize| self.deferred@.contains(x) implies before.deferred.contains(
                        x,
                    ) || x < i + 1 by {
                        if x != i {
                            assert(deferred_before.contains(x));
                        }
                    }
                    assert forall|x: usize| before.deferred.contains(x) implies self.deferred@.contains(
                        x,
                    ) by {
                        let k = choose|k: int|
                            0 <= k < deferred_before.len() && deferred_before[k] == x;
                        assert(self.deferred@[k] == x);
                    }
                    assert forall|k: int| 0 <= k < self.pending@.len() implies !self.deferred@.contains(
                        #[trigger] self.pending@[k],
                    ) by {
                        assert(!deferred_before.contains(self.pending@[k]));
                        assert(self.pending@.contains(self.pending@[k]));
                    }
                }
            }
            i = i + 1;
        }
        proof {
            assert(ids.take(count as int) =~= ids);
            assert(self.stale@ =~= before.notified(source).stale);
            assert(self@ == before.notified(source));
        }
    }
}

impl<T: PartialEq> Runtime<T> {
    /// Writes `value` to the signal. Where the write counts as a change (the
    /// value differs from the one before by `==`, or the runtime always
    /// notifies), what the signal reaches becomes stale or is scheduled;
    /// nothing runs before the next flush. Returns whether the write counted
    /// as a change. Fails where the signal is not alive.
    pub fn write(&mut self, signal: SignalId, value: T) -> (written: Result<bool, ReactiveError>)
        requires
            old(self).wf(),
        ensures
            final(self).wf(),
            match written {
                Ok(changed) => {
                    &&& old(self)@.live_signal(signal.0)
                    &&& old(self)@.always_notify ==> changed
                    &&& T::obeys_eq_spec() ==> changed == old(self)@.changes(signal.0, value)
                    &&& final(self)@ == old(self)@.written(signal.0, value, changed)
                },
                Err(error) => {
                    &&& !old(self)@.live_signal(signal.0)
                    &&& error == ReactiveError::UseAfterDispose
                    &&& final(self)@ == old(self)@
                },
            },
    {
        if !self.is_live(signal.0, NodeKind::Signal) {
            return Err(ReactiveError::UseAfterDispose);
        }
        let changed = self.always_notify || match &self.values[signal.0] {
            Some(before) => *before != value,
            None => true,
        };
        self.values[signal.0] = Some(value);
        if changed {
            self.notify(signal.0);
        }
        Ok(changed)
    }

    /// Replaces the signal's value by what `change` makes of it, as a write does.
    /// Fails where the signal is not alive; `change` is not called then.
    pub fn update<F: FnOnce(&T) -> T>(&mut self, signal: SignalId, change: F) -> (updated: Result<
        bool,
        ReactiveError,
    >)
        requires
            old(self).wf(),
            old(self)@.live_signal(signal.0) ==> change.requires(
                (&old(self)@.values[signal.0 as int]->0,),
            ),
        ensures
            final(self).wf(),
            match updated {
                Ok(changed) => {
                    &&& old(self)@.live_signal(signal.0)
                    &&& exists|value: T|
                        {
                            &&& #[trigger] change.ensures(
                                (&old(self)@.values[signal.0 as int]->0,),
                                value,
                            )
                            &&& old(self)@.always_notify ==> changed
                            &&& T::obeys_eq_spec() ==> changed == old(self)@.changes(
                                signal.0,
                                value,
                            )
                            &&& final(self)@ == old(self)@.written(signal.0, value, changed)
                        }
                },
                Err(error) => {
                    &&& !old(self)@.live_signal(signal.0)
                    &&& error == ReactiveError::UseAfterDispose
                    &&& final(self)@ == old(self)@
                },
            },
    {
        if !self.is_live(signal.0, NodeKind::Signal) {
            return Err(ReactiveError::UseAfterDispose);
        }
        let value = match &self.values[signal.0] {
            Some(before) => change(before),
            None => {
                return Err(ReactiveError::UseAfterDispose);
            },
        };
        let ghost chosen = value;
        let written = self.write(signal, value);
        proof {
            assert(change.ensures((&old(self)@.values[signal.0 as int]->0,), chosen));
        }
        written
    }
}

impl<T> Runtime<T> {
    /// Starts a run of the computation.
    fn begin(&mut self, computation: usize)
        requires
            old(self).wf(),
            computation < old(self)@.kinds.len(),
            old(self)@.kinds[computation as int] != NodeKind::Signal,
        ensures
            final(self).wf(),
            final(self)@ == old(self)@.begun(computation),
    {
        proof {
            lemma_filter_keeps(self.edges@, not_read_by(computation));
            lemma_filter_keeps(self.pending@, is_not(computation));
            lemma_filter_keeps(self.deferred@, is_not(computation));
        }
        self.edges = without_subscriber(&self.edges, computation);
        self.pending = without_id(&self.pending, computation);
        self.deferred = without_id(&self.deferred, computation);
        self.running.push(computation);
        proof {
            let before = old(self)@;
            assert(self@ == before.begun(computation));
            assert forall|i: int| 0 <= i < self.pending@.len() implies !self.deferred@.contains(
                #[trigger] self.pending@[i],
            ) by {
                let x = self.pending@[i];
                assert(before.pending.contains(x));
                if self.deferred@.contains(x) {
                    let k = choose|k: int| 0 <= k < self.deferred@.len() && self.deferred@[k] == x;
                    assert(before.deferred.contains(self.deferred@[k]));
                }
            }
            assert forall|i: int| 0 <= i < self.pending@.len() implies !self.ran@.contains(
                #[trigger] self.pending@[i],
            ) by {
                assert(before.pending.contains(self.pending@[i]));
            }
        }
    }

    /// Reads the derived computation's cached value. A fresh value is handed
    /// out and the read is recorded. A computation that is not fresh yields
    /// `None` and nothing changes: it has to be recomputed first. Fails where
    /// the computation is not alive.
    pub fn read_derived(&mut self, derived: DerivedId) -> (read: Result<Option<&T>, ReactiveError>)
        requires
            old(self).wf(),
        ensures
            final(self).wf(),
            match read {
                Ok(Some(value)) => {
                    &&& old(self)@.live_derived(derived.0)
                    &&& old(self)@.fresh(derived.0)
                    &&& old(self)@.values[derived.0 as int] == Some(*value)
                    &&& final(self)@ == old(self)@.observed(derived.0)
                },
                Ok(None) => {
                    &&& old(self)@.live_derived(derived.0)
                    &&& !old(self)@.fresh(derived.0)
                    &&& final(self)@ == old(self)@
                },
                Err(error) => {
                    &&& !old(self)@.live_derived(derived.0)
                    &&& error == ReactiveError::UseAfterDispose
                    &&& final(self)@ == old(self)@
                },
            },
    {
        if !self.is_live(derived.0, NodeKind::Derived) {
            return Err(ReactiveError::UseAfterDispose);
        }
        if self.stale[derived.0] || self.values[derived.0].is_none() || holds(
            &self.running,
            derived.0,
        ) {
            return Ok(None);
        }
        self.observe(derived.0);
        match &self.values[derived.0] {
            Some(value) => Ok(Some(value)),
            None => Ok(None),
        }
    }

    /// Starts the recomputation of a derived computation, if it is stale, and
    /// says whether it did: a computation that is not stale is not
    /// recomputed, and nothing changes. Fails where the computation is not
    /// alive.
    pub fn begin_derived(&mut self, derived: DerivedId) -> (begun: Result<bool, ReactiveError>)
        requires
            old(self).wf(),
        ensures
            final(self).wf(),
            match begun {
                Ok(started) => {
                    &&& old(self)@.live_derived(derived.0)
                    &&& started == old(self)@.stale[derived.0 as int]
                    &&& final(self)@ == if started {
                        old(self)@.begun_derived(derived.0)
                    } else {
                        old(self)@
                    }
                },
                Err(error) => {
                    &&& !old(self)@.live_derived(derived.0)
                    &&& error == ReactiveError::UseAfterDispose
                    &&& final(self)@ == old(self)@
                },
            },
    {
        if !self.is_live(derived.0, NodeKind::Derived) {
            return Err(ReactiveError::UseAfterDispose);
        }
        if !self.stale[derived.0] {
            return Ok(false);
        }
        self.begin(derived.0);
        self.stale[derived.0] = false;
        assert(self@ == old(self)@.begun_derived(derived.0));
        Ok(true)
    }

    /// Ends the recomputation of a derived computation with its new value,
    /// and says whether the value was accepted: it is where the computation is
    /// the innermost running one; else nothing changes. Fails where the
    /// computation is not alive.
    pub fn complete_derived(&mut self, derived: DerivedId, value: T) -> (completed: Result<
        bool,
        ReactiveError,
    >)
        requires
            old(self).wf(),
        ensures
            final(self).wf(),
            match completed {
                Ok(accepted) => {
                    &&& old(self)@.live_derived(derived.0)
                    &&& accepted == old(self)@.innermost(derived.0)
                    &&& final(self)@ == if accepted {
                        old(self)@.completed(derived.0, value)
                    } else {
                        old(self)@
                    }
                },
                Err(error) => {
                    &&& !old(self)@.live_derived(derived.0)
                    &&& error == ReactiveError::UseAfterDispose
                    &&& final(self)@ == old(self)@
                },
            },
    {
        if !self.is_live(derived.0, NodeKind::Derived) {
            return Err(ReactiveError::UseAfterDispose);
        }
        let depth = self.running.len();
        if depth == 0 || self.running[depth - 1] != derived.0 {
            return Ok(false);
        }
        self.values[derived.0] = Some(value);
        self.running.pop();
        assert(self@ == old(self)@.completed(derived.0, value));
        Ok(true)
    }

    /// Starts a flush, and says whether it did: while a flush is in progress no
    /// other starts, and nothing changes.
    pub fn begin_flush(&mut self) -> (started: bool)
        requires
            old(self).wf(),
        ensures
            final(self).wf(),
            started == !old(self)@.flushing,
            final(self)@ == if started {
                old(self)@.flush_begun()
            } else {
                old(self)@
            },
    {
        if self.flushing {
            return false;
        }
        self.flushing = true;
        true
    }

    /// Takes one step of the flush in progress. Where the batch holds an
    /// effect, the first one starts its run and is handed out: the caller runs
    /// its body and ends the run. Where the batch is empty the flush ends, and
    /// the effects deferred during it make up the next batch. Without a flush
    /// in progress nothing happens.
    pub fn next_effect(&mut self) -> (next: Option<EffectId>)
        requires
            old(self).wf(),
        ensures
            final(self).wf(),
            final(self)@ == old(self)@.stepped(),
            match next {
                Some(effect) => old(self)@.next_up() == Some(effect.0),
                None => old(self)@.next_up() is None,
            },
    {
        if !self.flushing {
            return None;
        }
        if self.pending.len() == 0 {
            let mut batch: Vec<usize> = Vec::new();
            std::mem::swap(&mut batch, &mut self.deferred);
            self.pending = batch;
            self.ran = Vec::new();
            self.flushing = false;
            proof {
                assert(self.deferred@ =~= Seq::<usize>::empty());
                assert(self.ran@ =~= Seq::<usize>::empty());
                assert(self@ == old(self)@.stepped());
            }
            return None;
        }
        let effect = self.pending[0];
        self.begin(effect);
        proof {
            lemma_filter_keeps(old(self)@.pending, is_not(effect));
        }
        self.ran.push(effect);
        proof {
            let before = old(self)@;
            assert(self@ == before.stepped());
            assert forall|i: int| 0 <= i < self.pending@.len() implies !self.ran@.contains(
                #[trigger] self.pending@[i],
            ) by {
                let x = self.pending@[i];
                assert(x != effect);
                assert(!before.ran.contains(x)) by {
                    assert(before.pending.contains(x));
                    let k = choose|k: int| 0 <= k < before.pending.len() && before.pending[k] == x;
                    assert(!before.ran.contains(before.pending[k]));
                }
            }
        }
        Some(EffectId(effect))
    }

    /// Ends the run of an effect, and says whether it did: it does where the
    /// effect is the innermost running computation; else nothing changes.
    pub fn end_effect(&mut self, effect: EffectId) -> (ended: bool)
        requires
            old(self).wf(),
        ensures
            final(self).wf(),
            ended == (old(self)@.innermost(effect.0) && old(self)@.is_effect(effect.0)),
            final(self)@ == if ended {
                old(self)@.ended()
            } else {
                old(self)@
            },
    {
        let depth = self.running.len();
        if depth == 0 || self.running[depth - 1] != effect.0 {
            return false;
        }
        match self.kinds[effect.0] {
            NodeKind::Effect => {
                self.running.pop();
                assert(self@ == old(self)@.ended());
                true
            },
            _ => false,
        }
    }
}

impl<T> Runtime<T> {
    /// For each scope, whether it lies in the subtree of `root`.
    fn subtree(&self, root: usize) -> (below: Vec<bool>)
        requires
            self.wf(),
        ensures
            below@.len() == self@.parents.len(),
            forall|k: int|
                0 <= k < below@.len() ==> #[trigger] below@[k] == in_subtree(
                    self@.parents,
                    k as usize,
                    root,
                ),
    {
        let count = self.parents.len();
        let mut below: Vec<bool> = Vec::new();
        let mut scope: usize = 0;
        while scope < count
            invariant
                scope <= count,
                count == self.parents@.len(),
                parents_ok(self.parents@),
                below@.len() == scope,
                forall|k: int|
                    0 <= k < scope ==> #[trigger] below@[k] == in_subtree(
                        self.parents@,
                        k as usize,
                        root,
                    ),
            decreases count - scope,
        {
            let inside = scope == root || match self.parents[scope] {
                Some(parent) => {
                    assert(parent < scope);
                    below[parent]
                },
                None => false,
            };
            below.push(inside);
            scope = scope + 1;
        }
        below
    }

    /// Disposes the scope, every scope below it and every node that they own,
    /// and says whether it did: a scope that is not alive is left as it is,
    /// and so is everything else. A disposed signal or computation drops out
    /// of every subscriber set, and a disposed effect is never handed out by a
    /// flush again.
    pub fn dispose(&mut self, scope: ScopeId) -> (disposed: bool)
        requires
            old(self).wf(),
        ensures
            final(self).wf(),
            disposed == old(self)@.live_scope(scope.0),
            final(self)@ == old(self)@.disposed(scope.0),
    {
        if !self.is_scope_alive(scope) {
            return false;
        }
        let root = scope.0;
        let ghost before = self@;
        let below = self.subtree(root);
        let count = self.kinds.len();
        let mut doomed: Vec<bool> = Vec::new();
        let mut node: usize = 0;
        while node < count
            invariant
                node <= count,
                count == before.kinds.len(),
                before.wf(),
                below@.len() == before.parents.len(),
                forall|k: int|
                    0 <= k < below@.len() ==> #[trigger] below@[k] == in_subtree(
                        before.parents,
                        k as usize,
                        root,
                    ),
                self.kinds@ == before.kinds,
                self.owners@ == before.owners,
                self.stale@ == before.stale,
                self.parents@ == before.parents,
                self.scope_alive@ == before.scope_alive,
                self.edges@ == before.edges,
                self.running@ == before.running,
                self.pending@ == before.pending,
                self.deferred@ == before.deferred,
                self.ran@ == before.ran,
                self.flushing == before.flushing,
                self.current == before.current,
                self.always_notify == before.always_notify,
                doomed@.len() == node,
                forall|k: int| 0 <= k < node ==> #[trigger] doomed@[k] == before.doomed(root)[k],
                self.alive@.len() == count,
                self.values@.len() == count,
                forall|k: int|
                    0 <= k < count ==> #[trigger] self.alive@[k] == (before.alive[k] && !(k < node
                        && before.doomed(root)[k])),
                forall|k: int|
                    0 <= k < count ==> #[trigger] self.values@[k] == (if k < node
                        && before.doomed(root)[k] {
                        None
                    } else {
                        before.values[k]
                    }),
            decreases count - node,
        {
            let owner = self.owners[node];
            assert(owner < before.parents.len());
            let gone = below[owner];
            doomed.push(gone);
            if gone {
                self.alive[node] = false;
                self.values[node] = None;
            }
            node = node + 1;
        }
        let scopes = self.parents.len();
        let mut index: usize = 0;
        while index < scopes
            invariant
                index <= scopes,
                scopes == before.parents.len(),
                before.wf(),
                below@.len() == before.parents.len(),
                forall|k: int|
                    0 <= k < below@.len() ==> #[trigger] below@[k] == in_subtree(
                        before.parents,
                        k as usize,
                        root,
                    ),
                self.kinds@ == before.kinds,
                self.owners@ == before.owners,
                self.stale@ == before.stale,
                self.parents@ == before.parents,
                self.edges@ == before.edges,
                self.running@ == before.running,
                self.pending@ == before.pending,
                self.deferred@ == before.deferred,
                self.ran@ == before.ran,
                self.flushing == before.flushing,
                self.current == before.current,
                self.always_notify == before.always_notify,
                self.alive@ == before.disposed(root).alive,
                self.values@ == before.disposed(root).values,
                doomed@ == before.doomed(root),
                self.scope_alive@.len() == scopes,
                forall|k: int|
                    0 <= k < scopes ==> #[trigger] self.scope_alive@[k] == (before.scope_alive[k]
                        && !(k < index && in_subtree(before.parents, k as usize, root))),
            decreases scopes - index,
        {
            if below[index] {
                self.scope_alive[index] = false;
            }
            index = index + 1;
        }
        proof {
            lemma_filter_keeps(self.edges@, ends_unmarked(doomed@));
            lemma_filter_keeps(self.pending@, is_unmarked(doomed@));
            lemma_filter_keeps(self.deferred@, is_unmarked(doomed@));
        }
        self.edges = without_marked_ends(&self.edges, &doomed);
        self.pending = without_marked(&self.pending, &doomed);
        self.deferred = without_marked(&self.deferred, &doomed);
        if below[self.current] {
            match self.parents[root] {
                Some(parent) => {
                    self.current = parent;
                },
                None => {},
            }
        }
        proof {
            let after = before.disposed(root);
            assert(self.scope_alive@ =~= after.scope_alive);
            assert(self@ == after);
            assert forall|i: int| 0 <= i < self.pending@.len() implies !self.deferred@.contains(
                #[trigger] self.pending@[i],
            ) by {
                let x = self.pending@[i];
                assert(before.pending.contains(x));
                if self.deferred@.contains(x) {
                    let k = choose|k: int| 0 <= k < self.deferred@.len() && self.deferred@[k] == x;
                    assert(before.deferred.contains(self.deferred@[k]));
                }
            }
            assert forall|i: int| 0 <= i < self.pending@.len() implies !self.ran@.contains(
                #[trigger] self.pending@[i],
            ) by {
                assert(before.pending.contains(self.pending@[i]));
            }
        }
        true
    }

    /// Whether a flush is in progress.
    pub fn is_flushing(&self) -> (flushing: bool)
        ensures
            flushing == self@.flushing,
    {
        self.flushing
    }

    /// Whether the derived computation exists and has not been disposed.
    pub fn is_derived_alive(&self, derived: DerivedId) -> (alive: bool)
        requires
            self.wf(),
        ensures
            alive == self@.live_derived(derived.0),
    {
        self.is_live(derived.0, NodeKind::Derived)
    }

    /// Whether the effect exists and has not been disposed.
    pub fn is_effect_alive(&self, effect: EffectId) -> (alive: bool)
        requires
            self.wf(),
        ensures
            alive == self@.live_effect(effect.0),
    {
        self.is_live(effect.0, NodeKind::Effect)
    }

    /// Whether something that the derived computation depends on has changed
    /// since its last run began. Fails where the computation is not alive.
    pub fn is_stale(&self, derived: DerivedId) -> (stale: Result<bool, ReactiveError>)
        requires
            self.wf(),
        ensures
            match stale {
                Ok(stale) => self@.live_derived(derived.0) && stale == self@.stale[derived.0 as int],
                Err(error) => !self@.live_derived(derived.0) && error
                    == ReactiveError::UseAfterDispose,
            },
    {
        if !self.is_live(derived.0, NodeKind::Derived) {
            return Err(ReactiveError::UseAfterDispose);
        }
        Ok(self.stale[derived.0])
    }

    /// Whether the effect waits for a flush to run it.
    pub fn is_scheduled(&self, effect: EffectId) -> (scheduled: bool)
        ensures
            scheduled == self@.scheduled(effect.0),
    {
        holds(&self.pending, effect.0) || holds(&self.deferred, effect.0)
    }

    /// Whether `subscriber` is registered as a reader of `source`.
    pub fn is_subscribed(&self, source: usize, subscriber: usize) -> (subscribed: bool)
        ensures
            subscribed == self@.subscribed(source, subscriber),
    {
        holds_edge(&self.edges, source, subscriber)
    }

    /// The computations that read `source` during their last run, in the
    /// order in which they subscribed.
    pub fn subscribers(&self, source: usize) -> (found: Vec<usize>)
        ensures
            found@ == self@.subscribers(source),
    {
        subscribers(&self.edges, source)
    }

    /// The sources that `computation` read during its last run, in the order
    /// in which it read them.
    pub fn dependencies(&self, computation: usize) -> (found: Vec<usize>)
        ensures
            found@ == self@.dependencies(computation),
    {
        sources(&self.edges, computation)
    }

    /// The number of effects in the batch at hand.
    pub fn pending_count(&self) -> (count: usize)
        ensures
            count == self@.pending.len(),
    {
        self.pending.len()
    }
}

} // verus!
