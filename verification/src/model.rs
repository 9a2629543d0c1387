//! The mathematical model of the reactive runtime: its state as sequences,
//! and every operation as a function from state to state.

use crate::graph::{
    edge, ends_unmarked, is_not, is_unmarked, not_read_by, reaches, sources_in, subscribers_in,
    Edge,
};
use vstd::prelude::*;
use vstd::std_specs::cmp::PartialEqSpec;

verus! {

/// What a node of the reactive graph is.
#[derive(Clone, Copy, Debug, PartialEq, Eq, Structural)]
pub enum NodeKind {
    /// A cell that is written from outside and read by computations.
    Signal,
    /// A memoized computation: it reads sources and is itself a source.
    Derived,
    /// A computation with side effects, re-run by the scheduler.
    Effect,
}

/// The state of a runtime. A node is an index into the first five sequences,
/// a scope an index into the next two.
pub struct RuntimeView<T> {
    /// What each node is.
    pub kinds: Seq<NodeKind>,
    /// Whether each node is alive: false once its owning scope has been disposed.
    pub alive: Seq<bool>,
    /// The scope that owns each node.
    pub owners: Seq<usize>,
    /// A signal's current value or a derived computation's cached value.
    pub values: Seq<Option<T>>,
    /// For a derived computation: the cache must be recomputed before it is read.
    pub stale: Seq<bool>,
    /// The parent of each scope; scope 0 is the root.
    pub parents: Seq<Option<usize>>,
    /// Whether each scope is alive.
    pub scope_alive: Seq<bool>,
    /// Who read whom during their last run.
    pub edges: Seq<Edge>,
    /// The computations that are running, innermost last.
    pub running: Seq<usize>,
    /// The effects scheduled for the batch at hand, in the order in which they will run.
    pub pending: Seq<usize>,
    /// The effects scheduled for the batch after the one being flushed.
    pub deferred: Seq<usize>,
    /// The effects that the flush in progress has already handed out.
    pub ran: Seq<usize>,
    /// A flush is in progress.
    pub flushing: bool,
    /// The scope under which new nodes and scopes are created.
    pub current: usize,
    /// A write notifies even when the value is equal to the one before.
    pub always_notify: bool,
}

/// The ids below `count`, ascending.
pub open spec fn ids_below(count: nat) -> Seq<usize> {
    Seq::new(count, |i: int| i as usize)
}

/// Scope `scope` is `root` or lies below it in the scope tree.
pub open spec fn in_subtree(parents: Seq<Option<usize>>, scope: usize, root: usize) -> bool
    decreases scope,
{
    scope < parents.len() && (scope == root || match parents[scope as int] {
        Some(parent) => parent < scope && in_subtree(parents, parent, root),
        None => false,
    })
}

/// Every scope but the root lies under a scope that was created before it.
pub open spec fn parents_ok(parents: Seq<Option<usize>>) -> bool {
    forall|i: int|
        0 <= i < parents.len() ==> match #[trigger] parents[i] {
            Some(parent) => parent < i,
            None => true,
        }
}

/// Every node is owned by a scope that exists.
pub open spec fn owners_ok(owners: Seq<usize>, scopes: nat) -> bool {
    forall|i: int| 0 <= i < owners.len() ==> (#[trigger] owners[i]) < scopes
}

/// A live signal holds a value.
pub open spec fn values_ok<T>(
    kinds: Seq<NodeKind>,
    alive: Seq<bool>,
    values: Seq<Option<T>>,
) -> bool {
    forall|i: int|
        0 <= i < kinds.len() && alive[i] && kinds[i] == NodeKind::Signal ==> (
        #[trigger] values[i]) is Some
}

/// Every edge leads from a live source to a live computation.
pub open spec fn edges_ok(kinds: Seq<NodeKind>, alive: Seq<bool>, edges: Seq<Edge>) -> bool {
    forall|i: int|
        0 <= i < edges.len() ==> {
            let e = #[trigger] edges[i];
            &&& e.source < kinds.len()
            &&& e.subscriber < kinds.len()
            &&& alive[e.source as int]
            &&& alive[e.subscriber as int]
            &&& kinds[e.source as int] != NodeKind::Effect
            &&& kinds[e.subscriber as int] != NodeKind::Signal
        }
}

/// Only computations run.
pub open spec fn running_ok(kinds: Seq<NodeKind>, running: Seq<usize>) -> bool {
    forall|i: int|
        0 <= i < running.len() ==> (#[trigger] running[i]) < kinds.len()
            && kinds[running[i] as int] != NodeKind::Signal
}

/// A queue of the scheduler holds live effects, each at most once.
pub open spec fn queue_ok(kinds: Seq<NodeKind>, alive: Seq<bool>, queue: Seq<usize>) -> bool {
    &&& queue.no_duplicates()
    &&& forall|i: int|
        0 <= i < queue.len() ==> (#[trigger] queue[i]) < kinds.len() && alive[queue[i] as int]
            && kinds[queue[i] as int] == NodeKind::Effect
}

/// No entry of `left` is an entry of `right`.
pub open spec fn apart(left: Seq<usize>, right: Seq<usize>) -> bool {
    forall|i: int| 0 <= i < left.len() ==> !right.contains(#[trigger] left[i])
}

/// Every id is below `count`.
pub open spec fn ids_ok(ids: Seq<usize>, count: nat) -> bool {
    forall|i: int| 0 <= i < ids.len() ==> (#[trigger] ids[i]) < count
}

impl<T> RuntimeView<T> {
    /// A runtime with nothing in it but a live root scope.
    pub open spec fn initial() -> Self {
        RuntimeView {
            kinds: Seq::empty(),
            alive: Seq::empty(),
            owners: Seq::empty(),
            values: Seq::empty(),
            stale: Seq::empty(),
            parents: seq![None],
            scope_alive: seq![true],
            edges: Seq::empty(),
            running: Seq::empty(),
            pending: Seq::empty(),
            deferred: Seq::empty(),
            ran: Seq::empty(),
            flushing: false,
            current: 0,
            always_notify: false,
        }
    }

    /// The scope exists and has not been disposed.
    pub open spec fn live_scope(self, scope: usize) -> bool {
        scope < self.scope_alive.len() && self.scope_alive[scope as int]
    }

    /// The node exists and has not been disposed.
    pub open spec fn node_alive(self, node: usize) -> bool {
        node < self.alive.len() && self.alive[node as int]
    }

    /// The node exists and is an effect.
    pub open spec fn is_effect(self, node: usize) -> bool {
        node < self.kinds.len() && self.kinds[node as int] == NodeKind::Effect
    }

    /// The node exists and is a derived computation.
    pub open spec fn is_derived(self, node: usize) -> bool {
        node < self.kinds.len() && self.kinds[node as int] == NodeKind::Derived
    }

    /// The node is a signal that has not been disposed.
    pub open spec fn live_signal(self, node: usize) -> bool {
        self.node_alive(node) && self.kinds[node as int] == NodeKind::Signal
    }

    /// The node is a derived computation that has not been disposed.
    pub open spec fn live_derived(self, node: usize) -> bool {
        self.node_alive(node) && self.kinds[node as int] == NodeKind::Derived
    }

    /// The node is an effect that has not been disposed.
    pub open spec fn live_effect(self, node: usize) -> bool {
        self.node_alive(node) && self.kinds[node as int] == NodeKind::Effect
    }

    /// The derived computation holds a value that can be read: it has been
    /// computed, nothing that it depends on has changed since, and it is not
    /// being recomputed.
    pub open spec fn fresh(self, derived: usize) -> bool {
        &&& !self.stale[derived as int]
        &&& self.values[derived as int] is Some
        &&& !self.running.contains(derived)
    }

    /// The effect waits for a flush to run it.
    pub open spec fn scheduled(self, node: usize) -> bool {
        self.pending.contains(node) || self.deferred.contains(node)
    }

    /// `subscriber` is registered as a reader of `source`.
    pub open spec fn subscribed(self, source: usize, subscriber: usize) -> bool {
        self.edges.contains(edge(source, subscriber))
    }

    /// The computations that read `source` during their last run, in the
    /// order in which they subscribed.
    pub open spec fn subscribers(self, source: usize) -> Seq<usize> {
        subscribers_in(self.edges, source)
    }

    /// The sources that `computation` read during its last run, in the order
    /// in which it read them.
    pub open spec fn dependencies(self, computation: usize) -> Seq<usize> {
        sources_in(self.edges, computation)
    }

    /// The sequences that describe nodes have one length, and so have those
    /// that describe scopes.
    pub open spec fn sizes_ok(self) -> bool {
        &&& self.kinds.len() <= usize::MAX
        &&& self.alive.len() == self.kinds.len()
        &&& self.owners.len() == self.kinds.len()
        &&& self.values.len() == self.kinds.len()
        &&& self.stale.len() == self.kinds.len()
        &&& self.parents.len() <= usize::MAX
        &&& self.scope_alive.len() == self.parents.len()
        &&& self.current < self.parents.len()
    }

    /// While no flush is in progress nothing is deferred and nothing has run.
    pub open spec fn idle_ok(self) -> bool {
        !self.flushing ==> self.deferred.len() == 0 && self.ran.len() == 0
    }

    /// The invariant of every runtime.
    pub open spec fn wf(self) -> bool {
        &&& self.sizes_ok()
        &&& parents_ok(self.parents)
        &&& owners_ok(self.owners, self.parents.len())
        &&& values_ok(self.kinds, self.alive, self.values)
        &&& edges_ok(self.kinds, self.alive, self.edges)
        &&& running_ok(self.kinds, self.running)
        &&& queue_ok(self.kinds, self.alive, self.pending)
        &&& queue_ok(self.kinds, self.alive, self.deferred)
        &&& apart(self.pending, self.deferred)
        &&& apart(self.pending, self.ran)
        &&& ids_ok(self.ran, self.kinds.len())
        &&& self.idle_ok()
    }

    /// A new scope under `parent`; its id is the number of scopes before.
    pub open spec fn with_scope_under(self, parent: usize) -> Self {
        RuntimeView {
            parents: self.parents.push(Some(parent)),
            scope_alive: self.scope_alive.push(true),
            ..self
        }
    }

    /// A new scope under the current one; its id is the number of scopes before.
    pub open spec fn with_scope(self) -> Self {
        self.with_scope_under(self.current)
    }

    /// `count` new scopes under `parent`, one after the other.
    pub open spec fn with_scopes_under(self, parent: usize, count: nat) -> Self
        decreases count,
    {
        if count == 0 {
            self
        } else {
            self.with_scopes_under(parent, (count - 1) as nat).with_scope_under(parent)
        }
    }

    /// The current scope becomes `scope`.
    pub open spec fn entered(self, scope: usize) -> Self {
        RuntimeView { current: scope, ..self }
    }

    /// A new node under the current scope; its id is the number of nodes before.
    pub open spec fn with_node(self, kind: NodeKind, value: Option<T>, stale: bool) -> Self {
        RuntimeView {
            kinds: self.kinds.push(kind),
            alive: self.alive.push(true),
            owners: self.owners.push(self.current),
            values: self.values.push(value),
            stale: self.stale.push(stale),
            ..self
        }
    }

    /// A new effect, scheduled for its first run.
    pub open spec fn with_effect(self) -> Self {
        RuntimeView {
            pending: self.pending.push(self.kinds.len() as usize),
            ..self.with_node(NodeKind::Effect, None, false)
        }
    }

    /// The computation with which reads register, if there is one: the
    /// innermost running computation, unless it has been disposed.
    pub open spec fn reader(self) -> Option<usize> {
        if self.running.len() > 0 && self.node_alive(self.running.last()) {
            Some(self.running.last())
        } else {
            None
        }
    }

    /// `source` has been read: the running computation is now among its subscribers.
    pub open spec fn observed(self, source: usize) -> Self {
        match self.reader() {
            Some(reader) => if self.subscribed(source, reader) {
                self
            } else {
                RuntimeView { edges: self.edges.push(edge(source, reader)), ..self }
            },
            None => self,
        }
    }

    /// The effect is not scheduled yet and a change to `source` reaches it.
    pub open spec fn newly_reached(self, source: usize, node: usize) -> bool {
        &&& self.is_effect(node)
        &&& reaches(self.edges, source, node)
        &&& !self.scheduled(node)
    }

    /// The effect has already run in the flush in progress.
    pub open spec fn ran_in_flush(self, node: usize) -> bool {
        self.flushing && self.ran.contains(node)
    }

    /// The effects that a change to `source` adds to the batch at hand.
    pub open spec fn joins_batch(self, source: usize) -> spec_fn(usize) -> bool {
        |n: usize| self.newly_reached(source, n) && !self.ran_in_flush(n)
    }

    /// The effects that a change to `source` schedules for the batch after this one.
    pub open spec fn joins_next_batch(self, source: usize) -> spec_fn(usize) -> bool {
        |n: usize| self.newly_reached(source, n) && self.ran_in_flush(n)
    }

    /// `source` has changed. Every derived computation that the change reaches
    /// is stale. Every effect that it reaches and that is not scheduled yet is
    /// scheduled, in the order of the ids: for the batch after this one if the
    /// flush in progress has already run it, else for the batch at hand.
    pub open spec fn notified(self, source: usize) -> Self {
        RuntimeView {
            stale: Seq::new(
                self.stale.len(),
                |i: int|
                    self.stale[i] || (self.is_derived(i as usize) && reaches(
                        self.edges,
                        source,
                        i as usize,
                    )),
            ),
            pending: self.pending + ids_below(self.kinds.len()).filter(self.joins_batch(source)),
            deferred: self.deferred + ids_below(self.kinds.len()).filter(
                self.joins_next_batch(source),
            ),
            ..self
        }
    }

    /// The node holds `value`.
    pub open spec fn stored(self, node: usize, value: T) -> Self {
        RuntimeView { values: self.values.update(node as int, Some(value)), ..self }
    }

    /// `value` has been written to the signal; `changed` says whether the
    /// write counts as a change.
    pub open spec fn written(self, signal: usize, value: T, changed: bool) -> Self {
        if changed {
            self.stored(signal, value).notified(signal)
        } else {
            self.stored(signal, value)
        }
    }

    /// The computation starts a run: what it read before is forgotten, it is
    /// no longer scheduled, and reads register with it from now on.
    pub open spec fn begun(self, computation: usize) -> Self {
        RuntimeView {
            edges: self.edges.filter(not_read_by(computation)),
            pending: self.pending.filter(is_not(computation)),
            deferred: self.deferred.filter(is_not(computation)),
            running: self.running.push(computation),
            ..self
        }
    }

    /// The derived computation starts a run, as any computation does, and is
    /// no longer marked stale: a change that reaches it during the run marks
    /// it again.
    pub open spec fn begun_derived(self, derived: usize) -> Self {
        RuntimeView { stale: self.stale.update(derived as int, false), ..self.begun(derived) }
    }

    /// The node is the innermost running computation.
    pub open spec fn innermost(self, computation: usize) -> bool {
        self.running.len() > 0 && self.running.last() == computation
    }

    /// The innermost running computation has ended its run.
    pub open spec fn ended(self) -> Self {
        RuntimeView { running: self.running.drop_last(), ..self }
    }

    /// The derived computation has ended its run with `value`.
    pub open spec fn completed(self, derived: usize, value: T) -> Self {
        self.stored(derived, value).ended()
    }

    /// For each node, whether disposing `root` disposes it: whether a scope
    /// in the subtree of `root` owns it.
    pub open spec fn doomed(self, root: usize) -> Seq<bool> {
        Seq::new(self.kinds.len(), |i: int| in_subtree(self.parents, self.owners[i], root))
    }

    /// The scope `root` has been disposed, with every scope below it: their
    /// nodes are dead and hold no value, no edge touches them and none of them
    /// is scheduled. If the current scope was among them, the parent of `root`
    /// is current.
    pub open spec fn disposed(self, root: usize) -> Self {
        if !self.live_scope(root) {
            self
        } else {
            RuntimeView {
                alive: Seq::new(
                    self.alive.len(),
                    |i: int| self.alive[i] && !self.doomed(root)[i],
                ),
                values: Seq::new(
                    self.values.len(),
                    |i: int|
                        if self.doomed(root)[i] {
                            None
                        } else {
                            self.values[i]
                        },
                ),
                scope_alive: Seq::new(
                    self.scope_alive.len(),
                    |i: int| self.scope_alive[i] && !in_subtree(self.parents, i as usize, root),
                ),
                edges: self.edges.filter(ends_unmarked(self.doomed(root))),
                pending: self.pending.filter(is_unmarked(self.doomed(root))),
                deferred: self.deferred.filter(is_unmarked(self.doomed(root))),
                current: if in_subtree(self.parents, self.current, root) {
                    match self.parents[root as int] {
                        Some(parent) => parent,
                        None => self.current,
                    }
                } else {
                    self.current
                },
                ..self
            }
        }
    }

    /// The state after `steps` steps of the flush in progress, where each
    /// effect that is handed out ends its run without a read or a write.
    pub open spec fn stepped_quietly(self, steps: nat) -> Self
        decreases steps,
    {
        if steps == 0 {
            self
        } else {
            self.stepped_quietly((steps - 1) as nat).stepped().ended()
        }
    }

    /// The scopes of `roots` have been disposed, one after the other.
    pub open spec fn disposed_each(self, roots: Seq<usize>) -> Self
        decreases roots.len(),
    {
        if roots.len() == 0 {
            self
        } else {
            self.disposed_each(roots.drop_last()).disposed(roots.last())
        }
    }

    /// A flush has started.
    pub open spec fn flush_begun(self) -> Self {
        RuntimeView { flushing: true, ..self }
    }

    /// The effect that the flush in progress runs next, if the batch holds one.
    pub open spec fn next_up(self) -> Option<usize> {
        if self.flushing && self.pending.len() > 0 {
            Some(self.pending[0])
        } else {
            None
        }
    }

    /// One step of the flush in progress: the first effect of the batch starts
    /// its run; where the batch is empty, the flush ends and what was deferred
    /// becomes the next batch.
    pub open spec fn stepped(self) -> Self {
        if !self.flushing {
            self
        } else if self.pending.len() > 0 {
            RuntimeView { ran: self.ran.push(self.pending[0]), ..self }.begun(self.pending[0])
        } else {
            RuntimeView {
                flushing: false,
                pending: self.deferred,
                deferred: Seq::empty(),
                ran: Seq::empty(),
                ..self
            }
        }
    }
}

impl<T: PartialEq> RuntimeView<T> {
    /// Writing `value` to the signal counts as a change.
    pub open spec fn changes(self, signal: usize, value: T) -> bool {
        self.always_notify || match self.values[signal as int] {
            Some(before) => !before.eq_spec(&value),
            None => true,
        }
    }
}

} // verus!
