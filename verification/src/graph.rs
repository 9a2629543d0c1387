//! The tracking relation between reactive nodes: who read whom, and what a
//! change to one node reaches.

use vstd::prelude::*;

verus! {

/// One tracking relationship: `subscriber` read `source` during its last run.
#[derive(Clone, Copy, Debug)]
pub struct Edge {
    pub source: usize,
    pub subscriber: usize,
}

/// The edge from `source` to `subscriber`.
pub open spec fn edge(source: usize, subscriber: usize) -> Edge {
    Edge { source, subscriber }
}

/// `to` can be reached from `from` by following at least one and at most
/// `steps` edges, each from a source to one of its subscribers.
pub open spec fn reaches_within(edges: Seq<Edge>, from: usize, to: usize, steps: nat) -> bool
    decreases steps,
{
    steps > 0 && (edges.contains(edge(from, to)) || exists|mid: usize|
        #[trigger] edges.contains(edge(mid, to)) && reaches_within(
            edges,
            from,
            mid,
            (steps - 1) as nat,
        ))
}

/// A change to `from` reaches `to`: there is a non-empty path of edges between them.
pub open spec fn reaches(edges: Seq<Edge>, from: usize, to: usize) -> bool {
    exists|steps: nat| reaches_within(edges, from, to, steps)
}

/// Every edge joins two nodes below `count`.
pub open spec fn edges_below(edges: Seq<Edge>, count: nat) -> bool {
    forall|i: int|
        0 <= i < edges.len() ==> (#[trigger] edges[i]).source < count && edges[i].subscriber
            < count
}

/// `marks` is closed under the edges when `from` counts as marked.
pub open spec fn closed_under(edges: Seq<Edge>, from: usize, marks: Seq<bool>) -> bool {
    forall|i: int|
        0 <= i < edges.len() && ((#[trigger] edges[i]).source == from
            || marks[edges[i].source as int]) ==> marks[edges[i].subscriber as int]
}

/// How many entries of `marks` are still false.
pub open spec fn unmarked(marks: Seq<bool>) -> nat
    decreases marks.len(),
{
    if marks.len() == 0 {
        0
    } else {
        unmarked(marks.drop_last()) + if marks.last() {
            0nat
        } else {
            1nat
        }
    }
}

/// Setting a false mark leaves one unmarked entry fewer.
pub proof fn lemma_mark_decreases(marks: Seq<bool>, i: int)
    requires
        0 <= i < marks.len(),
        !marks[i],
    ensures
        unmarked(marks.update(i, true)) + 1 == unmarked(marks),
    decreases marks.len(),
{
    let after = marks.update(i, true);
    if i == marks.len() - 1 {
        assert(after.drop_last() =~= marks.drop_last());
    } else {
        lemma_mark_decreases(marks.drop_last(), i);
        assert(after.drop_last() =~= marks.drop_last().update(i, true));
    }
}

/// A direct subscriber is reached.
pub proof fn lemma_reaches_direct(edges: Seq<Edge>, from: usize, to: usize)
    requires
        edges.contains(edge(from, to)),
    ensures
        reaches(edges, from, to),
{
    assert(reaches_within(edges, from, to, 1));
}

/// What is reached stays reached one edge further on.
pub proof fn lemma_reaches_step(edges: Seq<Edge>, from: usize, mid: usize, to: usize)
    requires
        reaches(edges, from, mid),
        edges.contains(edge(mid, to)),
    ensures
        reaches(edges, from, to),
{
    let steps = choose|steps: nat| reaches_within(edges, from, mid, steps);
    assert(reaches_within(edges, from, to, steps + 1));
}

/// Whatever is reached is the subscriber of some edge.
pub proof fn lemma_reached_is_subscriber(edges: Seq<Edge>, from: usize, to: usize)
    requires
        reaches(edges, from, to),
    ensures
        exists|source: usize| #[trigger] edges.contains(edge(source, to)),
{
    let steps = choose|steps: nat| reaches_within(edges, from, to, steps);
    if edges.contains(edge(from, to)) {
    } else {
        let mid = choose|mid: usize|
            #[trigger] edges.contains(edge(mid, to)) && reaches_within(
                edges,
                from,
                mid,
                (steps - 1) as nat,
            );
        assert(edges.contains(edge(mid, to)));
    }
}

/// Nothing is reached from a node that no edge names as its source.
pub proof fn lemma_no_subscribers_reaches_nothing(edges: Seq<Edge>, from: usize, to: usize)
    requires
        forall|i: int| 0 <= i < edges.len() ==> (#[trigger] edges[i]).source != from,
    ensures
        !reaches(edges, from, to),
{
    assert forall|steps: nat| !reaches_within(edges, from, to, steps) by {
        lemma_no_subscribers_within(edges, from, to, steps);
    }
}

/// Nothing is reached within any number of steps from a node that no edge
/// names as its source.
proof fn lemma_no_subscribers_within(edges: Seq<Edge>, from: usize, to: usize, steps: nat)
    requires
        forall|i: int| 0 <= i < edges.len() ==> (#[trigger] edges[i]).source != from,
    ensures
        !reaches_within(edges, from, to, steps),
    decreases steps,
{
    if steps > 0 {
        assert forall|mid: usize|
            !(#[trigger] edges.contains(edge(mid, to)) && reaches_within(
                edges,
                from,
                mid,
                (steps - 1) as nat,
            )) by {
            lemma_no_subscribers_within(edges, from, mid, (steps - 1) as nat);
        }
    }
}

/// A closed set of marks holds everything that is reached.
proof fn lemma_closed_holds_reached(
    edges: Seq<Edge>,
    from: usize,
    marks: Seq<bool>,
    to: usize,
    steps: nat,
)
    requires
        edges_below(edges, marks.len()),
        closed_under(edges, from, marks),
        reaches_within(edges, from, to, steps),
    ensures
        to < marks.len(),
        marks[to as int],
    decreases steps,
{
    if edges.contains(edge(from, to)) {
        let i = choose|i: int| 0 <= i < edges.len() && edges[i] == edge(from, to);
        assert(edges[i].source == from);
    } else {
        let mid = choose|mid: usize|
            #[trigger] edges.contains(edge(mid, to)) && reaches_within(
                edges,
                from,
                mid,
                (steps - 1) as nat,
            );
        lemma_closed_holds_reached(edges, from, marks, mid, (steps - 1) as nat);
        let i = choose|i: int| 0 <= i < edges.len() && edges[i] == edge(mid, to);
        assert(marks[edges[i].source as int]);
    }
}

/// Marks every node that a change to `from` reaches.
pub fn mark_reachable(edges: &Vec<Edge>, count: usize, from: usize) -> (marks: Vec<bool>)
    requires
        edges_below(edges@, count as nat),
    ensures
        marks@.len() == count,
        forall|n: usize| n < count ==> (marks@[n as int] <==> reaches(edges@, from, n)),
        forall|n: usize| reaches(edges@, from, n) ==> n < count,
{
    let mut marks: Vec<bool> = Vec::new();
    let mut k: usize = 0;
    while k < count
        invariant
            k <= count,
            marks@.len() == k,
            forall|n: int| 0 <= n < k ==> !marks@[n],
        decreases count - k,
    {
        marks.push(false);
        k = k + 1;
    }
    let mut changed: bool = true;
    while changed
        invariant
            marks@.len() == count,
            edges_below(edges@, count as nat),
            forall|n: usize| n < count && marks@[n as int] ==> reaches(edges@, from, n),
            !changed ==> closed_under(edges@, from, marks@),
        decreases unmarked(marks@) + if changed { 1nat } else { 0nat },
    {
        changed = false;
        let ghost before = marks@;
        let mut j: usize = 0;
        while j < edges.len()
            invariant
                j <= edges@.len(),
                marks@.len() == count,
                edges_below(edges@, count as nat),
                forall|n: usize| n < count && marks@[n as int] ==> reaches(edges@, from, n),
                changed ==> unmarked(marks@) < unmarked(before),
                !changed ==> marks@ == before,
                !changed ==> forall|i: int|
                    0 <= i < j && ((#[trigger] edges@[i]).source == from
                        || marks@[edges@[i].source as int]) ==> marks@[edges@[i].subscriber as int],
            decreases edges@.len() - j,
        {
            let edge = edges[j];
            assert(edges@.contains(edge));
            if (edge.source == from || marks[edge.source]) && !marks[edge.subscriber] {
                proof {
                    if edge.source == from {
                        lemma_reaches_direct(edges@, from, edge.subscriber);
                    } else {
                        lemma_reaches_step(edges@, from, edge.source, edge.subscriber);
                    }
                    lemma_mark_decreases(marks@, edge.subscriber as int);
                }
                marks[edge.subscriber] = true;
                changed = true;
            }
            j = j + 1;
        }
    }
    proof {
        assert forall|n: usize| reaches(edges@, from, n) implies n < count && marks@[n as int] by {
            let steps = choose|steps: nat| reaches_within(edges@, from, n, steps);
            lemma_closed_holds_reached(edges@, from, marks@, n, steps);
        }
    }
    marks
}

/// Whether `ids` holds `id`.
pub fn holds(ids: &Vec<usize>, id: usize) -> (found: bool)
    ensures
        found == ids@.contains(id),
{
    let mut i: usize = 0;
    while i < ids.len()
        invariant
            i <= ids@.len(),
            forall|k: int| 0 <= k < i ==> ids@[k] != id,
        decreases ids@.len() - i,
    {
        if ids[i] == id {
            return true;
        }
        i = i + 1;
    }
    false
}

/// Whether `edges` holds the edge from `source` to `subscriber`.
pub fn holds_edge(edges: &Vec<Edge>, source: usize, subscriber: usize) -> (found: bool)
    ensures
        found == edges@.contains(edge(source, subscriber)),
{
    let mut i: usize = 0;
    while i < edges.len()
        invariant
            i <= edges@.len(),
            forall|k: int| 0 <= k < i ==> edges@[k] != edge(source, subscriber),
        decreases edges@.len() - i,
    {
        if edges[i].source == source && edges[i].subscriber == subscriber {
            return true;
        }
        i = i + 1;
    }
    false
}

/// `id` is marked; an id beyond the marks is not.
pub open spec fn marked(marks: Seq<bool>, id: usize) -> bool {
    id < marks.len() && marks[id as int]
}

/// The ids other than `id`.
pub open spec fn is_not(id: usize) -> spec_fn(usize) -> bool {
    |other: usize| other != id
}

/// The ids that `marks` does not mark.
pub open spec fn is_unmarked(marks: Seq<bool>) -> spec_fn(usize) -> bool {
    |id: usize| !marked(marks, id)
}

/// The edges whose subscriber is not `node`.
pub open spec fn not_read_by(node: usize) -> spec_fn(Edge) -> bool {
    |e: Edge| e.subscriber != node
}

/// The edges that touch no marked node.
pub open spec fn ends_unmarked(marks: Seq<bool>) -> spec_fn(Edge) -> bool {
    |e: Edge| !marked(marks, e.source) && !marked(marks, e.subscriber)
}

/// The ids of `ids` other than `id`, in their order.
pub fn without_id(ids: &Vec<usize>, id: usize) -> (kept: Vec<usize>)
    ensures
        kept@ == ids@.filter(is_not(id)),
{
    let ghost keep = is_not(id);
    let mut kept: Vec<usize> = Vec::new();
    let mut i: usize = 0;
    proof {
        reveal(Seq::filter);
        assert(ids@.take(0) =~= Seq::<usize>::empty());
    }
    while i < ids.len()
        invariant
            i <= ids@.len(),
            keep == is_not(id),
            kept@ == ids@.take(i as int).filter(keep),
        decreases ids@.len() - i,
    {
        proof {
            ids@.take(i as int).lemma_filter_push(ids@[i as int], keep);
            assert(ids@.take(i as int).push(ids@[i as int]) =~= ids@.take(i + 1));
        }
        if ids[i] != id {
            kept.push(ids[i]);
        }
        i = i + 1;
    }
    assert(ids@.take(ids@.len() as int) =~= ids@);
    kept
}

/// The ids of `ids` that `marks` does not mark, in their order.
pub fn without_marked(ids: &Vec<usize>, marks: &Vec<bool>) -> (kept: Vec<usize>)
    ensures
        kept@ == ids@.filter(is_unmarked(marks@)),
{
    let ghost keep = is_unmarked(marks@);
    let mut kept: Vec<usize> = Vec::new();
    let mut i: usize = 0;
    proof {
        reveal(Seq::filter);
        assert(ids@.take(0) =~= Seq::<usize>::empty());
    }
    while i < ids.len()
        invariant
            i <= ids@.len(),
            keep == is_unmarked(marks@),
            kept@ == ids@.take(i as int).filter(keep),
        decreases ids@.len() - i,
    {
        proof {
            ids@.take(i as int).lemma_filter_push(ids@[i as int], keep);
            assert(ids@.take(i as int).push(ids@[i as int]) =~= ids@.take(i + 1));
        }
        let id = ids[i];
        if !(id < marks.len() && marks[id]) {
            kept.push(id);
        }
        i = i + 1;
    }
    assert(ids@.take(ids@.len() as int) =~= ids@);
    kept
}

/// The edges of `edges` whose subscriber is not `node`, in their order.
pub fn without_subscriber(edges: &Vec<Edge>, node: usize) -> (kept: Vec<Edge>)
    ensures
        kept@ == edges@.filter(not_read_by(node)),
{
    let ghost keep = not_read_by(node);
    let mut kept: Vec<Edge> = Vec::new();
    let mut i: usize = 0;
    proof {
        reveal(Seq::filter);
        assert(edges@.take(0) =~= Seq::<Edge>::empty());
    }
    while i < edges.len()
        invariant
            i <= edges@.len(),
            keep == not_read_by(node),
            kept@ == edges@.take(i as int).filter(keep),
        decreases edges@.len() - i,
    {
        proof {
            edges@.take(i as int).lemma_filter_push(edges@[i as int], keep);
            assert(edges@.take(i as int).push(edges@[i as int]) =~= edges@.take(i + 1));
        }
        if edges[i].subscriber != node {
            kept.push(edges[i]);
        }
        i = i + 1;
    }
    assert(edges@.take(edges@.len() as int) =~= edges@);
    kept
}

/// The edges of `edges` that touch no marked node, in their order.
pub fn without_marked_ends(edges: &Vec<Edge>, marks: &Vec<bool>) -> (kept: Vec<Edge>)
    ensures
        kept@ == edges@.filter(ends_unmarked(marks@)),
{
    let ghost keep = ends_unmarked(marks@);
    let mut kept: Vec<Edge> = Vec::new();
    let mut i: usize = 0;
    proof {
        reveal(Seq::filter);
        assert(edges@.take(0) =~= Seq::<Edge>::empty());
    }
    while i < edges.len()
        invariant
            i <= edges@.len(),
            keep == ends_unmarked(marks@),
            kept@ == edges@.take(i as int).filter(keep),
        decreases edges@.len() - i,
    {
        proof {
            edges@.take(i as int).lemma_filter_push(edges@[i as int], keep);
            assert(edges@.take(i as int).push(edges@[i as int]) =~= edges@.take(i + 1));
        }
        let edge = edges[i];
        let source_marked = edge.source < marks.len() && marks[edge.source];
        let subscriber_marked = edge.subscriber < marks.len() && marks[edge.subscriber];
        if !source_marked && !subscriber_marked {
            kept.push(edge);
        }
        i = i + 1;
    }
    assert(edges@.take(edges@.len() as int) =~= edges@);
    kept
}

/// The edges that start at `source`.
pub open spec fn read_from(source: usize) -> spec_fn(Edge) -> bool {
    |e: Edge| e.source == source
}

/// The edges that end at `subscriber`.
pub open spec fn read_by(subscriber: usize) -> spec_fn(Edge) -> bool {
    |e: Edge| e.subscriber == subscriber
}

/// The subscribers of `source`, in the order in which they subscribed.
pub open spec fn subscribers_in(edges: Seq<Edge>, source: usize) -> Seq<usize> {
    edges.filter(read_from(source)).map_values(|e: Edge| e.subscriber)
}

/// The sources that `subscriber` read, in the order in which it read them.
pub open spec fn sources_in(edges: Seq<Edge>, subscriber: usize) -> Seq<usize> {
    edges.filter(read_by(subscriber)).map_values(|e: Edge| e.source)
}

/// The subscribers of `source`, in the order in which they subscribed.
pub fn subscribers(edges: &Vec<Edge>, source: usize) -> (found: Vec<usize>)
    ensures
        found@ == subscribers_in(edges@, source),
{
    let mut found: Vec<usize> = Vec::new();
    let mut i: usize = 0;
    proof {
        reveal(Seq::filter);
        assert(edges@.take(0) =~= Seq::<Edge>::empty());
        assert(found@ =~= subscribers_in(edges@.take(0), source));
    }
    while i < edges.len()
        invariant
            i <= edges@.len(),
            found@ == subscribers_in(edges@.take(i as int), source),
        decreases edges@.len() - i,
    {
        proof {
            edges@.take(i as int).lemma_filter_push(edges@[i as int], read_from(source));
            assert(edges@.take(i as int).push(edges@[i as int]) =~= edges@.take(i + 1));
        }
        if edges[i].source == source {
            found.push(edges[i].subscriber);
        }
        i = i + 1;
        assert(found@ =~= subscribers_in(edges@.take(i as int), source));
    }
    assert(edges@.take(edges@.len() as int) =~= edges@);
    found
}

/// The sources that `subscriber` read, in the order in which it read them.
pub fn sources(edges: &Vec<Edge>, subscriber: usize) -> (found: Vec<usize>)
    ensures
        found@ == sources_in(edges@, subscriber),
{
    let mut found: Vec<usize> = Vec::new();
    let mut i: usize = 0;
    proof {
        reveal(Seq::filter);
        assert(edges@.take(0) =~= Seq::<Edge>::empty());
        assert(found@ =~= sources_in(edges@.take(0), subscriber));
    }
    while i < edges.len()
        invariant
            i <= edges@.len(),
            found@ == sources_in(edges@.take(i as int), subscriber),
        decreases edges@.len() - i,
    {
        proof {
            edges@.take(i as int).lemma_filter_push(edges@[i as int], read_by(subscriber));
            assert(edges@.take(i as int).push(edges@[i as int]) =~= edges@.take(i + 1));
        }
        if edges[i].subscriber == subscriber {
            found.push(edges[i].source);
        }
        i = i + 1;
        assert(found@ =~= sources_in(edges@.take(i as int), subscriber));
    }
    assert(edges@.take(edges@.len() as int) =~= edges@);
    found
}

/// What a filter keeps: entries of the sequence that meet the predicate, each
/// entry that meets it, and no entry twice where the sequence had none twice.
pub proof fn lemma_filter_keeps<A>(items: Seq<A>, keep: spec_fn(A) -> bool)
    ensures
        forall|i: int|
            0 <= i < items.filter(keep).len() ==> items.contains(#[trigger] items.filter(keep)[i])
                && keep(items.filter(keep)[i]),
        forall|x: A| items.contains(x) && keep(x) ==> items.filter(keep).contains(x),
        items.no_duplicates() ==> items.filter(keep).no_duplicates(),
        items.filter(keep).len() <= items.len(),
    decreases items.len(),
{
    reveal(Seq::filter);
    if items.len() > 0 {
        let front = items.drop_last();
        let kept = front.filter(keep);
        lemma_filter_keeps(front, keep);
        assert forall|i: int| 0 <= i < items.filter(keep).len() implies items.contains(
            #[trigger] items.filter(keep)[i],
        ) && keep(items.filter(keep)[i]) by {
            if i < kept.len() {
                let k = choose|k: int| 0 <= k < front.len() && front[k] == kept[i];
                assert(items[k] == kept[i]);
            } else {
                assert(items[items.len() - 1] == items.last());
            }
        }
        assert forall|x: A| items.contains(x) && keep(x) implies items.filter(keep).contains(
            x,
        ) by {
            let k = choose|k: int| 0 <= k < items.len() && items[k] == x;
            if k < front.len() {
                assert(front[k] == x);
                assert(kept.contains(x));
                let m = choose|m: int| 0 <= m < kept.len() && kept[m] == x;
                assert(items.filter(keep)[m] == x);
            } else {
                assert(items.filter(keep)[kept.len() as int] == x);
            }
        }
        if items.no_duplicates() {
            assert(front.no_duplicates());
            if keep(items.last()) {
                assert forall|i: int, j: int|
                    0 <= i < kept.len() + 1 && 0 <= j < kept.len() + 1 && i != j implies kept.push(
                    items.last(),
                )[i] != kept.push(items.last())[j] by {
                    if i < kept.len() && j < kept.len() {
                    } else {
                        let inner = if i < kept.len() {
                            i
                        } else {
                            j
                        };
                        let k = choose|k: int| 0 <= k < front.len() && front[k] == kept[inner];
                        assert(items[k] == kept[inner]);
                        assert(items[items.len() - 1] == items.last());
                    }
                }
            }
        }
    }
}

} // verus!
