//! The leaves that a traversal scans, and what it tells of them.
use crate::index_format::IndexModel;
use crate::trace::{lemma_told_concat, lemma_told_push, told_all, SearchTraceSink, TraceEvent};
use crate::tree::{node_start, span};
use vstd::prelude::*;

verus! {

/// The vectors below node `i`, in order.
pub open spec fn node_span(m: IndexModel, i: int) -> Seq<int> {
    span(node_start(m.nodes, i), node_start(m.nodes, i) + m.nodes[i].count)
}

/// The vectors of the leaves, leaf by leaf.
pub open spec fn leaf_positions(m: IndexModel, leaves: Seq<int>) -> Seq<int>
    decreases leaves.len(),
{
    if leaves.len() == 0 {
        seq![]
    } else {
        leaf_positions(m, leaves.drop_last()) + node_span(m, leaves.last())
    }
}

/// Each of the nodes is a leaf.
pub open spec fn are_leaves(m: IndexModel, leaves: Seq<int>) -> bool {
    forall|k: int|
        0 <= k < leaves.len() ==> 0 <= #[trigger] leaves[k] < m.nodes.len()
            && m.nodes[leaves[k]].is_leaf()
}

/// What is told of scanned leaves: of each that it is scanned, and how many
/// vectors it has.
pub open spec fn leaf_events(m: IndexModel, leaves: Seq<int>) -> Seq<TraceEvent>
    decreases leaves.len(),
{
    if leaves.len() == 0 {
        seq![]
    } else {
        leaf_events(m, leaves.drop_last()).push(TraceEvent::LeafScanned).push(
            TraceEvent::BranchScan(m.nodes[leaves.last()].count),
        )
    }
}

/// A report on a leaf or a cell that was scanned.
pub open spec fn is_scan_event(event: TraceEvent) -> bool {
    event is LeafScanned || event is BranchScan
}

/// What is told in the course of a traversal.
pub open spec fn is_walk_event(event: TraceEvent) -> bool {
    is_scan_event(event) || event is NodeVisited || event is PrunedNode
}

/// The reports on what was scanned among the events.
pub open spec fn scans_of(events: Seq<TraceEvent>) -> Seq<TraceEvent>
    decreases events.len(),
{
    if events.len() == 0 {
        seq![]
    } else {
        let before = scans_of(events.drop_last());
        if is_scan_event(events.last()) {
            before.push(events.last())
        } else {
            before
        }
    }
}

/// A traversal that scans the leaves tells the events, and among them of each
/// leaf once that it is scanned and how many vectors it has.
pub open spec fn is_walk(m: IndexModel, leaves: Seq<int>, events: Seq<TraceEvent>) -> bool {
    &&& are_leaves(m, leaves)
    &&& forall|k: int| 0 <= k < events.len() ==> is_walk_event(#[trigger] events[k])
    &&& scans_of(events) == leaf_events(m, leaves)
}

/// In the course of a traversal the sink was told the events.
#[verifier::opaque]
pub open spec fn walk_told<T: SearchTraceSink>(
    m: IndexModel,
    before: T,
    after: T,
    leaves: Seq<int>,
    events: Seq<TraceEvent>,
) -> bool {
    after == told_all(before, events) && is_walk(m, leaves, events)
}

pub proof fn lemma_walk_start<T: SearchTraceSink>(m: IndexModel, sink: T)
    ensures
        walk_told(m, sink, sink, seq![], seq![]),
        leaf_positions(m, seq![]) == Seq::<int>::empty(),
{
    reveal(walk_told);
}

pub proof fn lemma_scans_push(events: Seq<TraceEvent>, event: TraceEvent)
    ensures
        scans_of(events.push(event)) == (if is_scan_event(event) {
            scans_of(events).push(event)
        } else {
            scans_of(events)
        }),
{
    assert(events.push(event).drop_last() =~= events);
}

pub proof fn lemma_scans_concat(a: Seq<TraceEvent>, b: Seq<TraceEvent>)
    ensures
        scans_of(a + b) == scans_of(a) + scans_of(b),
    decreases b.len(),
{
    if b.len() == 0 {
        assert(a + b =~= a);
        assert(scans_of(a) + scans_of(b) =~= scans_of(a));
    } else {
        lemma_scans_concat(a, b.drop_last());
        assert((a + b).drop_last() =~= a + b.drop_last());
        assert(scans_of(a + b) =~= scans_of(a) + scans_of(b));
    }
}

/// A node is visited or pruned.
pub proof fn lemma_walk_node<T: SearchTraceSink>(
    m: IndexModel,
    before: T,
    after: T,
    leaves: Seq<int>,
    events: Seq<TraceEvent>,
    event: TraceEvent,
)
    requires
        walk_told(m, before, after, leaves, events),
        event is NodeVisited || event is PrunedNode,
    ensures
        walk_told(m, before, after.told(event), leaves, events.push(event)),
{
    reveal(walk_told);
    lemma_told_push(before, events, event);
    lemma_scans_push(events, event);
}

/// A leaf is scanned.
pub proof fn lemma_walk_leaf<T: SearchTraceSink>(
    m: IndexModel,
    before: T,
    after: T,
    leaves: Seq<int>,
    events: Seq<TraceEvent>,
    i: int,
)
    requires
        walk_told(m, before, after, leaves, events),
        0 <= i < m.nodes.len(),
        m.nodes[i].is_leaf(),
    ensures
        ({
            let count = TraceEvent::BranchScan(m.nodes[i].count);
            walk_told(
                m,
                before,
                after.told(TraceEvent::LeafScanned).told(count),
                leaves.push(i),
                events.push(TraceEvent::LeafScanned).push(count),
            )
        }),
        leaf_positions(m, leaves.push(i)) == leaf_positions(m, leaves) + node_span(m, i),
{
    reveal(walk_told);
    let count = TraceEvent::BranchScan(m.nodes[i].count);
    let scanned = events.push(TraceEvent::LeafScanned);
    lemma_told_push(before, events, TraceEvent::LeafScanned);
    lemma_told_push(before, scanned, count);
    lemma_scans_push(events, TraceEvent::LeafScanned);
    lemma_scans_push(scanned, count);
    assert(leaves.push(i).drop_last() =~= leaves);
}

pub proof fn lemma_leaves_concat(m: IndexModel, a: Seq<int>, b: Seq<int>)
    ensures
        leaf_positions(m, a + b) == leaf_positions(m, a) + leaf_positions(m, b),
        leaf_events(m, a + b) == leaf_events(m, a) + leaf_events(m, b),
    decreases b.len(),
{
    if b.len() == 0 {
        assert(a + b =~= a);
        assert(leaf_positions(m, a) + leaf_positions(m, b) =~= leaf_positions(m, a));
        assert(leaf_events(m, a) + leaf_events(m, b) =~= leaf_events(m, a));
    } else {
        lemma_leaves_concat(m, a, b.drop_last());
        assert((a + b).drop_last() =~= a + b.drop_last());
        assert(leaf_positions(m, a + b) =~= leaf_positions(m, a) + leaf_positions(m, b));
        assert(leaf_events(m, a + b) =~= leaf_events(m, a) + leaf_events(m, b));
    }
}

/// One traversal after the other.
pub proof fn lemma_walk_concat<T: SearchTraceSink>(
    m: IndexModel,
    before: T,
    between: T,
    after: T,
    a: Seq<int>,
    a_events: Seq<TraceEvent>,
    b: Seq<int>,
    b_events: Seq<TraceEvent>,
)
    requires
        walk_told(m, before, between, a, a_events),
        walk_told(m, between, after, b, b_events),
    ensures
        walk_told(m, before, after, a + b, a_events + b_events),
        leaf_positions(m, a + b) == leaf_positions(m, a) + leaf_positions(m, b),
{
    reveal(walk_told);
    lemma_told_concat(before, a_events, b_events);
    lemma_scans_concat(a_events, b_events);
    lemma_leaves_concat(m, a, b);
}

} // verus!
