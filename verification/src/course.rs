//! The course that a search of the trees takes.
use crate::cell::cell_bound;
use crate::index_format::IndexModel;
use crate::queue::{
    heap_popped, heap_pushed, lesser_child, risen, sunk, swapped, NodeCandidate, NODE_QUEUE_CAP,
};
use crate::topk::{packed_key, worst_key_of, TopKEntry};
use crate::trace::TraceEvent;
use crate::traverse::{can_improve, RootCandidate};
use crate::tree::{after_scan, box_bound, has_tree, node_ok, root_of, trees_ok};
use crate::walk::node_span;
use vstd::prelude::*;

verus! {

/// How far a traversal has come: the neighbours, the leaves that it scanned,
/// and what it told.
#[verifier::ext_equal]
pub struct Course {
    pub s: Seq<TopKEntry>,
    pub leaves: Seq<int>,
    pub events: Seq<TraceEvent>,
}

/// Where a traversal begins.
pub open spec fn begun(s: Seq<TopKEntry>) -> Course {
    Course { s, leaves: seq![], events: seq![] }
}

impl Course {
    pub open spec fn tells(self, event: TraceEvent) -> Course {
        Course { s: self.s, leaves: self.leaves, events: self.events.push(event) }
    }

    /// Leaf `i` is scanned.
    pub open spec fn scans(self, m: IndexModel, q: Seq<i16>, i: int) -> Course {
        Course {
            s: after_scan(m, q, self.s, node_span(m, i)),
            leaves: self.leaves.push(i),
            events: self.events.push(TraceEvent::LeafScanned).push(
                TraceEvent::BranchScan(m.nodes[i].count),
            ),
        }
    }

    /// One course after another, which went on from where it ended.
    pub open spec fn and_on(self, next: Course) -> Course {
        Course {
            s: next.s,
            leaves: self.leaves + next.leaves,
            events: self.events + next.events,
        }
    }
}

/// The bound of a node's box.
pub open spec fn node_bound(m: IndexModel, q: Seq<i16>, i: int) -> i32 {
    box_bound(q, m.nodes[i]) as i32
}

/// Something below the node could still improve the neighbours, as far as its
/// box tells.
pub open spec fn worthwhile(m: IndexModel, q: Seq<i16>, s: Seq<TopKEntry>, i: int) -> bool {
    can_improve(s, node_bound(m, q, i), m.nodes[i].min_original_id)
}

/// The nearer child of an inner node; on a tie the left one.
pub open spec fn near_child(m: IndexModel, q: Seq<i16>, i: int) -> int {
    let (left, right) = (m.nodes[i].left as int, m.nodes[i].right as int);
    if node_bound(m, q, left) <= node_bound(m, q, right) {
        left
    } else {
        right
    }
}

/// The other child.
pub open spec fn far_child(m: IndexModel, q: Seq<i16>, i: int) -> int {
    let (left, right) = (m.nodes[i].left as int, m.nodes[i].right as int);
    if node_bound(m, q, left) <= node_bound(m, q, right) {
        right
    } else {
        left
    }
}

/// Of a child that is left out it is told so.
pub open spec fn considered(c: Course, taken: bool) -> Course {
    if taken {
        c
    } else {
        c.tells(TraceEvent::PrunedNode)
    }
}

/// The course after the tree at node `i` was traversed, whose bound is taken
/// to be `lower_bound`: the nearer child first, then the other one. Of each
/// node that is taken up and of each that is left out it is told once.
pub open spec fn descended(
    m: IndexModel,
    q: Seq<i16>,
    c: Course,
    i: int,
    lower_bound: i32,
) -> Course
    decreases m.nodes.len() - i,
{
    let visited = c.tells(TraceEvent::NodeVisited);
    if !can_improve(c.s, lower_bound, m.nodes[i].min_original_id) {
        c.tells(TraceEvent::PrunedNode)
    } else if m.nodes[i].is_leaf() {
        visited.scans(m, q, i)
    } else if 0 <= i && i < m.nodes[i].left < m.nodes.len() && i < m.nodes[i].right
        < m.nodes.len() {
        let near = near_child(m, q, i);
        let far = far_child(m, q, i);
        let take_far = worthwhile(m, q, c.s, far);
        let take_near = worthwhile(m, q, c.s, near);
        let first = considered(considered(visited, take_far), take_near);
        let second = if take_near {
            descended(m, q, first, near, node_bound(m, q, near))
        } else {
            first
        };
        if take_far {
            descended(m, q, second, far, node_bound(m, q, far))
        } else {
            second
        }
    } else {
        visited
    }
}

/// The course after the trees of the candidates were traversed one by one,
/// each whose key is better than that of the worst neighbour.
pub open spec fn descended_each(
    m: IndexModel,
    q: Seq<i16>,
    s: Seq<TopKEntry>,
    candidates: Seq<RootCandidate>,
) -> Course
    decreases candidates.len(),
{
    if candidates.len() == 0 {
        begun(s)
    } else {
        let c = descended_each(m, q, s, candidates.drop_last());
        let last = candidates.last();
        if last.key < worst_key_of(c.s) {
            c.and_on(descended(m, q, begun(c.s), last.root_idx as int, last.lower_bound))
        } else {
            c
        }
    }
}

/// How far a search of several trees together has come: its course, the queue
/// of open nodes, whether the queue was too small, and whether it is done.
#[verifier::ext_equal]
pub struct Front {
    pub course: Course,
    pub open: Seq<NodeCandidate>,
    pub full: bool,
    pub done: bool,
}

impl Front {
    /// The search goes no further.
    pub open spec fn ended(self) -> bool {
        self.full || self.done
    }

    pub open spec fn tells(self, event: TraceEvent) -> Front {
        Front { course: self.course.tells(event), ..self }
    }

    /// A candidate is queued, where there is room.
    pub open spec fn queues(self, candidate: NodeCandidate) -> Front {
        if self.open.len() < NODE_QUEUE_CAP {
            Front { open: heap_pushed(self.open, candidate), ..self }
        } else {
            Front { full: true, ..self }
        }
    }
}

/// The queue is filled with the roots whose keys are better than that of the
/// worst neighbour; of each other it is told that it is left out.
pub open spec fn front_of(s: Seq<TopKEntry>, candidates: Seq<RootCandidate>) -> Front
    decreases candidates.len(),
{
    if candidates.len() == 0 {
        Front { course: begun(s), open: seq![], full: false, done: false }
    } else {
        let f = front_of(s, candidates.drop_last());
        let last = candidates.last();
        if f.full {
            f
        } else if last.key < worst_key_of(s) {
            f.queues(
                NodeCandidate {
                    key: last.key,
                    node_idx: last.root_idx,
                    lower_bound: last.lower_bound,
                },
            )
        } else {
            f.tells(TraceEvent::PrunedNode)
        }
    }
}

/// A child is queued where it is worthwhile, and else it is told that it is
/// left out.
pub open spec fn child_queued(m: IndexModel, q: Seq<i16>, f: Front, child: u32) -> Front {
    let i = child as int;
    if worthwhile(m, q, f.course.s, i) {
        f.queues(
            NodeCandidate {
                key: packed_key(node_bound(m, q, i), m.nodes[i].min_original_id) as u64,
                node_idx: child,
                lower_bound: node_bound(m, q, i),
            },
        )
    } else {
        f.tells(TraceEvent::PrunedNode)
    }
}

/// The first node of the queue is taken up: a leaf is scanned, the children of
/// another node are queued. The search is done where the queue is empty or its
/// first key is not better than that of the worst neighbour.
pub open spec fn advanced(m: IndexModel, q: Seq<i16>, f: Front) -> Front {
    if f.ended() {
        f
    } else if f.open.len() == 0 {
        Front { done: true, ..f }
    } else {
        let first = f.open[0];
        let i = first.node_idx as int;
        let popped = Front { open: heap_popped(f.open), ..f };
        let visited = popped.tells(TraceEvent::NodeVisited);
        if first.key >= worst_key_of(f.course.s) {
            Front { done: true, ..popped.tells(TraceEvent::PrunedNode) }
        } else if !can_improve(f.course.s, first.lower_bound, m.nodes[i].min_original_id) {
            popped.tells(TraceEvent::PrunedNode)
        } else if m.nodes[i].is_leaf() {
            Front { course: visited.course.scans(m, q, i), ..visited }
        } else {
            let half = child_queued(m, q, visited, m.nodes[i].left);
            if half.full {
                half
            } else {
                child_queued(m, q, half, m.nodes[i].right)
            }
        }
    }
}

/// The search after `n` steps.
pub open spec fn advanced_by(m: IndexModel, q: Seq<i16>, f: Front, n: nat) -> Front
    decreases n,
{
    if n == 0 {
        f
    } else {
        advanced(m, q, advanced_by(m, q, f, (n - 1) as nat))
    }
}

/// Where the search ends.
pub open spec fn front_end(m: IndexModel, q: Seq<i16>, f: Front) -> Front {
    advanced_by(m, q, f, choose|n: nat| #[trigger] advanced_by(m, q, f, n).ended())
}

proof fn lemma_ended_stays(m: IndexModel, q: Seq<i16>, f: Front, a: nat, b: nat)
    requires
        advanced_by(m, q, f, a).ended(),
        a <= b,
    ensures
        advanced_by(m, q, f, b) == advanced_by(m, q, f, a),
    decreases b,
{
    if a < b {
        lemma_ended_stays(m, q, f, a, (b - 1) as nat);
    }
}

/// There is only one end.
pub proof fn lemma_front_end(m: IndexModel, q: Seq<i16>, f: Front, n: nat)
    requires
        advanced_by(m, q, f, n).ended(),
    ensures
        front_end(m, q, f) == advanced_by(m, q, f, n),
{
    let k = choose|n: nat| #[trigger] advanced_by(m, q, f, n).ended();
    if k <= n {
        lemma_ended_stays(m, q, f, k, n);
    } else {
        lemma_ended_stays(m, q, f, n, k);
    }
}

/// Once the queue is too small, further candidates change nothing.
pub proof fn lemma_front_full(s: Seq<TopKEntry>, candidates: Seq<RootCandidate>, n: int)
    requires
        0 <= n <= candidates.len(),
        front_of(s, candidates.take(n)).full,
    ensures
        front_of(s, candidates) == front_of(s, candidates.take(n)),
    decreases candidates.len(),
{
    if n == candidates.len() {
        assert(candidates.take(n) =~= candidates);
    } else {
        let init = candidates.drop_last();
        assert(init.take(n) =~= candidates.take(n));
        lemma_front_full(s, init, n);
    }
}

/// The search of several trees: the node with the smallest key first, and
/// where the queue is too small for that, anew from the neighbours it began
/// with and tree by tree. The first part holds the leaves that were scanned in
/// vain then, the second the course without them but for what was told.
pub open spec fn trees_searched(
    m: IndexModel,
    q: Seq<i16>,
    s: Seq<TopKEntry>,
    candidates: Seq<RootCandidate>,
) -> (Seq<int>, Course) {
    let end = front_end(m, q, front_of(s, candidates));
    if end.full {
        let each = descended_each(m, q, s, candidates);
        (end.course.leaves, Course { events: end.course.events + each.events, ..each })
    } else {
        (seq![], end.course)
    }
}

/// The roots among the first `n` listed keys, without that of the query, that
/// are worthwhile by the bounds of their cells and of their boxes; and what is
/// told of those that are not.
pub open spec fn worthwhile_roots(
    m: IndexModel,
    q: Seq<i16>,
    query_key: u16,
    s: Seq<TopKEntry>,
    n: nat,
) -> (Seq<RootCandidate>, Seq<TraceEvent>)
    decreases n,
{
    if n == 0 {
        (seq![], seq![])
    } else {
        let (roots, events) = worthwhile_roots(m, q, query_key, s, (n - 1) as nat);
        let key = m.keys[n - 1] as int;
        let i = root_of(m, key);
        let id = m.nodes[i].min_original_id;
        if key == query_key || !has_tree(m, key) {
            (roots, events)
        } else if can_improve(s, cell_bound(q, query_key, key as u16) as i32, id) && worthwhile(
            m,
            q,
            s,
            i,
        ) {
            let root = RootCandidate {
                key: packed_key(node_bound(m, q, i), id) as u64,
                root_idx: i as u32,
                lower_bound: node_bound(m, q, i),
            };
            (roots.push(root), events)
        } else {
            (roots, events.push(TraceEvent::PrunedNode))
        }
    }
}

/// The course through the tree of the query's own cell.
pub open spec fn own_course(
    m: IndexModel,
    q: Seq<i16>,
    query_key: u16,
    s: Seq<TopKEntry>,
) -> Course {
    if has_tree(m, query_key as int) {
        let root = root_of(m, query_key as int);
        descended(m, q, begun(s), root, node_bound(m, q, root))
    } else {
        begun(s)
    }
}

/// The course through the trees of the other cells, after the query's own.
pub open spec fn other_courses(
    m: IndexModel,
    q: Seq<i16>,
    query_key: u16,
    s: Seq<TopKEntry>,
) -> (Seq<int>, Course) {
    let own = own_course(m, q, query_key, s);
    trees_searched(m, q, own.s, worthwhile_roots(m, q, query_key, own.s, m.keys.len()).0)
}

/// What the tree search makes of the neighbours `s`.
pub open spec fn tree_neighbours(
    m: IndexModel,
    q: Seq<i16>,
    query_key: u16,
    s: Seq<TopKEntry>,
) -> Seq<TopKEntry> {
    other_courses(m, q, query_key, s).1.s
}

/// What the tree search tells of the nodes.
pub open spec fn tree_events(
    m: IndexModel,
    q: Seq<i16>,
    query_key: u16,
    s: Seq<TopKEntry>,
) -> Seq<TraceEvent> {
    let own = own_course(m, q, query_key, s);
    own.events + worthwhile_roots(m, q, query_key, own.s, m.keys.len()).1 + other_courses(
        m,
        q,
        query_key,
        s,
    ).1.events
}

/// How often an event is told in a course.
pub open spec fn times_told(c: Course, event: TraceEvent) -> int {
    c.events.to_multiset().count(event) as int
}

proof fn lemma_tells(c: Course, told: TraceEvent, event: TraceEvent)
    ensures
        times_told(c.tells(told), event) == times_told(c, event) + (if told == event {
            1int
        } else {
            0
        }),
{
    c.events.to_multiset_ensures();
}

proof fn lemma_scans(c: Course, m: IndexModel, q: Seq<i16>, i: int)
    ensures
        times_told(c.scans(m, q, i), TraceEvent::NodeVisited) == times_told(
            c,
            TraceEvent::NodeVisited,
        ),
        times_told(c.scans(m, q, i), TraceEvent::PrunedNode) == times_told(
            c,
            TraceEvent::PrunedNode,
        ),
        times_told(c.scans(m, q, i), TraceEvent::LeafScanned) == times_told(
            c,
            TraceEvent::LeafScanned,
        ) + 1,
{
    let one = c.tells(TraceEvent::LeafScanned);
    let count = TraceEvent::BranchScan(m.nodes[i].count);
    lemma_tells(c, TraceEvent::LeafScanned, TraceEvent::NodeVisited);
    lemma_tells(c, TraceEvent::LeafScanned, TraceEvent::PrunedNode);
    lemma_tells(c, TraceEvent::LeafScanned, TraceEvent::LeafScanned);
    lemma_tells(one, count, TraceEvent::NodeVisited);
    lemma_tells(one, count, TraceEvent::PrunedNode);
    lemma_tells(one, count, TraceEvent::LeafScanned);
    assert(c.scans(m, q, i).events == one.tells(count).events);
}

/// What is left of the nodes that were told of: those visited, less two for
/// each leaf and one for each that was left out.
#[verifier::opaque]
spec fn balance(c: Course) -> int {
    times_told(c, TraceEvent::NodeVisited) - 2 * times_told(c, TraceEvent::LeafScanned)
        - times_told(c, TraceEvent::PrunedNode)
}

proof fn lemma_balance(c: Course, m: IndexModel, q: Seq<i16>, i: int)
    ensures
        balance(c.tells(TraceEvent::NodeVisited)) == balance(c) + 1,
        balance(c.tells(TraceEvent::PrunedNode)) == balance(c) - 1,
        balance(c.scans(m, q, i)) == balance(c) - 2,
{
    reveal(balance);
    lemma_scans(c, m, q, i);
    lemma_tells(c, TraceEvent::NodeVisited, TraceEvent::NodeVisited);
    lemma_tells(c, TraceEvent::NodeVisited, TraceEvent::LeafScanned);
    lemma_tells(c, TraceEvent::NodeVisited, TraceEvent::PrunedNode);
    lemma_tells(c, TraceEvent::PrunedNode, TraceEvent::NodeVisited);
    lemma_tells(c, TraceEvent::PrunedNode, TraceEvent::LeafScanned);
    lemma_tells(c, TraceEvent::PrunedNode, TraceEvent::PrunedNode);
}

proof fn lemma_descended_balance(
    m: IndexModel,
    q: Seq<i16>,
    c: Course,
    i: int,
    lower_bound: i32,
)
    requires
        trees_ok(m.nodes, m.vectors.len() as int),
        0 <= i < m.nodes.len(),
    ensures
        balance(descended(m, q, c, i, lower_bound)) == balance(c) - 1,
        descended(m, q, c, i, lower_bound).leaves.len() - c.leaves.len() == times_told(
            descended(m, q, c, i, lower_bound),
            TraceEvent::LeafScanned,
        ) - times_told(c, TraceEvent::LeafScanned),
    decreases m.nodes.len() - i,
{
    assert(node_ok(m.nodes, m.vectors.len() as int, i));
    let visited = c.tells(TraceEvent::NodeVisited);
    lemma_balance(c, m, q, i);
    lemma_balance(visited, m, q, i);
    lemma_scans(visited, m, q, i);
    lemma_tells(c, TraceEvent::NodeVisited, TraceEvent::LeafScanned);
    lemma_tells(c, TraceEvent::PrunedNode, TraceEvent::LeafScanned);
    if can_improve(c.s, lower_bound, m.nodes[i].min_original_id) && !m.nodes[i].is_leaf() {
        let near = near_child(m, q, i);
        let far = far_child(m, q, i);
        let take_far = worthwhile(m, q, c.s, far);
        let take_near = worthwhile(m, q, c.s, near);
        let half = considered(visited, take_far);
        let first = considered(half, take_near);
        lemma_balance(half, m, q, i);
        lemma_tells(visited, TraceEvent::PrunedNode, TraceEvent::LeafScanned);
        lemma_tells(half, TraceEvent::PrunedNode, TraceEvent::LeafScanned);
        let second = if take_near {
            descended(m, q, first, near, node_bound(m, q, near))
        } else {
            first
        };
        if take_near {
            lemma_descended_balance(m, q, first, near, node_bound(m, q, near));
        }
        if take_far {
            lemma_descended_balance(m, q, second, far, node_bound(m, q, far));
        }
    }
}

/// In the traversal of a tree every node is told of once: of each node that is
/// no leaf two others are visited or left out, so that one less are visited
/// than twice the leaves and those left out; and as many leaves are told of as
/// are scanned.
pub proof fn law_walk_tells_of_every_node(
    m: IndexModel,
    q: Seq<i16>,
    s: Seq<TopKEntry>,
    i: int,
    lower_bound: i32,
)
    requires
        trees_ok(m.nodes, m.vectors.len() as int),
        0 <= i < m.nodes.len(),
    ensures
        ({
            let c = descended(m, q, begun(s), i, lower_bound);
            let all = c.events.to_multiset();
            &&& all.count(TraceEvent::NodeVisited) + 1 == 2 * all.count(TraceEvent::LeafScanned)
                + all.count(TraceEvent::PrunedNode)
            &&& all.count(TraceEvent::LeafScanned) == c.leaves.len()
        }),
{
    lemma_descended_balance(m, q, begun(s), i, lower_bound);
    reveal(balance);
    begun(s).events.to_multiset_ensures();
}

proof fn lemma_risen_len(t: Seq<NodeCandidate>, i: int)
    ensures
        risen(t, i).len() == t.len(),
    decreases i,
{
    if 0 < i < t.len() && t[(i - 1) / 2].key > t[i].key {
        lemma_risen_len(swapped(t, i, (i - 1) / 2), (i - 1) / 2);
    }
}

proof fn lemma_sunk_len(t: Seq<NodeCandidate>, i: int)
    ensures
        sunk(t, i).len() == t.len(),
    decreases t.len() - i,
{
    let c = lesser_child(t, i);
    if 0 <= i && 2 * i + 1 < t.len() && t[c].key < t[i].key {
        lemma_sunk_len(swapped(t, i, c), c);
    }
}

proof fn lemma_heap_lens(t: Seq<NodeCandidate>, c: NodeCandidate)
    ensures
        heap_pushed(t, c).len() == t.len() + 1,
        t.len() > 0 ==> heap_popped(t).len() == t.len() - 1,
{
    lemma_risen_len(t.push(c), t.len() as int);
    if t.len() > 1 {
        lemma_sunk_len(t.drop_last().update(0, t.last()), 0);
    }
}

proof fn lemma_front_balance(s: Seq<TopKEntry>, candidates: Seq<RootCandidate>)
    ensures
        ({
            let f = front_of(s, candidates);
            &&& !f.full ==> balance(f.course) - f.open.len() == -candidates.len()
            &&& f.course.leaves.len() == times_told(f.course, TraceEvent::LeafScanned)
        }),
    decreases candidates.len(),
{
    if candidates.len() == 0 {
        reveal(balance);
        begun(s).events.to_multiset_ensures();
    } else {
        lemma_front_balance(s, candidates.drop_last());
        let f = front_of(s, candidates.drop_last());
        let last = candidates.last();
        lemma_heap_lens(
            f.open,
            NodeCandidate {
                key: last.key,
                node_idx: last.root_idx,
                lower_bound: last.lower_bound,
            },
        );
        lemma_balance(f.course, arbitrary(), seq![], 0);
        lemma_tells(f.course, TraceEvent::PrunedNode, TraceEvent::LeafScanned);
    }
}

proof fn lemma_child_balance(m: IndexModel, q: Seq<i16>, f: Front, child: u32)
    ensures
        ({
            let g = child_queued(m, q, f, child);
            &&& !g.full ==> balance(g.course) - g.open.len() == balance(f.course) - f.open.len()
                - 1
            &&& g.course.leaves == f.course.leaves
            &&& times_told(g.course, TraceEvent::LeafScanned) == times_told(
                f.course,
                TraceEvent::LeafScanned,
            )
            &&& f.full ==> g.full
        }),
{
    let i = child as int;
    lemma_heap_lens(
        f.open,
        NodeCandidate {
            key: packed_key(node_bound(m, q, i), m.nodes[i].min_original_id) as u64,
            node_idx: child,
            lower_bound: node_bound(m, q, i),
        },
    );
    lemma_balance(f.course, m, q, i);
    lemma_tells(f.course, TraceEvent::PrunedNode, TraceEvent::LeafScanned);
}

proof fn lemma_advanced_balance(m: IndexModel, q: Seq<i16>, f: Front, n: nat)
    requires
        f.course.leaves.len() == times_told(f.course, TraceEvent::LeafScanned),
    ensures
        ({
            let g = advanced_by(m, q, f, n);
            &&& !g.full ==> !f.full && balance(g.course) - g.open.len() == balance(f.course)
                - f.open.len()
            &&& g.course.leaves.len() == times_told(g.course, TraceEvent::LeafScanned)
        }),
    decreases n,
{
    if n > 0 {
        lemma_advanced_balance(m, q, f, (n - 1) as nat);
        let g = advanced_by(m, q, f, (n - 1) as nat);
        if !g.ended() && g.open.len() > 0 {
            let first = g.open[0];
            let i = first.node_idx as int;
            let popped = Front { open: heap_popped(g.open), ..g };
            let visited = popped.tells(TraceEvent::NodeVisited);
            lemma_heap_lens(g.open, first);
            lemma_balance(popped.course, m, q, i);
            lemma_balance(visited.course, m, q, i);
            lemma_scans(visited.course, m, q, i);
            lemma_tells(g.course, TraceEvent::PrunedNode, TraceEvent::LeafScanned);
            lemma_tells(g.course, TraceEvent::NodeVisited, TraceEvent::LeafScanned);
            lemma_child_balance(m, q, visited, m.nodes[i].left);
            let half = child_queued(m, q, visited, m.nodes[i].left);
            lemma_child_balance(m, q, half, m.nodes[i].right);
        }
    }
}

/// In a search of several trees together, as long as the queue has room, every
/// node is told of once or still queued at the end: those visited and the
/// roots make up twice the leaves, those left out and those queued; and as many
/// leaves are told of as are scanned.
pub proof fn law_search_tells_of_every_node(
    m: IndexModel,
    q: Seq<i16>,
    s: Seq<TopKEntry>,
    candidates: Seq<RootCandidate>,
)
    ensures
        ({
            let end = front_end(m, q, front_of(s, candidates));
            let all = end.course.events.to_multiset();
            &&& !end.full ==> all.count(TraceEvent::NodeVisited) + candidates.len() == 2
                * all.count(TraceEvent::LeafScanned) + all.count(TraceEvent::PrunedNode)
                + end.open.len()
            &&& all.count(TraceEvent::LeafScanned) == end.course.leaves.len()
        }),
{
    let f = front_of(s, candidates);
    lemma_front_balance(s, candidates);
    lemma_advanced_balance(
        m,
        q,
        f,
        choose|n: nat| #[trigger] advanced_by(m, q, f, n).ended(),
    );
    reveal(balance);
}

/// A node is worth looking at exactly while there are fewer than five
/// neighbours, or where its bound is less than the distance of the last, or as
/// much with a smaller identifier.
pub proof fn law_worthwhile(s: Seq<TopKEntry>, bound: i32, id: u32, last: i32, last_id: u32)
    requires
        s.len() <= 5,
        bound >= 0,
        last >= 0,
        s.len() == 5 ==> s[4].key == last * 0x1_0000_0000 + last_id,
    ensures
        can_improve(s, bound, id) <==> s.len() < 5 || bound < last || (bound == last && id
            < last_id),
{
}

/// The children of a node in the order in which they are taken up: first the
/// one whose box is nearer, and the left one where both are as near.
pub proof fn law_nearer_child_first(m: IndexModel, q: Seq<i16>, i: int)
    ensures
        ({
            let (near, far) = (near_child(m, q, i), far_child(m, q, i));
            let (left, right) = (m.nodes[i].left as int, m.nodes[i].right as int);
            &&& near == left && far == right || near == right && far == left
            &&& node_bound(m, q, near) <= node_bound(m, q, far)
            &&& node_bound(m, q, left) == node_bound(m, q, right) ==> near == left
        }),
{
}

} // verus!
