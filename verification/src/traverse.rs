//! Traversal of the trees of an index.
use crate::course::{
    advanced, advanced_by, begun, considered, descended, descended_each, far_child, front_of,
    lemma_front_end, lemma_front_full, near_child, node_bound, trees_searched, worthwhile, Course,
    Front,
};
use crate::distance::{
    l2sq_avx2, lemma_partial_distance_monotone, lemma_square, square, squared_distance,
};
use crate::frontier::{
    apart, below, below_all, disjoint_roots, frontier, lemma_below_push, lemma_children,
    lemma_expand, lemma_frontier_distinct, lemma_frontier_empty, lemma_frontier_end,
    lemma_frontier_grow, lemma_frontier_push, lemma_frontier_remove, lemma_frontier_scan,
    lemma_frontier_start, lemma_settled_all, lemma_settled_done, lemma_settled_improves,
    lemma_settled_remove, lemma_weight_nonnegative, lemma_weight_remove, maybe_push, node_settled,
    settled, settled_but, weight,
};
use crate::index_format::{IndexModel, IndexView, TreeNode, EMPTY_NODE};
use crate::queue::{heap_pushed, NodeCandidate, NodeQueue, NODE_QUEUE_CAP};
use crate::topk::{
    covered, distinct_keys, law_key_order, lemma_offered_all_distinct, offered_all, packed_key,
    ranked, worst_key_of, TopK, TopKEntry, TOP_K,
};
use crate::trace::{SearchTraceSink, TraceEvent};
use crate::tree::{
    after_scan, box_bound, boxes_fit, boxes_sound, distances_fit, entries_of, entry_of, improves,
    in_box, in_node, index_ok, law_box_bound_is_sound, lemma_after_scan, lemma_after_scan_concat,
    lemma_after_scan_push, lemma_node_key, lemma_node_range, lemma_partial_box_bound_monotone,
    lemma_scan_distinct, node_height, node_ok, node_start, partial_box_bound, span, unique_ids,
    MAX_HEIGHT,
};
use crate::types::Vec16I;
use crate::walk::{
    leaf_positions, lemma_walk_concat, lemma_walk_leaf, lemma_walk_node, lemma_walk_start,
    node_span, walk_told,
};
use vstd::multiset::Multiset;
use vstd::prelude::*;
use vstd::set_lib::{lemma_int_range, lemma_len_subset, set_int_range};

verus! {

/// The squared distance from the query to the box of a node.
pub fn bbox_lower_bound_sq(qv: &Vec16I, node: &TreeNode) -> (bound: i32)
    requires
        box_bound(qv@, node@) <= i32::MAX,
    ensures
        bound == box_bound(qv@, node@),
{
    let mut sum: i32 = 0;
    let mut dim: usize = 0;
    while dim < 16
        invariant
            dim <= 16,
            sum == partial_box_bound(qv@, node@, dim as int),
            box_bound(qv@, node@) <= i32::MAX,
        decreases 16 - dim,
    {
        let q: i32 = qv[dim] as i32;
        let min: i32 = node.bbox_min[dim] as i32;
        let max: i32 = node.bbox_max[dim] as i32;
        let d: i32 = if q < min {
            min - q
        } else if q > max {
            q - max
        } else {
            0
        };
        proof {
            lemma_partial_box_bound_monotone(qv@, node@, dim as int, dim as int);
            lemma_partial_box_bound_monotone(qv@, node@, dim + 1, 16);
            lemma_square(d as int);
            assert(square(d as int) == d * d);
        }
        sum = sum + d * d;
        dim = dim + 1;
    }
    sum
}

/// Whether something at `lower_bound` with an identifier from
/// `min_original_id` on could still enter the neighbours.
pub open spec fn can_improve(s: Seq<TopKEntry>, lower_bound: i32, min_original_id: u32) -> bool {
    s.len() < TOP_K || packed_key(lower_bound, min_original_id) < worst_key_of(s)
}

pub fn can_bound_improve(topk: &TopK, lower_bound: i32, min_original_id: u32) -> (can: bool)
    ensures
        can == can_improve(topk@, lower_bound, min_original_id),
{
    proof {
        use_type_invariant(topk);
        topk.lemma_ranked();
    }
    !topk.is_full() || TopK::make_key(lower_bound, min_original_id) < topk.worst_key()
}

/// Offers the vectors `offset .. offset + count` to the neighbours.
pub fn scan_cell(view: &IndexView<'_>, qv: &Vec16I, offset: u32, count: u32, topk: &mut TopK)
    requires
        view.cells_complete(),
        offset + count <= view@.vectors.len(),
        forall|j: int|
            offset <= j < offset + count ==> squared_distance(qv@, #[trigger] view@.vectors[j])
                <= i32::MAX,
    ensures
        final(topk)@ == after_scan(
            view@,
            qv@,
            old(topk)@,
            span(offset as int, offset + count),
        ),
{
    proof {
        use_type_invariant(&*topk);
        topk.lemma_ranked();
    }
    let ghost s0 = topk@;
    let ghost m = view@;
    let mut i: u32 = 0;
    let mut worst_key: u64 = topk.worst_key();
    let mut worst_dist: i32 = topk.worst_dist_sq();
    let mut topk_full: bool = topk.is_full();
    proof {
        assert(entries_of(m, qv@, span(offset as int, offset as int)) =~= Seq::<
            TopKEntry,
        >::empty());
    }
    while i < count
        invariant
            i <= count,
            view.cells_complete(),
            m == view@,
            offset + count <= m.vectors.len() == view.spec_n_vectors(),
            forall|j: int|
                offset <= j < offset + count ==> squared_distance(qv@, #[trigger] m.vectors[j])
                    <= i32::MAX,
            topk@ == after_scan(m, qv@, s0, span(offset as int, offset + i)),
            worst_key == worst_key_of(topk@),
            worst_dist == worst_key as int / 0x1_0000_0000,
            topk_full == (topk@.len() == TOP_K),
        decreases count - i,
    {
        let idx: u32 = offset + i;
        let ghost before = topk@;
        proof {
            let grown = span(offset as int, offset + i).push(idx as int);
            assert(grown =~= span(offset as int, offset + i + 1));
            lemma_after_scan_push(m, qv@, s0, span(offset as int, offset + i), idx as int);
            lemma_partial_distance_monotone(qv@, m.vectors[idx as int], 0, 16);
        }
        let rv = view.vector_at(idx);
        let d: i32 = l2sq_avx2(qv, &rv);
        let ghost e = entry_of(m, qv@, idx as int);
        proof {
            law_key_order(d, m.ids[idx as int], d, m.ids[idx as int]);
        }
        if !topk_full || d <= worst_dist {
            let original_id: u32 = view.original_id_at(idx);
            let key: u64 = TopK::make_key(d, original_id);
            if key < worst_key {
                let label: u8 = view.label_at(idx);
                topk.insert_labeled(d, original_id, label);
                worst_key = topk.worst_key();
                worst_dist = topk.worst_dist_sq();
                topk_full = topk.is_full();
            }
        }
        i = i + 1;
    }
}

/// A node on the stack of a traversal.
#[derive(Clone, Copy)]
struct StackEntry {
    node_idx: u32,
    lower_bound: i32,
}

fn push_stack(stack: &mut [StackEntry; 256], len: &mut usize, node_idx: u32, lower_bound: i32)
    requires
        *old(len) < 256,
    ensures
        *final(len) == *old(len) + 1,
        final(stack)@ == old(stack)@.update(
            *old(len) as int,
            (StackEntry { node_idx, lower_bound }),
        ),
{
    stack[*len] = StackEntry { node_idx, lower_bound };
    *len = *len + 1;
}

/// What a traversal of the tree at node `i` does: it offers vectors below the
/// node, each at most once, and what it leaves out cannot improve the result.
pub open spec fn walked(
    m: IndexModel,
    q: Seq<i16>,
    s: Seq<TopKEntry>,
    t: Seq<TopKEntry>,
    i: int,
    h: Seq<int>,
) -> bool {
    &&& t == after_scan(m, q, s, h)
    &&& h.no_duplicates()
    &&& forall|k: int| 0 <= k < h.len() ==> in_node(m.nodes, i, #[trigger] h[k])
    &&& boxes_sound(m) ==> node_settled(m, q, t, i)
}

/// No vector below node `i` is nearer than `lower_bound`, as far as the boxes
/// tell.
pub open spec fn bounds_below(m: IndexModel, q: Seq<i16>, i: int, lower_bound: i32) -> bool {
    &&& 0 <= lower_bound
    &&& boxes_sound(m) ==> forall|j: int| #[trigger]
        in_node(m.nodes, i, j) ==> lower_bound <= squared_distance(q, m.vectors[j])
}

proof fn lemma_box_bounds(m: IndexModel, q: Seq<i16>, i: int)
    requires
        index_ok(m),
        boxes_fit(m, q),
        0 <= i < m.nodes.len(),
    ensures
        bounds_below(m, q, i, node_bound(m, q, i)),
{
    assert(box_bound(q, m.nodes[i]) <= i32::MAX);
    lemma_partial_box_bound_monotone(q, m.nodes[i], 0, 16);
    if boxes_sound(m) {
        reveal(boxes_sound);
        assert forall|j: int| #[trigger] in_node(m.nodes, i, j) implies node_bound(m, q, i)
            <= squared_distance(q, m.vectors[j]) by {
            law_box_bound_is_sound(q, m.nodes[i], m.vectors[j]);
        }
    }
}

/// A node whose bound cannot improve the neighbours is settled.
proof fn lemma_bound_settles(
    m: IndexModel,
    q: Seq<i16>,
    s: Seq<TopKEntry>,
    i: int,
    lower_bound: i32,
)
    requires
        index_ok(m),
        distances_fit(m, q),
        0 <= i < m.nodes.len(),
        bounds_below(m, q, i, lower_bound),
        !can_improve(s, lower_bound, m.nodes[i].min_original_id),
    ensures
        boxes_sound(m) ==> node_settled(m, q, s, i),
{
    if boxes_sound(m) {
        reveal(boxes_sound);
        lemma_node_range(m.nodes, m.vectors.len() as int, i);
        assert forall|j: int| #[trigger] in_node(m.nodes, i, j) implies covered(
            s,
            entry_of(m, q, j),
        ) by {
            assert(squared_distance(q, m.vectors[j]) <= i32::MAX);
            law_key_order(
                squared_distance(q, m.vectors[j]) as i32,
                m.ids[j],
                lower_bound,
                m.nodes[i].min_original_id,
            );
        }
    }
}

/// The course after the nodes on the stack were traversed in turn.
spec fn unwound(m: IndexModel, q: Seq<i16>, c: Course, stack: Seq<StackEntry>) -> Course
    decreases stack.len(),
{
    if stack.len() == 0 {
        c
    } else {
        let top = stack.last();
        unwound(
            m,
            q,
            descended(m, q, c, top.node_idx as int, top.lower_bound),
            stack.drop_last(),
        )
    }
}

/// The stack after a child was considered.
spec fn maybe_stacked(
    m: IndexModel,
    q: Seq<i16>,
    stack: Seq<StackEntry>,
    i: int,
    push: bool,
) -> Seq<StackEntry> {
    if push {
        stack.push(StackEntry { node_idx: i as u32, lower_bound: node_bound(m, q, i) })
    } else {
        stack
    }
}

/// An inner node makes way for its children.
proof fn lemma_unwound_inner(m: IndexModel, q: Seq<i16>, c: Course, stack: Seq<StackEntry>)
    requires
        stack.len() > 0,
        ({
            let i = stack.last().node_idx as int;
            &&& !m.nodes[i].is_leaf()
            &&& i < m.nodes[i].left < m.nodes.len() <= u32::MAX
            &&& i < m.nodes[i].right < m.nodes.len()
            &&& can_improve(c.s, stack.last().lower_bound, m.nodes[i].min_original_id)
        }),
    ensures
        ({
            let i = stack.last().node_idx as int;
            let far = far_child(m, q, i);
            let near = near_child(m, q, i);
            let take_far = worthwhile(m, q, c.s, far);
            let take_near = worthwhile(m, q, c.s, near);
            let visited = c.tells(TraceEvent::NodeVisited);
            unwound(m, q, c, stack) == unwound(
                m,
                q,
                considered(considered(visited, take_far), take_near),
                maybe_stacked(
                    m,
                    q,
                    maybe_stacked(m, q, stack.drop_last(), far, take_far),
                    near,
                    take_near,
                ),
            )
        }),
{
    let i = stack.last().node_idx as int;
    let rest = stack.drop_last();
    let far = far_child(m, q, i);
    let near = near_child(m, q, i);
    let take_far = worthwhile(m, q, c.s, far);
    let take_near = worthwhile(m, q, c.s, near);
    let one = maybe_stacked(m, q, rest, far, take_far);
    let two = maybe_stacked(m, q, one, near, take_near);
    let first = considered(considered(c.tells(TraceEvent::NodeVisited), take_far), take_near);
    let second = if take_near {
        descended(m, q, first, near, node_bound(m, q, near))
    } else {
        first
    };
    assert(unwound(m, q, first, two) == unwound(m, q, second, one)) by {
        if take_near {
            assert(two.drop_last() =~= one);
        }
    }
    let third = if take_far {
        descended(m, q, second, far, node_bound(m, q, far))
    } else {
        second
    };
    assert(unwound(m, q, second, one) == unwound(m, q, third, rest)) by {
        if take_far {
            assert(one.drop_last() =~= rest);
        }
    }
    assert(descended(m, q, c, i, stack.last().lower_bound) == third);
}

/// What a pruned node could contribute is settled.
pub(crate) proof fn lemma_pruned(m: IndexModel, q: Seq<i16>, s: Seq<TopKEntry>, i: int)
    requires
        index_ok(m),
        distances_fit(m, q),
        0 <= i < m.nodes.len(),
        !can_improve(s, box_bound(q, m.nodes[i]) as i32, m.nodes[i].min_original_id),
    ensures
        boxes_sound(m) ==> node_settled(m, q, s, i),
{
    if boxes_sound(m) {
        assert forall|j: int| #[trigger] in_node(m.nodes, i, j) implies covered(
            s,
            entry_of(m, q, j),
        ) by {
            lemma_node_key(m, q, i, j);
        }
    }
}

/// What was scanned is settled.
proof fn lemma_leaf_settled(
    m: IndexModel,
    q: Seq<i16>,
    s: Seq<TopKEntry>,
    i: int,
)
    requires
        ranked(s),
        0 <= i < m.nodes.len(),
    ensures
        ({
            let range = span(node_start(m.nodes, i), node_start(m.nodes, i) + m.nodes[i].count);
            &&& improves(s, after_scan(m, q, s, range))
            &&& node_settled(m, q, after_scan(m, q, s, range), i)
        }),
{
    let lo = node_start(m.nodes, i);
    let range = span(lo, lo + m.nodes[i].count);
    lemma_after_scan(m, q, s, range);
    assert forall|j: int| #[trigger] in_node(m.nodes, i, j) implies covered(
        after_scan(m, q, s, range),
        entry_of(m, q, j),
    ) by {
        assert(range[j - lo] == j);
    }
}

/// Traverses the tree at `root_idx` depth-first, the nearer child first.
fn traverse_tree_with_lb<T: SearchTraceSink>(
    view: &IndexView<'_>,
    qv: &Vec16I,
    root_idx: u32,
    root_lb: i32,
    topk: &mut TopK,
    trace: &mut T,
)
    requires
        view.complete(),
        index_ok(view@),
        distances_fit(view@, qv@),
        boxes_fit(view@, qv@),
        root_idx < view@.nodes.len(),
        bounds_below(view@, qv@, root_idx as int, root_lb),
    ensures
        ({
            let course = descended(view@, qv@, begun(old(topk)@), root_idx as int, root_lb);
            let h = leaf_positions(view@, course.leaves);
            &&& final(topk)@ == course.s
            &&& walked(view@, qv@, old(topk)@, course.s, root_idx as int, h)
            &&& walk_told(view@, *old(trace), *final(trace), course.leaves, course.events)
        }),
{
    proof {
        use_type_invariant(&*topk);
        topk.lemma_ranked();
    }
    let ghost m = view@;
    let ghost q = qv@;
    let ghost n = m.vectors.len() as int;
    let ghost s0 = topk@;
    let ghost goal = descended(m, q, begun(s0), root_idx as int, root_lb);
    let ghost area = below(m.nodes, root_idx as int);
    let ghost height = node_height(m.nodes, root_idx as int);
    let ghost mut open: Seq<int> = seq![root_idx as int];
    let ghost mut h: Seq<int> = seq![];
    let ghost mut course = begun(s0);
    let ghost sink = *trace;
    let mut stack = [StackEntry { node_idx: EMPTY_NODE, lower_bound: 0 }; 256];
    let mut len: usize = 0;
    push_stack(&mut stack, &mut len, root_idx, root_lb);
    proof {
        assert(entries_of(m, q, h) =~= Seq::<TopKEntry>::empty());
        lemma_node_range(m.nodes, n, root_idx as int);
        assert(node_height(m.nodes, root_idx as int) <= MAX_HEIGHT);
        lemma_frontier_start(m, q, topk@, root_idx as int);
        lemma_walk_start(m, sink);
        reveal(stack_ok);
        assert(unwound(m, q, course, stack@.take(1)) == goal) by {
            reveal_with_fuel(unwound, 2);
            assert(stack@.take(1).drop_last() =~= Seq::<StackEntry>::empty());
        }
    }
    while len > 0
        invariant
            view.complete(),
            m == view@,
            q == qv@,
            n == m.vectors.len(),
            index_ok(m),
            distances_fit(m, q),
            boxes_fit(m, q),
            m.vectors.len() == view.spec_n_vectors(),
            m.nodes.len() == view.spec_n_nodes(),
            ranked(s0),
            len <= 256,
            height <= MAX_HEIGHT,
            open.len() == len,
            stack_ok(m, q, stack@, open, height),
            frontier(m.nodes, area, open, h),
            topk@ == after_scan(m, q, s0, h),
            topk@ == course.s,
            h == leaf_positions(m, course.leaves),
            walk_told(m, sink, *trace, course.leaves, course.events),
            unwound(m, q, course, stack@.take(len as int)) == goal,
            boxes_sound(m) ==> settled(m, q, topk@, area, open),
        decreases weight(m.nodes, open),
    {
        let ghost p = len - 1;
        let ghost i = open[p];
        let ghost s = topk@;
        let ghost rest = open.remove(p);
        let ghost pile = stack@.take(len as int);
        let ghost arrived = course;
        proof {
            lemma_after_scan(m, q, s0, h);
            lemma_frontier_remove(m.nodes, area, open, h, p);
            if boxes_sound(m) {
                lemma_settled_remove(m, q, s, area, open, p);
            }
            lemma_weight_remove(m.nodes, open, p);
            lemma_open_counts(m, area, rest, h);
            lemma_node_range(m.nodes, n, i);
            lemma_stack_pop(m, q, stack@, open, height);
            open = rest;
        }
        len = len - 1;
        let current = stack[len];
        let node = view.tree_node(current.node_idx);
        proof {
            assert(pile.last() == current);
            assert(pile.drop_last() =~= stack@.take(len as int));
        }
        if !can_bound_improve(topk, current.lower_bound, node.min_original_id) {
            proof {
                lemma_bound_settles(m, q, s, i, current.lower_bound);
                if boxes_sound(m) {
                    lemma_settled_done(m, q, s, area, open, i);
                }
                lemma_walk_node(
                    m,
                    sink,
                    *trace,
                    course.leaves,
                    course.events,
                    TraceEvent::PrunedNode,
                );
                course = course.tells(TraceEvent::PrunedNode);
            }
            trace.inc_pruned_nodes();
            continue;
        }
        proof {
            lemma_walk_node(
                m,
                sink,
                *trace,
                course.leaves,
                course.events,
                TraceEvent::NodeVisited,
            );
            course = course.tells(TraceEvent::NodeVisited);
        }
        trace.inc_nodes_visited();
        assert(node_ok(m.nodes, n, i));
        if node.is_leaf() {
            proof {
                lemma_walk_leaf(m, sink, *trace, course.leaves, course.events, i);
            }
            trace.inc_leaves_scanned();
            scan_cell(view, qv, node.offset, node.count, topk);
            trace.add_branch_scan(node.count);
            proof {
                lemma_scanned_leaf(m, q, s0, area, open, h, i);
                h = h + node_span(m, i);
                course = course.scans(m, q, i);
            }
            continue;
        }
        proof {
            lemma_unwound_inner(m, q, arrived, pile);
        }
        let (near, far) = ranked_children(view, qv, &node);
        let ghost near_idx = near.idx as int;
        let ghost far_idx = far.idx as int;
        proof {
            lemma_node_range(m.nodes, n, near_idx);
            lemma_node_range(m.nodes, n, far_idx);
            assert(node_height(m.nodes, near_idx) < node_height(m.nodes, i));
            assert(node_height(m.nodes, far_idx) < node_height(m.nodes, i));
            lemma_box_bounds(m, q, near_idx);
            lemma_box_bounds(m, q, far_idx);
        }
        let push_far: bool = can_bound_improve(topk, far.lower_bound, far.min_original_id);
        let ghost fewer = stack@.take(len as int);
        if push_far {
            proof {
                lemma_stack_push(m, q, stack@, open, height, far.idx, far.lower_bound);
                open = open.push(far_idx);
            }
            push_stack(&mut stack, &mut len, far.idx, far.lower_bound);
        } else {
            proof {
                lemma_pruned(m, q, s, far_idx);
                lemma_walk_node(
                    m,
                    sink,
                    *trace,
                    course.leaves,
                    course.events,
                    TraceEvent::PrunedNode,
                );
                course = course.tells(TraceEvent::PrunedNode);
            }
            trace.inc_pruned_nodes();
        }
        let ghost between = stack@.take(len as int);
        assert(between =~= maybe_stacked(m, q, fewer, far_idx, push_far));
        let push_near: bool = can_bound_improve(topk, near.lower_bound, near.min_original_id);
        if push_near {
            proof {
                lemma_stack_push(m, q, stack@, open, height, near.idx, near.lower_bound);
                open = open.push(near_idx);
            }
            push_stack(&mut stack, &mut len, near.idx, near.lower_bound);
        } else {
            proof {
                lemma_pruned(m, q, s, near_idx);
                lemma_walk_node(
                    m,
                    sink,
                    *trace,
                    course.leaves,
                    course.events,
                    TraceEvent::PrunedNode,
                );
                course = course.tells(TraceEvent::PrunedNode);
            }
            trace.inc_pruned_nodes();
        }
        proof {
            assert(stack@.take(len as int) =~= maybe_stacked(m, q, between, near_idx, push_near));
            lemma_expand(m, q, s, area, rest, h, i, far_idx, push_far, near_idx, push_near);
            lemma_open_counts(m, area, open, h);
        }
    }
    proof {
        lemma_after_scan(m, q, s0, h);
        lemma_frontier_end(m, q, topk@, area, open, h);
        assert(course == goal);
        assert(walked(m, q, s0, topk@, root_idx as int, h)) by {
            assert forall|j: int| boxes_sound(m) && #[trigger] in_node(
                m.nodes,
                root_idx as int,
                j,
            ) implies covered(topk@, entry_of(m, q, j)) by {
                assert(area.contains(j));
            }
            assert forall|k: int| 0 <= k < h.len() implies in_node(
                m.nodes,
                root_idx as int,
                #[trigger] h[k],
            ) by {
                assert(area.contains(h[k]));
            }
        }
    }
}

/// The stack holds the open nodes with their bounds, and leaves room for the
/// levels that are still below them.
#[verifier::opaque]
spec fn stack_ok(
    m: IndexModel,
    q: Seq<i16>,
    stack: Seq<StackEntry>,
    open: Seq<int>,
    height: int,
) -> bool {
    &&& stack.len() == 256
    &&& open.len() <= 256
    &&& forall|p: int|
        0 <= p < open.len() ==> {
            &&& (#[trigger] stack[p]).node_idx == open[p]
            &&& bounds_below(m, q, open[p], stack[p].lower_bound)
            &&& node_height(m.nodes, open[p]) <= height - p
        }
}

proof fn lemma_stack_pop(
    m: IndexModel,
    q: Seq<i16>,
    stack: Seq<StackEntry>,
    open: Seq<int>,
    height: int,
)
    requires
        stack_ok(m, q, stack, open, height),
        open.len() > 0,
    ensures
        stack_ok(m, q, stack, open.remove(open.len() - 1), height),
        stack[open.len() - 1].node_idx == open[open.len() - 1],
        bounds_below(m, q, open[open.len() - 1], stack[open.len() - 1].lower_bound),
        node_height(m.nodes, open[open.len() - 1]) <= height - open.len() + 1,
{
    reveal(stack_ok);
    assert(stack[open.len() - 1].node_idx == open[open.len() - 1]);
}

proof fn lemma_stack_push(
    m: IndexModel,
    q: Seq<i16>,
    stack: Seq<StackEntry>,
    open: Seq<int>,
    height: int,
    node_idx: u32,
    lower_bound: i32,
)
    requires
        stack_ok(m, q, stack, open, height),
        height <= MAX_HEIGHT,
        0 <= node_height(m.nodes, node_idx as int) <= height - open.len(),
        bounds_below(m, q, node_idx as int, lower_bound),
    ensures
        open.len() < 256,
        stack_ok(
            m,
            q,
            stack.update(open.len() as int, (StackEntry { node_idx, lower_bound })),
            open.push(node_idx as int),
            height,
        ),
{
    reveal(stack_ok);
}

/// A child of an inner node, with the bound of its box.
#[derive(Clone, Copy)]
struct Child {
    idx: u32,
    lower_bound: i32,
    min_original_id: u32,
}

spec fn is_child(m: IndexModel, q: Seq<i16>, child: Child) -> bool {
    &&& child.idx < m.nodes.len()
    &&& child.lower_bound == box_bound(q, m.nodes[child.idx as int])
    &&& child.min_original_id == m.nodes[child.idx as int].min_original_id
}

/// The nearer child and the farther one; on a tie the left child is nearer.
fn ranked_children(view: &IndexView<'_>, qv: &Vec16I, node: &TreeNode) -> (children: (Child, Child))
    requires
        view.complete(),
        boxes_fit(view@, qv@),
        node.left < view@.nodes.len(),
        node.right < view@.nodes.len(),
    ensures
        is_child(view@, qv@, children.0),
        is_child(view@, qv@, children.1),
        if box_bound(qv@, view@.nodes[node.left as int]) <= box_bound(
            qv@,
            view@.nodes[node.right as int],
        ) {
            children.0.idx == node.left && children.1.idx == node.right
        } else {
            children.0.idx == node.right && children.1.idx == node.left
        },
{
    let left = child_of(view, qv, node.left);
    let right = child_of(view, qv, node.right);
    if left.lower_bound <= right.lower_bound {
        (left, right)
    } else {
        (right, left)
    }
}

proof fn lemma_open_counts(m: IndexModel, area: Set<int>, open: Seq<int>, h: Seq<int>)
    requires
        index_ok(m),
        frontier(m.nodes, area, open, h),
    ensures
        weight(m.nodes, open) >= 0,
{
    lemma_frontier_end(m, seq![], seq![], area, open, h);
    assert forall|r: int| 0 <= r < open.len() implies m.nodes[#[trigger] open[r]].count >= 1 by {
        lemma_node_range(m.nodes, m.vectors.len() as int, open[r]);
    }
    lemma_weight_nonnegative(m.nodes, open);
}

/// Scanning a leaf settles it.
proof fn lemma_scanned_leaf(
    m: IndexModel,
    q: Seq<i16>,
    s0: Seq<TopKEntry>,
    area: Set<int>,
    open: Seq<int>,
    h: Seq<int>,
    i: int,
)
    requires
        ranked(s0),
        0 <= i < m.nodes.len(),
        frontier(m.nodes, area, open, h),
        apart(m.nodes, open, h, i),
        forall|j: int| #[trigger] in_node(m.nodes, i, j) ==> area.contains(j),
        boxes_sound(m) ==> settled_but(m, q, after_scan(m, q, s0, h), area, open, i),
    ensures
        frontier(m.nodes, area, open, h + node_span(m, i)),
        after_scan(m, q, s0, h + node_span(m, i)) == after_scan(
            m,
            q,
            after_scan(m, q, s0, h),
            node_span(m, i),
        ),
        boxes_sound(m) ==> settled(m, q, after_scan(m, q, s0, h + node_span(m, i)), area, open),
{
    let s = after_scan(m, q, s0, h);
    let t = after_scan(m, q, s, node_span(m, i));
    lemma_after_scan(m, q, s0, h);
    lemma_leaf_settled(m, q, s, i);
    lemma_frontier_scan(m.nodes, area, open, h, i);
    lemma_after_scan_concat(m, q, s0, h, node_span(m, i));
    if boxes_sound(m) {
        lemma_settled_improves(m, q, s, t, area, open, i);
        lemma_settled_done(m, q, t, area, open, i);
    }
}

/// Traverses the tree at `root_idx`.
pub(crate) fn traverse_tree<T: SearchTraceSink>(
    view: &IndexView<'_>,
    qv: &Vec16I,
    root_idx: u32,
    topk: &mut TopK,
    trace: &mut T,
)
    requires
        view.complete(),
        index_ok(view@),
        distances_fit(view@, qv@),
        boxes_fit(view@, qv@),
        root_idx < view@.nodes.len(),
    ensures
        ({
            let i = root_idx as int;
            let course = descended(view@, qv@, begun(old(topk)@), i, node_bound(view@, qv@, i));
            let h = leaf_positions(view@, course.leaves);
            &&& final(topk)@ == course.s
            &&& walked(view@, qv@, old(topk)@, course.s, i, h)
            &&& walk_told(view@, *old(trace), *final(trace), course.leaves, course.events)
        }),
{
    let root = view.tree_node(root_idx);
    proof {
        lemma_box_bounds(view@, qv@, root_idx as int);
    }
    let root_lb: i32 = bbox_lower_bound_sq(qv, &root);
    traverse_tree_with_lb(view, qv, root_idx, root_lb, topk, trace)
}

/// The root of a tree that is to be searched.
#[derive(Clone, Copy)]
pub struct RootCandidate {
    pub key: u64,
    pub root_idx: u32,
    pub lower_bound: i32,
}

/// The bound and the key that belong to node `i`.
pub open spec fn bounds_node(
    m: IndexModel,
    q: Seq<i16>,
    i: int,
    lower_bound: i32,
    key: u64,
) -> bool {
    &&& 0 <= i < m.nodes.len()
    &&& lower_bound == box_bound(q, m.nodes[i])
    &&& key == packed_key(lower_bound, m.nodes[i].min_original_id)
}

/// The bound and the key of a candidate are those of its root.
pub open spec fn candidate_bounds(
    m: IndexModel,
    q: Seq<i16>,
    candidate: RootCandidate,
) -> bool {
    bounds_node(m, q, candidate.root_idx as int, candidate.lower_bound, candidate.key)
}

/// The candidates have their bounds and keys, and share no vectors.
pub open spec fn candidates_ok(
    m: IndexModel,
    q: Seq<i16>,
    candidates: Seq<RootCandidate>,
) -> bool {
    &&& forall|a: int|
        0 <= a < candidates.len() ==> candidate_bounds(m, q, #[trigger] candidates[a])
    &&& disjoint_roots(m.nodes, root_nodes(candidates))
}

pub open spec fn root_nodes(candidates: Seq<RootCandidate>) -> Seq<int> {
    candidates.map_values(|c: RootCandidate| c.root_idx as int)
}

spec fn open_nodes(open: Seq<NodeCandidate>) -> Seq<int> {
    open.map_values(|c: NodeCandidate| c.node_idx as int)
}

/// The queue holds the open nodes.
#[verifier::opaque]
spec fn queue_ok(
    m: IndexModel,
    q: Seq<i16>,
    items: Multiset<NodeCandidate>,
    open: Seq<NodeCandidate>,
) -> bool {
    &&& items == open.to_multiset()
    &&& forall|p: int|
        0 <= p < open.len() ==> bounds_node(
            m,
            q,
            (#[trigger] open[p]).node_idx as int,
            open[p].lower_bound,
            open[p].key,
        )
}

proof fn lemma_queue_empty(m: IndexModel, q: Seq<i16>)
    ensures
        queue_ok(m, q, Multiset::empty(), seq![]),
        open_nodes(seq![]) == Seq::<int>::empty(),
{
    reveal(queue_ok);
    let none: Seq<NodeCandidate> = seq![];
    none.to_multiset_ensures();
    assert(none.to_multiset() =~= Multiset::empty());
    assert(open_nodes(none) =~= Seq::<int>::empty());
}

proof fn lemma_queue_push(
    m: IndexModel,
    q: Seq<i16>,
    items: Multiset<NodeCandidate>,
    open: Seq<NodeCandidate>,
    c: NodeCandidate,
)
    requires
        queue_ok(m, q, items, open),
        bounds_node(m, q, c.node_idx as int, c.lower_bound, c.key),
    ensures
        queue_ok(m, q, items.insert(c), open.push(c)),
        open_nodes(open.push(c)) == open_nodes(open).push(c.node_idx as int),
        items.len() == open_nodes(open).len(),
{
    reveal(queue_ok);
    open.to_multiset_ensures();
    assert(open_nodes(open.push(c)) =~= open_nodes(open).push(c.node_idx as int));
}

/// Finds the popped candidate among the open nodes.
proof fn lemma_queue_pop(
    m: IndexModel,
    q: Seq<i16>,
    items: Multiset<NodeCandidate>,
    open: Seq<NodeCandidate>,
    c: NodeCandidate,
) -> (p: int)
    requires
        queue_ok(m, q, items, open),
        items.count(c) > 0,
        forall|x: NodeCandidate| #[trigger] items.count(x) > 0 ==> c.key <= x.key,
    ensures
        0 <= p < open.len(),
        open[p] == c,
        queue_ok(m, q, items.remove(c), open.remove(p)),
        open_nodes(open).remove(p) == open_nodes(open.remove(p)),
        open_nodes(open)[p] == c.node_idx as int,
        bounds_node(m, q, c.node_idx as int, c.lower_bound, c.key),
        forall|r: int| 0 <= r < open.len() ==> c.key <= (#[trigger] open[r]).key,
{
    reveal(queue_ok);
    open.to_multiset_ensures();
    assert(open.contains(c));
    let p = choose|p: int| 0 <= p < open.len() && open[p] == c;
    assert(open_nodes(open).remove(p) =~= open_nodes(open.remove(p)));
    assert forall|r: int| 0 <= r < open.len() implies c.key <= (#[trigger] open[r]).key by {
        assert(open.contains(open[r]));
        assert(items.count(open[r]) > 0);
    }
    p
}

proof fn lemma_queue_drained(
    m: IndexModel,
    q: Seq<i16>,
    items: Multiset<NodeCandidate>,
    open: Seq<NodeCandidate>,
)
    requires
        queue_ok(m, q, items, open),
        items.len() == 0,
    ensures
        open_nodes(open) == Seq::<int>::empty(),
{
    reveal(queue_ok);
    open.to_multiset_ensures();
    assert(open_nodes(open) =~= Seq::<int>::empty());
}

/// A node whose key is not better than the worst neighbour is settled.
proof fn lemma_key_settles(
    m: IndexModel,
    q: Seq<i16>,
    s: Seq<TopKEntry>,
    i: int,
    lower_bound: i32,
    key: u64,
)
    requires
        index_ok(m),
        distances_fit(m, q),
        bounds_node(m, q, i, lower_bound, key),
        key >= worst_key_of(s),
    ensures
        boxes_sound(m) ==> node_settled(m, q, s, i),
{
    if boxes_sound(m) {
        assert forall|j: int| #[trigger] in_node(m.nodes, i, j) implies covered(
            s,
            entry_of(m, q, j),
        ) by {
            lemma_node_key(m, q, i, j);
        }
    }
}

/// Where the smallest key is not better than the worst neighbour, everything
/// that is open is settled.
proof fn lemma_queue_settled(
    m: IndexModel,
    q: Seq<i16>,
    s: Seq<TopKEntry>,
    area: Set<int>,
    items: Multiset<NodeCandidate>,
    open: Seq<NodeCandidate>,
    key: u64,
)
    requires
        index_ok(m),
        distances_fit(m, q),
        queue_ok(m, q, items, open),
        forall|r: int| 0 <= r < open.len() ==> key <= (#[trigger] open[r]).key,
        key >= worst_key_of(s),
        boxes_sound(m) ==> settled(m, q, s, area, open_nodes(open)),
    ensures
        boxes_sound(m) ==> forall|j: int| #[trigger]
            area.contains(j) ==> covered(s, entry_of(m, q, j)),
{
    reveal(queue_ok);
    if boxes_sound(m) {
        assert forall|p: int| 0 <= p < open_nodes(open).len() implies node_settled(
            m,
            q,
            s,
            #[trigger] open_nodes(open)[p],
        ) by {
            let c = open[p];
            lemma_key_settles(m, q, s, c.node_idx as int, c.lower_bound, c.key);
        }
        lemma_settled_all(m, q, s, area, open_nodes(open));
    }
}

/// The nodes that could still improve the neighbours.
pub open spec fn contenders(m: IndexModel, q: Seq<i16>, s: Seq<TopKEntry>) -> Set<int> {
    Set::new(
        |i: int|
            0 <= i < m.nodes.len() && can_improve(
                s,
                box_bound(q, m.nodes[i]) as i32,
                m.nodes[i].min_original_id,
            ),
    )
}

pub proof fn lemma_contenders_len(m: IndexModel, q: Seq<i16>, s: Seq<TopKEntry>)
    ensures
        contenders(m, q, s).finite(),
        contenders(m, q, s).len() <= m.nodes.len(),
{
    let all = set_int_range(0, m.nodes.len() as int);
    lemma_int_range(0, m.nodes.len() as int);
    assert(contenders(m, q, s).subset_of(all));
    lemma_len_subset(contenders(m, q, s), all);
}

/// Each of the nodes could still improve the neighbours.
#[verifier::opaque]
spec fn contending(m: IndexModel, q: Seq<i16>, s: Seq<TopKEntry>, open: Seq<int>) -> bool {
    forall|p: int| 0 <= p < open.len() ==> contenders(m, q, s).contains(#[trigger] open[p])
}

proof fn lemma_contending_none(m: IndexModel, q: Seq<i16>, s: Seq<TopKEntry>)
    ensures
        contending(m, q, s, seq![]),
{
    reveal(contending);
}

/// What could improve the neighbours `t` could improve them before.
proof fn lemma_contending_push(
    m: IndexModel,
    q: Seq<i16>,
    s: Seq<TopKEntry>,
    t: Seq<TopKEntry>,
    open: Seq<int>,
    i: int,
)
    requires
        contending(m, q, s, open),
        worst_key_of(t) <= worst_key_of(s),
        s.len() <= t.len(),
        0 <= i < m.nodes.len(),
        can_improve(t, box_bound(q, m.nodes[i]) as i32, m.nodes[i].min_original_id),
    ensures
        contending(m, q, s, open.push(i)),
{
    reveal(contending);
    assert(contenders(m, q, s).contains(i));
    assert forall|p: int| 0 <= p < open.push(i).len() implies contenders(m, q, s).contains(
        #[trigger] open.push(i)[p],
    ) by {
        if p < open.len() {
            assert(contenders(m, q, s).contains(open[p]));
        }
    }
}

proof fn lemma_contending_remove(
    m: IndexModel,
    q: Seq<i16>,
    s: Seq<TopKEntry>,
    open: Seq<int>,
    p: int,
)
    requires
        contending(m, q, s, open),
        0 <= p < open.len(),
    ensures
        contending(m, q, s, open.remove(p)),
{
    reveal(contending);
    let rest = open.remove(p);
    assert forall|r: int| 0 <= r < rest.len() implies contenders(m, q, s).contains(
        #[trigger] rest[r],
    ) by {
        let at = if r < p {
            r
        } else {
            r + 1
        };
        assert(rest[r] == open[at]);
    }
}

/// There are no more open nodes than contenders.
proof fn lemma_contending_len(
    m: IndexModel,
    q: Seq<i16>,
    s: Seq<TopKEntry>,
    area: Set<int>,
    open: Seq<int>,
    h: Seq<int>,
)
    requires
        index_ok(m),
        frontier(m.nodes, area, open, h),
        contending(m, q, s, open),
    ensures
        open.len() <= contenders(m, q, s).len(),
{
    reveal(contending);
    lemma_frontier_distinct(m.nodes, m.vectors.len() as int, area, open, h);
    open.unique_seq_to_set();
    lemma_contenders_len(m, q, s);
    assert(open.to_set().subset_of(contenders(m, q, s))) by {
        assert forall|x: int| open.to_set().contains(x) implies contenders(m, q, s).contains(x) by {
            let p = choose|p: int| 0 <= p < open.len() && open[p] == x;
            assert(contenders(m, q, s).contains(open[p]));
        }
    }
    lemma_len_subset(open.to_set(), contenders(m, q, s));
}

/// What a search of several trees does: it offers the vectors `h` below them,
/// each once, and what it leaves out cannot improve the result.
pub open spec fn searched(
    m: IndexModel,
    q: Seq<i16>,
    s: Seq<TopKEntry>,
    t: Seq<TopKEntry>,
    area: Set<int>,
    h: Seq<int>,
) -> bool {
    &&& t == after_scan(m, q, s, h)
    &&& h.no_duplicates()
    &&& forall|k: int| 0 <= k < h.len() ==> area.contains(#[trigger] h[k])
    &&& boxes_sound(m) ==> forall|j: int| #[trigger]
        area.contains(j) ==> covered(t, entry_of(m, q, j))
}

/// Puts the roots that can still contribute into the queue; returns whether
/// there was room.
fn seed_queue<T: SearchTraceSink>(
    Ghost(m): Ghost<IndexModel>,
    Ghost(q): Ghost<Seq<i16>>,
    candidates: &[RootCandidate],
    topk: &TopK,
    queue: &mut NodeQueue,
    trace: &mut T,
) -> (seeded: (bool, Ghost<Seq<NodeCandidate>>))
    requires
        index_ok(m),
        distances_fit(m, q),
        candidates_ok(m, q, candidates@),
        old(queue).wf(),
        old(queue)@ == Seq::<NodeCandidate>::empty(),
        old(queue).items() == Multiset::<NodeCandidate>::empty(),
    ensures
        final(queue).wf(),
        queue_ok(m, q, final(queue).items(), seeded.1@),
        seeded.0 ==> frontier(
            m.nodes,
            below_all(m.nodes, root_nodes(candidates@)),
            open_nodes(seeded.1@),
            seq![],
        ),
        seeded.0 && boxes_sound(m) ==> settled(
            m,
            q,
            topk@,
            below_all(m.nodes, root_nodes(candidates@)),
            open_nodes(seeded.1@),
        ),
        seeded.0 ==> contending(m, q, topk@, open_nodes(seeded.1@)),
        !seeded.0 ==> contenders(m, q, topk@).len() > NODE_QUEUE_CAP,
        ({
            let front = front_of(topk@, candidates@);
            &&& front == (Front {
                course: Course { s: topk@, leaves: seq![], events: front.course.events },
                open: final(queue)@,
                full: !seeded.0,
                done: false,
            })
            &&& walk_told(m, *old(trace), *final(trace), seq![], front.course.events)
        }),
{
    let ghost roots = root_nodes(candidates@);
    let ghost mut open: Seq<NodeCandidate> = seq![];
    let ghost mut course = begun(topk@);
    let ghost leaves: Seq<int> = seq![];
    let ghost sink = *trace;
    let mut i: usize = 0;
    proof {
        lemma_queue_empty(m, q);
        lemma_frontier_empty(m, q, topk@, roots);
        lemma_contending_none(m, q, topk@);
        lemma_walk_start(m, sink);
    }
    while i < candidates.len()
        invariant
            i <= candidates.len(),
            index_ok(m),
            distances_fit(m, q),
            candidates_ok(m, q, candidates@),
            roots == root_nodes(candidates@),
            queue.wf(),
            queue_ok(m, q, queue.items(), open),
            frontier(m.nodes, below_all(m.nodes, roots.take(i as int)), open_nodes(open), seq![]),
            contending(m, q, topk@, open_nodes(open)),
            leaves == Seq::<int>::empty(),
            sink == *old(trace),
            course.s == topk@,
            course.leaves == leaves,
            walk_told(m, sink, *trace, leaves, course.events),
            front_of(topk@, candidates@.take(i as int)) == (Front {
                course,
                open: queue@,
                full: false,
                done: false,
            }),
            boxes_sound(m) ==> settled(
                m,
                q,
                topk@,
                below_all(m.nodes, roots.take(i as int)),
                open_nodes(open),
            ),
        decreases candidates.len() - i,
    {
        let candidate = candidates[i];
        proof {
            lemma_frontier_grow(m, q, topk@, roots, i as int, open_nodes(open));
            assert(candidates@[i as int] == candidate);
            assert(candidates@.take(i + 1).drop_last() =~= candidates@.take(i as int));
        }
        if candidate.key < topk.worst_key() {
            let entry = NodeCandidate {
                key: candidate.key,
                node_idx: candidate.root_idx,
                lower_bound: candidate.lower_bound,
            };
            proof {
                lemma_queue_push(m, q, queue.items(), open, entry);
                lemma_contending_push(m, q, topk@, topk@, open_nodes(open), roots[i as int]);
            }
            if !queue.push(entry) {
                proof {
                    lemma_contending_len(
                        m,
                        q,
                        topk@,
                        below_all(m.nodes, roots.take(i + 1)),
                        open_nodes(open).push(roots[i as int]),
                        seq![],
                    );
                    lemma_front_full(topk@, candidates@, i + 1);
                }
                return (false, Ghost(open));
            }
            proof {
                open = open.push(entry);
            }
        } else {
            proof {
                lemma_key_settles(
                    m,
                    q,
                    topk@,
                    candidate.root_idx as int,
                    candidate.lower_bound,
                    candidate.key,
                );
                lemma_walk_node(m, sink, *trace, leaves, course.events, TraceEvent::PrunedNode);
                course = course.tells(TraceEvent::PrunedNode);
            }
            trace.inc_pruned_nodes();
        }
        i = i + 1;
    }
    assert(roots.take(i as int) =~= roots);
    assert(candidates@.take(i as int) =~= candidates@);
    (true, Ghost(open))
}

/// A child as it is queued.
spec fn child_candidate(child: Child) -> NodeCandidate {
    NodeCandidate {
        key: packed_key(child.lower_bound, child.min_original_id) as u64,
        node_idx: child.idx,
        lower_bound: child.lower_bound,
    }
}

/// Adds a child to the queue; returns whether there was room.
fn push_child(
    Ghost(m): Ghost<IndexModel>,
    Ghost(q): Ghost<Seq<i16>>,
    queue: &mut NodeQueue,
    child: Child,
    Ghost(open): Ghost<Seq<NodeCandidate>>,
) -> (pushed: (bool, Ghost<Seq<NodeCandidate>>))
    requires
        old(queue).wf(),
        queue_ok(m, q, old(queue).items(), open),
        is_child(m, q, child),
    ensures
        final(queue).wf(),
        pushed.0 == (open_nodes(open).len() < NODE_QUEUE_CAP),
        pushed.0 == (old(queue)@.len() < NODE_QUEUE_CAP),
        pushed.0 ==> final(queue)@ == heap_pushed(old(queue)@, child_candidate(child)),
        !pushed.0 ==> final(queue)@ == old(queue)@,
        pushed.0 ==> queue_ok(m, q, final(queue).items(), pushed.1@) && open_nodes(pushed.1@)
            == open_nodes(open).push(child.idx as int),
{
    let key: u64 = TopK::make_key(child.lower_bound, child.min_original_id);
    let entry = NodeCandidate { key, node_idx: child.idx, lower_bound: child.lower_bound };
    proof {
        lemma_queue_push(m, q, queue.items(), open, entry);
    }
    let pushed: bool = queue.push(entry);
    (pushed, Ghost(open.push(entry)))
}

/// The child of a node.
fn child_of(view: &IndexView<'_>, qv: &Vec16I, idx: u32) -> (child: Child)
    requires
        view.complete(),
        boxes_fit(view@, qv@),
        idx < view@.nodes.len(),
    ensures
        is_child(view@, qv@, child),
        child.idx == idx,
{
    let node = view.tree_node(idx);
    Child {
        idx,
        lower_bound: bbox_lower_bound_sq(qv, &node),
        min_original_id: node.min_original_id,
    }
}

/// Searches the trees of the candidates one after the other.
fn traverse_each<T: SearchTraceSink>(
    view: &IndexView<'_>,
    qv: &Vec16I,
    candidates: &[RootCandidate],
    topk: &mut TopK,
    trace: &mut T,
)
    requires
        view.complete(),
        index_ok(view@),
        distances_fit(view@, qv@),
        boxes_fit(view@, qv@),
        candidates_ok(view@, qv@, candidates@),
    ensures
        ({
            let course = descended_each(view@, qv@, old(topk)@, candidates@);
            &&& final(topk)@ == course.s
            &&& searched(
                view@,
                qv@,
                old(topk)@,
                course.s,
                below_all(view@.nodes, root_nodes(candidates@)),
                leaf_positions(view@, course.leaves),
            )
            &&& walk_told(view@, *old(trace), *final(trace), course.leaves, course.events)
        }),
{
    proof {
        use_type_invariant(&*topk);
        topk.lemma_ranked();
    }
    let ghost m = view@;
    let ghost q = qv@;
    let ghost roots = root_nodes(candidates@);
    let ghost s0 = topk@;
    let ghost mut again: Seq<int> = seq![];
    let ghost mut course = begun(s0);
    let ghost sink = *trace;
    let mut i: usize = 0;
    proof {
        assert(entries_of(m, q, again) =~= Seq::<TopKEntry>::empty());
        lemma_walk_start(m, sink);
    }
    while i < candidates.len()
        invariant
            i <= candidates.len(),
            view.complete(),
            m == view@,
            q == qv@,
            index_ok(m),
            distances_fit(m, q),
            boxes_fit(m, q),
            candidates_ok(m, q, candidates@),
            roots == root_nodes(candidates@),
            ranked(s0),
            topk@ == after_scan(m, q, s0, again),
            again.no_duplicates(),
            again == leaf_positions(m, course.leaves),
            course == descended_each(m, q, s0, candidates@.take(i as int)),
            course.s == topk@,
            walk_told(m, sink, *trace, course.leaves, course.events),
            forall|k: int|
                0 <= k < again.len() ==> below_all(m.nodes, roots.take(i as int)).contains(
                    #[trigger] again[k],
                ),
            boxes_sound(m) ==> forall|j: int| #[trigger]
                below_all(m.nodes, roots.take(i as int)).contains(j) ==> covered(
                    topk@,
                    entry_of(m, q, j),
                ),
        decreases candidates.len() - i,
    {
        let candidate = candidates[i];
        let ghost s = topk@;
        let ghost root = roots[i as int];
        proof {
            assert(candidates@[i as int] == candidate);
            assert(candidates@.take(i + 1).drop_last() =~= candidates@.take(i as int));
            lemma_box_bounds(m, q, root);
            lemma_after_scan(m, q, s0, again);
            lemma_below_push(m.nodes, roots, i as int);
        }
        if candidate.key < topk.worst_key() {
            let ghost told = *trace;
            let ghost next = descended(
                m,
                q,
                begun(s),
                candidate.root_idx as int,
                candidate.lower_bound,
            );
            traverse_tree_with_lb(
                view,
                qv,
                candidate.root_idx,
                candidate.lower_bound,
                topk,
                trace,
            );
            proof {
                let g = leaf_positions(m, next.leaves);
                assert(walked(m, q, s, topk@, root, g));
                lemma_walk_concat(
                    m,
                    sink,
                    told,
                    *trace,
                    course.leaves,
                    course.events,
                    next.leaves,
                    next.events,
                );
                course = course.and_on(next);
                lemma_after_scan(m, q, s, g);
                lemma_after_scan_concat(m, q, s0, again, g);
                lemma_walked_again(m, roots, i as int, again, g);
                again = again + g;
            }
        } else {
            proof {
                lemma_key_settles(m, q, s, root, candidate.lower_bound, candidate.key);
            }
        }
        i = i + 1;
    }
    assert(roots.take(i as int) =~= roots);
    assert(candidates@.take(i as int) =~= candidates@);
}

/// Positions below different roots are different.
proof fn lemma_walked_again(
    m: IndexModel,
    roots: Seq<int>,
    i: int,
    again: Seq<int>,
    g: Seq<int>,
)
    requires
        disjoint_roots(m.nodes, roots),
        0 <= i < roots.len(),
        again.no_duplicates(),
        g.no_duplicates(),
        forall|k: int|
            0 <= k < again.len() ==> below_all(m.nodes, roots.take(i)).contains(
                #[trigger] again[k],
            ),
        forall|k: int| 0 <= k < g.len() ==> in_node(m.nodes, roots[i], #[trigger] g[k]),
    ensures
        (again + g).no_duplicates(),
        forall|k: int|
            0 <= k < (again + g).len() ==> below_all(m.nodes, roots.take(i + 1)).contains(
                #[trigger] (again + g)[k],
            ),
{
    let all = again + g;
    lemma_below_push(m.nodes, roots, i);
    assert forall|a: int, b: int|
        0 <= a < all.len() && 0 <= b < all.len() && a != b implies all[a] != all[b] by {
        if a < again.len() && b >= again.len() {
            assert(below_all(m.nodes, roots.take(i)).contains(again[a]));
            assert(in_node(m.nodes, roots[i], g[b - again.len()]));
        } else if b < again.len() && a >= again.len() {
            assert(below_all(m.nodes, roots.take(i)).contains(again[b]));
            assert(in_node(m.nodes, roots[i], g[a - again.len()]));
        } else if a < again.len() {
            assert(again[a] != again[b]);
        } else {
            assert(g[a - again.len()] != g[b - again.len()]);
        }
    }
    assert forall|k: int| 0 <= k < all.len() implies below_all(
        m.nodes,
        roots.take(i + 1),
    ).contains(#[trigger] all[k]) by {
        if k < again.len() {
            assert(below_all(m.nodes, roots.take(i)).contains(again[k]));
        } else {
            assert(in_node(m.nodes, roots[i], g[k - again.len()]));
        }
    }
}

/// Searches the trees of the candidates together, the node with the smallest
/// key first. Where the open nodes outgrow the queue, which takes more
/// contenders than it has room for, the search starts anew from the neighbours
/// it began with, and takes the trees one after the other.
pub(crate) fn traverse_candidates_best_first<T: SearchTraceSink>(
    view: &IndexView<'_>,
    qv: &Vec16I,
    candidates: &[RootCandidate],
    topk: &mut TopK,
    trace: &mut T,
)
    requires
        view.complete(),
        index_ok(view@),
        distances_fit(view@, qv@),
        boxes_fit(view@, qv@),
        candidates_ok(view@, qv@, candidates@),
    ensures
        ({
            let (lost, course) = trees_searched(view@, qv@, old(topk)@, candidates@);
            &&& final(topk)@ == course.s
            &&& searched(
                view@,
                qv@,
                old(topk)@,
                course.s,
                below_all(view@.nodes, root_nodes(candidates@)),
                leaf_positions(view@, course.leaves),
            )
            &&& contenders(view@, qv@, old(topk)@).len() <= NODE_QUEUE_CAP ==> lost.len() == 0
            &&& walk_told(view@, *old(trace), *final(trace), lost + course.leaves, course.events)
        }),
{
    proof {
        use_type_invariant(&*topk);
        topk.lemma_ranked();
    }
    let ghost m = view@;
    let ghost q = qv@;
    let ghost n = m.vectors.len() as int;
    let ghost s0 = topk@;
    let ghost area = below_all(m.nodes, root_nodes(candidates@));
    let ghost mut h: Seq<int> = seq![];
    let ghost sink = *trace;
    let entry = *topk;
    let mut queue = NodeQueue::new();
    let (seeded, Ghost(seeds)) = seed_queue(
        Ghost(m),
        Ghost(q),
        candidates,
        topk,
        &mut queue,
        trace,
    );
    let ghost start = front_of(s0, candidates@);
    let ghost mut open: Seq<NodeCandidate> = seeds;
    let ghost mut course = start.course;
    let ghost mut steps: nat = 0;
    let mut overflow: bool = !seeded;
    let mut done: bool = false;
    proof {
        assert(entries_of(m, q, h) =~= Seq::<TopKEntry>::empty());
        lemma_walk_start(m, sink);
    }
    while !overflow && !done
        invariant
            view.complete(),
            m == view@,
            q == qv@,
            n == m.vectors.len(),
            index_ok(m),
            distances_fit(m, q),
            boxes_fit(m, q),
            ranked(s0),
            topk@ == after_scan(m, q, s0, h),
            h == leaf_positions(m, course.leaves),
            course.s == topk@,
            walk_told(m, sink, *trace, course.leaves, course.events),
            advanced_by(m, q, start, steps) == (Front {
                course,
                open: queue@,
                full: overflow,
                done,
            }),
            h.no_duplicates(),
            forall|k: int| 0 <= k < h.len() ==> area.contains(#[trigger] h[k]),
            overflow ==> contenders(m, q, s0).len() > NODE_QUEUE_CAP,
            done && boxes_sound(m) ==> forall|j: int| #[trigger]
                area.contains(j) ==> covered(topk@, entry_of(m, q, j)),
            !overflow && !done ==> {
                &&& queue.wf()
                &&& queue_ok(m, q, queue.items(), open)
                &&& frontier(m.nodes, area, open_nodes(open), h)
                &&& contending(m, q, s0, open_nodes(open))
                &&& boxes_sound(m) ==> settled(m, q, topk@, area, open_nodes(open))
            },
        decreases
                if overflow || done {
                    0
                } else {
                    weight(m.nodes, open_nodes(open)) + 1
                },
    {
        let ghost items = queue.items();
        let ghost before = open;
        let ghost s = topk@;
        let ghost front = Front { course, open: queue@, full: false, done: false };
        proof {
            lemma_after_scan(m, q, s0, h);
            lemma_open_counts(m, area, open_nodes(open), h);
        }
        match queue.pop() {
            None => {
                proof {
                    lemma_queue_drained(m, q, items, open);
                    lemma_frontier_end(m, q, s, area, open_nodes(open), h);
                }
                done = true;
            },
            Some(candidate) => {
                let ghost i = candidate.node_idx as int;
                let ghost p = lemma_queue_pop(m, q, items, open, candidate);
                let ghost rest = open_nodes(open.remove(p));
                proof {
                    lemma_frontier_remove(m.nodes, area, open_nodes(open), h, p);
                    if boxes_sound(m) {
                        lemma_settled_remove(m, q, s, area, open_nodes(open), p);
                    }
                    lemma_weight_remove(m.nodes, open_nodes(open), p);
                    lemma_contending_remove(m, q, s0, open_nodes(open), p);
                    lemma_open_counts(m, area, rest, h);
                    lemma_node_range(m.nodes, n, i);
                    open = open.remove(p);
                }
                if candidate.key >= topk.worst_key() {
                    proof {
                        lemma_queue_settled(m, q, s, area, items, before, candidate.key);
                        lemma_walk_node(
                            m,
                            sink,
                            *trace,
                            course.leaves,
                            course.events,
                            TraceEvent::PrunedNode,
                        );
                        course = course.tells(TraceEvent::PrunedNode);
                    }
                    trace.inc_pruned_nodes();
                    done = true;
                } else {
                    let node = view.tree_node(candidate.node_idx);
                    assert(node_ok(m.nodes, n, i));
                    if !can_bound_improve(topk, candidate.lower_bound, node.min_original_id) {
                        proof {
                            lemma_pruned(m, q, s, i);
                            if boxes_sound(m) {
                                lemma_settled_done(m, q, s, area, rest, i);
                            }
                            lemma_walk_node(
                                m,
                                sink,
                                *trace,
                                course.leaves,
                                course.events,
                                TraceEvent::PrunedNode,
                            );
                            course = course.tells(TraceEvent::PrunedNode);
                        }
                        trace.inc_pruned_nodes();
                    } else if node.is_leaf() {
                        proof {
                            lemma_walk_node(
                                m,
                                sink,
                                *trace,
                                course.leaves,
                                course.events,
                                TraceEvent::NodeVisited,
                            );
                            course = course.tells(TraceEvent::NodeVisited);
                        }
                        trace.inc_nodes_visited();
                        proof {
                            lemma_walk_leaf(m, sink, *trace, course.leaves, course.events, i);
                        }
                        trace.inc_leaves_scanned();
                        scan_cell(view, qv, node.offset, node.count, topk);
                        trace.add_branch_scan(node.count);
                        proof {
                            lemma_scanned_leaf(m, q, s0, area, rest, h, i);
                            h = h + node_span(m, i);
                            course = course.scans(m, q, i);
                            lemma_frontier_end(m, q, topk@, area, rest, h);
                        }
                    } else {
                        proof {
                            lemma_walk_node(
                                m,
                                sink,
                                *trace,
                                course.leaves,
                                course.events,
                                TraceEvent::NodeVisited,
                            );
                            course = course.tells(TraceEvent::NodeVisited);
                        }
                        trace.inc_nodes_visited();
                        let left = child_of(view, qv, node.left);
                        let push_left: bool = can_bound_improve(
                            topk,
                            left.lower_bound,
                            left.min_original_id,
                        );
                        if push_left {
                            let (pushed, Ghost(grown)) = push_child(
                                Ghost(m),
                                Ghost(q),
                                &mut queue,
                                left,
                                Ghost(open),
                            );
                            overflow = !pushed;
                            proof {
                                open = grown;
                                lemma_contending_push(m, q, s0, s, rest, left.idx as int);
                            }
                        } else {
                            proof {
                                lemma_pruned(m, q, s, left.idx as int);
                                lemma_walk_node(
                                    m,
                                    sink,
                                    *trace,
                                    course.leaves,
                                    course.events,
                                    TraceEvent::PrunedNode,
                                );
                                course = course.tells(TraceEvent::PrunedNode);
                            }
                            trace.inc_pruned_nodes();
                        }
                        let ghost half = open_nodes(open);
                        if !overflow {
                            let right = child_of(view, qv, node.right);
                            let push_right: bool = can_bound_improve(
                                topk,
                                right.lower_bound,
                                right.min_original_id,
                            );
                            if push_right {
                                let (pushed, Ghost(grown)) = push_child(
                                    Ghost(m),
                                    Ghost(q),
                                    &mut queue,
                                    right,
                                    Ghost(open),
                                );
                                overflow = !pushed;
                                proof {
                                    open = grown;
                                    lemma_contending_push(m, q, s0, s, half, right.idx as int);
                                }
                            } else {
                                proof {
                                    lemma_pruned(m, q, s, right.idx as int);
                                    lemma_walk_node(
                                        m,
                                        sink,
                                        *trace,
                                        course.leaves,
                                        course.events,
                                        TraceEvent::PrunedNode,
                                    );
                                    course = course.tells(TraceEvent::PrunedNode);
                                }
                                trace.inc_pruned_nodes();
                            }
                            proof {
                                lemma_expand(
                                    m,
                                    q,
                                    s,
                                    area,
                                    rest,
                                    h,
                                    i,
                                    left.idx as int,
                                    push_left,
                                    right.idx as int,
                                    push_right,
                                );
                                let all = maybe_push(
                                    maybe_push(rest, left.idx as int, push_left),
                                    right.idx as int,
                                    push_right,
                                );
                                lemma_contending_len(m, q, s0, area, all, h);
                                if !overflow {
                                    lemma_open_counts(m, area, all, h);
                                }
                            }
                        } else {
                            proof {
                                lemma_room_for_child(m, q, s0, area, rest, h, i);
                            }
                        }
                    }
                }
            },
        }
        proof {
            assert(advanced(m, q, front) == (Front {
                course,
                open: queue@,
                full: overflow,
                done,
            }));
            steps = steps + 1;
        }
    }
    proof {
        lemma_front_end(m, q, start, steps);
    }
    if overflow {
        let ghost told = *trace;
        *topk = entry;
        let ghost each = descended_each(m, q, s0, candidates@);
        traverse_each(view, qv, candidates, topk, trace);
        proof {
            lemma_walk_concat(
                m,
                sink,
                told,
                *trace,
                course.leaves,
                course.events,
                each.leaves,
                each.events,
            );
        }
    } else {
        proof {
            assert(Seq::<int>::empty() + course.leaves =~= course.leaves);
        }
    }
}

/// The left child of an open node can take its place.
proof fn lemma_room_for_child(
    m: IndexModel,
    q: Seq<i16>,
    s: Seq<TopKEntry>,
    area: Set<int>,
    rest: Seq<int>,
    h: Seq<int>,
    i: int,
)
    requires
        index_ok(m),
        frontier(m.nodes, area, rest, h),
        apart(m.nodes, rest, h, i),
        forall|j: int| #[trigger] in_node(m.nodes, i, j) ==> area.contains(j),
        0 <= i < m.nodes.len(),
        !m.nodes[i].is_leaf(),
        contending(m, q, s, rest.push(m.nodes[i].left as int)),
    ensures
        rest.len() < contenders(m, q, s).len(),
{
    let n = m.vectors.len() as int;
    let left = m.nodes[i].left as int;
    lemma_children(m.nodes, n, i);
    assert(apart(m.nodes, rest, h, left)) by {
        reveal(apart);
    }
    lemma_frontier_push(m.nodes, area, rest, h, left);
    lemma_contending_len(m, q, s, area, rest.push(left), h);
}

/// A search of several trees leaves the best five of the neighbours that were
/// there and of all vectors below the trees, none of them twice.
pub proof fn law_search_keeps_the_best(
    m: IndexModel,
    q: Seq<i16>,
    s: Seq<TopKEntry>,
    t: Seq<TopKEntry>,
    area: Set<int>,
    h: Seq<int>,
)
    requires
        ranked(s),
        distinct_keys(s),
        unique_ids(m),
        distances_fit(m, q),
        boxes_sound(m),
        searched(m, q, s, t, area, h),
        forall|j: int| #[trigger] area.contains(j) ==> 0 <= j < m.vectors.len(),
        forall|i: int, j: int|
            0 <= i < s.len() && area.contains(j) ==> (#[trigger] s[i]).key != (
            #[trigger] entry_of(m, q, j)).key,
    ensures
        ranked(t),
        distinct_keys(t),
        forall|x: TopKEntry| #[trigger]
            t.contains(x) ==> s.contains(x) || exists|j: int| #[trigger]
                area.contains(j) && x == entry_of(m, q, j),
        forall|x: TopKEntry| s.contains(x) ==> #[trigger] covered(t, x),
        forall|j: int| #[trigger] area.contains(j) ==> covered(t, entry_of(m, q, j)),
{
    let es = entries_of(m, q, h);
    assert forall|k: int| 0 <= k < h.len() implies 0 <= #[trigger] h[k] < m.vectors.len() by {
        assert(area.contains(h[k]));
    }
    lemma_scan_distinct(m, q, h);
    lemma_after_scan(m, q, s, h);
    assert forall|i: int, k: int| 0 <= i < s.len() && 0 <= k < es.len() implies #[trigger] s[i].key
        != #[trigger] es[k].key by {
        assert(area.contains(h[k]));
        assert(es[k] == entry_of(m, q, h[k]));
    }
    lemma_offered_all_distinct(s, es);
    assert forall|x: TopKEntry| #[trigger] t.contains(x) implies s.contains(x) || exists|j: int|
        #[trigger] area.contains(j) && x == entry_of(m, q, j) by {
        if !s.contains(x) {
            let k = choose|k: int| 0 <= k < es.len() && es[k] == x;
            assert(area.contains(h[k]));
        }
    }
    assert forall|x: TopKEntry| s.contains(x) implies #[trigger] covered(t, x) by {
        assert(covered(s, x));
    }
}

/// The same of the traversal of one tree.
pub proof fn law_walk_keeps_the_best(
    m: IndexModel,
    q: Seq<i16>,
    s: Seq<TopKEntry>,
    t: Seq<TopKEntry>,
    i: int,
    h: Seq<int>,
)
    requires
        index_ok(m),
        ranked(s),
        distinct_keys(s),
        unique_ids(m),
        distances_fit(m, q),
        boxes_sound(m),
        0 <= i < m.nodes.len(),
        walked(m, q, s, t, i, h),
        forall|k: int, j: int|
            0 <= k < s.len() && in_node(m.nodes, i, j) ==> (#[trigger] s[k]).key != (
            #[trigger] entry_of(m, q, j)).key,
    ensures
        ranked(t),
        distinct_keys(t),
        forall|x: TopKEntry| #[trigger]
            t.contains(x) ==> s.contains(x) || exists|j: int| #[trigger]
                in_node(m.nodes, i, j) && x == entry_of(m, q, j),
        forall|x: TopKEntry| s.contains(x) ==> #[trigger] covered(t, x),
        forall|j: int| #[trigger] in_node(m.nodes, i, j) ==> covered(t, entry_of(m, q, j)),
{
    let area = below(m.nodes, i);
    lemma_node_range(m.nodes, m.vectors.len() as int, i);
    assert forall|k: int| 0 <= k < h.len() implies area.contains(#[trigger] h[k]) by {
        assert(in_node(m.nodes, i, h[k]));
    }
    assert(searched(m, q, s, t, area, h));
    law_search_keeps_the_best(m, q, s, t, area, h);
    assert forall|x: TopKEntry| #[trigger] t.contains(x) implies s.contains(x) || exists|j: int|
        #[trigger] in_node(m.nodes, i, j) && x == entry_of(m, q, j) by {
        if !s.contains(x) {
            let j = choose|j: int| #[trigger] area.contains(j) && x == entry_of(m, q, j);
            assert(in_node(m.nodes, i, j));
        }
    }
}

/// The bound of a box is not above the distance of any vector in it, and what
/// it says of the neighbours is whether that bound could still improve them.
pub proof fn law_bounds(
    q: Vec16I,
    node: TreeNode,
    bound: i32,
    v: Seq<i16>,
    topk: TopK,
    id: u32,
    can: bool,
)
    requires
        box_bound(q@, node@) <= i32::MAX,
        call_ensures(bbox_lower_bound_sq, (&q, &node), bound),
        call_ensures(can_bound_improve, (&topk, bound, id), can),
    ensures
        bound == box_bound(q@, node@),
        v.len() == 16 && in_box(node@, v) ==> bound <= squared_distance(q@, v),
        can <==> topk@.len() < 5 || packed_key(bound, id) < worst_key_of(topk@),
{
    if v.len() == 16 && in_box(node@, v) {
        law_box_bound_is_sound(q@, node@, v);
    }
}

/// A scan offers the vectors of its range, each with its distance, identifier
/// and label, and no others.
pub proof fn law_scan(
    view: &IndexView<'_>,
    q: Vec16I,
    offset: u32,
    count: u32,
    topk: &mut TopK,
)
    requires
        call_ensures(scan_cell, (view, &q, offset, count, topk), ()),
    ensures
        final(topk)@ == offered_all(
            old(topk)@,
            Seq::new(
                count as nat,
                |k: int|
                    TopKEntry {
                        key: packed_key(
                            squared_distance(q@, view@.vectors[offset + k]) as i32,
                            view@.ids[offset + k],
                        ) as u64,
                        label: view@.labels[offset + k],
                    },
            ),
        ),
{
    assert(entries_of(view@, q@, span(offset as int, offset + count)) =~= Seq::new(
        count as nat,
        |k: int|
            TopKEntry {
                key: packed_key(
                    squared_distance(q@, view@.vectors[offset + k]) as i32,
                    view@.ids[offset + k],
                ) as u64,
                label: view@.labels[offset + k],
            },
    ));
}

} // verus!
