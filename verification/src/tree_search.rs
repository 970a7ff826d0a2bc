//! Search over the trees of an index.
use crate::cell::{
    cell_bound, cell_lower_bound_sq, key_in_tables, lemma_vector_cell, normalized, vector_cell,
};
use crate::course::{other_courses, own_course, tree_events, tree_neighbours, worthwhile_roots};
use crate::frontier::{below_all, disjoint_roots, node_settled};
use crate::index_format::{IndexModel, IndexView, EMPTY_NODE, N_CELLS};
use crate::queue::NODE_QUEUE_CAP;
use crate::topk::{covered, is_best, offered_all, TopK, TopKEntry};
use crate::trace::{
    elapsed_us, is_measured, is_of_engine, is_time, lemma_once_told, lemma_told_concat, started,
    told_all, SearchTraceSink, TraceEvent,
};
use crate::walk::{
    is_walk, is_walk_event, leaf_positions, lemma_leaves_concat, lemma_walk_concat, lemma_walk_node,
    lemma_walk_start, walk_told,
};
use crate::traverse::{
    bbox_lower_bound_sq, can_bound_improve, can_improve, candidate_bounds, candidates_ok,
    contenders, lemma_pruned, root_nodes, traverse_candidates_best_first, traverse_tree, walked,
    RootCandidate,
};
use crate::tree::{
    after_scan, all_normalized, boxes_sound, complete_index, distances_fit, entries_of, entry_of,
    fits, has_tree, in_node, index_ok, lemma_after_scan, lemma_after_scan_concat, lemma_cell_key,
    lemma_node_range, lemma_scan_is_best, pool, root_of, roots_ok,
};
use crate::types::Vec16I;
use vstd::prelude::*;

verus! {

/// A setting in which the tree search is exact: the index is complete and
/// sound, its vectors and the query are normalized, and the query's key is
/// that of its own cell.
pub open spec fn exact_setting(m: IndexModel, q: Seq<i16>, query_key: u16) -> bool {
    &&& boxes_sound(m)
    &&& complete_index(m)
    &&& all_normalized(m)
    &&& normalized(q)
    &&& query_key == vector_cell(q)
}

/// The leaves `own` are what a traversal of the tree of the query's own cell
/// scans.
pub open spec fn own_searched(
    m: IndexModel,
    q: Seq<i16>,
    query_key: u16,
    s: Seq<TopKEntry>,
    own: Seq<int>,
) -> bool {
    if has_tree(m, query_key as int) {
        let h = leaf_positions(m, own);
        walked(m, q, s, after_scan(m, q, s, h), root_of(m, query_key as int), h)
    } else {
        own.len() == 0
    }
}

/// What the tree search does to the neighbours `s`: it offers the vectors of
/// the leaves `own` of the query's own cell, then of the leaves `rest`, each
/// once. Only where more nodes could still improve the neighbours after the
/// own cell than the queue has room for, it may have scanned the leaves `lost`
/// in vain. In an exact setting no vector of the index is left that could
/// improve the result.
pub open spec fn tree_searched(
    m: IndexModel,
    q: Seq<i16>,
    query_key: u16,
    s: Seq<TopKEntry>,
    t: Seq<TopKEntry>,
    own: Seq<int>,
    lost: Seq<int>,
    rest: Seq<int>,
) -> bool {
    let h = leaf_positions(m, own + rest);
    &&& t == after_scan(m, q, s, h)
    &&& h.no_duplicates()
    &&& forall|k: int| 0 <= k < h.len() ==> 0 <= #[trigger] h[k] < m.vectors.len()
    &&& own_searched(m, q, query_key, s, own)
    &&& contenders(m, q, after_scan(m, q, s, leaf_positions(m, own))).len() <= NODE_QUEUE_CAP
        ==> lost.len() == 0
    &&& exact_setting(m, q, query_key) ==> forall|j: int|
        0 <= j < m.vectors.len() ==> covered(t, #[trigger] entry_of(m, q, j))
}

/// The time of the search through the trees or the cells; told only to a sink
/// that asked for times.
pub open spec fn branch_time<T: SearchTraceSink>(sink: T, events: Seq<TraceEvent>) -> bool {
    if sink.times() {
        &&& events.len() == 1
        &&& events[0] matches TraceEvent::BranchBoundUs(us) && is_measured(us)
    } else {
        events.len() == 0
    }
}

/// The tree search makes `t` of the neighbours `s`, which is what its course
/// leads to.
pub open spec fn tree_found(
    m: IndexModel,
    q: Seq<i16>,
    query_key: u16,
    s: Seq<TopKEntry>,
    t: Seq<TopKEntry>,
) -> bool {
    let own = own_course(m, q, query_key, s);
    let (lost, others) = other_courses(m, q, query_key, s);
    &&& t == tree_neighbours(m, q, query_key, s)
    &&& tree_searched(m, q, query_key, s, t, own.leaves, lost, others.leaves)
}

/// The leaves that the tree search scans.
pub open spec fn tree_leaves(
    m: IndexModel,
    q: Seq<i16>,
    query_key: u16,
    s: Seq<TopKEntry>,
) -> Seq<int> {
    let (lost, others) = other_courses(m, q, query_key, s);
    own_course(m, q, query_key, s).leaves + lost + others.leaves
}

/// What the tree search tells `sink`: the number of vectors in the query's own
/// cell, then what its course through the nodes tells, and last the time.
pub open spec fn tree_told<T: SearchTraceSink>(
    m: IndexModel,
    q: Seq<i16>,
    query_key: u16,
    s: Seq<TopKEntry>,
    sink: T,
    events: Seq<TraceEvent>,
) -> bool {
    let walk = tree_events(m, q, query_key, s);
    &&& is_walk(m, tree_leaves(m, q, query_key, s), walk)
    &&& exists|time: Seq<TraceEvent>| #[trigger]
        branch_time(sink, time) && events == seq![
            TraceEvent::HomeCellCount(m.roots[query_key as int].count),
        ] + walk + time
}

/// The search of the trees turns the neighbours `s` into `t` and tells `sink`
/// the events.
pub open spec fn tree_search_done<T: SearchTraceSink>(
    m: IndexModel,
    q: Seq<i16>,
    query_key: u16,
    s: Seq<TopKEntry>,
    t: Seq<TopKEntry>,
    sink: T,
    events: Seq<TraceEvent>,
) -> bool {
    &&& tree_found(m, q, query_key, s, t)
    &&& tree_told(m, q, query_key, s, sink, events)
}

/// The candidates are the roots of the listed keys at the positions `src`.
#[verifier::opaque]
spec fn listed(m: IndexModel, candidates: Seq<RootCandidate>, src: Seq<int>, end: int) -> bool {
    &&& src.len() == candidates.len()
    &&& forall|c: int|
        0 <= c < src.len() ==> {
            &&& 0 <= #[trigger] src[c] < end
            &&& has_tree(m, m.keys[src[c]] as int)
            &&& candidates[c].root_idx == root_of(m, m.keys[src[c]] as int)
        }
    &&& forall|c: int, d: int| 0 <= c < d < src.len() ==> #[trigger] src[c] < #[trigger] src[d]
}

proof fn lemma_listed_push(
    m: IndexModel,
    candidates: Seq<RootCandidate>,
    src: Seq<int>,
    a: int,
    candidate: RootCandidate,
)
    requires
        listed(m, candidates, src, a),
        0 <= a,
    ensures
        listed(m, candidates, src, a + 1),
        has_tree(m, m.keys[a] as int) && candidate.root_idx == root_of(m, m.keys[a] as int)
            ==> listed(m, candidates.push(candidate), src.push(a), a + 1),
{
    reveal(listed);
}

/// The roots of different keys share no vectors.
proof fn lemma_listed_roots(m: IndexModel, candidates: Seq<RootCandidate>, src: Seq<int>)
    requires
        index_ok(m),
        listed(m, candidates, src, m.keys.len() as int),
    ensures
        disjoint_roots(m.nodes, root_nodes(candidates)),
{
    reveal(listed);
    reveal(roots_ok);
    let roots = root_nodes(candidates);
    assert forall|p: int| 0 <= p < roots.len() implies 0 <= #[trigger] roots[p]
        < m.nodes.len() by {
        assert(m.keys[src[p]] < N_CELLS);
    }
    assert forall|p: int, r: int, j: int|
        0 <= p < roots.len() && 0 <= r < roots.len() && p != r implies !(#[trigger] in_node(
        m.nodes,
        roots[p],
        j,
    ) && #[trigger] in_node(m.nodes, roots[r], j)) by {
        assert(src[p] != src[r]);
        assert(roots[p] == root_of(m, m.keys[src[p]] as int));
        assert(roots[r] == root_of(m, m.keys[src[r]] as int));
    }
}

/// Nothing below a candidate is below the home tree.
proof fn lemma_home_apart(
    m: IndexModel,
    candidates: Seq<RootCandidate>,
    src: Seq<int>,
    home: int,
    j: int,
)
    requires
        index_ok(m),
        listed(m, candidates, src, m.keys.len() as int),
        0 <= home < N_CELLS,
        has_tree(m, home),
        forall|c: int| 0 <= c < src.len() ==> m.keys[#[trigger] src[c]] != home,
        in_node(m.nodes, root_of(m, home), j),
    ensures
        !below_all(m.nodes, root_nodes(candidates)).contains(j),
{
    reveal(listed);
    reveal(roots_ok);
    let roots = root_nodes(candidates);
    if below_all(m.nodes, roots).contains(j) {
        let p = choose|p: int| 0 <= p < roots.len() && in_node(m.nodes, #[trigger] roots[p], j);
        assert(m.keys.contains(home as u32));
        let b = choose|b: int| 0 <= b < m.keys.len() && m.keys[b] == home as u32;
        assert(src[p] != b);
        assert(in_node(m.nodes, root_of(m, m.keys[src[p]] as int), j));
        assert(in_node(m.nodes, root_of(m, m.keys[b] as int), j));
    }
}

/// Every listed key before `end` other than the query's has no tree, has a
/// candidate, or nothing below its root could improve the neighbours.
#[verifier::opaque]
spec fn keys_settled(
    m: IndexModel,
    q: Seq<i16>,
    query_key: u16,
    s: Seq<TopKEntry>,
    candidates: Seq<RootCandidate>,
    end: int,
) -> bool {
    forall|a: int|
        0 <= a < end && #[trigger] m.keys[a] != query_key && has_tree(m, m.keys[a] as int)
            ==> root_nodes(candidates).contains(root_of(m, m.keys[a] as int)) || node_settled(
            m,
            q,
            s,
            root_of(m, m.keys[a] as int),
        )
}

proof fn lemma_keys_settled_step(
    m: IndexModel,
    q: Seq<i16>,
    query_key: u16,
    s: Seq<TopKEntry>,
    candidates: Seq<RootCandidate>,
    grown: Seq<RootCandidate>,
    a: int,
)
    requires
        keys_settled(m, q, query_key, s, candidates, a),
        grown == candidates || (grown.len() == candidates.len() + 1 && candidates
            == grown.drop_last()),
        0 <= a,
        m.keys[a] == query_key || !has_tree(m, m.keys[a] as int) || node_settled(
            m,
            q,
            s,
            root_of(m, m.keys[a] as int),
        ) || (grown.len() > candidates.len() && grown.last().root_idx == root_of(
            m,
            m.keys[a] as int,
        )),
    ensures
        keys_settled(m, q, query_key, s, grown, a + 1),
{
    reveal(keys_settled);
    let before = root_nodes(candidates);
    let after = root_nodes(grown);
    assert forall|b: int|
        0 <= b < a + 1 && #[trigger] m.keys[b] != query_key && has_tree(
            m,
            m.keys[b] as int,
        ) implies after.contains(root_of(m, m.keys[b] as int)) || node_settled(
        m,
        q,
        s,
        root_of(m, m.keys[b] as int),
    ) by {
        let root = root_of(m, m.keys[b] as int);
        if b < a {
            if before.contains(root) {
                let p = choose|p: int| 0 <= p < before.len() && before[p] == root;
                assert(after[p] == before[p]);
            }
        } else if grown.len() > candidates.len() {
            assert(after[grown.len() - 1] == grown.last().root_idx as int);
        }
    }
}

/// A listed root whose cell bound cannot improve the neighbours is settled.
proof fn lemma_cell_pruned(
    m: IndexModel,
    q: Seq<i16>,
    query_key: u16,
    s: Seq<TopKEntry>,
    a: int,
)
    requires
        index_ok(m),
        distances_fit(m, q),
        exact_setting(m, q, query_key),
        0 <= a < m.keys.len(),
        m.keys[a] < N_CELLS,
        has_tree(m, m.keys[a] as int),
        !can_improve(
            s,
            cell_bound(q, query_key, m.keys[a] as u16) as i32,
            m.nodes[root_of(m, m.keys[a] as int)].min_original_id,
        ),
    ensures
        node_settled(m, q, s, root_of(m, m.keys[a] as int)),
{
    let i = root_of(m, m.keys[a] as int);
    assert forall|j: int| #[trigger] in_node(m.nodes, i, j) implies covered(
        s,
        entry_of(m, q, j),
    ) by {
        lemma_cell_key(m, q, a, j);
    }
}

/// The roots of the other cells that can still improve the neighbours.
fn collect_candidates<T: SearchTraceSink>(
    view: &IndexView<'_>,
    qv: &Vec16I,
    query_key: u16,
    topk: &TopK,
    trace: &mut T,
) -> (found: (Vec<RootCandidate>, Ghost<Seq<int>>))
    requires
        view.complete(),
        index_ok(view@),
        fits(view@, qv@, query_key),
    ensures
        listed(view@, found.0@, found.1@, view@.keys.len() as int),
        forall|c: int| 0 <= c < found.1@.len() ==> view@.keys[#[trigger] found.1@[c]] != query_key,
        candidates_ok(view@, qv@, found.0@),
        exact_setting(view@, qv@, query_key) ==> keys_settled(
            view@,
            qv@,
            query_key,
            topk@,
            found.0@,
            view@.keys.len() as int,
        ),
        ({
            let n = view@.keys.len();
            let (roots, events) = worthwhile_roots(view@, qv@, query_key, topk@, n);
            &&& found.0@ == roots
            &&& walk_told(view@, *old(trace), *final(trace), seq![], events)
        }),
{
    let ghost m = view@;
    let ghost q = qv@;
    let ghost mut src: Seq<int> = seq![];
    let ghost mut events: Seq<TraceEvent> = seq![];
    let ghost leaves: Seq<int> = seq![];
    let ghost sink = *trace;
    let mut candidates: Vec<RootCandidate> = Vec::new();
    let n: u32 = view.n_populated_tree_roots();
    let mut idx: u32 = 0;
    proof {
        reveal(listed);
        reveal(keys_settled);
        lemma_walk_start(m, sink);
    }
    while idx < n
        invariant
            idx <= n,
            n == m.keys.len(),
            view.complete(),
            m == view@,
            q == qv@,
            m.keys.len() == view.spec_n_keys(),
            m.nodes.len() == view.spec_n_nodes(),
            index_ok(m),
            fits(m, q, query_key),
            listed(m, candidates@, src, idx as int),
            forall|c: int| 0 <= c < src.len() ==> m.keys[#[trigger] src[c]] != query_key,
            forall|c: int|
                0 <= c < candidates@.len() ==> candidate_bounds(m, q, #[trigger] candidates@[c]),
            exact_setting(m, q, query_key) ==> keys_settled(
                m,
                q,
                query_key,
                topk@,
                candidates@,
                idx as int,
            ),
            leaves == Seq::<int>::empty(),
            walk_told(m, sink, *trace, leaves, events),
            worthwhile_roots(m, q, query_key, topk@, idx as nat) == (candidates@, events),
        decreases n - idx,
    {
        let ghost a = idx as int;
        let ghost before = candidates@;
        let key: u16 = view.populated_tree_key_at(idx);
        proof {
            reveal(roots_ok);
            assert(m.keys[a] < N_CELLS);
            assert(key == m.keys[a]);
        }
        let root_entry = view.tree_root_entry(key);
        if key != query_key && root_entry.root != EMPTY_NODE {
            proof {
                assert(has_tree(m, m.keys[a] as int));
                assert(key_in_tables(m.keys[a] as u16));
                assert(root_entry.root == root_of(m, m.keys[a] as int));
            }
            let root = view.tree_node(root_entry.root);
            let ghost i = root_entry.root as int;
            let cell_lb: i32 = cell_lower_bound_sq(qv, query_key, key);
            if !can_bound_improve(topk, cell_lb, root.min_original_id) {
                proof {
                    lemma_listed_push(m, before, src, a, arbitrary());
                    if exact_setting(m, q, query_key) {
                        lemma_cell_pruned(m, q, query_key, topk@, a);
                        lemma_keys_settled_step(m, q, query_key, topk@, before, before, a);
                    }
                    lemma_walk_node(m, sink, *trace, leaves, events, TraceEvent::PrunedNode);
                    events = events.push(TraceEvent::PrunedNode);
                }
                trace.inc_pruned_nodes();
            } else {
                let lb: i32 = bbox_lower_bound_sq(qv, &root);
                if can_bound_improve(topk, lb, root.min_original_id) {
                    let candidate = RootCandidate {
                        key: TopK::make_key(lb, root.min_original_id),
                        root_idx: root_entry.root,
                        lower_bound: lb,
                    };
                    candidates.push(candidate);
                    proof {
                        lemma_listed_push(m, before, src, a, candidate);
                        src = src.push(a);
                        assert(candidates@.drop_last() =~= before);
                        if exact_setting(m, q, query_key) {
                            lemma_keys_settled_step(
                                m,
                                q,
                                query_key,
                                topk@,
                                before,
                                candidates@,
                                a,
                            );
                        }
                    }
                } else {
                    proof {
                        lemma_listed_push(m, before, src, a, arbitrary());
                        lemma_pruned(m, q, topk@, i);
                        if exact_setting(m, q, query_key) {
                            lemma_keys_settled_step(m, q, query_key, topk@, before, before, a);
                        }
                        lemma_walk_node(m, sink, *trace, leaves, events, TraceEvent::PrunedNode);
                        events = events.push(TraceEvent::PrunedNode);
                    }
                    trace.inc_pruned_nodes();
                }
            }
        } else {
            proof {
                lemma_listed_push(m, before, src, a, arbitrary());
                if exact_setting(m, q, query_key) {
                    lemma_keys_settled_step(m, q, query_key, topk@, before, before, a);
                }
            }
        }
        idx = idx + 1;
    }
    proof {
        lemma_listed_roots(m, candidates@, src);
    }
    (candidates, Ghost(src))
}

/// Everything is settled once the home tree and the candidates are.
proof fn lemma_all_settled(
    m: IndexModel,
    q: Seq<i16>,
    query_key: u16,
    s: Seq<TopKEntry>,
    t: Seq<TopKEntry>,
    candidates: Seq<RootCandidate>,
    j: int,
)
    requires
        index_ok(m),
        query_key < N_CELLS,
        exact_setting(m, q, query_key),
        keys_settled(m, q, query_key, s, candidates, m.keys.len() as int),
        has_tree(m, query_key as int) ==> node_settled(
            m,
            q,
            s,
            root_of(m, query_key as int),
        ),
        forall|x: TopKEntry| #[trigger] covered(s, x) ==> covered(t, x),
        forall|k: int| #[trigger]
            below_all(m.nodes, root_nodes(candidates)).contains(k) ==> covered(
                t,
                entry_of(m, q, k),
            ),
        0 <= j < m.vectors.len(),
    ensures
        covered(t, entry_of(m, q, j)),
{
    reveal(keys_settled);
    reveal(roots_ok);
    let key = vector_cell(m.vectors[j]);
    lemma_vector_cell(m.vectors[j]);
    assert(m.keys.contains(key as u32));
    let a = choose|a: int| 0 <= a < m.keys.len() && m.keys[a] == key as u32;
    let root = root_of(m, m.keys[a] as int);
    assert(in_node(m.nodes, root, j));
    if m.keys[a] == query_key {
        assert(covered(s, entry_of(m, q, j)));
    } else if root_nodes(candidates).contains(root) {
        let p = choose|p: int|
            0 <= p < root_nodes(candidates).len() && root_nodes(candidates)[p] == root;
        assert(in_node(m.nodes, root_nodes(candidates)[p], j));
        assert(below_all(m.nodes, root_nodes(candidates)).contains(j));
    } else {
        assert(covered(s, entry_of(m, q, j)));
    }
}

/// Searches the tree of the query's own cell first, then those of all others.
#[verifier::rlimit(50)]
pub fn search_tree<T: SearchTraceSink>(
    view: &IndexView<'_>,
    qv: &Vec16I,
    query_key: u16,
    topk: &mut TopK,
    trace: &mut T,
)
    requires
        view.complete(),
        index_ok(view@),
        query_key < N_CELLS,
        fits(view@, qv@, query_key),
    ensures
        exists|events: Seq<TraceEvent>| #[trigger]
            tree_search_done(
                view@,
                qv@,
                query_key,
                old(topk)@,
                final(topk)@,
                *old(trace),
                events,
            ) && *final(trace) == told_all(*old(trace), events),
        exact_setting(view@, qv@, query_key) && old(topk)@.len() == 0 ==> is_best(
            final(topk)@,
            pool(view@, qv@),
        ),
{
    proof {
        use_type_invariant(&*topk);
        topk.lemma_ranked();
    }
    let ghost m = view@;
    let ghost q = qv@;
    let ghost s0 = topk@;
    let ghost sink = *trace;
    let ghost own = own_course(m, q, query_key, s0);
    let ghost (roots, listing) = worthwhile_roots(m, q, query_key, own.s, m.keys.len());
    let ghost (lost, others) = other_courses(m, q, query_key, s0);
    let branch_start = started(trace);
    let home = view.tree_root_entry(query_key);
    trace.set_home_cell_count(home.count);
    let ghost counted = *trace;
    proof {
        let root = root_of(m, query_key as int);
        assert(entries_of(m, q, leaf_positions(m, seq![])) =~= Seq::<TopKEntry>::empty());
        assert(has_tree(m, query_key as int) ==> root < m.nodes.len()) by {
            reveal(roots_ok);
        }
        lemma_walk_start(m, counted);
    }
    if home.root != EMPTY_NODE {
        traverse_tree(view, qv, home.root, topk, trace);
    }
    let ghost s = topk@;
    let ghost owned = *trace;
    assert(s == own.s);
    let (candidates, Ghost(src)) = collect_candidates(view, qv, query_key, topk, trace);
    let ghost collected = *trace;
    traverse_candidates_best_first(view, qv, candidates.as_slice(), topk, trace);
    let ghost walked_all = *trace;
    let ghost mut time: Seq<TraceEvent> = seq![];
    match branch_start {
        Some(start) => {
            let us: u64 = elapsed_us(start);
            proof {
                time = seq![TraceEvent::BranchBoundUs(us)];
            }
            trace.record_branch_bound_us(us)
        },
        None => {},
    }
    proof {
        let none: Seq<int> = seq![];
        lemma_walk_concat(
            m,
            counted,
            owned,
            collected,
            own.leaves,
            own.events,
            none,
            listing,
        );
        assert(own.leaves + none =~= own.leaves);
        lemma_walk_concat(
            m,
            counted,
            collected,
            walked_all,
            own.leaves,
            own.events + listing,
            lost + others.leaves,
            others.events,
        );
        assert(own.leaves + (lost + others.leaves) =~= tree_leaves(m, q, query_key, s0));
        let whole = tree_events(m, q, query_key, s0);
        let head = seq![TraceEvent::HomeCellCount(home.count)];
        let events = head + whole + time;
        lemma_leaves_concat(m, own.leaves, others.leaves);
        let first = leaf_positions(m, own.leaves);
        let h = leaf_positions(m, others.leaves);
        lemma_after_scan(m, q, s0, first);
        lemma_after_scan(m, q, s, h);
        lemma_after_scan_concat(m, q, s0, first, h);
        lemma_search_positions(m, candidates@, src, query_key, own.leaves, others.leaves);
        if exact_setting(m, q, query_key) {
            assert forall|j: int| 0 <= j < m.vectors.len() implies covered(
                topk@,
                #[trigger] entry_of(m, q, j),
            ) by {
                lemma_all_settled(m, q, query_key, s, topk@, candidates@, j);
            }
            if s0.len() == 0 {
                assert(s0 =~= Seq::<TopKEntry>::empty());
                lemma_scan_is_best(m, q, first + h);
            }
        }
        assert(tree_searched(
            m,
            q,
            query_key,
            s0,
            topk@,
            own.leaves,
            lost,
            others.leaves,
        ));
        assert(tree_told(m, q, query_key, s0, sink, events)) by {
            reveal(walk_told);
            assert(branch_time(sink, time));
        }
        assert(tree_search_done(m, q, query_key, s0, topk@, sink, events));
        assert(*trace == told_all(sink, events)) by {
            reveal(walk_told);
            reveal_with_fuel(told_all, 2);
            lemma_told_concat(sink, head, whole);
            lemma_told_concat(sink, head + whole, time);
            assert(head.drop_last() =~= Seq::<TraceEvent>::empty());
            assert(time.len() > 0 ==> time.drop_last() =~= Seq::<TraceEvent>::empty());
        }
    }
}

/// The vectors that are offered lie within the index, and none is offered
/// twice.
proof fn lemma_search_positions(
    m: IndexModel,
    candidates: Seq<RootCandidate>,
    src: Seq<int>,
    query_key: u16,
    own: Seq<int>,
    rest: Seq<int>,
)
    requires
        index_ok(m),
        listed(m, candidates, src, m.keys.len() as int),
        query_key < N_CELLS,
        forall|c: int| 0 <= c < src.len() ==> m.keys[#[trigger] src[c]] != query_key,
        disjoint_roots(m.nodes, root_nodes(candidates)),
        own.len() == 0 || has_tree(m, query_key as int),
        leaf_positions(m, own).no_duplicates(),
        forall|k: int|
            0 <= k < leaf_positions(m, own).len() ==> in_node(
                m.nodes,
                root_of(m, query_key as int),
                #[trigger] leaf_positions(m, own)[k],
            ),
        leaf_positions(m, rest).no_duplicates(),
        forall|k: int|
            0 <= k < leaf_positions(m, rest).len() ==> below_all(
                m.nodes,
                root_nodes(candidates),
            ).contains(#[trigger] leaf_positions(m, rest)[k]),
    ensures
        ({
            let all = leaf_positions(m, own) + leaf_positions(m, rest);
            &&& all.no_duplicates()
            &&& forall|k: int| 0 <= k < all.len() ==> 0 <= #[trigger] all[k] < m.vectors.len()
        }),
{
    let root = root_of(m, query_key as int);
    let area = below_all(m.nodes, root_nodes(candidates));
    let first = leaf_positions(m, own);
    let h = leaf_positions(m, rest);
    let all = first + h;
    assert(first.len() > 0 ==> has_tree(m, query_key as int));
    assert forall|j: int| area.contains(j) implies 0 <= j < m.vectors.len() by {
        let p = choose|p: int|
            0 <= p < root_nodes(candidates).len() && in_node(
                m.nodes,
                #[trigger] root_nodes(candidates)[p],
                j,
            );
        lemma_node_range(m.nodes, m.vectors.len() as int, root_nodes(candidates)[p]);
    }
    if has_tree(m, query_key as int) {
        reveal(roots_ok);
        lemma_node_range(m.nodes, m.vectors.len() as int, root);
    }
    assert forall|k: int| 0 <= k < all.len() implies 0 <= #[trigger] all[k] < m.vectors.len() by {
        if k < first.len() {
            assert(in_node(m.nodes, root, first[k]));
        } else {
            assert(area.contains(h[k - first.len()]));
        }
    }
    assert forall|a: int, b: int|
        0 <= a < all.len() && 0 <= b < all.len() && a != b implies all[a] != all[b] by {
        let f = first.len();
        if a < f && b >= f {
            lemma_home_apart(m, candidates, src, query_key as int, first[a]);
            assert(area.contains(h[b - f]));
        } else if b < f && a >= f {
            lemma_home_apart(m, candidates, src, query_key as int, first[b]);
            assert(area.contains(h[a - f]));
        } else if a < f {
            assert(first[a] != first[b]);
        } else {
            assert(h[a - f] != h[b - f]);
        }
    }
}

/// In an exact setting the tree search leaves the best five of all vectors of
/// the index, the same as offering them one by one.
pub proof fn law_tree_search_is_exact(
    m: IndexModel,
    q: Seq<i16>,
    query_key: u16,
    t: Seq<TopKEntry>,
)
    requires
        fits(m, q, query_key),
        exact_setting(m, q, query_key),
        tree_found(m, q, query_key, Seq::empty(), t),
    ensures
        is_best(t, pool(m, q)),
        t == offered_all(Seq::empty(), pool(m, q)),
{
    let own = own_course(m, q, query_key, Seq::empty());
    let (lost, others) = other_courses(m, q, query_key, Seq::empty());
    lemma_scan_is_best(m, q, leaf_positions(m, own.leaves + others.leaves));
}

/// What the tree search tells: nothing but what an engine tells, among it once
/// the number of vectors of the query's own cell, and no time to a sink that
/// asks for none.
pub proof fn lemma_tree_tells<T: SearchTraceSink>(
    m: IndexModel,
    q: Seq<i16>,
    query_key: u16,
    s: Seq<TopKEntry>,
    sink: T,
    events: Seq<TraceEvent>,
)
    requires
        tree_told(m, q, query_key, s, sink, events),
    ensures
        forall|k: int| 0 <= k < events.len() ==> is_of_engine(#[trigger] events[k]),
        events.filter(|e: TraceEvent| e is HomeCellCount) == seq![
            TraceEvent::HomeCellCount(m.roots[query_key as int].count),
        ],
        !sink.times() ==> forall|k: int| 0 <= k < events.len() ==> !is_time(#[trigger] events[k]),
{
    let walk = tree_events(m, q, query_key, s);
    let home = TraceEvent::HomeCellCount(m.roots[query_key as int].count);
    let time = choose|time: Seq<TraceEvent>| #[trigger]
        branch_time(sink, time) && events == seq![home] + walk + time;
    let rest = walk + time;
    assert forall|k: int| 0 <= k < rest.len() implies is_of_engine(#[trigger] rest[k]) && !(
    rest[k] is HomeCellCount) && (!sink.times() ==> !is_time(rest[k])) by {
        if k < walk.len() {
            assert(rest[k] == walk[k]);
            assert(is_walk_event(walk[k]));
        } else {
            assert(rest[k] == time[k - walk.len()]);
        }
    }
    let none = Seq::<TraceEvent>::empty();
    lemma_once_told(none, home, rest, |e: TraceEvent| e is HomeCellCount);
    assert(events =~= none.push(home) + rest);
    assert forall|k: int| 0 <= k < events.len() implies is_of_engine(#[trigger] events[k]) && (
    !sink.times() ==> !is_time(events[k])) by {
        if k > 0 {
            assert(events[k] == rest[k - 1]);
        }
    }
}

} // verus!
