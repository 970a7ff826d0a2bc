//! What makes an index well-formed and a search over it exact.
use crate::cell::{
    cell_bound, key_in_tables, law_cell_bound_is_sound, law_normalized_distance_fits,
    lemma_vector_cell, normalized, vector_cell,
};
use crate::distance::{
    lemma_partial_distance_monotone, lemma_square, lemma_square_monotone, partial_distance, square,
    squared_distance,
};
use crate::index_format::{IndexModel, NodeModel, EMPTY_NODE, N_CELLS};
use crate::topk::{
    covered, distinct_keys, is_best, law_best_is_unique, law_key_order, law_offering_keeps_the_best,
    lemma_offered, offered, offered_all, packed_key, ranked, worst_key_of, TopKEntry,
};
use vstd::prelude::*;

verus! {

/// The largest height that a tree may have.
pub const MAX_HEIGHT: usize = 255;

/// The first vector below a node.
pub open spec fn node_start(nodes: Seq<NodeModel>, i: int) -> int
    decreases nodes.len() - i,
{
    if 0 <= i && !nodes[i].is_leaf() && i < nodes[i].left < nodes.len() {
        node_start(nodes, nodes[i].left as int)
    } else {
        nodes[i].offset as int
    }
}

/// The number of levels below a node.
pub open spec fn node_height(nodes: Seq<NodeModel>, i: int) -> int
    decreases nodes.len() - i,
{
    if 0 <= i && !nodes[i].is_leaf() && i < nodes[i].left < nodes.len() && i < nodes[i].right
        < nodes.len() {
        let left = node_height(nodes, nodes[i].left as int);
        let right = node_height(nodes, nodes[i].right as int);
        1 + (if left >= right {
            left
        } else {
            right
        })
    } else {
        0
    }
}

/// Vector `j` is below node `i`.
pub open spec fn in_node(nodes: Seq<NodeModel>, i: int, j: int) -> bool {
    node_start(nodes, i) <= j < node_start(nodes, i) + nodes[i].count
}

/// A leaf holds vectors of the index. The children of an inner node come after
/// it and divide its vectors between them.
pub open spec fn node_ok(nodes: Seq<NodeModel>, n_vectors: int, i: int) -> bool {
    let node = nodes[i];
    if node.is_leaf() {
        &&& node.count >= 1
        &&& node.offset + node.count <= n_vectors
    } else {
        &&& i < node.left < nodes.len()
        &&& i < node.right < nodes.len()
        &&& node.count == nodes[node.left as int].count + nodes[node.right as int].count
        &&& node_start(nodes, node.right as int) == node_start(nodes, node.left as int)
            + nodes[node.left as int].count
    }
}

pub open spec fn trees_ok(nodes: Seq<NodeModel>, n_vectors: int) -> bool {
    forall|i: int| 0 <= i < nodes.len() ==> #[trigger] node_ok(nodes, n_vectors, i)
}

pub open spec fn heights_ok(nodes: Seq<NodeModel>) -> bool {
    forall|i: int| 0 <= i < nodes.len() ==> #[trigger] node_height(nodes, i) <= MAX_HEIGHT
}

/// The root of the tree of cell `key`.
pub open spec fn root_of(m: IndexModel, key: int) -> int {
    m.roots[key].root as int
}

/// Cell `key` has a tree.
pub open spec fn has_tree(m: IndexModel, key: int) -> bool {
    m.roots[key].root != EMPTY_NODE
}

/// Every tree is listed, under a key that occurs once; no vector is below two
/// of them. A key may be listed though it has no tree.
#[verifier::opaque]
pub open spec fn roots_ok(m: IndexModel) -> bool {
    &&& m.roots.len() == N_CELLS
    &&& m.keys.len() <= N_CELLS
    &&& forall|a: int| 0 <= a < m.keys.len() ==> #[trigger] m.keys[a] < N_CELLS
    &&& forall|key: int|
        0 <= key < N_CELLS && #[trigger] has_tree(m, key) ==> root_of(m, key) < m.nodes.len()
            && m.keys.contains(key as u32)
    &&& forall|a: int, b: int|
        0 <= a < m.keys.len() && 0 <= b < m.keys.len() && a != b ==> #[trigger] m.keys[a]
            != #[trigger] m.keys[b]
    &&& forall|a: int, b: int, j: int|
        0 <= a < m.keys.len() && 0 <= b < m.keys.len() && a != b && has_tree(m, m.keys[a] as int)
            && has_tree(m, m.keys[b] as int) ==> !(#[trigger] in_node(
            m.nodes,
            root_of(m, m.keys[a] as int),
            j,
        ) && #[trigger] in_node(m.nodes, root_of(m, m.keys[b] as int), j))
}

/// The vectors of a cell lie within the index and in no other cell.
#[verifier::opaque]
pub open spec fn cells_ok(m: IndexModel) -> bool {
    &&& m.cells.len() == N_CELLS
    &&& forall|key: int|
        0 <= key < N_CELLS ==> #[trigger] m.cells[key].offset + m.cells[key].count
            <= m.vectors.len()
    &&& forall|a: int, b: int, j: int|
        0 <= a < N_CELLS && 0 <= b < N_CELLS && a != b ==> !(#[trigger] in_cell(m, a, j)
            && #[trigger] in_cell(m, b, j))
}

/// Vector `j` belongs to cell `key`.
pub open spec fn in_cell(m: IndexModel, key: int, j: int) -> bool {
    m.cells[key].offset <= j < m.cells[key].offset + m.cells[key].count
}

/// An index that can be searched.
pub open spec fn index_ok(m: IndexModel) -> bool {
    &&& m.vectors.len() <= u32::MAX
    &&& m.labels.len() == m.vectors.len()
    &&& m.ids.len() == m.vectors.len()
    &&& m.nodes.len() <= u32::MAX
    &&& forall|j: int| 0 <= j < m.vectors.len() ==> #[trigger] m.vectors[j].len() == 16
    &&& trees_ok(m.nodes, m.vectors.len() as int)
    &&& heights_ok(m.nodes)
    &&& roots_ok(m)
    &&& cells_ok(m)
}

pub open spec fn in_box(node: NodeModel, v: Seq<i16>) -> bool {
    forall|d: int| 0 <= d < 16 ==> node.bbox_min[d] <= #[trigger] v[d] <= node.bbox_max[d]
}

/// What is below a node lies in its box and has no smaller identifier.
#[verifier::opaque]
pub open spec fn boxes_sound(m: IndexModel) -> bool {
    forall|i: int, j: int|
        0 <= i < m.nodes.len() && #[trigger] in_node(m.nodes, i, j) ==> in_box(
            m.nodes[i],
            m.vectors[j],
        ) && m.ids[j] >= m.nodes[i].min_original_id
}

/// No two vectors have the same identifier.
pub open spec fn unique_ids(m: IndexModel) -> bool {
    forall|j: int, k: int|
        0 <= j < m.vectors.len() && 0 <= k < m.vectors.len() && j != k ==> #[trigger] m.ids[j]
            != #[trigger] m.ids[k]
}

/// Every vector is below the tree of its own cell, and identifiers are unique.
pub open spec fn complete_index(m: IndexModel) -> bool {
    &&& forall|j: int|
        0 <= j < m.vectors.len() ==> m.keys.contains(vector_cell(#[trigger] m.vectors[j]) as u32)
            && has_tree(m, vector_cell(m.vectors[j])) && in_node(
            m.nodes,
            root_of(m, vector_cell(m.vectors[j])),
            j,
        )
    &&& unique_ids(m)
}

/// The cell directory lists every vector under its own cell.
pub open spec fn complete_cells(m: IndexModel) -> bool {
    forall|j: int|
        0 <= j < m.vectors.len() ==> in_cell(m, vector_cell(#[trigger] m.vectors[j]), j)
}

pub open spec fn all_normalized(m: IndexModel) -> bool {
    forall|j: int| 0 <= j < m.vectors.len() ==> normalized(#[trigger] m.vectors[j])
}

/// How far `q` lies outside the interval from `min` to `max`.
pub open spec fn gap(q: i16, min: i16, max: i16) -> int {
    if q < min {
        min - q
    } else if q > max {
        q - max
    } else {
        0
    }
}

pub open spec fn partial_box_bound(q: Seq<i16>, node: NodeModel, n: int) -> int
    decreases n,
{
    if n <= 0 {
        0
    } else {
        partial_box_bound(q, node, n - 1) + square(
            gap(q[n - 1], node.bbox_min[n - 1], node.bbox_max[n - 1]),
        )
    }
}

/// The squared distance from the query to the box of a node.
pub open spec fn box_bound(q: Seq<i16>, node: NodeModel) -> int {
    partial_box_bound(q, node, 16)
}

pub proof fn lemma_partial_box_bound_monotone(q: Seq<i16>, node: NodeModel, a: int, b: int)
    requires
        0 <= a <= b,
    ensures
        0 <= partial_box_bound(q, node, a) <= partial_box_bound(q, node, b),
    decreases b,
{
    if b > 0 {
        lemma_square(gap(q[b - 1], node.bbox_min[b - 1], node.bbox_max[b - 1]));
        lemma_partial_box_bound_monotone(
            q,
            node,
            if a < b {
                a
            } else {
                b - 1
            },
            b - 1,
        );
    }
}

proof fn lemma_partial_box_bound_sound(q: Seq<i16>, node: NodeModel, v: Seq<i16>, n: int)
    requires
        in_box(node, v),
        0 <= n <= 16,
    ensures
        partial_box_bound(q, node, n) <= partial_distance(q, v, n),
    decreases n,
{
    if n > 0 {
        lemma_partial_box_bound_sound(q, node, v, n - 1);
        let d = n - 1;
        assert(node.bbox_min[d] <= v[d] <= node.bbox_max[d]);
        let g = gap(q[d], node.bbox_min[d], node.bbox_max[d]);
        lemma_square(q[d] - v[d]);
        if q[d] < v[d] {
            lemma_square_monotone(g, v[d] - q[d]);
        } else {
            lemma_square_monotone(g, q[d] - v[d]);
        }
    }
}

/// No vector in a box is nearer to the query than the box.
pub proof fn law_box_bound_is_sound(q: Seq<i16>, node: NodeModel, v: Seq<i16>)
    requires
        in_box(node, v),
    ensures
        0 <= box_bound(q, node) <= squared_distance(q, v),
{
    lemma_partial_box_bound_sound(q, node, v, 16);
    lemma_partial_box_bound_monotone(q, node, 0, 16);
}

/// All distances and bounds that the search may compute fit into `i32`.
pub open spec fn fits(m: IndexModel, q: Seq<i16>, query_key: u16) -> bool {
    &&& distances_fit(m, q)
    &&& boxes_fit(m, q)
    &&& key_in_tables(query_key)
    &&& forall|a: int|
        0 <= a < m.keys.len() && has_tree(m, #[trigger] m.keys[a] as int) ==> key_in_tables(
            m.keys[a] as u16,
        ) && cell_bound(q, query_key, m.keys[a] as u16) <= i32::MAX
}

pub open spec fn distances_fit(m: IndexModel, q: Seq<i16>) -> bool {
    forall|j: int|
        0 <= j < m.vectors.len() ==> squared_distance(q, #[trigger] m.vectors[j]) <= i32::MAX
}

pub open spec fn boxes_fit(m: IndexModel, q: Seq<i16>) -> bool {
    forall|i: int| 0 <= i < m.nodes.len() ==> box_bound(q, #[trigger] m.nodes[i]) <= i32::MAX
}

/// The distances between a query and an index of normalized vectors fit.
pub proof fn law_normalized_distances_fit(m: IndexModel, q: Seq<i16>)
    requires
        all_normalized(m),
        normalized(q),
    ensures
        distances_fit(m, q),
{
    assert forall|j: int| 0 <= j < m.vectors.len() implies squared_distance(
        q,
        #[trigger] m.vectors[j],
    ) <= i32::MAX by {
        law_normalized_distance_fits(q, m.vectors[j]);
    }
}

/// A query on an index of normalized vectors stays within `i32`.
pub proof fn law_normalized_queries_fit(m: IndexModel, q: Seq<i16>)
    requires
        index_ok(m),
        boxes_sound(m),
        complete_index(m),
        all_normalized(m),
        normalized(q),
    ensures
        fits(m, q, vector_cell(q) as u16),
{
    reveal(boxes_sound);
    reveal(roots_ok);
    lemma_vector_cell(q);
    law_normalized_distances_fit(m, q);
    assert forall|i: int| 0 <= i < m.nodes.len() implies box_bound(q, #[trigger] m.nodes[i])
        <= i32::MAX by {
        lemma_node_range(m.nodes, m.vectors.len() as int, i);
        let j = node_start(m.nodes, i);
        assert(in_node(m.nodes, i, j));
        law_box_bound_is_sound(q, m.nodes[i], m.vectors[j]);
        law_normalized_distance_fits(q, m.vectors[j]);
    }
    assert forall|a: int|
        0 <= a < m.keys.len() && has_tree(m, #[trigger] m.keys[a] as int) implies key_in_tables(
        m.keys[a] as u16,
    ) && cell_bound(q, vector_cell(q) as u16, m.keys[a] as u16) <= i32::MAX by {
        let i = root_of(m, m.keys[a] as int);
        lemma_node_range(m.nodes, m.vectors.len() as int, i);
        let j = node_start(m.nodes, i);
        assert(in_node(m.nodes, i, j));
        lemma_root_cell(m, a, j);
        lemma_vector_cell(m.vectors[j]);
        law_cell_bound_is_sound(q, m.vectors[j]);
        law_normalized_distance_fits(q, m.vectors[j]);
    }
}

/// What is below the tree of a listed key belongs to that cell.
pub proof fn lemma_root_cell(m: IndexModel, a: int, j: int)
    requires
        index_ok(m),
        complete_index(m),
        0 <= a < m.keys.len(),
        0 <= j < m.vectors.len(),
        has_tree(m, m.keys[a] as int),
        in_node(m.nodes, root_of(m, m.keys[a] as int), j),
    ensures
        vector_cell(m.vectors[j]) == m.keys[a],
{
    reveal(roots_ok);
    let key = vector_cell(m.vectors[j]);
    lemma_vector_cell(m.vectors[j]);
    let b = choose|b: int| 0 <= b < m.keys.len() && m.keys[b] == key as u32;
    if a != b {
        assert(in_node(m.nodes, root_of(m, m.keys[b] as int), j));
    }
}

/// The vectors below a node lie within the index, and there are some.
pub proof fn lemma_node_range(nodes: Seq<NodeModel>, n_vectors: int, i: int)
    requires
        trees_ok(nodes, n_vectors),
        0 <= i < nodes.len(),
    ensures
        0 <= node_start(nodes, i),
        node_start(nodes, i) + nodes[i].count <= n_vectors,
        nodes[i].count >= 1,
        0 <= node_height(nodes, i),
    decreases nodes.len() - i,
{
    assert(node_ok(nodes, n_vectors, i));
    if !nodes[i].is_leaf() {
        lemma_node_range(nodes, n_vectors, nodes[i].left as int);
        lemma_node_range(nodes, n_vectors, nodes[i].right as int);
    }
}

/// The entry that vector `j` contributes to a query.
pub open spec fn entry_of(m: IndexModel, q: Seq<i16>, j: int) -> TopKEntry {
    TopKEntry {
        key: packed_key(squared_distance(q, m.vectors[j]) as i32, m.ids[j]) as u64,
        label: m.labels[j],
    }
}

pub open spec fn entries_of(m: IndexModel, q: Seq<i16>, h: Seq<int>) -> Seq<TopKEntry> {
    h.map_values(|j: int| entry_of(m, q, j))
}

/// The entries of all vectors of the index.
pub open spec fn pool(m: IndexModel, q: Seq<i16>) -> Seq<TopKEntry> {
    Seq::new(m.vectors.len(), |j: int| entry_of(m, q, j))
}

/// The neighbours after the vectors `h` were offered in turn.
pub open spec fn after_scan(
    m: IndexModel,
    q: Seq<i16>,
    s: Seq<TopKEntry>,
    h: Seq<int>,
) -> Seq<TopKEntry> {
    offered_all(s, entries_of(m, q, h))
}

/// The integers from `lo` up to but not including `hi`.
pub open spec fn span(lo: int, hi: int) -> Seq<int> {
    Seq::new(
        if lo < hi {
            (hi - lo) as nat
        } else {
            0
        },
        |k: int| lo + k,
    )
}

pub proof fn lemma_after_scan_push(
    m: IndexModel,
    q: Seq<i16>,
    s: Seq<TopKEntry>,
    h: Seq<int>,
    j: int,
)
    ensures
        after_scan(m, q, s, h.push(j)) == offered(after_scan(m, q, s, h), entry_of(m, q, j)),
{
    let es = entries_of(m, q, h.push(j));
    assert(es.drop_last() =~= entries_of(m, q, h));
    assert(es.last() == entry_of(m, q, j));
}

pub proof fn lemma_after_scan_concat(
    m: IndexModel,
    q: Seq<i16>,
    s: Seq<TopKEntry>,
    a: Seq<int>,
    b: Seq<int>,
)
    ensures
        after_scan(m, q, s, a + b) == after_scan(m, q, after_scan(m, q, s, a), b),
    decreases b.len(),
{
    if b.len() == 0 {
        assert(a + b =~= a);
        assert(entries_of(m, q, b) =~= Seq::<TopKEntry>::empty());
    } else {
        let init = b.drop_last();
        lemma_after_scan_concat(m, q, s, a, init);
        assert(a + b =~= (a + init).push(b.last()));
        assert(b =~= init.push(b.last()));
        lemma_after_scan_push(m, q, s, a + init, b.last());
        lemma_after_scan_push(m, q, after_scan(m, q, s, a), init, b.last());
    }
}

/// `t` keeps everything that `s` settled.
pub open spec fn improves(s: Seq<TopKEntry>, t: Seq<TopKEntry>) -> bool {
    &&& ranked(t)
    &&& worst_key_of(t) <= worst_key_of(s)
    &&& forall|x: TopKEntry| #[trigger] covered(s, x) ==> covered(t, x)
}

pub proof fn lemma_after_scan(m: IndexModel, q: Seq<i16>, s: Seq<TopKEntry>, h: Seq<int>)
    requires
        ranked(s),
    ensures
        improves(s, after_scan(m, q, s, h)),
        s.len() <= after_scan(m, q, s, h).len(),
        forall|k: int|
            0 <= k < h.len() ==> covered(
                after_scan(m, q, s, h),
                entry_of(m, q, #[trigger] h[k]),
            ),
        forall|x: TopKEntry| #[trigger]
            after_scan(m, q, s, h).contains(x) ==> s.contains(x) || exists|k: int|
                0 <= k < h.len() && x == entry_of(m, q, #[trigger] h[k]),
    decreases h.len(),
{
    let t = after_scan(m, q, s, h);
    if h.len() > 0 {
        let init = h.drop_last();
        assert(h =~= init.push(h.last()));
        lemma_after_scan(m, q, s, init);
        lemma_after_scan_push(m, q, s, init, h.last());
        let u = after_scan(m, q, s, init);
        lemma_offered(u, entry_of(m, q, h.last()));
        assert forall|x: TopKEntry| #[trigger] covered(s, x) implies covered(t, x) by {
            assert(covered(u, x));
        }
        assert forall|k: int| 0 <= k < h.len() implies covered(
            t,
            entry_of(m, q, #[trigger] h[k]),
        ) by {
            if k < init.len() {
                assert(init[k] == h[k]);
                assert(covered(u, entry_of(m, q, init[k])));
            }
        }
        assert forall|x: TopKEntry| #[trigger] t.contains(x) implies s.contains(x) || exists|k: int|
            0 <= k < h.len() && x == entry_of(m, q, #[trigger] h[k]) by {
            if u.contains(x) {
                if !s.contains(x) {
                    let k = choose|k: int|
                        0 <= k < init.len() && x == entry_of(m, q, #[trigger] init[k]);
                    assert(x == entry_of(m, q, h[k]));
                }
            } else {
                assert(x == entry_of(m, q, h[h.len() - 1]));
            }
        }
    } else {
        assert(entries_of(m, q, h) =~= Seq::<TopKEntry>::empty());
    }
}

/// Keys of different vectors differ.
pub proof fn lemma_entry_keys_differ(m: IndexModel, q: Seq<i16>, j: int, k: int)
    requires
        distances_fit(m, q),
        0 <= j < m.vectors.len(),
        0 <= k < m.vectors.len(),
        m.ids[j] != m.ids[k],
    ensures
        entry_of(m, q, j).key != entry_of(m, q, k).key,
{
    assert(squared_distance(q, m.vectors[j]) <= i32::MAX);
    assert(squared_distance(q, m.vectors[k]) <= i32::MAX);
    lemma_partial_distance_monotone(q, m.vectors[j], 0, 16);
    lemma_partial_distance_monotone(q, m.vectors[k], 0, 16);
    law_key_order(
        squared_distance(q, m.vectors[j]) as i32,
        m.ids[j],
        squared_distance(q, m.vectors[k]) as i32,
        m.ids[k],
    );
    law_key_order(
        squared_distance(q, m.vectors[k]) as i32,
        m.ids[k],
        squared_distance(q, m.vectors[j]) as i32,
        m.ids[j],
    );
}

/// No vector below a node has a smaller key than the node's bound.
pub proof fn lemma_node_key(m: IndexModel, q: Seq<i16>, i: int, j: int)
    requires
        index_ok(m),
        boxes_sound(m),
        distances_fit(m, q),
        0 <= i < m.nodes.len(),
        in_node(m.nodes, i, j),
    ensures
        packed_key(box_bound(q, m.nodes[i]) as i32, m.nodes[i].min_original_id) <= entry_of(
            m,
            q,
            j,
        ).key,
{
    reveal(boxes_sound);
    lemma_node_range(m.nodes, m.vectors.len() as int, i);
    law_box_bound_is_sound(q, m.nodes[i], m.vectors[j]);
    assert(squared_distance(q, m.vectors[j]) <= i32::MAX);
    law_key_order(
        squared_distance(q, m.vectors[j]) as i32,
        m.ids[j],
        box_bound(q, m.nodes[i]) as i32,
        m.nodes[i].min_original_id,
    );
}

/// No vector of a cell has a smaller key than the bound of the cell.
pub proof fn lemma_cell_key(m: IndexModel, q: Seq<i16>, a: int, j: int)
    requires
        index_ok(m),
        boxes_sound(m),
        complete_index(m),
        all_normalized(m),
        normalized(q),
        distances_fit(m, q),
        0 <= a < m.keys.len(),
        has_tree(m, m.keys[a] as int),
        in_node(m.nodes, root_of(m, m.keys[a] as int), j),
    ensures
        packed_key(
            cell_bound(q, vector_cell(q) as u16, m.keys[a] as u16) as i32,
            m.nodes[root_of(m, m.keys[a] as int)].min_original_id,
        ) <= entry_of(m, q, j).key,
{
    reveal(boxes_sound);
    reveal(roots_ok);
    let i = root_of(m, m.keys[a] as int);
    lemma_node_range(m.nodes, m.vectors.len() as int, i);
    lemma_root_cell(m, a, j);
    law_cell_bound_is_sound(q, m.vectors[j]);
    assert(squared_distance(q, m.vectors[j]) <= i32::MAX);
    law_key_order(
        squared_distance(q, m.vectors[j]) as i32,
        m.ids[j],
        cell_bound(q, vector_cell(q) as u16, m.keys[a] as u16) as i32,
        m.nodes[i].min_original_id,
    );
}

/// Vectors that were offered once each leave no key twice.
pub proof fn lemma_scan_distinct(m: IndexModel, q: Seq<i16>, h: Seq<int>)
    requires
        unique_ids(m),
        distances_fit(m, q),
        h.no_duplicates(),
        forall|k: int| 0 <= k < h.len() ==> 0 <= #[trigger] h[k] < m.vectors.len(),
    ensures
        distinct_keys(entries_of(m, q, h)),
        distinct_keys(after_scan(m, q, Seq::empty(), h)),
{
    let es = entries_of(m, q, h);
    assert forall|a: int, b: int|
        0 <= a < es.len() && 0 <= b < es.len() && a != b implies #[trigger] es[a].key
        != #[trigger] es[b].key by {
        assert(h[a] != h[b]);
        lemma_entry_keys_differ(m, q, h[a], h[b]);
    }
    law_offering_keeps_the_best(es);
}

/// Different vectors have different keys.
pub proof fn lemma_pool_distinct(m: IndexModel, q: Seq<i16>)
    requires
        unique_ids(m),
        distances_fit(m, q),
    ensures
        distinct_keys(pool(m, q)),
{
    let all = pool(m, q);
    assert forall|j: int, k: int|
        0 <= j < all.len() && 0 <= k < all.len() && j != k implies #[trigger] all[j].key
        != #[trigger] all[k].key by {
        lemma_entry_keys_differ(m, q, j, k);
    }
}

/// Offering some vectors once each leaves the best five of all, where no other
/// vector could improve the result.
pub proof fn lemma_scan_is_best(m: IndexModel, q: Seq<i16>, h: Seq<int>)
    requires
        unique_ids(m),
        distances_fit(m, q),
        h.no_duplicates(),
        forall|k: int| 0 <= k < h.len() ==> 0 <= #[trigger] h[k] < m.vectors.len(),
        forall|j: int|
            0 <= j < m.vectors.len() ==> covered(
                after_scan(m, q, Seq::empty(), h),
                #[trigger] entry_of(m, q, j),
            ),
    ensures
        is_best(after_scan(m, q, Seq::empty(), h), pool(m, q)),
        after_scan(m, q, Seq::empty(), h) == offered_all(Seq::empty(), pool(m, q)),
{
    let t = after_scan(m, q, Seq::empty(), h);
    let all = pool(m, q);
    lemma_pool_distinct(m, q);
    lemma_scan_distinct(m, q, h);
    lemma_after_scan(m, q, Seq::empty(), h);
    assert forall|i: int| 0 <= i < t.len() implies all.contains(#[trigger] t[i]) by {
        assert(t.contains(t[i]));
        let k = choose|k: int| 0 <= k < h.len() && t[i] == entry_of(m, q, #[trigger] h[k]);
        assert(all[h[k]] == t[i]);
    }
    assert forall|j: int| 0 <= j < all.len() implies covered(t, #[trigger] all[j]) by {
        assert(covered(t, entry_of(m, q, j)));
    }
    law_offering_keeps_the_best(all);
    law_best_is_unique(t, offered_all(Seq::empty(), all), all);
}

/// The bound of a box is attained: it is the distance of the query to the
/// nearest point of the box, which has in each dimension the query's value,
/// moved to the interval.
pub proof fn law_box_bound_is_attained(q: Seq<i16>, node: NodeModel)
    requires
        q.len() == 16,
        forall|d: int| 0 <= d < 16 ==> #[trigger] node.bbox_min[d] <= node.bbox_max[d],
    ensures
        box_bound(q, node) == squared_distance(
            q,
            Seq::new(
                16,
                |d: int|
                    if q[d] < node.bbox_min[d] {
                        node.bbox_min[d]
                    } else if q[d] > node.bbox_max[d] {
                        node.bbox_max[d]
                    } else {
                        q[d]
                    },
            ),
        ),
{
    let nearest = Seq::new(
        16,
        |d: int|
            if q[d] < node.bbox_min[d] {
                node.bbox_min[d]
            } else if q[d] > node.bbox_max[d] {
                node.bbox_max[d]
            } else {
                q[d]
            },
    );
    lemma_bound_attained(q, node, nearest, 16);
}

proof fn lemma_bound_attained(q: Seq<i16>, node: NodeModel, nearest: Seq<i16>, n: int)
    requires
        0 <= n <= 16,
        forall|d: int| 0 <= d < 16 ==> #[trigger] node.bbox_min[d] <= node.bbox_max[d],
        forall|d: int|
            0 <= d < 16 ==> #[trigger] nearest[d] == (if q[d] < node.bbox_min[d] {
                node.bbox_min[d]
            } else if q[d] > node.bbox_max[d] {
                node.bbox_max[d]
            } else {
                q[d]
            }),
    ensures
        partial_box_bound(q, node, n) == partial_distance(q, nearest, n),
    decreases n,
{
    if n > 0 {
        let d = n - 1;
        lemma_bound_attained(q, node, nearest, d);
        assert(node.bbox_min[d] <= node.bbox_max[d]);
        lemma_square(q[d] - nearest[d]);
        lemma_square(gap(q[d], node.bbox_min[d], node.bbox_max[d]));
        assert(nearest[d] == nearest[d]);
    }
}

} // verus!
