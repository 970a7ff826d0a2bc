//! Testing an index before it is searched.
use crate::builder::{index_from, is_index_of, law_built_index_is_sound, lemma_entries_for};
use crate::cell::{
    cell_bound, key_in_tables, lemma_distance_terms, lemma_vector_cell, normalized, DAY_Q, HOUR_Q,
};
use crate::distance::{lemma_square, lemma_square_monotone, square, squared_distance};
use crate::index_format::{
    all_sections, cell_sections, model_of, IndexModel, IndexView, NodeModel, EMPTY_NODE, N_CELLS,
};
use crate::search::{warmable, Index, SearchEngine};
use crate::tree::{
    box_bound, cells_ok, has_tree, heights_ok, in_cell, in_node, index_ok, lemma_node_range,
    lemma_root_cell, node_height, node_ok, node_start, partial_box_bound, root_of, roots_ok,
    trees_ok, MAX_HEIGHT,
};
use crate::tree_builder::{is_high, is_low, lemma_shape_start, sums_up, Entry};
use crate::types::{Payload, Vec16I};
use crate::vectorize::{
    law_payload_cell_is_vector_cell, payload_cell, payload_on_scale, payload_vector,
    request_time_ok,
};
use vstd::prelude::*;

verus! {

/// The least value that a component of a vector may have.
pub open spec fn low_end(d: int) -> int {
    if d == 5 || d == 6 {
        -10000
    } else {
        0
    }
}

/// The greatest value that a component of a vector may have.
pub open spec fn high_end(d: int) -> int {
    if d == 14 || d == 15 {
        0
    } else {
        10000
    }
}

/// No component leaves the scale.
pub open spec fn bounded(v: Seq<i16>) -> bool {
    forall|d: int| 0 <= d < 16 ==> low_end(d) <= #[trigger] v[d] <= high_end(d)
}

pub open spec fn vectors_bounded(m: IndexModel) -> bool {
    forall|j: int| 0 <= j < m.vectors.len() ==> bounded(#[trigger] m.vectors[j])
}

pub open spec fn boxes_bounded(m: IndexModel) -> bool {
    forall|i: int|
        0 <= i < m.nodes.len() ==> bounded((#[trigger] m.nodes[i]).bbox_min) && bounded(
            m.nodes[i].bbox_max,
        )
}

pub open spec fn keys_known(m: IndexModel) -> bool {
    forall|a: int|
        0 <= a < m.keys.len() && has_tree(m, #[trigger] m.keys[a] as int) ==> key_in_tables(
            m.keys[a] as u16,
        )
}

/// What an index has to be for an engine to search it.
pub open spec fn searchable(d: Seq<u8>, engine: SearchEngine) -> bool {
    let m = model_of(d);
    match engine {
        SearchEngine::Cell => cell_sections(d) && cells_ok(m) && vectors_bounded(m),
        SearchEngine::Tree => all_sections(d) && index_ok(m) && vectors_bounded(m)
            && boxes_bounded(m) && keys_known(m),
    }
}

proof fn lemma_term(a: int, b: int, d: int)
    requires
        low_end(d) <= a <= high_end(d),
        low_end(d) <= b <= high_end(d),
    ensures
        0 <= square(a - b) <= (if d == 5 || d == 6 {
            400_000_000int
        } else if d == 14 || d == 15 {
            0
        } else {
            100_000_000
        }),
{
    let x = a - b;
    lemma_square(x);
    let limit: int = high_end(d) - low_end(d);
    lemma_square(limit);
    if x >= 0 {
        lemma_square_monotone(x, limit);
    } else {
        lemma_square_monotone(-x, limit);
    }
    lemma_square(0);
    assert(square(10000) == 100_000_000 && square(20000) == 400_000_000) by {
        lemma_square(10000);
        lemma_square(20000);
    }
}

/// Vectors on the scale are never too far apart for `i32`.
pub proof fn law_bounded_distance_fits(a: Seq<i16>, b: Seq<i16>)
    requires
        bounded(a),
        bounded(b),
    ensures
        0 <= squared_distance(a, b) <= 2_000_000_000,
{
    lemma_distance_terms(a, b);
    assert forall|d: int| 0 <= d < 16 implies low_end(d) <= #[trigger] a[d] <= high_end(d)
        && low_end(d) <= b[d] <= high_end(d) by {
        assert(low_end(d) <= b[d]);
    }
    lemma_term(a[0] as int, b[0] as int, 0);
    lemma_term(a[1] as int, b[1] as int, 1);
    lemma_term(a[2] as int, b[2] as int, 2);
    lemma_term(a[3] as int, b[3] as int, 3);
    lemma_term(a[4] as int, b[4] as int, 4);
    lemma_term(a[5] as int, b[5] as int, 5);
    lemma_term(a[6] as int, b[6] as int, 6);
    lemma_term(a[7] as int, b[7] as int, 7);
    lemma_term(a[8] as int, b[8] as int, 8);
    lemma_term(a[9] as int, b[9] as int, 9);
    lemma_term(a[10] as int, b[10] as int, 10);
    lemma_term(a[11] as int, b[11] as int, 11);
    lemma_term(a[12] as int, b[12] as int, 12);
    lemma_term(a[13] as int, b[13] as int, 13);
    lemma_term(a[14] as int, b[14] as int, 14);
    lemma_term(a[15] as int, b[15] as int, 15);
}

/// The terms of a box bound.
spec fn gap_limit(n: int) -> int
    decreases n,
{
    if n <= 0 {
        0
    } else {
        gap_limit(n - 1) + (if n - 1 == 5 || n - 1 == 6 {
            400_000_000int
        } else if n - 1 == 14 || n - 1 == 15 {
            0
        } else {
            100_000_000
        })
    }
}

proof fn lemma_partial_bound(q: Seq<i16>, node: NodeModel, n: int)
    requires
        bounded(q),
        bounded(node.bbox_min),
        bounded(node.bbox_max),
        0 <= n <= 16,
    ensures
        partial_box_bound(q, node, n) <= gap_limit(n),
    decreases n,
{
    if n > 0 {
        let d = n - 1;
        lemma_partial_bound(q, node, d);
        assert(low_end(d) <= q[d] <= high_end(d));
        assert(low_end(d) <= node.bbox_min[d] <= high_end(d));
        assert(low_end(d) <= node.bbox_max[d] <= high_end(d));
        lemma_term(node.bbox_min[d] as int, q[d] as int, d);
        lemma_term(q[d] as int, node.bbox_max[d] as int, d);
        lemma_term(q[d] as int, q[d] as int, d);
        assert(q[d] - q[d] == 0);
    }
}

proof fn lemma_normalized_bounded(v: Seq<i16>)
    requires
        normalized(v),
    ensures
        bounded(v),
{
    crate::cell::law_quantized_steps();
    let h = choose|h: int| 0 <= h < 24 && #[trigger] HOUR_Q@[h] == v[3];
    let w = choose|w: int| 0 <= w < 7 && #[trigger] DAY_Q@[w] == v[4];
    assert(HOUR_Q@.contains(v[3]) && DAY_Q@.contains(v[4]));
    assert(0 <= HOUR_Q@[h] <= 10000 && 0 <= DAY_Q@[w] <= 10000);
}

proof fn lemma_key_bound(q: Seq<i16>, a: u16, b: u16)
    requires
        bounded(q),
        key_in_tables(a),
        key_in_tables(b),
    ensures
        cell_bound(q, a, b) <= 1_300_000_000,
{
    crate::cell::law_quantized_steps();
    crate::cell::lemma_key_parts(a);
    crate::cell::lemma_key_parts(b);
    let ha = HOUR_Q@[crate::cell::key_hour(a)] as int;
    let hb = HOUR_Q@[crate::cell::key_hour(b)] as int;
    let da = DAY_Q@[crate::cell::key_day(a)] as int;
    let db = DAY_Q@[crate::cell::key_day(b)] as int;
    lemma_term(ha, hb, 3);
    lemma_term(da, db, 4);
    assert(low_end(5) <= q[5] <= high_end(5));
    assert(low_end(6) <= q[6] <= high_end(6));
    lemma_term(q[5] as int, -10000, 5);
    lemma_term(q[6] as int, -10000, 6);
}

/// An index that passes the test can be searched for every request whose
/// features are on the scale.
pub proof fn law_searchable_index_is_ready(index: Index<'_>, p: Payload<'_>)
    requires
        searchable(index.bytes(), index.spec_engine()),
        request_time_ok(p),
        payload_on_scale(p, index.table()),
    ensures
        index.ready(p),
{
    let m = model_of(index.bytes());
    let q = payload_vector(p, index.table());
    law_payload_cell_is_vector_cell(p, index.table());
    lemma_vector_cell(q);
    lemma_normalized_bounded(q);
    assert forall|j: int| 0 <= j < m.vectors.len() implies squared_distance(
        q,
        #[trigger] m.vectors[j],
    ) <= i32::MAX by {
        law_bounded_distance_fits(q, m.vectors[j]);
    }
    if index.spec_engine() == SearchEngine::Tree {
        assert forall|i: int| 0 <= i < m.nodes.len() implies box_bound(q, #[trigger] m.nodes[i])
            <= i32::MAX by {
            lemma_partial_bound(q, m.nodes[i], 16);
            reveal_with_fuel(gap_limit, 17);
        }
        assert forall|a: int|
            0 <= a < m.keys.len() && has_tree(m, #[trigger] m.keys[a] as int) implies key_in_tables(
            m.keys[a] as u16,
        ) && cell_bound(q, payload_cell(p) as u16, m.keys[a] as u16) <= i32::MAX by {
            lemma_key_bound(q, payload_cell(p) as u16, m.keys[a] as u16);
        }
    }
}

/// Whether a vector is on the scale.
pub fn is_bounded(v: &Vec16I) -> (ok: bool)
    ensures
        ok == bounded(v@),
{
    let mut d: usize = 0;
    while d < 16
        invariant
            d <= 16,
            forall|k: int| 0 <= k < d ==> low_end(k) <= #[trigger] v@[k] <= high_end(k),
        decreases 16 - d,
    {
        let low: i16 = if d == 5 || d == 6 {
            -10000
        } else {
            0
        };
        let high: i16 = if d == 14 || d == 15 {
            0
        } else {
            10000
        };
        if v[d] < low || v[d] > high {
            assert(!(low_end(d as int) <= v@[d as int] <= high_end(d as int)));
            return false;
        }
        d = d + 1;
    }
    true
}

fn has_cell_sections(data: &[u8]) -> (ok: bool)
    ensures
        ok == cell_sections(data@),
{
    if data.len() < 64 {
        return false;
    }
    let view = IndexView::new(data);
    let n: u64 = view.n_vectors() as u64;
    data.len() as u64 >= 64 + 8192 * 8 + 37 * n
}

fn has_all_sections(data: &[u8]) -> (ok: bool)
    ensures
        ok == all_sections(data@),
{
    if data.len() < 64 {
        return false;
    }
    let view = IndexView::new(data);
    let n: u64 = view.n_vectors() as u64;
    let n_keys: u64 = view.n_populated_tree_roots() as u64;
    let n_nodes: u64 = view.n_tree_nodes() as u64;
    data.len() as u64 >= 64 + 8192 * 8 + 37 * n + 8192 * 8 + 4 * n_keys + 88 * n_nodes
}

fn are_vectors_bounded(view: &IndexView<'_>) -> (ok: bool)
    requires
        view.cells_complete(),
    ensures
        ok == vectors_bounded(view@),
{
    let n: u32 = view.n_vectors();
    let mut j: u32 = 0;
    while j < n
        invariant
            j <= n,
            view.cells_complete(),
            n == view.spec_n_vectors(),
            n == view@.vectors.len(),
            forall|k: int| 0 <= k < j ==> bounded(#[trigger] view@.vectors[k]),
        decreases n - j,
    {
        let v = view.vector_at(j);
        if !is_bounded(&v) {
            assert(!bounded(view@.vectors[j as int]));
            return false;
        }
        j = j + 1;
    }
    true
}

/// Whether every cell lies within the index.
fn are_cells_within(view: &IndexView<'_>) -> (ok: bool)
    requires
        view.cells_complete(),
    ensures
        ok == (forall|key: int|
            0 <= key < N_CELLS ==> #[trigger] view@.cells[key].offset + view@.cells[key].count
                <= view@.vectors.len()),
{
    let n: u64 = view.n_vectors() as u64;
    let mut key: u16 = 0;
    while key < 8192
        invariant
            key <= 8192,
            view.cells_complete(),
            n == view@.vectors.len(),
            forall|k: int|
                0 <= k < key ==> #[trigger] view@.cells[k].offset + view@.cells[k].count
                    <= view@.vectors.len(),
        decreases 8192 - key,
    {
        let cell = view.cell_entry(key);
        if cell.offset as u64 + cell.count as u64 > n {
            assert(view@.cells[key as int].offset + view@.cells[key as int].count
                > view@.vectors.len());
            return false;
        }
        key = key + 1;
    }
    true
}

/// Whether two ranges share a position.
fn ranges_overlap(a: u32, a_count: u32, b: u32, b_count: u32) -> (overlap: bool)
    ensures
        overlap == (exists|j: int| #[trigger]
            within(a as int, a_count as int, j) && within(b as int, b_count as int, j)),
{
    let overlap: bool = a_count > 0 && b_count > 0 && (a as u64) < b as u64 + b_count as u64 && (
    b as u64) < a as u64 + a_count as u64;
    proof {
        if overlap {
            let j = if a <= b {
                b as int
            } else {
                a as int
            };
            assert(within(a as int, a_count as int, j) && within(b as int, b_count as int, j));
        }
    }
    overlap
}

pub open spec fn within(start: int, count: int, j: int) -> bool {
    start <= j < start + count
}

/// Whether no two cells share a vector.
fn are_cells_apart(view: &IndexView<'_>) -> (ok: bool)
    requires
        view.cells_complete(),
    ensures
        ok == (forall|a: int, b: int, j: int|
            0 <= a < N_CELLS && 0 <= b < N_CELLS && a != b ==> !(#[trigger] in_cell(view@, a, j)
                && #[trigger] in_cell(view@, b, j))),
{
    let ghost m = view@;
    let mut a: u16 = 0;
    while a < 8192
        invariant
            a <= 8192,
            view.cells_complete(),
            m == view@,
            forall|x: int, y: int, j: int|
                0 <= x < a && 0 <= y < x ==> !(#[trigger] in_cell(m, x, j) && #[trigger] in_cell(
                    m,
                    y,
                    j,
                )),
        decreases 8192 - a,
    {
        let first = view.cell_entry(a);
        let mut b: u16 = 0;
        while b < a
            invariant
                b <= a < 8192,
                view.cells_complete(),
                m == view@,
                first == m.cells[a as int],
                forall|y: int, j: int|
                    0 <= y < b ==> !(#[trigger] in_cell(m, y, j) && in_cell(m, a as int, j)),
            decreases a - b,
        {
            let second = view.cell_entry(b);
            if ranges_overlap(first.offset, first.count, second.offset, second.count) {
                proof {
                    let j = choose|j: int| #[trigger]
                        within(first.offset as int, first.count as int, j) && within(
                            second.offset as int,
                            second.count as int,
                            j,
                        );
                    assert(in_cell(m, a as int, j) && in_cell(m, b as int, j));
                }
                return false;
            }
            assert forall|j: int| !(#[trigger] in_cell(m, b as int, j) && in_cell(
                m,
                a as int,
                j,
            )) by {
                assert(within(first.offset as int, first.count as int, j) == in_cell(
                    m,
                    a as int,
                    j,
                ));
            }
            b = b + 1;
        }
        a = a + 1;
    }
    assert forall|x: int, y: int, j: int| 0 <= x < N_CELLS && 0 <= y < N_CELLS && x != y implies !(
    #[trigger] in_cell(m, x, j) && #[trigger] in_cell(m, y, j)) by {
        if x < y {
            assert(!(in_cell(m, y, j) && in_cell(m, x, j)));
        }
    }
    true
}

fn are_cells_ok(view: &IndexView<'_>) -> (ok: bool)
    requires
        view.cells_complete(),
    ensures
        ok == cells_ok(view@),
{
    proof {
        reveal(cells_ok);
    }
    are_cells_within(view) && are_cells_apart(view)
}

/// The first vector below each node and the height of each node, or `None`
/// where a tree is not well-formed.
fn tree_spans(view: &IndexView<'_>) -> (spans: Option<(Vec<u32>, Vec<u32>)>)
    requires
        view.complete(),
    ensures
        spans is Some <==> trees_ok(view@.nodes, view@.vectors.len() as int) && heights_ok(
            view@.nodes,
        ),
        spans matches Some(found) ==> {
            &&& found.0@.len() == view@.nodes.len()
            &&& forall|i: int|
                0 <= i < view@.nodes.len() ==> #[trigger] found.0@[i] == node_start(
                    view@.nodes,
                    i,
                )
            &&& found.1@.len() == view@.nodes.len()
            &&& forall|i: int|
                0 <= i < view@.nodes.len() ==> #[trigger] found.1@[i] == view@.nodes[i].count
        },
{
    let ghost nodes = view@.nodes;
    let ghost n_vectors = view@.vectors.len() as int;
    let n: u32 = view.n_tree_nodes();
    let n_vecs: u64 = view.n_vectors() as u64;
    let mut starts: Vec<u32> = Vec::new();
    let mut counts: Vec<u32> = Vec::new();
    let mut heights: Vec<u32> = Vec::new();
    let mut k: u32 = 0;
    while k < n
        invariant
            k <= n,
            starts@.len() == k,
            counts@.len() == k,
            heights@.len() == k,
        decreases n - k,
    {
        starts.push(0);
        counts.push(0);
        heights.push(0);
        k = k + 1;
    }
    let mut i: u32 = n;
    while i > 0
        invariant
            i <= n,
            view.complete(),
            nodes == view@.nodes,
            n_vectors == view@.vectors.len(),
            n == nodes.len(),
            n == view.spec_n_nodes(),
            n_vecs == n_vectors,
            starts@.len() == n,
            counts@.len() == n,
            heights@.len() == n,
            forall|a: int| i <= a < n ==> #[trigger] node_ok(nodes, n_vectors, a),
            forall|a: int| i <= a < n ==> #[trigger] starts@[a] == node_start(nodes, a),
            forall|a: int| i <= a < n ==> #[trigger] counts@[a] == nodes[a].count,
            forall|a: int|
                i <= a < n ==> #[trigger] heights@[a] == node_height(nodes, a) && heights@[a]
                    <= MAX_HEIGHT,
        decreases i,
    {
        i = i - 1;
        let node = view.tree_node(i);
        let ghost at = i as int;
        if node.is_leaf() {
            if node.count < 1 || node.offset as u64 + node.count as u64 > n_vecs {
                assert(!node_ok(nodes, n_vectors, at));
                return None;
            }
            starts.set(i as usize, node.offset);
            counts.set(i as usize, node.count);
            heights.set(i as usize, 0);
        } else {
            if !(i < node.left && node.left < n && i < node.right && node.right < n) {
                assert(!node_ok(nodes, n_vectors, at));
                return None;
            }
            let l: usize = node.left as usize;
            let r: usize = node.right as usize;
            assert(counts@[l as int] == nodes[l as int].count);
            assert(counts@[r as int] == nodes[r as int].count);
            assert(starts@[l as int] == node_start(nodes, l as int));
            assert(starts@[r as int] == node_start(nodes, r as int));
            assert(heights@[l as int] == node_height(nodes, l as int));
            assert(heights@[r as int] == node_height(nodes, r as int));
            if node.count as u64 != counts[l] as u64 + counts[r] as u64 || starts[r] as u64
                != starts[l] as u64 + counts[l] as u64 {
                assert(!node_ok(nodes, n_vectors, at));
                return None;
            }
            let below: u32 = if heights[l] >= heights[r] {
                heights[l]
            } else {
                heights[r]
            };
            assert(node_height(nodes, at) == 1 + below);
            if below >= 255 {
                assert(node_height(nodes, at) > MAX_HEIGHT);
                return None;
            }
            starts.set(i as usize, starts[l]);
            counts.set(i as usize, node.count);
            heights.set(i as usize, below + 1);
        }
    }
    assert forall|a: int| 0 <= a < nodes.len() implies #[trigger] node_height(nodes, a)
        <= MAX_HEIGHT by {
        assert(heights@[a] == node_height(nodes, a));
    }
    Some((starts, counts))
}

/// The listed keys are cells, none is listed twice, and every tree is listed.
pub open spec fn keys_listed(m: IndexModel) -> bool {
    &&& m.keys.len() <= N_CELLS
    &&& forall|a: int| 0 <= a < m.keys.len() ==> #[trigger] m.keys[a] < N_CELLS
    &&& forall|key: int|
        0 <= key < N_CELLS && #[trigger] has_tree(m, key) ==> root_of(m, key) < m.nodes.len()
            && m.keys.contains(key as u32)
    &&& forall|a: int, b: int|
        0 <= a < m.keys.len() && 0 <= b < m.keys.len() && a != b ==> #[trigger] m.keys[a]
            != #[trigger] m.keys[b]
}

/// Whether the keys are listed as they should; the low halves of what is stored
/// are the keys only where the high halves are zero.
fn are_keys_listed(view: &IndexView<'_>) -> (ok: bool)
    requires
        view.complete(),
    ensures
        ok == (keys_listed(view@) && keys_known(view@)),
{
    let ghost m = view@;
    let n: u32 = view.n_populated_tree_roots();
    let n_nodes: u32 = view.n_tree_nodes();
    if n > 8192 {
        return false;
    }
    let mut listed = [false; 8192];
    let mut a: u32 = 0;
    while a < n
        invariant
            a <= n <= 8192,
            view.complete(),
            m == view@,
            n == m.keys.len(),
            n == view.spec_n_keys(),
            n_nodes == m.nodes.len(),
            forall|k: int|
                0 <= k < a ==> {
                    &&& #[trigger] m.keys[k] < N_CELLS
                    &&& has_tree(m, m.keys[k] as int) ==> key_in_tables(m.keys[k] as u16)
                    &&& listed@[m.keys[k] as int]
                },
            forall|k: int, l: int|
                0 <= k < a && 0 <= l < a && k != l ==> #[trigger] m.keys[k] != #[trigger] m.keys[l],
            forall|key: int|
                0 <= key < 8192 && #[trigger] listed@[key] ==> exists|k: int|
                    0 <= k < a && #[trigger] m.keys[k] == key,
        decreases n - a,
    {
        let stored: u32 = view.stored_tree_key_at(a);
        assert(m.keys[a as int] == stored);
        if stored >= 8192 {
            return false;
        }
        let key: u16 = stored as u16;
        let hour: u16 = key / 8 % 32;
        let day: u16 = key % 8;
        assert(key_in_tables(m.keys[a as int] as u16) == (hour < 24 && day < 7));
        let root = view.tree_root_entry(key);
        if root.root != EMPTY_NODE && (hour >= 24 || day >= 7) {
            assert(has_tree(m, m.keys[a as int] as int));
            return false;
        }
        if listed[key as usize] {
            proof {
                let k = choose|k: int| 0 <= k < a && #[trigger] m.keys[k] == key;
                assert(m.keys[k] == m.keys[a as int]);
            }
            return false;
        }
        let ghost before = listed@;
        listed[key as usize] = true;
        proof {
            assert forall|x: int| 0 <= x < 8192 && #[trigger] listed@[x] implies exists|k: int|
                0 <= k < a + 1 && #[trigger] m.keys[k] == x by {
                if x == key {
                    assert(m.keys[a as int] == x);
                } else {
                    assert(before[x]);
                    let k = choose|k: int| 0 <= k < a && #[trigger] m.keys[k] == x;
                    assert(m.keys[k] == x);
                }
            }
            assert forall|k: int, l: int|
                0 <= k < a + 1 && 0 <= l < a + 1 && k != l implies #[trigger] m.keys[k]
                != #[trigger] m.keys[l] by {
                if k == a {
                    assert(before[m.keys[l] as int]);
                } else if l == a {
                    assert(before[m.keys[k] as int]);
                }
            }
        }
        a = a + 1;
    }
    let mut key: u16 = 0;
    while key < 8192
        invariant
            key <= 8192,
            view.complete(),
            m == view@,
            n == m.keys.len(),
            n_nodes == m.nodes.len(),
            forall|k: int|
                0 <= k < n ==> {
                    &&& #[trigger] m.keys[k] < N_CELLS
                    &&& listed@[m.keys[k] as int]
                },
            forall|x: int|
                0 <= x < 8192 && #[trigger] listed@[x] ==> exists|k: int|
                    0 <= k < n && #[trigger] m.keys[k] == x,
            forall|x: int|
                0 <= x < key && #[trigger] has_tree(m, x) ==> root_of(m, x) < m.nodes.len()
                    && m.keys.contains(x as u32),
        decreases 8192 - key,
    {
        let root = view.tree_root_entry(key);
        assert(m.roots[key as int].root == root.root);
        if root.root != EMPTY_NODE && (root.root >= n_nodes || !listed[key as usize]) {
            proof {
                assert(has_tree(m, key as int));
                if m.keys.contains(key as u32) {
                    let k = choose|k: int| 0 <= k < n && m.keys[k] == key as u32;
                    assert(listed@[m.keys[k] as int]);
                }
            }
            return false;
        }
        proof {
            if root.root != EMPTY_NODE {
                let k = choose|k: int| 0 <= k < n && #[trigger] m.keys[k] == key as int;
                assert(m.keys[k] == key as u32);
                assert(m.keys.contains(key as u32));
            }
        }
        key = key + 1;
    }
    true
}

/// No vector is below two of the listed roots.
pub open spec fn roots_apart(m: IndexModel) -> bool {
    forall|a: int, b: int, j: int|
        0 <= a < m.keys.len() && 0 <= b < m.keys.len() && a != b && has_tree(m, m.keys[a] as int)
            && has_tree(m, m.keys[b] as int) ==> !(#[trigger] in_node(
            m.nodes,
            root_of(m, m.keys[a] as int),
            j,
        ) && #[trigger] in_node(m.nodes, root_of(m, m.keys[b] as int), j))
}

/// No vector is below both nodes.
#[verifier::opaque]
spec fn nodes_apart(nodes: Seq<NodeModel>, a: int, b: int) -> bool {
    forall|j: int| !(#[trigger] in_node(nodes, a, j) && in_node(nodes, b, j))
}

/// The node that the `k`th listed key leads to.
spec fn listed_root(m: IndexModel, k: int) -> int {
    root_of(m, m.keys[k] as int)
}

/// The vectors below each node start and count as given.
spec fn are_spans(nodes: Seq<NodeModel>, starts: Seq<u32>, counts: Seq<u32>) -> bool {
    &&& starts.len() == nodes.len()
    &&& counts.len() == nodes.len()
    &&& forall|i: int| 0 <= i < nodes.len() ==> #[trigger] starts[i] == node_start(nodes, i)
    &&& forall|i: int| 0 <= i < nodes.len() ==> #[trigger] counts[i] == nodes[i].count
}

/// Whether no vector is below both nodes.
fn are_nodes_apart(
    Ghost(nodes): Ghost<Seq<NodeModel>>,
    starts: &Vec<u32>,
    counts: &Vec<u32>,
    a: usize,
    b: usize,
) -> (ok: bool)
    requires
        are_spans(nodes, starts@, counts@),
        a < nodes.len(),
        b < nodes.len(),
    ensures
        ok == nodes_apart(nodes, a as int, b as int),
{
    reveal(nodes_apart);
    let overlap = ranges_overlap(starts[a], counts[a], starts[b], counts[b]);
    proof {
        assert forall|j: int|
            #![trigger in_node(nodes, a as int, j)]
            #![trigger within(starts@[a as int] as int, counts@[a as int] as int, j)]
            in_node(nodes, a as int, j) == within(
                starts@[a as int] as int,
                counts@[a as int] as int,
                j,
            ) by {}
    }
    !overlap
}

/// The listed keys `a` and `b` both have trees.
spec fn both_planted(m: IndexModel, a: int, b: int) -> bool {
    has_tree(m, m.keys[a] as int) && has_tree(m, m.keys[b] as int)
}

fn listed_root_at(view: &IndexView<'_>, k: u32) -> (root: u32)
    requires
        view.complete(),
        keys_listed(view@),
        k < view@.keys.len(),
    ensures
        root == listed_root(view@, k as int),
        root == EMPTY_NODE <==> !has_tree(view@, view@.keys[k as int] as int),
        root == EMPTY_NODE || root < view@.nodes.len(),
{
    proof {
        let key = view@.keys[k as int] as int;
        assert(key < N_CELLS);
        assert(has_tree(view@, key) ==> root_of(view@, key) < view@.nodes.len());
    }
    view.tree_root_entry(view.populated_tree_key_at(k)).root
}

/// Whether the root of a listed key shares no vector with those before it.
fn is_root_apart(view: &IndexView<'_>, starts: &Vec<u32>, counts: &Vec<u32>, a: u32) -> (ok: bool)
    requires
        view.complete(),
        keys_listed(view@),
        are_spans(view@.nodes, starts@, counts@),
        a < view@.keys.len(),
    ensures
        ok == (forall|b: int|
            0 <= b < a && both_planted(view@, b, a as int) ==> nodes_apart(
                view@.nodes,
                #[trigger] listed_root(view@, b),
                listed_root(view@, a as int),
            )),
{
    let ghost m = view@;
    let root_a: u32 = listed_root_at(view, a);
    if root_a == EMPTY_NODE {
        return true;
    }
    let mut b: u32 = 0;
    while b < a
        invariant
            b <= a < m.keys.len(),
            view.complete(),
            m == view@,
            keys_listed(m),
            are_spans(m.nodes, starts@, counts@),
            root_a == listed_root(m, a as int),
            has_tree(m, m.keys[a as int] as int),
            root_a < m.nodes.len(),
            forall|y: int|
                0 <= y < b && both_planted(m, y, a as int) ==> nodes_apart(
                    m.nodes,
                    #[trigger] listed_root(m, y),
                    root_a as int,
                ),
        decreases a - b,
    {
        let root_b: u32 = listed_root_at(view, b);
        if root_b != EMPTY_NODE && !are_nodes_apart(
            Ghost(m.nodes),
            starts,
            counts,
            root_b as usize,
            root_a as usize,
        ) {
            assert(both_planted(m, b as int, a as int));
            assert(!nodes_apart(m.nodes, listed_root(m, b as int), root_a as int));
            return false;
        }
        b = b + 1;
    }
    true
}

/// Whether no vector is below two of the listed roots.
fn are_roots_apart(view: &IndexView<'_>, starts: &Vec<u32>, counts: &Vec<u32>) -> (ok: bool)
    requires
        view.complete(),
        keys_listed(view@),
        are_spans(view@.nodes, starts@, counts@),
    ensures
        ok == roots_apart(view@),
{
    let ghost m = view@;
    let n: u32 = view.n_populated_tree_roots();
    let mut a: u32 = 0;
    while a < n
        invariant
            a <= n,
            view.complete(),
            m == view@,
            n == m.keys.len(),
            keys_listed(m),
            are_spans(m.nodes, starts@, counts@),
            forall|x: int, y: int|
                0 <= y < x < a && both_planted(m, y, x) ==> nodes_apart(
                    m.nodes,
                    #[trigger] listed_root(m, y),
                    #[trigger] listed_root(m, x),
                ),
        decreases n - a,
    {
        if !is_root_apart(view, starts, counts, a) {
            proof {
                reveal(nodes_apart);
                let b = choose|b: int|
                    0 <= b < a && both_planted(m, b, a as int) && !nodes_apart(
                        m.nodes,
                        #[trigger] listed_root(m, b),
                        listed_root(m, a as int),
                    );
                let j = choose|j: int| #[trigger]
                    in_node(m.nodes, listed_root(m, b), j) && in_node(
                        m.nodes,
                        listed_root(m, a as int),
                        j,
                    );
                assert(in_node(m.nodes, root_of(m, m.keys[b] as int), j));
                assert(in_node(m.nodes, root_of(m, m.keys[a as int] as int), j));
            }
            return false;
        }
        a = a + 1;
    }
    assert forall|x: int, y: int, j: int|
        0 <= x < m.keys.len() && 0 <= y < m.keys.len() && x != y && has_tree(m, m.keys[x] as int)
            && has_tree(m, m.keys[y] as int) implies !(#[trigger] in_node(
        m.nodes,
        root_of(m, m.keys[x] as int),
        j,
    ) && #[trigger] in_node(m.nodes, root_of(m, m.keys[y] as int), j)) by {
        reveal(nodes_apart);
        assert(both_planted(m, x, y) && both_planted(m, y, x));
        assert(nodes_apart(m.nodes, listed_root(m, y), listed_root(m, x)) || nodes_apart(
            m.nodes,
            listed_root(m, x),
            listed_root(m, y),
        ));
    }
    true
}

fn are_boxes_bounded(view: &IndexView<'_>) -> (ok: bool)
    requires
        view.complete(),
    ensures
        ok == boxes_bounded(view@),
{
    let n: u32 = view.n_tree_nodes();
    let mut i: u32 = 0;
    while i < n
        invariant
            i <= n,
            view.complete(),
            n == view.spec_n_nodes(),
            n == view@.nodes.len(),
            forall|k: int|
                0 <= k < i ==> bounded((#[trigger] view@.nodes[k]).bbox_min) && bounded(
                    view@.nodes[k].bbox_max,
                ),
        decreases n - i,
    {
        let node = view.tree_node(i);
        if !is_bounded(&node.bbox_min) || !is_bounded(&node.bbox_max) {
            assert(!(bounded(view@.nodes[i as int].bbox_min) && bounded(
                view@.nodes[i as int].bbox_max,
            )));
            return false;
        }
        i = i + 1;
    }
    true
}

/// Whether the index can be warmed up: the sections that its header tells of
/// are all there.
pub fn is_warmable(data: &[u8]) -> (ok: bool)
    ensures
        ok == warmable(data@),
{
    if !has_cell_sections(data) {
        return false;
    }
    let view = IndexView::new(data);
    let has_trees = view.n_populated_tree_roots() > 0 || view.n_tree_nodes() > 0;
    !has_trees || has_all_sections(data)
}

/// Whether the engine can search the index.
pub fn is_searchable(data: &[u8], engine: SearchEngine) -> (ok: bool)
    ensures
        ok == searchable(data@, engine),
{
    let view = IndexView::new(data);
    match engine {
        SearchEngine::Cell => {
            has_cell_sections(data) && are_cells_ok(&view) && are_vectors_bounded(&view)
        },
        SearchEngine::Tree => {
            if !has_all_sections(data) {
                return false;
            }
            proof {
                reveal(roots_ok);
                assert forall|j: int| 0 <= j < view@.vectors.len() implies #[trigger] view@.vectors[
                    j].len() == 16 by {}
            }
            match tree_spans(&view) {
                None => false,
                Some((starts, counts)) => are_keys_listed(&view) && are_roots_apart(
                    &view,
                    &starts,
                    &counts,
                ) && are_cells_ok(&view) && are_vectors_bounded(&view) && are_boxes_bounded(&view),
            }
        },
    }
}

/// The index of references on the scale can be searched by either engine.
pub proof fn law_built_index_is_searchable(
    d: Seq<u8>,
    vectors: Seq<Vec16I>,
    labels: Seq<u8>,
    leaf_size: int,
    engine: SearchEngine,
)
    requires
        vectors.len() <= 0x7FFF_FFFF,
        leaf_size >= 1,
        all_sections(d),
        is_index_of(model_of(d), vectors, labels, leaf_size),
        forall|k: int| 0 <= k < vectors.len() ==> bounded((#[trigger] vectors[k])@),
    ensures
        searchable(d, engine),
{
    let m = model_of(d);
    let (s, ranges, node_ranges) = choose|
        s: Seq<Entry>,
        ranges: Seq<(u16, usize, usize)>,
        node_ranges: Seq<(int, int)>,
    | #[trigger] index_from(m, vectors, labels, leaf_size, s, ranges, node_ranges);
    law_built_index_is_sound(m, vectors, labels, leaf_size);
    lemma_entries_for(vectors, labels, s);
    assert forall|j: int| 0 <= j < m.vectors.len() implies bounded(#[trigger] m.vectors[j]) by {
        assert(m.vectors[j] == vectors[m.ids[j] as int]@);
        assert(bounded(vectors[m.ids[j] as int]@));
    }
    assert forall|i: int| 0 <= i < m.nodes.len() implies bounded((#[trigger] m.nodes[i]).bbox_min)
        && bounded(m.nodes[i].bbox_max) by {
        let node = m.nodes[i];
        lemma_shape_start(m.nodes, node_ranges, s, leaf_size, i);
        reveal(sums_up);
        let start = node_ranges[i].0;
        let end = node_ranges[i].1;
        assert forall|x: int| 0 <= x < 16 implies low_end(x) <= #[trigger] node.bbox_min[x]
            <= high_end(x) by {
            assert(is_low(s, start, end, x, node.bbox_min[x]));
            let k = choose|k: int|
                start <= k < end && #[trigger] s[k].vector@[x] == node.bbox_min[x];
            assert(m.vectors[k] == s[k].vector@);
            assert(bounded(m.vectors[k]));
            assert(low_end(x) <= m.vectors[k][x] <= high_end(x));
        }
        assert forall|x: int| 0 <= x < 16 implies low_end(x) <= #[trigger] node.bbox_max[x]
            <= high_end(x) by {
            assert(is_high(s, start, end, x, node.bbox_max[x]));
            let k = choose|k: int|
                start <= k < end && #[trigger] s[k].vector@[x] == node.bbox_max[x];
            assert(m.vectors[k] == s[k].vector@);
            assert(bounded(m.vectors[k]));
            assert(low_end(x) <= m.vectors[k][x] <= high_end(x));
        }
    }
    assert forall|a: int|
        0 <= a < m.keys.len() && has_tree(m, #[trigger] m.keys[a] as int) implies key_in_tables(
        m.keys[a] as u16,
    ) by {
        let root = root_of(m, m.keys[a] as int);
        assert(root < m.nodes.len() && m.keys[a] < N_CELLS) by {
            reveal(roots_ok);
        }
        lemma_node_range(m.nodes, m.vectors.len() as int, root);
        let j = node_start(m.nodes, root);
        assert(in_node(m.nodes, root, j));
        lemma_root_cell(m, a, j);
        lemma_vector_cell(m.vectors[j]);
    }
}

/// Which vectors are on the scale: the two features of a last transaction are
/// from -10000 on, everything else from zero on, up to 10000, and the last two
/// components are zero.
pub proof fn law_scale(v: Seq<i16>)
    ensures
        bounded(v) <==> forall|d: int|
            0 <= d < 16 ==> (if d == 5 || d == 6 {
                -10000int
            } else {
                0
            }) <= #[trigger] v[d] <= (if d >= 14 {
                0int
            } else {
                10000
            }),
{
    if bounded(v) {
        assert forall|d: int| 0 <= d < 16 implies (if d == 5 || d == 6 {
            -10000int
        } else {
            0
        }) <= #[trigger] v[d] <= (if d >= 14 {
            0int
        } else {
            10000
        }) by {
            assert(low_end(d) <= v[d] <= high_end(d));
        }
    }
    if forall|d: int|
        0 <= d < 16 ==> (if d == 5 || d == 6 {
            -10000int
        } else {
            0
        }) <= #[trigger] v[d] <= (if d >= 14 {
            0int
        } else {
            10000
        }) {
        assert forall|d: int| 0 <= d < 16 implies low_end(d) <= #[trigger] v[d]
            <= high_end(d) by {}
    }
}

/// Which indexes the cells of can be searched: those that are all there, whose
/// cells lie within the vectors and apart from each other, and whose vectors
/// are on the scale.
pub proof fn law_searchable_cells(d: Seq<u8>)
    ensures
        ({
            let m = model_of(d);
            searchable(d, SearchEngine::Cell) <==> {
                &&& cell_sections(d)
                &&& forall|key: int|
                    0 <= key < 8192 ==> #[trigger] m.cells[key].offset + m.cells[key].count
                        <= m.vectors.len()
                &&& forall|a: int, b: int, j: int|
                    0 <= a < b < 8192 ==> !(#[trigger] in_cell(m, a, j) && #[trigger] in_cell(
                        m,
                        b,
                        j,
                    ))
                &&& forall|j: int| 0 <= j < m.vectors.len() ==> bounded(#[trigger] m.vectors[j])
            }
        }),
{
    reveal(cells_ok);
}

/// Which indexes can be read through: those with all sections, or without
/// those of the trees where the header tells of none.
pub proof fn law_warmable(d: Seq<u8>)
    ensures
        ({
            let n = d[8] + 256 * d[9] + 65536 * d[10] + 16777216 * d[11];
            let n_nodes = d[32] + 256 * d[33] + 65536 * d[34] + 16777216 * d[35];
            let n_keys = d[36] + 256 * d[37] + 65536 * d[38] + 16777216 * d[39];
            warmable(d) <==> d.len() >= 65600 + 37 * n && (n_nodes + n_keys == 0 || d.len()
                >= 131136 + 37 * n + 4 * n_keys + 88 * n_nodes)
        }),
{
}

/// Which indexes the trees of can be searched: those that are all there and
/// well-formed, with vectors and boxes on the scale, and with trees of cells
/// whose hour and weekday are such alone.
pub proof fn law_searchable_trees(d: Seq<u8>)
    ensures
        ({
            let m = model_of(d);
            searchable(d, SearchEngine::Tree) <==> {
                &&& all_sections(d)
                &&& index_ok(m)
                &&& forall|j: int| 0 <= j < m.vectors.len() ==> bounded(#[trigger] m.vectors[j])
                &&& forall|i: int|
                    0 <= i < m.nodes.len() ==> bounded((#[trigger] m.nodes[i]).bbox_min)
                        && bounded(m.nodes[i].bbox_max)
                &&& forall|a: int|
                    0 <= a < m.keys.len() && m.roots[#[trigger] m.keys[a] as int].root
                        != 0xFFFF_FFFF ==> (m.keys[a] as u16 / 8) % 32 < 24 && m.keys[a] as u16 % 8
                        < 7
            }
        }),
{
}

/// The checks tell what is stated of an index and of a vector.
pub proof fn law_checks(
    data: &[u8],
    engine: SearchEngine,
    searched: bool,
    warmed: bool,
    v: Vec16I,
    on_scale: bool,
)
    requires
        call_ensures(is_searchable, (data, engine), searched),
        call_ensures(is_warmable, (data,), warmed),
        call_ensures(is_bounded, (&v,), on_scale),
    ensures
        searched <==> searchable(data@, engine),
        warmed <==> warmable(data@),
        on_scale <==> bounded(v@),
{
}

} // verus!
