//! Building an index from labelled references.
use crate::cell::{cell_key_from_i16, lemma_vector_cell, normalized, vector_cell};
use crate::index_format::{
    all_sections, index_parts, le_u32, lemma_model_of_written, model_of, write_index, CellEntry,
    IndexModel, NodeModel, TreeNode, TreeRootEntry, EMPTY_NODE, N_CELLS, VERSION,
};
use crate::tree::{
    all_normalized, boxes_sound, cells_ok, complete_cells, complete_index, has_tree, in_box,
    in_cell, in_node, index_ok, node_start, root_of, roots_ok,
};
use crate::tree_builder::{
    all_shapes, build_tree, cell_order, distinct_ids, divides, is_high, is_low, is_split,
    is_split_dim, lemma_reaches_stays, lemma_rearranged, lemma_rearranged_wider, lemma_same_entries,
    lemma_shape_start, lemma_shapes_append, lemma_shapes_are_trees, node_models, reaches,
    rearranged, shapes_ok, sort_by_cell, split_order, sums_up, Entry, SPLIT_DIMS,
};
use crate::types::Vec16I;
use vstd::prelude::*;

verus! {

/// The entry of reference `k`.
pub open spec fn entry_for(vectors: Seq<Vec16I>, labels: Seq<u8>, k: int) -> Entry {
    Entry {
        vector: vectors[k],
        label: labels[k],
        cell: vector_cell(vectors[k]@) as u16,
        original_id: k as u32,
    }
}

/// The entries of all references, in their order.
pub open spec fn entries_for(vectors: Seq<Vec16I>, labels: Seq<u8>) -> Seq<Entry> {
    Seq::new(vectors.len(), |k: int| entry_for(vectors, labels, k))
}

fn make_entries(vectors: &[Vec16I], labels: &[u8]) -> (entries: Vec<Entry>)
    requires
        vectors@.len() == labels@.len(),
        vectors@.len() <= u32::MAX,
    ensures
        entries@ == entries_for(vectors@, labels@),
        distinct_ids(entries@),
        forall|k: int| 0 <= k < entries@.len() ==> (#[trigger] entries@[k]).cell < N_CELLS,
{
    let mut entries: Vec<Entry> = Vec::new();
    let mut k: usize = 0;
    while k < vectors.len()
        invariant
            k <= vectors@.len() == labels@.len(),
            vectors@.len() <= u32::MAX,
            entries@.len() == k,
            forall|a: int|
                0 <= a < k ==> #[trigger] entries@[a] == entry_for(vectors@, labels@, a),
            forall|a: int| 0 <= a < k ==> (#[trigger] entries@[a]).cell < N_CELLS,
        decreases vectors.len() - k,
    {
        let vector = vectors[k];
        let cell: u16 = cell_key_from_i16(&vector);
        entries.push(Entry { vector, label: labels[k], cell, original_id: k as u32 });
        k = k + 1;
    }
    assert(entries@ =~= entries_for(vectors@, labels@));
    entries
}

/// Position `k` lies in the range.
pub open spec fn in_range(range: (u16, usize, usize), k: int) -> bool {
    range.1 <= k < range.2
}

/// The ranges of the cells before position `end`: each is of one cell, they
/// come in ascending order and cover everything.
#[verifier::opaque]
pub open spec fn ranges_ok(
    s: Seq<Entry>,
    ranges: Seq<(u16, usize, usize)>,
    end: int,
) -> bool {
    &&& forall|a: int|
        0 <= a < ranges.len() ==> {
            &&& (#[trigger] ranges[a]).0 < N_CELLS
            &&& ranges[a].1 < ranges[a].2 <= end
        }
    &&& forall|a: int, b: int|
        0 <= a < b < ranges.len() ==> (#[trigger] ranges[a]).0 < (#[trigger] ranges[b]).0
            && ranges[a].2 <= ranges[b].1
    &&& forall|a: int, k: int|
        0 <= a < ranges.len() && #[trigger] in_range(ranges[a], k) ==> s[k].cell == ranges[a].0
    &&& forall|k: int| 0 <= k < end ==> #[trigger] ranged(ranges, k)
}

/// Position `k` lies in one of the ranges.
pub open spec fn ranged(ranges: Seq<(u16, usize, usize)>, k: int) -> bool {
    exists|a: int| 0 <= a < ranges.len() && in_range(#[trigger] ranges[a], k)
}

/// The directory entry of a range.
pub open spec fn dir_entry(range: (u16, usize, usize)) -> CellEntry {
    CellEntry { offset: range.1 as u32, count: (range.2 - range.1) as u32 }
}

pub open spec fn lists_cell(ranges: Seq<(u16, usize, usize)>, cell: int) -> bool {
    exists|a: int| 0 <= a < ranges.len() && (#[trigger] ranges[a]).0 == cell
}

/// The directory has the ranges, and is empty elsewhere.
#[verifier::opaque]
pub open spec fn dir_ok(dir: Seq<CellEntry>, ranges: Seq<(u16, usize, usize)>) -> bool {
    &&& dir.len() == N_CELLS
    &&& forall|a: int|
        0 <= a < ranges.len() ==> dir[(#[trigger] ranges[a]).0 as int] == dir_entry(ranges[a])
    &&& forall|cell: int|
        0 <= cell < N_CELLS && !lists_cell(ranges, cell) ==> #[trigger] dir[cell]
            == (CellEntry { offset: 0, count: 0 })
}

proof fn lemma_ranges_push(
    s: Seq<Entry>,
    ranges: Seq<(u16, usize, usize)>,
    range: (u16, usize, usize),
)
    requires
        ranges_ok(s, ranges, range.1 as int),
        range.0 < N_CELLS,
        range.1 < range.2 <= s.len(),
        forall|k: int| in_range(range, k) ==> (#[trigger] s[k]).cell == range.0,
        ranges.len() > 0 ==> ranges.last().0 < range.0,
    ensures
        ranges_ok(s, ranges.push(range), range.2 as int),
{
    reveal(ranges_ok);
    let grown = ranges.push(range);
    assert forall|a: int, b: int| 0 <= a < b < grown.len() implies (#[trigger] grown[a]).0 < (
    #[trigger] grown[b]).0 && grown[a].2 <= grown[b].1 by {
        if b == ranges.len() && a < ranges.len() - 1 {
            assert(ranges[a].0 < ranges[ranges.len() - 1].0);
        }
    }
    assert forall|a: int, k: int|
        0 <= a < grown.len() && #[trigger] in_range(grown[a], k) implies s[k].cell
        == grown[a].0 by {
        if a < ranges.len() {
            assert(in_range(ranges[a], k));
        }
    }
    assert forall|k: int| 0 <= k < range.2 implies #[trigger] ranged(grown, k) by {
        if k < range.1 {
            assert(ranged(ranges, k));
            let a = choose|a: int| 0 <= a < ranges.len() && in_range(#[trigger] ranges[a], k);
            assert(in_range(grown[a], k));
        } else {
            assert(in_range(grown[ranges.len() as int], k));
        }
    }
}

proof fn lemma_dir_push(
    dir: Seq<CellEntry>,
    s: Seq<Entry>,
    ranges: Seq<(u16, usize, usize)>,
    range: (u16, usize, usize),
)
    requires
        dir_ok(dir, ranges),
        ranges_ok(s, ranges.push(range), range.2 as int),
    ensures
        dir_ok(dir.update(range.0 as int, dir_entry(range)), ranges.push(range)),
{
    reveal(dir_ok);
    reveal(ranges_ok);
    let grown = ranges.push(range);
    let last = ranges.len() as int;
    let new = dir.update(range.0 as int, dir_entry(range));
    assert forall|a: int| 0 <= a < grown.len() implies new[(#[trigger] grown[a]).0 as int]
        == dir_entry(grown[a]) by {
        if a < last {
            assert(grown[a].0 < grown[last].0);
            assert(grown[a] == ranges[a]);
        }
    }
    assert forall|cell: int| 0 <= cell < N_CELLS && !lists_cell(grown, cell) implies #[trigger] new[
        cell] == (CellEntry { offset: 0, count: 0 }) by {
        assert(grown[last].0 != cell);
        if lists_cell(ranges, cell) {
            let a = choose|a: int| 0 <= a < ranges.len() && (#[trigger] ranges[a]).0 == cell;
            assert(grown[a].0 == cell);
        }
    }
}

/// The range of each cell, and the directory of the cells.
fn cell_ranges(entries: &Vec<Entry>) -> (found: ([CellEntry; 8192], Vec<(u16, usize, usize)>))
    requires
        entries@.len() <= u32::MAX,
        forall|k: int| 0 <= k < entries@.len() ==> (#[trigger] entries@[k]).cell < N_CELLS,
        forall|i: int, j: int|
            0 <= i < j < entries@.len() ==> cell_order(
                #[trigger] entries@[i],
                #[trigger] entries@[j],
            ),
    ensures
        ranges_ok(entries@, found.1@, entries@.len() as int),
        dir_ok(found.0@, found.1@),
{
    let ghost s = entries@;
    let n: usize = entries.len();
    let mut dir = [CellEntry { offset: 0, count: 0 }; 8192];
    let mut ranges: Vec<(u16, usize, usize)> = Vec::new();
    let mut pos: usize = 0;
    proof {
        reveal(ranges_ok);
        reveal(dir_ok);
    }
    while pos < n
        invariant
            pos <= n,
            n == s.len(),
            s == entries@,
            n <= u32::MAX,
            forall|k: int| 0 <= k < s.len() ==> (#[trigger] s[k]).cell < N_CELLS,
            forall|i: int, j: int|
                0 <= i < j < s.len() ==> cell_order(#[trigger] s[i], #[trigger] s[j]),
            ranges_ok(s, ranges@, pos as int),
            dir_ok(dir@, ranges@),
            ranges@.len() > 0 && pos < n ==> ranges@.last().0 < s[pos as int].cell,
        decreases n - pos,
    {
        let cell: u16 = entries[pos].cell;
        let start: usize = pos;
        while pos < n && entries[pos].cell == cell
            invariant
                start <= pos <= n,
                n == s.len(),
                s == entries@,
                start < n,
                cell == s[start as int].cell,
                forall|k: int| start <= k < pos ==> (#[trigger] s[k]).cell == cell,
            decreases n - pos,
        {
            pos = pos + 1;
        }
        let ghost range = (cell, start, pos);
        let ghost before = ranges@;
        let ghost old_dir = dir@;
        assert(s[start as int].cell < N_CELLS);
        assert(start < pos);
        dir[cell as usize] = CellEntry { offset: start as u32, count: (pos - start) as u32 };
        ranges.push((cell, start, pos));
        proof {
            lemma_ranges_push(s, before, range);
            lemma_dir_push(old_dir, s, before, range);
            if pos < n {
                assert(cell_order(s[start as int], s[pos as int]));
            }
        }
    }
    (dir, ranges)
}

/// Rearranging the entries of one cell keeps the ranges.
proof fn lemma_ranges_rearranged(
    s: Seq<Entry>,
    t: Seq<Entry>,
    ranges: Seq<(u16, usize, usize)>,
    b: int,
)
    requires
        ranges_ok(s, ranges, s.len() as int),
        distinct_ids(s),
        0 <= b < ranges.len(),
        rearranged(s, t, ranges[b].1 as int, ranges[b].2 as int),
    ensures
        ranges_ok(t, ranges, t.len() as int),
        t.to_multiset() == s.to_multiset(),
        distinct_ids(t),
{
    reveal(ranges_ok);
    lemma_rearranged_wider(
        s,
        t,
        ranges[b].1 as int,
        ranges[b].2 as int,
        ranges[b].1 as int,
        ranges[b].2 as int,
    );
    lemma_same_entries(s, t);
    assert forall|a: int, k: int|
        0 <= a < ranges.len() && #[trigger] in_range(ranges[a], k) implies t[k].cell
        == ranges[a].0 by {
        if in_range(ranges[b], k) {
            let at = lemma_rearranged(s, t, ranges[b].1 as int, ranges[b].2 as int, k);
            assert(in_range(ranges[b], at));
            if a < b {
                assert(ranges[a].2 <= ranges[b].1);
            } else if b < a {
                assert(ranges[b].2 <= ranges[a].1);
            }
        } else {
            assert(t[k] == s[k]);
        }
    }
}

/// The first `k` ranges have their trees: the roots are entered in the
/// directory, whose other entries are empty, and their keys are listed.
#[verifier::opaque]
pub open spec fn planted(
    ranges: Seq<(u16, usize, usize)>,
    k: int,
    roots: Seq<TreeRootEntry>,
    keys: Seq<u32>,
    node_ranges: Seq<(int, int)>,
) -> bool {
    &&& roots.len() == N_CELLS
    &&& keys.len() == k
    &&& forall|a: int|
        0 <= a < k ==> {
            let range = #[trigger] ranges[a];
            let root = roots[range.0 as int];
            &&& keys[a] == range.0
            &&& root.count == range.2 - range.1
            &&& root.root < node_ranges.len()
            &&& node_ranges[root.root as int] == (range.1 as int, range.2 as int)
        }
    &&& forall|cell: int|
        0 <= cell < N_CELLS && !lists_cell(ranges.take(k), cell) ==> #[trigger] roots[cell] == (
        TreeRootEntry { root: EMPTY_NODE, count: 0 })
}

/// Node `i` belongs to the tree of a listed key.
pub open spec fn is_rooted(
    nodes: Seq<NodeModel>,
    roots: Seq<TreeRootEntry>,
    keys: Seq<u32>,
    i: int,
) -> bool {
    exists|a: int|
        0 <= a < keys.len() && #[trigger] keys[a] < roots.len() && reaches(
            nodes,
            roots[keys[a] as int].root as int,
            i,
        )
}

/// Every node belongs to the tree of a listed key.
#[verifier::opaque]
pub open spec fn all_rooted(
    nodes: Seq<NodeModel>,
    roots: Seq<TreeRootEntry>,
    keys: Seq<u32>,
) -> bool {
    forall|i: int| 0 <= i < nodes.len() ==> #[trigger] is_rooted(nodes, roots, keys, i)
}

/// The nodes of one more tree.
proof fn lemma_all_rooted_push(
    nodes: Seq<NodeModel>,
    more: Seq<NodeModel>,
    roots: Seq<TreeRootEntry>,
    keys: Seq<u32>,
    cell: u16,
    root: TreeRootEntry,
)
    requires
        all_rooted(nodes, roots, keys),
        nodes.len() <= more.len(),
        forall|k: int| 0 <= k < nodes.len() ==> more[k] == nodes[k],
        cell < roots.len(),
        forall|a: int| 0 <= a < keys.len() ==> #[trigger] keys[a] != cell as u32,
        forall|i: int|
            nodes.len() <= i < more.len() ==> #[trigger] reaches(more, root.root as int, i),
    ensures
        all_rooted(more, roots.update(cell as int, root), keys.push(cell as u32)),
{
    reveal(all_rooted);
    let grown = keys.push(cell as u32);
    let entered = roots.update(cell as int, root);
    assert forall|i: int| 0 <= i < more.len() implies #[trigger] is_rooted(
        more,
        entered,
        grown,
        i,
    ) by {
        if i < nodes.len() {
            assert(is_rooted(nodes, roots, keys, i));
            let a = choose|a: int|
                0 <= a < keys.len() && #[trigger] keys[a] < roots.len() && reaches(
                    nodes,
                    roots[keys[a] as int].root as int,
                    i,
                );
            assert(grown[a] == keys[a]);
            lemma_reaches_stays(nodes, more, roots[keys[a] as int].root as int, i);
        } else {
            assert(reaches(more, root.root as int, i));
            assert(grown[keys.len() as int] == cell as u32);
        }
    }
}

/// One more tree.
proof fn lemma_planted_push(
    s: Seq<Entry>,
    ranges: Seq<(u16, usize, usize)>,
    k: int,
    roots: Seq<TreeRootEntry>,
    keys: Seq<u32>,
    node_ranges: Seq<(int, int)>,
    more_ranges: Seq<(int, int)>,
    root: TreeRootEntry,
)
    requires
        ranges_ok(s, ranges, s.len() as int),
        planted(ranges, k, roots, keys, node_ranges),
        0 <= k < ranges.len(),
        node_ranges.len() <= more_ranges.len(),
        forall|i: int| 0 <= i < node_ranges.len() ==> more_ranges[i] == node_ranges[i],
        root.count == ranges[k].2 - ranges[k].1,
        root.root < more_ranges.len(),
        more_ranges[root.root as int] == (ranges[k].1 as int, ranges[k].2 as int),
    ensures
        planted(
            ranges,
            k + 1,
            roots.update(ranges[k].0 as int, root),
            keys.push(ranges[k].0 as u32),
            more_ranges,
        ),
{
    reveal(ranges_ok);
    reveal(planted);
    let new = roots.update(ranges[k].0 as int, root);
    let grown = keys.push(ranges[k].0 as u32);
    assert(ranges[k].0 < N_CELLS);
    assert forall|a: int| 0 <= a < k + 1 implies {
        let range = #[trigger] ranges[a];
        let r = new[range.0 as int];
        &&& grown[a] == range.0
        &&& r.count == range.2 - range.1
        &&& r.root < more_ranges.len()
        &&& more_ranges[r.root as int] == (range.1 as int, range.2 as int)
    } by {
        if a < k {
            assert(ranges[a].0 < ranges[k].0);
            assert(roots[ranges[a].0 as int].root < node_ranges.len());
        }
    }
    assert forall|cell: int|
        0 <= cell < N_CELLS && !lists_cell(ranges.take(k + 1), cell) implies #[trigger] new[cell]
        == (TreeRootEntry { root: EMPTY_NODE, count: 0 }) by {
        assert(ranges.take(k + 1)[k].0 != cell);
        if lists_cell(ranges.take(k), cell) {
            let a = choose|a: int|
                0 <= a < k && (#[trigger] ranges.take(k)[a]).0 == cell;
            assert(ranges.take(k + 1)[a].0 == cell);
        }
    }
}

/// Where the ranges before `k` end.
spec fn done_before(ranges: Seq<(u16, usize, usize)>, k: int) -> int {
    if k <= 0 {
        0
    } else {
        ranges[k - 1].2 as int
    }
}

/// Builds the tree of each range; the entries of a range are rearranged among
/// themselves.
fn build_trees(
    entries: &mut Vec<Entry>,
    ranges: &Vec<(u16, usize, usize)>,
    leaf_size: usize,
) -> (trees: ([TreeRootEntry; 8192], Vec<u32>, Vec<TreeNode>, Ghost<Seq<(int, int)>>))
    requires
        old(entries)@.len() <= 0x7FFF_FFFF,
        leaf_size >= 1,
        distinct_ids(old(entries)@),
        ranges_ok(old(entries)@, ranges@, old(entries)@.len() as int),
    ensures
        final(entries)@.to_multiset() == old(entries)@.to_multiset(),
        final(entries)@.len() == old(entries)@.len(),
        distinct_ids(final(entries)@),
        ranges_ok(final(entries)@, ranges@, final(entries)@.len() as int),
        planted(ranges@, ranges@.len() as int, trees.0@, trees.1@, trees.3@),
        all_shapes(node_models(trees.2@), trees.3@, final(entries)@, leaf_size as int),
        trees.2@.len() <= 2 * final(entries)@.len(),
        all_rooted(node_models(trees.2@), trees.0@, trees.1@),
{
    let ghost s0 = entries@;
    let mut roots = [TreeRootEntry { root: EMPTY_NODE, count: 0 }; 8192];
    let mut keys: Vec<u32> = Vec::new();
    let mut nodes: Vec<TreeNode> = Vec::new();
    let ghost mut node_ranges: Seq<(int, int)> = seq![];
    let mut k: usize = 0;
    proof {
        reveal(planted);
        reveal(shapes_ok);
        reveal(all_rooted);
        assert(ranges@.take(0) =~= Seq::<(u16, usize, usize)>::empty());
    }
    while k < ranges.len()
        invariant
            k <= ranges@.len(),
            leaf_size >= 1,
            s0.len() <= 0x7FFF_FFFF,
            entries@.len() == s0.len(),
            entries@.to_multiset() == s0.to_multiset(),
            distinct_ids(entries@),
            ranges_ok(entries@, ranges@, entries@.len() as int),
            planted(ranges@, k as int, roots@, keys@, node_ranges),
            node_ranges.len() == nodes@.len(),
            nodes@.len() <= 2 * done_before(ranges@, k as int),
            0 <= done_before(ranges@, k as int) <= s0.len(),
            shapes_ok(
                node_models(nodes@),
                node_ranges,
                entries@,
                leaf_size as int,
                0,
                0,
                done_before(ranges@, k as int),
            ),
            all_rooted(node_models(nodes@), roots@, keys@),
        decreases ranges.len() - k,
    {
        let ghost s = entries@;
        let ghost before = node_models(nodes@);
        let ghost range = ranges@[k as int];
        let ghost done = done_before(ranges@, k as int);
        proof {
            reveal(ranges_ok);
            assert(range.0 < N_CELLS);
            if k > 0 {
                assert(ranges@[k - 1].2 <= ranges@[k as int].1);
            }
        }
        let (cell, start, end) = ranges[k];
        let (root, Ghost(more)) = build_tree(
            entries,
            start,
            end,
            &mut nodes,
            leaf_size,
            Ghost(node_ranges),
        );
        let root_entry = TreeRootEntry { root, count: (end - start) as u32 };
        let ghost old_roots = roots@;
        let ghost old_keys = keys@;
        roots[cell as usize] = root_entry;
        keys.push(cell as u32);
        proof {
            assert forall|a: int| 0 <= a < k implies #[trigger] old_keys[a] != cell as u32 by {
                reveal(planted);
                assert(old_keys[a] == ranges@[a].0);
                lemma_ranges_apart(s, ranges@, a, k as int);
            }
            assert(old_keys.len() == k) by {
                reveal(planted);
            }
            lemma_all_rooted_push(
                before,
                node_models(nodes@),
                old_roots,
                old_keys,
                cell,
                root_entry,
            );
            lemma_ranges_rearranged(s, entries@, ranges@, k as int);
            lemma_planted_push(
                s,
                ranges@,
                k as int,
                old_roots,
                old_keys,
                node_ranges,
                more,
                root_entry,
            );
            lemma_shapes_append(
                before,
                node_ranges,
                s,
                node_models(nodes@),
                more,
                entries@,
                leaf_size as int,
                done,
                start as int,
                end as int,
            );
            node_ranges = more;
        }
        k = k + 1;
    }
    proof {
        reveal(shapes_ok);
        assert(all_shapes(node_models(nodes@), node_ranges, entries@, leaf_size as int));
    }
    (roots, keys, nodes, Ghost(node_ranges))
}

/// The index holds the entries `s`, in their order.
pub open spec fn arranges(m: IndexModel, s: Seq<Entry>) -> bool {
    &&& m.vectors.len() == s.len()
    &&& m.labels.len() == s.len()
    &&& m.ids.len() == s.len()
    &&& forall|j: int| 0 <= j < s.len() ==> #[trigger] m.vectors[j] == s[j].vector@
    &&& forall|j: int| 0 <= j < s.len() ==> #[trigger] m.labels[j] == s[j].label
    &&& forall|j: int| 0 <= j < s.len() ==> #[trigger] m.ids[j] == s[j].original_id
}

/// The index is made of the references: it holds their entries `s`, those of
/// a cell next to each other in the given ranges, and a tree for each cell,
/// whose nodes stand for `node_ranges`.
pub open spec fn index_from(
    m: IndexModel,
    vectors: Seq<Vec16I>,
    labels: Seq<u8>,
    leaf_size: int,
    s: Seq<Entry>,
    ranges: Seq<(u16, usize, usize)>,
    node_ranges: Seq<(int, int)>,
) -> bool {
    &&& arranges(m, s)
    &&& s.to_multiset() == entries_for(vectors, labels).to_multiset()
    &&& ranges_ok(s, ranges, s.len() as int)
    &&& dir_ok(m.cells, ranges)
    &&& planted(ranges, ranges.len() as int, m.roots, m.keys, node_ranges)
    &&& all_shapes(m.nodes, node_ranges, s, leaf_size)
    &&& all_rooted(m.nodes, m.roots, m.keys)
    &&& m.nodes.len() <= 2 * s.len()
}

pub open spec fn is_index_of(
    m: IndexModel,
    vectors: Seq<Vec16I>,
    labels: Seq<u8>,
    leaf_size: int,
) -> bool {
    exists|
        s: Seq<Entry>,
        ranges: Seq<(u16, usize, usize)>,
        node_ranges: Seq<(int, int)>,
    | #[trigger] index_from(m, vectors, labels, leaf_size, s, ranges, node_ranges)
}

/// Every vector of the index is a reference, with its label and its place
/// among the references as identifier.
pub open spec fn holds_references(m: IndexModel, vectors: Seq<Vec16I>, labels: Seq<u8>) -> bool {
    &&& m.vectors.len() == vectors.len()
    &&& forall|j: int|
        0 <= j < m.vectors.len() ==> {
            &&& (#[trigger] m.ids[j]) < vectors.len()
            &&& m.vectors[j] == vectors[m.ids[j] as int]@
            &&& m.labels[j] == labels[m.ids[j] as int]
        }
}

pub(crate) proof fn lemma_entries_for(vectors: Seq<Vec16I>, labels: Seq<u8>, s: Seq<Entry>)
    requires
        vectors.len() <= u32::MAX,
        s.to_multiset() == entries_for(vectors, labels).to_multiset(),
    ensures
        s.len() == vectors.len(),
        distinct_ids(s),
        forall|j: int|
            0 <= j < s.len() ==> {
                &&& (#[trigger] s[j]).original_id < vectors.len()
                &&& s[j] == entry_for(vectors, labels, s[j].original_id as int)
            },
{
    let all = entries_for(vectors, labels);
    assert(distinct_ids(all));
    lemma_same_entries(all, s);
    assert forall|j: int| 0 <= j < s.len() implies {
        &&& (#[trigger] s[j]).original_id < vectors.len()
        &&& s[j] == entry_for(vectors, labels, s[j].original_id as int)
    } by {
        assert(s.contains(s[j]));
        let k = choose|k: int| 0 <= k < all.len() && all[k] == s[j];
        assert(all[k] == entry_for(vectors, labels, k));
    }
}

/// Cells in ascending order: there are not more than cells.
proof fn lemma_ranges_len(s: Seq<Entry>, ranges: Seq<(u16, usize, usize)>, a: int)
    requires
        ranges_ok(s, ranges, s.len() as int),
        0 <= a < ranges.len(),
    ensures
        a <= ranges[a].0 < N_CELLS,
    decreases a,
{
    reveal(ranges_ok);
    if a > 0 {
        lemma_ranges_len(s, ranges, a - 1);
        assert(ranges[a - 1].0 < ranges[a].0);
    }
}

proof fn lemma_cells_ok(m: IndexModel, s: Seq<Entry>, ranges: Seq<(u16, usize, usize)>)
    requires
        arranges(m, s),
        s.len() <= u32::MAX,
        ranges_ok(s, ranges, s.len() as int),
        dir_ok(m.cells, ranges),
    ensures
        cells_ok(m),
        forall|j: int|
            0 <= j < s.len() ==> (#[trigger] s[j]).cell < N_CELLS && in_cell(
                m,
                s[j].cell as int,
                j,
            ),
{
    reveal(ranges_ok);
    reveal(dir_ok);
    reveal(cells_ok);
    assert forall|key: int| 0 <= key < N_CELLS implies #[trigger] m.cells[key].offset
        + m.cells[key].count <= m.vectors.len() by {
        if lists_cell(ranges, key) {
            let a = choose|a: int| 0 <= a < ranges.len() && (#[trigger] ranges[a]).0 == key;
            assert(m.cells[ranges[a].0 as int] == dir_entry(ranges[a]));
        }
    }
    assert forall|a: int, b: int, j: int|
        0 <= a < N_CELLS && 0 <= b < N_CELLS && a != b implies !(#[trigger] in_cell(m, a, j)
        && #[trigger] in_cell(m, b, j)) by {
        if in_cell(m, a, j) && in_cell(m, b, j) {
            let x = choose|x: int| 0 <= x < ranges.len() && (#[trigger] ranges[x]).0 == a;
            let y = choose|y: int| 0 <= y < ranges.len() && (#[trigger] ranges[y]).0 == b;
            assert(lists_cell(ranges, a) && lists_cell(ranges, b));
            assert(m.cells[ranges[x].0 as int] == dir_entry(ranges[x]));
            assert(m.cells[ranges[y].0 as int] == dir_entry(ranges[y]));
            if x < y {
                assert(ranges[x].2 <= ranges[y].1);
            } else {
                assert(ranges[y].2 <= ranges[x].1);
            }
        }
    }
    assert forall|j: int| 0 <= j < s.len() implies (#[trigger] s[j]).cell < N_CELLS && in_cell(
        m,
        s[j].cell as int,
        j,
    ) by {
        assert(ranged(ranges, j));
        let a = choose|a: int| 0 <= a < ranges.len() && in_range(#[trigger] ranges[a], j);
        assert(m.cells[ranges[a].0 as int] == dir_entry(ranges[a]));
    }
}

proof fn lemma_roots_ok(
    m: IndexModel,
    s: Seq<Entry>,
    ranges: Seq<(u16, usize, usize)>,
    node_ranges: Seq<(int, int)>,
    leaf_size: int,
)
    requires
        arranges(m, s),
        leaf_size >= 1,
        ranges_ok(s, ranges, s.len() as int),
        planted(ranges, ranges.len() as int, m.roots, m.keys, node_ranges),
        all_shapes(m.nodes, node_ranges, s, leaf_size),
        m.nodes.len() <= u32::MAX,
    ensures
        roots_ok(m),
        forall|j: int|
            0 <= j < s.len() ==> m.keys.contains((#[trigger] s[j]).cell as u32) && has_tree(
                m,
                s[j].cell as int,
            ) && in_node(m.nodes, root_of(m, s[j].cell as int), j),
{
    reveal(roots_ok);
    reveal(planted);
    let k = ranges.len() as int;
    assert(ranges.take(k) =~= ranges);
    assert(node_ranges.len() == m.nodes.len()) by {
        reveal(shapes_ok);
    }
    if k > 0 {
        lemma_ranges_len(s, ranges, k - 1);
    }
    assert forall|a: int| 0 <= a < k implies {
        let root = root_of(m, m.keys[a] as int);
        &&& #[trigger] m.keys[a] == ranges[a].0
        &&& m.keys[a] < N_CELLS
        &&& root < m.nodes.len()
        &&& forall|j: int|
            #![trigger in_node(m.nodes, root, j)]
            in_node(m.nodes, root, j) <==> ranges[a].1 <= j < ranges[a].2
    } by {
        let range = ranges[a];
        assert(m.keys[a] == range.0);
        lemma_ranges_len(s, ranges, a);
        lemma_shape_start(m.nodes, node_ranges, s, leaf_size, root_of(m, m.keys[a] as int));
    }
    assert forall|key: int|
        0 <= key < N_CELLS && #[trigger] has_tree(m, key) implies root_of(m, key)
        < m.nodes.len() && m.keys.contains(key as u32) by {
        if lists_cell(ranges.take(k), key) {
            let a = choose|a: int|
                0 <= a < ranges.take(k).len() && (#[trigger] ranges.take(k)[a]).0 == key;
            assert(m.keys[a] == ranges[a].0);
        }
    }
    assert forall|a: int, b: int|
        0 <= a < m.keys.len() && 0 <= b < m.keys.len() && a != b implies #[trigger] m.keys[a]
        != #[trigger] m.keys[b] by {
        lemma_ranges_apart(s, ranges, a, b);
    }
    assert forall|a: int, b: int, j: int|
        0 <= a < m.keys.len() && 0 <= b < m.keys.len() && a != b implies !(#[trigger] in_node(
        m.nodes,
        root_of(m, m.keys[a] as int),
        j,
    ) && #[trigger] in_node(m.nodes, root_of(m, m.keys[b] as int), j)) by {
        assert(m.keys[a] == ranges[a].0 && m.keys[b] == ranges[b].0);
        lemma_ranges_apart(s, ranges, a, b);
    }
    assert forall|j: int| 0 <= j < s.len() implies m.keys.contains((#[trigger] s[j]).cell as u32)
        && has_tree(m, s[j].cell as int) && in_node(m.nodes, root_of(m, s[j].cell as int), j) by {
        let a = lemma_range_of(s, ranges, j);
        assert(m.keys[a] == ranges[a].0);
    }
}

proof fn lemma_ranges_apart(s: Seq<Entry>, ranges: Seq<(u16, usize, usize)>, a: int, b: int)
    requires
        ranges_ok(s, ranges, s.len() as int),
        0 <= a < ranges.len(),
        0 <= b < ranges.len(),
        a != b,
    ensures
        ranges[a].0 != ranges[b].0,
        ranges[a].2 <= ranges[b].1 || ranges[b].2 <= ranges[a].1,
{
    reveal(ranges_ok);
}

proof fn lemma_range_of(s: Seq<Entry>, ranges: Seq<(u16, usize, usize)>, j: int) -> (a: int)
    requires
        ranges_ok(s, ranges, s.len() as int),
        0 <= j < s.len(),
    ensures
        0 <= a < ranges.len(),
        ranges[a].1 <= j < ranges[a].2,
        s[j].cell == ranges[a].0,
{
    reveal(ranges_ok);
    assert(ranged(ranges, j));
    let a = choose|a: int| 0 <= a < ranges.len() && in_range(#[trigger] ranges[a], j);
    a
}

proof fn lemma_boxes_sound(
    m: IndexModel,
    s: Seq<Entry>,
    node_ranges: Seq<(int, int)>,
    leaf_size: int,
)
    requires
        arranges(m, s),
        leaf_size >= 1,
        all_shapes(m.nodes, node_ranges, s, leaf_size),
    ensures
        boxes_sound(m),
{
    reveal(boxes_sound);
    assert forall|i: int, j: int|
        0 <= i < m.nodes.len() && #[trigger] in_node(m.nodes, i, j) implies in_box(
        m.nodes[i],
        m.vectors[j],
    ) && m.ids[j] >= m.nodes[i].min_original_id by {
        lemma_shape_start(m.nodes, node_ranges, s, leaf_size, i);
        reveal(sums_up);
        let node = m.nodes[i];
        let start = node_ranges[i].0;
        let end = node_ranges[i].1;
        assert(m.vectors[j] == s[j].vector@);
        assert(m.ids[j] == s[j].original_id);
        assert forall|d: int| 0 <= d < 16 implies node.bbox_min[d] <= #[trigger] m.vectors[j][d]
            <= node.bbox_max[d] by {
            assert(is_low(s, start, end, d, node.bbox_min[d]));
            assert(is_high(s, start, end, d, node.bbox_max[d]));
            assert(s[j].vector@[d] == m.vectors[j][d]);
        }
    }
}

/// An index that is made of references is well-formed, sound and complete, and
/// it holds the references.
pub proof fn law_built_index_is_sound(
    m: IndexModel,
    vectors: Seq<Vec16I>,
    labels: Seq<u8>,
    leaf_size: int,
)
    requires
        vectors.len() <= 0x7FFF_FFFF,
        leaf_size >= 1,
        is_index_of(m, vectors, labels, leaf_size),
    ensures
        index_ok(m),
        boxes_sound(m),
        complete_index(m),
        complete_cells(m),
        holds_references(m, vectors, labels),
        (forall|k: int| 0 <= k < vectors.len() ==> normalized((#[trigger] vectors[k])@))
            ==> all_normalized(m),
{
    let (s, ranges, node_ranges) = choose|
        s: Seq<Entry>,
        ranges: Seq<(u16, usize, usize)>,
        node_ranges: Seq<(int, int)>,
    | #[trigger] index_from(m, vectors, labels, leaf_size, s, ranges, node_ranges);
    lemma_entries_for(vectors, labels, s);
    lemma_shapes_are_trees(m.nodes, node_ranges, s, leaf_size);
    lemma_cells_ok(m, s, ranges);
    lemma_roots_ok(m, s, ranges, node_ranges, leaf_size);
    lemma_boxes_sound(m, s, node_ranges, leaf_size);
    assert forall|j: int| 0 <= j < m.vectors.len() implies {
        &&& #[trigger] m.vectors[j].len() == 16
        &&& vector_cell(m.vectors[j]) == s[j].cell
        &&& m.ids[j] < vectors.len()
        &&& m.vectors[j] == vectors[m.ids[j] as int]@
        &&& m.labels[j] == labels[m.ids[j] as int]
    } by {
        assert(m.ids[j] == s[j].original_id);
        assert(m.labels[j] == s[j].label);
        assert(s[j] == entry_for(vectors, labels, s[j].original_id as int));
        lemma_vector_cell(m.vectors[j]);
    }
    assert forall|j: int, k: int|
        0 <= j < m.vectors.len() && 0 <= k < m.vectors.len() && j != k implies #[trigger] m.ids[j]
        != #[trigger] m.ids[k] by {
        assert(s[j].original_id != s[k].original_id);
    }
    assert forall|j: int| 0 <= j < m.vectors.len() implies {
        &&& (#[trigger] m.ids[j]) < vectors.len()
        &&& m.vectors[j] == vectors[m.ids[j] as int]@
        &&& m.labels[j] == labels[m.ids[j] as int]
    } by {
        assert(m.vectors[j].len() == 16);
    }
    assert forall|j: int| 0 <= j < m.vectors.len() implies m.keys.contains(
        vector_cell(#[trigger] m.vectors[j]) as u32,
    ) && has_tree(m, vector_cell(m.vectors[j])) && in_node(
        m.nodes,
        root_of(m, vector_cell(m.vectors[j])),
        j,
    ) by {
        assert(s[j].cell == vector_cell(m.vectors[j]));
    }
    assert forall|j: int| 0 <= j < m.vectors.len() implies in_cell(
        m,
        vector_cell(#[trigger] m.vectors[j]),
        j,
    ) by {
        assert(s[j].cell == vector_cell(m.vectors[j]));
    }
}

/// The largest index that is let pass.
pub const MAX_INDEX_BYTES: u64 = 141_557_760;

/// Whether an index of so many bytes is let pass.
pub fn within_budget(size: u64) -> (within: bool)
    ensures
        within == (size <= MAX_INDEX_BYTES),
        within <==> size <= 135 * 1024 * 1024,
{
    size <= MAX_INDEX_BYTES
}

/// The index of the references. Their identifiers are their places.
pub fn build_index(vectors: &[Vec16I], labels: &[u8], leaf_size: usize) -> (out: Vec<u8>)
    requires
        vectors@.len() == labels@.len(),
        vectors@.len() <= 0x7FFF_FFFF,
        1 <= leaf_size <= 512,
    ensures
        all_sections(out@),
        is_index_of(model_of(out@), vectors@, labels@, leaf_size as int),
        le_u32(out@, 4) == VERSION,
        le_u32(out@, 12) == model_of(out@).keys.len(),
        le_u32(out@, 40) == leaf_size,
        le_u32(out@, 0) == 0x524E4833,
        le_u32(out@, 4) == 4,
        le_u32(out@, 8) == vectors@.len(),
        le_u32(out@, 16) == 14,
        le_u32(out@, 20) == 16,
        le_u32(out@, 24) == 13,
        le_u32(out@, 28) == 10000,
        le_u32(out@, 44) == 8192,
        out@.len() == 131136 + 37 * vectors@.len() + 4 * model_of(out@).keys.len() + 88 * model_of(
            out@,
        ).nodes.len(),
{
    let mut entries = make_entries(vectors, labels);
    let ghost s0 = entries@;
    sort_by_cell(&mut entries);
    let ghost s1 = entries@;
    proof {
        assert(s0.subrange(0, s0.len() as int) =~= s0 && s1.subrange(0, s1.len() as int) =~= s1);
        lemma_same_entries(s0, s1);
        assert forall|k: int| 0 <= k < s1.len() implies (#[trigger] s1[k]).cell < N_CELLS by {
            let at = lemma_rearranged(s0, s1, 0, s0.len() as int, k);
        }
    }
    let (cell_dir, ranges) = cell_ranges(&entries);
    let (tree_roots, keys, nodes, Ghost(node_ranges)) = build_trees(
        &mut entries,
        &ranges,
        leaf_size,
    );
    let ghost s = entries@;
    let n: usize = entries.len();
    let mut sorted_vectors: Vec<Vec16I> = Vec::new();
    let mut sorted_labels: Vec<u8> = Vec::new();
    let mut original_ids: Vec<u32> = Vec::new();
    let mut k: usize = 0;
    while k < n
        invariant
            k <= n,
            n == s.len(),
            s == entries@,
            sorted_vectors@.len() == k,
            sorted_labels@.len() == k,
            original_ids@.len() == k,
            forall|j: int| 0 <= j < k ==> #[trigger] sorted_vectors@[j] == s[j].vector,
            forall|j: int| 0 <= j < k ==> #[trigger] sorted_labels@[j] == s[j].label,
            forall|j: int| 0 <= j < k ==> #[trigger] original_ids@[j] == s[j].original_id,
        decreases n - k,
    {
        let entry = entries[k];
        sorted_vectors.push(entry.vector);
        sorted_labels.push(entry.label);
        original_ids.push(entry.original_id);
        k = k + 1;
    }
    proof {
        lemma_entries_for(vectors@, labels@, s);
        if ranges@.len() > 0 {
            lemma_ranges_len(s, ranges@, ranges@.len() - 1);
        }
        assert(keys@.len() == ranges@.len()) by {
            reveal(planted);
        }
    }
    let out = write_index(
        sorted_vectors.as_slice(),
        sorted_labels.as_slice(),
        original_ids.as_slice(),
        &cell_dir,
        &tree_roots,
        keys.as_slice(),
        nodes.as_slice(),
        ranges.len() as u32,
        leaf_size as u32,
    );
    proof {
        let parts = index_parts(
            sorted_vectors@,
            sorted_labels@,
            original_ids@,
            cell_dir@,
            tree_roots@,
            keys@,
            nodes@,
        );
        lemma_model_of_written(out@, parts, ranges@.len() as u32, leaf_size as u32);
        assert(arranges(parts, s));
        assert(index_from(
            parts,
            vectors@,
            labels@,
            leaf_size as int,
            s,
            ranges@,
            node_ranges,
        ));
    }
    out
}

/// What the directories of an index of references hold: each reference once,
/// with its label and its place among the references; under each key exactly
/// the vectors of that cell, and a tree of as many vectors where there are
/// any; and the keys of these trees in ascending order.
pub proof fn law_directories(
    m: IndexModel,
    vectors: Seq<Vec16I>,
    labels: Seq<u8>,
    leaf_size: int,
    k: int,
)
    requires
        vectors.len() <= 0x7FFF_FFFF,
        leaf_size >= 1,
        is_index_of(m, vectors, labels, leaf_size),
    ensures
        m.vectors.len() == vectors.len(),
        0 <= k < vectors.len() ==> exists|j: int|
            0 <= j < m.vectors.len() && #[trigger] m.ids[j] == k && m.vectors[j] == vectors[k]@
                && m.labels[j] == labels[k],
        forall|j: int, k: int|
            0 <= j < k < m.vectors.len() ==> #[trigger] m.ids[j] != #[trigger] m.ids[k],
        forall|key: int, j: int|
            0 <= key < 8192 && 0 <= j < m.vectors.len() ==> (#[trigger] m.cells[key].offset <= j
                < m.cells[key].offset + m.cells[key].count <==> vector_cell(
                #[trigger] m.vectors[j],
            ) == key),
        forall|key: int|
            0 <= key < 8192 ==> #[trigger] m.roots[key].count == m.cells[key].count && (
            m.roots[key].root == 0xFFFF_FFFF <==> m.cells[key].count == 0) && (m.keys.contains(
                key as u32,
            ) <==> m.cells[key].count > 0),
        forall|a: int, b: int|
            0 <= a < b < m.keys.len() ==> #[trigger] m.keys[a] < #[trigger] m.keys[b],
{
    let (s, ranges, node_ranges) = choose|
        s: Seq<Entry>,
        ranges: Seq<(u16, usize, usize)>,
        node_ranges: Seq<(int, int)>,
    | #[trigger] index_from(m, vectors, labels, leaf_size, s, ranges, node_ranges);
    law_built_index_is_sound(m, vectors, labels, leaf_size);
    lemma_entries_for(vectors, labels, s);
    lemma_cells_ok(m, s, ranges);
    let all = entries_for(vectors, labels);
    assert(distinct_ids(all));
    lemma_same_entries(all, s);
    if 0 <= k < vectors.len() {
        let e = all[k];
        assert(all.contains(e));
        assert(s.contains(e));
        let j = choose|j: int| 0 <= j < s.len() && s[j] == e;
        assert(m.ids[j] == s[j].original_id);
        assert(m.vectors[j] == s[j].vector@ && m.labels[j] == s[j].label);
    }
    assert forall|key: int, j: int| 0 <= key < 8192 && 0 <= j < m.vectors.len() implies (
    #[trigger] m.cells[key].offset <= j < m.cells[key].offset + m.cells[key].count <==> vector_cell(
        #[trigger] m.vectors[j],
    ) == key) by {
        reveal(cells_ok);
        lemma_vector_cell(m.vectors[j]);
        assert(in_cell(m, vector_cell(m.vectors[j]), j));
        if in_cell(m, key, j) && key != vector_cell(m.vectors[j]) {
            assert(false);
        }
    }
    reveal(ranges_ok);
    reveal(dir_ok);
    reveal(planted);
    assert forall|key: int| 0 <= key < 8192 implies #[trigger] m.roots[key].count
        == m.cells[key].count && (m.roots[key].root == 0xFFFF_FFFF <==> m.cells[key].count == 0)
        && (m.keys.contains(key as u32) <==> m.cells[key].count > 0) by {
        assert(ranges.take(ranges.len() as int) =~= ranges);
        if lists_cell(ranges, key) {
            let a = choose|a: int| 0 <= a < ranges.len() && (#[trigger] ranges[a]).0 == key;
            assert(m.cells[ranges[a].0 as int] == dir_entry(ranges[a]));
            assert(m.keys[a] == key as u32);
            assert(node_ranges.len() == m.nodes.len()) by {
                reveal(shapes_ok);
            }
        } else {
            assert(m.cells[key] == (CellEntry { offset: 0, count: 0 }));
            if m.keys.contains(key as u32) {
                let a = choose|a: int| 0 <= a < m.keys.len() && m.keys[a] == key as u32;
                assert(m.keys[a] == ranges[a].0);
            }
        }
    }
    assert forall|a: int, b: int| 0 <= a < b < m.keys.len() implies #[trigger] m.keys[a]
        < #[trigger] m.keys[b] by {
        assert(m.keys[a] == ranges[a].0 && m.keys[b] == ranges[b].0);
    }
}

/// What the nodes of an index of references sum up: a node stands for vectors
/// next to each other; its box is the least one around them in every dimension,
/// and its identifier the least of theirs.
pub proof fn law_nodes_sum_up(
    m: IndexModel,
    vectors: Seq<Vec16I>,
    labels: Seq<u8>,
    leaf_size: int,
    i: int,
    d: int,
)
    requires
        vectors.len() <= 0x7FFF_FFFF,
        leaf_size >= 1,
        is_index_of(m, vectors, labels, leaf_size),
        0 <= i < m.nodes.len(),
        0 <= d < 16,
    ensures
        0 <= node_start(m.nodes, i),
        1 <= m.nodes[i].count,
        node_start(m.nodes, i) + m.nodes[i].count <= m.vectors.len(),
        forall|j: int|
            node_start(m.nodes, i) <= j < node_start(m.nodes, i) + m.nodes[i].count
                ==> m.nodes[i].bbox_min[d] <= (#[trigger] m.vectors[j])[d]
                <= m.nodes[i].bbox_max[d],
        exists|j: int|
            node_start(m.nodes, i) <= j < node_start(m.nodes, i) + m.nodes[i].count && (
            #[trigger] m.vectors[j])[d] == m.nodes[i].bbox_min[d],
        exists|j: int|
            node_start(m.nodes, i) <= j < node_start(m.nodes, i) + m.nodes[i].count && (
            #[trigger] m.vectors[j])[d] == m.nodes[i].bbox_max[d],
        forall|j: int|
            node_start(m.nodes, i) <= j < node_start(m.nodes, i) + m.nodes[i].count
                ==> m.nodes[i].min_original_id <= #[trigger] m.ids[j],
        exists|j: int|
            node_start(m.nodes, i) <= j < node_start(m.nodes, i) + m.nodes[i].count
                && m.nodes[i].min_original_id == #[trigger] m.ids[j],
{
    let (s, ranges, node_ranges) = choose|
        s: Seq<Entry>,
        ranges: Seq<(u16, usize, usize)>,
        node_ranges: Seq<(int, int)>,
    | #[trigger] index_from(m, vectors, labels, leaf_size, s, ranges, node_ranges);
    lemma_shape_start(m.nodes, node_ranges, s, leaf_size, i);
    reveal(sums_up);
    let node = m.nodes[i];
    let lo = node_start(m.nodes, i);
    let hi = lo + node.count;
    assert(is_low(s, lo, hi, d, node.bbox_min[d]));
    assert(is_high(s, lo, hi, d, node.bbox_max[d]));
    assert forall|j: int| lo <= j < hi implies node.bbox_min[d] <= (#[trigger] m.vectors[j])[d]
        <= node.bbox_max[d] by {
        assert(m.vectors[j] == s[j].vector@);
        assert(s[j].vector@[d] == m.vectors[j][d]);
    }
    let low = choose|j: int| lo <= j < hi && #[trigger] s[j].vector@[d] == node.bbox_min[d];
    assert(m.vectors[low] == s[low].vector@);
    let high = choose|j: int| lo <= j < hi && #[trigger] s[j].vector@[d] == node.bbox_max[d];
    assert(m.vectors[high] == s[high].vector@);
    assert forall|j: int| lo <= j < hi implies node.min_original_id <= #[trigger] m.ids[j] by {
        assert(m.ids[j] == s[j].original_id);
    }
    let first = choose|j: int| lo <= j < hi && #[trigger] s[j].original_id == node.min_original_id;
    assert(m.ids[first] == s[first].original_id);
}

/// How the vectors of an index of references are divided: up to so many as a
/// leaf may have are a leaf. More are halved, so that in the dimension by which
/// they are divided no vector of the left half is behind one of the right half.
pub proof fn law_nodes_are_halved(
    m: IndexModel,
    vectors: Seq<Vec16I>,
    labels: Seq<u8>,
    leaf_size: int,
    i: int,
)
    requires
        vectors.len() <= 0x7FFF_FFFF,
        leaf_size >= 1,
        is_index_of(m, vectors, labels, leaf_size),
        0 <= i < m.nodes.len(),
    ensures
        m.nodes[i].count <= leaf_size ==> m.nodes[i].flags == 1 && m.nodes[i].left == 0xFFFF_FFFF
            && m.nodes[i].right == 0xFFFF_FFFF && m.nodes[i].offset == node_start(m.nodes, i),
        m.nodes[i].count > leaf_size ==> {
            let (l, r) = (m.nodes[i].left as int, m.nodes[i].right as int);
            &&& m.nodes[i].flags == 0 && i < l < m.nodes.len() && i < r < m.nodes.len()
            &&& m.nodes[l].count == m.nodes[i].count as int / 2
            &&& m.nodes[l].count + m.nodes[r].count == m.nodes[i].count
            &&& node_start(m.nodes, l) == node_start(m.nodes, i)
            &&& node_start(m.nodes, r) == node_start(m.nodes, i) + m.nodes[l].count
        },
        m.nodes[i].count > leaf_size ==> exists|d: int|
            #[trigger] is_split_dim(m.nodes[i].bbox_min, m.nodes[i].bbox_max, d) && forall|
                a: int,
                b: int,
            |
                node_start(m.nodes, i) <= a < node_start(m.nodes, i) + m.nodes[i].count as int / 2
                    <= b < node_start(m.nodes, i) + m.nodes[i].count ==> (
                #[trigger] m.vectors[a])[d] <= (#[trigger] m.vectors[b])[d],
{
    let (s, ranges, node_ranges) = choose|
        s: Seq<Entry>,
        ranges: Seq<(u16, usize, usize)>,
        node_ranges: Seq<(int, int)>,
    | #[trigger] index_from(m, vectors, labels, leaf_size, s, ranges, node_ranges);
    lemma_shape_start(m.nodes, node_ranges, s, leaf_size, i);
    let node = m.nodes[i];
    let lo = node_start(m.nodes, i);
    let hi = lo + node.count;
    if node.count > leaf_size {
        let (l, r) = (node.left as int, node.right as int);
        lemma_shape_start(m.nodes, node_ranges, s, leaf_size, l);
        lemma_shape_start(m.nodes, node_ranges, s, leaf_size, r);
        reveal(divides);
        let mid = lo + (hi - lo) / 2;
        let d = choose|dim: int| #[trigger]
            is_split_dim(node.bbox_min, node.bbox_max, dim) && is_split(s, lo, mid, hi, dim);
        assert forall|a: int, b: int| lo <= a < mid <= b < hi implies (#[trigger] m.vectors[a])[d]
            <= (#[trigger] m.vectors[b])[d] by {
            assert(split_order(s[a], s[b], d));
            assert(m.vectors[a] == s[a].vector@ && m.vectors[b] == s[b].vector@);
        }
    }
}

/// The dimension by which vectors are divided is one of those that are neither
/// flags nor padding, and of these one in which the box extends farthest.
pub proof fn law_dividing_dimension(bbox_min: Seq<i16>, bbox_max: Seq<i16>, d: int, e: int)
    requires
        is_split_dim(bbox_min, bbox_max, d),
        0 <= e <= 8 || e == 12 || e == 13,
    ensures
        0 <= d <= 8 || d == 12 || d == 13,
        bbox_max[e] - bbox_min[e] <= bbox_max[d] - bbox_min[d],
        bbox_max[e] - bbox_min[e] == bbox_max[d] - bbox_min[d] ==> d <= e,
{
    let at: int = if e <= 8 {
        e
    } else {
        e - 3
    };
    assert(SPLIT_DIMS@[at] == e);
}

/// An index is let pass up to 135 MiB.
pub proof fn law_budget()
    ensures
        MAX_INDEX_BYTES == 135 * 1024 * 1024,
{
}

/// An index passes exactly up to 135 MiB.
pub proof fn law_within_budget(size: u64, within: bool)
    requires
        call_ensures(within_budget, (size,), within),
    ensures
        within <==> size <= 135 * 1024 * 1024,
{
}

/// What is built of references is their index, of the format that is read.
pub proof fn law_built(vectors: &[Vec16I], labels: &[u8], leaf_size: usize, out: Vec<u8>)
    requires
        vectors@.len() == labels@.len(),
        vectors@.len() <= 0x7FFF_FFFF,
        1 <= leaf_size <= 512,
        call_ensures(build_index, (vectors, labels, leaf_size), out),
    ensures
        all_sections(out@),
        is_index_of(model_of(out@), vectors@, labels@, leaf_size as int),
        model_of(out@).vectors.len() == vectors@.len(),
        le_u32(out@, 0) == 0x524E4833,
        le_u32(out@, 4) == 4,
        le_u32(out@, 8) == vectors@.len(),
        le_u32(out@, 40) == leaf_size,
{
}

} // verus!
