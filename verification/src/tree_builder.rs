//! Dividing references into trees.
use crate::index_format::{NodeModel, TreeNode, EMPTY_NODE};
use crate::tree::{heights_ok, in_node, node_height, node_ok, node_start, trees_ok, MAX_HEIGHT};
use crate::types::Vec16I;
use vstd::prelude::*;

verus! {

/// A reference on its way into the index.
#[derive(Clone, Copy)]
pub struct Entry {
    pub vector: Vec16I,
    pub label: u8,
    pub cell: u16,
    pub original_id: u32,
}

/// No two entries have the same identifier.
pub open spec fn distinct_ids(s: Seq<Entry>) -> bool {
    forall|i: int, j: int|
        0 <= i < s.len() && 0 <= j < s.len() && i != j ==> #[trigger] s[i].original_id
            != #[trigger] s[j].original_id
}

/// `new` has the entries of `old`, rearranged between `start` and `end`.
pub open spec fn rearranged(old: Seq<Entry>, new: Seq<Entry>, start: int, end: int) -> bool {
    &&& new.len() == old.len()
    &&& new.subrange(start, end).to_multiset() == old.subrange(start, end).to_multiset()
    &&& forall|k: int|
        0 <= k < old.len() && !(start <= k < end) ==> #[trigger] new[k] == old[k]
}

proof fn lemma_distinct_entries(s: Seq<Entry>)
    requires
        distinct_ids(s),
    ensures
        s.no_duplicates(),
{
    assert forall|i: int, j: int| 0 <= i < s.len() && 0 <= j < s.len() && i != j implies s[i]
        != s[j] by {
        assert(s[i].original_id != s[j].original_id);
    }
}

/// Where an entry was before it was moved.
pub(crate) proof fn lemma_rearranged(
    old: Seq<Entry>,
    new: Seq<Entry>,
    start: int,
    end: int,
    k: int,
) -> (at: int)
    requires
        rearranged(old, new, start, end),
        0 <= start <= k < end <= old.len(),
    ensures
        start <= at < end,
        old[at] == new[k],
{
    let before = old.subrange(start, end);
    let after = new.subrange(start, end);
    before.to_multiset_ensures();
    after.to_multiset_ensures();
    assert(after[k - start] == new[k]);
    assert(after.contains(new[k]));
    assert(before.to_multiset().count(new[k]) > 0);
    let at = choose|at: int| 0 <= at < before.len() && before[at] == new[k];
    start + at
}

/// What is rearranged within a part is rearranged within the whole.
pub(crate) proof fn lemma_rearranged_wider(
    old: Seq<Entry>,
    new: Seq<Entry>,
    from: int,
    to: int,
    start: int,
    end: int,
)
    requires
        rearranged(old, new, from, to),
        0 <= start <= from <= to <= end <= old.len(),
    ensures
        rearranged(old, new, start, end),
        rearranged(old, new, 0, old.len() as int),
        new.to_multiset() == old.to_multiset(),
{
    lemma_parts(old, start, from, to, end);
    lemma_parts(new, start, from, to, end);
    lemma_parts(old, 0, from, to, old.len() as int);
    lemma_parts(new, 0, from, to, old.len() as int);
    assert(new.subrange(start, from) =~= old.subrange(start, from));
    assert(new.subrange(to, end) =~= old.subrange(to, end));
    assert(new.subrange(0, from) =~= old.subrange(0, from));
    assert(new.subrange(to, old.len() as int) =~= old.subrange(to, old.len() as int));
    assert(new.subrange(0, old.len() as int) =~= new);
    assert(old.subrange(0, old.len() as int) =~= old);
}

proof fn lemma_parts(s: Seq<Entry>, start: int, from: int, to: int, end: int)
    requires
        0 <= start <= from <= to <= end <= s.len(),
    ensures
        s.subrange(start, end).to_multiset() == s.subrange(start, from).to_multiset().add(
            s.subrange(from, to).to_multiset(),
        ).add(s.subrange(to, end).to_multiset()),
{
    let a = s.subrange(start, from);
    let b = s.subrange(from, to);
    let c = s.subrange(to, end);
    assert(s.subrange(start, end) =~= a + b + c);
    vstd::seq_lib::lemma_multiset_commutative(a, b);
    vstd::seq_lib::lemma_multiset_commutative(a + b, c);
}

/// Rearranging keeps identifiers apart.
pub(crate) proof fn lemma_same_entries(old: Seq<Entry>, new: Seq<Entry>)
    requires
        new.to_multiset() == old.to_multiset(),
        distinct_ids(old),
    ensures
        distinct_ids(new),
        new.len() == old.len(),
        forall|x: Entry| old.contains(x) <==> new.contains(x),
{
    lemma_distinct_entries(old);
    old.to_multiset_ensures();
    new.to_multiset_ensures();
    old.lemma_multiset_has_no_duplicates();
    new.lemma_multiset_has_no_duplicates_conv();
    assert forall|x: Entry| old.contains(x) <==> new.contains(x) by {
        assert(old.contains(x) <==> old.to_multiset().count(x) > 0);
        assert(new.contains(x) <==> new.to_multiset().count(x) > 0);
    }
    assert forall|i: int, j: int|
        0 <= i < new.len() && 0 <= j < new.len() && i != j implies #[trigger] new[i].original_id
        != #[trigger] new[j].original_id by {
        assert(new.contains(new[i]) && new.contains(new[j]));
        let a = choose|a: int| 0 <= a < old.len() && old[a] == new[i];
        let b = choose|b: int| 0 <= b < old.len() && old[b] == new[j];
        assert(new[i] != new[j]);
        assert(a != b);
        assert(old[a].original_id != old[b].original_id);
    }
}

/// Rearranging in two steps.
pub(crate) proof fn lemma_rearranged_twice(
    a: Seq<Entry>,
    b: Seq<Entry>,
    c: Seq<Entry>,
    start: int,
    end: int,
)
    requires
        rearranged(a, b, start, end),
        rearranged(b, c, start, end),
    ensures
        rearranged(a, c, start, end),
{
}

/// `a` goes into an earlier cell than `b`, or into the same cell before it.
pub open spec fn cell_order(a: Entry, b: Entry) -> bool {
    a.cell < b.cell || (a.cell == b.cell && a.original_id <= b.original_id)
}

/// `a` does not lie behind `b` in the given dimension; ties go by identifier.
pub open spec fn split_order(a: Entry, b: Entry, dim: int) -> bool {
    a.vector@[dim] < b.vector@[dim] || (a.vector@[dim] == b.vector@[dim] && a.original_id
        <= b.original_id)
}

/// `slice::sort_by_key` with the pair of cell and identifier as key: it
/// rearranges the entries, in ascending order of their keys.
#[verifier::external_body]
pub(crate) fn sort_by_cell(entries: &mut Vec<Entry>)
    ensures
        rearranged(old(entries)@, final(entries)@, 0, old(entries)@.len() as int),
        forall|i: int, j: int|
            0 <= i < j < final(entries)@.len() ==> cell_order(
                #[trigger] final(entries)@[i],
                #[trigger] final(entries)@[j],
            ),
{
    entries.sort_by_key(|e| (e.cell, e.original_id));
}

/// `slice::select_nth_unstable_by_key` on the entries from `start` to `end`,
/// with the pair of one component and the identifier as key: it rearranges
/// them so that no key before position `nth` of them is larger, and none
/// behind it smaller, than the key at that position.
#[verifier::external_body]
fn select_nth(entries: &mut Vec<Entry>, start: usize, end: usize, nth: usize, dim: usize)
    requires
        start + nth < end <= old(entries)@.len(),
        dim < 16,
    ensures
        rearranged(old(entries)@, final(entries)@, start as int, end as int),
        forall|k: int|
            start <= k < start + nth ==> split_order(
                #[trigger] final(entries)@[k],
                final(entries)@[start + nth],
                dim as int,
            ),
        forall|k: int|
            start + nth <= k < end ==> split_order(
                final(entries)@[start + nth],
                #[trigger] final(entries)@[k],
                dim as int,
            ),
{
    entries[start..end].select_nth_unstable_by_key(nth, |e| (e.vector[dim], e.original_id));
}

/// The dimensions by which entries are divided.
pub const SPLIT_DIMS: [usize; 11] = [0, 1, 2, 3, 4, 5, 6, 7, 8, 12, 13];

/// How far the box extends in a dimension.
pub open spec fn extent(bbox_min: Seq<i16>, bbox_max: Seq<i16>, dim: int) -> int {
    bbox_max[dim] - bbox_min[dim]
}

/// The dimension in which the box extends farthest, the first among equals.
pub open spec fn is_split_dim(bbox_min: Seq<i16>, bbox_max: Seq<i16>, dim: int) -> bool {
    &&& exists|a: int| 0 <= a < 11 && #[trigger] SPLIT_DIMS@[a] == dim
    &&& forall|a: int|
        0 <= a < 11 ==> {
            let other = #[trigger] SPLIT_DIMS@[a] as int;
            &&& extent(bbox_min, bbox_max, other) <= extent(bbox_min, bbox_max, dim)
            &&& extent(bbox_min, bbox_max, other) == extent(bbox_min, bbox_max, dim) ==> dim
                <= other
        }
}

fn choose_split_dim(bbox_min: &Vec16I, bbox_max: &Vec16I) -> (dim: usize)
    ensures
        is_split_dim(bbox_min@, bbox_max@, dim as int),
        dim < 16,
{
    let mut best_dim: usize = SPLIT_DIMS[0];
    let mut best_range: i32 = bbox_max[0] as i32 - bbox_min[0] as i32;
    let mut a: usize = 1;
    assert(SPLIT_DIMS@[0] == 0);
    while a < 11
        invariant
            1 <= a <= 11,
            best_dim < 16,
            best_range == extent(bbox_min@, bbox_max@, best_dim as int),
            exists|b: int| 0 <= b < 11 && #[trigger] SPLIT_DIMS@[b] == best_dim,
            forall|b: int|
                0 <= b < a ==> {
                    let other = #[trigger] SPLIT_DIMS@[b] as int;
                    &&& extent(bbox_min@, bbox_max@, other) <= best_range
                    &&& extent(bbox_min@, bbox_max@, other) == best_range ==> best_dim <= other
                },
        decreases 11 - a,
    {
        let dim: usize = SPLIT_DIMS[a];
        assert(dim < 16);
        let range: i32 = bbox_max[dim] as i32 - bbox_min[dim] as i32;
        if range > best_range || (range == best_range && dim < best_dim) {
            best_dim = dim;
            best_range = range;
        }
        a = a + 1;
    }
    best_dim
}

/// `x` is the least value that the entries from `start` to `end` have in
/// dimension `d`.
pub open spec fn is_low(s: Seq<Entry>, start: int, end: int, d: int, x: i16) -> bool {
    &&& forall|k: int| start <= k < end ==> x <= #[trigger] s[k].vector@[d]
    &&& exists|k: int| start <= k < end && #[trigger] s[k].vector@[d] == x
}

/// `x` is the greatest value that the entries from `start` to `end` have in
/// dimension `d`.
pub open spec fn is_high(s: Seq<Entry>, start: int, end: int, d: int, x: i16) -> bool {
    &&& forall|k: int| start <= k < end ==> #[trigger] s[k].vector@[d] <= x
    &&& exists|k: int| start <= k < end && #[trigger] s[k].vector@[d] == x
}

/// The least box around the entries from `start` to `end`.
pub open spec fn is_box_of(
    s: Seq<Entry>,
    start: int,
    end: int,
    bbox_min: Seq<i16>,
    bbox_max: Seq<i16>,
) -> bool {
    &&& bbox_min.len() == 16
    &&& bbox_max.len() == 16
    &&& forall|d: int| 0 <= d < 16 ==> is_low(s, start, end, d, #[trigger] bbox_min[d])
    &&& forall|d: int| 0 <= d < 16 ==> is_high(s, start, end, d, #[trigger] bbox_max[d])
}

/// The least identifier of the entries from `start` to `end`.
pub open spec fn is_min_id_of(s: Seq<Entry>, start: int, end: int, id: u32) -> bool {
    &&& forall|k: int| start <= k < end ==> id <= #[trigger] s[k].original_id
    &&& exists|k: int| start <= k < end && #[trigger] s[k].original_id == id
}

/// One more entry.
proof fn lemma_low_step(s: Seq<Entry>, start: int, end: int, d: int, x: i16)
    requires
        start < end,
        is_low(s, start, end, d, x),
    ensures
        is_low(
            s,
            start,
            end + 1,
            d,
            (if s[end].vector@[d] < x {
                s[end].vector@[d]
            } else {
                x
            }),
        ),
{
    let k = choose|k: int| start <= k < end && #[trigger] s[k].vector@[d] == x;
    assert(s[k].vector@[d] == x);
    assert(s[end].vector@[d] == s[end].vector@[d]);
}

proof fn lemma_high_step(s: Seq<Entry>, start: int, end: int, d: int, x: i16)
    requires
        start < end,
        is_high(s, start, end, d, x),
    ensures
        is_high(
            s,
            start,
            end + 1,
            d,
            (if s[end].vector@[d] > x {
                s[end].vector@[d]
            } else {
                x
            }),
        ),
{
    let k = choose|k: int| start <= k < end && #[trigger] s[k].vector@[d] == x;
    assert(s[k].vector@[d] == x);
    assert(s[end].vector@[d] == s[end].vector@[d]);
}

/// The box around the entries from `start` to `end` and their least
/// identifier.
fn summarize(entries: &Vec<Entry>, start: usize, end: usize) -> (summary: (Vec16I, Vec16I, u32))
    requires
        start < end <= entries@.len(),
    ensures
        is_box_of(entries@, start as int, end as int, summary.0@, summary.1@),
        is_min_id_of(entries@, start as int, end as int, summary.2),
{
    let ghost s = entries@;
    let first = entries[start];
    let mut bbox_min: Vec16I = first.vector;
    let mut bbox_max: Vec16I = first.vector;
    let mut min_original_id: u32 = first.original_id;
    let mut k: usize = start + 1;
    proof {
        assert forall|d: int| 0 <= d < 16 implies is_low(
            s,
            start as int,
            k as int,
            d,
            #[trigger] bbox_min@[d],
        ) by {
            assert(s[start as int].vector@[d] == bbox_min@[d]);
        }
        assert forall|d: int| 0 <= d < 16 implies is_high(
            s,
            start as int,
            k as int,
            d,
            #[trigger] bbox_max@[d],
        ) by {
            assert(s[start as int].vector@[d] == bbox_max@[d]);
        }
        assert(s[start as int].original_id == min_original_id);
    }
    while k < end
        invariant
            start < k <= end <= entries@.len(),
            s == entries@,
            is_box_of(s, start as int, k as int, bbox_min@, bbox_max@),
            is_min_id_of(s, start as int, k as int, min_original_id),
        decreases end - k,
    {
        let entry = entries[k];
        let ghost old_min = bbox_min@;
        let ghost old_max = bbox_max@;
        if entry.original_id < min_original_id {
            min_original_id = entry.original_id;
        }
        assert(is_min_id_of(s, start as int, k + 1, min_original_id)) by {
            assert(s[k as int].original_id == entry.original_id);
        }
        let mut dim: usize = 0;
        while dim < 16
            invariant
                dim <= 16,
                start < k < entries@.len(),
                s == entries@,
                entry == s[k as int],
                is_box_of(s, start as int, k as int, old_min, old_max),
                forall|d: int|
                    0 <= d < dim ==> is_low(s, start as int, k + 1, d, #[trigger] bbox_min@[d]),
                forall|d: int|
                    0 <= d < dim ==> is_high(s, start as int, k + 1, d, #[trigger] bbox_max@[d]),
                forall|d: int| dim <= d < 16 ==> #[trigger] bbox_min@[d] == old_min[d],
                forall|d: int| dim <= d < 16 ==> #[trigger] bbox_max@[d] == old_max[d],
            decreases 16 - dim,
        {
            proof {
                assert(bbox_min@[dim as int] == old_min[dim as int]);
                assert(bbox_max@[dim as int] == old_max[dim as int]);
                lemma_low_step(s, start as int, k as int, dim as int, old_min[dim as int]);
                lemma_high_step(s, start as int, k as int, dim as int, old_max[dim as int]);
            }
            if entry.vector[dim] < bbox_min[dim] {
                bbox_min[dim] = entry.vector[dim];
            }
            if entry.vector[dim] > bbox_max[dim] {
                bbox_max[dim] = entry.vector[dim];
            }
            dim = dim + 1;
        }
        k = k + 1;
    }
    (bbox_min, bbox_max, min_original_id)
}

proof fn lemma_low_rearranged(
    s: Seq<Entry>,
    t: Seq<Entry>,
    start: int,
    end: int,
    d: int,
    x: i16,
)
    requires
        rearranged(s, t, start, end),
        0 <= start <= end <= s.len(),
    ensures
        is_low(s, start, end, d, x) ==> is_low(t, start, end, d, x),
        is_high(s, start, end, d, x) ==> is_high(t, start, end, d, x),
{
    assert(rearranged(t, s, start, end));
    if is_low(s, start, end, d, x) {
        assert forall|k: int| start <= k < end implies x <= #[trigger] t[k].vector@[d] by {
            let at = lemma_rearranged(s, t, start, end, k);
            assert(x <= s[at].vector@[d]);
        }
        let k = choose|k: int| start <= k < end && #[trigger] s[k].vector@[d] == x;
        let at = lemma_rearranged(t, s, start, end, k);
        assert(t[at].vector@[d] == x);
    }
    if is_high(s, start, end, d, x) {
        assert forall|k: int| start <= k < end implies #[trigger] t[k].vector@[d] <= x by {
            let at = lemma_rearranged(s, t, start, end, k);
            assert(s[at].vector@[d] <= x);
        }
        let k = choose|k: int| start <= k < end && #[trigger] s[k].vector@[d] == x;
        let at = lemma_rearranged(t, s, start, end, k);
        assert(t[at].vector@[d] == x);
    }
}

/// Rearranging does not change the box or the least identifier.
proof fn lemma_summary_rearranged(
    s: Seq<Entry>,
    t: Seq<Entry>,
    start: int,
    end: int,
    bbox_min: Seq<i16>,
    bbox_max: Seq<i16>,
    id: u32,
)
    requires
        rearranged(s, t, start, end),
        0 <= start <= end <= s.len(),
        is_box_of(s, start, end, bbox_min, bbox_max),
        is_min_id_of(s, start, end, id),
    ensures
        is_box_of(t, start, end, bbox_min, bbox_max),
        is_min_id_of(t, start, end, id),
{
    assert forall|d: int| 0 <= d < 16 implies is_low(
        t,
        start,
        end,
        d,
        #[trigger] bbox_min[d],
    ) by {
        lemma_low_rearranged(s, t, start, end, d, bbox_min[d]);
    }
    assert forall|d: int| 0 <= d < 16 implies is_high(
        t,
        start,
        end,
        d,
        #[trigger] bbox_max[d],
    ) by {
        lemma_low_rearranged(s, t, start, end, d, bbox_max[d]);
    }
    assert(rearranged(t, s, start, end));
    assert forall|k: int| start <= k < end implies id <= #[trigger] t[k].original_id by {
        let at = lemma_rearranged(s, t, start, end, k);
        assert(id <= s[at].original_id);
    }
    let k = choose|k: int| start <= k < end && #[trigger] s[k].original_id == id;
    let at = lemma_rearranged(t, s, start, end, k);
    assert(t[at].original_id == id);
}

/// No entry of the first part lies behind one of the second part.
pub open spec fn is_split(s: Seq<Entry>, start: int, mid: int, end: int, dim: int) -> bool {
    forall|a: int, b: int|
        start <= a < mid && mid <= b < end ==> split_order(
            #[trigger] s[a],
            #[trigger] s[b],
            dim,
        )
}

/// Rearranging each part keeps the parts apart.
proof fn lemma_split_rearranged(
    s: Seq<Entry>,
    t: Seq<Entry>,
    u: Seq<Entry>,
    start: int,
    mid: int,
    end: int,
    dim: int,
)
    requires
        0 <= start <= mid <= end <= s.len(),
        rearranged(s, t, start, mid),
        rearranged(t, u, mid, end),
        is_split(s, start, mid, end, dim),
    ensures
        is_split(u, start, mid, end, dim),
{
    assert forall|a: int, b: int| start <= a < mid && mid <= b < end implies split_order(
        #[trigger] u[a],
        #[trigger] u[b],
        dim,
    ) by {
        assert(u[a] == t[a]);
        let at = lemma_rearranged(s, t, start, mid, a);
        let bt = lemma_rearranged(t, u, mid, end, b);
        assert(t[bt] == s[bt]);
        assert(split_order(s[at], s[bt], dim));
    }
}

/// The box of the node is the least one around its entries, and its identifier
/// is the least of theirs.
#[verifier::opaque]
pub open spec fn sums_up(s: Seq<Entry>, start: int, end: int, node: NodeModel) -> bool {
    &&& is_box_of(s, start, end, node.bbox_min, node.bbox_max)
    &&& is_min_id_of(s, start, end, node.min_original_id)
}

/// The entries are divided by the dimension in which the node extends farthest.
#[verifier::opaque]
pub open spec fn divides(s: Seq<Entry>, start: int, mid: int, end: int, node: NodeModel) -> bool {
    exists|dim: int| #[trigger]
        is_split_dim(node.bbox_min, node.bbox_max, dim) && is_split(s, start, mid, end, dim)
}

/// Node `i` is what its range of entries calls for. A range of up to
/// `leaf_size` entries is a leaf; a larger one is divided at its middle, by the
/// dimension in which it extends farthest.
pub open spec fn shape_ok(
    nodes: Seq<NodeModel>,
    ranges: Seq<(int, int)>,
    s: Seq<Entry>,
    leaf_size: int,
    i: int,
) -> bool {
    let node = nodes[i];
    let start = ranges[i].0;
    let end = ranges[i].1;
    let mid = start + (end - start) / 2;
    &&& 0 <= start < end <= s.len()
    &&& node.count == end - start
    &&& sums_up(s, start, end, node)
    &&& if end - start <= leaf_size {
        &&& node.flags == 1
        &&& node.left == EMPTY_NODE
        &&& node.right == EMPTY_NODE
        &&& node.offset == start
    } else {
        &&& node.flags == 0
        &&& node.offset == 0
        &&& i < node.left < nodes.len()
        &&& i < node.right < nodes.len()
        &&& ranges[node.left as int] == (start, mid)
        &&& ranges[node.right as int] == (mid, end)
        &&& divides(s, start, mid, end, node)
    }
}

pub open spec fn node_models(nodes: Seq<TreeNode>) -> Seq<NodeModel> {
    nodes.map_values(|n: TreeNode| n@)
}

/// The nodes from `from` on have their shapes, and their ranges lie between
/// `start` and `end`.
#[verifier::opaque]
pub open spec fn shapes_ok(
    nodes: Seq<NodeModel>,
    ranges: Seq<(int, int)>,
    s: Seq<Entry>,
    leaf_size: int,
    from: int,
    start: int,
    end: int,
) -> bool {
    &&& ranges.len() == nodes.len()
    &&& forall|i: int|
        from <= i < nodes.len() ==> {
            &&& #[trigger] shape_ok(nodes, ranges, s, leaf_size, i)
            &&& start <= ranges[i].0
            &&& ranges[i].1 <= end
        }
}

/// Shapes stay as entries elsewhere move and nodes are appended.
proof fn lemma_shape_stays(
    nodes: Seq<NodeModel>,
    more: Seq<NodeModel>,
    ranges: Seq<(int, int)>,
    more_ranges: Seq<(int, int)>,
    s: Seq<Entry>,
    t: Seq<Entry>,
    leaf_size: int,
    i: int,
)
    requires
        shape_ok(nodes, ranges, s, leaf_size, i),
        0 <= i < nodes.len() <= more.len(),
        ranges.len() == nodes.len(),
        more_ranges.len() == more.len(),
        forall|k: int| i <= k < nodes.len() ==> more[k] == nodes[k],
        forall|k: int| i <= k < nodes.len() ==> more_ranges[k] == ranges[k],
        t.len() == s.len(),
        forall|k: int| ranges[i].0 <= k < ranges[i].1 ==> t[k] == s[k],
    ensures
        shape_ok(more, more_ranges, t, leaf_size, i),
{
    let node = nodes[i];
    let start = ranges[i].0;
    let end = ranges[i].1;
    let mid = start + (end - start) / 2;
    reveal(sums_up);
    reveal(divides);
    assert(more[i] == node && more_ranges[i] == ranges[i]);
    assert forall|d: int| 0 <= d < 16 implies is_low(
        t,
        start,
        end,
        d,
        #[trigger] node.bbox_min[d],
    ) by {
        let x = node.bbox_min[d];
        assert(is_low(s, start, end, d, x));
        let k = choose|k: int| start <= k < end && #[trigger] s[k].vector@[d] == x;
        assert(t[k].vector@[d] == x);
        assert forall|k: int| start <= k < end implies x <= #[trigger] t[k].vector@[d] by {
            assert(x <= s[k].vector@[d]);
        }
    }
    assert forall|d: int| 0 <= d < 16 implies is_high(
        t,
        start,
        end,
        d,
        #[trigger] node.bbox_max[d],
    ) by {
        let x = node.bbox_max[d];
        assert(is_high(s, start, end, d, x));
        let k = choose|k: int| start <= k < end && #[trigger] s[k].vector@[d] == x;
        assert(t[k].vector@[d] == x);
        assert forall|k: int| start <= k < end implies #[trigger] t[k].vector@[d] <= x by {
            assert(s[k].vector@[d] <= x);
        }
    }
    let k = choose|k: int|
        start <= k < end && #[trigger] s[k].original_id == node.min_original_id;
    assert(t[k].original_id == node.min_original_id);
    assert forall|k: int| start <= k < end implies node.min_original_id
        <= #[trigger] t[k].original_id by {
        assert(node.min_original_id <= s[k].original_id);
    }
    if end - start > leaf_size {
        let dim = choose|dim: int| #[trigger]
            is_split_dim(node.bbox_min, node.bbox_max, dim) && is_split(s, start, mid, end, dim);
        assert forall|a: int, b: int| start <= a < mid && mid <= b < end implies split_order(
            #[trigger] t[a],
            #[trigger] t[b],
            dim,
        ) by {
            assert(split_order(s[a], s[b], dim));
        }
        assert(is_split(t, start, mid, end, dim));
    }
}

/// Two neighbouring subtrees and the node above them.
proof fn lemma_shapes_join(
    left_nodes: Seq<NodeModel>,
    left_ranges: Seq<(int, int)>,
    t: Seq<Entry>,
    both_nodes: Seq<NodeModel>,
    both_ranges: Seq<(int, int)>,
    u: Seq<Entry>,
    nodes: Seq<NodeModel>,
    ranges: Seq<(int, int)>,
    leaf_size: int,
    at: int,
    start: int,
    mid: int,
    end: int,
)
    requires
        0 <= at,
        at + 1 <= left_nodes.len() <= both_nodes.len() == nodes.len(),
        start <= mid <= end,
        shapes_ok(left_nodes, left_ranges, t, leaf_size, at + 1, start, mid),
        shapes_ok(both_nodes, both_ranges, u, leaf_size, left_nodes.len() as int, mid, end),
        forall|k: int| 0 <= k < left_nodes.len() ==> both_nodes[k] == left_nodes[k],
        forall|k: int| 0 <= k < left_nodes.len() ==> both_ranges[k] == left_ranges[k],
        t.len() == u.len(),
        forall|k: int| 0 <= k < mid ==> u[k] == t[k],
        forall|k: int| at < k < nodes.len() ==> nodes[k] == both_nodes[k],
        ranges.len() == nodes.len(),
        forall|k: int| 0 <= k < nodes.len() ==> ranges[k] == both_ranges[k],
        ranges[at] == (start, end),
        shape_ok(nodes, ranges, u, leaf_size, at),
        end <= t.len(),
    ensures
        shapes_ok(nodes, ranges, u, leaf_size, at, start, end),
{
    reveal(shapes_ok);
    assert forall|i: int| at <= i < nodes.len() implies {
        &&& #[trigger] shape_ok(nodes, ranges, u, leaf_size, i)
        &&& start <= ranges[i].0
        &&& ranges[i].1 <= end
    } by {
        if i == at {
        } else if i < left_nodes.len() {
            assert(shape_ok(left_nodes, left_ranges, t, leaf_size, i));
            lemma_shape_stays(left_nodes, nodes, left_ranges, ranges, t, u, leaf_size, i);
        } else {
            assert(shape_ok(both_nodes, both_ranges, u, leaf_size, i));
            lemma_shape_stays(both_nodes, nodes, both_ranges, ranges, u, u, leaf_size, i);
        }
    }
}

/// What was selected divides the entries.
proof fn lemma_selected(s: Seq<Entry>, start: int, mid: int, end: int, dim: int)
    requires
        forall|k: int| start <= k < mid ==> split_order(#[trigger] s[k], s[mid], dim),
        forall|k: int| mid <= k < end ==> split_order(s[mid], #[trigger] s[k], dim),
    ensures
        is_split(s, start, mid, end, dim),
{
    assert forall|a: int, b: int| start <= a < mid && mid <= b < end implies split_order(
        #[trigger] s[a],
        #[trigger] s[b],
        dim,
    ) by {
        assert(split_order(s[a], s[mid], dim));
        assert(split_order(s[mid], s[b], dim));
    }
}

/// The node above two subtrees.
proof fn lemma_inner_node(
    s: Seq<Entry>,
    left_nodes: Seq<NodeModel>,
    left_ranges: Seq<(int, int)>,
    t: Seq<Entry>,
    both_nodes: Seq<NodeModel>,
    both_ranges: Seq<(int, int)>,
    u: Seq<Entry>,
    node: NodeModel,
    leaf_size: int,
    at: int,
    start: int,
    end: int,
    dim: int,
)
    requires
        1 <= leaf_size < end - start,
        0 <= start,
        end <= s.len(),
        ({
            let mid = start + (end - start) / 2;
            &&& rearranged(s, t, start, mid)
            &&& rearranged(t, u, mid, end)
            &&& is_split(s, start, mid, end, dim)
            &&& shapes_ok(left_nodes, left_ranges, t, leaf_size, at + 1, start, mid)
            &&& shapes_ok(both_nodes, both_ranges, u, leaf_size, left_nodes.len() as int, mid, end)
            &&& left_ranges[at + 1] == (start, mid)
            &&& both_ranges[left_nodes.len() as int] == (mid, end)
        }),
        0 <= at,
        at + 1 < left_nodes.len() < both_nodes.len(),
        left_ranges.len() == left_nodes.len(),
        both_ranges.len() == both_nodes.len(),
        forall|k: int| 0 <= k < left_nodes.len() ==> both_nodes[k] == left_nodes[k],
        forall|k: int| 0 <= k < left_nodes.len() ==> both_ranges[k] == left_ranges[k],
        both_ranges[at] == (start, end),
        is_box_of(s, start, end, node.bbox_min, node.bbox_max),
        is_min_id_of(s, start, end, node.min_original_id),
        is_split_dim(node.bbox_min, node.bbox_max, dim),
        node.left == at + 1,
        node.right == left_nodes.len(),
        node.offset == 0,
        node.flags == 0,
        node.count == end - start,
    ensures
        shapes_ok(both_nodes.update(at, node), both_ranges, u, leaf_size, at, start, end),
        rearranged(s, u, start, end),
{
    let mid = start + (end - start) / 2;
    let nodes = both_nodes.update(at, node);
    lemma_rearranged_wider(s, t, start, mid, start, end);
    lemma_rearranged_wider(t, u, mid, end, start, end);
    lemma_rearranged_twice(s, t, u, start, end);
    lemma_summary_rearranged(
        s,
        u,
        start,
        end,
        node.bbox_min,
        node.bbox_max,
        node.min_original_id,
    );
    lemma_split_rearranged(s, t, u, start, mid, end, dim);
    assert(both_ranges[at + 1] == left_ranges[at + 1]);
    assert(sums_up(u, start, end, node)) by {
        reveal(sums_up);
    }
    assert(divides(u, start, mid, end, node)) by {
        reveal(divides);
    }
    assert(shape_ok(nodes, both_ranges, u, leaf_size, at));
    lemma_shapes_join(
        left_nodes,
        left_ranges,
        t,
        both_nodes,
        both_ranges,
        u,
        nodes,
        both_ranges,
        leaf_size,
        at,
        start,
        mid,
        end,
    );
}

/// Node `i` is the root or below it.
pub open spec fn reaches(nodes: Seq<NodeModel>, root: int, i: int) -> bool
    decreases nodes.len() - root,
{
    ||| root == i
    ||| {
        let node = nodes[root];
        &&& 0 <= root < nodes.len()
        &&& !node.is_leaf()
        &&& root < node.left < nodes.len()
        &&& root < node.right < nodes.len()
        &&& reaches(nodes, node.left as int, i) || reaches(nodes, node.right as int, i)
    }
}

/// What is below a root stays there as nodes are appended.
pub(crate) proof fn lemma_reaches_stays(
    nodes: Seq<NodeModel>,
    more: Seq<NodeModel>,
    root: int,
    i: int,
)
    requires
        0 <= root,
        nodes.len() <= more.len(),
        forall|k: int| root <= k < nodes.len() ==> more[k] == nodes[k],
        reaches(nodes, root, i),
    ensures
        reaches(more, root, i),
    decreases nodes.len() - root,
{
    if root != i {
        let node = nodes[root];
        assert(more[root] == node);
        if reaches(nodes, node.left as int, i) {
            lemma_reaches_stays(nodes, more, node.left as int, i);
        } else {
            lemma_reaches_stays(nodes, more, node.right as int, i);
        }
    }
}

/// What is below the children of a node is below the node.
proof fn lemma_inner_reaches(
    left_nodes: Seq<NodeModel>,
    both_nodes: Seq<NodeModel>,
    at: int,
    node: NodeModel,
)
    requires
        0 <= at,
        at + 1 < left_nodes.len() < both_nodes.len(),
        forall|k: int| 0 <= k < left_nodes.len() ==> both_nodes[k] == left_nodes[k],
        node.left == at + 1,
        node.right == left_nodes.len(),
        node.flags == 0,
        forall|i: int|
            at + 1 <= i < left_nodes.len() ==> #[trigger] reaches(left_nodes, at + 1, i),
        forall|i: int|
            left_nodes.len() <= i < both_nodes.len() ==> #[trigger] reaches(
                both_nodes,
                left_nodes.len() as int,
                i,
            ),
    ensures
        forall|i: int|
            at <= i < both_nodes.len() ==> #[trigger] reaches(both_nodes.update(at, node), at, i),
{
    let nodes = both_nodes.update(at, node);
    assert forall|i: int| at <= i < nodes.len() implies #[trigger] reaches(nodes, at, i) by {
        assert(!node.is_leaf()) by {
            assert(0u32 & 1 == 0) by (bit_vector);
        }
        if i == at {
        } else if i < left_nodes.len() {
            assert(reaches(left_nodes, at + 1, i));
            lemma_reaches_stays(left_nodes, nodes, at + 1, i);
        } else {
            assert(reaches(both_nodes, left_nodes.len() as int, i));
            lemma_reaches_stays(both_nodes, nodes, left_nodes.len() as int, i);
        }
    }
}

/// Builds the tree of the entries from `start` to `end`; its nodes are
/// appended, its root first.
pub(crate) fn build_tree(
    entries: &mut Vec<Entry>,
    start: usize,
    end: usize,
    nodes: &mut Vec<TreeNode>,
    leaf_size: usize,
    Ghost(ranges): Ghost<Seq<(int, int)>>,
) -> (built: (u32, Ghost<Seq<(int, int)>>))
    requires
        start < end <= old(entries)@.len(),
        end <= u32::MAX,
        old(nodes)@.len() + 2 * (end - start) <= u32::MAX,
        leaf_size >= 1,
        ranges.len() == old(nodes)@.len(),
    ensures
        rearranged(old(entries)@, final(entries)@, start as int, end as int),
        built.0 == old(nodes)@.len(),
        old(nodes)@.len() < final(nodes)@.len() < old(nodes)@.len() + 2 * (end - start),
        forall|i: int| 0 <= i < old(nodes)@.len() ==> final(nodes)@[i] == old(nodes)@[i],
        built.1@.len() == final(nodes)@.len(),
        forall|i: int| 0 <= i < ranges.len() ==> built.1@[i] == ranges[i],
        built.1@[built.0 as int] == (start as int, end as int),
        shapes_ok(
            node_models(final(nodes)@),
            built.1@,
            final(entries)@,
            leaf_size as int,
            built.0 as int,
            start as int,
            end as int,
        ),
        forall|i: int|
            built.0 <= i < final(nodes)@.len() ==> #[trigger] reaches(
                node_models(final(nodes)@),
                built.0 as int,
                i,
            ),
    decreases end - start,
{
    let ghost s = entries@;
    let ghost at = nodes@.len() as int;
    let node_idx: u32 = nodes.len() as u32;
    nodes.push(TreeNode::default());
    let ghost here = ranges.push((start as int, end as int));
    let (bbox_min, bbox_max, min_original_id) = summarize(entries, start, end);
    let count: usize = end - start;
    if count <= leaf_size {
        let node = TreeNode {
            bbox_min,
            bbox_max,
            left: EMPTY_NODE,
            right: EMPTY_NODE,
            offset: start as u32,
            count: count as u32,
            min_original_id,
            flags: TreeNode::LEAF_FLAG,
        };
        nodes.set(node_idx as usize, node);
        proof {
            reveal(shapes_ok);
            reveal(sums_up);
            assert(node_models(nodes@)[at] == node@);
            assert(shape_ok(node_models(nodes@), here, entries@, leaf_size as int, at));
        }
        return (node_idx, Ghost(here));
    }
    let split_dim: usize = choose_split_dim(&bbox_min, &bbox_max);
    let half: usize = count / 2;
    let mid: usize = start + half;
    select_nth(entries, start, end, half, split_dim);
    let ghost t0 = entries@;
    proof {
        lemma_summary_rearranged(
            s,
            t0,
            start as int,
            end as int,
            bbox_min@,
            bbox_max@,
            min_original_id,
        );
        lemma_selected(t0, start as int, mid as int, end as int, split_dim as int);
    }
    let (left, Ghost(left_ranges)) = build_tree(
        entries,
        start,
        mid,
        nodes,
        leaf_size,
        Ghost(here),
    );
    let ghost t = entries@;
    let ghost left_nodes = node_models(nodes@);
    let (right, Ghost(both_ranges)) = build_tree(
        entries,
        mid,
        end,
        nodes,
        leaf_size,
        Ghost(left_ranges),
    );
    let ghost u = entries@;
    let ghost both_nodes = node_models(nodes@);
    let node = TreeNode {
        bbox_min,
        bbox_max,
        left,
        right,
        offset: 0,
        count: count as u32,
        min_original_id,
        flags: 0,
    };
    nodes.set(node_idx as usize, node);
    proof {
        assert(node_models(nodes@) =~= both_nodes.update(at, node@));
        assert(both_ranges[at] == left_ranges[at] && left_ranges[at] == here[at]);
        lemma_inner_node(
            t0,
            left_nodes,
            left_ranges,
            t,
            both_nodes,
            both_ranges,
            u,
            node@,
            leaf_size as int,
            at,
            start as int,
            end as int,
            split_dim as int,
        );
        lemma_rearranged_twice(s, t0, u, start as int, end as int);
        lemma_inner_reaches(left_nodes, both_nodes, at, node@);
        assert forall|i: int| 0 <= i < ranges.len() implies both_ranges[i] == ranges[i] by {
            assert(left_ranges[i] == here[i]);
        }
    }
    (node_idx, Ghost(both_ranges))
}

/// How often `count` entries can be halved, the larger half being kept.
pub open spec fn levels(count: int) -> int
    decreases count,
{
    if count <= 1 {
        0
    } else {
        1 + levels(count - count / 2)
    }
}

proof fn lemma_levels_monotone(a: int, b: int)
    requires
        a <= b,
    ensures
        0 <= levels(a) <= levels(b),
    decreases b,
{
    if b > 1 {
        lemma_levels_monotone(a - a / 2, b - b / 2);
        lemma_levels_monotone(b - b / 2, b - b / 2);
    }
}

spec fn doubled(k: nat) -> int
    decreases k,
{
    if k == 0 {
        1
    } else {
        2 * doubled((k - 1) as nat)
    }
}

proof fn lemma_levels(count: int, k: nat)
    requires
        count <= doubled(k),
    ensures
        levels(count) <= k,
    decreases k,
{
    if k > 0 && count > 1 {
        lemma_levels(count - count / 2, (k - 1) as nat);
    }
}

/// All nodes have their shapes.
pub open spec fn all_shapes(
    nodes: Seq<NodeModel>,
    ranges: Seq<(int, int)>,
    s: Seq<Entry>,
    leaf_size: int,
) -> bool {
    shapes_ok(nodes, ranges, s, leaf_size, 0, 0, s.len() as int)
}

pub(crate) proof fn lemma_shape_start(
    nodes: Seq<NodeModel>,
    ranges: Seq<(int, int)>,
    s: Seq<Entry>,
    leaf_size: int,
    i: int,
)
    requires
        all_shapes(nodes, ranges, s, leaf_size),
        leaf_size >= 1,
        0 <= i < nodes.len(),
    ensures
        shape_ok(nodes, ranges, s, leaf_size, i),
        node_start(nodes, i) == ranges[i].0,
        nodes[i].is_leaf() == (ranges[i].1 - ranges[i].0 <= leaf_size),
        node_height(nodes, i) <= levels(ranges[i].1 - ranges[i].0),
        forall|j: int|
            #![trigger in_node(nodes, i, j)]
            in_node(nodes, i, j) <==> ranges[i].0 <= j < ranges[i].1,
    decreases nodes.len() - i,
{
    reveal(shapes_ok);
    assert(shape_ok(nodes, ranges, s, leaf_size, i));
    let count = ranges[i].1 - ranges[i].0;
    lemma_levels_monotone(0, count);
    if count > leaf_size {
        lemma_shape_start(nodes, ranges, s, leaf_size, nodes[i].left as int);
        lemma_shape_start(nodes, ranges, s, leaf_size, nodes[i].right as int);
        lemma_levels_monotone(count / 2, count - count / 2);
    }
}

/// Trees of these shapes can be searched, and their boxes are sound.
pub(crate) proof fn lemma_shapes_are_trees(
    nodes: Seq<NodeModel>,
    ranges: Seq<(int, int)>,
    s: Seq<Entry>,
    leaf_size: int,
)
    requires
        all_shapes(nodes, ranges, s, leaf_size),
        leaf_size >= 1,
        s.len() <= u32::MAX,
    ensures
        trees_ok(nodes, s.len() as int),
        heights_ok(nodes),
{
    assert forall|i: int| 0 <= i < nodes.len() implies #[trigger] node_ok(
        nodes,
        s.len() as int,
        i,
    ) by {
        lemma_shape_start(nodes, ranges, s, leaf_size, i);
        if !nodes[i].is_leaf() {
            lemma_shape_start(nodes, ranges, s, leaf_size, nodes[i].left as int);
            lemma_shape_start(nodes, ranges, s, leaf_size, nodes[i].right as int);
        }
    }
    assert forall|i: int| 0 <= i < nodes.len() implies #[trigger] node_height(nodes, i)
        <= MAX_HEIGHT by {
        lemma_shape_start(nodes, ranges, s, leaf_size, i);
        assert(doubled(32) == 0x1_0000_0000) by {
            reveal_with_fuel(doubled, 33);
        }
        lemma_levels(ranges[i].1 - ranges[i].0, 32);
    }
}

/// More nodes for entries further on.
pub(crate) proof fn lemma_shapes_append(
    nodes: Seq<NodeModel>,
    ranges: Seq<(int, int)>,
    s: Seq<Entry>,
    more: Seq<NodeModel>,
    more_ranges: Seq<(int, int)>,
    t: Seq<Entry>,
    leaf_size: int,
    done: int,
    start: int,
    end: int,
)
    requires
        shapes_ok(nodes, ranges, s, leaf_size, 0, 0, done),
        shapes_ok(more, more_ranges, t, leaf_size, nodes.len() as int, start, end),
        0 <= done <= start <= end <= s.len(),
        nodes.len() <= more.len(),
        forall|k: int| 0 <= k < nodes.len() ==> more[k] == nodes[k],
        forall|k: int| 0 <= k < nodes.len() ==> more_ranges[k] == ranges[k],
        rearranged(s, t, start, end),
    ensures
        shapes_ok(more, more_ranges, t, leaf_size, 0, 0, end),
{
    reveal(shapes_ok);
    assert forall|i: int| 0 <= i < more.len() implies {
        &&& #[trigger] shape_ok(more, more_ranges, t, leaf_size, i)
        &&& 0 <= more_ranges[i].0
        &&& more_ranges[i].1 <= end
    } by {
        if i < nodes.len() {
            assert(shape_ok(nodes, ranges, s, leaf_size, i));
            assert(more_ranges[i] == ranges[i]);
            lemma_shape_stays(nodes, more, ranges, more_ranges, s, t, leaf_size, i);
        } else {
            assert(shape_ok(more, more_ranges, t, leaf_size, i));
        }
    }
}

} // verus!
