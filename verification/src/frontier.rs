//! The open nodes of a traversal: what they still have to contribute.
use crate::index_format::{IndexModel, NodeModel};
use crate::topk::{covered, TopKEntry};
use crate::tree::{
    boxes_sound, entry_of, improves, in_node, lemma_node_range, node_ok, node_start, span, trees_ok,
};
use vstd::prelude::*;

verus! {

/// The vectors below node `i`.
pub open spec fn below(nodes: Seq<NodeModel>, i: int) -> Set<int> {
    Set::new(|j: int| in_node(nodes, i, j))
}

/// The `open` nodes lie within `area` and share no vectors; the vectors `h`
/// that were already offered lie within `area`, below none of the open nodes,
/// and each was offered once.
#[verifier::opaque]
pub open spec fn frontier(
    nodes: Seq<NodeModel>,
    area: Set<int>,
    open: Seq<int>,
    h: Seq<int>,
) -> bool {
    &&& forall|p: int| 0 <= p < open.len() ==> 0 <= #[trigger] open[p] < nodes.len()
    &&& forall|p: int, j: int|
        0 <= p < open.len() && #[trigger] in_node(nodes, open[p], j) ==> area.contains(j)
    &&& forall|p: int, r: int, j: int|
        0 <= p < open.len() && 0 <= r < open.len() && p != r ==> !(#[trigger] in_node(
            nodes,
            open[p],
            j,
        ) && #[trigger] in_node(nodes, open[r], j))
    &&& forall|k: int| 0 <= k < h.len() ==> area.contains(#[trigger] h[k])
    &&& forall|p: int, k: int|
        0 <= p < open.len() && 0 <= k < h.len() ==> !in_node(
            nodes,
            #[trigger] open[p],
            #[trigger] h[k],
        )
    &&& h.no_duplicates()
}

/// Node `i` shares no vectors with the open nodes and with what was offered.
#[verifier::opaque]
pub open spec fn apart(nodes: Seq<NodeModel>, open: Seq<int>, h: Seq<int>, i: int) -> bool {
    &&& forall|p: int, j: int|
        0 <= p < open.len() ==> !(#[trigger] in_node(nodes, open[p], j) && in_node(nodes, i, j))
    &&& forall|k: int| 0 <= k < h.len() ==> !in_node(nodes, i, #[trigger] h[k])
}

/// Every vector of `area` is settled or below an open node.
#[verifier::opaque]
pub open spec fn settled(
    m: IndexModel,
    q: Seq<i16>,
    s: Seq<TopKEntry>,
    area: Set<int>,
    open: Seq<int>,
) -> bool {
    forall|j: int| #[trigger]
        area.contains(j) ==> covered(s, entry_of(m, q, j)) || exists|p: int|
            0 <= p < open.len() && in_node(m.nodes, #[trigger] open[p], j)
}

/// All vectors below node `i` are settled.
pub open spec fn node_settled(m: IndexModel, q: Seq<i16>, s: Seq<TopKEntry>, i: int) -> bool {
    forall|j: int| #[trigger] in_node(m.nodes, i, j) ==> covered(s, entry_of(m, q, j))
}

/// Every vector of `area` is settled, below an open node or below node `i`.
#[verifier::opaque]
pub open spec fn settled_but(
    m: IndexModel,
    q: Seq<i16>,
    s: Seq<TopKEntry>,
    area: Set<int>,
    open: Seq<int>,
    i: int,
) -> bool {
    forall|j: int| #[trigger]
        area.contains(j) ==> covered(s, entry_of(m, q, j)) || in_node(m.nodes, i, j) || exists|
            p: int,
        |
            0 <= p < open.len() && in_node(m.nodes, #[trigger] open[p], j)
}

pub proof fn lemma_frontier_remove(
    nodes: Seq<NodeModel>,
    area: Set<int>,
    open: Seq<int>,
    h: Seq<int>,
    p: int,
)
    requires
        frontier(nodes, area, open, h),
        0 <= p < open.len(),
    ensures
        frontier(nodes, area, open.remove(p), h),
        apart(nodes, open.remove(p), h, open[p]),
        forall|j: int| #[trigger] in_node(nodes, open[p], j) ==> area.contains(j),
        0 <= open[p] < nodes.len(),
{
    reveal(frontier);
    reveal(apart);
    let rest = open.remove(p);
    assert forall|r: int| 0 <= r < rest.len() implies #[trigger] rest[r] == open[if r < p {
        r
    } else {
        r + 1
    }] by {}
}

pub proof fn lemma_settled_remove(
    m: IndexModel,
    q: Seq<i16>,
    s: Seq<TopKEntry>,
    area: Set<int>,
    open: Seq<int>,
    p: int,
)
    requires
        settled(m, q, s, area, open),
        0 <= p < open.len(),
    ensures
        settled_but(m, q, s, area, open.remove(p), open[p]),
{
    reveal(settled);
    reveal(settled_but);
    let rest = open.remove(p);
    assert forall|j: int| #[trigger] area.contains(j) implies covered(s, entry_of(m, q, j))
        || in_node(m.nodes, open[p], j) || exists|r: int|
        0 <= r < rest.len() && in_node(m.nodes, #[trigger] rest[r], j) by {
        if !covered(s, entry_of(m, q, j)) && !in_node(m.nodes, open[p], j) {
            let r = choose|r: int| 0 <= r < open.len() && in_node(m.nodes, #[trigger] open[r], j);
            let r2 = if r < p {
                r
            } else {
                r - 1
            };
            assert(rest[r2] == open[r]);
        }
    }
}

/// A node that is settled needs no further look.
pub proof fn lemma_settled_done(
    m: IndexModel,
    q: Seq<i16>,
    s: Seq<TopKEntry>,
    area: Set<int>,
    open: Seq<int>,
    i: int,
)
    requires
        settled_but(m, q, s, area, open, i),
        node_settled(m, q, s, i),
    ensures
        settled(m, q, s, area, open),
{
    reveal(settled);
    reveal(settled_but);
}

pub proof fn lemma_settled_improves(
    m: IndexModel,
    q: Seq<i16>,
    s: Seq<TopKEntry>,
    t: Seq<TopKEntry>,
    area: Set<int>,
    open: Seq<int>,
    i: int,
)
    requires
        improves(s, t),
    ensures
        settled_but(m, q, s, area, open, i) ==> settled_but(m, q, t, area, open, i),
        settled(m, q, s, area, open) ==> settled(m, q, t, area, open),
        node_settled(m, q, s, i) ==> node_settled(m, q, t, i),
{
    reveal(settled);
    reveal(settled_but);
    assert forall|j: int| covered(s, entry_of(m, q, j)) implies covered(
        t,
        #[trigger] entry_of(m, q, j),
    ) by {}
}

pub proof fn lemma_frontier_push(
    nodes: Seq<NodeModel>,
    area: Set<int>,
    open: Seq<int>,
    h: Seq<int>,
    i: int,
)
    requires
        frontier(nodes, area, open, h),
        apart(nodes, open, h, i),
        0 <= i < nodes.len(),
        forall|j: int| #[trigger] in_node(nodes, i, j) ==> area.contains(j),
    ensures
        frontier(nodes, area, open.push(i), h),
{
    reveal(frontier);
    reveal(apart);
    let grown = open.push(i);
    assert forall|p: int, r: int, j: int|
        0 <= p < grown.len() && 0 <= r < grown.len() && p != r implies !(#[trigger] in_node(
        nodes,
        grown[p],
        j,
    ) && #[trigger] in_node(nodes, grown[r], j)) by {
        if p < open.len() && r < open.len() {
            assert(!(in_node(nodes, open[p], j) && in_node(nodes, open[r], j)));
        } else if p < open.len() {
            assert(!(in_node(nodes, open[p], j) && in_node(nodes, i, j)));
        } else {
            assert(!(in_node(nodes, open[r], j) && in_node(nodes, i, j)));
        }
    }
    assert forall|p: int, k: int| 0 <= p < grown.len() && 0 <= k < h.len() implies !in_node(
        nodes,
        #[trigger] grown[p],
        #[trigger] h[k],
    ) by {
        if p < open.len() {
            assert(!in_node(nodes, open[p], h[k]));
        }
    }
    assert forall|p: int, j: int|
        0 <= p < grown.len() && #[trigger] in_node(nodes, grown[p], j) implies area.contains(j) by {
        if p < open.len() {
            assert(in_node(nodes, open[p], j));
        }
    }
}

/// The children of an inner node divide its vectors.
pub proof fn lemma_children(nodes: Seq<NodeModel>, n_vectors: int, i: int)
    requires
        trees_ok(nodes, n_vectors),
        0 <= i < nodes.len(),
        !nodes[i].is_leaf(),
    ensures
        i < nodes[i].left < nodes.len(),
        i < nodes[i].right < nodes.len(),
        forall|j: int|
            in_node(nodes, i, j) <==> (#[trigger] in_node(nodes, nodes[i].left as int, j)
                || in_node(nodes, nodes[i].right as int, j)),
        forall|j: int|
            !(#[trigger] in_node(nodes, nodes[i].left as int, j) && in_node(
                nodes,
                nodes[i].right as int,
                j,
            )),
        forall|j: int| #[trigger]
            in_node(nodes, nodes[i].right as int, j) ==> in_node(nodes, i, j),
        forall|j: int| #[trigger]
            in_node(nodes, nodes[i].left as int, j) ==> in_node(nodes, i, j),
{
    assert(node_ok(nodes, n_vectors, i));
    lemma_node_range(nodes, n_vectors, nodes[i].left as int);
    lemma_node_range(nodes, n_vectors, nodes[i].right as int);
}

/// Offering what is below a leaf.
pub proof fn lemma_frontier_scan(
    nodes: Seq<NodeModel>,
    area: Set<int>,
    open: Seq<int>,
    h: Seq<int>,
    i: int,
)
    requires
        frontier(nodes, area, open, h),
        apart(nodes, open, h, i),
        forall|j: int| #[trigger] in_node(nodes, i, j) ==> area.contains(j),
    ensures
        frontier(
            nodes,
            area,
            open,
            h + span(node_start(nodes, i), node_start(nodes, i) + nodes[i].count),
        ),
{
    reveal(frontier);
    reveal(apart);
    let range = span(node_start(nodes, i), node_start(nodes, i) + nodes[i].count);
    let grown = h + range;
    assert forall|k: int| h.len() <= k < grown.len() implies in_node(
        nodes,
        i,
        #[trigger] grown[k],
    ) by {
        assert(grown[k] == range[k - h.len()]);
    }
    assert forall|k: int| 0 <= k < grown.len() implies area.contains(#[trigger] grown[k]) by {
        if k < h.len() {
            assert(grown[k] == h[k]);
        }
    }
    assert forall|p: int, k: int| 0 <= p < open.len() && 0 <= k < grown.len() implies !in_node(
        nodes,
        #[trigger] open[p],
        #[trigger] grown[k],
    ) by {
        if k < h.len() {
            assert(grown[k] == h[k]);
        } else {
            assert(!(in_node(nodes, open[p], grown[k]) && in_node(nodes, i, grown[k])));
        }
    }
    assert forall|a: int, b: int|
        0 <= a < grown.len() && 0 <= b < grown.len() && a != b implies grown[a] != grown[b] by {
        if a < h.len() && b < h.len() {
            assert(h[a] != h[b]);
        } else if a < h.len() {
            assert(grown[a] == h[a]);
            assert(in_node(nodes, i, grown[b]));
        } else if b < h.len() {
            assert(grown[b] == h[b]);
            assert(in_node(nodes, i, grown[a]));
        }
    }
}

/// How much work the open nodes can still cause.
pub open spec fn weight(nodes: Seq<NodeModel>, open: Seq<int>) -> int
    decreases open.len(),
{
    if open.len() == 0 {
        0
    } else {
        weight(nodes, open.drop_last()) + 2 * nodes[open.last()].count - 1
    }
}

pub proof fn lemma_weight_push(nodes: Seq<NodeModel>, open: Seq<int>, i: int)
    ensures
        weight(nodes, open.push(i)) == weight(nodes, open) + 2 * nodes[i].count - 1,
{
    assert(open.push(i).drop_last() =~= open);
}

pub proof fn lemma_weight_remove(nodes: Seq<NodeModel>, open: Seq<int>, p: int)
    requires
        0 <= p < open.len(),
    ensures
        weight(nodes, open.remove(p)) == weight(nodes, open) - 2 * nodes[open[p]].count + 1,
    decreases open.len(),
{
    let rest = open.remove(p);
    if p == open.len() - 1 {
        assert(rest =~= open.drop_last());
    } else {
        lemma_weight_remove(nodes, open.drop_last(), p);
        assert(rest.drop_last() =~= open.drop_last().remove(p));
        assert(rest.last() == open.last());
    }
}

pub proof fn lemma_weight_nonnegative(nodes: Seq<NodeModel>, open: Seq<int>)
    requires
        forall|p: int| 0 <= p < open.len() ==> nodes[#[trigger] open[p]].count >= 1,
    ensures
        weight(nodes, open) >= 0,
    decreases open.len(),
{
    if open.len() > 0 {
        let init = open.drop_last();
        assert forall|p: int| 0 <= p < init.len() implies nodes[#[trigger] init[p]].count >= 1 by {
            assert(init[p] == open[p]);
        }
        lemma_weight_nonnegative(nodes, init);
        assert(nodes[open[open.len() - 1]].count >= 1);
    }
}

/// Nodes that share no vectors are different nodes.
pub proof fn lemma_frontier_distinct(
    nodes: Seq<NodeModel>,
    n_vectors: int,
    area: Set<int>,
    open: Seq<int>,
    h: Seq<int>,
)
    requires
        trees_ok(nodes, n_vectors),
        frontier(nodes, area, open, h),
    ensures
        open.no_duplicates(),
{
    reveal(frontier);
    assert forall|a: int, b: int|
        0 <= a < open.len() && 0 <= b < open.len() && a != b implies open[a] != open[b] by {
        lemma_node_range(nodes, n_vectors, open[a]);
        assert(in_node(nodes, open[a], node_start(nodes, open[a])));
        if open[a] == open[b] {
            assert(in_node(nodes, open[b], node_start(nodes, open[a])));
        }
    }
}

pub open spec fn maybe_push(open: Seq<int>, i: int, push: bool) -> Seq<int> {
    if push {
        open.push(i)
    } else {
        open
    }
}

/// Replacing an inner node by those of its children that may still contribute.
pub proof fn lemma_expand(
    m: IndexModel,
    q: Seq<i16>,
    s: Seq<TopKEntry>,
    area: Set<int>,
    rest: Seq<int>,
    h: Seq<int>,
    i: int,
    first: int,
    push_first: bool,
    second: int,
    push_second: bool,
)
    requires
        trees_ok(m.nodes, m.vectors.len() as int),
        frontier(m.nodes, area, rest, h),
        apart(m.nodes, rest, h, i),
        forall|j: int| #[trigger] in_node(m.nodes, i, j) ==> area.contains(j),
        0 <= i < m.nodes.len(),
        !m.nodes[i].is_leaf(),
        (first == m.nodes[i].left && second == m.nodes[i].right) || (first == m.nodes[i].right
            && second == m.nodes[i].left),
        boxes_sound(m) ==> settled_but(m, q, s, area, rest, i),
        !push_first ==> (boxes_sound(m) ==> node_settled(m, q, s, first)),
        !push_second ==> (boxes_sound(m) ==> node_settled(m, q, s, second)),
    ensures
        ({
            let open = maybe_push(maybe_push(rest, first, push_first), second, push_second);
            &&& frontier(m.nodes, area, open, h)
            &&& boxes_sound(m) ==> settled(m, q, s, area, open)
            &&& weight(m.nodes, open) < weight(m.nodes, rest) + 2 * m.nodes[i].count - 1
        }),
{
    let n = m.vectors.len() as int;
    lemma_children(m.nodes, n, i);
    assert(node_ok(m.nodes, n, i));
    lemma_node_range(m.nodes, n, first);
    lemma_node_range(m.nodes, n, second);
    let open1 = maybe_push(rest, first, push_first);
    let open = maybe_push(open1, second, push_second);
    assert(apart(m.nodes, rest, h, first) && apart(m.nodes, rest, h, second)) by {
        reveal(apart);
    }
    if push_first {
        lemma_frontier_push(m.nodes, area, rest, h, first);
        lemma_weight_push(m.nodes, rest, first);
    }
    assert(apart(m.nodes, open1, h, second)) by {
        reveal(apart);
        assert forall|p: int, j: int| 0 <= p < open1.len() implies !(#[trigger] in_node(
            m.nodes,
            open1[p],
            j,
        ) && in_node(m.nodes, second, j)) by {
            if p < rest.len() {
                assert(open1[p] == rest[p]);
            } else {
                assert(open1[p] == first);
            }
        }
    }
    if push_second {
        lemma_frontier_push(m.nodes, area, open1, h, second);
        lemma_weight_push(m.nodes, open1, second);
    }
    if boxes_sound(m) {
        reveal(settled);
        reveal(settled_but);
        assert forall|j: int| #[trigger] area.contains(j) implies covered(s, entry_of(m, q, j))
            || exists|p: int| 0 <= p < open.len() && in_node(m.nodes, #[trigger] open[p], j) by {
            if !covered(s, entry_of(m, q, j)) {
                if in_node(m.nodes, first, j) {
                    assert(open[rest.len() as int] == first);
                } else if in_node(m.nodes, second, j) {
                    assert(open[open1.len() as int] == second);
                } else {
                    let p = choose|p: int|
                        0 <= p < rest.len() && in_node(m.nodes, #[trigger] rest[p], j);
                    assert(open[p] == rest[p]);
                }
            }
        }
    }
}

/// A single open node, before anything was offered.
pub proof fn lemma_frontier_start(m: IndexModel, q: Seq<i16>, s: Seq<TopKEntry>, i: int)
    requires
        0 <= i < m.nodes.len(),
    ensures
        frontier(m.nodes, below(m.nodes, i), seq![i], seq![]),
        settled(m, q, s, below(m.nodes, i), seq![i]),
{
    reveal(frontier);
    reveal(settled);
    let open = seq![i];
    assert forall|j: int| #[trigger] below(m.nodes, i).contains(j) implies exists|p: int|
        0 <= p < open.len() && in_node(m.nodes, #[trigger] open[p], j) by {
        assert(open[0] == i);
    }
}

/// Once no node is open, everything is settled.
pub proof fn lemma_frontier_end(
    m: IndexModel,
    q: Seq<i16>,
    s: Seq<TopKEntry>,
    area: Set<int>,
    open: Seq<int>,
    h: Seq<int>,
)
    requires
        frontier(m.nodes, area, open, h),
    ensures
        h.no_duplicates(),
        forall|k: int| 0 <= k < h.len() ==> area.contains(#[trigger] h[k]),
        forall|p: int| 0 <= p < open.len() ==> 0 <= #[trigger] open[p] < m.nodes.len(),
        settled(m, q, s, area, open) && open.len() == 0 ==> forall|j: int| #[trigger]
            area.contains(j) ==> covered(s, entry_of(m, q, j)),
{
    reveal(frontier);
    reveal(settled);
}

/// The vectors below some of the nodes `roots`.
pub open spec fn below_all(nodes: Seq<NodeModel>, roots: Seq<int>) -> Set<int> {
    Set::new(
        |j: int| exists|p: int| 0 <= p < roots.len() && in_node(nodes, #[trigger] roots[p], j),
    )
}

/// The nodes `roots` exist and share no vectors.
pub open spec fn disjoint_roots(nodes: Seq<NodeModel>, roots: Seq<int>) -> bool {
    &&& forall|p: int| 0 <= p < roots.len() ==> 0 <= #[trigger] roots[p] < nodes.len()
    &&& forall|p: int, r: int, j: int|
        0 <= p < roots.len() && 0 <= r < roots.len() && p != r ==> !(#[trigger] in_node(
            nodes,
            roots[p],
            j,
        ) && #[trigger] in_node(nodes, roots[r], j))
}

/// One more root.
pub proof fn lemma_below_push(nodes: Seq<NodeModel>, roots: Seq<int>, i: int)
    requires
        0 <= i < roots.len(),
    ensures
        forall|j: int|
            #![trigger below_all(nodes, roots.take(i + 1)).contains(j)]
            below_all(nodes, roots.take(i + 1)).contains(j) <==> (below_all(
                nodes,
                roots.take(i),
            ).contains(j) || in_node(nodes, roots[i], j)),
        forall|j: int|
            #![trigger below_all(nodes, roots.take(i)).contains(j)]
            below_all(nodes, roots.take(i)).contains(j) ==> below_all(
                nodes,
                roots.take(i + 1),
            ).contains(j),
        forall|j: int|
            #![trigger in_node(nodes, roots[i], j)]
            in_node(nodes, roots[i], j) ==> below_all(nodes, roots.take(i + 1)).contains(j),
        disjoint_roots(nodes, roots) ==> forall|j: int|
            !(#[trigger] below_all(nodes, roots.take(i)).contains(j) && in_node(
                nodes,
                roots[i],
                j,
            )),
{
    let a = roots.take(i);
    let b = roots.take(i + 1);
    assert forall|j: int| below_all(nodes, b).contains(j) implies below_all(nodes, a).contains(j)
        || in_node(nodes, roots[i], j) by {
        let p = choose|p: int| 0 <= p < b.len() && in_node(nodes, #[trigger] b[p], j);
        if p < i {
            assert(a[p] == b[p]);
        }
    }
    assert forall|j: int| below_all(nodes, a).contains(j) implies below_all(nodes, b).contains(
        j,
    ) by {
        let p = choose|p: int| 0 <= p < a.len() && in_node(nodes, #[trigger] a[p], j);
        assert(b[p] == a[p]);
    }
    assert forall|j: int| in_node(nodes, roots[i], j) implies below_all(nodes, b).contains(j) by {
        assert(b[i] == roots[i]);
    }
    if disjoint_roots(nodes, roots) {
        assert forall|j: int|
            !(#[trigger] below_all(nodes, a).contains(j) && in_node(nodes, roots[i], j)) by {
            if below_all(nodes, a).contains(j) {
                let p = choose|p: int| 0 <= p < a.len() && in_node(nodes, #[trigger] a[p], j);
                assert(in_node(nodes, roots[p], j));
            }
        }
    }
}

/// A root joins the open nodes before anything was offered.
pub proof fn lemma_frontier_grow(
    m: IndexModel,
    q: Seq<i16>,
    s: Seq<TopKEntry>,
    roots: Seq<int>,
    i: int,
    open: Seq<int>,
)
    requires
        disjoint_roots(m.nodes, roots),
        0 <= i < roots.len(),
        frontier(m.nodes, below_all(m.nodes, roots.take(i)), open, seq![]),
    ensures
        frontier(m.nodes, below_all(m.nodes, roots.take(i + 1)), open, seq![]),
        frontier(m.nodes, below_all(m.nodes, roots.take(i + 1)), open.push(roots[i]), seq![]),
        settled(m, q, s, below_all(m.nodes, roots.take(i)), open) ==> {
            &&& settled(m, q, s, below_all(m.nodes, roots.take(i + 1)), open.push(roots[i]))
            &&& node_settled(m, q, s, roots[i]) ==> settled(
                m,
                q,
                s,
                below_all(m.nodes, roots.take(i + 1)),
                open,
            )
        },
{
    let before = below_all(m.nodes, roots.take(i));
    let area = below_all(m.nodes, roots.take(i + 1));
    lemma_below_push(m.nodes, roots, i);
    assert(frontier(m.nodes, area, open, seq![])) by {
        reveal(frontier);
        assert forall|p: int, j: int|
            0 <= p < open.len() && #[trigger] in_node(m.nodes, open[p], j) implies area.contains(
            j,
        ) by {
            assert(before.contains(j));
        }
    }
    assert(apart(m.nodes, open, seq![], roots[i])) by {
        reveal(frontier);
        reveal(apart);
        assert forall|p: int, j: int| 0 <= p < open.len() implies !(#[trigger] in_node(
            m.nodes,
            open[p],
            j,
        ) && in_node(m.nodes, roots[i], j)) by {
            if in_node(m.nodes, open[p], j) {
                assert(before.contains(j));
            }
        }
    }
    lemma_frontier_push(m.nodes, area, open, seq![], roots[i]);
    if settled(m, q, s, before, open) {
        reveal(settled);
        let grown = open.push(roots[i]);
        assert forall|j: int| #[trigger] area.contains(j) implies covered(s, entry_of(m, q, j))
            || exists|p: int| 0 <= p < grown.len() && in_node(m.nodes, #[trigger] grown[p], j) by {
            if !covered(s, entry_of(m, q, j)) {
                if in_node(m.nodes, roots[i], j) {
                    assert(grown[open.len() as int] == roots[i]);
                } else {
                    assert(before.contains(j));
                    let p = choose|p: int|
                        0 <= p < open.len() && in_node(m.nodes, #[trigger] open[p], j);
                    assert(grown[p] == open[p]);
                }
            }
        }
        if node_settled(m, q, s, roots[i]) {
            assert forall|j: int| #[trigger] area.contains(j) implies covered(s, entry_of(m, q, j))
                || exists|p: int|
                0 <= p < open.len() && in_node(m.nodes, #[trigger] open[p], j) by {
                if !in_node(m.nodes, roots[i], j) {
                    assert(before.contains(j));
                }
            }
        }
    }
}

/// Nothing is open at first.
pub proof fn lemma_frontier_empty(m: IndexModel, q: Seq<i16>, s: Seq<TopKEntry>, roots: Seq<int>)
    ensures
        frontier(m.nodes, below_all(m.nodes, roots.take(0)), seq![], seq![]),
        settled(m, q, s, below_all(m.nodes, roots.take(0)), seq![]),
{
    reveal(frontier);
    reveal(settled);
}

/// Where every open node is settled, everything is.
pub proof fn lemma_settled_all(
    m: IndexModel,
    q: Seq<i16>,
    s: Seq<TopKEntry>,
    area: Set<int>,
    open: Seq<int>,
)
    requires
        settled(m, q, s, area, open),
        forall|p: int| 0 <= p < open.len() ==> node_settled(m, q, s, #[trigger] open[p]),
    ensures
        forall|j: int| #[trigger] area.contains(j) ==> covered(s, entry_of(m, q, j)),
{
    reveal(settled);
    assert forall|j: int| #[trigger] area.contains(j) implies covered(s, entry_of(m, q, j)) by {
        if !covered(s, entry_of(m, q, j)) {
            let p = choose|p: int| 0 <= p < open.len() && in_node(m.nodes, #[trigger] open[p], j);
            assert(node_settled(m, q, s, open[p]));
        }
    }
}

} // verus!
