//! Comparing a query with all references, one by one.
use crate::builder::{
    entries_for, index_from, is_index_of, law_built_index_is_sound, lemma_entries_for,
};
use crate::cell::normalized;
use crate::distance::{l2sq_scalar, lemma_partial_distance_monotone, squared_distance};
use crate::index_format::{all_sections, model_of, IndexModel};
use crate::search::{law_search_counts_the_nearest, law_sound_index_is_ready, Index};
use crate::topk::{
    distinct_keys, fraud_labels, insert_position, law_key_order, law_offering_order_is_irrelevant,
    lemma_insert_position, lemma_offered, offered, offered_all, packed_key, ranked, worst_key_of,
    TopK, TopKEntry, TOP_K,
};
use crate::tree::{distances_fit, law_normalized_distances_fit, lemma_pool_distinct, pool};
use crate::tree_builder::{distinct_ids, lemma_same_entries, Entry};
use crate::types::{Payload, Vec16I};
use crate::vectorize::{
    law_payload_cell_is_vector_cell, payload_on_scale, payload_vector, request_time_ok,
};
use vstd::prelude::*;

verus! {

/// The entry of reference `k`, with the given label.
pub open spec fn reference_entry(
    q: Seq<i16>,
    vectors: Seq<Vec16I>,
    k: int,
    label: u8,
) -> TopKEntry {
    TopKEntry {
        key: packed_key(squared_distance(q, vectors[k]@) as i32, k as u32) as u64,
        label,
    }
}

/// The entries of all references, in their order.
pub open spec fn reference_pool(
    q: Seq<i16>,
    vectors: Seq<Vec16I>,
    labels: Seq<u8>,
) -> Seq<TopKEntry> {
    Seq::new(vectors.len(), |k: int| reference_entry(q, vectors, k, labels[k]))
}

/// The number of fraud labels among the five references nearest to the query.
pub open spec fn nearest_frauds(q: Seq<i16>, vectors: Seq<Vec16I>, labels: Seq<u8>) -> nat {
    fraud_labels(offered_all(Seq::empty(), reference_pool(q, vectors, labels)))
}

/// The same keys, whatever the labels.
spec fn same_keys(a: Seq<TopKEntry>, b: Seq<TopKEntry>) -> bool {
    &&& a.len() == b.len()
    &&& forall|i: int| 0 <= i < a.len() ==> (#[trigger] a[i]).key == b[i].key
}

proof fn lemma_same_position(a: Seq<TopKEntry>, b: Seq<TopKEntry>, key: u64)
    requires
        same_keys(a, b),
    ensures
        insert_position(a, key) == insert_position(b, key),
    decreases a.len(),
{
    if a.len() > 0 {
        assert(a[a.len() - 1].key == b[b.len() - 1].key);
        assert forall|i: int| 0 <= i < a.drop_last().len() implies (#[trigger] a.drop_last()[i]).key
            == b.drop_last()[i].key by {
            assert(a[i].key == b[i].key);
        }
        lemma_same_position(a.drop_last(), b.drop_last(), key);
    }
}

/// Labels do not decide who stays.
proof fn lemma_same_offered(a: Seq<TopKEntry>, b: Seq<TopKEntry>, x: TopKEntry, y: TopKEntry)
    requires
        ranked(a),
        same_keys(a, b),
        x.key == y.key,
    ensures
        same_keys(offered(a, x), offered(b, y)),
{
    if a.len() == TOP_K {
        assert(a[TOP_K - 1].key == b[TOP_K - 1].key);
    }
    lemma_same_position(a, b, x.key);
    lemma_insert_position(a, x.key);
    if x.key < worst_key_of(a) {
        let p = insert_position(a, x.key);
        let ga = a.insert(p, x);
        let gb = b.insert(p, y);
        a.insert_ensures(p, x);
        b.insert_ensures(p, y);
        assert forall|i: int| 0 <= i < ga.len() implies (#[trigger] ga[i]).key == gb[i].key by {
            if i < p {
                assert(ga[i] == a[i] && gb[i] == b[i]);
            } else if i > p {
                assert(ga[i] == a[i - 1] && gb[i] == b[i - 1]);
            }
        }
    }
}

proof fn lemma_same_offered_all(a: Seq<TopKEntry>, b: Seq<TopKEntry>)
    requires
        same_keys(a, b),
    ensures
        same_keys(offered_all(Seq::empty(), a), offered_all(Seq::empty(), b)),
        ranked(offered_all(Seq::empty(), a)),
        forall|x: TopKEntry| #[trigger]
            offered_all(Seq::empty(), b).contains(x) ==> b.contains(x),
    decreases a.len(),
{
    if a.len() > 0 {
        let ia = a.drop_last();
        let ib = b.drop_last();
        assert forall|i: int| 0 <= i < ia.len() implies (#[trigger] ia[i]).key == ib[i].key by {
            assert(a[i].key == b[i].key);
        }
        assert(a[a.len() - 1].key == b[b.len() - 1].key);
        lemma_same_offered_all(ia, ib);
        let ta = offered_all(Seq::empty(), ia);
        let tb = offered_all(Seq::empty(), ib);
        lemma_same_offered(ta, tb, a.last(), b.last());
        lemma_offered(ta, a.last());
        assert(ranked(tb)) by {
            assert forall|i: int, j: int| 0 <= i <= j < tb.len() implies #[trigger] tb[i].key
                <= #[trigger] tb[j].key by {
                assert(ta[i].key == tb[i].key && ta[j].key == tb[j].key);
            }
            assert forall|i: int| 0 <= i < tb.len() implies #[trigger] tb[i].key
                < crate::topk::EMPTY_KEY by {
                assert(ta[i].key == tb[i].key);
            }
        }
        lemma_offered(tb, b.last());
        assert forall|x: TopKEntry| #[trigger]
            offered_all(Seq::empty(), b).contains(x) implies b.contains(x) by {
            if tb.contains(x) {
                assert(ib.contains(x));
                let i = choose|i: int| 0 <= i < ib.len() && ib[i] == x;
                assert(b[i] == x);
            } else {
                assert(b[b.len() - 1] == x);
            }
        }
    }
}

/// The number of fraud labels among the five references nearest to the query,
/// found by comparing it with every reference.
pub fn nearest_fraud_count(
    qv: &Vec16I,
    vectors: &[Vec16I],
    labels: &[u8],
) -> (count: usize)
    requires
        vectors@.len() == labels@.len(),
        vectors@.len() <= u32::MAX,
        forall|k: int|
            0 <= k < vectors@.len() ==> squared_distance(qv@, (#[trigger] vectors@[k])@)
                <= i32::MAX,
    ensures
        count == nearest_frauds(qv@, vectors@, labels@),
        count <= TOP_K,
{
    let ghost q = qv@;
    let ghost all = reference_pool(q, vectors@, labels@);
    let ghost blank = Seq::new(
        vectors@.len(),
        |k: int| reference_entry(q, vectors@, k, 0),
    );
    let mut topk = TopK::new();
    let mut id: usize = 0;
    assert(blank.take(0) =~= Seq::<TopKEntry>::empty());
    while id < vectors.len()
        invariant
            id <= vectors@.len(),
            vectors@.len() <= u32::MAX,
            q == qv@,
            blank.len() == vectors@.len(),
            forall|k: int|
                0 <= k < blank.len() ==> #[trigger] blank[k] == reference_entry(
                    q,
                    vectors@,
                    k,
                    0,
                ),
            forall|k: int|
                0 <= k < vectors@.len() ==> squared_distance(q, (#[trigger] vectors@[k])@)
                    <= i32::MAX,
            topk@ == offered_all(Seq::empty(), blank.take(id as int)),
        decreases vectors.len() - id,
    {
        assert(squared_distance(q, vectors@[id as int]@) <= i32::MAX);
        let d: i32 = l2sq_scalar(qv, &vectors[id]);
        topk.insert(d, id as u32);
        proof {
            let next = blank.take(id + 1);
            assert(next.drop_last() =~= blank.take(id as int));
            assert(next.last() == blank[id as int]);
        }
        id = id + 1;
    }
    assert(blank.take(id as int) =~= blank);
    let ids = topk.ids();
    let ghost found = topk@;
    let ghost best = offered_all(Seq::empty(), all);
    proof {
        assert forall|i: int| 0 <= i < blank.len() implies (#[trigger] blank[i]).key
            == all[i].key by {}
        lemma_same_offered_all(blank, all);
        assert forall|i: int| 0 <= i < best.len() implies {
            let k = found[i].key as int % 0x1_0000_0000;
            &&& 0 <= k < vectors@.len()
            &&& (#[trigger] best[i]).label == labels@[k]
        } by {
            assert(best.contains(best[i]));
            let k = choose|k: int| 0 <= k < all.len() && all[k] == best[i];
            assert(found[i].key == best[i].key);
            assert(squared_distance(q, vectors@[k]@) <= i32::MAX);
            lemma_partial_distance_monotone(q, vectors@[k]@, 0, 16);
            law_key_order(
                squared_distance(q, vectors@[k]@) as i32,
                k as u32,
                squared_distance(q, vectors@[k]@) as i32,
                k as u32,
            );
        }
    }
    let ghost places = Seq::new(found.len(), |j: int| ids@[j] as int);
    assert forall|j: int| 0 <= j < best.len() implies 0 <= #[trigger] places[j] < vectors@.len()
        && best[j].label == labels@[places[j]] by {
        assert(ids@[j] == found[j].key as int % 0x1_0000_0000);
        assert(best[j].label == labels@[found[j].key as int % 0x1_0000_0000]);
    }
    let mut count: usize = 0;
    let mut i: usize = 0;
    assert(best.take(0) =~= Seq::<TopKEntry>::empty());
    while i < 5
        invariant
            i <= 5,
            best.len() == found.len() <= 5,
            vectors@.len() == labels@.len(),
            vectors@.len() <= u32::MAX,
            places.len() == found.len(),
            forall|j: int| 0 <= j < found.len() ==> ids@[j] == #[trigger] places[j],
            forall|j: int| found.len() <= j < 5 ==> #[trigger] ids@[j] == u32::MAX,
            forall|j: int|
                0 <= j < best.len() ==> 0 <= #[trigger] places[j] < vectors@.len()
                    && best[j].label == labels@[places[j]],
            count <= i,
            i <= best.len() ==> count == fraud_labels(best.take(i as int)),
            i >= best.len() ==> count == fraud_labels(best),
        decreases 5 - i,
    {
        let id: u32 = ids[i];
        proof {
            if i < best.len() {
                let next = best.take(i + 1);
                assert(next.drop_last() =~= best.take(i as int));
                assert(next.last() == best[i as int]);
                assert(ids@[i as int] == places[i as int]);
                if i + 1 == best.len() {
                    assert(next =~= best);
                }
            } else {
                assert(best.take(best.len() as int) =~= best);
            }
        }
        if id != u32::MAX && labels[id as usize] == 1 {
            count = count + 1;
        }
        i = i + 1;
    }
    count
}

/// The entries of the vectors of an index are those of its references.
proof fn lemma_pools_match(
    m: IndexModel,
    q: Seq<i16>,
    vectors: Seq<Vec16I>,
    labels: Seq<u8>,
    leaf_size: int,
)
    requires
        vectors.len() <= 0x7FFF_FFFF,
        leaf_size >= 1,
        is_index_of(m, vectors, labels, leaf_size),
        distances_fit(m, q),
    ensures
        distinct_keys(pool(m, q)),
        distinct_keys(reference_pool(q, vectors, labels)),
        forall|e: TopKEntry|
            pool(m, q).contains(e) <==> reference_pool(q, vectors, labels).contains(e),
{
    let (s, ranges, node_ranges) = choose|
        s: Seq<Entry>,
        ranges: Seq<(u16, usize, usize)>,
        node_ranges: Seq<(int, int)>,
    | #[trigger] index_from(m, vectors, labels, leaf_size, s, ranges, node_ranges);
    law_built_index_is_sound(m, vectors, labels, leaf_size);
    lemma_pool_distinct(m, q);
    lemma_entries_for(vectors, labels, s);
    let all = entries_for(vectors, labels);
    assert(distinct_ids(all)) by {
        assert forall|i: int, j: int|
            0 <= i < all.len() && 0 <= j < all.len() && i != j implies #[trigger] all[i].original_id
            != #[trigger] all[j].original_id by {}
    }
    lemma_same_entries(all, s);
    let a = pool(m, q);
    let b = reference_pool(q, vectors, labels);
    assert forall|j: int| 0 <= j < a.len() implies {
        &&& 0 <= m.ids[j] < b.len()
        &&& #[trigger] a[j] == b[m.ids[j] as int]
    } by {
        assert(m.vectors[j] == vectors[m.ids[j] as int]@);
        assert(m.labels[j] == labels[m.ids[j] as int]);
    }
    assert forall|k: int| 0 <= k < b.len() implies exists|j: int|
        0 <= j < a.len() && #[trigger] m.ids[j] == k && a[j] == #[trigger] b[k] by {
        let e = all[k];
        assert(all.contains(e));
        assert(s.contains(e));
        let j = choose|j: int| 0 <= j < s.len() && s[j] == e;
        assert(m.ids[j] == s[j].original_id);
        assert(a[j] == b[m.ids[j] as int]);
    }
    assert forall|e: TopKEntry| a.contains(e) <==> b.contains(e) by {
        if a.contains(e) {
            let j = choose|j: int| 0 <= j < a.len() && a[j] == e;
            assert(b[m.ids[j] as int] == e);
        }
        if b.contains(e) {
            let k = choose|k: int| 0 <= k < b.len() && b[k] == e;
            let j = choose|j: int|
                0 <= j < a.len() && #[trigger] m.ids[j] == k && a[j] == b[k];
            assert(a[j] == e);
        }
    }
    assert forall|k: int, l: int|
        0 <= k < b.len() && 0 <= l < b.len() && k != l implies #[trigger] b[k].key
        != #[trigger] b[l].key by {
        let j = choose|j: int| 0 <= j < a.len() && #[trigger] m.ids[j] == k && a[j] == b[k];
        let i = choose|i: int| 0 <= i < a.len() && #[trigger] m.ids[i] == l && a[i] == b[l];
        assert(a[j].key != a[i].key);
    }
}

/// For normalized references, the answers of their index are the ones that
/// comparing the query with every reference gives, whichever its engine: the
/// same neighbours and the same number of fraud labels.
pub proof fn law_index_answers_as_the_references_do(
    index: Index<'_>,
    p: Payload<'_>,
    t: Seq<TopKEntry>,
    vectors: Seq<Vec16I>,
    labels: Seq<u8>,
    leaf_size: int,
)
    requires
        vectors.len() <= 0x7FFF_FFFF,
        leaf_size >= 1,
        all_sections(index.bytes()),
        is_index_of(model_of(index.bytes()), vectors, labels, leaf_size),
        forall|k: int| 0 <= k < vectors.len() ==> normalized((#[trigger] vectors[k])@),
        request_time_ok(p),
        payload_on_scale(p, index.table()),
    ensures
        index.ready(p),
        index.sound(),
        index.nearest_frauds(p) == nearest_frauds(
            payload_vector(p, index.table()),
            vectors,
            labels,
        ),
        index.finds(p, t) ==> {
            let q = payload_vector(p, index.table());
            &&& t == offered_all(Seq::empty(), reference_pool(q, vectors, labels))
            &&& fraud_labels(t) == nearest_frauds(q, vectors, labels)
        },
{
    let m = model_of(index.bytes());
    let q = payload_vector(p, index.table());
    law_built_index_is_sound(m, vectors, labels, leaf_size);
    law_payload_cell_is_vector_cell(p, index.table());
    law_normalized_distances_fit(m, q);
    law_sound_index_is_ready(index, p);
    lemma_pools_match(m, q, vectors, labels, leaf_size);
    law_offering_order_is_irrelevant(pool(m, q), reference_pool(q, vectors, labels));
    if index.finds(p, t) {
        law_search_counts_the_nearest(index, p, t);
    }
}

} // verus!
