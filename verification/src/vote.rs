//! Which references vote on a request.
use crate::builder::is_index_of;
use crate::cell::{law_normalized_distance_fits, normalized};
use crate::distance::{lemma_partial_distance_monotone, squared_distance};
use crate::index_format::{all_sections, model_of};
use crate::normalization::Constants;
use crate::oracle::{
    law_index_answers_as_the_references_do, nearest_fraud_count, nearest_frauds, reference_pool,
};
use crate::search::{
    is_word, law_answer_agrees_with_verdict, law_search_counts_the_nearest, response_body,
    response_text, says_approved, Index, SearchEngine, Verdict,
};
use crate::topk::{
    covered, distinct_keys, fraud_labels, law_frauds_are_counted, law_key_order,
    law_offering_keeps_the_best, offered_all, TopKEntry, EMPTY_KEY,
};
use crate::trace::SearchTraceSink;
use crate::tree::{law_normalized_distances_fit, lemma_pool_distinct, pool};
use crate::types::{Payload, Vec16I};
use crate::vectorize::{
    law_payload_cell_is_vector_cell, payload_on_scale, payload_vector, request_time_ok,
};
use vstd::prelude::*;
use vstd::set_lib::{lemma_int_range, lemma_len_subset, set_int_range};

verus! {

/// The entries before entry `j` in the order of keys.
spec fn before(all: Seq<TopKEntry>, j: int) -> Set<int> {
    Set::new(|k: int| 0 <= k < all.len() && all[k].key < all[j].key)
}

/// The frauds that have fewer than five entries before them.
spec fn voters(all: Seq<TopKEntry>) -> Set<int> {
    Set::new(|j: int| 0 <= j < all.len() && all[j].label == 1 && before(all, j).len() < 5)
}

/// Where the neighbours stand among all entries.
spec fn stands_at(all: Seq<TopKEntry>, t: Seq<TopKEntry>, at: Seq<int>) -> bool {
    &&& at.len() == t.len()
    &&& forall|i: int| 0 <= i < at.len() ==> 0 <= #[trigger] at[i] < all.len()
    &&& forall|i: int| 0 <= i < at.len() ==> all[#[trigger] at[i]] == t[i]
}

proof fn lemma_frauds_at(all: Seq<TopKEntry>, t: Seq<TopKEntry>, at: Seq<int>)
    requires
        stands_at(all, t, at),
        at.no_duplicates(),
    ensures
        ({
            let frauds = Set::new(|j: int| at.contains(j) && all[j].label == 1);
            frauds.finite() && frauds.len() == fraud_labels(t)
        }),
    decreases t.len(),
{
    let frauds = Set::new(|j: int| at.contains(j) && all[j].label == 1);
    if t.len() == 0 {
        assert(frauds =~= Set::empty());
    } else {
        let last = at.len() - 1;
        let rest = at.drop_last();
        assert forall|i: int| 0 <= i < rest.len() implies 0 <= #[trigger] rest[i] < all.len()
            && all[rest[i]] == t.drop_last()[i] by {
            assert(rest[i] == at[i]);
        }
        lemma_frauds_at(all, t.drop_last(), rest);
        let fewer = Set::new(|j: int| rest.contains(j) && all[j].label == 1);
        assert(all[at[last]] == t[last]);
        assert forall|j: int| at.contains(j) <==> rest.contains(j) || j == at[last] by {
            if at.contains(j) && j != at[last] {
                let i = choose|i: int| 0 <= i < at.len() && at[i] == j;
                assert(rest[i] == j);
            }
            if rest.contains(j) {
                let i = choose|i: int| 0 <= i < rest.len() && rest[i] == j;
                assert(at[i] == j);
            }
        }
        assert(!rest.contains(at[last])) by {
            if rest.contains(at[last]) {
                let i = choose|i: int| 0 <= i < rest.len() && rest[i] == at[last];
                assert(at[i] == at[last]);
            }
        }
        if t[last].label == 1 {
            assert(frauds =~= fewer.insert(at[last]));
        } else {
            assert(frauds =~= fewer);
        }
    }
}

/// The neighbours are the entries that have fewer than five before them.
proof fn lemma_few_before(all: Seq<TopKEntry>, t: Seq<TopKEntry>, at: Seq<int>, j: int)
    requires
        distinct_keys(all),
        forall|k: int| 0 <= k < all.len() ==> (#[trigger] all[k]).key < EMPTY_KEY,
        t == offered_all(Seq::empty(), all),
        stands_at(all, t, at),
        at.no_duplicates(),
        0 <= j < all.len(),
    ensures
        at.contains(j) <==> before(all, j).len() < 5,
{
    law_offering_keeps_the_best(all);
    let b = before(all, j);
    lemma_int_range(0, all.len() as int);
    assert(b.subset_of(set_int_range(0, all.len() as int)));
    lemma_len_subset(b, set_int_range(0, all.len() as int));
    at.unique_seq_to_set();
    if at.contains(j) {
        let i = choose|i: int| 0 <= i < at.len() && at[i] == j;
        assert(all[at[i]] == t[i]);
        let first = at.take(i);
        assert(first.no_duplicates());
        first.unique_seq_to_set();
        assert forall|k: int| b.contains(k) implies first.to_set().contains(k) by {
            assert(covered(t, all[k]));
            assert(t[i].key <= t[t.len() - 1].key);
            assert(t.contains(all[k]));
            let l = choose|l: int| 0 <= l < t.len() && t[l] == all[k];
            assert(all[at[l]] == t[l]);
            if l >= i {
                assert(t[i].key <= t[l].key);
            }
            if at[l] != k {
                assert(all[at[l]].key != all[k].key);
            }
            assert(first[l] == k);
        }
        lemma_len_subset(b, first.to_set());
    } else {
        assert(!t.contains(all[j])) by {
            if t.contains(all[j]) {
                let l = choose|l: int| 0 <= l < t.len() && t[l] == all[j];
                assert(all[at[l]] == t[l]);
                if at[l] != j {
                    assert(all[at[l]].key != all[j].key);
                }
                assert(at[l] == j);
            }
        }
        assert(covered(t, all[j]));
        assert(t.len() == 5);
        assert forall|k: int| at.to_set().contains(k) implies b.contains(k) by {
            let l = choose|l: int| 0 <= l < at.len() && at[l] == k;
            assert(all[at[l]] == t[l]);
            assert(t[l].key <= t[4].key);
            assert(all[k].key != all[j].key);
        }
        lemma_len_subset(at.to_set(), b);
    }
}

proof fn lemma_voters(all: Seq<TopKEntry>)
    requires
        distinct_keys(all),
        forall|k: int| 0 <= k < all.len() ==> (#[trigger] all[k]).key < EMPTY_KEY,
    ensures
        fraud_labels(offered_all(Seq::empty(), all)) == voters(all).len(),
{
    law_offering_keeps_the_best(all);
    let t = offered_all(Seq::empty(), all);
    let at = Seq::new(t.len(), |i: int| choose|j: int| 0 <= j < all.len() && all[j] == t[i]);
    assert forall|i: int| 0 <= i < at.len() implies 0 <= #[trigger] at[i] < all.len()
        && all[at[i]] == t[i] by {
        assert(all.contains(t[i]));
    }
    assert forall|a: int, b: int| 0 <= a < at.len() && 0 <= b < at.len() && a != b implies at[a]
        != at[b] by {
        assert(t[a].key != t[b].key);
    }
    lemma_frauds_at(all, t, at);
    let frauds = Set::new(|j: int| at.contains(j) && all[j].label == 1);
    assert forall|j: int| frauds.contains(j) <==> voters(all).contains(j) by {
        if at.contains(j) {
            let i = choose|i: int| 0 <= i < at.len() && at[i] == j;
            assert(0 <= at[i] < all.len());
        }
        if 0 <= j < all.len() {
            lemma_few_before(all, t, at, j);
        }
    }
    assert(frauds =~= voters(all));
}

/// Who votes where all references are compared: the number is that of the
/// frauds to which fewer than five references are preferred, each of these
/// nearer to the query, or as near and earlier among the references.
pub proof fn law_nearest_references_vote(q: Seq<i16>, vectors: Seq<Vec16I>, labels: Seq<u8>)
    requires
        vectors.len() == labels.len(),
        vectors.len() <= u32::MAX,
        forall|k: int|
            0 <= k < vectors.len() ==> squared_distance(q, (#[trigger] vectors[k])@) <= i32::MAX,
    ensures
        nearest_frauds(q, vectors, labels) == Set::new(
            |j: int|
                0 <= j < vectors.len() && labels[j] == 1 && Set::new(
                    |k: int|
                        0 <= k < vectors.len() && (squared_distance(q, vectors[k]@)
                            < squared_distance(q, vectors[j]@) || (squared_distance(q, vectors[k]@)
                            == squared_distance(q, vectors[j]@) && k < j)),
                ).len() < 5,
        ).len(),
{
    let all = reference_pool(q, vectors, labels);
    assert forall|j: int, k: int|
        0 <= j < vectors.len() && 0 <= k < vectors.len() implies ((#[trigger] all[k]).key < (
    #[trigger] all[j]).key <==> (squared_distance(q, vectors[k]@) < squared_distance(
        q,
        vectors[j]@,
    ) || (squared_distance(q, vectors[k]@) == squared_distance(q, vectors[j]@) && k < j))) by {
        lemma_reference_order(q, vectors, j, k);
    }
    assert forall|k: int| 0 <= k < all.len() implies (#[trigger] all[k]).key < EMPTY_KEY by {
        lemma_reference_order(q, vectors, k, k);
    }
    assert forall|j: int, k: int|
        0 <= j < all.len() && 0 <= k < all.len() && j != k implies #[trigger] all[j].key
        != #[trigger] all[k].key by {
        lemma_reference_order(q, vectors, j, k);
        lemma_reference_order(q, vectors, k, j);
    }
    lemma_voters(all);
    let voting = Set::new(
        |j: int|
            0 <= j < vectors.len() && labels[j] == 1 && Set::new(
                |k: int|
                    0 <= k < vectors.len() && (squared_distance(q, vectors[k]@) < squared_distance(
                        q,
                        vectors[j]@,
                    ) || (squared_distance(q, vectors[k]@) == squared_distance(q, vectors[j]@) && k
                        < j)),
            ).len() < 5,
    );
    assert forall|j: int| voters(all).contains(j) <==> voting.contains(j) by {
        if 0 <= j < vectors.len() {
            let nearer = Set::new(
                |k: int|
                    0 <= k < vectors.len() && (squared_distance(q, vectors[k]@) < squared_distance(
                        q,
                        vectors[j]@,
                    ) || (squared_distance(q, vectors[k]@) == squared_distance(q, vectors[j]@) && k
                        < j)),
            );
            assert forall|k: int| before(all, j).contains(k) <==> nearer.contains(k) by {
                if 0 <= k < vectors.len() {
                    assert(all[k].key < all[j].key || !(all[k].key < all[j].key));
                }
            }
            assert(before(all, j) =~= nearer);
        }
    }
    assert(voters(all) =~= voting);
}

proof fn lemma_reference_order(q: Seq<i16>, vectors: Seq<Vec16I>, j: int, k: int)
    requires
        vectors.len() <= u32::MAX,
        forall|k: int|
            0 <= k < vectors.len() ==> squared_distance(q, (#[trigger] vectors[k])@) <= i32::MAX,
        0 <= j < vectors.len(),
        0 <= k < vectors.len(),
    ensures
        forall|labels: Seq<u8>|
            (#[trigger] reference_pool(q, vectors, labels))[k].key < reference_pool(
                q,
                vectors,
                labels,
            )[j].key <==> (squared_distance(q, vectors[k]@) < squared_distance(q, vectors[j]@) || (
            squared_distance(q, vectors[k]@) == squared_distance(q, vectors[j]@) && k < j)),
        forall|labels: Seq<u8>|
            (#[trigger] reference_pool(q, vectors, labels))[k].key < EMPTY_KEY,
{
    assert(squared_distance(q, vectors[j]@) <= i32::MAX);
    assert(squared_distance(q, vectors[k]@) <= i32::MAX);
    lemma_partial_distance_monotone(q, vectors[j]@, 0, 16);
    lemma_partial_distance_monotone(q, vectors[k]@, 0, 16);
    law_key_order(
        squared_distance(q, vectors[k]@) as i32,
        k as u32,
        squared_distance(q, vectors[j]@) as i32,
        j as u32,
    );
}

/// Who votes on a request: of the vectors of a sound index the frauds to which
/// fewer than five others are preferred, each of these nearer to the request,
/// or as near and with a smaller identifier. The request is approved where
/// fewer than three vote.
pub proof fn law_nearest_vectors_vote(index: Index<'_>, p: Payload<'_>, verdict: Verdict)
    requires
        index.sound(),
        request_time_ok(p),
        payload_on_scale(p, index.table()),
        index.finds(p, index.neighbours(p)),
        index.answers(p, verdict),
    ensures
        ({
            let m = model_of(index.bytes());
            let q = payload_vector(p, index.table());
            let n = m.vectors.len();
            &&& verdict.fraud_count == Set::new(
                |j: int|
                    0 <= j < n && m.labels[j] == 1 && Set::new(
                        |k: int|
                            0 <= k < n && (squared_distance(q, m.vectors[k]) < squared_distance(
                                q,
                                m.vectors[j],
                            ) || (squared_distance(q, m.vectors[k]) == squared_distance(
                                q,
                                m.vectors[j],
                            ) && m.ids[k] < m.ids[j])),
                    ).len() < 5,
            ).len()
            &&& verdict.approved <==> verdict.fraud_count < 3
        }),
{
    let m = model_of(index.bytes());
    let q = payload_vector(p, index.table());
    let n = m.vectors.len();
    let all = pool(m, q);
    law_search_counts_the_nearest(index, p, index.neighbours(p));
    law_payload_cell_is_vector_cell(p, index.table());
    law_normalized_distances_fit(m, q);
    lemma_pool_distinct(m, q);
    assert forall|j: int, k: int| 0 <= j < n && 0 <= k < n implies ((#[trigger] all[k]).key < (
    #[trigger] all[j]).key <==> (squared_distance(q, m.vectors[k]) < squared_distance(
        q,
        m.vectors[j],
    ) || (squared_distance(q, m.vectors[k]) == squared_distance(q, m.vectors[j]) && m.ids[k]
        < m.ids[j]))) by {
        lemma_vector_order(index, p, j, k);
    }
    assert forall|k: int| 0 <= k < all.len() implies (#[trigger] all[k]).key < EMPTY_KEY by {
        lemma_vector_order(index, p, k, k);
    }
    lemma_voters(all);
    let voting = Set::new(
        |j: int|
            0 <= j < n && m.labels[j] == 1 && Set::new(
                |k: int|
                    0 <= k < n && (squared_distance(q, m.vectors[k]) < squared_distance(
                        q,
                        m.vectors[j],
                    ) || (squared_distance(q, m.vectors[k]) == squared_distance(q, m.vectors[j])
                        && m.ids[k] < m.ids[j])),
            ).len() < 5,
    );
    assert forall|j: int| voters(all).contains(j) <==> voting.contains(j) by {
        if 0 <= j < n {
            let nearer = Set::new(
                |k: int|
                    0 <= k < n && (squared_distance(q, m.vectors[k]) < squared_distance(
                        q,
                        m.vectors[j],
                    ) || (squared_distance(q, m.vectors[k]) == squared_distance(q, m.vectors[j])
                        && m.ids[k] < m.ids[j])),
            );
            assert forall|k: int| before(all, j).contains(k) <==> nearer.contains(k) by {
                if 0 <= k < n {
                    assert(all[k].key < all[j].key || !(all[k].key < all[j].key));
                }
            }
            assert(before(all, j) =~= nearer);
        }
    }
    assert(voters(all) =~= voting);
}

proof fn lemma_vector_order(index: Index<'_>, p: Payload<'_>, j: int, k: int)
    requires
        index.sound(),
        request_time_ok(p),
        payload_on_scale(p, index.table()),
        0 <= j < model_of(index.bytes()).vectors.len(),
        0 <= k < model_of(index.bytes()).vectors.len(),
    ensures
        ({
            let m = model_of(index.bytes());
            let q = payload_vector(p, index.table());
            let all = pool(m, q);
            &&& all[k].key < all[j].key <==> (squared_distance(q, m.vectors[k]) < squared_distance(
                q,
                m.vectors[j],
            ) || (squared_distance(q, m.vectors[k]) == squared_distance(q, m.vectors[j])
                && m.ids[k] < m.ids[j]))
            &&& all[k].key < EMPTY_KEY
        }),
{
    let m = model_of(index.bytes());
    let q = payload_vector(p, index.table());
    law_payload_cell_is_vector_cell(p, index.table());
    assert(normalized(m.vectors[j]) && normalized(m.vectors[k]));
    law_normalized_distance_fits(q, m.vectors[j]);
    law_normalized_distance_fits(q, m.vectors[k]);
    law_key_order(
        squared_distance(q, m.vectors[k]) as i32,
        m.ids[k],
        squared_distance(q, m.vectors[j]) as i32,
        m.ids[j],
    );
}

/// Who votes on a request that is searched in the index of some references: of
/// all these references the frauds to which fewer than five are preferred,
/// each of these nearer to the request, or as near and earlier among them.
/// The request is approved where fewer than three vote.
pub proof fn law_references_of_an_index_vote(
    index: Index<'_>,
    p: Payload<'_>,
    verdict: Verdict,
    vectors: Seq<Vec16I>,
    labels: Seq<u8>,
    leaf_size: int,
)
    requires
        vectors.len() == labels.len(),
        vectors.len() <= 0x7FFF_FFFF,
        leaf_size >= 1,
        all_sections(index.bytes()),
        is_index_of(model_of(index.bytes()), vectors, labels, leaf_size),
        forall|k: int| 0 <= k < vectors.len() ==> normalized((#[trigger] vectors[k])@),
        request_time_ok(p),
        payload_on_scale(p, index.table()),
        index.finds(p, index.neighbours(p)),
        index.answers(p, verdict),
    ensures
        ({
            let q = payload_vector(p, index.table());
            verdict.fraud_count == Set::new(
                |j: int|
                    0 <= j < vectors.len() && labels[j] == 1 && Set::new(
                        |k: int|
                            0 <= k < vectors.len() && (squared_distance(q, vectors[k]@)
                                < squared_distance(q, vectors[j]@) || (squared_distance(
                                q,
                                vectors[k]@,
                            ) == squared_distance(q, vectors[j]@) && k < j)),
                    ).len() < 5,
            ).len()
        }),
        verdict.approved <==> verdict.fraud_count < 3,
{
    let q = payload_vector(p, index.table());
    law_index_answers_as_the_references_do(
        index,
        p,
        index.neighbours(p),
        vectors,
        labels,
        leaf_size,
    );
    law_payload_cell_is_vector_cell(p, index.table());
    assert forall|k: int| 0 <= k < vectors.len() implies squared_distance(
        q,
        (#[trigger] vectors[k])@,
    ) <= i32::MAX by {
        law_normalized_distance_fits(q, vectors[k]@);
    }
    law_nearest_references_vote(q, vectors, labels);
}

/// What a search answers, whatever the index and the request: the number of
/// frauds among the neighbours that it ends with, and approval exactly where
/// they are fewer than three. The text says the same.
pub proof fn law_verdict(index: Index<'_>, p: Payload<'_>, verdict: Verdict, body: &'static str)
    requires
        call_ensures(Index::search, (&index, &p), verdict),
        call_ensures(response_body, (verdict.fraud_count,), body),
    ensures
        verdict.fraud_count <= 5,
        verdict.fraud_count == index.neighbours(p).filter(|e: TopKEntry| e.label == 1).len(),
        verdict.approved <==> verdict.fraud_count < 3,
        says_approved(body@) <==> verdict.approved,
        body@ == response_text(verdict.fraud_count as int),
{
    law_frauds_are_counted(index.neighbours(p), arbitrary());
    law_answer_agrees_with_verdict(verdict.fraud_count as int);
}

/// What a search in the index of some references answers: among all of them
/// the frauds are counted to which fewer than five are preferred, and that is
/// what comparing the request with every reference gives.
pub proof fn law_search_in_references(
    index: Index<'_>,
    p: Payload<'_>,
    verdict: Verdict,
    vectors: &[Vec16I],
    labels: &[u8],
    leaf_size: int,
    q: Vec16I,
    count: usize,
)
    requires
        vectors@.len() == labels@.len(),
        vectors@.len() <= 0x7FFF_FFFF,
        leaf_size >= 1,
        all_sections(index.bytes()),
        is_index_of(model_of(index.bytes()), vectors@, labels@, leaf_size),
        forall|k: int| 0 <= k < vectors@.len() ==> normalized((#[trigger] vectors@[k])@),
        request_time_ok(p),
        payload_on_scale(p, index.table()),
        q@ == payload_vector(p, index.table()),
        call_ensures(Index::search, (&index, &p), verdict),
        call_ensures(nearest_fraud_count, (&q, vectors, labels), count),
    ensures
        verdict.fraud_count == count,
        verdict.fraud_count == Set::new(
            |j: int|
                0 <= j < vectors@.len() && labels@[j] == 1 && Set::new(
                    |k: int|
                        0 <= k < vectors@.len() && (squared_distance(q@, vectors@[k]@)
                            < squared_distance(q@, vectors@[j]@) || (squared_distance(
                            q@,
                            vectors@[k]@,
                        ) == squared_distance(q@, vectors@[j]@) && k < j)),
                ).len() < 5,
        ).len(),
        verdict.approved <==> verdict.fraud_count < 3,
{
    law_references_of_an_index_vote(index, p, verdict, vectors@, labels@, leaf_size);
    law_payload_cell_is_vector_cell(p, index.table());
    assert forall|k: int| 0 <= k < vectors@.len() implies squared_distance(
        q@,
        (#[trigger] vectors@[k])@,
    ) <= i32::MAX by {
        law_normalized_distance_fits(q@, vectors@[k]@);
    }
    law_nearest_references_vote(q@, vectors@, labels@);
}

/// How an index is made: of the bytes and the table that are given, with the
/// engine that is given or that the setting names, or else with the trees
/// where the version of the format has them.
pub proof fn law_index_is_made(
    data: &[u8],
    constants: &Constants,
    setting: &str,
    engine: SearchEngine,
    index: Index<'_>,
    other: Index<'_>,
    told: SearchEngine,
)
    requires
        data@.len() >= 64,
        call_ensures(Index::new, (data, constants, setting), index),
        call_ensures(Index::with_engine, (data, constants, engine), other),
        call_ensures(Index::engine, (&index,), told),
    ensures
        index.bytes() == data@ && other.bytes() == data@,
        index.table() == *constants && other.table() == *constants,
        other.spec_engine() == engine,
        told == index.spec_engine(),
        is_word(setting@, "cell"@) ==> told is Cell,
        is_word(setting@, "tree"@) ==> told is Tree,
        !is_word(setting@, "cell"@) && !is_word(setting@, "tree"@) ==> (told is Tree <==> data@[4]
            + 256 * data@[5] + 65536 * data@[6] + 16777216 * data@[7] >= 4),
{
    reveal_strlit("cell");
    reveal_strlit("tree");
    if is_word(setting@, "tree"@) && is_word(setting@, "cell"@) {
        assert("cell"@[0] == "tree"@[0]);
    }
}

/// A search that reports how it went answers as one that does not.
pub proof fn law_traced_verdict<T: SearchTraceSink>(
    index: Index<'_>,
    p: Payload<'_>,
    trace: &mut T,
    traced: Verdict,
    plain: Verdict,
)
    requires
        call_ensures(Index::search_with_trace::<T>, (&index, &p, trace), traced),
        call_ensures(Index::search, (&index, &p), plain),
    ensures
        traced == plain,
        traced.approved <==> traced.fraud_count < 3,
        index.tells(p, *old(trace), *final(trace)),
{
}

} // verus!
