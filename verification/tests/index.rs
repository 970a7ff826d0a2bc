use fraud_index::builder::{build_index, within_budget};
use fraud_index::cell::{cell_key_from_i16, DAY_Q, HOUR_Q};
use fraud_index::distance::l2sq_scalar;
use fraud_index::index_check::{is_bounded, is_searchable, is_warmable};
use fraud_index::index_format::{
    write_index, CellEntry, IndexView, TreeNode, TreeRootEntry, EMPTY_NODE,
};
use fraud_index::normalization::Constants;
use fraud_index::oracle::nearest_fraud_count;
use fraud_index::perf::SearchTrace;
use fraud_index::search::{response_body, Index, SearchEngine};
use fraud_index::trace::SearchTraceSink;
use fraud_index::types::{
    fraud_label, Customer, KnownMerchants, LastTransaction, Merchant, Payload, Terminal,
    Transaction, Vec16I,
};
use fraud_index::vectorize::{vectorize_to_i16_and_key, FastDateTime};

/// A small generator of numbers, so that every run sees the same ones.
struct Numbers(u64);

impl Numbers {
    fn below(&mut self, n: u64) -> u64 {
        self.0 = self
            .0
            .wrapping_mul(6364136223846793005)
            .wrapping_add(1442695040888963407);
        (self.0 >> 33) % n
    }

    fn feature(&mut self) -> i16 {
        self.below(10001) as i16
    }

    fn vector(&mut self) -> Vec16I {
        let mut v = [0i16; 16];
        for d in [0usize, 1, 2, 7, 8, 12, 13] {
            v[d] = self.feature();
        }
        v[3] = HOUR_Q[self.below(24) as usize];
        v[4] = DAY_Q[self.below(7) as usize];
        if self.below(3) == 0 {
            v[5] = -10000;
            v[6] = -10000;
        } else {
            v[5] = self.feature();
            v[6] = self.feature();
        }
        for d in 9..12 {
            v[d] = 10000 * self.below(2) as i16;
        }
        v
    }
}

fn references(n: usize, seed: u64) -> (Vec<Vec16I>, Vec<u8>) {
    let mut numbers = Numbers(seed);
    let mut vectors = Vec::new();
    let mut labels = Vec::new();
    for _ in 0..n {
        vectors.push(numbers.vector());
        labels.push(numbers.below(2) as u8);
    }
    (vectors, labels)
}

fn payload(numbers: &mut Numbers) -> Payload<'static> {
    let known: &[&'static str] = if numbers.below(2) == 0 { &["m"] } else { &[] };
    Payload {
        transaction: Transaction {
            amount: numbers.feature(),
            installments: numbers.feature(),
            amount_vs_avg: numbers.feature(),
            requested_at: FastDateTime {
                hour: numbers.below(24) as u32,
                day_of_week: numbers.below(7) as u32,
                epoch_seconds: 0,
            },
        },
        customer: Customer {
            tx_count_24h: numbers.feature(),
            known_merchants: KnownMerchants::from_slice(known),
        },
        merchant: Merchant {
            id: "m",
            mcc: if numbers.below(2) == 0 { "5411" } else { "0000" },
            avg_amount: numbers.feature(),
        },
        terminal: Terminal {
            is_online: numbers.below(2) == 0,
            card_present: numbers.below(2) == 0,
            km_from_home: numbers.feature(),
        },
        last_transaction: if numbers.below(3) == 0 {
            None
        } else {
            Some(LastTransaction {
                minutes: numbers.feature(),
                km_from_current: numbers.feature(),
            })
        },
    }
}

fn constants() -> Constants {
    Constants::from_risks(&[(String::from("5411"), 1500)])
}

#[test]
fn the_trees_answer_as_the_references_do() {
    let c = constants();
    for (n, leaf_size) in [(0, 1), (1, 1), (4, 2), (300, 1), (2000, 16), (3000, 128)] {
        let (vectors, labels) = references(n, 7 + n as u64);
        let bytes = build_index(&vectors, &labels, leaf_size);
        assert!(is_searchable(&bytes, SearchEngine::Tree));
        assert!(is_searchable(&bytes, SearchEngine::Cell));
        let index = Index::new(&bytes, &c, "");
        assert_eq!(index.engine(), SearchEngine::Tree);
        let mut numbers = Numbers(99);
        for _ in 0..60 {
            let p = payload(&mut numbers);
            let (q, _) = vectorize_to_i16_and_key(&p, &c);
            let expected = nearest_fraud_count(&q, &vectors, &labels);
            let verdict = index.search(&p);
            assert_eq!(verdict.fraud_count, expected);
            assert_eq!(verdict.approved, expected < 3);
        }
    }
}

#[test]
fn the_oracle_counts_the_nearest() {
    let (vectors, labels) = references(200, 3);
    let q = vectors[17];
    let mut order: Vec<(i32, usize)> = vectors
        .iter()
        .enumerate()
        .map(|(i, v)| (l2sq_scalar(&q, v), i))
        .collect();
    order.sort();
    assert_eq!(order[0], (0, 17));
    let expected = order[..5].iter().filter(|o| labels[o.1] == 1).count();
    assert_eq!(nearest_fraud_count(&q, &vectors, &labels), expected);
    assert_eq!(nearest_fraud_count(&q, &vectors[..2], &[1, 1]), 2);
    assert_eq!(nearest_fraud_count(&q, &[], &[]), 0);
}

#[test]
fn a_trace_does_not_change_the_answer() {
    let c = constants();
    let (vectors, labels) = references(1500, 5);
    let bytes = build_index(&vectors, &labels, 8);
    for engine in [SearchEngine::Tree, SearchEngine::Cell] {
        let index = Index::with_engine(&bytes, &c, engine);
        let mut numbers = Numbers(11);
        for _ in 0..30 {
            let p = payload(&mut numbers);
            let mut trace = SearchTrace::default();
            assert_eq!(index.search_with_trace(&p, &mut trace), index.search(&p));
            assert_eq!(trace.stop_reason, "exact");
            assert_eq!(trace.query_key, vectorize_to_i16_and_key(&p, &c).1 as u64);
            if engine == SearchEngine::Tree {
                assert!(trace.nodes_visited > 0);
            } else {
                assert!(trace.visited_cells > 0);
            }
        }
    }
}

#[test]
fn the_cells_answer_alike_where_everything_is_near() {
    // All references and queries in two neighbouring cells.
    let c = constants();
    let mut numbers = Numbers(21);
    let mut vectors = Vec::new();
    let mut labels = Vec::new();
    for _ in 0..400 {
        let mut v = [0i16; 16];
        v[0] = numbers.feature();
        v[1] = numbers.feature();
        v[3] = HOUR_Q[12 + numbers.below(2) as usize];
        v[4] = DAY_Q[3];
        v[5] = -10000;
        v[6] = -10000;
        v[11] = 10000;
        vectors.push(v);
        labels.push(numbers.below(2) as u8);
    }
    let bytes = build_index(&vectors, &labels, 4);
    let cells = Index::new(&bytes, &c, "CELL");
    assert_eq!(cells.engine(), SearchEngine::Cell);
    let trees = Index::new(&bytes, &c, "Tree");
    assert_eq!(trees.engine(), SearchEngine::Tree);
    for _ in 0..40 {
        let mut p = payload(&mut numbers);
        p.transaction.requested_at.hour = 12 + numbers.below(2) as u32;
        p.transaction.requested_at.day_of_week = 3;
        p.terminal.is_online = false;
        p.terminal.card_present = false;
        p.customer.known_merchants = KnownMerchants::default();
        p.last_transaction = None;
        assert_eq!(cells.search(&p), trees.search(&p));
    }
}

#[test]
fn the_engine_is_a_setting() {
    for (setting, engine) in [
        ("cell", SearchEngine::Cell),
        ("CeLL", SearchEngine::Cell),
        ("tree", SearchEngine::Tree),
        ("TREE", SearchEngine::Tree),
    ] {
        assert_eq!(SearchEngine::from_env(setting, SearchEngine::Cell), engine);
        assert_eq!(SearchEngine::from_env(setting, SearchEngine::Tree), engine);
    }
    for setting in ["", "cells", "tre", "trée", "lcel"] {
        assert_eq!(
            SearchEngine::from_env(setting, SearchEngine::Cell),
            SearchEngine::Cell
        );
        assert_eq!(
            SearchEngine::from_env(setting, SearchEngine::Tree),
            SearchEngine::Tree
        );
    }
}

#[test]
fn an_old_version_is_searched_by_cells() {
    let c = constants();
    let (vectors, labels) = references(50, 1);
    let mut bytes = build_index(&vectors, &labels, 8);
    assert_eq!(IndexView::new(&bytes).header().version, 4);
    bytes[4] = 3;
    assert_eq!(Index::new(&bytes, &c, "").engine(), SearchEngine::Cell);
    assert_eq!(Index::new(&bytes, &c, "tree").engine(), SearchEngine::Tree);
}

#[test]
fn what_is_written_is_read_back() {
    let mut vector = [0i16; 16];
    vector[0] = -32768;
    vector[15] = 32767;
    let mut cells = [CellEntry { offset: 0, count: 0 }; 8192];
    cells[8191] = CellEntry { offset: 0, count: 2 };
    let mut roots = [TreeRootEntry { root: EMPTY_NODE, count: 0 }; 8192];
    roots[7] = TreeRootEntry { root: 0, count: 2 };
    let node = TreeNode {
        bbox_min: vector,
        bbox_max: [1; 16],
        left: 3,
        right: 4,
        offset: 0x0102_0304,
        count: 6,
        min_original_id: 7,
        flags: TreeNode::LEAF_FLAG,
    };
    let bytes = write_index(
        &[vector, [9; 16]],
        &[1, 0],
        &[70_000, 5],
        &cells,
        &roots,
        &[7],
        &[node],
        1,
        128,
    );
    assert_eq!(bytes.len(), 64 + 65536 + 2 * 37 + 65536 + 4 + 88);
    let view = IndexView::new(&bytes);
    let h = view.header();
    assert_eq!((h.magic, h.version, h.n_vectors), (0x524E4833, 4, 2));
    assert_eq!((h.n_cells_populated, h.n_dim_total, h.n_dim_padded), (1, 14, 16));
    assert_eq!((h.n_cell_dims, h.q_scale), (13, 10000));
    assert_eq!(h.reserved, [1, 1, 128, 8192, 0, 0, 0, 0]);
    assert_eq!((view.n_vectors(), view.n_tree_nodes()), (2, 1));
    assert_eq!((view.n_populated_tree_roots(), view.tree_leaf_size()), (1, 128));
    assert_eq!(view.vector_at(0), vector);
    assert_eq!(view.vector_at(1), [9; 16]);
    assert_eq!((view.label_at(0), view.label_at(1)), (1, 0));
    assert_eq!((view.original_id_at(0), view.original_id_at(1)), (70_000, 5));
    assert_eq!(view.cell_entry(8191).count, 2);
    assert_eq!(view.tree_root_entry(7).root, 0);
    assert_eq!(view.tree_root_entry(8).root, EMPTY_NODE);
    assert_eq!(view.populated_tree_key_at(0), 7);
    let n = view.tree_node(0);
    assert_eq!((n.bbox_min, n.bbox_max), (vector, [1; 16]));
    assert_eq!((n.left, n.right, n.offset, n.count), (3, 4, 0x0102_0304, 6));
    assert_eq!((n.min_original_id, n.flags, n.is_leaf()), (7, 1, true));
    assert!(!TreeNode::default().is_leaf());
}

#[test]
fn a_built_index_holds_the_references() {
    let (vectors, labels) = references(500, 13);
    let bytes = build_index(&vectors, &labels, 4);
    let view = IndexView::new(&bytes);
    assert_eq!(view.n_vectors(), 500);
    assert_eq!(view.tree_leaf_size(), 4);
    let mut seen = vec![false; 500];
    for j in 0..500 {
        let id = view.original_id_at(j) as usize;
        assert!(!seen[id]);
        seen[id] = true;
        assert_eq!(view.vector_at(j), vectors[id]);
        assert_eq!(view.label_at(j), labels[id]);
        let cell = view.cell_entry(cell_key_from_i16(&vectors[id]));
        assert!(cell.offset <= j && j < cell.offset + cell.count);
    }
    // Cells come in ascending order, each with a tree over its own range.
    let mut next = 0;
    for a in 0..view.n_populated_tree_roots() {
        let key = view.populated_tree_key_at(a);
        let cell = view.cell_entry(key);
        assert_eq!(cell.offset, next);
        next = cell.offset + cell.count;
        let root = view.tree_root_entry(key);
        assert_eq!(root.count, cell.count);
        check_tree(&view, root.root, cell.offset, cell.offset + cell.count, 4);
    }
    assert_eq!(next, 500);
    assert_eq!(view.header().n_cells_populated, view.n_populated_tree_roots());
}

fn check_tree(view: &IndexView<'_>, i: u32, start: u32, end: u32, leaf_size: u32) {
    let node = view.tree_node(i);
    assert_eq!(node.count, end - start);
    let mut low = [i16::MAX; 16];
    let mut high = [i16::MIN; 16];
    let mut id = u32::MAX;
    for j in start..end {
        let v = view.vector_at(j);
        id = id.min(view.original_id_at(j));
        for d in 0..16 {
            low[d] = low[d].min(v[d]);
            high[d] = high[d].max(v[d]);
        }
    }
    assert_eq!((node.bbox_min, node.bbox_max, node.min_original_id), (low, high, id));
    if end - start <= leaf_size {
        assert!(node.is_leaf());
        assert_eq!((node.offset, node.left, node.right), (start, EMPTY_NODE, EMPTY_NODE));
        return;
    }
    assert!(!node.is_leaf());
    let mid = start + (end - start) / 2;
    let mut dim = 0;
    for d in [0usize, 1, 2, 3, 4, 5, 6, 7, 8, 12, 13] {
        if high[d] as i32 - low[d] as i32 > high[dim] as i32 - low[dim] as i32 {
            dim = d;
        }
    }
    let key = |j: u32| (view.vector_at(j)[dim], view.original_id_at(j));
    let largest = (start..mid).map(key).max();
    let smallest = (mid..end).map(key).min();
    assert!(largest < smallest);
    check_tree(view, node.left, start, mid, leaf_size);
    check_tree(view, node.right, mid, end, leaf_size);
}

#[test]
fn warming_up_reads_everything() {
    let c = constants();
    let (vectors, labels) = references(5000, 17);
    let bytes = build_index(&vectors, &labels, 16);
    let view = IndexView::new(&bytes);
    let mut expected = 0i64;
    for i in (0..5000).step_by(64) {
        expected ^= view.vector_at(i)[0] as i64;
    }
    for i in (0..5000).step_by(4096) {
        expected ^= view.label_at(i) as i64;
    }
    for i in (0..5000).step_by(1024) {
        expected ^= view.original_id_at(i) as i64;
    }
    for k in 0..view.n_populated_tree_roots() {
        expected ^= view.populated_tree_key_at(k) as i64;
    }
    for k in 0..view.n_tree_nodes() {
        let node = view.tree_node(k);
        expected ^= node.min_original_id as i64;
        expected ^= node.bbox_min[0] as i64;
        expected ^= node.bbox_max[15] as i64;
    }
    assert_eq!(Index::new(&bytes, &c, "").warmup(), expected);
    assert_ne!(expected, 0);
}

#[test]
fn a_damaged_index_is_not_searchable() {
    let (vectors, labels) = references(300, 23);
    let bytes = build_index(&vectors, &labels, 4);
    assert!(is_searchable(&bytes, SearchEngine::Tree));
    assert!(!is_searchable(&bytes[..bytes.len() - 1], SearchEngine::Tree));
    assert!(is_searchable(&bytes[..bytes.len() - 1], SearchEngine::Cell));
    assert!(is_warmable(&bytes));
    assert!(!is_warmable(&bytes[..bytes.len() - 1]));
    assert!(!is_warmable(&bytes[..63]));
    assert!(!is_searchable(&bytes[..63], SearchEngine::Cell));
    assert!(!is_searchable(&[], SearchEngine::Tree));

    let key = cell_key_from_i16(&vectors[0]) as usize;
    let mut damaged = bytes.clone();
    damaged[64 + 8 * key + 4] = 0xff;
    damaged[64 + 8 * key + 5] = 0xff;
    assert!(!is_searchable(&damaged, SearchEngine::Cell));

    let roots_at = 64 + 65536 + 300 * 37;
    let mut damaged = bytes.clone();
    damaged[roots_at + 8 * key + 3] = 0x7f;
    assert!(!is_searchable(&damaged, SearchEngine::Tree));
    assert!(is_searchable(&damaged, SearchEngine::Cell));

    let view = IndexView::new(&bytes);
    let keys_at = roots_at + 65536;
    let nodes_at = keys_at + 4 * view.n_populated_tree_roots() as usize;
    let mut damaged = bytes.clone();
    damaged[keys_at + 2] = 1;
    assert!(!is_searchable(&damaged, SearchEngine::Tree));
    let mut damaged = bytes.clone();
    damaged[nodes_at + 76] ^= 1;
    assert!(!is_searchable(&damaged, SearchEngine::Tree));
    let mut damaged = bytes.clone();
    damaged[nodes_at + 1] = 0x7f;
    assert!(!is_searchable(&damaged, SearchEngine::Tree));
    let mut damaged = bytes.clone();
    damaged[64 + 65536 + 1] = 0x7f;
    assert!(!is_searchable(&damaged, SearchEngine::Cell));
}

#[test]
fn vectors_on_the_scale() {
    let mut v = [0i16; 16];
    assert!(is_bounded(&v));
    v[5] = -10000;
    v[0] = 10000;
    assert!(is_bounded(&v));
    v[14] = 1;
    assert!(!is_bounded(&v));
    v[14] = 0;
    v[0] = -1;
    assert!(!is_bounded(&v));
}

#[test]
fn answers_by_the_number_of_frauds() {
    assert_eq!(response_body(0), r#"{"approved":true,"fraud_score":0}"#);
    assert_eq!(response_body(1), r#"{"approved":true,"fraud_score":0.2}"#);
    assert_eq!(response_body(2), r#"{"approved":true,"fraud_score":0.4}"#);
    assert_eq!(response_body(3), r#"{"approved":false,"fraud_score":0.6}"#);
    assert_eq!(response_body(4), r#"{"approved":false,"fraud_score":0.8}"#);
    assert_eq!(response_body(5), r#"{"approved":false,"fraud_score":1}"#);
    assert_eq!(response_body(6), response_body(5));
}

#[test]
fn labels_and_the_budget() {
    assert_eq!(fraud_label("fraud"), 1);
    assert_eq!(fraud_label("legit"), 0);
    assert_eq!(fraud_label("Fraud"), 0);
    assert_eq!(fraud_label(""), 0);
    assert!(within_budget(135 * 1024 * 1024));
    assert!(!within_budget(135 * 1024 * 1024 + 1));
}

#[test]
fn ties_go_to_the_smaller_identifier() {
    // Six references at the same place: the last one is left out.
    let c = constants();
    let p = {
        let mut numbers = Numbers(31);
        payload(&mut numbers)
    };
    let (q, _) = vectorize_to_i16_and_key(&p, &c);
    let vectors = vec![q; 6];
    let bytes = build_index(&vectors, &[1, 0, 1, 0, 1, 1], 1);
    let index = Index::new(&bytes, &c, "");
    assert_eq!(index.search(&p).fraud_count, 3);
    let bytes = build_index(&vectors, &[0, 0, 0, 0, 0, 1], 1);
    let index = Index::new(&bytes, &c, "");
    assert_eq!(index.search(&p).fraud_count, 0);
}

#[test]
fn more_open_nodes_than_the_queue_holds() {
    // References on a circle around the query, in another cell than its own:
    // the boxes on the way to them are all nearer than any of them.
    let c = constants();
    let mut p = payload(&mut Numbers(41));
    p.transaction.amount = 5000;
    p.transaction.installments = 5000;
    p.terminal.is_online = false;
    let (q, _) = vectorize_to_i16_and_key(&p, &c);
    let mut vectors = Vec::new();
    let mut labels = Vec::new();
    for k in 0..12000 {
        let angle = k as f64 / 12000.0 * std::f64::consts::TAU;
        let mut v = q;
        v[0] = (5000.0 + 4000.0 * angle.cos()).round() as i16;
        v[1] = (5000.0 + 4000.0 * angle.sin()).round() as i16;
        v[9] = 10000;
        vectors.push(v);
        labels.push((k % 2) as u8);
    }
    let bytes = build_index(&vectors, &labels, 1);
    assert_eq!(IndexView::new(&bytes).n_tree_nodes(), 23999);
    let index = Index::new(&bytes, &c, "");
    assert_eq!(
        index.search(&p).fraud_count,
        nearest_fraud_count(&q, &vectors, &labels)
    );
}

#[test]
fn many_nodes_of_which_few_are_near() {
    // Each request has references close by in its own cell, so that hardly any
    // of the nodes is left to look at.
    let c = constants();
    let mut numbers = Numbers(53);
    let requests: Vec<Payload<'static>> = (0..20).map(|_| payload(&mut numbers)).collect();
    let (mut vectors, mut labels) = references(20000, 59);
    for p in &requests {
        let (q, _) = vectorize_to_i16_and_key(p, &c);
        for k in 0..7 {
            let mut v = q;
            v[0] = if q[0] < 5000 { q[0] + k } else { q[0] - k };
            vectors.push(v);
            labels.push(numbers.below(2) as u8);
        }
    }
    let bytes = build_index(&vectors, &labels, 1);
    assert!(IndexView::new(&bytes).n_tree_nodes() > 4096);
    let index = Index::new(&bytes, &c, "");
    for p in &requests {
        let (q, _) = vectorize_to_i16_and_key(p, &c);
        assert_eq!(
            index.search(p).fraud_count,
            nearest_fraud_count(&q, &vectors, &labels)
        );
    }
}

#[test]
fn the_cells_answer_as_the_references_do() {
    let c = constants();
    for (n, leaf_size) in [(0, 1), (1, 1), (4, 2), (300, 8), (3000, 128)] {
        let (vectors, labels) = references(n, 71 + n as u64);
        let bytes = build_index(&vectors, &labels, leaf_size);
        let index = Index::with_engine(&bytes, &c, SearchEngine::Cell);
        let mut numbers = Numbers(73);
        for _ in 0..60 {
            let p = payload(&mut numbers);
            let (q, _) = vectorize_to_i16_and_key(&p, &c);
            assert_eq!(
                index.search(&p).fraud_count,
                nearest_fraud_count(&q, &vectors, &labels)
            );
        }
    }
}

#[test]
fn the_cells_find_a_reference_of_another_partition() {
    let c = constants();
    let p = payload(&mut Numbers(79));
    let (mut v, _) = vectorize_to_i16_and_key(&p, &c);
    v[9] = 10000 - v[9];
    let bytes = build_index(&[v], &[1], 1);
    let index = Index::with_engine(&bytes, &c, SearchEngine::Cell);
    assert_eq!(index.search(&p).fraud_count, 1);
}

#[test]
fn the_cells_keep_ties_apart() {
    // Five references at a distance of 10000 in the query's own cell, and one
    // with a smaller identifier as far away in another partition.
    let c = constants();
    let mut p = payload(&mut Numbers(83));
    p.transaction.amount = 0;
    let (q, _) = vectorize_to_i16_and_key(&p, &c);
    let mut other = q;
    other[9] = 10000 - q[9];
    let mut near = q;
    near[0] = 10000;
    let vectors = [other, near, near, near, near, near];
    let labels = [1, 0, 0, 0, 0, 1];
    let bytes = build_index(&vectors, &labels, 1);
    let index = Index::with_engine(&bytes, &c, SearchEngine::Cell);
    assert_eq!(nearest_fraud_count(&q, &vectors, &labels), 1);
    assert_eq!(index.search(&p).fraud_count, 1);
}

#[test]
fn a_search_that_starts_anew_finds_nothing_twice() {
    // As with more open nodes than the queue holds, but with three references
    // close by in yet another cell, which are found before it overflows.
    let c = constants();
    let mut p = payload(&mut Numbers(41));
    p.transaction.amount = 5000;
    p.transaction.installments = 5000;
    p.terminal.is_online = false;
    p.terminal.card_present = false;
    let (q, _) = vectorize_to_i16_and_key(&p, &c);
    let mut vectors = Vec::new();
    let mut labels = Vec::new();
    for k in 0..12000 {
        let angle = k as f64 / 12000.0 * std::f64::consts::TAU;
        let mut v = q;
        v[0] = (5000.0 + 4000.0 * angle.cos()).round() as i16;
        v[1] = (5000.0 + 4000.0 * angle.sin()).round() as i16;
        v[9] = 10000;
        vectors.push(v);
        labels.push(0);
    }
    for k in 0..3 {
        let mut v = q;
        v[0] = 5000 + k;
        v[10] = 10000;
        vectors.push(v);
        labels.push(1);
    }
    let bytes = build_index(&vectors, &labels, 1);
    let index = Index::new(&bytes, &c, "");
    assert_eq!(nearest_fraud_count(&q, &vectors, &labels), 3);
    assert_eq!(index.search(&p).fraud_count, 3);
}

#[test]
fn a_listed_key_may_have_no_tree() {
    let c = constants();
    let (vectors, labels) = references(200, 89);
    let mut bytes = build_index(&vectors, &labels, 4);
    let key = cell_key_from_i16(&vectors[0]) as usize;
    let root_at = 64 + 65536 + 200 * 37 + 8 * key;
    for b in &mut bytes[root_at..root_at + 4] {
        *b = 0xff;
    }
    assert!(is_searchable(&bytes, SearchEngine::Tree));
    let index = Index::new(&bytes, &c, "tree");
    let rest: Vec<usize> = (0..200)
        .filter(|&k| cell_key_from_i16(&vectors[k]) as usize != key)
        .collect();
    let left: Vec<Vec16I> = rest.iter().map(|&k| vectors[k]).collect();
    let left_labels: Vec<u8> = rest.iter().map(|&k| labels[k]).collect();
    let mut numbers = Numbers(97);
    for _ in 0..40 {
        let p = payload(&mut numbers);
        let (q, _) = vectorize_to_i16_and_key(&p, &c);
        assert_eq!(
            index.search(&p).fraud_count,
            nearest_fraud_count(&q, &left, &left_labels)
        );
    }
}

/// Writes down what it is told.
struct Log {
    times: bool,
    lines: Vec<String>,
}

impl Log {
    fn add(&mut self, line: String) {
        self.lines.push(line);
    }

    fn count(&self, start: &str) -> usize {
        self.lines.iter().filter(|l| l.starts_with(start)).count()
    }
}

impl SearchTraceSink for Log {
    fn enabled(&self) -> bool {
        self.times
    }

    fn record_vectorize_us(&mut self, _value: u64) {
        self.add(String::from("time vectorize"));
    }

    fn set_home_cell_count(&mut self, value: u32) {
        self.add(format!("home {}", value));
    }

    fn add_home_scan_us(&mut self, _value: u64, vectors: u32) {
        self.add(format!("time home {}", vectors));
    }

    fn record_neighbor_seed_us(&mut self, _value: u64) {
        self.add(String::from("time seed"));
    }

    fn record_branch_bound_us(&mut self, _value: u64) {
        self.add(String::from("time branch"));
    }

    fn record_label_score_us(&mut self, _value: u64) {
        self.add(String::from("time label"));
    }

    fn set_query_key(&mut self, value: u16) {
        self.add(format!("key {}", value));
    }

    fn set_stop_reason(&mut self, value: &'static str) {
        self.add(format!("stop {}", value));
    }

    fn record_topk(&mut self, distances: [i32; 5], worst_dist_sq: i32) {
        self.add(format!("topk {:?} {}", distances, worst_dist_sq));
    }

    fn add_branch_scan(&mut self, vectors: u32) {
        self.add(format!("scan {}", vectors));
    }

    fn inc_visited_cells(&mut self) {
        self.add(String::from("cell"));
    }

    fn inc_pq_pushes(&mut self) {
        self.add(String::from("push"));
    }

    fn inc_pq_pops(&mut self) {
        self.add(String::from("pop"));
    }

    fn inc_nodes_visited(&mut self) {
        self.add(String::from("node"));
    }

    fn inc_leaves_scanned(&mut self) {
        self.add(String::from("leaf"));
    }

    fn inc_pruned_nodes(&mut self) {
        self.add(String::from("pruned"));
    }
}

#[test]
fn a_sink_is_told_of_the_search() {
    let c = constants();
    let (vectors, labels) = references(800, 101);
    let bytes = build_index(&vectors, &labels, 4);
    let view = IndexView::new(&bytes);
    let mut numbers = Numbers(103);
    for round in 0..20 {
        let p = payload(&mut numbers);
        let (q, key) = vectorize_to_i16_and_key(&p, &c);
        let mut distances: Vec<i32> = vectors.iter().map(|v| l2sq_scalar(&q, v)).collect();
        distances.sort();
        let topk = format!("topk {:?} {}", &distances[..5], distances[4]);
        for engine in [SearchEngine::Tree, SearchEngine::Cell] {
            let index = Index::with_engine(&bytes, &c, engine);
            let mut log = Log {
                times: round % 2 == 0,
                lines: Vec::new(),
            };
            assert_eq!(index.search_with_trace(&p, &mut log), index.search(&p));
            assert_eq!(log.count("key"), 1);
            assert!(log.lines.contains(&format!("key {}", key)));
            let home = match engine {
                SearchEngine::Tree => view.tree_root_entry(key).count,
                SearchEngine::Cell => view.cell_entry(key).count,
            };
            assert_eq!(log.count("home"), 1);
            assert!(log.lines.contains(&format!("home {}", home)));
            assert_eq!(log.lines[log.lines.len() - 2], topk);
            assert_eq!(log.lines[log.lines.len() - 1], "stop exact");
            assert_eq!(log.count("topk") + log.count("stop"), 2);
            if !log.times {
                assert_eq!(log.count("time"), 0);
            } else if engine == SearchEngine::Tree {
                assert_eq!(log.count("time"), 3);
            } else {
                assert_eq!(log.count("time"), if home > 0 { 5 } else { 4 });
            }
            if engine == SearchEngine::Tree {
                assert_eq!(log.count("leaf"), log.count("scan"));
                for k in 0..log.lines.len() {
                    if log.lines[k] == "leaf" {
                        assert!(log.lines[k + 1].starts_with("scan "));
                    }
                }
            } else {
                assert_eq!(log.count("leaf"), 0);
            }
        }
    }
}

#[test]
fn every_node_is_below_one_root() {
    for (n, leaf_size) in [(1, 1), (5, 1), (400, 3), (3000, 16)] {
        let (vectors, labels) = references(n, 107 + n as u64);
        let bytes = build_index(&vectors, &labels, leaf_size);
        let view = IndexView::new(&bytes);
        let mut seen = vec![0; view.n_tree_nodes() as usize];
        let mut open = Vec::new();
        for k in 0..view.n_populated_tree_roots() {
            open.push(view.tree_root_entry(view.populated_tree_key_at(k)).root);
        }
        while let Some(idx) = open.pop() {
            seen[idx as usize] += 1;
            let node = view.tree_node(idx);
            if !node.is_leaf() {
                open.push(node.left);
                open.push(node.right);
            }
        }
        assert!(seen.iter().all(|&times| times == 1));
    }
}

#[test]
fn the_trees_are_walked_in_order() {
    let c = constants();
    let mut p = payload(&mut Numbers(109));
    p.transaction.amount = 1000;
    p.terminal.is_online = false;
    p.terminal.card_present = false;
    let (q, key) = vectorize_to_i16_and_key(&p, &c);
    let told = |vectors: &[Vec16I], labels: &[u8]| {
        let bytes = build_index(vectors, labels, 1);
        let index = Index::with_engine(&bytes, &c, SearchEngine::Tree);
        let mut log = Log {
            times: false,
            lines: Vec::new(),
        };
        index.search_with_trace(&p, &mut log);
        log.lines
    };
    let far = i32::MAX;
    assert_eq!(
        told(&[], &[]),
        [
            format!("key {}", key),
            String::from("home 0"),
            format!("topk {:?} {}", [far; 5], far),
            String::from("stop exact"),
        ]
    );
    // Two references in the query's own cell, the second of them nearer.
    let mut second = q;
    second[0] = 1010;
    let mut first = q;
    first[0] = 1020;
    assert_eq!(
        told(&[first, second], &[1, 0])[1..],
        [
            String::from("home 2"),
            String::from("node"),
            String::from("node"),
            String::from("leaf"),
            String::from("scan 1"),
            String::from("node"),
            String::from("leaf"),
            String::from("scan 1"),
            format!("topk {:?} {}", [100, 400, far, far, far], far),
            String::from("stop exact"),
        ]
    );
    // Five at no distance in the query's own cell leave out the other cell.
    let mut other = q;
    other[9] = 10000;
    let lines = told(&[q, q, q, q, q, other], &[0; 6]);
    let count = |what: &str| lines.iter().filter(|l| *l == what).count();
    assert_eq!(count("home 5"), 1);
    assert_eq!((count("leaf"), count("scan 1")), (5, 5));
    assert_eq!((count("node"), count("pruned")), (9, 1));
}

#[test]
fn the_cells_are_visited_once_each() {
    // Without five neighbours the search goes on until no further cell can be
    // visited.
    let c = constants();
    let p = payload(&mut Numbers(113));
    let bytes = build_index(&[], &[], 1);
    let index = Index::with_engine(&bytes, &c, SearchEngine::Cell);
    let mut log = Log {
        times: false,
        lines: Vec::new(),
    };
    index.search_with_trace(&p, &mut log);
    assert_eq!(log.count("cell"), 128);
    assert_eq!(log.count("scan"), 0);
    assert_eq!(log.count("push"), log.count("pop"));
}

#[test]
fn tracing_changes_no_answer() {
    // Also where the boxes of the trees are not those of their vectors.
    let c = constants();
    let (vectors, labels) = references(600, 127);
    let mut bytes = build_index(&vectors, &labels, 4);
    let nodes = IndexView::new(&bytes).n_tree_nodes() as usize;
    let at = bytes.len() - nodes * 88;
    let mut numbers = Numbers(131);
    for k in 0..nodes {
        if numbers.below(3) == 0 {
            bytes[at + 88 * k..at + 88 * k + 2].copy_from_slice(&10000i16.to_le_bytes());
            bytes[at + 88 * k + 32..at + 88 * k + 34].copy_from_slice(&10000i16.to_le_bytes());
        }
    }
    for engine in [SearchEngine::Tree, SearchEngine::Cell] {
        assert!(is_searchable(&bytes, engine));
        let index = Index::with_engine(&bytes, &c, engine);
        for round in 0..40 {
            let p = payload(&mut numbers);
            let mut log = Log {
                times: round % 2 == 0,
                lines: Vec::new(),
            };
            assert_eq!(index.search_with_trace(&p, &mut log), index.search(&p));
        }
    }
}
