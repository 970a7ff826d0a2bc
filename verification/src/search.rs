//! Scoring a payment request against an index.
use crate::cell::{law_cell_key_fields, lemma_vector_cell};
use crate::cell_course::cell_neighbours;
use crate::cell_search::{
    cell_search_done, cells_found, cells_told, law_cell_search_is_exact, lemma_cells_tell,
    search_cell, worst_dist_of,
};
use crate::course::tree_neighbours;
use crate::index_format::{
    all_sections, cell_sections, le_u32, model_of, IndexModel, IndexView, NodeModel,
};
use crate::normalization::Constants;
use crate::topk::{fraud_labels, is_best, offered_all, TopK, TopKEntry};
use crate::trace::{
    elapsed_us, is_measured, is_of_engine, is_time, lemma_none_told, lemma_once_told,
    lemma_told_concat, lemma_told_push, started, told_all, NoopTrace, SearchTraceSink, TraceEvent,
};
use crate::tree::{
    all_normalized, boxes_sound, cells_ok, complete_cells, complete_index, distances_fit, fits,
    index_ok, law_normalized_distances_fit, law_normalized_queries_fit, pool, unique_ids,
};
use crate::tree_search::{
    law_tree_search_is_exact, lemma_tree_tells, search_tree, tree_found, tree_search_done,
    tree_told,
};
use crate::types::Payload;
use crate::vectorize::{
    law_payload_cell_is_vector_cell, merchant_known, payload_cell, payload_on_scale, payload_vector,
    request_time_ok, vectorize_to_i16_and_key,
};
use vstd::prelude::*;

verus! {

/// How an index is searched.
#[derive(Clone, Copy, Debug, PartialEq, Eq, Structural)]
pub enum SearchEngine {
    /// Cell by cell, through the neighbours of the query's own cell.
    Cell,
    /// Through the trees of all cells.
    Tree,
}

pub open spec fn ascii_lowercase(c: char) -> char {
    if 'A' <= c <= 'Z' {
        (c as u32 + 32) as char
    } else {
        c
    }
}

/// The word, in upper or lower case.
pub open spec fn is_word(s: Seq<char>, word: Seq<char>) -> bool {
    s.map_values(|c: char| ascii_lowercase(c)) == word
}

/// The engine that a setting names; `default` where it names none.
pub open spec fn engine_of(setting: Seq<char>, default: SearchEngine) -> SearchEngine {
    if is_word(setting, "cell"@) {
        SearchEngine::Cell
    } else if is_word(setting, "tree"@) {
        SearchEngine::Tree
    } else {
        default
    }
}

fn lowercase(c: char) -> (low: char)
    ensures
        low == ascii_lowercase(c),
{
    if 'A' <= c && c <= 'Z' {
        ((c as u8) + 32) as char
    } else {
        c
    }
}

impl SearchEngine {
    /// The engine that the value of an environment variable names, whatever its
    /// case.
    pub fn from_env(setting: &str, default: SearchEngine) -> (engine: Self)
        ensures
            engine == engine_of(setting@, default),
    {
        proof {
            reveal_strlit("cell");
            reveal_strlit("tree");
        }
        let ghost low = setting@.map_values(|c: char| ascii_lowercase(c));
        if setting.unicode_len() != 4 {
            assert(low.len() != 4);
            return default;
        }
        let a: char = lowercase(setting.get_char(0));
        let b: char = lowercase(setting.get_char(1));
        let c: char = lowercase(setting.get_char(2));
        let d: char = lowercase(setting.get_char(3));
        assert(low =~= seq![a, b, c, d]);
        if a == 'c' && b == 'e' && c == 'l' && d == 'l' {
            assert(low =~= "cell"@);
            SearchEngine::Cell
        } else if a == 't' && b == 'r' && c == 'e' && d == 'e' {
            assert(low =~= "tree"@);
            assert("tree"@[0] != "cell"@[0]);
            SearchEngine::Tree
        } else {
            assert(low[0] == a && low[1] == b && low[2] == c && low[3] == d);
            default
        }
    }
}

/// An index in memory, the risks of merchant categories, and the engine that
/// answers requests.
pub struct Index<'a> {
    data: &'a [u8],
    constants: &'a Constants,
    engine: SearchEngine,
}

/// What a request is answered.
#[derive(Clone, Copy, Debug, PartialEq, Eq, Structural)]
pub struct Verdict {
    pub approved: bool,
    /// How many of the nearest neighbours are fraud.
    pub fraud_count: usize,
}

/// The version of the index format from which on there are trees.
pub const TREE_VERSION: u32 = 4;

/// The engine for an index of the given format version.
pub open spec fn default_engine(version: int) -> SearchEngine {
    if version >= TREE_VERSION {
        SearchEngine::Tree
    } else {
        SearchEngine::Cell
    }
}

/// The exclusive or of `acc` and all the values.
pub open spec fn xor_all(acc: i64, values: Seq<i64>) -> i64
    decreases values.len(),
{
    if values.len() == 0 {
        acc
    } else {
        xor_all(acc, values.drop_last()) ^ values.last()
    }
}

/// Every `step`-th of `n` positions, from zero on.
pub open spec fn stepped(n: int, step: int) -> int {
    (n + step - 1) / step
}

/// What is read of a node.
pub open spec fn xor_nodes(acc: i64, nodes: Seq<NodeModel>) -> i64
    decreases nodes.len(),
{
    if nodes.len() == 0 {
        acc
    } else {
        let node = nodes.last();
        xor_nodes(acc, nodes.drop_last()) ^ (node.min_original_id as i64) ^ (node.bbox_min[0]
            as i64) ^ (node.bbox_max[15] as i64)
    }
}

/// The sections that the header tells of are all there.
pub open spec fn warmable(d: Seq<u8>) -> bool {
    &&& cell_sections(d)
    &&& le_u32(d, 32) > 0 || le_u32(d, 36) > 0 ==> all_sections(d)
}

/// The exclusive or of what a walk over the index reads: the first component
/// of every 64th vector, every 4096th label, every 1024th identifier, all keys
/// and of each node its identifier and two corners of its box.
pub open spec fn checksum(m: IndexModel) -> i64 {
    let n = m.vectors.len() as int;
    let a = xor_all(
        0,
        Seq::new(stepped(n, 64) as nat, |k: int| m.vectors[64 * k][0] as i64),
    );
    let b = xor_all(a, Seq::new(stepped(n, 4096) as nat, |k: int| m.labels[4096 * k] as i64));
    let c = xor_all(b, Seq::new(stepped(n, 1024) as nat, |k: int| m.ids[1024 * k] as i64));
    let d = xor_all(
        c,
        Seq::new(m.keys.len(), |k: int| (m.keys[k] as int % 65536) as i64),
    );
    xor_nodes(d, m.nodes)
}

proof fn lemma_xor_step(acc: i64, values: Seq<i64>, k: int)
    requires
        0 <= k < values.len(),
    ensures
        xor_all(acc, values.take(k + 1)) == xor_all(acc, values.take(k)) ^ values[k],
{
    assert(values.take(k + 1).drop_last() =~= values.take(k));
}

impl<'a> Index<'a> {
    pub closed spec fn bytes(&self) -> Seq<u8> {
        self.data@
    }

    pub closed spec fn table(&self) -> Constants {
        *self.constants
    }

    pub closed spec fn spec_engine(&self) -> SearchEngine {
        self.engine
    }

    /// An index that is searched as the setting says, or else as its version
    /// of the format suggests.
    pub fn new(data: &'a [u8], constants: &'a Constants, setting: &str) -> (index: Self)
        requires
            data@.len() >= 64,
        ensures
            index.bytes() == data@,
            index.table() == *constants,
            index.spec_engine() == engine_of(setting@, default_engine(le_u32(data@, 4))),
    {
        let view = IndexView::new(data);
        let default = if view.header().version >= TREE_VERSION {
            SearchEngine::Tree
        } else {
            SearchEngine::Cell
        };
        Self::with_engine(data, constants, SearchEngine::from_env(setting, default))
    }

    pub fn with_engine(
        data: &'a [u8],
        constants: &'a Constants,
        engine: SearchEngine,
    ) -> (index: Self)
        ensures
            index.bytes() == data@,
            index.table() == *constants,
            index.spec_engine() == engine,
    {
        Index { data, constants, engine }
    }

    pub fn engine(&self) -> (engine: SearchEngine)
        ensures
            engine == self.spec_engine(),
    {
        self.engine
    }

    fn view(&self) -> (view: IndexView<'_>)
        ensures
            view.bytes() == self.bytes(),
    {
        IndexView::new(self.data)
    }

    /// Walks over the index, so that all of it has been read once; returns the
    /// checksum of what was read.
    pub fn warmup(&self) -> (sum: i64)
        requires
            warmable(self.bytes()),
        ensures
            sum == checksum(model_of(self.bytes())),
    {
        let ghost m = model_of(self.bytes());
        let view = self.view();
        let n: u32 = view.n_vectors();
        let mut sum: i64 = 0;
        let ghost firsts = Seq::new(
            stepped(n as int, 64) as nat,
            |k: int| m.vectors[64 * k][0] as i64,
        );
        let ghost mut k: int = 0;
        let mut i: u64 = 0;
        assert(firsts.take(0) =~= Seq::<i64>::empty());
        while i < n as u64
            invariant
                i == 64 * k,
                0 <= k <= firsts.len(),
                i < n + 64,
                firsts.len() == stepped(n as int, 64),
                forall|a: int|
                    0 <= a < firsts.len() ==> firsts[a] == #[trigger] m.vectors[64 * a][0] as i64,
                view.cells_complete(),
                m == view@,
                n == view.spec_n_vectors(),
                sum == xor_all(0, firsts.take(k)),
            decreases n + 64 - i,
        {
            let v = view.vector_at(i as u32);
            proof {
                lemma_xor_step(0, firsts, k);
                assert(firsts[k] == m.vectors[64 * k][0] as i64);
                k = k + 1;
            }
            sum = sum ^ (v[0] as i64);
            i = i + 64;
        }
        assert(firsts.take(k) =~= firsts);
        let ghost labels = Seq::new(
            stepped(n as int, 4096) as nat,
            |k: int| m.labels[4096 * k] as i64,
        );
        let ghost after_vectors = sum;
        i = 0;
        proof {
            k = 0;
        }
        assert(labels.take(0) =~= Seq::<i64>::empty());
        while i < n as u64
            invariant
                i == 4096 * k,
                0 <= k <= labels.len(),
                i < n + 4096,
                labels.len() == stepped(n as int, 4096),
                forall|a: int|
                    0 <= a < labels.len() ==> labels[a] == #[trigger] m.labels[4096 * a] as i64,
                view.cells_complete(),
                m == view@,
                n == view.spec_n_vectors(),
                sum == xor_all(after_vectors, labels.take(k)),
            decreases n + 4096 - i,
        {
            let label: u8 = view.label_at(i as u32);
            proof {
                lemma_xor_step(after_vectors, labels, k);
                assert(labels[k] == m.labels[4096 * k] as i64);
                k = k + 1;
            }
            sum = sum ^ (label as i64);
            i = i + 4096;
        }
        assert(labels.take(k) =~= labels);
        let ghost ids = Seq::new(stepped(n as int, 1024) as nat, |k: int| m.ids[1024 * k] as i64);
        let ghost after_labels = sum;
        i = 0;
        proof {
            k = 0;
        }
        assert(ids.take(0) =~= Seq::<i64>::empty());
        while i < n as u64
            invariant
                i == 1024 * k,
                0 <= k <= ids.len(),
                i < n + 1024,
                ids.len() == stepped(n as int, 1024),
                forall|a: int|
                    0 <= a < ids.len() ==> ids[a] == #[trigger] m.ids[1024 * a] as i64,
                view.cells_complete(),
                m == view@,
                n == view.spec_n_vectors(),
                sum == xor_all(after_labels, ids.take(k)),
            decreases n + 1024 - i,
        {
            let id: u32 = view.original_id_at(i as u32);
            proof {
                lemma_xor_step(after_labels, ids, k);
                assert(ids[k] == m.ids[1024 * k] as i64);
                k = k + 1;
            }
            sum = sum ^ (id as i64);
            i = i + 1024;
        }
        assert(ids.take(k) =~= ids);
        self.warmup_trees(sum)
    }

    /// The keys and the nodes.
    fn warmup_trees(&self, start: i64) -> (sum: i64)
        requires
            warmable(self.bytes()),
        ensures
            ({
                let m = model_of(self.bytes());
                sum == xor_nodes(
                    xor_all(
                        start,
                        Seq::new(m.keys.len(), |k: int| (m.keys[k] as int % 65536) as i64),
                    ),
                    m.nodes,
                )
            }),
    {
        let ghost m = model_of(self.bytes());
        let view = self.view();
        let mut sum: i64 = start;
        let n_keys: u32 = view.n_populated_tree_roots();
        let ghost keys = Seq::new(m.keys.len(), |k: int| (m.keys[k] as int % 65536) as i64);
        let mut key_idx: u32 = 0;
        assert(keys.take(0) =~= Seq::<i64>::empty());
        while key_idx < n_keys
            invariant
                key_idx <= n_keys,
                n_keys == keys.len(),
                n_keys > 0 ==> view.complete(),
                m == view@,
                n_keys == view.spec_n_keys(),
                forall|a: int|
                    0 <= a < keys.len() ==> keys[a] == (#[trigger] m.keys[a] as int % 65536) as i64,
                sum == xor_all(start, keys.take(key_idx as int)),
            decreases n_keys - key_idx,
        {
            let key: u16 = view.populated_tree_key_at(key_idx);
            proof {
                lemma_xor_step(start, keys, key_idx as int);
                assert(keys[key_idx as int] == (m.keys[key_idx as int] as int % 65536) as i64);
            }
            sum = sum ^ (key as i64);
            key_idx = key_idx + 1;
        }
        assert(keys.take(key_idx as int) =~= keys);
        let ghost after_keys = sum;
        let n_nodes: u32 = view.n_tree_nodes();
        let mut node_idx: u32 = 0;
        assert(m.nodes.take(0) =~= Seq::<NodeModel>::empty());
        while node_idx < n_nodes
            invariant
                node_idx <= n_nodes,
                n_nodes == m.nodes.len(),
                n_nodes > 0 ==> view.complete(),
                m == view@,
                n_nodes == view.spec_n_nodes(),
                sum == xor_nodes(after_keys, m.nodes.take(node_idx as int)),
            decreases n_nodes - node_idx,
        {
            let node = view.tree_node(node_idx);
            proof {
                let next = m.nodes.take(node_idx + 1);
                assert(next.drop_last() =~= m.nodes.take(node_idx as int));
                assert(next.last() == node@);
            }
            sum = sum ^ (node.min_original_id as i64);
            sum = sum ^ (node.bbox_min[0] as i64);
            sum = sum ^ (node.bbox_max[15] as i64);
            node_idx = node_idx + 1;
        }
        assert(m.nodes.take(node_idx as int) =~= m.nodes);
        sum
    }

    /// The index can be searched for the request.
    pub open spec fn ready(&self, p: Payload<'_>) -> bool {
        let m = model_of(self.bytes());
        let q = payload_vector(p, self.table());
        &&& request_time_ok(p)
        &&& match self.spec_engine() {
            SearchEngine::Cell => {
                &&& cell_sections(self.bytes())
                &&& cells_ok(m)
                &&& distances_fit(m, q)
            },
            SearchEngine::Tree => {
                &&& all_sections(self.bytes())
                &&& index_ok(m)
                &&& fits(m, q, payload_cell(p) as u16)
            },
        }
    }

    /// The neighbours that a search for the request ends with. They depend on
    /// the index and the request alone.
    pub open spec fn neighbours(&self, p: Payload<'_>) -> Seq<TopKEntry> {
        let m = model_of(self.bytes());
        let q = payload_vector(p, self.table());
        let key = payload_cell(p) as u16;
        match self.spec_engine() {
            SearchEngine::Cell => cell_neighbours(m, q, key, Seq::empty()),
            SearchEngine::Tree => tree_neighbours(m, q, key, Seq::empty()),
        }
    }

    /// The answer to the request: how many of the neighbours are fraud, and
    /// approval where they are fewer than three.
    pub open spec fn answers(&self, p: Payload<'_>, verdict: Verdict) -> bool {
        &&& verdict.fraud_count == fraud_labels(self.neighbours(p))
        &&& verdict.approved == (verdict.fraud_count < 3)
    }

    /// The search ends with the neighbours `t`, and what it has left out is
    /// farther away as far as the bounds tell.
    pub open spec fn finds(&self, p: Payload<'_>, t: Seq<TopKEntry>) -> bool {
        let m = model_of(self.bytes());
        let q = payload_vector(p, self.table());
        let key = payload_cell(p) as u16;
        match self.spec_engine() {
            SearchEngine::Cell => cells_found(m, q, key, Seq::empty(), t),
            SearchEngine::Tree => tree_found(m, q, key, Seq::empty(), t),
        }
    }

    /// What the engine tells the sink.
    pub open spec fn engine_tells<T: SearchTraceSink>(
        &self,
        p: Payload<'_>,
        sink: T,
        events: Seq<TraceEvent>,
    ) -> bool {
        let m = model_of(self.bytes());
        let q = payload_vector(p, self.table());
        let key = payload_cell(p) as u16;
        match self.spec_engine() {
            SearchEngine::Cell => cells_told(m, q, key, Seq::empty(), sink, events),
            SearchEngine::Tree => tree_told(m, q, key, Seq::empty(), sink, events),
        }
    }

    /// What a search tells the sink, which is `before` first and `after` last:
    /// the key of the request's cell, what the engine tells, the distances of
    /// the neighbours, and why the search ended; times where it asked for them.
    pub open spec fn tells<T: SearchTraceSink>(
        &self,
        p: Payload<'_>,
        before: T,
        after: T,
    ) -> bool {
        exists|
            first: Seq<TraceEvent>,
            engine: Seq<TraceEvent>,
            label: Seq<TraceEvent>,
            distances: [i32; 5],
        | #[trigger]
            self.tells_in_turn(p, before, after, first, engine, label, distances)
    }

    /// The sink is told the parts in turn, each of which is what it should be.
    pub open spec fn tells_in_turn<T: SearchTraceSink>(
        &self,
        p: Payload<'_>,
        before: T,
        after: T,
        first: Seq<TraceEvent>,
        engine: Seq<TraceEvent>,
        label: Seq<TraceEvent>,
        distances: [i32; 5],
    ) -> bool {
        let begun = first.push(TraceEvent::QueryKey(payload_cell(p) as u16));
        let t = self.neighbours(p);
        &&& vectorize_time(before, first)
        &&& self.engine_tells(p, told_all(before, begun), engine)
        &&& label_time(told_all(before, begun + engine), label)
        &&& are_distances(t, distances)
        &&& after == told_all(
            before,
            (begun + engine + label).push(
                TraceEvent::Neighbours(distances, worst_dist_of(t) as i32),
            ).push(TraceEvent::StopReason("exact")),
        )
    }

    /// The index is well-formed, sound and complete for its engine, and its
    /// vectors are normalized.
    pub open spec fn sound(&self) -> bool {
        let m = model_of(self.bytes());
        &&& all_normalized(m)
        &&& match self.spec_engine() {
            SearchEngine::Cell => cells_ok(m) && complete_cells(m) && unique_ids(m),
            SearchEngine::Tree => index_ok(m) && boxes_sound(m) && complete_index(m),
        }
    }

    /// The number of fraud labels among the five vectors of the index that are
    /// nearest to the request.
    pub open spec fn nearest_frauds(&self, p: Payload<'_>) -> nat {
        let all = pool(model_of(self.bytes()), payload_vector(p, self.table()));
        fraud_labels(offered_all(Seq::empty(), all))
    }

    /// Scores a request.
    pub fn search(&self, payload: &Payload<'_>) -> (verdict: Verdict)
        requires
            self.ready(*payload),
        ensures
            self.answers(*payload, verdict),
            verdict.fraud_count <= 5,
            self.finds(*payload, self.neighbours(*payload)),
            self.sound() && payload_on_scale(*payload, self.table()) ==> verdict.fraud_count
                == self.nearest_frauds(*payload),
    {
        let mut trace = NoopTrace;
        self.search_inner(payload, &mut trace)
    }

    /// Scores a request and reports to `trace` how that went.
    pub fn search_with_trace<T: SearchTraceSink>(
        &self,
        payload: &Payload<'_>,
        trace: &mut T,
    ) -> (verdict: Verdict)
        requires
            self.ready(*payload),
        ensures
            self.answers(*payload, verdict),
            verdict.fraud_count <= 5,
            self.tells(*payload, *old(trace), *final(trace)),
            self.finds(*payload, self.neighbours(*payload)),
            self.sound() && payload_on_scale(*payload, self.table()) ==> verdict.fraud_count
                == self.nearest_frauds(*payload),
    {
        self.search_inner(payload, trace)
    }

    fn search_inner<T: SearchTraceSink>(
        &self,
        payload: &Payload<'_>,
        trace: &mut T,
    ) -> (verdict: Verdict)
        requires
            self.ready(*payload),
        ensures
            self.answers(*payload, verdict),
            verdict.fraud_count <= 5,
            self.tells(*payload, *old(trace), *final(trace)),
            self.finds(*payload, self.neighbours(*payload)),
            self.sound() && payload_on_scale(*payload, self.table()) ==> verdict.fraud_count
                == self.nearest_frauds(*payload),
    {
        let view = self.view();
        let ghost sink = *trace;
        let ghost mut first: Seq<TraceEvent> = seq![];
        let vectorize_start = started(trace);
        let (qv, query_key) = vectorize_to_i16_and_key(payload, self.constants);
        match vectorize_start {
            Some(start) => {
                let us: u64 = elapsed_us(start);
                proof {
                    lemma_told_push(sink, first, TraceEvent::VectorizeUs(us));
                    first = first.push(TraceEvent::VectorizeUs(us));
                }
                trace.record_vectorize_us(us)
            },
            None => {},
        }
        let ghost begun = first.push(TraceEvent::QueryKey(query_key));
        proof {
            lemma_told_push(sink, first, TraceEvent::QueryKey(query_key));
        }
        trace.set_query_key(query_key);
        proof {
            law_cell_key_fields(
                payload.terminal.is_online,
                payload.terminal.card_present,
                !merchant_known(*payload),
                payload.last_transaction is Some,
                payload.transaction.requested_at.hour as int,
                payload.transaction.requested_at.day_of_week as int,
            );
        }
        let mut topk = TopK::new();
        let ghost keyed = *trace;
        let ghost mut engine: Seq<TraceEvent> = seq![];
        match self.engine {
            SearchEngine::Cell => {
                search_cell(&view, &qv, query_key, &mut topk, trace);
                proof {
                    engine = choose|events: Seq<TraceEvent>| #[trigger]
                        cell_search_done(
                            view@,
                            qv@,
                            query_key,
                            Seq::empty(),
                            topk@,
                            keyed,
                            events,
                        ) && *trace == told_all(keyed, events);
                }
            },
            SearchEngine::Tree => {
                search_tree(&view, &qv, query_key, &mut topk, trace);
                proof {
                    engine = choose|events: Seq<TraceEvent>| #[trigger]
                        tree_search_done(
                            view@,
                            qv@,
                            query_key,
                            Seq::empty(),
                            topk@,
                            keyed,
                            events,
                        ) && *trace == told_all(keyed, events);
                }
            },
        }
        proof {
            assert(topk@ == self.neighbours(*payload));
            assert(self.engine_tells(*payload, keyed, engine));
            assert(self.finds(*payload, topk@));
            lemma_told_concat(sink, begun, engine);
            if self.sound() && payload_on_scale(*payload, self.table()) {
                law_search_counts_the_nearest(*self, *payload, topk@);
            }
        }
        let ghost searched = *trace;
        let ghost mut label: Seq<TraceEvent> = seq![];
        let label_start = started(trace);
        let fraud_count: usize = topk.fraud_count();
        let approved: bool = fraud_count < 3;
        match label_start {
            Some(start) => {
                let us: u64 = elapsed_us(start);
                proof {
                    lemma_told_push(searched, label, TraceEvent::LabelScoreUs(us));
                    label = label.push(TraceEvent::LabelScoreUs(us));
                }
                trace.record_label_score_us(us)
            },
            None => {},
        }
        let distances = topk.distances();
        let worst: i32 = topk.worst_dist_sq();
        proof {
            let told = begun + engine + label;
            lemma_told_concat(sink, begun + engine, label);
            let neighbours = TraceEvent::Neighbours(distances, worst);
            lemma_told_push(sink, told, neighbours);
            lemma_told_push(sink, told.push(neighbours), TraceEvent::StopReason("exact"));
            assert(vectorize_time(sink, first));
            assert(label_time(searched, label));
            assert(are_distances(topk@, distances));
        }
        trace.record_topk(distances, worst);
        trace.set_stop_reason("exact");
        assert(self.tells_in_turn(
            *payload,
            sink,
            *trace,
            first,
            engine,
            label,
            distances,
        ));
        Verdict { approved, fraud_count }
    }
}

/// The time for computing the vector; told only to a sink that asked for times.
pub open spec fn vectorize_time<T: SearchTraceSink>(sink: T, events: Seq<TraceEvent>) -> bool {
    if sink.times() {
        &&& events.len() == 1
        &&& events[0] matches TraceEvent::VectorizeUs(us) && is_measured(us)
    } else {
        events.len() == 0
    }
}

/// The time for counting the labels; told only to a sink that asked for times.
pub open spec fn label_time<T: SearchTraceSink>(sink: T, events: Seq<TraceEvent>) -> bool {
    if sink.times() {
        &&& events.len() == 1
        &&& events[0] matches TraceEvent::LabelScoreUs(us) && is_measured(us)
    } else {
        events.len() == 0
    }
}

/// The distances of the neighbours; `i32::MAX` where there are fewer than five.
pub open spec fn are_distances(t: Seq<TopKEntry>, distances: [i32; 5]) -> bool {
    forall|i: int|
        0 <= i < 5 ==> #[trigger] distances@[i] == (if i < t.len() {
            t[i].key as int / 0x1_0000_0000
        } else {
            i32::MAX as int
        })
}

/// What a sound index answers, whichever its engine: the number of fraud
/// labels among the five references that are nearest to the request, just as
/// if all references were compared one by one.
pub proof fn law_search_counts_the_nearest(
    index: Index<'_>,
    p: Payload<'_>,
    t: Seq<TopKEntry>,
)
    requires
        index.sound(),
        request_time_ok(p),
        payload_on_scale(p, index.table()),
        index.finds(p, t),
    ensures
        ({
            let all = pool(model_of(index.bytes()), payload_vector(p, index.table()));
            &&& is_best(t, all)
            &&& t == offered_all(Seq::empty(), all)
            &&& fraud_labels(t) == index.nearest_frauds(p)
        }),
{
    let m = model_of(index.bytes());
    let q = payload_vector(p, index.table());
    let key = payload_cell(p) as u16;
    law_payload_cell_is_vector_cell(p, index.table());
    lemma_vector_cell(q);
    match index.spec_engine() {
        SearchEngine::Cell => {
            law_normalized_distances_fit(m, q);
            law_cell_search_is_exact(m, q, key, t);
        },
        SearchEngine::Tree => {
            law_normalized_queries_fit(m, q);
            law_tree_search_is_exact(m, q, key, t);
        },
    }
}

/// A search for one request has one answer, whatever it is traced to or
/// whether it is traced at all.
pub proof fn law_search_is_determined(
    index: Index<'_>,
    p: Payload<'_>,
    plain: Verdict,
    traced: Verdict,
)
    requires
        index.ready(p),
        index.answers(p, plain),
        index.answers(p, traced),
    ensures
        plain == traced,
{
}

/// A sound index that is all there can be searched for every request whose
/// features are on the scale.
pub proof fn law_sound_index_is_ready(index: Index<'_>, p: Payload<'_>)
    requires
        index.sound(),
        match index.spec_engine() {
            SearchEngine::Cell => cell_sections(index.bytes()),
            SearchEngine::Tree => all_sections(index.bytes()),
        },
        request_time_ok(p),
        payload_on_scale(p, index.table()),
    ensures
        index.ready(p),
{
    let m = model_of(index.bytes());
    let q = payload_vector(p, index.table());
    law_payload_cell_is_vector_cell(p, index.table());
    lemma_vector_cell(q);
    law_normalized_distances_fit(m, q);
    if index.spec_engine() == SearchEngine::Tree {
        law_normalized_queries_fit(m, q);
    }
}

/// The answer to a request.
pub open spec fn response_text(fraud_count: int) -> Seq<char> {
    if fraud_count == 0 {
        "{\"approved\":true,\"fraud_score\":0}"@
    } else if fraud_count == 1 {
        "{\"approved\":true,\"fraud_score\":0.2}"@
    } else if fraud_count == 2 {
        "{\"approved\":true,\"fraud_score\":0.4}"@
    } else if fraud_count == 3 {
        "{\"approved\":false,\"fraud_score\":0.6}"@
    } else if fraud_count == 4 {
        "{\"approved\":false,\"fraud_score\":0.8}"@
    } else {
        "{\"approved\":false,\"fraud_score\":1}"@
    }
}

pub fn response_body(fraud_count: usize) -> (body: &'static str)
    ensures
        body@ == response_text(fraud_count as int),
{
    match fraud_count {
        0 => "{\"approved\":true,\"fraud_score\":0}",
        1 => "{\"approved\":true,\"fraud_score\":0.2}",
        2 => "{\"approved\":true,\"fraud_score\":0.4}",
        3 => "{\"approved\":false,\"fraud_score\":0.6}",
        4 => "{\"approved\":false,\"fraud_score\":0.8}",
        _ => "{\"approved\":false,\"fraud_score\":1}",
    }
}

/// What an answer says of approval: what stands behind its first colon.
pub open spec fn says_approved(text: Seq<char>) -> bool {
    text.len() >= 16 && text.subrange(12, 16) == "true"@
}

/// The answer says that the transaction is approved exactly where fewer than
/// three of the five neighbours are fraud, as the verdict does.
pub proof fn law_answer_agrees_with_verdict(fraud_count: int)
    requires
        0 <= fraud_count <= 5,
    ensures
        says_approved(response_text(fraud_count)) <==> fraud_count < 3,
{
    reveal_strlit("{\"approved\":true,\"fraud_score\":0}");
    reveal_strlit("{\"approved\":true,\"fraud_score\":0.2}");
    reveal_strlit("{\"approved\":true,\"fraud_score\":0.4}");
    reveal_strlit("{\"approved\":false,\"fraud_score\":0.6}");
    reveal_strlit("{\"approved\":false,\"fraud_score\":0.8}");
    reveal_strlit("{\"approved\":false,\"fraud_score\":1}");
    reveal_strlit("true");
    let text = response_text(fraud_count);
    if fraud_count < 3 {
        assert(text.subrange(12, 16) =~= "true"@);
    } else {
        assert(text.subrange(12, 16)[0] == 'f');
    }
}

/// What names an engine: its four letters, each in upper or lower case. What
/// names none leaves the default.
pub proof fn law_engine_names(setting: Seq<char>, default: SearchEngine)
    ensures
        ({
            let cell = setting.len() == 4 && (setting[0] == 'c' || setting[0] == 'C') && (
            setting[1] == 'e' || setting[1] == 'E') && (setting[2] == 'l' || setting[2] == 'L') && (
            setting[3] == 'l' || setting[3] == 'L');
            let tree = setting.len() == 4 && (setting[0] == 't' || setting[0] == 'T') && (
            setting[1] == 'r' || setting[1] == 'R') && (setting[2] == 'e' || setting[2] == 'E') && (
            setting[3] == 'e' || setting[3] == 'E');
            &&& cell ==> engine_of(setting, default) == SearchEngine::Cell
            &&& tree ==> engine_of(setting, default) == SearchEngine::Tree
            &&& !cell && !tree ==> engine_of(setting, default) == default
        }),
{
    reveal_strlit("cell");
    reveal_strlit("tree");
    let low = setting.map_values(|c: char| ascii_lowercase(c));
    if setting.len() == 4 {
        let (a, b, c, d) = (setting[0], setting[1], setting[2], setting[3]);
        lemma_cases(a);
        lemma_cases(b);
        lemma_cases(c);
        lemma_cases(d);
        assert(low =~= seq![
            ascii_lowercase(a),
            ascii_lowercase(b),
            ascii_lowercase(c),
            ascii_lowercase(d),
        ]);
        if ascii_lowercase(a) == 'c' && ascii_lowercase(b) == 'e' && ascii_lowercase(c) == 'l'
            && ascii_lowercase(d) == 'l' {
            assert(low =~= "cell"@);
        } else {
            assert(low[0] == ascii_lowercase(a) && low[1] == ascii_lowercase(b));
            assert(low[2] == ascii_lowercase(c) && low[3] == ascii_lowercase(d));
            assert(low != "cell"@);
        }
        if ascii_lowercase(a) == 't' && ascii_lowercase(b) == 'r' && ascii_lowercase(c) == 'e'
            && ascii_lowercase(d) == 'e' {
            assert(low =~= "tree"@);
        } else {
            assert(low[0] == ascii_lowercase(a) && low[1] == ascii_lowercase(b));
            assert(low[2] == ascii_lowercase(c) && low[3] == ascii_lowercase(d));
            assert(low != "tree"@);
        }
    } else {
        assert(low.len() != "cell"@.len());
        assert(low.len() != "tree"@.len());
    }
}

proof fn lemma_cases(c: char)
    ensures
        ascii_lowercase(c) == 'c' <==> c == 'c' || c == 'C',
        ascii_lowercase(c) == 'e' <==> c == 'e' || c == 'E',
        ascii_lowercase(c) == 'l' <==> c == 'l' || c == 'L',
        ascii_lowercase(c) == 't' <==> c == 't' || c == 'T',
        ascii_lowercase(c) == 'r' <==> c == 'r' || c == 'R',
{
}

/// An index is searched through its trees by default exactly from the fourth
/// version of the format on.
pub proof fn law_default_engine(version: int)
    ensures
        default_engine(version) == SearchEngine::Tree <==> version >= 4,
{
}

/// What is answered: whether fewer than three of the five neighbours are
/// fraud, and their share of the five as a decimal number.
pub proof fn law_answer(fraud_count: int)
    requires
        0 <= fraud_count <= 5,
    ensures
        ({
            let approved = if fraud_count < 3 {
                seq!['t', 'r', 'u', 'e']
            } else {
                seq!['f', 'a', 'l', 's', 'e']
            };
            let score = if fraud_count == 0 {
                seq!['0']
            } else if fraud_count == 5 {
                seq!['1']
            } else {
                seq!['0', '.', (48 + 2 * fraud_count) as char]
            };
            response_text(fraud_count) == seq![
                '{', '"', 'a', 'p', 'p', 'r', 'o', 'v', 'e', 'd', '"', ':',
            ] + approved + seq![
                ',', '"', 'f', 'r', 'a', 'u', 'd', '_', 's', 'c', 'o', 'r', 'e', '"', ':',
            ] + score + seq!['}']
        }),
{
    reveal_strlit("{\"approved\":true,\"fraud_score\":0}");
    reveal_strlit("{\"approved\":true,\"fraud_score\":0.2}");
    reveal_strlit("{\"approved\":true,\"fraud_score\":0.4}");
    reveal_strlit("{\"approved\":false,\"fraud_score\":0.6}");
    reveal_strlit("{\"approved\":false,\"fraud_score\":0.8}");
    reveal_strlit("{\"approved\":false,\"fraud_score\":1}");
    let approved = if fraud_count < 3 {
        seq!['t', 'r', 'u', 'e']
    } else {
        seq!['f', 'a', 'l', 's', 'e']
    };
    let score = if fraud_count == 0 {
        seq!['0']
    } else if fraud_count == 5 {
        seq!['1']
    } else {
        seq!['0', '.', (48 + 2 * fraud_count) as char]
    };
    let text = seq!['{', '"', 'a', 'p', 'p', 'r', 'o', 'v', 'e', 'd', '"', ':'] + approved + seq![
        ',', '"', 'f', 'r', 'a', 'u', 'd', '_', 's', 'c', 'o', 'r', 'e', '"', ':',
    ] + score + seq!['}'];
    assert(response_text(fraud_count) =~= text);
}

/// What the parts of an account have once.
proof fn lemma_account(
    first: Seq<TraceEvent>,
    asked: TraceEvent,
    engine: Seq<TraceEvent>,
    own: TraceEvent,
    label: Seq<TraceEvent>,
    found: TraceEvent,
    stop: TraceEvent,
)
    requires
        asked is QueryKey && own is HomeCellCount && found is Neighbours && stop is StopReason,
        forall|k: int| 0 <= k < first.len() ==> (#[trigger] first[k]) is VectorizeUs,
        forall|k: int| 0 <= k < label.len() ==> (#[trigger] label[k]) is LabelScoreUs,
        forall|k: int| 0 <= k < engine.len() ==> is_of_engine(#[trigger] engine[k]),
        engine.filter(|e: TraceEvent| e is HomeCellCount) == seq![own],
    ensures
        ({
            let events = (first.push(asked) + engine + label).push(found).push(stop);
            &&& events.filter(|e: TraceEvent| e is QueryKey) == seq![asked]
            &&& events.filter(|e: TraceEvent| e is HomeCellCount) == seq![own]
            &&& events.filter(|e: TraceEvent| e is StopReason) == seq![stop]
            &&& events.filter(|e: TraceEvent| e is Neighbours) == seq![found]
        }),
{
    let begun = first.push(asked);
    let front = begun + engine + label;
    let events = front.push(found).push(stop);
    let tail = label + seq![found, stop];
    let behind = engine + tail;
    let none = Seq::<TraceEvent>::empty();
    assert forall|k: int| 0 <= k < tail.len() implies !(#[trigger] tail[k] is QueryKey) && !(
    tail[k] is HomeCellCount) by {
        if k < label.len() {
            assert(tail[k] == label[k]);
        }
    }
    assert forall|k: int| 0 <= k < behind.len() implies !(#[trigger] behind[k] is QueryKey) by {
        if k < engine.len() {
            assert(behind[k] == engine[k]);
        } else {
            assert(behind[k] == tail[k - engine.len()]);
        }
    }
    lemma_once_told(first, asked, behind, |e: TraceEvent| e is QueryKey);
    assert(events =~= first.push(asked) + behind);
    let is_home = |e: TraceEvent| e is HomeCellCount;
    assert forall|k: int| 0 <= k < begun.len() implies !is_home(#[trigger] begun[k]) by {
        if k < first.len() {
            assert(begun[k] == first[k]);
        }
    }
    lemma_none_told(begun, is_home);
    lemma_none_told(tail, is_home);
    Seq::filter_distributes_over_add(begun + engine, tail, is_home);
    Seq::filter_distributes_over_add(begun, engine, is_home);
    assert(events =~= begun + engine + tail);
    assert(events.filter(is_home) =~= seq![own]);
    assert forall|k: int| 0 <= k < front.len() implies !(#[trigger] front[k] is StopReason) && !(
    front[k] is Neighbours) by {
        if k < first.len() {
            assert(front[k] == first[k]);
        } else if begun.len() <= k < begun.len() + engine.len() {
            assert(front[k] == engine[k - begun.len()]);
        } else if k >= begun.len() + engine.len() {
            assert(front[k] == label[k - begun.len() - engine.len()]);
        }
    }
    lemma_once_told(front, found, seq![stop], |e: TraceEvent| e is Neighbours);
    assert(events =~= front.push(found) + seq![stop]);
    lemma_once_told(front.push(found), stop, none, |e: TraceEvent| e is StopReason);
    assert(events =~= front.push(found).push(stop) + none);
}

/// No part of an account tells a time where none of them does.
proof fn lemma_timeless(
    first: Seq<TraceEvent>,
    asked: TraceEvent,
    engine: Seq<TraceEvent>,
    label: Seq<TraceEvent>,
    found: TraceEvent,
    stop: TraceEvent,
)
    requires
        asked is QueryKey && found is Neighbours && stop is StopReason,
        first.len() == 0 && label.len() == 0,
        forall|k: int| 0 <= k < engine.len() ==> !is_time(#[trigger] engine[k]),
    ensures
        ({
            let events = (first.push(asked) + engine + label).push(found).push(stop);
            forall|k: int| 0 <= k < events.len() ==> !is_time(#[trigger] events[k])
        }),
{
    let events = (first.push(asked) + engine + label).push(found).push(stop);
    assert forall|k: int| 0 <= k < events.len() implies !is_time(#[trigger] events[k]) by {
        if 1 <= k < 1 + engine.len() {
            assert(events[k] == engine[k - 1]);
        }
    }
}

/// What a search tells its sink, event by event: once the key of the request's
/// cell; once how many vectors the index has for that cell; last but one the
/// distances of the neighbours, nearest first, and of the worst of five; and
/// last that it was exact. A sink that never asks for times is told none.
pub proof fn law_search_is_told<T: SearchTraceSink>(
    index: Index<'_>,
    p: Payload<'_>,
    before: T,
    after: T,
) -> (events: Seq<TraceEvent>)
    requires
        index.tells(p, before, after),
    ensures
        after == told_all(before, events),
        events.len() >= 2,
        events[events.len() - 1] == TraceEvent::StopReason("exact"),
        events[events.len() - 2] matches TraceEvent::Neighbours(distances, worst) && {
            let t = index.neighbours(p);
            &&& forall|i: int|
                0 <= i < 5 && i < t.len() ==> #[trigger] distances@[i] == t[i].key as int
                    / 0x1_0000_0000
            &&& forall|i: int| t.len() <= i < 5 ==> #[trigger] distances@[i] == i32::MAX
            &&& t.len() == 5 ==> worst == distances@[4]
            &&& t.len() < 5 ==> worst == i32::MAX
        },
        events.filter(|e: TraceEvent| e is QueryKey) == seq![
            TraceEvent::QueryKey(payload_cell(p) as u16),
        ],
        events.filter(|e: TraceEvent| e is HomeCellCount) == seq![
            TraceEvent::HomeCellCount(
                match index.spec_engine() {
                    SearchEngine::Cell => model_of(index.bytes()).cells[payload_cell(
                        p,
                    ) as u16 as int].count,
                    SearchEngine::Tree => model_of(index.bytes()).roots[payload_cell(
                        p,
                    ) as u16 as int].count,
                },
            ),
        ],
        events.filter(|e: TraceEvent| e is StopReason).len() == 1,
        events.filter(|e: TraceEvent| e is Neighbours).len() == 1,
        (forall|es: Seq<TraceEvent>| !(#[trigger] told_all(before, es)).times()) ==> forall|k: int|
            0 <= k < events.len() ==> !is_time(#[trigger] events[k]),
{
    let m = model_of(index.bytes());
    let q = payload_vector(p, index.table());
    let key = payload_cell(p) as u16;
    let t = index.neighbours(p);
    let (first, engine, label, distances) = choose|
        first: Seq<TraceEvent>,
        engine: Seq<TraceEvent>,
        label: Seq<TraceEvent>,
        distances: [i32; 5],
    | #[trigger]
        index.tells_in_turn(p, before, after, first, engine, label, distances);
    let asked = TraceEvent::QueryKey(key);
    let begun = first.push(asked);
    let found = TraceEvent::Neighbours(distances, worst_dist_of(t) as i32);
    let stop = TraceEvent::StopReason("exact");
    let sink = told_all(before, begun);
    let own = TraceEvent::HomeCellCount(
        match index.spec_engine() {
            SearchEngine::Cell => m.cells[key as int].count,
            SearchEngine::Tree => m.roots[key as int].count,
        },
    );
    match index.spec_engine() {
        SearchEngine::Cell => lemma_cells_tell(m, q, key, Seq::empty(), sink, engine),
        SearchEngine::Tree => lemma_tree_tells(m, q, key, Seq::empty(), sink, engine),
    }
    lemma_account(first, asked, engine, own, label, found, stop);
    if forall|es: Seq<TraceEvent>| !(#[trigger] told_all(before, es)).times() {
        assert forall|es: Seq<TraceEvent>| !(#[trigger] told_all(sink, es)).times() by {
            lemma_told_concat(before, begun, es);
            assert(!told_all(before, begun + es).times());
        }
        assert(!told_all(before, Seq::<TraceEvent>::empty()).times());
        assert(!told_all(before, begun + engine).times());
        assert(!told_all(sink, Seq::<TraceEvent>::empty()).times());
        lemma_timeless(first, asked, engine, label, found, stop);
    }
    if t.len() == 5 {
        assert(distances@[4] == t[4].key as int / 0x1_0000_0000);
    }
    (begun + engine + label).push(found).push(stop)
}

proof fn lemma_xor_moves(a: i64, b: i64, c: i64)
    ensures
        (a ^ b) ^ c == (a ^ c) ^ b,
        (a ^ b) ^ b == a,
        a ^ 0i64 == a,
        0i64 ^ a == a,
{
    assert((a ^ b) ^ c == (a ^ c) ^ b) by (bit_vector);
    assert((a ^ b) ^ b == a) by (bit_vector);
    assert(a ^ 0i64 == a) by (bit_vector);
    assert(0i64 ^ a == a) by (bit_vector);
}

proof fn lemma_xor_from(acc: i64, more: i64, values: Seq<i64>)
    ensures
        xor_all(acc ^ more, values) == xor_all(acc, values) ^ more,
    decreases values.len(),
{
    if values.len() > 0 {
        let init = values.drop_last();
        lemma_xor_from(acc, more, init);
        lemma_xor_moves(xor_all(acc, init), more, values.last());
    }
}

proof fn lemma_xor_nodes_from(acc: i64, more: i64, nodes: Seq<NodeModel>)
    ensures
        xor_nodes(acc ^ more, nodes) == xor_nodes(acc, nodes) ^ more,
    decreases nodes.len(),
{
    if nodes.len() > 0 {
        let init = nodes.drop_last();
        let node = nodes.last();
        let x = xor_nodes(acc, init);
        let a = node.min_original_id as i64;
        let b = node.bbox_min[0] as i64;
        let c = node.bbox_max[15] as i64;
        lemma_xor_nodes_from(acc, more, init);
        lemma_xor_moves(x, more, a);
        lemma_xor_moves(x ^ a, more, b);
        lemma_xor_moves(x ^ a ^ b, more, c);
    }
}

proof fn lemma_xor_changed(acc: i64, values: Seq<i64>, k: int, x: i64)
    requires
        0 <= k < values.len(),
    ensures
        xor_all(acc, values.update(k, x)) == xor_all(acc, values) ^ values[k] ^ x,
    decreases values.len(),
{
    let changed = values.update(k, x);
    let init = values.drop_last();
    if k == values.len() - 1 {
        assert(changed.drop_last() =~= init);
        lemma_xor_moves(xor_all(acc, init), values[k], x);
    } else {
        assert(changed.drop_last() =~= init.update(k, x));
        lemma_xor_changed(acc, init, k, x);
        let y = xor_all(acc, init);
        lemma_xor_moves(y ^ values[k], x, values.last());
        lemma_xor_moves(y, values[k], values.last());
    }
}

/// What the checksum depends on: a label changes it by its difference where
/// its place is a multiple of 4096, and not at all elsewhere; an identifier
/// where its place is a multiple of 1024; and of an empty index it is zero.
pub proof fn law_checksum(m: IndexModel, j: int, label: u8, id: u32)
    requires
        0 <= j < m.vectors.len(),
        m.labels.len() == m.vectors.len(),
        m.ids.len() == m.vectors.len(),
    ensures
        checksum((IndexModel { labels: m.labels.update(j, label), ..m })) == (if j % 4096 == 0 {
            checksum(m) ^ (m.labels[j] as i64) ^ (label as i64)
        } else {
            checksum(m)
        }),
        checksum((IndexModel { ids: m.ids.update(j, id), ..m })) == (if j % 1024 == 0 {
            checksum(m) ^ (m.ids[j] as i64) ^ (id as i64)
        } else {
            checksum(m)
        }),
{
    let n = m.vectors.len() as int;
    let a = xor_all(
        0,
        Seq::new(stepped(n, 64) as nat, |k: int| m.vectors[64 * k][0] as i64),
    );
    let labels = Seq::new(stepped(n, 4096) as nat, |k: int| m.labels[4096 * k] as i64);
    let b = xor_all(a, labels);
    let ids = Seq::new(stepped(n, 1024) as nat, |k: int| m.ids[1024 * k] as i64);
    let c = xor_all(b, ids);
    let keys = Seq::new(m.keys.len(), |k: int| (m.keys[k] as int % 65536) as i64);
    let d = xor_all(c, keys);
    let m1 = IndexModel { labels: m.labels.update(j, label), ..m };
    let labels1 = Seq::new(stepped(n, 4096) as nat, |k: int| m1.labels[4096 * k] as i64);
    if j % 4096 == 0 {
        let k = j / 4096;
        let old = m.labels[j] as i64;
        let new = label as i64;
        assert(labels1 =~= labels.update(k, new));
        lemma_xor_changed(a, labels, k, new);
        lemma_xor_from(b ^ old, new, ids);
        lemma_xor_from(b, old, ids);
        lemma_xor_from(c ^ old, new, keys);
        lemma_xor_from(c, old, keys);
        lemma_xor_nodes_from(d ^ old, new, m.nodes);
        lemma_xor_nodes_from(d, old, m.nodes);
    } else {
        assert(labels1 =~= labels);
    }
    let m2 = IndexModel { ids: m.ids.update(j, id), ..m };
    let ids2 = Seq::new(stepped(n, 1024) as nat, |k: int| m2.ids[1024 * k] as i64);
    if j % 1024 == 0 {
        let k = j / 1024;
        let old = m.ids[j] as i64;
        let new = id as i64;
        assert(ids2 =~= ids.update(k, new));
        lemma_xor_changed(b, ids, k, new);
        lemma_xor_from(c ^ old, new, keys);
        lemma_xor_from(c, old, keys);
        lemma_xor_nodes_from(d ^ old, new, m.nodes);
        lemma_xor_nodes_from(d, old, m.nodes);
    } else {
        assert(ids2 =~= ids);
    }
}

/// A vector changes the checksum by the difference of its first components
/// where its place is a multiple of 64, and a key by the difference of its low
/// halves.
pub proof fn law_checksum_of_vectors_and_keys(
    m: IndexModel,
    j: int,
    v: Seq<i16>,
    a: int,
    key: u32,
)
    requires
        0 <= j < m.vectors.len(),
        0 <= a < m.keys.len(),
    ensures
        checksum((IndexModel { vectors: m.vectors.update(j, v), ..m })) == (if j % 64 == 0 {
            checksum(m) ^ (m.vectors[j][0] as i64) ^ (v[0] as i64)
        } else {
            checksum(m)
        }),
        checksum((IndexModel { keys: m.keys.update(a, key), ..m })) == checksum(m) ^ ((
        m.keys[a] as int % 65536) as i64) ^ ((key as int % 65536) as i64),
{
    let n = m.vectors.len() as int;
    let firsts = Seq::new(stepped(n, 64) as nat, |k: int| m.vectors[64 * k][0] as i64);
    let w = xor_all(0, firsts);
    let labels = Seq::new(stepped(n, 4096) as nat, |k: int| m.labels[4096 * k] as i64);
    let x = xor_all(w, labels);
    let ids = Seq::new(stepped(n, 1024) as nat, |k: int| m.ids[1024 * k] as i64);
    let y = xor_all(x, ids);
    let keys = Seq::new(m.keys.len(), |k: int| (m.keys[k] as int % 65536) as i64);
    let z = xor_all(y, keys);
    let m1 = IndexModel { vectors: m.vectors.update(j, v), ..m };
    let firsts1 = Seq::new(stepped(n, 64) as nat, |k: int| m1.vectors[64 * k][0] as i64);
    if j % 64 == 0 {
        let k = j / 64;
        let old = m.vectors[j][0] as i64;
        let new = v[0] as i64;
        assert(firsts1 =~= firsts.update(k, new));
        lemma_xor_changed(0, firsts, k, new);
        lemma_xor_from(w ^ old, new, labels);
        lemma_xor_from(w, old, labels);
        lemma_xor_from(x ^ old, new, ids);
        lemma_xor_from(x, old, ids);
        lemma_xor_from(y ^ old, new, keys);
        lemma_xor_from(y, old, keys);
        lemma_xor_nodes_from(z ^ old, new, m.nodes);
        lemma_xor_nodes_from(z, old, m.nodes);
    } else {
        assert(firsts1 =~= firsts);
    }
    let old = (m.keys[a] as int % 65536) as i64;
    let new = (key as int % 65536) as i64;
    let m2 = IndexModel { keys: m.keys.update(a, key), ..m };
    let keys2 = Seq::new(m2.keys.len(), |k: int| (m2.keys[k] as int % 65536) as i64);
    assert(keys2 =~= keys.update(a, new));
    lemma_xor_changed(y, keys, a, new);
    lemma_xor_nodes_from(z ^ old, new, m.nodes);
    lemma_xor_nodes_from(z, old, m.nodes);
}

/// A node more changes the checksum by its identifier and two corners of its
/// box; and the checksum of an index without anything is zero.
pub proof fn law_checksum_of_nodes(m: IndexModel, node: NodeModel)
    ensures
        checksum((IndexModel { nodes: m.nodes.push(node), ..m })) == checksum(m) ^ (
        node.min_original_id as i64) ^ (node.bbox_min[0] as i64) ^ (node.bbox_max[15] as i64),
        m.vectors.len() == 0 && m.keys.len() == 0 && m.nodes.len() == 0 ==> checksum(m) == 0,
{
    assert(m.nodes.push(node).drop_last() =~= m.nodes);
}

} // verus!
