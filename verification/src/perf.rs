//! Statistics of the requests that were served.
use crate::numbers::{parse_u64, unsigned_of};
use crate::trace::{told_all, SearchTraceSink, TraceEvent};
use crate::types::same_str;
use vstd::arithmetic::div_mod::{lemma_fundamental_div_mod, lemma_mod_multiples_basic};
use vstd::prelude::*;

verus! {

/// How requests are traced.
#[derive(Clone, Copy, Debug, PartialEq, Eq, Structural)]
pub struct PerfConfig {
    /// How many requests make up a window.
    pub every: u64,
    /// From how many microseconds on a request is slow.
    pub slow_us: u64,
    /// Every which request is a sample; zero for none.
    pub sample: u64,
}

/// A setting that is a number, or else its default.
pub open spec fn setting_or(setting: Option<Seq<char>>, default: u64) -> u64 {
    match setting {
        Some(s) => match unsigned_of(s) {
            Some(number) => number,
            None => default,
        },
        None => default,
    }
}

pub open spec fn text_of(setting: Option<&str>) -> Option<Seq<char>> {
    match setting {
        Some(s) => Some(s@),
        None => None,
    }
}

/// Reads a setting that is a number.
fn number_or(setting: Option<&str>, default: u64) -> (number: u64)
    ensures
        number == setting_or(text_of(setting), default),
{
    match setting {
        Some(s) => match parse_u64(s) {
            Some(number) => number,
            None => default,
        },
        None => default,
    }
}

impl PerfConfig {
    /// Reads the values of environment variables; requests are traced only where
    /// the first is `1`.
    pub fn from_env(
        trace: Option<&str>,
        every: Option<&str>,
        slow_us: Option<&str>,
        sample: Option<&str>,
    ) -> (config: Option<Self>)
        ensures
            config is Some <==> text_of(trace) == Some("1"@),
            config matches Some(c) ==> {
                let e = setting_or(text_of(every), 10_000);
                &&& c.every == (if e == 0 {
                    1
                } else {
                    e
                })
                &&& c.slow_us == setting_or(text_of(slow_us), 1_000)
                &&& c.sample == setting_or(text_of(sample), 0)
            },
    {
        let on: bool = match trace {
            Some(value) => same_str(value, "1"),
            None => false,
        };
        if !on {
            return None;
        }
        let every: u64 = number_or(every, 10_000);
        Some(
            PerfConfig {
                every: if every < 1 {
                    1
                } else {
                    every
                },
                slow_us: number_or(slow_us, 1_000),
                sample: number_or(sample, 0),
            },
        )
    }
}

/// What a search did.
#[derive(Clone, Copy, Debug)]
pub struct SearchTrace {
    pub vectorize_us: u64,
    pub home_scan_us: u64,
    pub neighbor_seed_us: u64,
    pub branch_bound_us: u64,
    pub label_score_us: u64,
    pub home_cell_count: u64,
    pub scanned_vectors: u64,
    pub scanned_cells: u64,
    pub visited_cells: u64,
    pub pq_pushes: u64,
    pub pq_pops: u64,
    pub query_key: u64,
    pub nodes_visited: u64,
    pub leaves_scanned: u64,
    pub pruned_nodes: u64,
    pub worst_topk_dist: i64,
    pub topk_distances: [i64; 5],
    pub stop_reason: &'static str,
}

/// The sum, modulo the range of the counter.
pub open spec fn counted(counter: u64, more: int) -> u64 {
    ((counter + more) % 0x1_0000_0000_0000_0000) as u64
}

impl Default for SearchTrace {
    fn default() -> (trace: Self)
        ensures
            trace.vectorize_us == 0,
            trace.home_scan_us == 0,
            trace.neighbor_seed_us == 0,
            trace.branch_bound_us == 0,
            trace.label_score_us == 0,
            trace.home_cell_count == 0,
            trace.scanned_vectors == 0,
            trace.scanned_cells == 0,
            trace.visited_cells == 0,
            trace.pq_pushes == 0,
            trace.pq_pops == 0,
            trace.query_key == 0,
            trace.nodes_visited == 0,
            trace.leaves_scanned == 0,
            trace.pruned_nodes == 0,
            trace.worst_topk_dist == 0,
            trace.topk_distances@ == Seq::new(5, |i: int| 0i64),
            trace.stop_reason@ == ""@,
    {
        let topk_distances = [0i64; 5];
        assert(topk_distances@ =~= Seq::new(5, |i: int| 0i64));
        SearchTrace {
            vectorize_us: 0,
            home_scan_us: 0,
            neighbor_seed_us: 0,
            branch_bound_us: 0,
            label_score_us: 0,
            home_cell_count: 0,
            scanned_vectors: 0,
            scanned_cells: 0,
            visited_cells: 0,
            pq_pushes: 0,
            pq_pops: 0,
            query_key: 0,
            nodes_visited: 0,
            leaves_scanned: 0,
            pruned_nodes: 0,
            worst_topk_dist: 0,
            topk_distances,
            stop_reason: "",
        }
    }
}

impl SearchTraceSink for SearchTrace {
    open spec fn told(self, event: TraceEvent) -> Self {
        match event {
            TraceEvent::VectorizeUs(us) => SearchTrace {
                vectorize_us: counted(self.vectorize_us, us as int),
                ..self
            },
            TraceEvent::HomeCellCount(count) => SearchTrace {
                home_cell_count: count as u64,
                ..self
            },
            TraceEvent::HomeScan(us, vectors) => SearchTrace {
                home_scan_us: counted(self.home_scan_us, us as int),
                scanned_vectors: counted(self.scanned_vectors, vectors as int),
                scanned_cells: counted(self.scanned_cells, 1),
                ..self
            },
            TraceEvent::NeighborSeedUs(us) => SearchTrace {
                neighbor_seed_us: counted(self.neighbor_seed_us, us as int),
                ..self
            },
            TraceEvent::BranchBoundUs(us) => SearchTrace {
                branch_bound_us: counted(self.branch_bound_us, us as int),
                ..self
            },
            TraceEvent::LabelScoreUs(us) => SearchTrace {
                label_score_us: counted(self.label_score_us, us as int),
                ..self
            },
            TraceEvent::QueryKey(key) => SearchTrace { query_key: key as u64, ..self },
            TraceEvent::StopReason(reason) => SearchTrace { stop_reason: reason, ..self },
            TraceEvent::Neighbours(distances, worst) => SearchTrace {
                worst_topk_dist: worst as i64,
                topk_distances: [
                    distances[0] as i64,
                    distances[1] as i64,
                    distances[2] as i64,
                    distances[3] as i64,
                    distances[4] as i64,
                ],
                ..self
            },
            TraceEvent::BranchScan(vectors) => SearchTrace {
                scanned_vectors: counted(self.scanned_vectors, vectors as int),
                scanned_cells: counted(self.scanned_cells, 1),
                ..self
            },
            TraceEvent::VisitedCell => SearchTrace {
                visited_cells: counted(self.visited_cells, 1),
                ..self
            },
            TraceEvent::PqPush => SearchTrace { pq_pushes: counted(self.pq_pushes, 1), ..self },
            TraceEvent::PqPop => SearchTrace { pq_pops: counted(self.pq_pops, 1), ..self },
            TraceEvent::NodeVisited => SearchTrace {
                nodes_visited: counted(self.nodes_visited, 1),
                ..self
            },
            TraceEvent::LeafScanned => SearchTrace {
                leaves_scanned: counted(self.leaves_scanned, 1),
                ..self
            },
            TraceEvent::PrunedNode => SearchTrace {
                pruned_nodes: counted(self.pruned_nodes, 1),
                ..self
            },
        }
    }

    open spec fn times(self) -> bool {
        true
    }

    fn enabled(&self) -> (on: bool) {
        true
    }

    fn record_vectorize_us(&mut self, value: u64) {
        self.vectorize_us = self.vectorize_us.wrapping_add(value);
    }

    fn set_home_cell_count(&mut self, value: u32) {
        self.home_cell_count = value as u64;
    }

    fn add_home_scan_us(&mut self, value: u64, vectors: u32) {
        self.home_scan_us = self.home_scan_us.wrapping_add(value);
        self.scanned_vectors = self.scanned_vectors.wrapping_add(vectors as u64);
        self.scanned_cells = self.scanned_cells.wrapping_add(1);
    }

    fn record_neighbor_seed_us(&mut self, value: u64) {
        self.neighbor_seed_us = self.neighbor_seed_us.wrapping_add(value);
    }

    fn record_branch_bound_us(&mut self, value: u64) {
        self.branch_bound_us = self.branch_bound_us.wrapping_add(value);
    }

    fn record_label_score_us(&mut self, value: u64) {
        self.label_score_us = self.label_score_us.wrapping_add(value);
    }

    fn set_query_key(&mut self, value: u16) {
        self.query_key = value as u64;
    }

    fn set_stop_reason(&mut self, value: &'static str) {
        self.stop_reason = value;
    }

    fn record_topk(&mut self, distances: [i32; 5], worst_dist_sq: i32) {
        self.worst_topk_dist = worst_dist_sq as i64;
        self.topk_distances = [
            distances[0] as i64,
            distances[1] as i64,
            distances[2] as i64,
            distances[3] as i64,
            distances[4] as i64,
        ];
    }

    fn add_branch_scan(&mut self, vectors: u32) {
        self.scanned_vectors = self.scanned_vectors.wrapping_add(vectors as u64);
        self.scanned_cells = self.scanned_cells.wrapping_add(1);
    }

    fn inc_visited_cells(&mut self) {
        self.visited_cells = self.visited_cells.wrapping_add(1);
    }

    fn inc_pq_pushes(&mut self) {
        self.pq_pushes = self.pq_pushes.wrapping_add(1);
    }

    fn inc_pq_pops(&mut self) {
        self.pq_pops = self.pq_pops.wrapping_add(1);
    }

    fn inc_nodes_visited(&mut self) {
        self.nodes_visited = self.nodes_visited.wrapping_add(1);
    }

    fn inc_leaves_scanned(&mut self) {
        self.leaves_scanned = self.leaves_scanned.wrapping_add(1);
    }

    fn inc_pruned_nodes(&mut self) {
        self.pruned_nodes = self.pruned_nodes.wrapping_add(1);
    }
}

/// A request that was served.
#[derive(Clone, Copy, Debug)]
pub struct RequestPerf {
    pub request_id: u64,
    pub in_flight_at_start: u64,
    pub max_in_flight_seen: u64,
    pub handler_total_us: u64,
    pub json_parse_us: u64,
    pub search_total_us: u64,
    pub response_build_us: u64,
    pub search: SearchTrace,
}

/// A request that is being served.
#[derive(Clone, Copy, Debug, PartialEq, Eq, Structural)]
pub struct RequestGuard {
    request_id: u64,
    in_flight_at_start: u64,
}

impl RequestGuard {
    pub closed spec fn id(&self) -> u64 {
        self.request_id
    }

    pub closed spec fn started_with(&self) -> u64 {
        self.in_flight_at_start
    }

    pub fn request_id(&self) -> (id: u64)
        ensures
            id == self.id(),
    {
        self.request_id
    }

    /// How many requests were being served when this one began, itself included.
    pub fn in_flight_at_start(&self) -> (n: u64)
        ensures
            n == self.started_with(),
    {
        self.in_flight_at_start
    }
}

/// What is reported of a single request.
#[derive(Clone, Copy, Debug, PartialEq, Eq, Structural)]
pub enum Report {
    Slow,
    Sample,
}

/// What recording a request calls for: a report on it, and a summary of the
/// window that it completed.
pub struct Recorded {
    pub report: Option<Report>,
    pub flush: Option<Vec<RequestPerf>>,
}

/// What is reported of a request.
pub open spec fn report_of(config: PerfConfig, record: RequestPerf) -> Option<Report> {
    if record.handler_total_us >= config.slow_us {
        Some(Report::Slow)
    } else if config.sample > 0 && record.request_id % config.sample == 0 {
        Some(Report::Sample)
    } else {
        None
    }
}

/// Numbers the requests, counts those in flight and collects them in windows.
pub struct PerfCollector {
    config: PerfConfig,
    request_seq: u64,
    in_flight: u64,
    max_in_flight: u64,
    window: Vec<RequestPerf>,
}

impl PerfCollector {
    pub closed spec fn spec_config(&self) -> PerfConfig {
        self.config
    }

    pub closed spec fn seq(&self) -> u64 {
        self.request_seq
    }

    pub closed spec fn flying(&self) -> u64 {
        self.in_flight
    }

    pub closed spec fn peak(&self) -> u64 {
        self.max_in_flight
    }

    pub closed spec fn collected(&self) -> Seq<RequestPerf> {
        self.window@
    }

    /// What is counted of the requests.
    pub open spec fn flight(&self) -> Flight {
        Flight { seq: self.seq(), flying: self.flying(), peak: self.peak() }
    }

    pub fn new(config: PerfConfig) -> (collector: Self)
        ensures
            collector.spec_config() == config,
            collector.seq() == 0,
            collector.flying() == 0,
            collector.peak() == 0,
            collector.collected() == Seq::<RequestPerf>::empty(),
            collector.flight() == after_run(seq![]),
    {
        PerfCollector { config, request_seq: 0, in_flight: 0, max_in_flight: 0, window: Vec::new() }
    }

    /// Gives the request its number and counts it as in flight.
    pub fn begin_request(&mut self) -> (guard: RequestGuard)
        ensures
            guard.id() == counted(old(self).seq(), 1),
            guard.started_with() == counted(old(self).flying(), 1),
            final(self).spec_config() == old(self).spec_config(),
            final(self).seq() == guard.id(),
            final(self).flying() == guard.started_with(),
            final(self).peak() == (if guard.started_with() > old(self).peak() {
                guard.started_with()
            } else {
                old(self).peak()
            }),
            final(self).collected() == old(self).collected(),
            final(self).flight() == begun(old(self).flight()),
    {
        self.request_seq = self.request_seq.wrapping_add(1);
        self.in_flight = self.in_flight.wrapping_add(1);
        self.update_max_in_flight(self.in_flight);
        RequestGuard { request_id: self.request_seq, in_flight_at_start: self.in_flight }
    }

    /// The request is no longer in flight.
    pub fn end_request(&mut self)
        ensures
            final(self).spec_config() == old(self).spec_config(),
            final(self).seq() == old(self).seq(),
            final(self).flying() == counted(old(self).flying(), -1),
            final(self).peak() == old(self).peak(),
            final(self).collected() == old(self).collected(),
            final(self).flight() == ended(old(self).flight()),
    {
        self.in_flight = self.in_flight.wrapping_sub(1);
    }

    fn update_max_in_flight(&mut self, value: u64)
        ensures
            *final(self) == (PerfCollector {
                max_in_flight: if value > old(self).max_in_flight {
                    value
                } else {
                    old(self).max_in_flight
                },
                ..*old(self)
            }),
    {
        if value > self.max_in_flight {
            self.max_in_flight = value;
        }
    }

    /// The largest number of requests that were in flight at once.
    pub fn max_in_flight_seen(&self) -> (n: u64)
        ensures
            n == self.peak(),
    {
        self.max_in_flight
    }

    pub fn current_in_flight(&self) -> (n: u64)
        ensures
            n == self.flying(),
    {
        self.in_flight
    }

    pub fn request_count(&self) -> (n: u64)
        ensures
            n == self.seq(),
    {
        self.request_seq
    }

    /// Adds a request to the window; a window that is complete is handed out,
    /// and a new one begins.
    pub fn record_request(&mut self, record: RequestPerf) -> (recorded: Recorded)
        ensures
            recorded.report == report_of(old(self).spec_config(), record),
            final(self).spec_config() == old(self).spec_config(),
            final(self).seq() == old(self).seq(),
            final(self).flying() == old(self).flying(),
            final(self).peak() == old(self).peak(),
            ({
                let grown = old(self).collected().push(record);
                if grown.len() >= old(self).spec_config().every {
                    &&& recorded.flush matches Some(window) && window@ == grown
                    &&& final(self).collected() == Seq::<RequestPerf>::empty()
                } else {
                    &&& recorded.flush is None
                    &&& final(self).collected() == grown
                }
            }),
    {
        let report = if record.handler_total_us >= self.config.slow_us {
            Some(Report::Slow)
        } else if self.config.sample > 0 && record.request_id % self.config.sample == 0 {
            Some(Report::Sample)
        } else {
            None
        };
        self.window.push(record);
        let flush = if self.window.len() as u64 >= self.config.every {
            let mut window: Vec<RequestPerf> = Vec::new();
            std::mem::swap(&mut window, &mut self.window);
            Some(window)
        } else {
            None
        };
        Recorded { report, flush }
    }
}

/// What is counted of the requests: how many began, how many are in flight, and
/// how many were at most.
pub struct Flight {
    pub seq: u64,
    pub flying: u64,
    pub peak: u64,
}

/// A request begins.
pub open spec fn begun(f: Flight) -> Flight {
    let flying = counted(f.flying, 1);
    Flight {
        seq: counted(f.seq, 1),
        flying,
        peak: if flying > f.peak {
            flying
        } else {
            f.peak
        },
    }
}

/// A request ends.
pub open spec fn ended(f: Flight) -> Flight {
    Flight { flying: counted(f.flying, -1), ..f }
}

/// What is counted after a run from the start; each step is a request that
/// begins (`true`) or one that ends.
pub open spec fn after_run(steps: Seq<bool>) -> Flight
    decreases steps.len(),
{
    if steps.len() == 0 {
        Flight { seq: 0, flying: 0, peak: 0 }
    } else if steps.last() {
        begun(after_run(steps.drop_last()))
    } else {
        ended(after_run(steps.drop_last()))
    }
}

/// How many requests began in the run.
pub open spec fn begins(steps: Seq<bool>) -> int
    decreases steps.len(),
{
    if steps.len() == 0 {
        0
    } else {
        begins(steps.drop_last()) + (if steps.last() {
            1int
        } else {
            0
        })
    }
}

/// How many of them have not ended.
pub open spec fn alive(steps: Seq<bool>) -> int {
    2 * begins(steps) - steps.len()
}

/// At no point more requests have ended than began.
pub open spec fn is_run(steps: Seq<bool>) -> bool
    decreases steps.len(),
{
    alive(steps) >= 0 && (steps.len() == 0 || is_run(steps.drop_last()))
}

/// The largest number in flight that any request of the run found as it began,
/// itself included; zero where none began.
pub open spec fn highest(steps: Seq<bool>) -> int
    decreases steps.len(),
{
    if steps.len() == 0 {
        0
    } else {
        let before = highest(steps.drop_last());
        if steps.last() && alive(steps) > before {
            alive(steps)
        } else {
            before
        }
    }
}

/// The requests of a run are numbered as they begin, those in flight are the
/// ones that began and have not ended, and the largest number in flight is the
/// largest that any request found as it began, itself included.
pub proof fn law_run_is_counted(steps: Seq<bool>)
    requires
        is_run(steps),
        steps.len() <= u64::MAX,
    ensures
        after_run(steps).seq == begins(steps),
        after_run(steps).flying == alive(steps),
        after_run(steps).peak == highest(steps),
        0 <= begins(steps) <= steps.len(),
        0 <= highest(steps) <= steps.len(),
    decreases steps.len(),
{
    if steps.len() > 0 {
        law_run_is_counted(steps.drop_last());
    }
}

/// The next request of a run is numbered after those that began, and finds
/// itself and those that have not ended in flight.
pub proof fn law_next_request(steps: Seq<bool>)
    requires
        is_run(steps),
        steps.len() < u64::MAX,
    ensures
        begun(after_run(steps)).seq == begins(steps) + 1,
        begun(after_run(steps)).flying == alive(steps) + 1,
        begun(after_run(steps)).peak == highest(steps.push(true)),
{
    let more = steps.push(true);
    assert(more.drop_last() =~= steps);
    law_run_is_counted(more);
}

/// The largest number is one that a request found as it began, and none found
/// more.
pub proof fn law_highest_is_found(steps: Seq<bool>, k: int)
    requires
        0 <= k < steps.len(),
        steps[k],
    ensures
        alive(steps.take(k + 1)) <= highest(steps),
        highest(steps) > 0 ==> exists|at: int| #[trigger] found_at(steps, at, highest(steps)),
    decreases steps.len(),
{
    let init = steps.drop_last();
    let last = steps.len() - 1;
    assert(steps.take(last + 1) =~= steps);
    if k < last {
        law_highest_is_found(init, k);
        assert(init.take(k + 1) =~= steps.take(k + 1));
    }
    lemma_found(steps);
}

/// The request that begins at a step finds so many in flight, itself included.
pub open spec fn found_at(steps: Seq<bool>, at: int, n: int) -> bool {
    0 <= at < steps.len() && steps[at] && alive(steps.take(at + 1)) == n
}

proof fn lemma_found(steps: Seq<bool>)
    ensures
        highest(steps) > 0 ==> exists|at: int| #[trigger] found_at(steps, at, highest(steps)),
    decreases steps.len(),
{
    if steps.len() > 0 && highest(steps) > 0 {
        let init = steps.drop_last();
        let last = steps.len() - 1;
        if highest(steps) == highest(init) {
            lemma_found(init);
            let at = choose|at: int| #[trigger] found_at(init, at, highest(init));
            assert(init.take(at + 1) =~= steps.take(at + 1));
            assert(found_at(steps, at, highest(steps)));
        } else {
            assert(steps.take(last + 1) =~= steps);
            assert(found_at(steps, last, highest(steps)));
        }
    }
}

/// A request that begins and ends leaves the number of requests in flight as
/// it was.
pub proof fn law_in_flight_returns(flying: u64)
    ensures
        counted(counted(flying, 1), -1) == flying,
{
}

/// What is measured of a request.
#[derive(Clone, Copy, Debug, PartialEq, Eq, Structural)]
pub enum Metric {
    HandlerTotal,
    JsonParse,
    SearchTotal,
    ResponseBuild,
    Vectorize,
    HomeScan,
    NeighborSeed,
    BranchBound,
    LabelScore,
    HomeCellCount,
    ScannedVectors,
    ScannedCells,
    VisitedCells,
    PqPushes,
    PqPops,
    NodesVisited,
    LeavesScanned,
    PrunedNodes,
}

pub open spec fn metric_of(record: RequestPerf, metric: Metric) -> u64 {
    match metric {
        Metric::HandlerTotal => record.handler_total_us,
        Metric::JsonParse => record.json_parse_us,
        Metric::SearchTotal => record.search_total_us,
        Metric::ResponseBuild => record.response_build_us,
        Metric::Vectorize => record.search.vectorize_us,
        Metric::HomeScan => record.search.home_scan_us,
        Metric::NeighborSeed => record.search.neighbor_seed_us,
        Metric::BranchBound => record.search.branch_bound_us,
        Metric::LabelScore => record.search.label_score_us,
        Metric::HomeCellCount => record.search.home_cell_count,
        Metric::ScannedVectors => record.search.scanned_vectors,
        Metric::ScannedCells => record.search.scanned_cells,
        Metric::VisitedCells => record.search.visited_cells,
        Metric::PqPushes => record.search.pq_pushes,
        Metric::PqPops => record.search.pq_pops,
        Metric::NodesVisited => record.search.nodes_visited,
        Metric::LeavesScanned => record.search.leaves_scanned,
        Metric::PrunedNodes => record.search.pruned_nodes,
    }
}

pub fn measure(record: &RequestPerf, metric: Metric) -> (value: u64)
    ensures
        value == metric_of(*record, metric),
{
    match metric {
        Metric::HandlerTotal => record.handler_total_us,
        Metric::JsonParse => record.json_parse_us,
        Metric::SearchTotal => record.search_total_us,
        Metric::ResponseBuild => record.response_build_us,
        Metric::Vectorize => record.search.vectorize_us,
        Metric::HomeScan => record.search.home_scan_us,
        Metric::NeighborSeed => record.search.neighbor_seed_us,
        Metric::BranchBound => record.search.branch_bound_us,
        Metric::LabelScore => record.search.label_score_us,
        Metric::HomeCellCount => record.search.home_cell_count,
        Metric::ScannedVectors => record.search.scanned_vectors,
        Metric::ScannedCells => record.search.scanned_cells,
        Metric::VisitedCells => record.search.visited_cells,
        Metric::PqPushes => record.search.pq_pushes,
        Metric::PqPops => record.search.pq_pops,
        Metric::NodesVisited => record.search.nodes_visited,
        Metric::LeavesScanned => record.search.leaves_scanned,
        Metric::PrunedNodes => record.search.pruned_nodes,
    }
}

/// What is reported of a request: that it is slow exactly where it took at
/// least so long, and else that it is a sample exactly where samples are taken
/// and its number is a multiple of their distance.
pub proof fn law_reports(config: PerfConfig, record: RequestPerf)
    ensures
        report_of(config, record) == Some(Report::Slow) <==> record.handler_total_us
            >= config.slow_us,
        report_of(config, record) == Some(Report::Sample) <==> record.handler_total_us
            < config.slow_us && config.sample > 0 && exists|k: int|
            0 <= k && record.request_id == #[trigger] (k * config.sample),
{
    if config.sample > 0 {
        let k = record.request_id as int / config.sample as int;
        assert(record.request_id == k * config.sample + record.request_id as int
            % config.sample as int) by {
            lemma_fundamental_div_mod(record.request_id as int, config.sample as int);
            assert(k * config.sample == config.sample * k) by (nonlinear_arith);
        }
        if exists|k: int| 0 <= k && record.request_id == #[trigger] (k * config.sample) {
            let j = choose|k: int| 0 <= k && record.request_id == #[trigger] (k * config.sample);
            lemma_mod_multiples_basic(j, config.sample as int);
        }
    }
}

proof fn lemma_counted(counter: u64, more: int)
    requires
        0 <= more,
    ensures
        counter + more <= u64::MAX ==> counted(counter, more) == counter + more,
{
}

/// What a trace makes of the times that it is told: each is added to its own
/// field, and nothing else changes.
pub proof fn law_times_are_recorded(t: SearchTrace, us: u64)
    ensures
        t.times(),
        t.vectorize_us + us <= u64::MAX ==> t.told(TraceEvent::VectorizeUs(us)) == (SearchTrace {
            vectorize_us: (t.vectorize_us + us) as u64,
            ..t
        }),
        t.neighbor_seed_us + us <= u64::MAX ==> t.told(TraceEvent::NeighborSeedUs(us)) == (
        SearchTrace { neighbor_seed_us: (t.neighbor_seed_us + us) as u64, ..t }),
        t.branch_bound_us + us <= u64::MAX ==> t.told(TraceEvent::BranchBoundUs(us)) == (
        SearchTrace { branch_bound_us: (t.branch_bound_us + us) as u64, ..t }),
        t.label_score_us + us <= u64::MAX ==> t.told(TraceEvent::LabelScoreUs(us)) == (SearchTrace {
            label_score_us: (t.label_score_us + us) as u64,
            ..t
        }),
{
    lemma_counted(t.vectorize_us, us as int);
    lemma_counted(t.neighbor_seed_us, us as int);
    lemma_counted(t.branch_bound_us, us as int);
    lemma_counted(t.label_score_us, us as int);
}

/// What a trace makes of the steps that it is told: each is counted in its own
/// field, and nothing else changes.
pub proof fn law_steps_are_recorded(t: SearchTrace)
    ensures
        t.visited_cells + 1 <= u64::MAX ==> t.told(TraceEvent::VisitedCell) == (SearchTrace {
            visited_cells: (t.visited_cells + 1) as u64,
            ..t
        }),
        t.pq_pushes + 1 <= u64::MAX ==> t.told(TraceEvent::PqPush) == (SearchTrace {
            pq_pushes: (t.pq_pushes + 1) as u64,
            ..t
        }),
        t.pq_pops + 1 <= u64::MAX ==> t.told(TraceEvent::PqPop) == (SearchTrace {
            pq_pops: (t.pq_pops + 1) as u64,
            ..t
        }),
        t.nodes_visited + 1 <= u64::MAX ==> t.told(TraceEvent::NodeVisited) == (SearchTrace {
            nodes_visited: (t.nodes_visited + 1) as u64,
            ..t
        }),
        t.leaves_scanned + 1 <= u64::MAX ==> t.told(TraceEvent::LeafScanned) == (SearchTrace {
            leaves_scanned: (t.leaves_scanned + 1) as u64,
            ..t
        }),
        t.pruned_nodes + 1 <= u64::MAX ==> t.told(TraceEvent::PrunedNode) == (SearchTrace {
            pruned_nodes: (t.pruned_nodes + 1) as u64,
            ..t
        }),
{
    lemma_counted(t.visited_cells, 1);
    lemma_counted(t.pq_pushes, 1);
    lemma_counted(t.pq_pops, 1);
    lemma_counted(t.nodes_visited, 1);
    lemma_counted(t.leaves_scanned, 1);
    lemma_counted(t.pruned_nodes, 1);
}

/// What a trace makes of the scans that it is told: the vectors and the cell
/// are counted, and the time of the first scan is added.
pub proof fn law_scans_are_recorded(t: SearchTrace, us: u64, n: u32)
    ensures
        t.scanned_vectors + n <= u64::MAX && t.scanned_cells + 1 <= u64::MAX ==> t.told(
            TraceEvent::BranchScan(n),
        ) == (SearchTrace {
            scanned_vectors: (t.scanned_vectors + n) as u64,
            scanned_cells: (t.scanned_cells + 1) as u64,
            ..t
        }),
        t.home_scan_us + us <= u64::MAX && t.scanned_vectors + n <= u64::MAX && t.scanned_cells + 1
            <= u64::MAX ==> t.told(TraceEvent::HomeScan(us, n)) == (SearchTrace {
            home_scan_us: (t.home_scan_us + us) as u64,
            scanned_vectors: (t.scanned_vectors + n) as u64,
            scanned_cells: (t.scanned_cells + 1) as u64,
            ..t
        }),
{
    lemma_counted(t.scanned_vectors, n as int);
    lemma_counted(t.scanned_cells, 1);
    lemma_counted(t.home_scan_us, us as int);
}

/// What a trace makes of the facts that it is told: each is kept in its own
/// field, and nothing else changes.
pub proof fn law_facts_are_recorded(
    t: SearchTrace,
    n: u32,
    key: u16,
    reason: &'static str,
    distances: [i32; 5],
    worst: i32,
)
    ensures
        t.told(TraceEvent::HomeCellCount(n)) == (SearchTrace { home_cell_count: n as u64, ..t }),
        t.told(TraceEvent::QueryKey(key)) == (SearchTrace { query_key: key as u64, ..t }),
        t.told(TraceEvent::StopReason(reason)) == (SearchTrace { stop_reason: reason, ..t }),
        ({
            let u = t.told(TraceEvent::Neighbours(distances, worst));
            &&& u.worst_topk_dist == worst
            &&& forall|i: int| 0 <= i < 5 ==> #[trigger] u.topk_distances@[i] == distances@[i]
            &&& u == (SearchTrace {
                worst_topk_dist: u.worst_topk_dist,
                topk_distances: u.topk_distances,
                ..t
            })
        }),
{
}

proof fn lemma_counted_on(counter: u64, n: int, k: int)
    requires
        0 <= n,
        0 <= k <= 1,
    ensures
        counted(counted(counter, n), k) == counted(counter, n + k),
        counted(counter, n) == (counter + n) % 0x1_0000_0000_0000_0000,
{
}

proof fn lemma_counters_told(t: SearchTrace, event: TraceEvent)
    ensures
        t.told(event).visited_cells == (if event is VisitedCell {
            counted(t.visited_cells, 1)
        } else {
            t.visited_cells
        }),
        t.told(event).pq_pushes == (if event is PqPush {
            counted(t.pq_pushes, 1)
        } else {
            t.pq_pushes
        }),
        t.told(event).pq_pops == (if event is PqPop {
            counted(t.pq_pops, 1)
        } else {
            t.pq_pops
        }),
        t.told(event).nodes_visited == (if event is NodeVisited {
            counted(t.nodes_visited, 1)
        } else {
            t.nodes_visited
        }),
        t.told(event).leaves_scanned == (if event is LeafScanned {
            counted(t.leaves_scanned, 1)
        } else {
            t.leaves_scanned
        }),
        t.told(event).pruned_nodes == (if event is PrunedNode {
            counted(t.pruned_nodes, 1)
        } else {
            t.pruned_nodes
        }),
{
}

/// The counters of a trace count how often it was told, up to their range.
pub proof fn law_counters_count(t: SearchTrace, events: Seq<TraceEvent>)
    ensures
        told_all(t, events).visited_cells == (t.visited_cells + events.to_multiset().count(
            TraceEvent::VisitedCell,
        )) % 0x1_0000_0000_0000_0000,
        told_all(t, events).pq_pushes == (t.pq_pushes + events.to_multiset().count(
            TraceEvent::PqPush,
        )) % 0x1_0000_0000_0000_0000,
        told_all(t, events).pq_pops == (t.pq_pops + events.to_multiset().count(
            TraceEvent::PqPop,
        )) % 0x1_0000_0000_0000_0000,
        told_all(t, events).nodes_visited == (t.nodes_visited + events.to_multiset().count(
            TraceEvent::NodeVisited,
        )) % 0x1_0000_0000_0000_0000,
        told_all(t, events).leaves_scanned == (t.leaves_scanned + events.to_multiset().count(
            TraceEvent::LeafScanned,
        )) % 0x1_0000_0000_0000_0000,
        told_all(t, events).pruned_nodes == (t.pruned_nodes + events.to_multiset().count(
            TraceEvent::PrunedNode,
        )) % 0x1_0000_0000_0000_0000,
{
    lemma_counters_count(t, events);
    let all = events.to_multiset();
    lemma_counted_on(t.visited_cells, all.count(TraceEvent::VisitedCell) as int, 0);
    lemma_counted_on(t.pq_pushes, all.count(TraceEvent::PqPush) as int, 0);
    lemma_counted_on(t.pq_pops, all.count(TraceEvent::PqPop) as int, 0);
    lemma_counted_on(t.nodes_visited, all.count(TraceEvent::NodeVisited) as int, 0);
    lemma_counted_on(t.leaves_scanned, all.count(TraceEvent::LeafScanned) as int, 0);
    lemma_counted_on(t.pruned_nodes, all.count(TraceEvent::PrunedNode) as int, 0);
}

proof fn lemma_counters_count(t: SearchTrace, events: Seq<TraceEvent>)
    ensures
        told_all(t, events).visited_cells == counted(
            t.visited_cells,
            events.to_multiset().count(TraceEvent::VisitedCell) as int,
        ),
        told_all(t, events).pq_pushes == counted(
            t.pq_pushes,
            events.to_multiset().count(TraceEvent::PqPush) as int,
        ),
        told_all(t, events).pq_pops == counted(
            t.pq_pops,
            events.to_multiset().count(TraceEvent::PqPop) as int,
        ),
        told_all(t, events).nodes_visited == counted(
            t.nodes_visited,
            events.to_multiset().count(TraceEvent::NodeVisited) as int,
        ),
        told_all(t, events).leaves_scanned == counted(
            t.leaves_scanned,
            events.to_multiset().count(TraceEvent::LeafScanned) as int,
        ),
        told_all(t, events).pruned_nodes == counted(
            t.pruned_nodes,
            events.to_multiset().count(TraceEvent::PrunedNode) as int,
        ),
    decreases events.len(),
{
    events.to_multiset_ensures();
    if events.len() > 0 {
        let init = events.drop_last();
        lemma_counters_count(t, init);
        init.to_multiset_ensures();
        assert(init.push(events.last()) =~= events);
        let u = told_all(t, init);
        lemma_counters_told(u, events.last());
        let all = init.to_multiset();
        lemma_counted_on(t.visited_cells, all.count(TraceEvent::VisitedCell) as int, 1);
        lemma_counted_on(t.pq_pushes, all.count(TraceEvent::PqPush) as int, 1);
        lemma_counted_on(t.pq_pops, all.count(TraceEvent::PqPop) as int, 1);
        lemma_counted_on(t.nodes_visited, all.count(TraceEvent::NodeVisited) as int, 1);
        lemma_counted_on(t.leaves_scanned, all.count(TraceEvent::LeafScanned) as int, 1);
        lemma_counted_on(t.pruned_nodes, all.count(TraceEvent::PrunedNode) as int, 1);
    }
}

/// What is counted of a run of requests, none of which ends before it began:
/// the number of those that began; in flight those that did not end; and as
/// the largest number in flight one that was reached, and none was larger.
pub proof fn law_requests_are_counted(steps: Seq<bool>)
    requires
        steps.len() <= u64::MAX,
        forall|k: int|
            0 <= k <= steps.len() ==> (#[trigger] steps.take(k)).filter(|b: bool| !b).len()
                <= steps.take(k).filter(|b: bool| b).len(),
    ensures
        after_run(steps).seq == steps.filter(|b: bool| b).len(),
        after_run(steps).flying == steps.filter(|b: bool| b).len() - steps.filter(
            |b: bool| !b,
        ).len(),
        forall|k: int|
            0 <= k <= steps.len() ==> (#[trigger] steps.take(k)).filter(|b: bool| b).len()
                - steps.take(k).filter(|b: bool| !b).len() <= after_run(steps).peak,
        exists|k: int|
            0 <= k <= steps.len() && (#[trigger] steps.take(k)).filter(|b: bool| b).len()
                - steps.take(k).filter(|b: bool| !b).len() == after_run(steps).peak,
    decreases steps.len(),
{
    let went = |b: bool| b;
    let came = |b: bool| !b;
    reveal(Seq::filter);
    let n = steps.len() as int;
    assert(steps.take(n) =~= steps);
    if n == 0 {
        assert(steps.take(0).filter(went).len() == 0);
    } else {
        let init = steps.drop_last();
        assert forall|k: int| 0 <= k <= init.len() implies #[trigger] init.take(k) == steps.take(
            k,
        ) by {
            assert(init.take(k) =~= steps.take(k));
        }
        assert forall|k: int| 0 <= k <= init.len() implies (#[trigger] init.take(k)).filter(
            came,
        ).len() <= init.take(k).filter(went).len() by {
            assert(init.take(k) == steps.take(k));
        }
        law_requests_are_counted(init);
        init.lemma_filter_len(went);
        init.lemma_filter_len(came);
        assert(steps.take(n).filter(came).len() <= steps.take(n).filter(went).len());
        let k0 = choose|k: int|
            0 <= k <= init.len() && (#[trigger] init.take(k)).filter(went).len() - init.take(
                k,
            ).filter(came).len() == after_run(init).peak;
        assert(init.take(k0) == steps.take(k0));
        assert forall|k: int| 0 <= k <= steps.len() implies (#[trigger] steps.take(k)).filter(
            went,
        ).len() - steps.take(k).filter(came).len() <= after_run(steps).peak by {
            if k < n {
                assert(init.take(k) == steps.take(k));
            } else {
                assert(init.take(init.len() as int) =~= init);
                assert(init.take(init.len() as int).filter(went).len() - init.take(
                    init.len() as int,
                ).filter(came).len() <= after_run(init).peak);
            }
        }
        if after_run(steps).peak == after_run(init).peak {
            assert(steps.take(k0).filter(went).len() - steps.take(k0).filter(came).len()
                == after_run(steps).peak);
        } else {
            assert(steps.take(n).filter(went).len() - steps.take(n).filter(came).len()
                == after_run(steps).peak);
        }
    }
}

/// A setting is the number that it says, and the default where it says none.
pub proof fn law_settings(text: Seq<char>, default: u64)
    ensures
        text_of(None) is None,
        forall|s: &str| #[trigger] text_of(Some(s)) == Some(s@),
        setting_or(None, default) == default,
        unsigned_of(text) is None ==> setting_or(Some(text), default) == default,
        unsigned_of(text) matches Some(number) ==> setting_or(Some(text), default) == number,
{
}

/// Every metric is read from its own field of a request.
pub proof fn law_metrics(r: RequestPerf)
    ensures
        metric_of(r, Metric::HandlerTotal) == r.handler_total_us,
        metric_of(r, Metric::JsonParse) == r.json_parse_us,
        metric_of(r, Metric::SearchTotal) == r.search_total_us,
        metric_of(r, Metric::ResponseBuild) == r.response_build_us,
        metric_of(r, Metric::Vectorize) == r.search.vectorize_us,
        metric_of(r, Metric::HomeScan) == r.search.home_scan_us,
        metric_of(r, Metric::NeighborSeed) == r.search.neighbor_seed_us,
        metric_of(r, Metric::BranchBound) == r.search.branch_bound_us,
        metric_of(r, Metric::LabelScore) == r.search.label_score_us,
        metric_of(r, Metric::HomeCellCount) == r.search.home_cell_count,
        metric_of(r, Metric::ScannedVectors) == r.search.scanned_vectors,
        metric_of(r, Metric::ScannedCells) == r.search.scanned_cells,
        metric_of(r, Metric::VisitedCells) == r.search.visited_cells,
        metric_of(r, Metric::PqPushes) == r.search.pq_pushes,
        metric_of(r, Metric::PqPops) == r.search.pq_pops,
        metric_of(r, Metric::NodesVisited) == r.search.nodes_visited,
        metric_of(r, Metric::LeavesScanned) == r.search.leaves_scanned,
        metric_of(r, Metric::PrunedNodes) == r.search.pruned_nodes,
{
}

/// A request that begins gets the next number and is counted as in flight, and
/// one that ends is not any more; the largest number in flight is kept.
pub proof fn law_requests_begin_and_end(
    c: &mut PerfCollector,
    d: &mut PerfCollector,
    guard: RequestGuard,
    id: u64,
    at_start: u64,
)
    requires
        call_ensures(PerfCollector::begin_request, (c,), guard),
        call_ensures(PerfCollector::end_request, (d,), ()),
        call_ensures(RequestGuard::request_id, (&guard,), id),
        call_ensures(RequestGuard::in_flight_at_start, (&guard,), at_start),
    ensures
        old(c).seq() < u64::MAX ==> id == old(c).seq() + 1,
        old(c).seq() == u64::MAX ==> id == 0,
        old(c).flying() < u64::MAX ==> at_start == old(c).flying() + 1,
        final(c).seq() == id,
        final(c).flying() == at_start,
        final(c).peak() >= at_start && final(c).peak() >= old(c).peak(),
        final(c).peak() == at_start || final(c).peak() == old(c).peak(),
        final(c).collected() == old(c).collected(),
        final(c).spec_config() == old(c).spec_config(),
        old(d).flying() > 0 ==> final(d).flying() == old(d).flying() - 1,
        final(d).seq() == old(d).seq() && final(d).peak() == old(d).peak(),
        final(d).collected() == old(d).collected(),
        final(d).spec_config() == old(d).spec_config(),
{
}

/// A window of requests is handed out as soon as it holds as many as the
/// setting says, all of them in the order in which they were recorded, and a
/// new one begins; no request is lost.
pub proof fn law_windows(c: &mut PerfCollector, record: RequestPerf, recorded: Recorded)
    requires
        call_ensures(PerfCollector::record_request, (c, record), recorded),
    ensures
        recorded.flush is Some <==> old(c).collected().len() + 1 >= old(c).spec_config().every,
        recorded.flush is Some ==> recorded.flush->0@ + final(c).collected() == old(
            c,
        ).collected().push(record) && final(c).collected().len() == 0,
        recorded.flush is None ==> final(c).collected() == old(c).collected().push(record),
        recorded.report == report_of(old(c).spec_config(), record),
        final(c).spec_config() == old(c).spec_config(),
        final(c).flight() == old(c).flight(),
{
}

/// What is read of a collector is what it counts.
pub proof fn law_counts_are_read(
    c: PerfCollector,
    peak: u64,
    flying: u64,
    count: u64,
    record: RequestPerf,
    metric: Metric,
    value: u64,
)
    requires
        call_ensures(PerfCollector::max_in_flight_seen, (&c,), peak),
        call_ensures(PerfCollector::current_in_flight, (&c,), flying),
        call_ensures(PerfCollector::request_count, (&c,), count),
        call_ensures(measure, (&record, metric), value),
    ensures
        c.flight() == (Flight { seq: count, flying, peak }),
        value == metric_of(record, metric),
{
}

/// Requests are traced where the first setting is `1` alone. The others are
/// numbers, each with its own default; a window has at least one request.
pub proof fn law_perf_settings(
    trace: Option<&str>,
    every: Option<&str>,
    slow_us: Option<&str>,
    sample: Option<&str>,
    config: Option<PerfConfig>,
)
    requires
        call_ensures(PerfConfig::from_env, (trace, every, slow_us, sample), config),
    ensures
        config is Some <==> trace is Some && trace->0@ == seq!['1'],
        config is Some ==> {
            let c = config->0;
            &&& c.every >= 1
            &&& every is None || unsigned_of(every->0@) is None ==> c.every == 10_000
            &&& every is Some && unsigned_of(every->0@) is Some && unsigned_of(every->0@)->0 > 0
                ==> c.every == unsigned_of(every->0@)->0
            &&& every is Some && unsigned_of(every->0@) == Some(0u64) ==> c.every == 1
            &&& slow_us is None || unsigned_of(slow_us->0@) is None ==> c.slow_us == 1_000
            &&& slow_us is Some && unsigned_of(slow_us->0@) is Some ==> c.slow_us == unsigned_of(
                slow_us->0@,
            )->0
            &&& sample is None || unsigned_of(sample->0@) is None ==> c.sample == 0
            &&& sample is Some && unsigned_of(sample->0@) is Some ==> c.sample == unsigned_of(
                sample->0@,
            )->0
        },
{
    reveal_strlit("1");
    assert("1"@ =~= seq!['1']);
}

} // verus!
