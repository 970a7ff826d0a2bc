//! Observing a search.
use std::time::Instant;
use vstd::prelude::*;

verus! {

/// Something that a search tells its sink.
pub enum TraceEvent {
    VectorizeUs(u64),
    HomeCellCount(u32),
    HomeScan(u64, u32),
    NeighborSeedUs(u64),
    BranchBoundUs(u64),
    LabelScoreUs(u64),
    QueryKey(u16),
    StopReason(&'static str),
    Neighbours([i32; 5], i32),
    BranchScan(u32),
    VisitedCell,
    PqPush,
    PqPop,
    NodeVisited,
    LeafScanned,
    PrunedNode,
}

/// Receives what a search does. What a sink makes of an event is its own
/// affair: `told` is the sink after it was told, and `times` whether it asks
/// for times. One that ignores everything need not say either.
pub trait SearchTraceSink: Sized {
    open spec fn told(self, event: TraceEvent) -> Self {
        self
    }

    open spec fn times(self) -> bool {
        false
    }

    /// Whether the search should take times.
    fn enabled(&self) -> (on: bool)
        ensures
            on == self.times(),
    ;

    fn record_vectorize_us(&mut self, value: u64)
        ensures
            *final(self) == old(self).told(TraceEvent::VectorizeUs(value)),
    ;

    fn set_home_cell_count(&mut self, value: u32)
        ensures
            *final(self) == old(self).told(TraceEvent::HomeCellCount(value)),
    ;

    fn add_home_scan_us(&mut self, value: u64, vectors: u32)
        ensures
            *final(self) == old(self).told(TraceEvent::HomeScan(value, vectors)),
    ;

    fn record_neighbor_seed_us(&mut self, value: u64)
        ensures
            *final(self) == old(self).told(TraceEvent::NeighborSeedUs(value)),
    ;

    fn record_branch_bound_us(&mut self, value: u64)
        ensures
            *final(self) == old(self).told(TraceEvent::BranchBoundUs(value)),
    ;

    fn record_label_score_us(&mut self, value: u64)
        ensures
            *final(self) == old(self).told(TraceEvent::LabelScoreUs(value)),
    ;

    fn set_query_key(&mut self, value: u16)
        ensures
            *final(self) == old(self).told(TraceEvent::QueryKey(value)),
    ;

    fn set_stop_reason(&mut self, value: &'static str)
        ensures
            *final(self) == old(self).told(TraceEvent::StopReason(value)),
    ;

    fn record_topk(&mut self, distances: [i32; 5], worst_dist_sq: i32)
        ensures
            *final(self) == old(self).told(TraceEvent::Neighbours(distances, worst_dist_sq)),
    ;

    fn add_branch_scan(&mut self, vectors: u32)
        ensures
            *final(self) == old(self).told(TraceEvent::BranchScan(vectors)),
    ;

    fn inc_visited_cells(&mut self)
        ensures
            *final(self) == old(self).told(TraceEvent::VisitedCell),
    ;

    fn inc_pq_pushes(&mut self)
        ensures
            *final(self) == old(self).told(TraceEvent::PqPush),
    ;

    fn inc_pq_pops(&mut self)
        ensures
            *final(self) == old(self).told(TraceEvent::PqPop),
    ;

    fn inc_nodes_visited(&mut self)
        ensures
            *final(self) == old(self).told(TraceEvent::NodeVisited),
    ;

    fn inc_leaves_scanned(&mut self)
        ensures
            *final(self) == old(self).told(TraceEvent::LeafScanned),
    ;

    fn inc_pruned_nodes(&mut self)
        ensures
            *final(self) == old(self).told(TraceEvent::PrunedNode),
    ;
}

/// Ignores everything.
pub struct NoopTrace;

impl SearchTraceSink for NoopTrace {
    fn enabled(&self) -> (on: bool) {
        false
    }

    fn record_vectorize_us(&mut self, _value: u64) {
    }

    fn set_home_cell_count(&mut self, _value: u32) {
    }

    fn add_home_scan_us(&mut self, _value: u64, _vectors: u32) {
    }

    fn record_neighbor_seed_us(&mut self, _value: u64) {
    }

    fn record_branch_bound_us(&mut self, _value: u64) {
    }

    fn record_label_score_us(&mut self, _value: u64) {
    }

    fn set_query_key(&mut self, _value: u16) {
    }

    fn set_stop_reason(&mut self, _value: &'static str) {
    }

    fn record_topk(&mut self, _distances: [i32; 5], _worst_dist_sq: i32) {
    }

    fn add_branch_scan(&mut self, _vectors: u32) {
    }

    fn inc_visited_cells(&mut self) {
    }

    fn inc_pq_pushes(&mut self) {
    }

    fn inc_pq_pops(&mut self) {
    }

    fn inc_nodes_visited(&mut self) {
    }

    fn inc_leaves_scanned(&mut self) {
    }

    fn inc_pruned_nodes(&mut self) {
    }
}

/// The sink after it was told the events in turn.
pub open spec fn told_all<T: SearchTraceSink>(sink: T, events: Seq<TraceEvent>) -> T
    decreases events.len(),
{
    if events.len() == 0 {
        sink
    } else {
        told_all(sink, events.drop_last()).told(events.last())
    }
}

pub proof fn lemma_told_push<T: SearchTraceSink>(
    sink: T,
    events: Seq<TraceEvent>,
    event: TraceEvent,
)
    ensures
        told_all(sink, events.push(event)) == told_all(sink, events).told(event),
{
    assert(events.push(event).drop_last() =~= events);
}

pub proof fn lemma_told_concat<T: SearchTraceSink>(
    sink: T,
    a: Seq<TraceEvent>,
    b: Seq<TraceEvent>,
)
    ensures
        told_all(sink, a + b) == told_all(told_all(sink, a), b),
    decreases b.len(),
{
    if b.len() == 0 {
        assert(a + b =~= a);
    } else {
        lemma_told_concat(sink, a, b.drop_last());
        assert((a + b).drop_last() =~= a + b.drop_last());
    }
}

/// A point in time; opaque here.
#[verifier::external_type_specification]
#[verifier::external_body]
pub struct ExInstant(std::time::Instant);

/// `Instant::now`. Nothing is claimed of the time it returns.
#[verifier::external_body]
fn instant_now() -> (now: Instant) {
    Instant::now()
}

/// `Instant::elapsed`, in microseconds. It depends on the clock, so nothing is
/// claimed of how many they are.
#[verifier::external_body]
fn elapsed_micros(start: Instant) -> (micros: u128) {
    start.elapsed().as_micros()
}

/// The low 64 bits of a number of microseconds.
pub fn micros_to_u64(micros: u128) -> (us: u64)
    ensures
        us == micros as int % 0x1_0000_0000_0000_0000,
{
    assert(micros as u64 == micros % 0x1_0000_0000_0000_0000) by (bit_vector);
    micros as u64
}

/// `us` is the low 64 bits of a number of microseconds that the clock may give
/// as the time since `start`. Which number that is, is left open.
pub closed spec fn may_have_elapsed(start: Instant, us: u64) -> bool {
    exists|micros: u128| #[trigger]
        call_ensures(elapsed_micros, (start,), micros) && us == micros as int
            % 0x1_0000_0000_0000_0000
}

/// The clock may give `us` as the time since some point.
pub open spec fn is_measured(us: u64) -> bool {
    exists|start: Instant| may_have_elapsed(start, us)
}

/// The microseconds since `start`.
pub fn elapsed_us(start: Instant) -> (us: u64)
    ensures
        may_have_elapsed(start, us),
{
    micros_to_u64(elapsed_micros(start))
}

/// The current time for a sink that asks for times, and nothing for one that
/// does not.
pub(crate) fn started<T: SearchTraceSink>(trace: &T) -> (start: Option<Instant>)
    ensures
        start is Some == trace.times(),
{
    if trace.enabled() {
        Some(instant_now())
    } else {
        None
    }
}

/// What is told only by an engine: nothing of the request itself or of the
/// result.
pub open spec fn is_of_engine(event: TraceEvent) -> bool {
    !(event is VectorizeUs || event is QueryKey || event is LabelScoreUs || event is Neighbours
        || event is StopReason)
}

/// What tells a time.
pub open spec fn is_time(event: TraceEvent) -> bool {
    event is VectorizeUs || event is HomeScan || event is NeighborSeedUs || event is BranchBoundUs
        || event is LabelScoreUs
}

/// Of some events in a row there is none of the kind.
pub proof fn lemma_none_told(events: Seq<TraceEvent>, kind: spec_fn(TraceEvent) -> bool)
    requires
        forall|k: int| 0 <= k < events.len() ==> !kind(#[trigger] events[k]),
    ensures
        events.filter(kind) == Seq::<TraceEvent>::empty(),
    decreases events.len(),
{
    reveal(Seq::filter);
    if events.len() > 0 {
        let init = events.drop_last();
        assert forall|k: int| 0 <= k < init.len() implies !kind(#[trigger] init[k]) by {
            assert(init[k] == events[k]);
        }
        assert(!kind(events[events.len() - 1]));
        lemma_none_told(init, kind);
    } else {
        assert(events =~= Seq::<TraceEvent>::empty());
    }
}

/// The kind occurs once, in the middle.
pub proof fn lemma_once_told(
    a: Seq<TraceEvent>,
    event: TraceEvent,
    b: Seq<TraceEvent>,
    kind: spec_fn(TraceEvent) -> bool,
)
    requires
        kind(event),
        forall|k: int| 0 <= k < a.len() ==> !kind(#[trigger] a[k]),
        forall|k: int| 0 <= k < b.len() ==> !kind(#[trigger] b[k]),
    ensures
        (a.push(event) + b).filter(kind) == seq![event],
{
    lemma_none_told(a, kind);
    lemma_none_told(b, kind);
    Seq::filter_distributes_over_add(a.push(event), b, kind);
    reveal(Seq::filter);
    assert(a.push(event).drop_last() =~= a);
    assert(a.push(event).filter(kind) =~= seq![event]);
    assert((a.push(event) + b).filter(kind) =~= seq![event]);
}

/// Microseconds are kept as they are where 64 bits hold them, and differ from
/// what is kept by a multiple of two to the 64th otherwise.
pub proof fn law_microseconds(micros: u128, us: u64)
    requires
        call_ensures(micros_to_u64, (micros,), us),
    ensures
        micros < 0x1_0000_0000_0000_0000 ==> us == micros,
        (micros - us) % 0x1_0000_0000_0000_0000 == 0,
{
}

} // verus!
