//! Branch and bound over the cells of an index.
use crate::cell::{
    cell_bound, cell_lower_bound_sq, key_day, key_hour, key_in_tables, key_partition,
    law_cell_bound_is_sound, law_neighbors, law_partitions_are_far_apart, law_quantized_steps,
    lemma_key_parts, lemma_vector_cell, neighbor_keys, neighbor_list, normalized, vector_cell,
    DAY_Q, HOUR_Q,
};
use crate::cell_course::{
    all_taken_up, branch_events, cell_neighbours, cell_scanned, first_reach, further_cells,
    lemma_tour_end, moved_on, moved_on_by, near_tour, rest_scanned, rest_tour, tour_start, Reach,
    Tour,
};
use crate::distance::{
    lemma_partial_distance_monotone, lemma_square, lemma_square_monotone, square, squared_distance,
};
use crate::index_format::{IndexModel, IndexView, N_CELLS};
use crate::queue::{
    descending, lemma_pq_pushed, pq_keys, pq_pushed, Pq, VisitedSet, PQ_CAP, VISITED_CAP,
};
use crate::topk::{
    covered, is_best, law_key_order, offered_all, ranked, worst_key_of, TopK, TopKEntry, TOP_K,
};
use crate::trace::{
    elapsed_us, is_measured, is_of_engine, is_time, lemma_once_told, lemma_told_concat,
    lemma_told_push, started, told_all, SearchTraceSink, TraceEvent,
};
use crate::traverse::{can_bound_improve, scan_cell};
use crate::tree::{
    after_scan, all_normalized, cells_ok, complete_cells, distances_fit, entries_of, entry_of,
    in_cell, lemma_after_scan, lemma_after_scan_concat, lemma_scan_is_best, pool, span, unique_ids,
};
use crate::tree_search::branch_time;
use crate::types::Vec16I;
use crate::walk::{lemma_scans_concat, lemma_scans_push, scans_of};
use vstd::prelude::*;

verus! {

/// The distance of the worst neighbour, `i32::MAX` while there is room.
pub open spec fn worst_dist_of(s: Seq<TopKEntry>) -> int {
    worst_key_of(s) as int / 0x1_0000_0000
}

/// The vectors of the cells, cell by cell.
pub open spec fn cell_positions(m: IndexModel, cells: Seq<u16>) -> Seq<int>
    decreases cells.len(),
{
    if cells.len() == 0 {
        seq![]
    } else {
        let entry = m.cells[cells.last() as int];
        cell_positions(m, cells.drop_last()) + span(
            entry.offset as int,
            entry.offset + entry.count,
        )
    }
}

/// How near a vector of cell `key` can be at least: in the query's own
/// partition as near as its hour and weekday allow, in another one a whole
/// feature away.
pub open spec fn cell_floor(q: Seq<i16>, query_key: u16, key: u16) -> int {
    if key_partition(key) == key_partition(query_key) {
        cell_bound(q, query_key, key)
    } else {
        100_000_000
    }
}

/// The neighbours are complete, and every vector of the cell is farther than
/// the worst of them.
pub open spec fn out_of_reach(
    q: Seq<i16>,
    query_key: u16,
    s: Seq<TopKEntry>,
    key: u16,
) -> bool {
    s.len() == TOP_K && cell_floor(q, query_key, key) > worst_dist_of(s)
}

/// The cells exist, and none occurs twice.
pub open spec fn are_cells(cells: Seq<u16>) -> bool {
    &&& cells.no_duplicates()
    &&& forall|c: int| 0 <= c < cells.len() ==> (#[trigger] cells[c]) < N_CELLS
}

/// What the cell search does to the neighbours `s`: it offers the vectors of
/// the query's own cell, then those of the cells `more`, none of them twice.
/// What else the directory holds is out of reach.
pub open spec fn cells_searched(
    m: IndexModel,
    q: Seq<i16>,
    query_key: u16,
    s: Seq<TopKEntry>,
    t: Seq<TopKEntry>,
    more: Seq<u16>,
) -> bool {
    let cells = seq![query_key] + more;
    &&& are_cells(cells)
    &&& t == after_scan(m, q, s, cell_positions(m, cells))
    &&& rest_out_of_reach(m, q, query_key, t, cells, N_CELLS as int)
}

/// Of the keys before `end`, what is not among the cells is empty, no key of a
/// cell, or out of reach.
pub open spec fn rest_out_of_reach(
    m: IndexModel,
    q: Seq<i16>,
    query_key: u16,
    s: Seq<TopKEntry>,
    cells: Seq<u16>,
    end: int,
) -> bool {
    forall|key: u16|
        key < end && key_in_tables(key) && m.cells[key as int].count > 0 && !(
        #[trigger] cells.contains(key)) ==> out_of_reach(q, query_key, s, key)
}

/// What is told of the scanned cells: of each that is not empty how many
/// vectors it has.
pub open spec fn cell_events(m: IndexModel, cells: Seq<u16>) -> Seq<TraceEvent>
    decreases cells.len(),
{
    if cells.len() == 0 {
        seq![]
    } else {
        let before = cell_events(m, cells.drop_last());
        let count = m.cells[cells.last() as int].count;
        if count > 0 {
            before.push(TraceEvent::BranchScan(count))
        } else {
            before
        }
    }
}

/// What is told where cells are taken up.
pub open spec fn is_seed_event(event: TraceEvent) -> bool {
    event is VisitedCell || event is PqPush
}

pub open spec fn are_seeds(events: Seq<TraceEvent>) -> bool {
    forall|k: int| 0 <= k < events.len() ==> is_seed_event(#[trigger] events[k])
}

/// The search of the cells tells the events, and among them of each cell that
/// is not empty once how many vectors it has.
pub open spec fn is_branch(m: IndexModel, cells: Seq<u16>, events: Seq<TraceEvent>) -> bool {
    &&& forall|k: int|
        0 <= k < events.len() ==> is_seed_event(#[trigger] events[k]) || events[k] is PqPop
            || events[k] is BranchScan
    &&& scans_of(events) == cell_events(m, cells)
}

/// The scan of the query's own cell; told only to a sink that asked for times,
/// and only where there is something to scan.
pub open spec fn home_scan<T: SearchTraceSink>(
    sink: T,
    count: u32,
    events: Seq<TraceEvent>,
) -> bool {
    if count > 0 && sink.times() {
        &&& events.len() == 1
        &&& events[0] matches TraceEvent::HomeScan(us, vectors) && vectors == count && is_measured(
            us,
        )
    } else {
        events.len() == 0
    }
}

/// The time for taking up the first cells; told only to a sink that asked for
/// times.
pub open spec fn seed_time<T: SearchTraceSink>(sink: T, events: Seq<TraceEvent>) -> bool {
    if sink.times() {
        &&& events.len() == 1
        &&& events[0] matches TraceEvent::NeighborSeedUs(us) && is_measured(us)
    } else {
        events.len() == 0
    }
}

/// What the cell search tells `sink`: that the query's own cell is visited and
/// how many vectors it has, the scan of it, what cells are taken up first, and
/// then what its course through the other cells tells; times where it asked
/// for them.
pub open spec fn cells_told<T: SearchTraceSink>(
    m: IndexModel,
    q: Seq<i16>,
    query_key: u16,
    s: Seq<TopKEntry>,
    sink: T,
    events: Seq<TraceEvent>,
) -> bool {
    let seeds = first_reach(m, q, query_key, s).events;
    let branch = branch_events(m, q, query_key, s);
    &&& are_seeds(seeds)
    &&& is_branch(m, further_cells(m, q, query_key, s), branch)
    &&& exists|
        home: Seq<TraceEvent>,
        seeded: Seq<TraceEvent>,
        time: Seq<TraceEvent>,
    | #[trigger]
        cells_told_in_turn(m, query_key, sink, events, home, seeds, seeded, branch, time)
}

/// The events are the parts in turn, each of which is what it should be.
pub open spec fn cells_told_in_turn<T: SearchTraceSink>(
    m: IndexModel,
    query_key: u16,
    sink: T,
    events: Seq<TraceEvent>,
    home: Seq<TraceEvent>,
    seeds: Seq<TraceEvent>,
    seeded: Seq<TraceEvent>,
    branch: Seq<TraceEvent>,
    time: Seq<TraceEvent>,
) -> bool {
    let count = m.cells[query_key as int].count;
    let head = seq![TraceEvent::VisitedCell, TraceEvent::HomeCellCount(count)];
    &&& home_scan(told_all(sink, head), count, home)
    &&& seed_time(told_all(sink, head + home), seeded)
    &&& branch_time(told_all(sink, head + home + seeds + seeded), time)
    &&& events == head + home + seeds + seeded + branch + time
}

/// The cell search makes `t` of the neighbours `s`, which is what its course
/// leads to.
pub open spec fn cells_found(
    m: IndexModel,
    q: Seq<i16>,
    query_key: u16,
    s: Seq<TopKEntry>,
    t: Seq<TopKEntry>,
) -> bool {
    &&& t == cell_neighbours(m, q, query_key, s)
    &&& cells_searched(m, q, query_key, s, t, further_cells(m, q, query_key, s))
}

/// The search of the cells turns the neighbours `s` into `t` and tells `sink`
/// the events.
pub open spec fn cell_search_done<T: SearchTraceSink>(
    m: IndexModel,
    q: Seq<i16>,
    query_key: u16,
    s: Seq<TopKEntry>,
    t: Seq<TopKEntry>,
    sink: T,
    events: Seq<TraceEvent>,
) -> bool {
    &&& cells_found(m, q, query_key, s, t)
    &&& cells_told(m, q, query_key, s, sink, events)
}

/// Within a partition only the hour and the weekday count.
pub proof fn lemma_partition_bound(q: Seq<i16>, query_key: u16, key: u16)
    requires
        key_in_tables(query_key),
        key_in_tables(key),
        key_partition(query_key) == key_partition(key),
    ensures
        cell_bound(q, query_key, key) == square(
            HOUR_Q@[key_hour(query_key)] - HOUR_Q@[key_hour(key)],
        ) + square(DAY_Q@[key_day(query_key)] - DAY_Q@[key_day(key)]),
        0 <= cell_bound(q, query_key, key) <= 200_000_000,
{
    lemma_key_parts(query_key);
    lemma_key_parts(key);
    law_quantized_steps();
    let p = key_partition(key);
    assert(query_key / 4096 == p / 16 && key / 4096 == p / 16);
    assert(query_key / 2048 == p / 8 && key / 2048 == p / 8);
    assert(query_key / 1024 == p / 4 && key / 1024 == p / 4);
    assert(query_key / 512 == p / 2 && key / 512 == p / 2);
    let dh = HOUR_Q@[key_hour(query_key)] - HOUR_Q@[key_hour(key)];
    let dd = DAY_Q@[key_day(query_key)] - DAY_Q@[key_day(key)];
    lemma_square(dh);
    lemma_square(dd);
    lemma_square_monotone(
        if dh < 0 {
            -dh
        } else {
            dh
        },
        10000,
    );
    lemma_square_monotone(
        if dd < 0 {
            -dd
        } else {
            dd
        },
        10000,
    );
    lemma_square(0);
    if query_key == key {
        assert(dh == 0 && dd == 0);
    }
}

/// In the course of the search the sink was told the events.
#[verifier::opaque]
spec fn branch_told<T: SearchTraceSink>(
    m: IndexModel,
    before: T,
    after: T,
    cells: Seq<u16>,
    events: Seq<TraceEvent>,
) -> bool {
    after == told_all(before, events) && is_branch(m, cells, events)
}

proof fn lemma_branch_start<T: SearchTraceSink>(m: IndexModel, sink: T)
    ensures
        branch_told(m, sink, sink, seq![], seq![]),
{
    reveal(branch_told);
}

proof fn lemma_branch_pop<T: SearchTraceSink>(
    m: IndexModel,
    before: T,
    after: T,
    cells: Seq<u16>,
    events: Seq<TraceEvent>,
)
    requires
        branch_told(m, before, after, cells, events),
    ensures
        branch_told(
            m,
            before,
            after.told(TraceEvent::PqPop),
            cells,
            events.push(TraceEvent::PqPop),
        ),
{
    reveal(branch_told);
    lemma_told_push(before, events, TraceEvent::PqPop);
    lemma_scans_push(events, TraceEvent::PqPop);
}

proof fn lemma_branch_scan<T: SearchTraceSink>(
    m: IndexModel,
    before: T,
    after: T,
    cells: Seq<u16>,
    events: Seq<TraceEvent>,
    key: u16,
)
    requires
        branch_told(m, before, after, cells, events),
    ensures
        ({
            let scan = TraceEvent::BranchScan(m.cells[key as int].count);
            if m.cells[key as int].count > 0 {
                branch_told(m, before, after.told(scan), cells.push(key), events.push(scan))
            } else {
                branch_told(m, before, after, cells.push(key), events)
            }
        }),
{
    reveal(branch_told);
    let scan = TraceEvent::BranchScan(m.cells[key as int].count);
    lemma_told_push(before, events, scan);
    lemma_scans_push(events, scan);
    assert(cells.push(key).drop_last() =~= cells);
}

proof fn lemma_seeds_scan_nothing(events: Seq<TraceEvent>)
    requires
        are_seeds(events),
    ensures
        scans_of(events) == Seq::<TraceEvent>::empty(),
    decreases events.len(),
{
    if events.len() > 0 {
        let init = events.drop_last();
        assert forall|k: int| 0 <= k < init.len() implies is_seed_event(#[trigger] init[k]) by {
            assert(is_seed_event(events[k]));
        }
        lemma_seeds_scan_nothing(init);
        assert(is_seed_event(events[events.len() - 1]));
    }
}

proof fn lemma_branch_seeds<T: SearchTraceSink>(
    m: IndexModel,
    before: T,
    between: T,
    cells: Seq<u16>,
    events: Seq<TraceEvent>,
    seeds: Seq<TraceEvent>,
)
    requires
        branch_told(m, before, between, cells, events),
        are_seeds(seeds),
    ensures
        branch_told(m, before, told_all(between, seeds), cells, events + seeds),
{
    reveal(branch_told);
    lemma_told_concat(before, events, seeds);
    lemma_seeds_scan_nothing(seeds);
    lemma_scans_concat(events, seeds);
    assert(scans_of(events) + scans_of(seeds) =~= scans_of(events));
    let all = events + seeds;
    assert forall|k: int| 0 <= k < all.len() implies is_seed_event(#[trigger] all[k])
        || all[k] is PqPop || all[k] is BranchScan by {
        if k < events.len() {
            assert(all[k] == events[k]);
        } else {
            assert(all[k] == seeds[k - events.len()]);
        }
    }
}

proof fn lemma_cell_events_concat(m: IndexModel, a: Seq<u16>, b: Seq<u16>)
    ensures
        cell_events(m, a + b) == cell_events(m, a) + cell_events(m, b),
    decreases b.len(),
{
    if b.len() == 0 {
        assert(a + b =~= a);
        assert(cell_events(m, a) + cell_events(m, b) =~= cell_events(m, a));
    } else {
        lemma_cell_events_concat(m, a, b.drop_last());
        assert((a + b).drop_last() =~= a + b.drop_last());
        assert(cell_events(m, a + b) =~= cell_events(m, a) + cell_events(m, b));
    }
}

proof fn lemma_branch_concat<T: SearchTraceSink>(
    m: IndexModel,
    before: T,
    between: T,
    after: T,
    a: Seq<u16>,
    a_events: Seq<TraceEvent>,
    b: Seq<u16>,
    b_events: Seq<TraceEvent>,
)
    requires
        branch_told(m, before, between, a, a_events),
        branch_told(m, between, after, b, b_events),
    ensures
        branch_told(m, before, after, a + b, a_events + b_events),
{
    reveal(branch_told);
    lemma_told_concat(before, a_events, b_events);
    lemma_scans_concat(a_events, b_events);
    lemma_cell_events_concat(m, a, b);
    let all = a_events + b_events;
    assert forall|k: int| 0 <= k < all.len() implies is_seed_event(#[trigger] all[k])
        || all[k] is PqPop || all[k] is BranchScan by {
        if k < a_events.len() {
            assert(all[k] == a_events[k]);
        } else {
            assert(all[k] == b_events[k - a_events.len()]);
        }
    }
}

/// The queue holds cells of the query's partition that were visited and not
/// yet scanned, with their bounds.
#[verifier::opaque]
spec fn queued_ok(
    q: Seq<i16>,
    query_key: u16,
    cells: Seq<u16>,
    visited: Seq<u16>,
    pq: Seq<(i32, u16)>,
) -> bool {
    &&& forall|c: int| 0 <= c < cells.len() ==> visited.contains(#[trigger] cells[c])
    &&& pq_keys(pq).no_duplicates()
    &&& forall|i: int|
        0 <= i < pq.len() ==> {
            &&& visited.contains((#[trigger] pq[i]).1)
            &&& !cells.contains(pq[i].1)
            &&& pq[i].1 < N_CELLS
            &&& key_in_tables(pq[i].1)
            &&& key_partition(pq[i].1) == key_partition(query_key)
            &&& pq[i].0 == cell_bound(q, query_key, pq[i].1)
        }
}

/// Taking up one more cell.
proof fn lemma_take_up(
    q: Seq<i16>,
    query_key: u16,
    cells: Seq<u16>,
    visited: Seq<u16>,
    pq: Seq<(i32, u16)>,
    lb: i32,
    key: u16,
)
    requires
        queued_ok(q, query_key, cells, visited, pq),
        descending(pq),
        pq.len() <= PQ_CAP,
        key < N_CELLS,
        key_in_tables(key),
        key_partition(key) == key_partition(query_key),
        !visited.contains(key),
        lb == cell_bound(q, query_key, key),
    ensures
        queued_ok(q, query_key, cells, visited.push(key), pq_pushed(pq, lb, key)),
        pq_pushed(pq, lb, key).len() <= pq.len() + 1,
{
    reveal(queued_ok);
    let grown = visited.push(key);
    let queue = pq_pushed(pq, lb, key);
    assert(!pq_keys(pq).contains(key)) by {
        if pq_keys(pq).contains(key) {
            let i = choose|i: int| 0 <= i < pq.len() && pq_keys(pq)[i] == key;
            assert(visited.contains(pq[i].1));
        }
    }
    lemma_pq_pushed(pq, lb, key);
    assert forall|x: u16| visited.contains(x) implies #[trigger] grown.contains(x) by {
        let i = choose|i: int| 0 <= i < visited.len() && visited[i] == x;
        assert(grown[i] == x);
    }
    assert(grown[visited.len() as int] == key);
    assert(!cells.contains(key)) by {
        if cells.contains(key) {
            let c = choose|c: int| 0 <= c < cells.len() && cells[c] == key;
            assert(visited.contains(cells[c]));
        }
    }
    assert forall|i: int| 0 <= i < queue.len() implies {
        &&& grown.contains((#[trigger] queue[i]).1)
        &&& !cells.contains(queue[i].1)
        &&& queue[i].1 < N_CELLS
        &&& key_in_tables(queue[i].1)
        &&& key_partition(queue[i].1) == key_partition(query_key)
        &&& queue[i].0 == cell_bound(q, query_key, queue[i].1)
    } by {
        if queue[i] != (lb, key) {
            assert(pq.contains(queue[i]));
            let k = choose|k: int| 0 <= k < pq.len() && pq[k] == queue[i];
            assert(visited.contains(pq[k].1));
        }
    }
}

/// The cell that leaves the queue is one that was not scanned yet.
proof fn lemma_scan_popped(
    q: Seq<i16>,
    query_key: u16,
    cells: Seq<u16>,
    visited: Seq<u16>,
    pq: Seq<(i32, u16)>,
)
    requires
        queued_ok(q, query_key, cells, visited, pq),
        are_cells(cells),
        pq.len() > 0,
    ensures
        queued_ok(q, query_key, cells.push(pq.last().1), visited, pq.drop_last()),
        are_cells(cells.push(pq.last().1)),
        pq.last().1 < N_CELLS,
        key_in_tables(pq.last().1),
        key_partition(pq.last().1) == key_partition(query_key),
        pq.last().0 == cell_bound(q, query_key, pq.last().1),
{
    reveal(queued_ok);
    let key = pq.last().1;
    let rest = pq.drop_last();
    let grown = cells.push(key);
    let last = pq.len() - 1;
    assert(pq[last] == pq.last());
    assert forall|i: int| 0 <= i < rest.len() implies {
        &&& visited.contains((#[trigger] rest[i]).1)
        &&& !grown.contains(rest[i].1)
        &&& rest[i].1 < N_CELLS
        &&& key_in_tables(rest[i].1)
        &&& key_partition(rest[i].1) == key_partition(query_key)
        &&& rest[i].0 == cell_bound(q, query_key, rest[i].1)
    } by {
        assert(rest[i] == pq[i]);
        assert(pq_keys(pq)[i] != pq_keys(pq)[last]);
        if grown.contains(rest[i].1) {
            let c = choose|c: int| 0 <= c < grown.len() && grown[c] == rest[i].1;
            if c < cells.len() {
                assert(cells[c] == rest[i].1);
            }
        }
    }
    assert(pq_keys(rest).no_duplicates()) by {
        assert forall|i: int, j: int|
            0 <= i < pq_keys(rest).len() && 0 <= j < pq_keys(rest).len() && i
                != j implies pq_keys(rest)[i] != pq_keys(rest)[j] by {
            assert(pq_keys(pq)[i] != pq_keys(pq)[j]);
        }
    }
    assert forall|i: int, j: int|
        0 <= i < grown.len() && 0 <= j < grown.len() && i != j implies grown[i] != grown[j] by {
        if i < cells.len() && j < cells.len() {
            assert(cells[i] != cells[j]);
        } else if i < cells.len() {
            assert(cells.contains(cells[i]));
        } else {
            assert(cells.contains(cells[j]));
        }
    }
    assert forall|c: int| 0 <= c < grown.len() implies visited.contains(#[trigger] grown[c]) by {
        if c < cells.len() {
            assert(visited.contains(cells[c]));
        }
    }
}

/// Takes up the neighbours of a scanned cell that are nearer than `worst`.
fn visit_neighbors<T: SearchTraceSink>(
    qv: &Vec16I,
    query_key: u16,
    key: u16,
    worst: i32,
    visited: &mut VisitedSet,
    pq: &mut Pq,
    trace: &mut T,
    Ghost(cells): Ghost<Seq<u16>>,
)
    requires
        key < N_CELLS,
        key_in_tables(key),
        key_in_tables(query_key),
        key_partition(key) == key_partition(query_key),
        queued_ok(qv@, query_key, cells, old(visited)@, old(pq)@),
        descending(old(pq)@),
        old(pq)@.len() <= PQ_CAP,
        old(visited)@.len() <= VISITED_CAP,
    ensures
        queued_ok(qv@, query_key, cells, final(visited)@, final(pq)@),
        descending(final(pq)@),
        final(pq)@.len() <= PQ_CAP,
        old(visited)@.len() <= final(visited)@.len() <= VISITED_CAP,
        final(pq)@.len() - old(pq)@.len() <= final(visited)@.len() - old(visited)@.len(),
        ({
            let r = all_taken_up(
                qv@,
                query_key,
                worst as int,
                Reach { visited: old(visited)@, queue: old(pq)@, events: seq![] },
                neighbor_list(key),
            );
            &&& final(visited)@ == r.visited
            &&& final(pq)@ == r.queue
            &&& are_seeds(r.events)
            &&& *final(trace) == told_all(*old(trace), r.events)
        }),
{
    let ghost q = qv@;
    let ghost start = visited@;
    let ghost pq_start = pq@;
    let ghost all = neighbor_list(key);
    let ghost sink = *trace;
    let ghost mut seeds: Seq<TraceEvent> = seq![];
    let ghost mut at: int = 0;
    let mut neighbors = neighbor_keys(key);
    let mut more: bool = true;
    let ghost begin = Reach { visited: start, queue: pq_start, events: seq![] };
    assert(all.skip(0) =~= all);
    while more
        invariant
            q == qv@,
            all == neighbor_list(key),
            0 <= at <= all.len(),
            neighbors@ == all.skip(at),
            !more ==> at == all.len(),
            key < N_CELLS,
            key_in_tables(key),
            key_in_tables(query_key),
            key_partition(key) == key_partition(query_key),
            queued_ok(q, query_key, cells, visited@, pq@),
            descending(pq@),
            pq@.len() <= PQ_CAP,
            start.len() <= visited@.len() <= VISITED_CAP,
            pq@.len() - pq_start.len() <= visited@.len() - start.len(),
            are_seeds(seeds),
            *trace == told_all(sink, seeds),
            all_taken_up(q, query_key, worst as int, begin, all.take(at)) == (Reach {
                visited: visited@,
                queue: pq@,
                events: seeds,
            }),
        decreases
                all.len() - at,
                if more {
                    1int
                } else {
                    0
                },
    {
        match neighbors.next() {
            None => {
                more = false;
            },
            Some(nkey) => {
                let ghost before = visited@;
                let ghost queue = pq@;
                proof {
                    assert(all[at] == nkey);
                    assert(all.skip(at).drop_first() =~= all.skip(at + 1));
                    assert(all.contains(nkey));
                    assert(all.take(at + 1).drop_last() =~= all.take(at));
                    law_neighbors(key, nkey);
                    lemma_key_parts(key);
                    lemma_key_parts(nkey);
                    lemma_partition_bound(q, query_key, nkey);
                }
                if !visited.contains(nkey) {
                    let lb: i32 = cell_lower_bound_sq(qv, query_key, nkey);
                    if lb < worst && visited.insert(nkey) {
                        proof {
                            lemma_take_up(q, query_key, cells, before, queue, lb, nkey);
                            lemma_told_push(sink, seeds, TraceEvent::VisitedCell);
                            seeds = seeds.push(TraceEvent::VisitedCell);
                        }
                        trace.inc_visited_cells();
                        if pq.push(lb, nkey) {
                            proof {
                                lemma_told_push(sink, seeds, TraceEvent::PqPush);
                                seeds = seeds.push(TraceEvent::PqPush);
                            }
                            trace.inc_pq_pushes();
                        }
                    }
                }
                proof {
                    at = at + 1;
                }
            },
        }
    }
    assert(all.take(at) =~= all);
}

/// One more cell is scanned.
proof fn lemma_positions_push(
    m: IndexModel,
    q: Seq<i16>,
    s: Seq<TopKEntry>,
    cells: Seq<u16>,
    key: u16,
)
    requires
        ranked(s),
    ensures
        ({
            let entry = m.cells[key as int];
            let t = after_scan(m, q, s, cell_positions(m, cells));
            let u = after_scan(m, q, s, cell_positions(m, cells.push(key)));
            &&& u == after_scan(m, q, t, span(entry.offset as int, entry.offset + entry.count))
            &&& entry.count == 0 ==> u == t
            &&& ranked(t)
            &&& worst_key_of(u) <= worst_key_of(t)
            &&& t.len() <= u.len() <= TOP_K
        }),
{
    let entry = m.cells[key as int];
    let range = span(entry.offset as int, entry.offset + entry.count);
    assert(cells.push(key).drop_last() =~= cells);
    lemma_after_scan_concat(m, q, s, cell_positions(m, cells), range);
    lemma_after_scan(m, q, s, cell_positions(m, cells));
    lemma_after_scan(m, q, after_scan(m, q, s, cell_positions(m, cells)), range);
    if entry.count == 0 {
        assert(entries_of(m, q, range) =~= Seq::<TopKEntry>::empty());
    }
}

/// Whether the cell may still hold a vector for the neighbours.
fn is_in_reach(qv: &Vec16I, query_key: u16, topk: &TopK, key: u16) -> (near: bool)
    requires
        key_in_tables(query_key),
        key_in_tables(key),
    ensures
        near == !out_of_reach(qv@, query_key, topk@, key),
{
    if !topk.is_full() {
        return true;
    }
    let floor: i32 = if key / 256 == query_key / 256 {
        proof {
            lemma_partition_bound(qv@, query_key, key);
        }
        cell_lower_bound_sq(qv, query_key, key)
    } else {
        100_000_000
    };
    floor <= topk.worst_dist_sq()
}

/// The marks are set for the cells that were scanned.
spec fn marked(scanned: Seq<bool>, cells: Seq<u16>) -> bool {
    &&& scanned.len() == N_CELLS
    &&& forall|key: u16| key < N_CELLS ==> scanned[key as int] == #[trigger] cells.contains(key)
}

proof fn lemma_marked(scanned: Seq<bool>, cells: Seq<u16>, key: u16)
    requires
        marked(scanned, cells),
        key < N_CELLS,
    ensures
        marked(scanned.update(key as int, true), cells.push(key)),
{
    let grown = cells.push(key);
    assert forall|x: u16| #[trigger] grown.contains(x) == (cells.contains(x) || x == key) by {
        if cells.contains(x) {
            let c = choose|c: int| 0 <= c < cells.len() && cells[c] == x;
            assert(grown[c] == x);
        }
        if x == key {
            assert(grown[cells.len() as int] == x);
        }
    }
}

/// Scans what the search of the neighbouring cells has left out, where it may
/// still hold a vector for the neighbours: other partitions, and cells for
/// which there was no room.
fn scan_remaining<T: SearchTraceSink>(
    view: &IndexView<'_>,
    qv: &Vec16I,
    query_key: u16,
    scanned: &[bool; 8192],
    topk: &mut TopK,
    trace: &mut T,
    Ghost(s0): Ghost<Seq<TopKEntry>>,
    Ghost(cells): Ghost<Seq<u16>>,
    Ghost(near): Ghost<Tour>,
)
    requires
        view.cells_complete(),
        cells_ok(view@),
        distances_fit(view@, qv@),
        key_in_tables(query_key),
        ranked(s0),
        are_cells(cells),
        marked(scanned@, cells),
        old(topk)@ == after_scan(view@, qv@, s0, cell_positions(view@, cells)),
        near.s == old(topk)@,
        near.cells == Seq::<u16>::empty(),
        near.events == Seq::<TraceEvent>::empty(),
    ensures
        ({
            let rest = rest_scanned(view@, qv@, query_key, cells, near, N_CELLS as nat);
            let all = cells + rest.cells;
            &&& final(topk)@ == rest.s
            &&& are_cells(all)
            &&& rest.s == after_scan(view@, qv@, s0, cell_positions(view@, all))
            &&& rest_out_of_reach(view@, qv@, query_key, rest.s, all, N_CELLS as int)
            &&& branch_told(view@, *old(trace), *final(trace), rest.cells, rest.events)
        }),
{
    let ghost m = view@;
    let ghost q = qv@;
    let ghost sink = *trace;
    let ghost mut rest: Seq<u16> = seq![];
    let ghost mut events: Seq<TraceEvent> = seq![];
    let mut key: u16 = 0;
    proof {
        assert(cells + rest =~= cells);
        lemma_branch_start(m, sink);
    }
    while key < 8192
        invariant
            key <= 8192,
            view.cells_complete(),
            m == view@,
            q == qv@,
            cells_ok(m),
            distances_fit(m, q),
            key_in_tables(query_key),
            ranked(s0),
            marked(scanned@, cells),
            are_cells(cells + rest),
            forall|r: int| 0 <= r < rest.len() ==> (#[trigger] rest[r]) < key,
            topk@ == after_scan(m, q, s0, cell_positions(m, cells + rest)),
            rest_out_of_reach(m, q, query_key, topk@, cells + rest, key as int),
            branch_told(m, sink, *trace, rest, events),
            rest_scanned(m, q, query_key, cells, near, key as nat) == (Tour {
                s: topk@,
                cells: rest,
                events,
                ..near
            }),
        decreases 8192 - key,
    {
        let ghost all = cells + rest;
        let ghost s = topk@;
        let entry = view.cell_entry(key);
        proof {
            reveal(cells_ok);
            lemma_key_parts(key);
            lemma_positions_push(m, q, s0, all, key);
            assert(all.contains(key) ==> cells.contains(key)) by {
                if all.contains(key) {
                    let c = choose|c: int| 0 <= c < all.len() && all[c] == key;
                    if c >= cells.len() {
                        assert(rest[c - cells.len()] == key);
                    } else {
                        assert(cells[c] == key);
                    }
                }
            }
            assert(cells.contains(key) ==> all.contains(key)) by {
                if cells.contains(key) {
                    let c = choose|c: int| 0 <= c < cells.len() && cells[c] == key;
                    assert(all[c] == key);
                }
            }
        }
        if (key / 8) % 32 < 24 && key % 8 < 7 && entry.count > 0 && !scanned[key as usize]
            && is_in_reach(qv, query_key, topk, key) {
            proof {
                lemma_branch_scan(m, sink, *trace, rest, events, key);
            }
            scan_cell(view, qv, entry.offset, entry.count, topk);
            trace.add_branch_scan(entry.count);
            proof {
                let grown = all.push(key);
                assert(cells + rest.push(key) =~= grown);
                assert forall|i: int, j: int|
                    0 <= i < grown.len() && 0 <= j < grown.len() && i != j implies grown[i]
                    != grown[j] by {
                    if i < all.len() && j < all.len() {
                        assert(all[i] != all[j]);
                    } else if i < all.len() {
                        assert(all.contains(all[i]));
                    } else {
                        assert(all.contains(all[j]));
                    }
                }
                lemma_still_out_of_reach(m, q, query_key, s, topk@, all, grown, key as int);
                assert(grown[all.len() as int] == key);
                rest = rest.push(key);
                events = events.push(TraceEvent::BranchScan(entry.count));
            }
        }
        key = key + 1;
    }
}

/// What was out of reach stays there as the neighbours get better.
proof fn lemma_still_out_of_reach(
    m: IndexModel,
    q: Seq<i16>,
    query_key: u16,
    s: Seq<TopKEntry>,
    t: Seq<TopKEntry>,
    cells: Seq<u16>,
    grown: Seq<u16>,
    end: int,
)
    requires
        rest_out_of_reach(m, q, query_key, s, cells, end),
        worst_key_of(t) <= worst_key_of(s),
        s.len() <= t.len() <= TOP_K,
        forall|c: int| 0 <= c < cells.len() ==> c < grown.len() && grown[c] == cells[c],
    ensures
        rest_out_of_reach(m, q, query_key, t, grown, end),
{
    assert forall|key: u16|
        key < end && key_in_tables(key) && m.cells[key as int].count > 0 && !(
        #[trigger] grown.contains(key)) implies out_of_reach(q, query_key, t, key) by {
        if cells.contains(key) {
            let c = choose|c: int| 0 <= c < cells.len() && cells[c] == key;
            assert(grown[c] == key);
        }
        assert(out_of_reach(q, query_key, s, key));
    }
}

/// Scans the query's own cell, then its neighbours and theirs as long as they
/// are near enough, the nearest first, and then whatever else may still hold
/// a vector for the neighbours.
pub fn search_cell<T: SearchTraceSink>(
    view: &IndexView<'_>,
    qv: &Vec16I,
    query_key: u16,
    topk: &mut TopK,
    trace: &mut T,
)
    requires
        view.cells_complete(),
        cells_ok(view@),
        distances_fit(view@, qv@),
        query_key < N_CELLS,
        key_in_tables(query_key),
    ensures
        exists|events: Seq<TraceEvent>| #[trigger]
            cell_search_done(
                view@,
                qv@,
                query_key,
                old(topk)@,
                final(topk)@,
                *old(trace),
                events,
            ) && *final(trace) == told_all(*old(trace), events),
        exact_cells(view@, qv@, query_key) && old(topk)@.len() == 0 ==> is_best(
            final(topk)@,
            pool(view@, qv@),
        ),
{
    proof {
        use_type_invariant(&*topk);
        topk.lemma_ranked();
    }
    let ghost m = view@;
    let ghost q = qv@;
    let ghost s0 = topk@;
    let ghost sink = *trace;
    let ghost mut cells: Seq<u16> = seq![query_key];
    let mut scanned = [false; 8192];
    scanned[query_key as usize] = true;
    let mut visited = VisitedSet::new();
    let mut pq = Pq::new();
    if visited.insert(query_key) {
        trace.inc_visited_cells();
    }
    let home_entry = view.cell_entry(query_key);
    trace.set_home_cell_count(home_entry.count);
    let ghost head = seq![
        TraceEvent::VisitedCell,
        TraceEvent::HomeCellCount(m.cells[query_key as int].count),
    ];
    proof {
        reveal(cells_ok);
        reveal(queued_ok);
        assert(visited@ =~= seq![query_key]);
        assert(visited@[0] == query_key && cells[0] == query_key);
        let none: Seq<u16> = seq![];
        assert(cell_positions(m, none) =~= Seq::<int>::empty());
        assert(entries_of(m, q, cell_positions(m, none)) =~= Seq::<TopKEntry>::empty());
        assert(cells =~= none.push(query_key));
        lemma_positions_push(m, q, s0, none, query_key);
        let unmarked = Seq::new(8192, |i: int| false);
        assert(marked(unmarked, none));
        lemma_marked(unmarked, none, query_key);
        assert(scanned@ =~= unmarked.update(query_key as int, true));
        lemma_two_told(sink, head);
    }
    let ghost mut home: Seq<TraceEvent> = seq![];
    if home_entry.count > 0 {
        let scan_start = started(trace);
        scan_cell(view, qv, home_entry.offset, home_entry.count, topk);
        match scan_start {
            Some(start) => {
                let us: u64 = elapsed_us(start);
                proof {
                    lemma_told_push(sink, head, TraceEvent::HomeScan(us, home_entry.count));
                    home = seq![TraceEvent::HomeScan(us, home_entry.count)];
                    assert(head + home =~= head.push(
                        TraceEvent::HomeScan(us, home_entry.count),
                    ));
                }
                trace.add_home_scan_us(us, home_entry.count)
            },
            None => {},
        }
    }
    proof {
        if home.len() == 0 {
            assert(head + home =~= head);
        }
        assert(home_scan(told_all(sink, head), home_entry.count, home));
    }
    let seed_start = started(trace);
    let worst: i32 = topk.worst_dist_sq();
    let ghost seeds = first_reach(m, q, query_key, s0).events;
    assert(topk@ == cell_scanned(m, q, s0, query_key));
    visit_neighbors(
        qv,
        query_key,
        query_key,
        worst,
        &mut visited,
        &mut pq,
        trace,
        Ghost(cells),
    );
    let ghost mut seeded: Seq<TraceEvent> = seq![];
    proof {
        lemma_told_concat(sink, head + home, seeds);
    }
    let ghost begun = head + home + seeds;
    match seed_start {
        Some(start) => {
            let us: u64 = elapsed_us(start);
            proof {
                lemma_told_push(sink, begun, TraceEvent::NeighborSeedUs(us));
                seeded = seq![TraceEvent::NeighborSeedUs(us)];
                assert(begun + seeded =~= begun.push(TraceEvent::NeighborSeedUs(us)));
            }
            trace.record_neighbor_seed_us(us)
        },
        None => {},
    }
    proof {
        if seeded.len() == 0 {
            assert(begun + seeded =~= begun);
        }
        assert(seed_time(told_all(sink, head + home), seeded));
    }
    let ghost prepared = *trace;
    assert(prepared == told_all(sink, begun + seeded));
    let branch_start = started(trace);
    let ghost mut more: Seq<u16> = seq![];
    let ghost mut branch: Seq<TraceEvent> = seq![];
    let mut done: bool = false;
    let ghost start = tour_start(m, q, query_key, s0);
    let ghost mut steps: nat = 0;
    proof {
        assert(cells =~= seq![query_key] + more);
        lemma_branch_start(m, prepared);
    }
    while !done
        invariant
            view.cells_complete(),
            m == view@,
            q == qv@,
            cells_ok(m),
            distances_fit(m, q),
            query_key < N_CELLS,
            key_in_tables(query_key),
            ranked(s0),
            are_cells(cells),
            cells == seq![query_key] + more,
            marked(scanned@, cells),
            topk@ == after_scan(m, q, s0, cell_positions(m, cells)),
            !done ==> queued_ok(q, query_key, cells, visited@, pq@),
            descending(pq@),
            pq@.len() <= PQ_CAP,
            visited@.len() <= VISITED_CAP,
            branch_told(m, prepared, *trace, more, branch),
            moved_on_by(m, q, query_key, start, steps) == (Tour {
                s: topk@,
                cells: more,
                visited: visited@,
                queue: pq@,
                events: branch,
                done,
            }),
        decreases
                if done {
                    0
                } else {
                    2 * (VISITED_CAP - visited@.len()) + pq@.len() + 1
                },
    {
        let ghost queue = pq@;
        let ghost before = Tour {
            s: topk@,
            cells: more,
            visited: visited@,
            queue,
            events: branch,
            done: false,
        };
        match pq.pop() {
            None => {
                done = true;
            },
            Some((lb, nkey)) => {
                proof {
                    lemma_branch_pop(m, prepared, *trace, more, branch);
                    branch = branch.push(TraceEvent::PqPop);
                    lemma_scan_popped(q, query_key, cells, visited@, queue);
                    lemma_partition_bound(q, query_key, nkey);
                }
                trace.inc_pq_pops();
                if !can_bound_improve(topk, lb, 0) {
                    done = true;
                } else {
                    proof {
                        assert(m.cells[nkey as int].offset + m.cells[nkey as int].count
                            <= m.vectors.len()) by {
                            reveal(cells_ok);
                        }
                        lemma_positions_push(m, q, s0, cells, nkey);
                        lemma_branch_scan(m, prepared, *trace, more, branch, nkey);
                        lemma_marked(scanned@, cells, nkey);
                    }
                    let entry = view.cell_entry(nkey);
                    if entry.count > 0 {
                        scan_cell(view, qv, entry.offset, entry.count, topk);
                        trace.add_branch_scan(entry.count);
                        proof {
                            branch = branch.push(TraceEvent::BranchScan(entry.count));
                        }
                    }
                    scanned[nkey as usize] = true;
                    let worst_next: i32 = topk.worst_dist_sq();
                    proof {
                        cells = cells.push(nkey);
                        more = more.push(nkey);
                        assert(cells =~= seq![query_key] + more);
                    }
                    let ghost between = *trace;
                    let ghost new = all_taken_up(
                        q,
                        query_key,
                        worst_next as int,
                        Reach { visited: visited@, queue: pq@, events: seq![] },
                        neighbor_list(nkey),
                    ).events;
                    visit_neighbors(
                        qv,
                        query_key,
                        nkey,
                        worst_next,
                        &mut visited,
                        &mut pq,
                        trace,
                        Ghost(cells),
                    );
                    proof {
                        lemma_branch_seeds(m, prepared, between, more, branch, new);
                        branch = branch + new;
                    }
                }
            },
        }
        proof {
            assert(moved_on(m, q, query_key, before) == (Tour {
                s: topk@,
                cells: more,
                visited: visited@,
                queue: pq@,
                events: branch,
                done,
            }));
            steps = steps + 1;
        }
    }
    let ghost between = *trace;
    let ghost near = near_tour(m, q, query_key, s0);
    let ghost remaining = rest_tour(m, q, query_key, s0);
    proof {
        lemma_tour_end(m, q, query_key, start, steps);
    }
    scan_remaining(
        view,
        qv,
        query_key,
        &scanned,
        topk,
        trace,
        Ghost(s0),
        Ghost(cells),
        Ghost(Tour { cells: seq![], events: seq![], ..near }),
    );
    proof {
        let rest = remaining.cells;
        lemma_branch_concat(
            m,
            prepared,
            between,
            *trace,
            more,
            branch,
            rest,
            remaining.events,
        );
        assert(cells + rest =~= seq![query_key] + (more + rest));
        more = more + rest;
        branch = branch + remaining.events;
    }
    let ghost searched = *trace;
    let ghost mut time: Seq<TraceEvent> = seq![];
    let ghost body = begun + seeded + branch;
    proof {
        lemma_told_concat(sink, begun + seeded, branch);
        reveal(branch_told);
    }
    match branch_start {
        Some(start) => {
            let us: u64 = elapsed_us(start);
            proof {
                lemma_told_push(sink, body, TraceEvent::BranchBoundUs(us));
                time = seq![TraceEvent::BranchBoundUs(us)];
                assert(body + time =~= body.push(TraceEvent::BranchBoundUs(us)));
            }
            trace.record_branch_bound_us(us)
        },
        None => {},
    }
    proof {
        if time.len() == 0 {
            assert(body + time =~= body);
        }
        let events = body + time;
        assert(cells_searched(m, q, query_key, s0, topk@, more));
        assert(cells_told_in_turn(
            m,
            query_key,
            sink,
            events,
            home,
            seeds,
            seeded,
            branch,
            time,
        ));
        assert(more == further_cells(m, q, query_key, s0));
        assert(branch == branch_events(m, q, query_key, s0));
        assert(is_branch(m, more, branch)) by {
            reveal(branch_told);
        }
        assert(cells_told(m, q, query_key, s0, sink, events));
        assert(cells_found(m, q, query_key, s0, topk@));
        assert(cell_search_done(m, q, query_key, s0, topk@, sink, events));
        if exact_cells(m, q, query_key) && s0.len() == 0 {
            assert(s0 =~= Seq::<TopKEntry>::empty());
            law_cell_search_is_exact(m, q, query_key, topk@);
        }
    }
}

proof fn lemma_two_told<T: SearchTraceSink>(sink: T, events: Seq<TraceEvent>)
    requires
        events.len() == 2,
    ensures
        told_all(sink, events) == sink.told(events[0]).told(events[1]),
{
    reveal_with_fuel(told_all, 3);
}

/// Vector `j` belongs to one of the cells.
spec fn in_some_cell(m: IndexModel, cells: Seq<u16>, j: int) -> bool {
    exists|c: int| 0 <= c < cells.len() && in_cell(m, (#[trigger] cells[c]) as int, j)
}

/// The positions of different cells are different, and lie within the index.
proof fn lemma_cell_positions(m: IndexModel, cells: Seq<u16>)
    requires
        cells_ok(m),
        are_cells(cells),
    ensures
        cell_positions(m, cells).no_duplicates(),
        forall|k: int|
            0 <= k < cell_positions(m, cells).len() ==> 0 <= #[trigger] cell_positions(m, cells)[k]
                < m.vectors.len(),
        forall|k: int|
            0 <= k < cell_positions(m, cells).len() ==> in_some_cell(
                m,
                cells,
                #[trigger] cell_positions(m, cells)[k],
            ),
    decreases cells.len(),
{
    if cells.len() > 0 {
        reveal(cells_ok);
        let init = cells.drop_last();
        let last = cells.last();
        assert(cells[cells.len() - 1] == last);
        assert(are_cells(init)) by {
            assert forall|i: int, j: int|
                0 <= i < init.len() && 0 <= j < init.len() && i != j implies init[i]
                != init[j] by {
                assert(cells[i] != cells[j]);
            }
            assert forall|c: int| 0 <= c < init.len() implies (#[trigger] init[c]) < N_CELLS by {
                assert(cells[c] < N_CELLS);
            }
        }
        lemma_cell_positions(m, init);
        let before = cell_positions(m, init);
        let entry = m.cells[last as int];
        let range = span(entry.offset as int, entry.offset + entry.count);
        let all = cell_positions(m, cells);
        assert forall|k: int| 0 <= k < all.len() implies in_some_cell(
            m,
            cells,
            #[trigger] all[k],
        ) by {
            if k < before.len() {
                assert(in_some_cell(m, init, before[k]));
                let c = choose|c: int|
                    0 <= c < init.len() && in_cell(m, (#[trigger] init[c]) as int, before[k]);
                assert(in_cell(m, cells[c] as int, all[k]));
            } else {
                assert(in_cell(m, cells[cells.len() - 1] as int, all[k]));
            }
        }
        assert forall|a: int, b: int|
            0 <= a < all.len() && 0 <= b < all.len() && a != b implies all[a] != all[b] by {
            let f = before.len();
            if a < f && b < f {
                assert(before[a] != before[b]);
            } else if a < f {
                assert(in_some_cell(m, init, before[a]));
                let c = choose|c: int|
                    0 <= c < init.len() && in_cell(m, (#[trigger] init[c]) as int, before[a]);
                assert(cells[c] != cells[cells.len() - 1]);
                assert(in_cell(m, last as int, all[b]));
            } else if b < f {
                assert(in_some_cell(m, init, before[b]));
                let c = choose|c: int|
                    0 <= c < init.len() && in_cell(m, (#[trigger] init[c]) as int, before[b]);
                assert(cells[c] != cells[cells.len() - 1]);
                assert(in_cell(m, last as int, all[a]));
            }
        }
    }
}

/// The vectors of a scanned cell were offered.
proof fn lemma_positions_contain(m: IndexModel, cells: Seq<u16>, c: int, j: int)
    requires
        0 <= c < cells.len(),
        in_cell(m, cells[c] as int, j),
    ensures
        cell_positions(m, cells).contains(j),
    decreases cells.len(),
{
    let all = cell_positions(m, cells);
    let init = cell_positions(m, cells.drop_last());
    if c == cells.len() - 1 {
        let entry = m.cells[cells.last() as int];
        assert(all[init.len() + j - entry.offset] == j);
    } else {
        lemma_positions_contain(m, cells.drop_last(), c, j);
        let k = choose|k: int| 0 <= k < init.len() && init[k] == j;
        assert(all[k] == j);
    }
}

/// A setting in which the cell search is exact: every vector is listed under
/// its own cell, vectors and query are normalized, and identifiers are unique.
pub open spec fn exact_cells(m: IndexModel, q: Seq<i16>, query_key: u16) -> bool {
    &&& complete_cells(m)
    &&& unique_ids(m)
    &&& all_normalized(m)
    &&& normalized(q)
    &&& query_key == vector_cell(q)
}

/// In an exact setting the cell search leaves the best five of all vectors of
/// the index, the same as offering them one by one.
pub proof fn law_cell_search_is_exact(
    m: IndexModel,
    q: Seq<i16>,
    query_key: u16,
    t: Seq<TopKEntry>,
)
    requires
        cells_ok(m),
        distances_fit(m, q),
        exact_cells(m, q, query_key),
        cells_found(m, q, query_key, Seq::empty(), t),
    ensures
        is_best(t, pool(m, q)),
        t == offered_all(Seq::empty(), pool(m, q)),
{
    let cells = seq![query_key] + further_cells(m, q, query_key, Seq::empty());
    let h = cell_positions(m, cells);
    lemma_cell_positions(m, cells);
    lemma_after_scan(m, q, Seq::empty(), h);
    assert forall|j: int| 0 <= j < m.vectors.len() implies covered(
        t,
        #[trigger] entry_of(m, q, j),
    ) by {
        let v = m.vectors[j];
        let key = vector_cell(v) as u16;
        lemma_vector_cell(v);
        lemma_vector_cell(q);
        assert(in_cell(m, key as int, j));
        if cells.contains(key) {
            let c = choose|c: int| 0 <= c < cells.len() && cells[c] == key;
            lemma_positions_contain(m, cells, c, j);
            let k = choose|k: int| 0 <= k < h.len() && h[k] == j;
            assert(covered(t, entry_of(m, q, h[k])));
        } else {
            assert(out_of_reach(q, query_key, t, key));
            law_cell_bound_is_sound(q, v);
            if key_partition(key) != key_partition(query_key) {
                law_partitions_are_far_apart(q, v);
            }
            let d = squared_distance(q, v);
            assert(d <= i32::MAX);
            lemma_partial_distance_monotone(q, v, 0, 16);
            law_key_order(d as i32, m.ids[j], d as i32, m.ids[j]);
            assert(entry_of(m, q, j).key as int / 0x1_0000_0000 == d);
        }
    }
    lemma_scan_is_best(m, q, h);
}

/// What the cell search tells: nothing but what an engine tells, among it once
/// the number of vectors of the query's own cell, and no time to a sink that
/// never asks for one.
pub proof fn lemma_cells_tell<T: SearchTraceSink>(
    m: IndexModel,
    q: Seq<i16>,
    query_key: u16,
    s: Seq<TopKEntry>,
    sink: T,
    events: Seq<TraceEvent>,
)
    requires
        cells_told(m, q, query_key, s, sink, events),
    ensures
        forall|k: int| 0 <= k < events.len() ==> is_of_engine(#[trigger] events[k]),
        events.filter(|e: TraceEvent| e is HomeCellCount) == seq![
            TraceEvent::HomeCellCount(m.cells[query_key as int].count),
        ],
        (forall|es: Seq<TraceEvent>| !(#[trigger] told_all(sink, es)).times()) ==> forall|k: int|
            0 <= k < events.len() ==> !is_time(#[trigger] events[k]),
{
    let seeds = first_reach(m, q, query_key, s).events;
    let branch = branch_events(m, q, query_key, s);
    let (home, seeded, time) = choose|
        home: Seq<TraceEvent>,
        seeded: Seq<TraceEvent>,
        time: Seq<TraceEvent>,
    | #[trigger]
        cells_told_in_turn(m, query_key, sink, events, home, seeds, seeded, branch, time);
    let count = m.cells[query_key as int].count;
    let own = TraceEvent::HomeCellCount(count);
    let head = seq![TraceEvent::VisitedCell, own];
    let timeless = forall|es: Seq<TraceEvent>| !(#[trigger] told_all(sink, es)).times();
    assert(timeless ==> home.len() == 0 && seeded.len() == 0 && time.len() == 0) by {
        if timeless {
            assert(!told_all(sink, head).times());
            assert(!told_all(sink, head + home).times());
            assert(!told_all(sink, head + home + seeds + seeded).times());
        }
    }
    let rest = home + seeds + seeded + branch + time;
    assert forall|k: int| 0 <= k < rest.len() implies is_of_engine(#[trigger] rest[k]) && !(
    rest[k] is HomeCellCount) && (timeless ==> !is_time(rest[k])) by {
        let a = home.len() as int;
        let b = a + seeds.len();
        let c = b + seeded.len();
        let d = c + branch.len();
        if k < a {
            assert(rest[k] == home[k]);
        } else if k < b {
            assert(rest[k] == seeds[k - a]);
            assert(is_seed_event(seeds[k - a]));
        } else if k < c {
            assert(rest[k] == seeded[k - b]);
        } else if k < d {
            assert(rest[k] == branch[k - c]);
            assert(is_seed_event(branch[k - c]) || branch[k - c] is PqPop || branch[k - c]
                is BranchScan);
        } else {
            assert(rest[k] == time[k - d]);
        }
    }
    let first = seq![TraceEvent::VisitedCell];
    lemma_once_told(first, own, rest, |e: TraceEvent| e is HomeCellCount);
    assert(events =~= first.push(own) + rest);
    assert forall|k: int| 0 <= k < events.len() implies is_of_engine(#[trigger] events[k]) && (
    timeless ==> !is_time(events[k])) by {
        if k >= 2 {
            assert(events[k] == rest[k - 2]);
        }
    }
}

} // verus!
