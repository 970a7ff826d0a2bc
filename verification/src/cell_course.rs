//! The course that a search of the cells takes.
use crate::cell::{cell_bound, key_in_tables, neighbor_list};
use crate::cell_search::{out_of_reach, worst_dist_of};
use crate::index_format::{IndexModel, N_CELLS};
use crate::queue::{pq_pushed, pq_takes_in, VISITED_CAP};
use crate::topk::TopKEntry;
use crate::trace::TraceEvent;
use crate::traverse::can_improve;
use crate::tree::{after_scan, span};
use vstd::prelude::*;

verus! {

/// The cells that were visited, the queue of those that are to be scanned, and
/// what was told of them.
#[verifier::ext_equal]
pub struct Reach {
    pub visited: Seq<u16>,
    pub queue: Seq<(i32, u16)>,
    pub events: Seq<TraceEvent>,
}

/// A cell is visited, unless it was before, or its bound is not below `worst`,
/// or there is no room. It is told that it is visited, and that it is queued
/// where the queue takes it in.
pub open spec fn taken_up(
    q: Seq<i16>,
    query_key: u16,
    worst: int,
    r: Reach,
    key: u16,
) -> Reach {
    let bound = cell_bound(q, query_key, key);
    if !r.visited.contains(key) && bound < worst && r.visited.len() < VISITED_CAP {
        let told = r.events.push(TraceEvent::VisitedCell);
        Reach {
            visited: r.visited.push(key),
            queue: pq_pushed(r.queue, bound as i32, key),
            events: if pq_takes_in(r.queue, bound as i32) {
                told.push(TraceEvent::PqPush)
            } else {
                told
            },
        }
    } else {
        r
    }
}

/// The cells are taken up in turn.
pub open spec fn all_taken_up(
    q: Seq<i16>,
    query_key: u16,
    worst: int,
    r: Reach,
    keys: Seq<u16>,
) -> Reach
    decreases keys.len(),
{
    if keys.len() == 0 {
        r
    } else {
        taken_up(
            q,
            query_key,
            worst,
            all_taken_up(q, query_key, worst, r, keys.drop_last()),
            keys.last(),
        )
    }
}

/// How far a search of cells has come: the neighbours, the cells that it
/// scanned, those that it visited, the queue, what it told, and whether it is
/// done.
#[verifier::ext_equal]
pub struct Tour {
    pub s: Seq<TopKEntry>,
    pub cells: Seq<u16>,
    pub visited: Seq<u16>,
    pub queue: Seq<(i32, u16)>,
    pub events: Seq<TraceEvent>,
    pub done: bool,
}

/// The neighbours after a cell was scanned.
pub open spec fn cell_scanned(
    m: IndexModel,
    q: Seq<i16>,
    s: Seq<TopKEntry>,
    key: u16,
) -> Seq<TopKEntry> {
    let entry = m.cells[key as int];
    if entry.count > 0 {
        after_scan(m, q, s, span(entry.offset as int, entry.offset + entry.count))
    } else {
        s
    }
}

impl Tour {
    /// A cell is scanned; of one that is not empty it is told how many vectors
    /// it has.
    pub open spec fn scans(self, m: IndexModel, q: Seq<i16>, key: u16) -> Tour {
        let count = m.cells[key as int].count;
        Tour {
            s: cell_scanned(m, q, self.s, key),
            cells: self.cells.push(key),
            events: if count > 0 {
                self.events.push(TraceEvent::BranchScan(count))
            } else {
                self.events
            },
            ..self
        }
    }

    /// The cells around `key` are taken up that are nearer than the worst
    /// neighbour.
    pub open spec fn looks_around(self, q: Seq<i16>, query_key: u16, key: u16) -> Tour {
        let r = all_taken_up(
            q,
            query_key,
            worst_dist_of(self.s),
            Reach { visited: self.visited, queue: self.queue, events: seq![] },
            neighbor_list(key),
        );
        Tour {
            visited: r.visited,
            queue: r.queue,
            events: self.events + r.events,
            ..self
        }
    }
}

/// The nearest cell of the queue is scanned, and the cells around it are taken
/// up. The search is done where the queue is empty or the bound of its nearest
/// cell is not better than the worst neighbour.
pub open spec fn moved_on(m: IndexModel, q: Seq<i16>, query_key: u16, t: Tour) -> Tour {
    if t.done {
        t
    } else if t.queue.len() == 0 {
        Tour { done: true, ..t }
    } else {
        let (bound, key) = t.queue.last();
        let popped = Tour {
            queue: t.queue.drop_last(),
            events: t.events.push(TraceEvent::PqPop),
            ..t
        };
        if can_improve(t.s, bound, 0) {
            popped.scans(m, q, key).looks_around(q, query_key, key)
        } else {
            Tour { done: true, ..popped }
        }
    }
}

/// The search after `n` steps.
pub open spec fn moved_on_by(
    m: IndexModel,
    q: Seq<i16>,
    query_key: u16,
    t: Tour,
    n: nat,
) -> Tour
    decreases n,
{
    if n == 0 {
        t
    } else {
        moved_on(m, q, query_key, moved_on_by(m, q, query_key, t, (n - 1) as nat))
    }
}

/// Where the search ends.
pub open spec fn tour_end(m: IndexModel, q: Seq<i16>, query_key: u16, t: Tour) -> Tour {
    moved_on_by(
        m,
        q,
        query_key,
        t,
        choose|n: nat| (#[trigger] moved_on_by(m, q, query_key, t, n)).done,
    )
}

proof fn lemma_done_stays(
    m: IndexModel,
    q: Seq<i16>,
    query_key: u16,
    t: Tour,
    a: nat,
    b: nat,
)
    requires
        moved_on_by(m, q, query_key, t, a).done,
        a <= b,
    ensures
        moved_on_by(m, q, query_key, t, b) == moved_on_by(m, q, query_key, t, a),
    decreases b,
{
    if a < b {
        lemma_done_stays(m, q, query_key, t, a, (b - 1) as nat);
    }
}

/// There is only one end.
pub proof fn lemma_tour_end(m: IndexModel, q: Seq<i16>, query_key: u16, t: Tour, n: nat)
    requires
        moved_on_by(m, q, query_key, t, n).done,
    ensures
        tour_end(m, q, query_key, t) == moved_on_by(m, q, query_key, t, n),
{
    let k = choose|n: nat| (#[trigger] moved_on_by(m, q, query_key, t, n)).done;
    if k <= n {
        lemma_done_stays(m, q, query_key, t, k, n);
    } else {
        lemma_done_stays(m, q, query_key, t, n, k);
    }
}

/// Of the keys below `n`, the cells that hold vectors, are not among those
/// `scanned` before and are not out of reach are scanned in turn.
pub open spec fn rest_scanned(
    m: IndexModel,
    q: Seq<i16>,
    query_key: u16,
    scanned: Seq<u16>,
    t: Tour,
    n: nat,
) -> Tour
    decreases n,
{
    if n == 0 {
        t
    } else {
        let before = rest_scanned(m, q, query_key, scanned, t, (n - 1) as nat);
        let key = (n - 1) as u16;
        if key_in_tables(key) && m.cells[key as int].count > 0 && !scanned.contains(key)
            && !out_of_reach(q, query_key, before.s, key) {
            before.scans(m, q, key)
        } else {
            before
        }
    }
}

/// The first cells that are taken up: those around the query's own.
pub open spec fn first_reach(
    m: IndexModel,
    q: Seq<i16>,
    query_key: u16,
    s: Seq<TopKEntry>,
) -> Reach {
    all_taken_up(
        q,
        query_key,
        worst_dist_of(cell_scanned(m, q, s, query_key)),
        Reach { visited: seq![query_key], queue: seq![], events: seq![] },
        neighbor_list(query_key),
    )
}

/// Where the search of other cells begins: after the query's own.
pub open spec fn tour_start(
    m: IndexModel,
    q: Seq<i16>,
    query_key: u16,
    s: Seq<TopKEntry>,
) -> Tour {
    let r = first_reach(m, q, query_key, s);
    Tour {
        s: cell_scanned(m, q, s, query_key),
        cells: seq![],
        visited: r.visited,
        queue: r.queue,
        events: seq![],
        done: false,
    }
}

/// The search from cell to cell.
pub open spec fn near_tour(
    m: IndexModel,
    q: Seq<i16>,
    query_key: u16,
    s: Seq<TopKEntry>,
) -> Tour {
    tour_end(m, q, query_key, tour_start(m, q, query_key, s))
}

/// The search of what it left out.
pub open spec fn rest_tour(
    m: IndexModel,
    q: Seq<i16>,
    query_key: u16,
    s: Seq<TopKEntry>,
) -> Tour {
    let near = near_tour(m, q, query_key, s);
    rest_scanned(
        m,
        q,
        query_key,
        seq![query_key] + near.cells,
        Tour { cells: seq![], events: seq![], ..near },
        N_CELLS as nat,
    )
}

/// The cells that are scanned after the query's own.
pub open spec fn further_cells(
    m: IndexModel,
    q: Seq<i16>,
    query_key: u16,
    s: Seq<TopKEntry>,
) -> Seq<u16> {
    near_tour(m, q, query_key, s).cells + rest_tour(m, q, query_key, s).cells
}

/// What the cell search makes of the neighbours `s`.
pub open spec fn cell_neighbours(
    m: IndexModel,
    q: Seq<i16>,
    query_key: u16,
    s: Seq<TopKEntry>,
) -> Seq<TopKEntry> {
    rest_tour(m, q, query_key, s).s
}

/// What the search of the further cells tells.
pub open spec fn branch_events(
    m: IndexModel,
    q: Seq<i16>,
    query_key: u16,
    s: Seq<TopKEntry>,
) -> Seq<TraceEvent> {
    near_tour(m, q, query_key, s).events + rest_tour(m, q, query_key, s).events
}

/// How often it is told that a cell is visited.
pub open spec fn visits_in(events: Seq<TraceEvent>) -> nat {
    events.to_multiset().count(TraceEvent::VisitedCell)
}

proof fn lemma_visits_push(events: Seq<TraceEvent>, event: TraceEvent)
    ensures
        visits_in(events.push(event)) == visits_in(events) + (if event is VisitedCell {
            1nat
        } else {
            0
        }),
{
    events.to_multiset_ensures();
}

proof fn lemma_visits_concat(a: Seq<TraceEvent>, b: Seq<TraceEvent>)
    ensures
        visits_in(a + b) == visits_in(a) + visits_in(b),
{
    vstd::seq_lib::lemma_multiset_commutative(a, b);
}

proof fn lemma_taken_up_visits(
    q: Seq<i16>,
    query_key: u16,
    worst: int,
    r: Reach,
    keys: Seq<u16>,
)
    requires
        r.visited.no_duplicates(),
    ensures
        ({
            let t = all_taken_up(q, query_key, worst, r, keys);
            &&& t.visited.no_duplicates()
            &&& visits_in(t.events) - visits_in(r.events) == t.visited.len() - r.visited.len()
        }),
    decreases keys.len(),
{
    if keys.len() > 0 {
        lemma_taken_up_visits(q, query_key, worst, r, keys.drop_last());
        let before = all_taken_up(q, query_key, worst, r, keys.drop_last());
        lemma_visits_push(before.events, TraceEvent::VisitedCell);
        lemma_visits_push(
            before.events.push(TraceEvent::VisitedCell),
            TraceEvent::PqPush,
        );
    }
}

proof fn lemma_tour_visits(m: IndexModel, q: Seq<i16>, query_key: u16, t: Tour, n: nat)
    requires
        t.visited.no_duplicates(),
    ensures
        ({
            let u = moved_on_by(m, q, query_key, t, n);
            &&& u.visited.no_duplicates()
            &&& visits_in(u.events) - visits_in(t.events) == u.visited.len() - t.visited.len()
        }),
    decreases n,
{
    if n > 0 {
        lemma_tour_visits(m, q, query_key, t, (n - 1) as nat);
        let u = moved_on_by(m, q, query_key, t, (n - 1) as nat);
        if !u.done && u.queue.len() > 0 {
            let key = u.queue.last().1;
            let popped = Tour {
                queue: u.queue.drop_last(),
                events: u.events.push(TraceEvent::PqPop),
                ..u
            };
            let scanned = popped.scans(m, q, key);
            let r = Reach { visited: scanned.visited, queue: scanned.queue, events: seq![] };
            let worst = worst_dist_of(scanned.s);
            lemma_visits_push(u.events, TraceEvent::PqPop);
            lemma_visits_push(
                popped.events,
                TraceEvent::BranchScan(m.cells[key as int].count),
            );
            lemma_taken_up_visits(q, query_key, worst, r, neighbor_list(key));
            r.events.to_multiset_ensures();
            lemma_visits_concat(
                scanned.events,
                all_taken_up(q, query_key, worst, r, neighbor_list(key)).events,
            );
        }
    }
}

/// No cell is visited twice, and of each it is told once: of the query's own
/// at first, of the others where they are taken up.
pub proof fn law_visits_are_told(m: IndexModel, q: Seq<i16>, query_key: u16, s: Seq<TopKEntry>)
    ensures
        ({
            let near = near_tour(m, q, query_key, s);
            &&& near.visited.no_duplicates()
            &&& 1 + visits_in(first_reach(m, q, query_key, s).events) + visits_in(near.events)
                == near.visited.len()
        }),
{
    let worst = worst_dist_of(cell_scanned(m, q, s, query_key));
    let r = Reach { visited: seq![query_key], queue: seq![], events: seq![] };
    let start = tour_start(m, q, query_key, s);
    r.events.to_multiset_ensures();
    lemma_taken_up_visits(q, query_key, worst, r, neighbor_list(query_key));
    lemma_tour_visits(
        m,
        q,
        query_key,
        start,
        choose|n: nat| (#[trigger] moved_on_by(m, q, query_key, start, n)).done,
    );
}

proof fn lemma_tour_pops(m: IndexModel, q: Seq<i16>, query_key: u16, t: Tour, n: nat)
    ensures
        ({
            let u = moved_on_by(m, q, query_key, t, n);
            let pops = u.events.to_multiset().count(TraceEvent::PqPop)
                - t.events.to_multiset().count(TraceEvent::PqPop);
            let scanned = u.cells.len() - t.cells.len();
            &&& t.done ==> u == t
            &&& !u.done ==> pops == scanned
            &&& scanned <= pops <= scanned + 1
        }),
    decreases n,
{
    if n > 0 {
        lemma_tour_pops(m, q, query_key, t, (n - 1) as nat);
        let u = moved_on_by(m, q, query_key, t, (n - 1) as nat);
        if !u.done && u.queue.len() > 0 {
            let key = u.queue.last().1;
            let popped = Tour {
                queue: u.queue.drop_last(),
                events: u.events.push(TraceEvent::PqPop),
                ..u
            };
            let scanned = popped.scans(m, q, key);
            let r = Reach { visited: scanned.visited, queue: scanned.queue, events: seq![] };
            let worst = worst_dist_of(scanned.s);
            u.events.to_multiset_ensures();
            popped.events.to_multiset_ensures();
            r.events.to_multiset_ensures();
            lemma_no_pops(q, query_key, worst, r, neighbor_list(key));
            vstd::seq_lib::lemma_multiset_commutative(
                scanned.events,
                all_taken_up(q, query_key, worst, r, neighbor_list(key)).events,
            );
        }
    }
}

proof fn lemma_no_pops(q: Seq<i16>, query_key: u16, worst: int, r: Reach, keys: Seq<u16>)
    ensures
        all_taken_up(q, query_key, worst, r, keys).events.to_multiset().count(TraceEvent::PqPop)
            == r.events.to_multiset().count(TraceEvent::PqPop),
    decreases keys.len(),
{
    if keys.len() > 0 {
        lemma_no_pops(q, query_key, worst, r, keys.drop_last());
        let before = all_taken_up(q, query_key, worst, r, keys.drop_last());
        before.events.to_multiset_ensures();
        before.events.push(TraceEvent::VisitedCell).to_multiset_ensures();
    }
}

/// Of each cell that leaves the queue it is told once: of those that are
/// scanned from cell to cell, and of one more at most, that is too far.
pub proof fn law_pops_are_told(m: IndexModel, q: Seq<i16>, query_key: u16, s: Seq<TopKEntry>)
    ensures
        ({
            let near = near_tour(m, q, query_key, s);
            let pops = near.events.to_multiset().count(TraceEvent::PqPop);
            near.cells.len() <= pops <= near.cells.len() + 1
        }),
{
    let start = tour_start(m, q, query_key, s);
    start.events.to_multiset_ensures();
    lemma_tour_pops(
        m,
        q,
        query_key,
        start,
        choose|n: nat| (#[trigger] moved_on_by(m, q, query_key, start, n)).done,
    );
}

} // verus!
