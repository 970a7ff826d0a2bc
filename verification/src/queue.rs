//! Bounded queues of the search: cells by bound, tree nodes by key.
use vstd::multiset::Multiset;
use vstd::prelude::*;

verus! {

/// Capacity of the cell queue.
pub const PQ_CAP: usize = 32;

/// Capacity of the set of visited cells.
pub const VISITED_CAP: usize = 128;

/// Capacity of the node queue.
pub const NODE_QUEUE_CAP: usize = 4096;

/// Cells by lower bound, in descending order: the smallest bound is at the end.
pub struct Pq {
    entries: [(i32, u16); 32],
    len: usize,
}

pub open spec fn descending(s: Seq<(i32, u16)>) -> bool {
    forall|i: int, j: int| 0 <= i <= j < s.len() ==> #[trigger] s[i].0 >= #[trigger] s[j].0
}

/// Number of leading entries whose bound is not below `lb`.
pub open spec fn pq_position(s: Seq<(i32, u16)>, lb: i32) -> int
    decreases s.len(),
{
    if s.len() > 0 && s.last().0 < lb {
        pq_position(s.drop_last(), lb)
    } else {
        s.len() as int
    }
}

/// Whether the queue takes in an entry with the bound `lb`.
pub open spec fn pq_takes_in(s: Seq<(i32, u16)>, lb: i32) -> bool {
    s.len() < PQ_CAP || lb < s[0].0
}

/// The queue after `(lb, key)` was pushed. A full queue gives up its largest
/// bound for a smaller one.
pub open spec fn pq_pushed(s: Seq<(i32, u16)>, lb: i32, key: u16) -> Seq<(i32, u16)> {
    if s.len() >= PQ_CAP && lb >= s[0].0 {
        s
    } else {
        let kept = if s.len() >= PQ_CAP {
            s.drop_first()
        } else {
            s
        };
        kept.insert(pq_position(kept, lb), (lb, key))
    }
}

proof fn lemma_pq_position(s: Seq<(i32, u16)>, lb: i32)
    requires
        descending(s),
    ensures
        0 <= pq_position(s, lb) <= s.len(),
        forall|j: int| 0 <= j < pq_position(s, lb) ==> #[trigger] s[j].0 >= lb,
        forall|j: int| pq_position(s, lb) <= j < s.len() ==> #[trigger] s[j].0 < lb,
    decreases s.len(),
{
    if s.len() > 0 && s.last().0 < lb {
        let init = s.drop_last();
        assert forall|i: int, j: int| 0 <= i <= j < init.len() implies #[trigger] init[i].0
            >= #[trigger] init[j].0 by {
            assert(s[i].0 >= s[j].0);
        }
        lemma_pq_position(init, lb);
        assert forall|j: int| 0 <= j < pq_position(s, lb) implies #[trigger] s[j].0 >= lb by {
            assert(init[j] == s[j]);
        }
        assert forall|j: int| pq_position(s, lb) <= j < s.len() implies #[trigger] s[j].0
            < lb by {
            if j < init.len() {
                assert(init[j] == s[j]);
            }
        }
    } else if s.len() > 0 {
        assert forall|j: int| 0 <= j < s.len() implies #[trigger] s[j].0 >= lb by {
            assert(s[j].0 >= s[s.len() - 1].0);
        }
    }
}

/// The keys in the queue.
pub open spec fn pq_keys(s: Seq<(i32, u16)>) -> Seq<u16> {
    s.map_values(|e: (i32, u16)| e.1)
}

/// What is in the queue after a push.
pub proof fn lemma_pq_pushed(s: Seq<(i32, u16)>, lb: i32, key: u16)
    requires
        descending(s),
        s.len() <= PQ_CAP,
        pq_keys(s).no_duplicates(),
        !pq_keys(s).contains(key),
    ensures
        pq_pushed(s, lb, key).len() <= s.len() + 1,
        pq_keys(pq_pushed(s, lb, key)).no_duplicates(),
        forall|i: int|
            0 <= i < pq_pushed(s, lb, key).len() ==> s.contains(
                #[trigger] pq_pushed(s, lb, key)[i],
            ) || pq_pushed(s, lb, key)[i] == (lb, key),
        s.len() < PQ_CAP ==> pq_keys(pq_pushed(s, lb, key)).contains(key),
        s.len() < PQ_CAP ==> forall|k: u16| #[trigger]
            pq_keys(s).contains(k) ==> pq_keys(pq_pushed(s, lb, key)).contains(k),
{
    let t = pq_pushed(s, lb, key);
    if !(s.len() >= PQ_CAP && lb >= s[0].0) {
        let cut: int = if s.len() >= PQ_CAP {
            1
        } else {
            0
        };
        let kept = if s.len() >= PQ_CAP {
            s.drop_first()
        } else {
            s
        };
        assert forall|i: int| 0 <= i < kept.len() implies #[trigger] kept[i] == s[i + cut] by {}
        assert(descending(kept)) by {
            assert forall|i: int, j: int| 0 <= i <= j < kept.len() implies #[trigger] kept[i].0
                >= #[trigger] kept[j].0 by {
                assert(s[i + cut].0 >= s[j + cut].0);
            }
        }
        lemma_pq_position(kept, lb);
        let p = pq_position(kept, lb);
        assert forall|i: int| 0 <= i < t.len() implies #[trigger] t[i] == (if i < p {
            s[i + cut]
        } else if i == p {
            (lb, key)
        } else {
            s[i - 1 + cut]
        }) by {
            if i < p {
                assert(t[i] == kept[i]);
            } else if i > p {
                assert(t[i] == kept[i - 1]);
            }
        }
        assert forall|a: int, b: int|
            0 <= a < t.len() && 0 <= b < t.len() && a != b implies pq_keys(t)[a] != pq_keys(
            t,
        )[b] by {
            let a2 = if a < p {
                a + cut
            } else {
                a - 1 + cut
            };
            let b2 = if b < p {
                b + cut
            } else {
                b - 1 + cut
            };
            if a == p {
                assert(pq_keys(s)[b2] == pq_keys(t)[b]);
            } else if b == p {
                assert(pq_keys(s)[a2] == pq_keys(t)[a]);
            } else {
                assert(pq_keys(s)[a2] != pq_keys(s)[b2]);
            }
        }
        if s.len() < PQ_CAP {
            assert(pq_keys(t)[p] == key);
            assert forall|k: u16| #[trigger] pq_keys(s).contains(k) implies pq_keys(t).contains(
                k,
            ) by {
                let i = choose|i: int| 0 <= i < s.len() && pq_keys(s)[i] == k;
                if i < p {
                    assert(pq_keys(t)[i] == k);
                } else {
                    assert(pq_keys(t)[i + 1] == k);
                }
            }
        }
    }
}

impl View for Pq {
    type V = Seq<(i32, u16)>;

    closed spec fn view(&self) -> Seq<(i32, u16)> {
        self.entries@.take(self.len as int)
    }
}

impl Pq {
    #[verifier::type_invariant]
    pub(crate) closed spec fn order_ok(self) -> bool {
        &&& self.len <= PQ_CAP
        &&& descending(self.entries@.take(self.len as int))
    }

    pub fn new() -> (pq: Self)
        ensures
            pq@ == Seq::<(i32, u16)>::empty(),
    {
        Pq { entries: [(i32::MAX, 0u16); 32], len: 0 }
    }

    /// Returns whether the entry was taken in.
    pub fn push(&mut self, lb: i32, key: u16) -> (pushed: bool)
        ensures
            final(self)@ == pq_pushed(old(self)@, lb, key),
            pushed == pq_takes_in(old(self)@, lb),
            descending(old(self)@),
            old(self)@.len() <= PQ_CAP,
            descending(final(self)@),
            final(self)@.len() <= PQ_CAP,
    {
        proof {
            use_type_invariant(&*self);
        }
        let ghost before = self@;
        let mut entries = self.entries;
        let mut len: usize = self.len;
        if len >= PQ_CAP {
            assert(before[0] == entries@[0]);
            if lb >= entries[0].0 {
                return false;
            }
            let mut idx: usize = 1;
            while idx < len
                invariant
                    1 <= idx <= len,
                    len == 32,
                    forall|j: int| 0 <= j < idx - 1 ==> #[trigger] entries@[j] == self.entries@[j
                        + 1],
                    forall|j: int| idx - 1 <= j < 32 ==> #[trigger] entries@[j] == self.entries@[j],
                decreases len - idx,
            {
                entries[idx - 1] = entries[idx];
                idx = idx + 1;
            }
            len = len - 1;
            assert(entries@.take(len as int) =~= before.drop_first());
        }
        let ghost kept = entries@.take(len as int);
        assert(descending(kept)) by {
            assert forall|i: int, j: int| 0 <= i <= j < kept.len() implies #[trigger] kept[i].0
                >= #[trigger] kept[j].0 by {
                let d: int = before.len() - kept.len();
                assert(before[i + d].0 >= before[j + d].0);
            }
        }
        let ghost base = entries@;
        let mut i: usize = len;
        while i > 0 && entries[i - 1].0 < lb
            invariant
                i <= len < 32,
                forall|j: int| 0 <= j < i ==> #[trigger] entries@[j] == base[j],
                forall|j: int| i < j <= len ==> #[trigger] entries@[j] == base[j - 1],
                forall|j: int| i <= j < len ==> #[trigger] base[j].0 < lb,
            decreases i,
        {
            entries[i] = entries[i - 1];
            i = i - 1;
        }
        entries[i] = (lb, key);
        len = len + 1;
        proof {
            lemma_pq_position(kept, lb);
            let p = pq_position(kept, lb);
            assert(p == i) by {
                if p < i {
                    assert(kept[i - 1].0 < lb);
                }
                if i < p {
                    assert(kept[i as int].0 >= lb);
                    assert(base[i as int].0 < lb);
                }
            }
            let after = kept.insert(p, (lb, key));
            assert forall|j: int| 0 <= j < len implies entries@[j] == #[trigger] after[j] by {}
            assert(entries@.take(len as int) =~= after);
            assert forall|a: int, b: int| 0 <= a <= b < after.len() implies #[trigger] after[a].0
                >= #[trigger] after[b].0 by {
                let a2 = if a < p {
                    a
                } else {
                    a - 1
                };
                let b2 = if b < p {
                    b
                } else {
                    b - 1
                };
                if a != p && b != p {
                    assert(kept[a2].0 >= kept[b2].0);
                } else if a == p && b != p {
                    assert(kept[b2].0 < lb);
                } else if b == p && a != p {
                    assert(kept[a2].0 >= lb);
                }
            }
        }
        *self = Pq { entries, len };
        true
    }

    /// Removes the entry with the smallest bound, the latest among equal ones.
    pub fn pop(&mut self) -> (popped: Option<(i32, u16)>)
        ensures
            old(self)@.len() == 0 ==> popped is None && final(self)@ == old(self)@,
            old(self)@.len() > 0 ==> popped == Some(old(self)@.last()) && final(self)@
                == old(self)@.drop_last(),
            descending(old(self)@),
    {
        proof {
            use_type_invariant(&*self);
        }
        if self.len == 0 {
            None
        } else {
            let ghost before = self@;
            let len: usize = self.len - 1;
            let popped = self.entries[len];
            proof {
                assert(before.last() == popped);
                assert(self.entries@.take(len as int) =~= before.drop_last());
                let rest = self.entries@.take(len as int);
                assert forall|i: int, j: int| 0 <= i <= j < rest.len() implies #[trigger] rest[i].0
                    >= #[trigger] rest[j].0 by {
                    assert(before[i].0 >= before[j].0);
                }
            }
            *self = Pq { entries: self.entries, len };
            Some(popped)
        }
    }
}

/// The cells that were reached, in the order in which they were.
pub struct VisitedSet {
    keys: [u16; 128],
    len: usize,
}

impl View for VisitedSet {
    type V = Seq<u16>;

    closed spec fn view(&self) -> Seq<u16> {
        self.keys@.take(self.len as int)
    }
}

impl VisitedSet {
    #[verifier::type_invariant]
    spec fn len_ok(self) -> bool {
        self.len <= VISITED_CAP
    }

    pub fn new() -> (set: Self)
        ensures
            set@ == Seq::<u16>::empty(),
    {
        VisitedSet { keys: [0u16; 128], len: 0 }
    }

    /// Adds `key` while there is room; returns whether there was.
    pub fn insert(&mut self, key: u16) -> (inserted: bool)
        ensures
            inserted == (old(self)@.len() < VISITED_CAP),
            inserted ==> final(self)@ == old(self)@.push(key),
            !inserted ==> final(self)@ == old(self)@,
            final(self)@.len() <= VISITED_CAP,
    {
        proof {
            use_type_invariant(&*self);
        }
        if self.len < 128 {
            let ghost before = self@;
            self.keys[self.len] = key;
            self.len = self.len + 1;
            assert(self@ =~= before.push(key));
            true
        } else {
            false
        }
    }

    pub fn contains(&self, key: u16) -> (found: bool)
        ensures
            found == self@.contains(key),
    {
        proof {
            use_type_invariant(self);
        }
        let mut i: usize = 0;
        while i < self.len
            invariant
                i <= self.len <= 128,
                forall|j: int| 0 <= j < i ==> self@[j] != key,
            decreases self.len - i,
        {
            assert(self@[i as int] == self.keys@[i as int]);
            if self.keys[i] == key {
                return true;
            }
            i = i + 1;
        }
        false
    }
}

/// A tree node that is still to be expanded.
#[derive(Clone, Copy)]
pub struct NodeCandidate {
    pub key: u64,
    pub node_idx: u32,
    pub lower_bound: i32,
}

/// Candidates by key: a binary heap with the smallest key at its root.
pub struct NodeQueue {
    entries: [NodeCandidate; 4096],
    len: usize,
}

spec fn up(k: int) -> int {
    (k - 1) / 2
}

/// Every entry but the root is not smaller than its parent.
#[verifier::opaque]
spec fn heap(s: Seq<NodeCandidate>) -> bool {
    forall|k: int| 1 <= k < s.len() ==> s[up(k)].key <= #[trigger] s[k].key
}

proof fn lemma_heap_root(s: Seq<NodeCandidate>, k: int)
    requires
        heap(s),
        0 <= k < s.len(),
    ensures
        s[0].key <= s[k].key,
    decreases k,
{
    if k > 0 {
        reveal(heap);
        lemma_heap_root(s, up(k));
        assert(s[up(k)].key <= s[k].key);
    }
}

/// A heap but for the entry at `i`, which may be smaller than its ancestors.
#[verifier::opaque]
spec fn rising(t: Seq<NodeCandidate>, i: int) -> bool {
    &&& 0 <= i < t.len()
    &&& forall|k: int| 1 <= k < t.len() && k != i ==> t[up(k)].key <= #[trigger] t[k].key
    &&& forall|k: int|
        1 <= k < t.len() && up(k) == i && i > 0 ==> t[up(i)].key <= #[trigger] t[k].key
}

/// A heap but for the entry at `i`, which may be larger than its descendants.
#[verifier::opaque]
spec fn sinking(t: Seq<NodeCandidate>, i: int) -> bool {
    &&& 0 <= i < t.len()
    &&& forall|k: int| 1 <= k < t.len() && up(k) != i ==> t[up(k)].key <= #[trigger] t[k].key
    &&& forall|k: int|
        1 <= k < t.len() && up(k) == i && i > 0 ==> t[up(i)].key <= #[trigger] t[k].key
}

pub open spec fn swapped(t: Seq<NodeCandidate>, i: int, j: int) -> Seq<NodeCandidate> {
    t.update(i, t[j]).update(j, t[i])
}

/// The entry at `i` has changed places with its parents until none is larger.
pub open spec fn risen(t: Seq<NodeCandidate>, i: int) -> Seq<NodeCandidate>
    decreases i,
{
    if 0 < i < t.len() && t[(i - 1) / 2].key > t[i].key {
        risen(swapped(t, i, (i - 1) / 2), (i - 1) / 2)
    } else {
        t
    }
}

/// The place of the smaller child of the entry at `i`; the left one on a tie.
pub open spec fn lesser_child(t: Seq<NodeCandidate>, i: int) -> int {
    if 2 * i + 2 < t.len() && t[2 * i + 2].key < t[2 * i + 1].key {
        2 * i + 2
    } else {
        2 * i + 1
    }
}

/// The entry at `i` has changed places with its smaller children until none is
/// smaller.
pub open spec fn sunk(t: Seq<NodeCandidate>, i: int) -> Seq<NodeCandidate>
    decreases t.len() - i,
{
    let c = lesser_child(t, i);
    if 0 <= i && 2 * i + 1 < t.len() && t[c].key < t[i].key {
        sunk(swapped(t, i, c), c)
    } else {
        t
    }
}

/// The entries of the queue after a candidate was added.
pub open spec fn heap_pushed(
    t: Seq<NodeCandidate>,
    candidate: NodeCandidate,
) -> Seq<NodeCandidate> {
    risen(t.push(candidate), t.len() as int)
}

/// The entries of the queue after the first was taken out.
pub open spec fn heap_popped(t: Seq<NodeCandidate>) -> Seq<NodeCandidate> {
    if t.len() <= 1 {
        seq![]
    } else {
        sunk(t.drop_last().update(0, t.last()), 0)
    }
}

/// The first `len` entries, with `candidate` at `idx`.
spec fn placed(
    entries: Seq<NodeCandidate>,
    len: int,
    idx: int,
    candidate: NodeCandidate,
) -> Seq<NodeCandidate> {
    entries.take(len).update(idx, candidate)
}

/// A new entry at the end of a heap.
proof fn lemma_rising_start(
    entries: Seq<NodeCandidate>,
    len: int,
    candidate: NodeCandidate,
)
    requires
        0 <= len < entries.len(),
        heap(entries.take(len)),
    ensures
        rising(placed(entries, len + 1, len, candidate), len),
        placed(entries, len + 1, len, candidate).to_multiset()
            == entries.take(len).to_multiset().insert(candidate),
        risen(placed(entries, len + 1, len, candidate), len) == heap_pushed(
            entries.take(len),
            candidate,
        ),
{
    reveal(heap);
    reveal(rising);
    let before = entries.take(len);
    let t = placed(entries, len + 1, len, candidate);
    before.to_multiset_ensures();
    assert(t =~= before.push(candidate));
    assert forall|k: int| 1 <= k < t.len() && k != len implies t[up(k)].key
        <= #[trigger] t[k].key by {
        assert(before[up(k)].key <= before[k].key);
    }
}

/// The entry moves up to the place of its parent.
proof fn lemma_rising_step(
    entries: Seq<NodeCandidate>,
    len: int,
    i: int,
    candidate: NodeCandidate,
)
    requires
        0 < i < len <= entries.len(),
        rising(placed(entries, len, i, candidate), i),
        candidate.key < entries[up(i)].key,
    ensures
        ({
            let moved = placed(entries.update(i, entries[up(i)]), len, up(i), candidate);
            &&& rising(moved, up(i))
            &&& moved.to_multiset() == placed(entries, len, i, candidate).to_multiset()
            &&& risen(moved, up(i)) == risen(placed(entries, len, i, candidate), i)
        }),
{
    reveal(rising);
    let p = up(i);
    let t = placed(entries, len, i, candidate);
    let t2 = swapped(t, i, p);
    assert(t[p] == entries[p]);
    assert(placed(entries.update(i, entries[p]), len, p, candidate) =~= t2);
    lemma_swap_multiset(t, i, p);
    assert forall|k: int| 1 <= k < t2.len() && k != p implies t2[up(k)].key
        <= #[trigger] t2[k].key by {
        if k != i {
            assert(t[up(k)].key <= t[k].key);
        }
    }
    assert forall|k: int| 1 <= k < t2.len() && up(k) == p && p > 0 implies t2[up(p)].key
        <= #[trigger] t2[k].key by {
        assert(t[up(p)].key <= t[p].key);
        if k != i {
            assert(t[up(k)].key <= t[k].key);
        }
    }
}

proof fn lemma_rising_done(t: Seq<NodeCandidate>, i: int)
    requires
        rising(t, i),
        i == 0 || t[up(i)].key <= t[i].key,
    ensures
        heap(t),
{
    reveal(heap);
    reveal(rising);
}

/// The last entry in the place of the first.
proof fn lemma_sinking_start(entries: Seq<NodeCandidate>, len: int)
    requires
        1 <= len < entries.len(),
        heap(entries.take(len + 1)),
    ensures
        sinking(placed(entries, len, 0, entries[len]), 0),
        placed(entries, len, 0, entries[len]).to_multiset() == entries.take(
            len + 1,
        ).to_multiset().remove(entries[0]),
        sunk(placed(entries, len, 0, entries[len]), 0) == heap_popped(entries.take(len + 1)),
{
    reveal(heap);
    reveal(sinking);
    let before = entries.take(len + 1);
    let t = placed(entries, len, 0, entries[len]);
    lemma_drop_root(before);
    assert(t =~= before.drop_last().update(0, before.last()));
    assert forall|k: int| 1 <= k < t.len() && up(k) != 0 implies t[up(k)].key
        <= #[trigger] t[k].key by {
        assert(before[up(k)].key <= before[k].key);
    }
}

/// The entry moves down to the place of its smaller child.
proof fn lemma_sinking_step(
    entries: Seq<NodeCandidate>,
    len: int,
    i: int,
    c: int,
    candidate: NodeCandidate,
)
    requires
        0 <= i < len <= entries.len(),
        sinking(placed(entries, len, i, candidate), i),
        1 <= c < len,
        up(c) == i,
        entries[c].key < candidate.key,
        c == lesser_child(entries.take(len), i),
        forall|k: int| 1 <= k < len && up(k) == i ==> entries[c].key <= #[trigger] entries[k].key,
    ensures
        ({
            let moved = placed(entries.update(i, entries[c]), len, c, candidate);
            &&& sinking(moved, c)
            &&& moved.to_multiset() == placed(entries, len, i, candidate).to_multiset()
            &&& sunk(moved, c) == sunk(placed(entries, len, i, candidate), i)
        }),
{
    reveal(sinking);
    let t = placed(entries, len, i, candidate);
    let t2 = swapped(t, i, c);
    assert(t[c] == entries[c]);
    assert(placed(entries.update(i, entries[c]), len, c, candidate) =~= t2);
    lemma_swap_multiset(t, i, c);
    assert forall|k: int| 1 <= k < t2.len() && up(k) != c implies t2[up(k)].key
        <= #[trigger] t2[k].key by {
        if k == i {
            assert(t[up(i)].key <= t[c].key);
        } else if up(k) == i {
            assert(entries[c].key <= entries[k].key);
        } else {
            assert(t[up(k)].key <= t[k].key);
        }
    }
    assert forall|k: int| 1 <= k < t2.len() && up(k) == c && c > 0 implies t2[up(c)].key
        <= #[trigger] t2[k].key by {
        assert(t[up(k)].key <= t[k].key);
    }
}

/// An entry that is not larger than its children stays where it is.
proof fn lemma_sunk_done(
    entries: Seq<NodeCandidate>,
    len: int,
    i: int,
    candidate: NodeCandidate,
)
    requires
        0 <= i < len <= entries.len(),
        forall|k: int|
            1 <= k < len && up(k) == i ==> candidate.key <= #[trigger] entries[k].key,
    ensures
        sunk(placed(entries, len, i, candidate), i) == placed(entries, len, i, candidate),
{
    let t = placed(entries, len, i, candidate);
    if 2 * i + 1 < len {
        let c = lesser_child(t, i);
        assert(up(c) == i);
        assert(t[c] == entries[c]);
    }
}

proof fn lemma_sinking_done(
    entries: Seq<NodeCandidate>,
    len: int,
    i: int,
    candidate: NodeCandidate,
)
    requires
        0 <= i < len <= entries.len(),
        sinking(placed(entries, len, i, candidate), i),
        forall|k: int|
            1 <= k < len && up(k) == i ==> candidate.key <= #[trigger] entries[k].key,
    ensures
        heap(placed(entries, len, i, candidate)),
        sunk(placed(entries, len, i, candidate), i) == placed(entries, len, i, candidate),
{
    lemma_sunk_done(entries, len, i, candidate);
    reveal(heap);
    reveal(sinking);
    let t = placed(entries, len, i, candidate);
    assert forall|k: int| 1 <= k < t.len() implies t[up(k)].key <= #[trigger] t[k].key by {
        if up(k) == i {
            assert(candidate.key <= entries[k].key);
        }
    }
}

/// Moves the place for `candidate` up from the end of a heap of `len - 1`
/// entries, until it is not smaller than its parent.
fn sift_up(entries: &mut [NodeCandidate; 4096], len: usize, candidate: NodeCandidate)
    requires
        1 <= len <= 4096,
        heap(old(entries)@.take(len - 1)),
    ensures
        heap(final(entries)@.take(len as int)),
        final(entries)@.take(len as int).to_multiset() == old(entries)@.take(
            len - 1,
        ).to_multiset().insert(candidate),
        final(entries)@.take(len as int) == heap_pushed(old(entries)@.take(len - 1), candidate),
{
    let ghost target = entries@.take(len - 1).to_multiset().insert(candidate);
    let ghost goal = heap_pushed(entries@.take(len - 1), candidate);
    let mut idx: usize = len - 1;
    proof {
        lemma_rising_start(entries@, len - 1, candidate);
    }
    while idx > 0 && entries[(idx - 1) / 2].key > candidate.key
        invariant
            idx < len <= 4096,
            placed(entries@, len as int, idx as int, candidate).to_multiset() == target,
            risen(placed(entries@, len as int, idx as int, candidate), idx as int) == goal,
            rising(placed(entries@, len as int, idx as int, candidate), idx as int),
        decreases idx,
    {
        let parent: usize = (idx - 1) / 2;
        proof {
            lemma_rising_step(entries@, len as int, idx as int, candidate);
        }
        entries[idx] = entries[parent];
        idx = parent;
    }
    proof {
        let t = placed(entries@, len as int, idx as int, candidate);
        assert(idx > 0 ==> t[up(idx as int)] == entries@[up(idx as int)]);
        lemma_rising_done(t, idx as int);
        assert(entries@.update(idx as int, candidate).take(len as int) =~= t);
    }
    entries[idx] = candidate;
}

/// The smaller child of the entry at `idx`.
fn smaller_child(entries: &[NodeCandidate; 4096], len: usize, idx: usize) -> (child: usize)
    requires
        2 * idx + 1 < len <= 4096,
    ensures
        1 <= child < len,
        up(child as int) == idx,
        child == lesser_child(entries@.take(len as int), idx as int),
        forall|k: int|
            1 <= k < len && up(k) == idx ==> entries@[child as int].key
                <= #[trigger] entries@[k].key,
{
    let left: usize = idx * 2 + 1;
    let right: usize = left + 1;
    let child: usize = if right < len && entries[right].key < entries[left].key {
        right
    } else {
        left
    };
    assert forall|k: int| 1 <= k < len && up(k) == idx implies entries@[child as int].key
        <= #[trigger] entries@[k].key by {
        assert(k == left || k == right);
    }
    child
}

/// Takes the root out of a heap of `len + 1` entries: moves the place for the
/// last entry down from the root, until it is not larger than its children.
fn sift_down(entries: &mut [NodeCandidate; 4096], len: usize)
    requires
        1 <= len < 4096,
        heap(old(entries)@.take(len + 1)),
    ensures
        heap(final(entries)@.take(len as int)),
        final(entries)@.take(len as int).to_multiset() == old(entries)@.take(
            len + 1,
        ).to_multiset().remove(old(entries)@[0]),
        final(entries)@.take(len as int) == heap_popped(old(entries)@.take(len + 1)),
{
    let ghost goal = heap_popped(entries@.take(len + 1));
    let ghost target = entries@.take(len + 1).to_multiset().remove(entries@[0]);
    let last = entries[len];
    let mut idx: usize = 0;
    let mut done: bool = false;
    proof {
        lemma_sinking_start(entries@, len as int);
    }
    while !done
        invariant
            idx < len < 4096,
            placed(entries@, len as int, idx as int, last).to_multiset() == target,
            sunk(placed(entries@, len as int, idx as int, last), idx as int) == goal,
            done ==> placed(entries@, len as int, idx as int, last) == goal,
            !done ==> sinking(placed(entries@, len as int, idx as int, last), idx as int),
            done ==> heap(placed(entries@, len as int, idx as int, last)),
        decreases
                if done {
                    0
                } else {
                    len - idx + 1
                },
    {
        if idx * 2 + 1 >= len {
            proof {
                lemma_sinking_done(entries@, len as int, idx as int, last);
            }
            done = true;
        } else {
            let child: usize = smaller_child(entries, len, idx);
            if entries[child].key >= last.key {
                proof {
                    lemma_sinking_done(entries@, len as int, idx as int, last);
                }
                done = true;
            } else {
                proof {
                    lemma_sinking_step(entries@, len as int, idx as int, child as int, last);
                }
                entries[idx] = entries[child];
                idx = child;
            }
        }
    }
    proof {
        let t = placed(entries@, len as int, idx as int, last);
        assert(entries@.update(idx as int, last).take(len as int) =~= t);
    }
    entries[idx] = last;
}

impl View for NodeQueue {
    type V = Seq<NodeCandidate>;

    closed spec fn view(&self) -> Seq<NodeCandidate> {
        self.entries@.take(self.len as int)
    }
}

impl NodeQueue {
    pub closed spec fn wf(&self) -> bool {
        &&& self.len <= NODE_QUEUE_CAP
        &&& heap(self@)
    }

    /// The candidates in the queue.
    pub closed spec fn items(&self) -> Multiset<NodeCandidate> {
        self@.to_multiset()
    }

    pub fn new() -> (queue: Self)
        ensures
            queue.wf(),
            queue@ == Seq::<NodeCandidate>::empty(),
            queue.items() == Multiset::<NodeCandidate>::empty(),
    {
        let vacant = NodeCandidate { key: u64::MAX, node_idx: u32::MAX, lower_bound: i32::MAX };
        let queue = NodeQueue { entries: [vacant; 4096], len: 0 };
        proof {
            let s = queue.entries@.take(0);
            s.to_multiset_ensures();
            reveal(heap);
            assert(s =~= Seq::empty());
            assert(queue.items() =~= Multiset::empty());
        }
        queue
    }

    /// Adds `candidate` unless the queue is full; returns whether it did.
    pub fn push(&mut self, candidate: NodeCandidate) -> (pushed: bool)
        requires
            old(self).wf(),
        ensures
            final(self).wf(),
            pushed == (old(self)@.len() < NODE_QUEUE_CAP),
            old(self)@.len() == old(self).items().len(),
            pushed ==> final(self)@ == heap_pushed(old(self)@, candidate),
            !pushed ==> final(self)@ == old(self)@,
            pushed ==> final(self).items() == old(self).items().insert(candidate),
            !pushed ==> final(self).items() == old(self).items(),
    {
        proof {
            self.entries@.take(self.len as int).to_multiset_ensures();
        }
        if self.len == 4096 {
            return false;
        }
        let len: usize = self.len + 1;
        sift_up(&mut self.entries, len, candidate);
        self.len = len;
        true
    }

    /// Removes a candidate with the smallest key.
    pub fn pop(&mut self) -> (popped: Option<NodeCandidate>)
        requires
            old(self).wf(),
        ensures
            final(self).wf(),
            old(self)@.len() == old(self).items().len(),
            final(self)@ == heap_popped(old(self)@),
            match popped {
                None => old(self).items().len() == 0 && final(self).items() == old(self).items(),
                Some(c) => {
                    &&& old(self)@.len() > 0
                    &&& c == old(self)@[0]
                    &&& old(self).items().count(c) > 0
                    &&& forall|x: NodeCandidate| #[trigger]
                        old(self).items().count(x) > 0 ==> c.key <= x.key
                    &&& final(self).items() == old(self).items().remove(c)
                },
            },
    {
        proof {
            self.entries@.take(self.len as int).to_multiset_ensures();
        }
        if self.len == 0 {
            return None;
        }
        let ghost before = self.entries@.take(self.len as int);
        let result = self.entries[0];
        let len: usize = self.len - 1;
        proof {
            assert(before[0] == result);
            assert(before.contains(result));
            assert forall|x: NodeCandidate| #[trigger] before.to_multiset().count(x)
                > 0 implies result.key <= x.key by {
                assert(before.contains(x));
                let k = choose|k: int| 0 <= k < before.len() && before[k] == x;
                lemma_heap_root(before, k);
            }
        }
        if len == 0 {
            proof {
                reveal(heap);
                assert(before =~= seq![result]);
                let rest = self.entries@.take(0);
                rest.to_multiset_ensures();
                assert(rest =~= Seq::empty());
                assert(rest.to_multiset() =~= before.to_multiset().remove(result));
            }
            self.len = len;
            return Some(result);
        }
        sift_down(&mut self.entries, len);
        self.len = len;
        Some(result)
    }
}

/// Putting the last entry in the place of the first one removes the first one.
proof fn lemma_drop_root(s: Seq<NodeCandidate>)
    requires
        s.len() > 1,
    ensures
        s.drop_last().update(0, s.last()).to_multiset() == s.to_multiset().remove(s[0]),
{
    broadcast use vstd::seq_lib::to_multiset_update, vstd::seq_lib::to_multiset_remove;

    s.to_multiset_ensures();
    let init = s.drop_last();
    init.to_multiset_ensures();
    assert(init =~= s.remove(s.len() - 1));
    assert(init[0] == s[0]);
    assert(init.contains(s[0]));
    assert(init.to_multiset().count(s[0]) > 0);
    assert(init.update(0, s.last()).to_multiset() =~= s.to_multiset().remove(s[0]));
}

proof fn lemma_swap_multiset(t: Seq<NodeCandidate>, i: int, j: int)
    requires
        0 <= i < t.len(),
        0 <= j < t.len(),
        i != j,
    ensures
        t.update(i, t[j]).update(j, t[i]).to_multiset() == t.to_multiset(),
{
    broadcast use vstd::seq_lib::to_multiset_update;

    t.to_multiset_ensures();
    let a = t.update(i, t[j]);
    a.to_multiset_ensures();
    assert(t.to_multiset().count(t[i]) > 0);
    assert(t.update(i, t[j]).update(j, t[i]).to_multiset() =~= t.to_multiset());
}

/// What pushing does to the queue of cells: up to 32 entries are kept; a full
/// queue takes in an entry only if it is nearer than its farthest one, which
/// leaves. The entries stay in descending order, the nearest last.
pub proof fn law_cells_are_queued(s: Seq<(i32, u16)>, lb: i32, key: u16)
    requires
        s.len() <= 32,
        forall|i: int, j: int| 0 <= i <= j < s.len() ==> #[trigger] s[i].0 >= #[trigger] s[j].0,
    ensures
        ({
            let t = pq_pushed(s, lb, key);
            &&& s.len() < 32 ==> t.to_multiset() == s.to_multiset().insert((lb, key))
            &&& s.len() == 32 && lb >= s[0].0 ==> t == s
            &&& s.len() == 32 && lb < s[0].0 ==> t.to_multiset()
                == s.drop_first().to_multiset().insert((lb, key))
            &&& pq_takes_in(s, lb) <==> s.len() < 32 || lb < s[0].0
            &&& pq_takes_in(s, lb) ==> t.contains((lb, key))
            &&& forall|i: int, j: int|
                0 <= i <= j < t.len() ==> #[trigger] t[i].0 >= #[trigger] t[j].0
        }),
{
    let kept = if s.len() >= 32 {
        s.drop_first()
    } else {
        s
    };
    let t = pq_pushed(s, lb, key);
    assert(descending(kept)) by {
        assert forall|i: int, j: int| 0 <= i <= j < kept.len() implies #[trigger] kept[i].0
            >= #[trigger] kept[j].0 by {
            if s.len() >= 32 {
                assert(s[i + 1].0 >= s[j + 1].0);
            }
        }
    }
    lemma_pq_position(kept, lb);
    let at = pq_position(kept, lb);
    if pq_takes_in(s, lb) {
        vstd::seq_lib::to_multiset_insert(kept, at, (lb, key));
        assert(t[at] == (lb, key));
        assert forall|i: int, j: int| 0 <= i <= j < t.len() implies #[trigger] t[i].0
            >= #[trigger] t[j].0 by {
            if i < at && j < at {
                assert(kept[i].0 >= kept[j].0);
            } else if i < at && j > at {
                assert(kept[i].0 >= kept[j - 1].0);
            } else if i > at {
                assert(kept[i - 1].0 >= kept[j - 1].0);
            }
        }
    }
}

/// How many entries the queues and the set of visited cells have room for.
pub proof fn law_room()
    ensures
        PQ_CAP == 32,
        VISITED_CAP == 128,
        NODE_QUEUE_CAP == 4096,
{
}

/// Where an entry stands in the queue of cells: behind those that are not
/// nearer, so that of those as near it is the first to leave.
pub proof fn law_place_in_the_queue(s: Seq<(i32, u16)>, lb: i32, key: u16) -> (at: int)
    requires
        descending(s),
        s.len() <= 32,
        s.len() < 32 || lb < s[0].0,
    ensures
        ({
            let t = pq_pushed(s, lb, key);
            let gone: int = if s.len() == 32 {
                1
            } else {
                0
            };
            &&& 0 <= at < t.len()
            &&& t.len() == s.len() + 1 - gone
            &&& t[at] == (lb, key)
            &&& forall|i: int| 0 <= i < at ==> #[trigger] t[i] == s[i + gone] && t[i].0 >= lb
            &&& forall|i: int|
                at < i < t.len() ==> #[trigger] t[i] == s[i - 1 + gone] && t[i].0 < lb
        }),
{
    let kept = if s.len() >= 32 {
        s.drop_first()
    } else {
        s
    };
    assert(descending(kept)) by {
        assert forall|i: int, j: int| 0 <= i <= j < kept.len() implies #[trigger] kept[i].0
            >= #[trigger] kept[j].0 by {
            if s.len() >= 32 {
                assert(s[i + 1].0 >= s[j + 1].0);
            }
        }
    }
    lemma_pq_position(kept, lb);
    let at = pq_position(kept, lb);
    let t = pq_pushed(s, lb, key);
    assert forall|i: int| at < i < t.len() implies t[i].0 < lb by {
        assert(t[i] == kept[i - 1]);
    }
    assert forall|i: int| 0 <= i < at implies t[i].0 >= lb by {
        assert(t[i] == kept[i]);
    }
    at
}

/// What the queue of cells does: a push is what is stated of one, and a pop
/// takes the last entry, which no other is nearer than.
pub proof fn law_queue_of_cells(
    pushed_on: &mut Pq,
    popped_from: &mut Pq,
    lb: i32,
    key: u16,
    pushed: bool,
    popped: Option<(i32, u16)>,
    i: int,
)
    requires
        call_ensures(Pq::push, (pushed_on, lb, key), pushed),
        call_ensures(Pq::pop, (popped_from,), popped),
    ensures
        pushed <==> old(pushed_on)@.len() < 32 || lb < old(pushed_on)@[0].0,
        final(pushed_on)@ == pq_pushed(old(pushed_on)@, lb, key),
        popped is Some <==> old(popped_from)@.len() > 0,
        popped is Some ==> final(popped_from)@.push(popped->0) == old(popped_from)@,
        popped is None ==> final(popped_from)@ == old(popped_from)@,
        0 <= i < old(popped_from)@.len() ==> ({
            let (lb, key) = popped->0;
            lb <= old(popped_from)@[i].0
        }),
{
    if old(popped_from)@.len() > 0 {
        assert(old(popped_from)@.drop_last().push(old(popped_from)@.last()) =~= old(
            popped_from,
        )@);
    }
}

/// A cell that was put into the set is found in it, as are those before it;
/// there is room for 128.
pub proof fn law_visited_cells(
    set: &mut VisitedSet,
    key: u16,
    inserted: bool,
    other: u16,
    found: bool,
)
    requires
        call_ensures(VisitedSet::insert, (set, key), inserted),
        call_ensures(VisitedSet::contains, (&*final(set), other), found),
    ensures
        inserted <==> old(set)@.len() < 128,
        found <==> old(set)@.contains(other) || (inserted && other == key),
{
    let a = old(set)@;
    let b = final(set)@;
    if inserted {
        assert(b[a.len() as int] == key);
        if a.contains(other) {
            let k = choose|k: int| 0 <= k < a.len() && a[k] == other;
            assert(b[k] == other);
        }
        if b.contains(other) && other != key {
            let k = choose|k: int| 0 <= k < b.len() && b[k] == other;
            assert(a[k] == other);
        }
    }
}

/// On a tie nothing moves: an entry does not rise past one with the same key,
/// nor sink past it, and of two children with the same key the left one is
/// the first.
pub proof fn law_ties_in_the_queue(t: Seq<NodeCandidate>, i: int)
    requires
        0 <= i < t.len(),
    ensures
        i > 0 && t[(i - 1) / 2].key <= t[i].key ==> risen(t, i) == t,
        (2 * i + 1 < t.len() ==> t[2 * i + 1].key >= t[i].key) && (2 * i + 2 < t.len() ==> t[2 * i
            + 2].key >= t[i].key) ==> sunk(t, i) == t,
        2 * i + 2 < t.len() && t[2 * i + 1].key == t[2 * i + 2].key ==> lesser_child(t, i) == 2 * i
            + 1,
{
}

} // verus!
