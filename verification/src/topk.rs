//! The five nearest neighbours seen so far, ordered by distance and then by
//! the identifier of the reference.
use vstd::multiset::Multiset;
use vstd::prelude::*;
use vstd::set_lib::{lemma_int_range, set_int_range};

verus! {

/// Number of neighbours that vote on a transaction.
pub const TOP_K: usize = 5;

/// Key of an empty slot. Only keys strictly below it are ever stored.
pub const EMPTY_KEY: u64 = 0x7FFF_FFFF_FFFF_FFFF;

/// A neighbour: its distance and identifier packed into one ordered key, and
/// the label of the reference.
#[derive(Clone, Copy)]
pub struct TopKEntry {
    pub key: u64,
    pub label: u8,
}

/// The distance in the high half of the key and the identifier in the low
/// half, so that keys order by distance first and identifier second.
pub open spec fn packed_key(dist_sq: i32, original_id: u32) -> int {
    let unsigned: int = if dist_sq >= 0 {
        dist_sq as int
    } else {
        dist_sq + 0x1_0000_0000
    };
    unsigned * 0x1_0000_0000 + original_id
}

/// The key that a new entry has to beat.
pub open spec fn worst_key_of(s: Seq<TopKEntry>) -> u64 {
    if s.len() < TOP_K {
        EMPTY_KEY
    } else {
        s[TOP_K - 1].key
    }
}

/// What every collection of neighbours satisfies: at most five entries, in
/// ascending order of key, none of them with the key of an empty slot.
pub open spec fn ranked(s: Seq<TopKEntry>) -> bool {
    &&& s.len() <= TOP_K
    &&& forall|i: int, j: int| 0 <= i <= j < s.len() ==> #[trigger] s[i].key <= #[trigger] s[j].key
    &&& forall|i: int| 0 <= i < s.len() ==> #[trigger] s[i].key < EMPTY_KEY
}

/// No two entries share a key.
pub open spec fn distinct_keys(s: Seq<TopKEntry>) -> bool {
    forall|i: int, j: int|
        0 <= i < s.len() && 0 <= j < s.len() && i != j ==> #[trigger] s[i].key
            != #[trigger] s[j].key
}

/// Where an entry with `key` goes: behind every entry whose key is not larger.
pub open spec fn insert_position(s: Seq<TopKEntry>, key: u64) -> int
    decreases s.len(),
{
    if s.len() > 0 && s.last().key > key {
        insert_position(s.drop_last(), key)
    } else {
        s.len() as int
    }
}

/// The neighbours after `e` was offered to `s`.
pub open spec fn offered(s: Seq<TopKEntry>, e: TopKEntry) -> Seq<TopKEntry> {
    if e.key >= worst_key_of(s) {
        s
    } else {
        let grown = s.insert(insert_position(s, e.key), e);
        if grown.len() > TOP_K {
            grown.take(TOP_K as int)
        } else {
            grown
        }
    }
}

/// Number of entries labelled as fraud.
pub open spec fn fraud_labels(s: Seq<TopKEntry>) -> nat
    decreases s.len(),
{
    if s.len() == 0 {
        0
    } else {
        fraud_labels(s.drop_last()) + (if s.last().label == 1 {
            1nat
        } else {
            0nat
        })
    }
}

/// `e` is among the neighbours, or could not improve on them.
pub open spec fn covered(s: Seq<TopKEntry>, e: TopKEntry) -> bool {
    s.contains(e) || e.key >= worst_key_of(s)
}

/// `insert_position` splits an ordered collection at `key`.
pub proof fn lemma_insert_position(s: Seq<TopKEntry>, key: u64)
    requires
        ranked(s),
    ensures
        0 <= insert_position(s, key) <= s.len(),
        forall|j: int| 0 <= j < insert_position(s, key) ==> #[trigger] s[j].key <= key,
        forall|j: int| insert_position(s, key) <= j < s.len() ==> #[trigger] s[j].key > key,
    decreases s.len(),
{
    if s.len() > 0 && s.last().key > key {
        let init = s.drop_last();
        assert forall|i: int, j: int| 0 <= i <= j < init.len() implies #[trigger] init[i].key
            <= #[trigger] init[j].key by {
            assert(s[i].key <= s[j].key);
        }
        assert forall|i: int| 0 <= i < init.len() implies #[trigger] init[i].key < EMPTY_KEY by {
            assert(s[i].key < EMPTY_KEY);
        }
        lemma_insert_position(init, key);
        assert forall|j: int| 0 <= j < insert_position(s, key) implies #[trigger] s[j].key
            <= key by {
            assert(init[j] == s[j]);
        }
        assert forall|j: int| insert_position(s, key) <= j < s.len() implies #[trigger] s[j].key
            > key by {
            if j < init.len() {
                assert(init[j] == s[j]);
            }
        }
    } else if s.len() > 0 {
        assert forall|j: int| 0 <= j < s.len() implies #[trigger] s[j].key <= key by {
            assert(s[j].key <= s[s.len() - 1].key);
        }
    }
}

/// Offering an entry keeps the order, never weakens the bar that later entries
/// have to beat, and loses nothing that still matters.
pub proof fn lemma_offered(s: Seq<TopKEntry>, e: TopKEntry)
    requires
        ranked(s),
    ensures
        ranked(offered(s, e)),
        worst_key_of(offered(s, e)) <= worst_key_of(s),
        covered(offered(s, e), e),
        forall|x: TopKEntry| covered(s, x) ==> #[trigger] covered(offered(s, e), x),
        forall|x: TopKEntry| #[trigger]
            offered(s, e).contains(x) ==> s.contains(x) || x == e,
        s.len() <= offered(s, e).len(),
{
    let t = offered(s, e);
    lemma_insert_position(s, e.key);
    if e.key < worst_key_of(s) {
        let p = insert_position(s, e.key);
        let grown = s.insert(p, e);
        assert(p < TOP_K);
        assert(grown[p] == e);
        assert(t[p] == e);
        assert forall|i: int| 0 <= i < t.len() implies t[i] == (if i < p {
            s[i]
        } else if i == p {
            e
        } else {
            s[i - 1]
        }) by {}
        assert forall|i: int, j: int| 0 <= i <= j < t.len() implies #[trigger] t[i].key
            <= #[trigger] t[j].key by {
            if i < p && j > p {
                assert(s[i].key <= s[j - 1].key);
            } else if i < p && j < p {
                assert(s[i].key <= s[j].key);
            } else if i > p {
                assert(s[i - 1].key <= s[j - 1].key);
            }
        }
        assert forall|x: TopKEntry| covered(s, x) implies #[trigger] covered(t, x) by {
            if s.contains(x) {
                let k = choose|k: int| 0 <= k < s.len() && s[k] == x;
                if k < p {
                    assert(t[k] == x);
                } else if k + 1 < TOP_K {
                    assert(grown[k + 1] == x);
                    assert(t[k + 1] == x);
                } else {
                    assert(t[TOP_K - 1].key <= x.key);
                }
            }
        }
        assert forall|x: TopKEntry| #[trigger] t.contains(x) implies s.contains(x) || x == e by {
            let k = choose|k: int| 0 <= k < t.len() && t[k] == x;
            if k < p {
                assert(s[k] == x);
            } else if k > p {
                assert(s[k - 1] == x);
            }
        }
    }
}

/// Shifting the slots behind `i` and storing `e` at `i` is what offering does.
proof fn lemma_shifted_slots(
    slots: Seq<TopKEntry>,
    count: int,
    shifted: Seq<TopKEntry>,
    i: int,
    e: TopKEntry,
)
    requires
        slots.len() == 5,
        shifted.len() == 5,
        0 <= count <= 5,
        ranked(slots.take(count)),
        forall|j: int| count <= j < 5 ==> #[trigger] slots[j].key == EMPTY_KEY,
        e.key < slots[4].key,
        0 <= i <= 4,
        forall|j: int| 0 <= j < i ==> #[trigger] shifted[j] == slots[j],
        shifted[i] == e,
        forall|j: int| i < j < 5 ==> #[trigger] shifted[j] == slots[j - 1],
        forall|j: int| i <= j < 4 ==> #[trigger] slots[j].key > e.key,
        i > 0 ==> slots[i - 1].key <= e.key,
    ensures
        ({
            let grown = if count < 5 {
                count + 1
            } else {
                count
            };
            &&& shifted.take(grown) == offered(slots.take(count), e)
            &&& ranked(shifted.take(grown))
            &&& forall|j: int| grown <= j < 5 ==> #[trigger] shifted[j].key == EMPTY_KEY
        }),
{
    let before = slots.take(count);
    let grown = if count < 5 {
        count + 1
    } else {
        count
    };
    let p = insert_position(before, e.key);
    lemma_insert_position(before, e.key);
    lemma_offered(before, e);
    assert forall|j: int| 0 <= j < count implies #[trigger] before[j] == slots[j] by {}
    if count == 5 {
        assert(before[4] == slots[4]);
    } else {
        assert(slots[4].key == EMPTY_KEY);
    }
    assert(e.key < worst_key_of(before));
    assert(i <= count) by {
        if i > count {
            assert(slots[i - 1].key == EMPTY_KEY);
        }
    }
    if p < i {
        assert(before[p].key > e.key);
        assert(before[p].key <= before[i - 1].key);
    }
    if i < p {
        assert(before[i].key <= e.key);
        if i < 4 {
            assert(slots[i].key > e.key);
        }
    }
    assert(p == i);
    let inserted = before.insert(p, e);
    assert forall|j: int| 0 <= j < grown implies shifted[j] == #[trigger] inserted[j] by {
        if j < p {
            assert(shifted[j] == slots[j]);
        } else if j > p {
            assert(shifted[j] == slots[j - 1]);
            assert(before[j - 1] == slots[j - 1]);
        }
    }
    assert(shifted.take(grown) =~= offered(before, e));
    assert forall|j: int| grown <= j < 5 implies #[trigger] shifted[j].key == EMPTY_KEY by {
        assert(shifted[j] == slots[j - 1]);
    }
}

#[derive(Clone, Copy)]
pub struct TopK {
    entries: [TopKEntry; 5],
    count: usize,
}

impl View for TopK {
    type V = Seq<TopKEntry>;

    closed spec fn view(&self) -> Seq<TopKEntry> {
        self.entries@.take(self.count as int)
    }
}

impl TopK {
    #[verifier::type_invariant]
    pub(crate) closed spec fn slots_ok(self) -> bool {
        &&& self.count <= TOP_K
        &&& ranked(self.entries@.take(self.count as int))
        &&& forall|i: int| self.count <= i < TOP_K ==> #[trigger] self.entries@[i].key == EMPTY_KEY
    }

    /// No neighbours yet.
    pub fn new() -> (topk: Self)
        ensures
            topk@ == Seq::<TopKEntry>::empty(),
    {
        let empty = TopKEntry { key: EMPTY_KEY, label: 0 };
        TopK { entries: [empty; 5], count: 0 }
    }

    pub fn make_key(dist_sq: i32, original_id: u32) -> (key: u64)
        ensures
            key == packed_key(dist_sq, original_id),
    {
        let high: u32 = dist_sq as u32;
        assert(dist_sq >= 0 ==> (dist_sq as u32) == dist_sq) by (bit_vector);
        assert(dist_sq < 0 ==> (dist_sq as u32) == dist_sq + 0x1_0000_0000) by (bit_vector);
        assert(((high as u64) << 32) | (original_id as u64) == (high as u64) * 0x1_0000_0000 + (
        original_id as u64)) by (bit_vector);
        ((high as u64) << 32) | (original_id as u64)
    }

    pub fn insert(&mut self, dist_sq: i32, original_id: u32)
        ensures
            final(self)@ == offered(
                old(self)@,
                (TopKEntry { key: packed_key(dist_sq, original_id) as u64, label: 0 }),
            ),
    {
        self.insert_labeled(dist_sq, original_id, 0);
    }

    pub fn insert_labeled(&mut self, dist_sq: i32, original_id: u32, label: u8)
        ensures
            final(self)@ == offered(
                old(self)@,
                (TopKEntry { key: packed_key(dist_sq, original_id) as u64, label }),
            ),
    {
        proof {
            use_type_invariant(&*self);
        }
        let key: u64 = Self::make_key(dist_sq, original_id);
        if key < self.entries[4].key {
            let mut entries = self.entries;
            let mut i: usize = 4;
            while i > 0 && entries[i - 1].key > key
                invariant
                    i <= 4,
                    forall|j: int| 0 <= j < i ==> entries@[j] == #[trigger] self.entries@[j],
                    forall|j: int| i < j < 5 ==> entries@[j] == #[trigger] self.entries@[j - 1],
                    forall|j: int| i <= j < 4 ==> #[trigger] self.entries@[j].key > key,
                decreases i,
            {
                entries[i] = entries[i - 1];
                i = i - 1;
            }
            entries[i] = TopKEntry { key, label };
            let count: usize = if self.count < 5 {
                self.count + 1
            } else {
                self.count
            };
            proof {
                lemma_shifted_slots(
                    self.entries@,
                    self.count as int,
                    entries@,
                    i as int,
                    TopKEntry { key, label },
                );
            }
            *self = TopK { entries, count };
        }
    }

    /// Distance of the worst neighbour; `i32::MAX` while slots are free.
    pub fn worst_dist_sq(&self) -> (dist_sq: i32)
        ensures
            dist_sq == worst_key_of(self@) as int / 0x1_0000_0000,
    {
        proof {
            use_type_invariant(self);
            self.lemma_last_slot();
        }
        let key: u64 = self.entries[4].key;
        assert((key >> 32) == key / 0x1_0000_0000) by (bit_vector);
        (key >> 32) as i32
    }

    /// Identifier of the worst neighbour; `u32::MAX` while slots are free.
    pub fn worst_original_id(&self) -> (id: u32)
        ensures
            id == worst_key_of(self@) as int % 0x1_0000_0000,
    {
        proof {
            use_type_invariant(self);
            self.lemma_last_slot();
        }
        low_half(self.entries[4].key)
    }

    pub fn worst_key(&self) -> (key: u64)
        ensures
            key == worst_key_of(self@),
    {
        proof {
            use_type_invariant(self);
            self.lemma_last_slot();
        }
        self.entries[4].key
    }

    pub fn is_full(&self) -> (full: bool)
        ensures
            full == (self@.len() == TOP_K),
    {
        proof {
            use_type_invariant(self);
        }
        self.count == 5
    }

    /// The neighbours, nearest first.
    pub fn results(&self) -> (entries: &[TopKEntry])
        ensures
            entries@ == self@,
            ranked(self@),
    {
        proof {
            use_type_invariant(self);
        }
        vstd::slice::slice_subrange(self.entries.as_slice(), 0, self.count)
    }

    /// Identifiers of the neighbours, nearest first; unused places hold
    /// `u32::MAX`.
    pub fn ids(&self) -> (ids: [u32; 5])
        ensures
            forall|i: int|
                0 <= i < self@.len() ==> #[trigger] ids@[i] == self@[i].key as int % 0x1_0000_0000,
            forall|i: int| self@.len() <= i < TOP_K ==> #[trigger] ids@[i] == u32::MAX,
    {
        proof {
            use_type_invariant(self);
        }
        let mut ids = [u32::MAX; 5];
        let mut i: usize = 0;
        while i < self.count
            invariant
                i <= self.count <= 5,
                forall|j: int|
                    0 <= j < i ==> #[trigger] ids@[j] == self@[j].key as int % 0x1_0000_0000,
                forall|j: int| i <= j < 5 ==> #[trigger] ids@[j] == u32::MAX,
            decreases self.count - i,
        {
            assert(self@[i as int] == self.entries@[i as int]);
            ids[i] = low_half(self.entries[i].key);
            i = i + 1;
        }
        ids
    }

    /// Distances of the neighbours, nearest first; unused places hold
    /// `i32::MAX`.
    pub fn distances(&self) -> (distances: [i32; 5])
        ensures
            forall|i: int|
                0 <= i < self@.len() ==> #[trigger] distances@[i] == self@[i].key as int
                    / 0x1_0000_0000,
            forall|i: int| self@.len() <= i < TOP_K ==> #[trigger] distances@[i] == i32::MAX,
    {
        proof {
            use_type_invariant(self);
        }
        let mut distances = [i32::MAX; 5];
        let mut i: usize = 0;
        while i < self.count
            invariant
                i <= self.count <= 5,
                ranked(self@),
                self@.len() == self.count,
                forall|j: int|
                    0 <= j < i ==> #[trigger] distances@[j] == self@[j].key as int / 0x1_0000_0000,
                forall|j: int| i <= j < 5 ==> #[trigger] distances@[j] == i32::MAX,
            decreases self.count - i,
        {
            assert(self@[i as int] == self.entries@[i as int]);
            let key: u64 = self.entries[i].key;
            assert((key >> 32) == key / 0x1_0000_0000) by (bit_vector);
            distances[i] = (key >> 32) as i32;
            i = i + 1;
        }
        distances
    }

    /// How many of the neighbours are labelled as fraud.
    pub fn fraud_count(&self) -> (n: usize)
        ensures
            n == fraud_labels(self@),
            n == self@.filter(|e: TopKEntry| e.label == 1).len(),
            n <= TOP_K,
    {
        proof {
            use_type_invariant(self);
        }
        let mut n: usize = 0;
        let mut i: usize = 0;
        while i < self.count
            invariant
                i <= self.count <= 5,
                self@.len() == self.count,
                n <= i,
                n == fraud_labels(self@.take(i as int)),
            decreases self.count - i,
        {
            assert(self@[i as int] == self.entries@[i as int]);
            assert(self@.take(i + 1).drop_last() =~= self@.take(i as int));
            if self.entries[i].label == 1 {
                n = n + 1;
            }
            i = i + 1;
        }
        assert(self@.take(i as int) =~= self@);
        proof {
            lemma_frauds_filtered(self@);
        }
        n
    }

    proof fn lemma_last_slot(&self)
        requires
            self.slots_ok(),
        ensures
            self.entries@[4].key == worst_key_of(self@),
            worst_key_of(self@) <= EMPTY_KEY,
    {
        if self.count == TOP_K {
            assert(self@[4] == self.entries@[4]);
        }
    }

    /// Every collection of neighbours is in order.
    pub(crate) proof fn lemma_ranked(&self)
        requires
            self.slots_ok(),
        ensures
            ranked(self@),
    {
    }
}

impl Default for TopK {
    fn default() -> (topk: Self)
        ensures
            topk@ == Seq::<TopKEntry>::empty(),
    {
        Self::new()
    }
}

fn low_half(key: u64) -> (low: u32)
    ensures
        low == key as int % 0x1_0000_0000,
{
    assert(key as u32 == key % 0x1_0000_0000) by (bit_vector);
    key as u32
}

/// The neighbours after all of `es` were offered in turn.
pub open spec fn offered_all(s: Seq<TopKEntry>, es: Seq<TopKEntry>) -> Seq<TopKEntry>
    decreases es.len(),
{
    if es.len() == 0 {
        s
    } else {
        offered(offered_all(s, es.drop_last()), es.last())
    }
}

/// `s` holds the five entries of `pool` with the smallest keys (all of them
/// where the pool is smaller), in ascending order and none twice.
pub open spec fn is_best(s: Seq<TopKEntry>, pool: Seq<TopKEntry>) -> bool {
    &&& ranked(s)
    &&& distinct_keys(s)
    &&& forall|i: int| 0 <= i < s.len() ==> pool.contains(#[trigger] s[i])
    &&& forall|j: int| 0 <= j < pool.len() ==> covered(s, #[trigger] pool[j])
}

/// Keys order neighbours by distance first and by identifier second, and both
/// can be read back from the key.
pub proof fn law_key_order(dist_a: i32, id_a: u32, dist_b: i32, id_b: u32)
    requires
        dist_a >= 0,
        dist_b >= 0,
    ensures
        packed_key(dist_a, id_a) < packed_key(dist_b, id_b) <==> (dist_a < dist_b || (dist_a
            == dist_b && id_a < id_b)),
        packed_key(dist_a, id_a) / 0x1_0000_0000 == dist_a,
        packed_key(dist_a, id_a) % 0x1_0000_0000 == id_a,
        0 <= packed_key(dist_a, id_a) <= EMPTY_KEY,
{
}

/// The best five of a pool without repeated keys are determined by the pool.
pub proof fn law_best_is_unique(s: Seq<TopKEntry>, t: Seq<TopKEntry>, pool: Seq<TopKEntry>)
    requires
        distinct_keys(pool),
        is_best(s, pool),
        is_best(t, pool),
    ensures
        s == t,
{
    let shorter = if s.len() <= t.len() {
        s.len()
    } else {
        t.len()
    };
    lemma_best_prefix(s, t, pool, shorter as int);
    lemma_best_not_longer(s, t, pool);
    lemma_best_not_longer(t, s, pool);
    assert(s =~= t);
}

proof fn lemma_best_not_longer(s: Seq<TopKEntry>, t: Seq<TopKEntry>, pool: Seq<TopKEntry>)
    requires
        is_best(s, pool),
        is_best(t, pool),
        forall|i: int| 0 <= i < s.len() && i < t.len() ==> s[i] == #[trigger] t[i],
    ensures
        t.len() <= s.len(),
{
    if s.len() < t.len() {
        let x = t[s.len() as int];
        assert(pool.contains(x));
        let k = choose|k: int| 0 <= k < pool.len() && pool[k] == x;
        assert(covered(s, pool[k]));
        assert(x.key < EMPTY_KEY);
        let m = choose|m: int| 0 <= m < s.len() && s[m] == x;
        assert(t[m].key == t[s.len() as int].key);
    }
}

proof fn lemma_best_prefix(s: Seq<TopKEntry>, t: Seq<TopKEntry>, pool: Seq<TopKEntry>, n: int)
    requires
        distinct_keys(pool),
        is_best(s, pool),
        is_best(t, pool),
        0 <= n <= s.len(),
        n <= t.len(),
    ensures
        forall|i: int| 0 <= i < n ==> s[i] == #[trigger] t[i],
    decreases n,
{
    if n > 0 {
        lemma_best_prefix(s, t, pool, n - 1);
        lemma_best_step(s, t, pool, n - 1);
        lemma_best_step(t, s, pool, n - 1);
        assert(pool.contains(s[n - 1]));
        assert(pool.contains(t[n - 1]));
        let a = choose|a: int| 0 <= a < pool.len() && pool[a] == s[n - 1];
        let b = choose|b: int| 0 <= b < pool.len() && pool[b] == t[n - 1];
        assert(a == b);
    }
}

proof fn lemma_best_step(s: Seq<TopKEntry>, t: Seq<TopKEntry>, pool: Seq<TopKEntry>, i: int)
    requires
        is_best(s, pool),
        is_best(t, pool),
        0 <= i < s.len(),
        i < t.len(),
        forall|j: int| 0 <= j < i ==> #[trigger] s[j] == #[trigger] t[j],
    ensures
        t[i].key <= s[i].key,
{
    if s[i].key < t[i].key {
        assert(pool.contains(s[i]));
        let a = choose|a: int| 0 <= a < pool.len() && pool[a] == s[i];
        assert(covered(t, pool[a]));
        if t.contains(s[i]) {
            let k = choose|k: int| 0 <= k < t.len() && t[k] == s[i];
            if k < i {
                assert(s[k].key == s[i].key);
            } else {
                assert(t[i].key <= t[k].key);
            }
        } else {
            assert(s[i].key < EMPTY_KEY);
            assert(t[i].key <= t[TOP_K - 1].key);
        }
    }
}

/// Whatever was offered, in whatever order: the neighbours are the best five.
pub proof fn law_offering_keeps_the_best(es: Seq<TopKEntry>)
    requires
        distinct_keys(es),
    ensures
        is_best(offered_all(Seq::empty(), es), es),
    decreases es.len(),
{
    if es.len() > 0 {
        let init = es.drop_last();
        let e = es.last();
        assert forall|i: int, j: int|
            0 <= i < init.len() && 0 <= j < init.len() && i != j implies #[trigger] init[i].key
            != #[trigger] init[j].key by {
            assert(es[i].key != es[j].key);
        }
        law_offering_keeps_the_best(init);
        let s = offered_all(Seq::empty(), init);
        let t = offered(s, e);
        lemma_offered(s, e);
        assert forall|i: int| 0 <= i < s.len() implies #[trigger] s[i].key != e.key by {
            assert(init.contains(s[i]));
            let k = choose|k: int| 0 <= k < init.len() && init[k] == s[i];
            assert(es[k].key != es[es.len() - 1].key);
        }
        lemma_offered_distinct(s, e);
        assert forall|i: int| 0 <= i < t.len() implies es.contains(#[trigger] t[i]) by {
            assert(t.contains(t[i]));
            if s.contains(t[i]) {
                let m = choose|m: int| 0 <= m < s.len() && s[m] == t[i];
                assert(init.contains(s[m]));
                let k = choose|k: int| 0 <= k < init.len() && init[k] == s[m];
                assert(es[k] == t[i]);
            } else {
                assert(es[es.len() - 1] == t[i]);
            }
        }
        assert forall|j: int| 0 <= j < es.len() implies covered(t, #[trigger] es[j]) by {
            if j < init.len() {
                assert(covered(s, init[j]));
            }
        }
    }
}

/// An entry with a new key does not break the distinctness of keys.
pub proof fn lemma_offered_distinct(s: Seq<TopKEntry>, e: TopKEntry)
    requires
        ranked(s),
        distinct_keys(s),
        forall|i: int| 0 <= i < s.len() ==> #[trigger] s[i].key != e.key,
    ensures
        distinct_keys(offered(s, e)),
{
    let t = offered(s, e);
    lemma_insert_position(s, e.key);
    if e.key < worst_key_of(s) {
        let p = insert_position(s, e.key);
        assert forall|i: int, j: int|
            0 <= i < t.len() && 0 <= j < t.len() && i != j implies #[trigger] t[i].key
            != #[trigger] t[j].key by {
            let a = if i < p {
                i
            } else {
                i - 1
            };
            let b = if j < p {
                j
            } else {
                j - 1
            };
            if i != p {
                assert(t[i] == s[a]);
            }
            if j != p {
                assert(t[j] == s[b]);
            }
        }
    }
}

/// The order in which neighbours are offered does not matter.
pub proof fn law_offering_order_is_irrelevant(a: Seq<TopKEntry>, b: Seq<TopKEntry>)
    requires
        distinct_keys(a),
        distinct_keys(b),
        forall|e: TopKEntry| a.contains(e) <==> b.contains(e),
    ensures
        offered_all(Seq::empty(), a) == offered_all(Seq::empty(), b),
{
    law_offering_keeps_the_best(a);
    law_offering_keeps_the_best(b);
    let s = offered_all(Seq::empty(), a);
    let t = offered_all(Seq::empty(), b);
    assert(is_best(t, a)) by {
        assert forall|i: int| 0 <= i < t.len() implies a.contains(#[trigger] t[i]) by {
            assert(b.contains(t[i]));
        }
        assert forall|j: int| 0 <= j < a.len() implies covered(t, #[trigger] a[j]) by {
            assert(a.contains(a[j]));
            let k = choose|k: int| 0 <= k < b.len() && b[k] == a[j];
            assert(covered(t, b[k]));
        }
    }
    law_best_is_unique(s, t, a);
}

/// An entry that the neighbours can take at all: its distance is not negative,
/// and its key is not that of an empty slot.
pub open spec fn is_offer(e: TopKEntry) -> bool {
    e.key < EMPTY_KEY
}

/// The entries of `es` that the neighbours can take, each as often as it is
/// offered.
pub open spec fn offers(es: Seq<TopKEntry>) -> Multiset<TopKEntry>
    decreases es.len(),
{
    if es.len() == 0 {
        Multiset::empty()
    } else if is_offer(es.last()) {
        offers(es.drop_last()).insert(es.last())
    } else {
        offers(es.drop_last())
    }
}

/// `s` holds five of the offers, or all where there are fewer, in ascending
/// order of key; no offer that is left out has a smaller key.
pub open spec fn is_least(s: Seq<TopKEntry>, all: Multiset<TopKEntry>) -> bool {
    &&& ranked(s)
    &&& s.len() == (if all.len() < TOP_K {
        all.len()
    } else {
        TOP_K as nat
    })
    &&& s.to_multiset().subset_of(all)
    &&& forall|x: TopKEntry| #[trigger]
        all.count(x) > s.to_multiset().count(x) ==> x.key >= worst_key_of(s)
}

/// Whatever was offered, in whatever order and however often: the neighbours
/// are the least five of the offers, each with its own label, and they are
/// complete exactly where there were five.
pub proof fn law_offering_keeps_the_least(es: Seq<TopKEntry>)
    ensures
        is_least(offered_all(Seq::empty(), es), offers(es)),
        offered_all(Seq::empty(), es).len() == TOP_K <==> offers(es).len() >= TOP_K,
    decreases es.len(),
{
    if es.len() == 0 {
        let none = Seq::<TopKEntry>::empty();
        none.to_multiset_ensures();
        assert(none.to_multiset() =~= Multiset::empty());
    } else {
        let init = es.drop_last();
        law_offering_keeps_the_least(init);
        lemma_least_step(offered_all(Seq::empty(), init), offers(init), es.last());
    }
}

/// One more offer.
proof fn lemma_least_step(s: Seq<TopKEntry>, all: Multiset<TopKEntry>, e: TopKEntry)
    requires
        is_least(s, all),
    ensures
        is_least(
            offered(s, e),
            if is_offer(e) {
                all.insert(e)
            } else {
                all
            },
        ),
{
    let t = offered(s, e);
    let more = if is_offer(e) {
        all.insert(e)
    } else {
        all
    };
    lemma_offered(s, e);
    lemma_insert_position(s, e.key);
    s.to_multiset_ensures();
    t.to_multiset_ensures();
    if e.key < worst_key_of(s) {
        assert(is_offer(e)) by {
            if s.len() == TOP_K {
                assert(s[TOP_K - 1].key < EMPTY_KEY);
            }
        }
        let p = insert_position(s, e.key);
        let grown = s.insert(p, e);
        assert(grown.remove(p) =~= s);
        assert(grown[p] == e);
        grown.to_multiset_ensures();
        assert(grown.contains(e));
        assert(s.to_multiset() == grown.to_multiset().remove(e));
        assert(grown.to_multiset() =~= s.to_multiset().insert(e));
        if grown.len() > TOP_K {
            let last = grown[TOP_K as int];
            assert(t =~= grown.remove(TOP_K as int));
            assert(t.to_multiset() == grown.to_multiset().remove(last));
            assert(last == s[TOP_K - 1]);
            assert forall|x: TopKEntry| #[trigger] more.count(x)
                > t.to_multiset().count(x) implies x.key >= worst_key_of(t) by {
                if x != last {
                    assert(all.count(x) > s.to_multiset().count(x));
                }
            }
        } else {
            assert forall|x: TopKEntry| #[trigger] more.count(x)
                > t.to_multiset().count(x) implies x.key >= worst_key_of(t) by {
                assert(all.count(x) > s.to_multiset().count(x));
            }
        }
        assert forall|x: TopKEntry| t.to_multiset().count(x) <= #[trigger] more.count(x) by {
            assert(s.to_multiset().count(x) <= all.count(x));
        }
    } else {
        assert forall|x: TopKEntry| #[trigger] more.count(x)
            > t.to_multiset().count(x) implies x.key >= worst_key_of(t) by {
            if x != e {
                assert(all.count(x) > s.to_multiset().count(x));
            }
        }
        assert forall|x: TopKEntry| t.to_multiset().count(x) <= #[trigger] more.count(x) by {
            assert(s.to_multiset().count(x) <= all.count(x));
        }
        if is_offer(e) {
            assert(s.len() == TOP_K);
        }
    }
}

/// An entry with a negative distance, or with the key of an empty slot, changes
/// nothing; every other one is an offer.
pub proof fn law_only_offers_count(s: Seq<TopKEntry>, dist_sq: i32, original_id: u32, label: u8)
    requires
        ranked(s),
    ensures
        ({
            let e = TopKEntry { key: packed_key(dist_sq, original_id) as u64, label };
            &&& is_offer(e) <==> dist_sq >= 0 && !(dist_sq == i32::MAX && original_id == u32::MAX)
            &&& !is_offer(e) ==> offered(s, e) == s
        }),
{
    if s.len() == TOP_K {
        assert(s[TOP_K - 1].key < EMPTY_KEY);
    }
}

/// No key twice, where none was offered twice and none was there before.
pub proof fn lemma_offered_all_distinct(s: Seq<TopKEntry>, es: Seq<TopKEntry>)
    requires
        ranked(s),
        distinct_keys(s),
        distinct_keys(es),
        forall|i: int, k: int|
            0 <= i < s.len() && 0 <= k < es.len() ==> #[trigger] s[i].key != #[trigger] es[k].key,
    ensures
        ranked(offered_all(s, es)),
        distinct_keys(offered_all(s, es)),
        forall|x: TopKEntry| #[trigger]
            offered_all(s, es).contains(x) ==> s.contains(x) || es.contains(x),
    decreases es.len(),
{
    if es.len() > 0 {
        let init = es.drop_last();
        let e = es.last();
        assert(distinct_keys(init)) by {
            assert forall|i: int, j: int|
                0 <= i < init.len() && 0 <= j < init.len() && i != j implies #[trigger] init[i].key
                != #[trigger] init[j].key by {
                assert(es[i].key != es[j].key);
            }
        }
        assert forall|i: int, k: int| 0 <= i < s.len() && 0 <= k < init.len() implies #[trigger] s[
            i].key != #[trigger] init[k].key by {
            assert(es[k] == init[k]);
        }
        lemma_offered_all_distinct(s, init);
        let u = offered_all(s, init);
        assert(es[es.len() - 1] == e);
        assert forall|i: int| 0 <= i < u.len() implies #[trigger] u[i].key != e.key by {
            assert(u.contains(u[i]));
            if s.contains(u[i]) {
                let k = choose|k: int| 0 <= k < s.len() && s[k] == u[i];
                assert(s[k].key != es[es.len() - 1].key);
            } else {
                let k = choose|k: int| 0 <= k < init.len() && init[k] == u[i];
                assert(es[k].key != es[es.len() - 1].key);
            }
        }
        lemma_offered(u, e);
        lemma_offered_distinct(u, e);
        assert forall|x: TopKEntry| #[trigger] offered_all(s, es).contains(x) implies s.contains(x)
            || es.contains(x) by {
            if u.contains(x) && !s.contains(x) {
                let k = choose|k: int| 0 <= k < init.len() && init[k] == x;
                assert(es[k] == x);
            } else if !u.contains(x) {
                assert(es[es.len() - 1] == x);
            }
        }
    }
}

proof fn lemma_filter_push<A>(s: Seq<A>, p: spec_fn(A) -> bool)
    requires
        s.len() > 0,
    ensures
        s.filter(p) == (if p(s.last()) {
            s.drop_last().filter(p).push(s.last())
        } else {
            s.drop_last().filter(p)
        }),
{
    reveal(Seq::filter);
}

proof fn lemma_frauds_filtered(s: Seq<TopKEntry>)
    ensures
        fraud_labels(s) == s.filter(|e: TopKEntry| e.label == 1).len(),
    decreases s.len(),
{
    let p = |e: TopKEntry| e.label == 1;
    if s.len() > 0 {
        lemma_filter_push(s, p);
        lemma_frauds_filtered(s.drop_last());
    } else {
        reveal(Seq::filter);
    }
}

proof fn lemma_fraud_places(s: Seq<TopKEntry>)
    ensures
        Set::new(|i: int| 0 <= i < s.len() && s[i].label == 1).finite(),
        fraud_labels(s) == Set::new(|i: int| 0 <= i < s.len() && s[i].label == 1).len(),
    decreases s.len(),
{
    let all = Set::new(|i: int| 0 <= i < s.len() && s[i].label == 1);
    if s.len() == 0 {
        assert(all =~= Set::empty());
    } else {
        let init = s.drop_last();
        let before = Set::new(|i: int| 0 <= i < init.len() && init[i].label == 1);
        lemma_fraud_places(init);
        let last = s.len() - 1;
        if s.last().label == 1 {
            assert(all =~= before.insert(last));
        } else {
            assert(all =~= before);
        }
    }
}

/// The frauds are counted one by one: their number is that of the places with
/// label one. All are counted where all are frauds, none where none is, and an
/// entry more counts for itself, whatever was counted before.
pub proof fn law_frauds_are_counted(s: Seq<TopKEntry>, e: TopKEntry)
    ensures
        fraud_labels(s) == s.filter(|x: TopKEntry| x.label == 1).len(),
        fraud_labels(s) == Set::new(|i: int| 0 <= i < s.len() && s[i].label == 1).len(),
        (forall|i: int| 0 <= i < s.len() ==> (#[trigger] s[i]).label == 1) ==> fraud_labels(s)
            == s.len(),
        (forall|i: int| 0 <= i < s.len() ==> (#[trigger] s[i]).label != 1) ==> fraud_labels(s)
            == 0,
        fraud_labels(s.push(e)) == fraud_labels(s) + (if e.label == 1 {
            1nat
        } else {
            0
        }),
{
    lemma_frauds_filtered(s);
    lemma_fraud_places(s);
    let places = Set::new(|i: int| 0 <= i < s.len() && s[i].label == 1);
    if forall|i: int| 0 <= i < s.len() ==> (#[trigger] s[i]).label == 1 {
        assert(places =~= set_int_range(0, s.len() as int));
        lemma_int_range(0, s.len() as int);
    }
    if forall|i: int| 0 <= i < s.len() ==> (#[trigger] s[i]).label != 1 {
        assert(places =~= Set::empty());
    }
    assert(s.push(e).drop_last() =~= s);
}

/// What an offer does to the neighbours. One with a negative distance, or with
/// the largest distance and the largest identifier, is not taken. Where there
/// are fewer than five, any other is. Where there are five, it takes the place
/// of the last exactly if it is nearer, or as near with a smaller identifier.
pub proof fn law_offer(s: Seq<TopKEntry>, dist_sq: i32, original_id: u32, label: u8)
    requires
        s.len() <= 5,
        forall|i: int, j: int|
            0 <= i <= j < s.len() ==> #[trigger] s[i].key <= #[trigger] s[j].key,
        forall|i: int| 0 <= i < s.len() ==> #[trigger] s[i].key < 0x7FFF_FFFF_FFFF_FFFF,
    ensures
        ({
            let e = TopKEntry { key: packed_key(dist_sq, original_id) as u64, label };
            let t = offered(s, e);
            &&& dist_sq < 0 || (dist_sq == 0x7FFF_FFFF && original_id == 0xFFFF_FFFF) ==> t == s
            &&& dist_sq >= 0 ==> e.key == dist_sq * 0x1_0000_0000 + original_id
            &&& dist_sq >= 0 && e.key < 0x7FFF_FFFF_FFFF_FFFF && s.len() < 5 ==> t.to_multiset()
                == s.to_multiset().insert(e)
            &&& dist_sq >= 0 && s.len() == 5 && e.key >= s[4].key ==> t == s
            &&& dist_sq >= 0 && s.len() == 5 && e.key < s[4].key ==> t.to_multiset()
                == s.drop_last().to_multiset().insert(e)
            &&& forall|i: int, j: int|
                0 <= i <= j < t.len() ==> #[trigger] t[i].key <= #[trigger] t[j].key
        }),
{
    let e = TopKEntry { key: packed_key(dist_sq, original_id) as u64, label };
    let t = offered(s, e);
    law_only_offers_count(s, dist_sq, original_id, label);
    lemma_offered(s, e);
    lemma_insert_position(s, e.key);
    if e.key < worst_key_of(s) {
        let at = insert_position(s, e.key);
        let grown = s.insert(at, e);
        vstd::seq_lib::to_multiset_insert(s, at, e);
        if s.len() == 5 {
            assert(at < 5);
            let init = s.drop_last();
            vstd::seq_lib::to_multiset_insert(init, at, e);
            assert(t =~= init.insert(at, e));
        }
    }
}

/// What neighbours there are after any offers that can be taken: all where
/// they are at most five, else five; in ascending order; each as often as it
/// was offered at most; and what is left out is not before the last.
pub proof fn law_least_five_stay(es: Seq<TopKEntry>)
    requires
        forall|k: int| 0 <= k < es.len() ==> (#[trigger] es[k]).key < 0x7FFF_FFFF_FFFF_FFFF,
    ensures
        ({
            let t = offered_all(Seq::empty(), es);
            &&& t.len() == (if es.len() < 5 {
                es.len()
            } else {
                5
            })
            &&& forall|i: int, j: int|
                0 <= i <= j < t.len() ==> #[trigger] t[i].key <= #[trigger] t[j].key
            &&& forall|x: TopKEntry| #[trigger]
                t.to_multiset().count(x) <= es.to_multiset().count(x)
            &&& forall|x: TopKEntry|
                es.to_multiset().count(x) > #[trigger] t.to_multiset().count(x) ==> t.len() == 5
                    && x.key >= t[4].key
        }),
{
    law_offering_keeps_the_least(es);
    lemma_all_are_offers(es);
    let t = offered_all(Seq::empty(), es);
    es.to_multiset_ensures();
    t.to_multiset_ensures();
    assert forall|x: TopKEntry| #[trigger] t.to_multiset().count(x) <= es.to_multiset().count(
        x,
    ) by {}
    assert forall|x: TopKEntry|
        es.to_multiset().count(x) > #[trigger] t.to_multiset().count(x) implies t.len() == 5
        && x.key >= t[4].key by {
        assert(es.contains(x));
        let k = choose|k: int| 0 <= k < es.len() && es[k] == x;
        assert(es[k].key < EMPTY_KEY);
    }
}

proof fn lemma_all_are_offers(es: Seq<TopKEntry>)
    requires
        forall|k: int| 0 <= k < es.len() ==> (#[trigger] es[k]).key < 0x7FFF_FFFF_FFFF_FFFF,
    ensures
        offers(es) == es.to_multiset(),
    decreases es.len(),
{
    es.to_multiset_ensures();
    if es.len() == 0 {
        assert(offers(es) =~= es.to_multiset());
    } else {
        let init = es.drop_last();
        assert forall|k: int| 0 <= k < init.len() implies (#[trigger] init[k]).key
            < 0x7FFF_FFFF_FFFF_FFFF by {
            assert(init[k] == es[k]);
        }
        assert(es[es.len() - 1].key < 0x7FFF_FFFF_FFFF_FFFF);
        lemma_all_are_offers(init);
        init.to_multiset_ensures();
        assert(init.push(es.last()) =~= es);
    }
}

/// The key that an offer has to beat is the one of the last of five, and above
/// every possible key while there are fewer; distance and identifier of the
/// worst neighbour are read from it.
pub proof fn law_worst_is_the_last(s: Seq<TopKEntry>, dist_sq: i32, original_id: u32, label: u8)
    requires
        s.len() <= 5,
        forall|i: int, j: int|
            0 <= i <= j < s.len() ==> #[trigger] s[i].key <= #[trigger] s[j].key,
        forall|i: int| 0 <= i < s.len() ==> #[trigger] s[i].key < 0x7FFF_FFFF_FFFF_FFFF,
        dist_sq >= 0,
    ensures
        forall|i: int| 0 <= i < s.len() ==> #[trigger] s[i].key <= worst_key_of(s),
        s.len() == 5 ==> s.contains(s[4]) && worst_key_of(s) == s[4].key,
        s.len() < 5 ==> worst_key_of(s) as int / 0x1_0000_0000 == 0x7FFF_FFFF && worst_key_of(
            s,
        ) as int % 0x1_0000_0000 == 0xFFFF_FFFF,
        ({
            let key = packed_key(dist_sq, original_id);
            let e = TopKEntry { key: key as u64, label };
            &&& offered(s, e).len() > s.len() || offered(s, e) != s ==> key < worst_key_of(s)
            &&& key < worst_key_of(s) ==> offered(s, e).contains(e)
        }),
{
    let key = packed_key(dist_sq, original_id);
    let e = TopKEntry { key: key as u64, label };
    if key < worst_key_of(s) {
        lemma_insert_position(s, e.key);
        let at = insert_position(s, e.key);
        if s.len() == 5 {
            assert(at < 5);
        }
        assert(offered(s, e)[at] == e);
    }
}

/// Where an entry stands that was taken: behind those whose keys are not
/// larger, and before those whose keys are.
pub proof fn law_place_of_an_entry(s: Seq<TopKEntry>, e: TopKEntry) -> (at: int)
    requires
        ranked(s),
        e.key < worst_key_of(s),
    ensures
        0 <= at < offered(s, e).len(),
        at <= s.len(),
        offered(s, e)[at] == e,
        forall|i: int|
            0 <= i < at ==> #[trigger] offered(s, e)[i] == s[i] && s[i].key <= e.key,
        forall|i: int|
            at < i < offered(s, e).len() ==> #[trigger] offered(s, e)[i] == s[i - 1] && s[i - 1].key
                > e.key,
{
    lemma_insert_position(s, e.key);
    insert_position(s, e.key)
}

/// What is read of the neighbours: each distance and each identifier in turn,
/// which make up the key; the last of five as the worst; and how many of them
/// are frauds.
pub proof fn law_neighbours_are_read(
    t: TopK,
    ids: [u32; 5],
    distances: [i32; 5],
    worst: u64,
    worst_dist: i32,
    worst_id: u32,
    full: bool,
    frauds: usize,
    entries: &[TopKEntry],
    i: int,
)
    requires
        call_ensures(TopK::ids, (&t,), ids),
        call_ensures(TopK::distances, (&t,), distances),
        call_ensures(TopK::worst_key, (&t,), worst),
        call_ensures(TopK::worst_dist_sq, (&t,), worst_dist),
        call_ensures(TopK::worst_original_id, (&t,), worst_id),
        call_ensures(TopK::is_full, (&t,), full),
        call_ensures(TopK::fraud_count, (&t,), frauds),
        call_ensures(TopK::results, (&t,), entries),
    ensures
        entries@ == t@,
        full <==> t@.len() == 5,
        0 <= i < t@.len() && i < 5 ==> distances@[i] * 0x1_0000_0000 + ids@[i] == t@[i].key,
        t@.len() <= i < 5 ==> distances@[i] == i32::MAX && ids@[i] == u32::MAX,
        worst_dist * 0x1_0000_0000 + worst_id == worst,
        t@.len() == 5 ==> worst == t@[4].key && worst_dist == distances@[4] && worst_id == ids@[4],
        t@.len() < 5 ==> worst_dist == i32::MAX && worst_id == u32::MAX,
        frauds == t@.filter(|e: TopKEntry| e.label == 1).len(),
{
}

/// What an offer to the neighbours does: what is stated of an offer with that
/// distance, that identifier and that label. Without a label it is one with
/// label zero.
pub proof fn law_neighbours_are_offered(
    t: &mut TopK,
    u: &mut TopK,
    dist_sq: i32,
    original_id: u32,
    label: u8,
    key: u64,
)
    requires
        call_ensures(TopK::make_key, (dist_sq, original_id), key),
        call_ensures(TopK::insert_labeled, (t, dist_sq, original_id, label), ()),
        call_ensures(TopK::insert, (u, dist_sq, original_id), ()),
    ensures
        dist_sq >= 0 ==> key == dist_sq * 0x1_0000_0000 + original_id,
        final(t)@ == offered(old(t)@, (TopKEntry { key, label })),
        final(u)@ == offered(old(u)@, (TopKEntry { key, label: 0 })),
{
}

} // verus!
