//! Cells partition the index by the discrete features of a vector.
//!
//! A cell key has thirteen bits. From the top: terminal online, card present,
//! unknown merchant, last transaction present (twice, once for each of the two
//! features that it carries), five bits of hour and three bits of weekday.
use crate::distance::{
    lemma_square, lemma_square_monotone, partial_distance, square, squared_distance,
};
use crate::types::Vec16I;
use vstd::prelude::*;

verus! {

/// Number of cell keys.
pub const N_CELLS: usize = 8192;

/// Quantized value of each hour of the day: `hour / 23` on a scale of 10000.
pub const HOUR_Q: [i16; 24] = [
    0, 435, 870, 1304, 1739, 2174, 2609, 3043, 3478, 3913, 4348, 4783,
    5217, 5652, 6087, 6522, 6957, 7391, 7826, 8261, 8696, 9130, 9565, 10000,
];

/// Quantized value of each weekday: `day / 6` on a scale of 10000.
pub const DAY_Q: [i16; 7] = [0, 1667, 3333, 5000, 6667, 8333, 10000];

/// The tables hold each step rounded to the nearest integer, and increase.
pub proof fn law_quantized_steps()
    ensures
        forall|h: int| 0 <= h < 24 ==> #[trigger] HOUR_Q@[h] == (20000 * h + 23) / 46,
        forall|d: int| 0 <= d < 7 ==> #[trigger] DAY_Q@[d] == (20000 * d + 6) / 12,
        forall|i: int, j: int| 0 <= i < j < 24 ==> #[trigger] HOUR_Q@[i] < #[trigger] HOUR_Q@[j],
        forall|i: int, j: int| 0 <= i < j < 7 ==> #[trigger] DAY_Q@[i] < #[trigger] DAY_Q@[j],
{
}

/// The hour that `q` is the quantized value of; zero where it is none.
pub open spec fn hour_of(q: i16) -> int {
    if HOUR_Q@.contains(q) {
        choose|h: int| 0 <= h < 24 && #[trigger] HOUR_Q@[h] == q
    } else {
        0
    }
}

/// The weekday that `q` is the quantized value of; zero where it is none.
pub open spec fn day_of(q: i16) -> int {
    if DAY_Q@.contains(q) {
        choose|d: int| 0 <= d < 7 && #[trigger] DAY_Q@[d] == q
    } else {
        0
    }
}

/// Reading an hour or a weekday back from its quantized value.
pub proof fn law_hour_day_roundtrip()
    ensures
        forall|h: int| 0 <= h < 24 ==> hour_of(#[trigger] HOUR_Q@[h]) == h,
        forall|d: int| 0 <= d < 7 ==> day_of(#[trigger] DAY_Q@[d]) == d,
        forall|q: i16| 0 <= #[trigger] hour_of(q) < 24,
        forall|q: i16| 0 <= #[trigger] day_of(q) < 7,
{
    law_quantized_steps();
    assert forall|h: int| 0 <= h < 24 implies hour_of(#[trigger] HOUR_Q@[h]) == h by {
        let q = HOUR_Q@[h];
        assert(HOUR_Q@.contains(q));
        let k = choose|k: int| 0 <= k < 24 && #[trigger] HOUR_Q@[k] == q;
        if k < h {
            assert(HOUR_Q@[k] < HOUR_Q@[h]);
        } else if h < k {
            assert(HOUR_Q@[h] < HOUR_Q@[k]);
        }
    }
    assert forall|d: int| 0 <= d < 7 implies day_of(#[trigger] DAY_Q@[d]) == d by {
        let q = DAY_Q@[d];
        assert(DAY_Q@.contains(q));
        let k = choose|k: int| 0 <= k < 7 && #[trigger] DAY_Q@[k] == q;
        if k < d {
            assert(DAY_Q@[k] < DAY_Q@[d]);
        } else if d < k {
            assert(DAY_Q@[d] < DAY_Q@[k]);
        }
    }
    assert forall|q: i16| 0 <= #[trigger] hour_of(q) < 24 by {
        if HOUR_Q@.contains(q) {
            let k = choose|k: int| 0 <= k < HOUR_Q@.len() && HOUR_Q@[k] == q;
            assert(HOUR_Q@[k] == q);
        }
    }
    assert forall|q: i16| 0 <= #[trigger] day_of(q) < 7 by {
        if DAY_Q@.contains(q) {
            let k = choose|k: int| 0 <= k < DAY_Q@.len() && DAY_Q@[k] == q;
            assert(DAY_Q@[k] == q);
        }
    }
}

pub fn hour_from_q(q: i16) -> (hour: u8)
    ensures
        hour == hour_of(q),
        hour < 24,
{
    let mut h: usize = 0;
    proof {
        law_hour_day_roundtrip();
    }
    while h < 24
        invariant
            h <= 24,
            forall|k: int| 0 <= k < h ==> HOUR_Q@[k] != q,
            forall|k: int| 0 <= k < 24 ==> hour_of(#[trigger] HOUR_Q@[k]) == k,
        decreases 24 - h,
    {
        if HOUR_Q[h] == q {
            return h as u8;
        }
        h = h + 1;
    }
    assert(!HOUR_Q@.contains(q));
    0
}

pub fn day_from_q(q: i16) -> (day: u8)
    ensures
        day == day_of(q),
        day < 7,
{
    let mut d: usize = 0;
    proof {
        law_hour_day_roundtrip();
    }
    while d < 7
        invariant
            d <= 7,
            forall|k: int| 0 <= k < d ==> DAY_Q@[k] != q,
            forall|k: int| 0 <= k < 7 ==> day_of(#[trigger] DAY_Q@[k]) == k,
        decreases 7 - d,
    {
        if DAY_Q[d] == q {
            return d as u8;
        }
        d = d + 1;
    }
    assert(!DAY_Q@.contains(q));
    0
}

pub open spec fn flag(b: bool) -> int {
    if b {
        1
    } else {
        0
    }
}

/// The key of the cell with the given discrete features.
pub open spec fn cell_key(
    is_online: bool,
    card_present: bool,
    unknown_merchant: bool,
    has_last: bool,
    hour: int,
    day: int,
) -> int {
    4096 * flag(is_online) + 2048 * flag(card_present) + 1024 * flag(unknown_merchant) + 768 * flag(
        has_last,
    ) + 8 * hour + day
}

/// The key of the cell that a vector belongs to.
pub open spec fn vector_cell(v: Seq<i16>) -> int {
    cell_key(v[9] != 0, v[10] != 0, v[11] != 0, v[5] != -10000, hour_of(v[3]), day_of(v[4]))
}

pub open spec fn key_online(key: u16) -> bool {
    (key / 4096) % 2 == 1
}

pub open spec fn key_card(key: u16) -> bool {
    (key / 2048) % 2 == 1
}

pub open spec fn key_unknown(key: u16) -> bool {
    (key / 1024) % 2 == 1
}

/// Whether the key's bit for the time since the last transaction is set.
pub open spec fn key_minutes(key: u16) -> bool {
    (key / 512) % 2 == 1
}

/// Whether the key's bit for the distance from the last transaction is set.
pub open spec fn key_km(key: u16) -> bool {
    (key / 256) % 2 == 1
}

pub open spec fn key_hour(key: u16) -> int {
    (key as int / 8) % 32
}

pub open spec fn key_day(key: u16) -> int {
    key as int % 8
}

/// The part of the key that neighbours share: everything but hour and weekday.
pub open spec fn key_partition(key: u16) -> int {
    key as int / 256
}

/// The features that a key is made of can be read back from it.
pub proof fn law_cell_key_fields(
    is_online: bool,
    card_present: bool,
    unknown_merchant: bool,
    has_last: bool,
    hour: int,
    day: int,
)
    requires
        0 <= hour < 24,
        0 <= day < 7,
    ensures
        ({
            let key = cell_key(is_online, card_present, unknown_merchant, has_last, hour, day);
            &&& 0 <= key < N_CELLS
            &&& key_online(key as u16) == is_online
            &&& key_card(key as u16) == card_present
            &&& key_unknown(key as u16) == unknown_merchant
            &&& key_minutes(key as u16) == has_last
            &&& key_km(key as u16) == has_last
            &&& key_hour(key as u16) == hour
            &&& key_day(key as u16) == day
        }),
{
    let key = cell_key(is_online, card_present, unknown_merchant, has_last, hour, day);
    let partition = 16 * flag(is_online) + 8 * flag(card_present) + 4 * flag(unknown_merchant) + 3
        * flag(has_last);
    assert(key == 256 * partition + 8 * hour + day);
    assert(0 <= key < 8192);
    let k = key as u16;
    assert(key / 8 == 32 * partition + hour);
    assert(key_hour(k) == hour && key_day(k) == day);
    assert(key / 256 == partition);
    assert(key / 512 == partition / 2);
    assert(key / 1024 == partition / 4);
    assert(key / 2048 == partition / 8);
    assert(key / 4096 == partition / 16);
}

pub(crate) fn pack_cell_key(
    is_online: bool,
    card_present: bool,
    unknown_merchant: bool,
    has_last: bool,
    hour: u16,
    day: u16,
) -> (key: u16)
    requires
        hour < 24,
        day < 7,
    ensures
        key == cell_key(
            is_online,
            card_present,
            unknown_merchant,
            has_last,
            hour as int,
            day as int,
        ),
{
    let a: u16 = if is_online {
        1
    } else {
        0
    };
    let b: u16 = if card_present {
        1
    } else {
        0
    };
    let c: u16 = if unknown_merchant {
        1
    } else {
        0
    };
    let s: u16 = if has_last {
        1
    } else {
        0
    };
    assert((a << 12) | (b << 11) | (c << 10) | (s << 9) | (s << 8) | (hour << 3) | day == 4096 * a
        + 2048 * b + 1024 * c + 768 * s + 8 * hour + day) by (bit_vector)
        requires
            a <= 1,
            b <= 1,
            c <= 1,
            s <= 1,
            hour < 32,
            day < 8,
    ;
    (a << 12) | (b << 11) | (c << 10) | (s << 9) | (s << 8) | (hour << 3) | day
}

/// The cell of a quantized vector.
pub fn cell_key_from_i16(v: &Vec16I) -> (key: u16)
    ensures
        key == vector_cell(v@),
        key < N_CELLS,
        key_hour(key) < 24,
        key_day(key) < 7,
{
    let hour: u16 = hour_from_q(v[3]) as u16;
    let day: u16 = day_from_q(v[4]) as u16;
    proof {
        law_cell_key_fields(
            v@[9] != 0,
            v@[10] != 0,
            v@[11] != 0,
            v@[5] != -10000,
            hour as int,
            day as int,
        );
    }
    pack_cell_key(v[9] != 0, v[10] != 0, v[11] != 0, v[5] != -10000, hour, day)
}

/// Keys of the neighbouring cells, in the order in which they are handed out.
pub struct NeighborKeys {
    keys: [u16; 4],
    len: u8,
    cursor: u8,
}

/// The cells one hour or one weekday away within the same partition: the hour
/// before, the hour after, the day before, the day after, as far as they exist.
pub open spec fn neighbor_list(key: u16) -> Seq<u16> {
    let earlier = if key_hour(key) > 0 {
        seq![(key - 8) as u16]
    } else {
        seq![]
    };
    let later = if key_hour(key) < 23 {
        seq![(key + 8) as u16]
    } else {
        seq![]
    };
    let previous = if key_day(key) > 0 {
        seq![(key - 1) as u16]
    } else {
        seq![]
    };
    let next = if key_day(key) < 6 {
        seq![(key + 1) as u16]
    } else {
        seq![]
    };
    earlier + later + previous + next
}

impl View for NeighborKeys {
    type V = Seq<u16>;

    /// The keys that are still to be handed out.
    closed spec fn view(&self) -> Seq<u16> {
        self.keys@.subrange(self.cursor as int, self.len as int)
    }
}

impl NeighborKeys {
    #[verifier::type_invariant]
    spec fn cursor_ok(self) -> bool {
        self.cursor <= self.len <= 4
    }

    /// Hands out the next key.
    pub fn next(&mut self) -> (key: Option<u16>)
        ensures
            old(self)@.len() == 0 ==> key is None && final(self)@ == old(self)@,
            old(self)@.len() > 0 ==> key == Some(old(self)@[0]) && final(self)@
                == old(self)@.drop_first(),
    {
        proof {
            use_type_invariant(&*self);
        }
        if self.cursor < self.len {
            let val: u16 = self.keys[self.cursor as usize];
            let ghost before = self@;
            self.cursor = self.cursor + 1;
            proof {
                assert(before[0] == val);
                assert(self@ =~= before.drop_first());
            }
            Some(val)
        } else {
            None
        }
    }

    /// The number of keys still to be handed out, as lower and upper bound.
    pub fn size_hint(&self) -> (hint: (usize, Option<usize>))
        ensures
            hint.0 == self@.len(),
            hint.1 == Some(hint.0),
    {
        proof {
            use_type_invariant(self);
        }
        let remaining: usize = (self.len - self.cursor) as usize;
        (remaining, Some(remaining))
    }

    /// All keys still to be handed out.
    pub fn collect(self) -> (keys: Vec<u16>)
        ensures
            keys@ == self@,
    {
        let mut rest = self;
        let mut keys: Vec<u16> = Vec::new();
        assert(keys@ + rest@ =~= self@);
        loop
            invariant
                keys@ + rest@ == self@,
            ensures
                keys@ == self@,
            decreases rest@.len(),
        {
            let ghost before = rest@;
            match rest.next() {
                Some(key) => {
                    keys.push(key);
                    assert(keys@ + rest@ =~= self@);
                },
                None => {
                    assert(keys@ =~= self@);
                    break;
                },
            }
        }
        keys
    }
}

/// The neighbouring cells of `key`.
pub fn neighbor_keys(key: u16) -> (neighbors: NeighborKeys)
    ensures
        neighbors@ == neighbor_list(key),
{
    let mut keys = [0u16; 4];
    let mut len: usize = 0;
    let hour: u8 = ((key >> 3) & 0x1F) as u8;
    let day: u8 = (key & 0x7) as u8;
    assert(((key >> 3) & 0x1F) == (key / 8) % 32) by (bit_vector);
    assert((key & 0x7) == key % 8) by (bit_vector);
    assert(hour == key_hour(key));
    assert(day == key_day(key));
    if hour > 0 {
        let new_hour: u16 = (hour - 1) as u16;
        assert((key & !(0x1Fu16 << 3)) | (new_hour << 3) == key - 8) by (bit_vector)
            requires
                new_hour == (key / 8) % 32 - 1,
        ;
        keys[len] = (key & !(0x1Fu16 << 3)) | (new_hour << 3);
        len = len + 1;
    }
    let ghost first = keys@.take(len as int);
    if hour < 23 {
        let new_hour: u16 = (hour + 1) as u16;
        assert((key & !(0x1Fu16 << 3)) | (new_hour << 3) == key + 8) by (bit_vector)
            requires
                new_hour == (key / 8) % 32 + 1,
                new_hour < 32,
        ;
        keys[len] = (key & !(0x1Fu16 << 3)) | (new_hour << 3);
        len = len + 1;
    }
    if day > 0 {
        let new_day: u16 = (day - 1) as u16;
        assert((key & !0x7u16) | new_day == key - 1) by (bit_vector)
            requires
                new_day == key % 8 - 1,
        ;
        keys[len] = (key & !0x7u16) | new_day;
        len = len + 1;
    }
    if day < 6 {
        let new_day: u16 = (day + 1) as u16;
        assert((key & !0x7u16) | new_day == key + 1) by (bit_vector)
            requires
                new_day == key % 8 + 1,
                new_day < 8,
        ;
        keys[len] = (key & !0x7u16) | new_day;
        len = len + 1;
    }
    let neighbors = NeighborKeys { keys, len: len as u8, cursor: 0 };
    assert(neighbors@ =~= neighbor_list(key));
    neighbors
}

/// Neighbours lie in the same partition, one step away in hour or weekday, and
/// are neighbours of each other.
pub proof fn law_neighbors(key: u16, other: u16)
    requires
        key < N_CELLS,
        key_hour(key) < 24,
        key_day(key) < 7,
    ensures
        neighbor_list(key).contains(other) <==> {
            &&& key_partition(other) == key_partition(key)
            &&& key_hour(other) < 24
            &&& key_day(other) < 7
            &&& {
                ||| key_day(other) == key_day(key) && (key_hour(other) == key_hour(key) + 1
                    || key_hour(other) == key_hour(key) - 1)
                ||| key_hour(other) == key_hour(key) && (key_day(other) == key_day(key) + 1
                    || key_day(other) == key_day(key) - 1)
            }
        },
        other < N_CELLS && key_hour(other) < 24 && key_day(other) < 7 ==> (neighbor_list(
            key,
        ).contains(other) <==> neighbor_list(other).contains(key)),
        neighbor_list(key).len() <= 4,
{
    lemma_neighbor_members(key, other);
    lemma_key_parts(key);
    lemma_key_parts(other);
    lemma_step(
        key_partition(key),
        key_hour(key),
        key_day(key),
        key_partition(other),
        key_hour(other),
        key_day(other),
    );
    if other < N_CELLS && key_hour(other) < 24 && key_day(other) < 7 {
        lemma_neighbor_members(other, key);
    }
}

/// A key is its partition, hour and weekday.
pub proof fn lemma_key_parts(key: u16)
    ensures
        key == 256 * key_partition(key) + 8 * key_hour(key) + key_day(key),
        0 <= key_hour(key) < 32,
        0 <= key_day(key) < 8,
        0 <= key_partition(key),
        key < N_CELLS ==> key_partition(key) < 32,
{
}

proof fn lemma_step(p: int, h: int, d: int, p2: int, h2: int, d2: int)
    requires
        0 <= h < 24,
        0 <= d < 7,
        0 <= h2 < 32,
        0 <= d2 < 8,
    ensures
        ({
            let key = 256 * p + 8 * h + d;
            let other = 256 * p2 + 8 * h2 + d2;
            &&& h > 0 && other == key - 8 <==> p2 == p && h2 == h - 1 && d2 == d
            &&& h < 23 && other == key + 8 <==> p2 == p && h2 == h + 1 && d2 == d && h2 < 24
            &&& d > 0 && other == key - 1 <==> p2 == p && h2 == h && d2 == d - 1
            &&& d < 6 && other == key + 1 <==> p2 == p && h2 == h && d2 == d + 1 && d2 < 7
        }),
{
    let key = 256 * p + 8 * h + d;
    let other = 256 * p2 + 8 * h2 + d2;
    if h > 0 && other == key - 8 {
        lemma_unpacked(p, h - 1, d, p2, h2, d2);
    }
    if h < 23 && other == key + 8 {
        lemma_unpacked(p, h + 1, d, p2, h2, d2);
    }
    if d > 0 && other == key - 1 {
        lemma_unpacked(p, h, d - 1, p2, h2, d2);
    }
    if d < 6 && other == key + 1 {
        lemma_unpacked(p, h, d + 1, p2, h2, d2);
    }
}

/// The parts of a key are unique.
proof fn lemma_unpacked(p: int, h: int, d: int, p2: int, h2: int, d2: int)
    requires
        0 <= h < 32,
        0 <= d < 8,
        0 <= h2 < 32,
        0 <= d2 < 8,
        256 * p + 8 * h + d == 256 * p2 + 8 * h2 + d2,
    ensures
        p == p2,
        h == h2,
        d == d2,
{
    assert(8 * h + d < 256 && 8 * h2 + d2 < 256);
    assert(p == p2);
}

proof fn lemma_neighbor_members(key: u16, other: u16)
    requires
        key < N_CELLS,
        key_hour(key) < 24,
        key_day(key) < 7,
    ensures
        neighbor_list(key).len() <= 4,
        neighbor_list(key).contains(other) <==> {
            ||| key_hour(key) > 0 && other == key - 8
            ||| key_hour(key) < 23 && other == key + 8
            ||| key_day(key) > 0 && other == key - 1
            ||| key_day(key) < 6 && other == key + 1
        },
{
    let list = neighbor_list(key);
    let a = flag(key_hour(key) > 0);
    let b = flag(key_hour(key) < 23);
    let c = flag(key_day(key) > 0);
    if key_hour(key) > 0 {
        assert(list[0] == key - 8);
    }
    if key_hour(key) < 23 {
        assert(list[a] == key + 8);
    }
    if key_day(key) > 0 {
        assert(list[a + b] == key - 1);
    }
    if key_day(key) < 6 {
        assert(list[a + b + c] == key + 1);
    }
}

fn bit(key: u16, shift: u16) -> (set: bool)
    requires
        shift < 16,
    ensures
        set == (((key >> shift) & 1u16) != 0),
{
    ((key >> shift) & 1) != 0
}

fn sq_i32(v: i32) -> (sq: i32)
    requires
        square(v as int) <= i32::MAX,
    ensures
        sq == square(v as int),
{
    proof {
        lemma_square(v as int);
    }
    v * v
}

/// The penalty of a sentinel feature whose presence differs: an absent value is
/// -10000, a present one at least zero.
pub open spec fn sentinel_bound(query_value: i16, query_set: bool, target_set: bool) -> int {
    if query_set == target_set {
        0
    } else if target_set {
        100_000_000
    } else {
        square(query_value + 10000)
    }
}

pub open spec fn flip_bound(query_set: bool, target_set: bool) -> int {
    if query_set == target_set {
        0
    } else {
        100_000_000
    }
}

/// The least squared distance that the keys alone force between a query and
/// the vectors of a cell.
pub open spec fn cell_bound(query: Seq<i16>, query_key: u16, target_key: u16) -> int {
    if query_key == target_key {
        0
    } else {
        flip_bound(key_online(query_key), key_online(target_key)) + flip_bound(
            key_card(query_key),
            key_card(target_key),
        ) + flip_bound(key_unknown(query_key), key_unknown(target_key)) + sentinel_bound(
            query[5],
            key_minutes(query_key),
            key_minutes(target_key),
        ) + sentinel_bound(query[6], key_km(query_key), key_km(target_key)) + square(
            HOUR_Q@[key_hour(query_key)] - HOUR_Q@[key_hour(target_key)],
        ) + square(DAY_Q@[key_day(query_key)] - DAY_Q@[key_day(target_key)])
    }
}

pub open spec fn key_in_tables(key: u16) -> bool {
    key_hour(key) < 24 && key_day(key) < 7
}

pub fn cell_lower_bound_sq(query_v: &Vec16I, query_key: u16, target_key: u16) -> (bound: i32)
    requires
        query_key == target_key || (key_in_tables(query_key) && key_in_tables(target_key)
            && cell_bound(query_v@, query_key, target_key) <= i32::MAX),
    ensures
        bound == cell_bound(query_v@, query_key, target_key),
{
    if query_key == target_key {
        return 0;
    }
    proof {
        lemma_key_bits(query_key);
        lemma_key_bits(target_key);
        lemma_square(query_v@[5] + 10000);
        lemma_square(query_v@[6] + 10000);
        lemma_square(HOUR_Q@[key_hour(query_key)] - HOUR_Q@[key_hour(target_key)]);
        lemma_square(DAY_Q@[key_day(query_key)] - DAY_Q@[key_day(target_key)]);
    }
    let mut sum: i32 = 0;
    if bit(query_key, 12) != bit(target_key, 12) {
        sum = sum + 100_000_000;
    }
    if bit(query_key, 11) != bit(target_key, 11) {
        sum = sum + 100_000_000;
    }
    if bit(query_key, 10) != bit(target_key, 10) {
        sum = sum + 100_000_000;
    }
    if bit(query_key, 9) != bit(target_key, 9) {
        let penalty: i32 = if bit(target_key, 9) {
            100_000_000
        } else {
            sq_i32(query_v[5] as i32 + 10_000)
        };
        sum = sum + penalty;
    }
    if bit(query_key, 8) != bit(target_key, 8) {
        let penalty: i32 = if bit(target_key, 8) {
            100_000_000
        } else {
            sq_i32(query_v[6] as i32 + 10_000)
        };
        sum = sum + penalty;
    }
    let q_hour: usize = ((query_key >> 3) & 0x1F) as usize;
    let t_hour: usize = ((target_key >> 3) & 0x1F) as usize;
    let dh: i32 = HOUR_Q[q_hour] as i32 - HOUR_Q[t_hour] as i32;
    let q_day: usize = (query_key & 0x7) as usize;
    let t_day: usize = (target_key & 0x7) as usize;
    let dd: i32 = DAY_Q[q_day] as i32 - DAY_Q[t_day] as i32;
    assert(square(dh as int) == dh * dh);
    assert(square(dd as int) == dd * dd);
    sum + dh * dh + dd * dd
}

proof fn lemma_key_bits(key: u16)
    ensures
        key_online(key) == (((key >> 12u16) & 1u16) != 0),
        key_card(key) == (((key >> 11u16) & 1u16) != 0),
        key_unknown(key) == (((key >> 10u16) & 1u16) != 0),
        key_minutes(key) == (((key >> 9u16) & 1u16) != 0),
        key_km(key) == (((key >> 8u16) & 1u16) != 0),
        key_hour(key) == ((key >> 3) & 0x1F),
        key_day(key) == (key & 0x7),
{
    assert(((key / 4096) % 2 == 1) == (((key >> 12u16) & 1u16) != 0)) by (bit_vector);
    assert(((key / 2048) % 2 == 1) == (((key >> 11u16) & 1u16) != 0)) by (bit_vector);
    assert(((key / 1024) % 2 == 1) == (((key >> 10u16) & 1u16) != 0)) by (bit_vector);
    assert(((key / 512) % 2 == 1) == (((key >> 9u16) & 1u16) != 0)) by (bit_vector);
    assert(((key / 256) % 2 == 1) == (((key >> 8u16) & 1u16) != 0)) by (bit_vector);
    assert((key / 8) % 32 == ((key >> 3) & 0x1F)) by (bit_vector);
    assert(key % 8 == (key & 0x7)) by (bit_vector);
}

pub open spec fn on_scale(x: i16) -> bool {
    0 <= x <= 10000
}

/// What the quantization of a payment gives: features on the scale from zero
/// to 10000, flags at its ends, hour and weekday from their tables, both
/// features of the last transaction present or both absent, zero padding.
pub open spec fn normalized(v: Seq<i16>) -> bool {
    &&& v.len() == 16
    &&& on_scale(v[0])
    &&& on_scale(v[1])
    &&& on_scale(v[2])
    &&& HOUR_Q@.contains(v[3])
    &&& DAY_Q@.contains(v[4])
    &&& (v[5] == -10000 && v[6] == -10000) || (on_scale(v[5]) && on_scale(v[6]))
    &&& on_scale(v[7])
    &&& on_scale(v[8])
    &&& v[9] == 0 || v[9] == 10000
    &&& v[10] == 0 || v[10] == 10000
    &&& v[11] == 0 || v[11] == 10000
    &&& on_scale(v[12])
    &&& on_scale(v[13])
    &&& v[14] == 0
    &&& v[15] == 0
}

/// The squared distance, written out.
pub proof fn lemma_distance_terms(a: Seq<i16>, b: Seq<i16>)
    ensures
        squared_distance(a, b) == square(a[0] - b[0]) + square(a[1] - b[1]) + square(a[2] - b[2])
            + square(a[3] - b[3]) + square(a[4] - b[4]) + square(a[5] - b[5]) + square(a[6] - b[6])
            + square(a[7] - b[7]) + square(a[8] - b[8]) + square(a[9] - b[9]) + square(
            a[10] - b[10],
        ) + square(a[11] - b[11]) + square(a[12] - b[12]) + square(a[13] - b[13]) + square(
            a[14] - b[14],
        ) + square(a[15] - b[15]),
{
    reveal_with_fuel(partial_distance, 17);
}

proof fn lemma_square_bounds(d: int, limit: int)
    requires
        -limit <= d <= limit,
    ensures
        0 <= square(d) <= square(limit),
{
    lemma_square(d);
    if d >= 0 {
        lemma_square_monotone(d, limit);
    } else {
        lemma_square_monotone(-d, limit);
    }
}

/// The fields of a normalized vector's own cell key.
pub proof fn lemma_vector_cell(v: Seq<i16>)
    requires
        v.len() == 16,
    ensures
        0 <= vector_cell(v) < N_CELLS,
        key_in_tables(vector_cell(v) as u16),
        key_online(vector_cell(v) as u16) == (v[9] != 0),
        key_card(vector_cell(v) as u16) == (v[10] != 0),
        key_unknown(vector_cell(v) as u16) == (v[11] != 0),
        key_minutes(vector_cell(v) as u16) == (v[5] != -10000),
        key_km(vector_cell(v) as u16) == (v[5] != -10000),
        key_hour(vector_cell(v) as u16) == hour_of(v[3]),
        key_day(vector_cell(v) as u16) == day_of(v[4]),
{
    law_hour_day_roundtrip();
    law_cell_key_fields(
        v[9] != 0,
        v[10] != 0,
        v[11] != 0,
        v[5] != -10000,
        hour_of(v[3]),
        day_of(v[4]),
    );
}

/// A vector's hour and weekday have the quantized values that it holds.
proof fn lemma_hour_day_values(v: Seq<i16>)
    requires
        normalized(v),
    ensures
        0 <= hour_of(v[3]) < 24,
        0 <= day_of(v[4]) < 7,
        HOUR_Q@[hour_of(v[3])] == v[3],
        DAY_Q@[day_of(v[4])] == v[4],
        on_scale(v[3]),
        on_scale(v[4]),
{
    law_hour_day_roundtrip();
    let h = choose|h: int| 0 <= h < HOUR_Q@.len() && HOUR_Q@[h] == v[3];
    assert(HOUR_Q@[h] == v[3]);
    let d = choose|d: int| 0 <= d < DAY_Q@.len() && DAY_Q@[d] == v[4];
    assert(DAY_Q@[d] == v[4]);
}

/// Distances between normalized vectors, and the bounds on them, fit into
/// `i32`.
pub proof fn law_normalized_distance_fits(a: Seq<i16>, b: Seq<i16>)
    requires
        normalized(a),
        normalized(b),
    ensures
        0 <= squared_distance(a, b) <= 2_000_000_000,
{
    lemma_distance_terms(a, b);
    lemma_hour_day_values(a);
    lemma_hour_day_values(b);
    assert forall|i: int|
        0 <= i < 14 && i != 5 && i != 6 implies 0 <= #[trigger] square(a[i] - b[i])
        <= 100_000_000 by {
        lemma_square_bounds(a[i] - b[i], 10000);
    }
    lemma_square_bounds(a[5] - b[5], 20000);
    lemma_square_bounds(a[6] - b[6], 20000);
    lemma_square_bounds(a[14] - b[14], 0);
    lemma_square_bounds(a[15] - b[15], 0);
    assert(square(20000) == 400_000_000);
    lemma_square(0);
    assert(square(a[0] - b[0]) <= 100_000_000);
    assert(square(a[1] - b[1]) <= 100_000_000);
    assert(square(a[2] - b[2]) <= 100_000_000);
    assert(square(a[3] - b[3]) <= 100_000_000);
    assert(square(a[4] - b[4]) <= 100_000_000);
    assert(square(a[7] - b[7]) <= 100_000_000);
    assert(square(a[8] - b[8]) <= 100_000_000);
    assert(square(a[9] - b[9]) <= 100_000_000);
    assert(square(a[10] - b[10]) <= 100_000_000);
    assert(square(a[11] - b[11]) <= 100_000_000);
    assert(square(a[12] - b[12]) <= 100_000_000);
    assert(square(a[13] - b[13]) <= 100_000_000);
}

/// No vector of a cell is nearer to the query than the bound of the cell.
pub proof fn law_cell_bound_is_sound(query: Seq<i16>, v: Seq<i16>)
    requires
        normalized(query),
        normalized(v),
    ensures
        0 <= cell_bound(query, vector_cell(query) as u16, vector_cell(v) as u16)
            <= squared_distance(query, v),
{
    lemma_distance_terms(query, v);
    lemma_vector_cell(query);
    lemma_vector_cell(v);
    lemma_hour_day_values(query);
    lemma_hour_day_values(v);
    assert forall|i: int| 0 <= i < 16 implies 0 <= #[trigger] square(query[i] - v[i]) by {
        lemma_square(query[i] - v[i]);
    }
    assert(0 <= square(query[0] - v[0]));
    assert(0 <= square(query[1] - v[1]));
    assert(0 <= square(query[2] - v[2]));
    assert(0 <= square(query[7] - v[7]));
    assert(0 <= square(query[8] - v[8]));
    assert(0 <= square(query[12] - v[12]));
    assert(0 <= square(query[13] - v[13]));
    assert(0 <= square(query[14] - v[14]));
    assert(0 <= square(query[15] - v[15]));
    assert(square(10000) == 100_000_000);
    assert(square(-10000) == 100_000_000);
    lemma_sentinel_sound(query[5], v[5]);
    lemma_sentinel_sound(query[6], v[6]);
    lemma_flip_sound(query[9], v[9]);
    lemma_flip_sound(query[10], v[10]);
    lemma_flip_sound(query[11], v[11]);
    lemma_square(query[3] - v[3]);
    lemma_square(query[4] - v[4]);
}

proof fn lemma_flip_sound(a: i16, b: i16)
    requires
        a == 0 || a == 10000,
        b == 0 || b == 10000,
    ensures
        flip_bound(a != 0, b != 0) == square(a - b),
{
    assert(square(10000) == 100_000_000);
    assert(square(-10000) == 100_000_000);
    lemma_square(0);
}

proof fn lemma_sentinel_sound(a: i16, b: i16)
    requires
        a == -10000 || on_scale(a),
        b == -10000 || on_scale(b),
    ensures
        0 <= sentinel_bound(a, a != -10000, b != -10000) <= square(a - b),
{
    lemma_square(a - b);
    if a == -10000 && b != -10000 {
        lemma_square_monotone(10000, b - a);
        assert(square(10000) == 100_000_000);
        lemma_square(b - a);
    }
    lemma_square(a + 10000);
}

/// Vectors of different partitions are at least 10000 apart, so the squared
/// distance between them is at least 100000000.
pub proof fn law_partitions_are_far_apart(query: Seq<i16>, v: Seq<i16>)
    requires
        normalized(query),
        normalized(v),
        key_partition(vector_cell(query) as u16) != key_partition(vector_cell(v) as u16),
    ensures
        squared_distance(query, v) >= 100_000_000,
{
    law_cell_bound_is_sound(query, v);
    lemma_vector_cell(query);
    lemma_vector_cell(v);
    let a = vector_cell(query) as u16;
    let b = vector_cell(v) as u16;
    lemma_square(HOUR_Q@[key_hour(a)] - HOUR_Q@[key_hour(b)]);
    lemma_square(DAY_Q@[key_day(a)] - DAY_Q@[key_day(b)]);
    if on_scale(query[5]) {
        lemma_square_monotone(10000, query[5] + 10000);
    }
    lemma_square(query[5] + 10000);
    lemma_square(query[6] + 10000);
    assert(square(10000) == 100_000_000);
    lemma_partition_fields(a);
    lemma_partition_fields(b);
}

proof fn lemma_partition_fields(key: u16)
    requires
        key < N_CELLS,
    ensures
        key_partition(key) == 16 * flag(key_online(key)) + 8 * flag(key_card(key)) + 4 * flag(
            key_unknown(key),
        ) + 2 * flag(key_minutes(key)) + flag(key_km(key)),
{
}

/// Which quantized values are hours and weekdays: hour `h` of 23 and weekday
/// `d` of 6 on a scale of ten thousand, rounded; any other value is read as
/// zero.
pub proof fn law_quantized_hours_and_weekdays(q: i16, h: int, d: int)
    ensures
        0 <= h < 24 && q == (20000 * h + 23) / 46 ==> hour_of(q) == h,
        0 <= d < 7 && q == (20000 * d + 6) / 12 ==> day_of(q) == d,
        (forall|x: int| 0 <= x < 24 ==> q != #[trigger] ((20000 * x + 23) / 46)) ==> hour_of(q)
            == 0,
        (forall|x: int| 0 <= x < 7 ==> q != #[trigger] ((20000 * x + 6) / 12)) ==> day_of(q) == 0,
{
    law_quantized_steps();
    law_hour_day_roundtrip();
    if 0 <= h < 24 && q == (20000 * h + 23) / 46 {
        assert(HOUR_Q@[h] == q);
    }
    if 0 <= d < 7 && q == (20000 * d + 6) / 12 {
        assert(DAY_Q@[d] == q);
    }
    if HOUR_Q@.contains(q) {
        let k = choose|k: int| 0 <= k < HOUR_Q@.len() && HOUR_Q@[k] == q;
        assert(q == (20000 * k + 23) / 46);
    }
    if DAY_Q@.contains(q) {
        let k = choose|k: int| 0 <= k < DAY_Q@.len() && DAY_Q@[k] == q;
        assert(q == (20000 * k + 6) / 12);
    }
}

/// The key of the cell of a vector, bit by bit: the three flags, twice whether
/// there is a last transaction, the hour and the weekday.
pub proof fn law_cell_of_a_vector(v: Seq<i16>)
    requires
        v.len() == 16,
    ensures
        0 <= vector_cell(v) < 8192,
        (vector_cell(v) / 4096) % 2 == 1 <==> v[9] != 0,
        (vector_cell(v) / 2048) % 2 == 1 <==> v[10] != 0,
        (vector_cell(v) / 1024) % 2 == 1 <==> v[11] != 0,
        (vector_cell(v) / 512) % 2 == 1 <==> v[5] != -10000,
        (vector_cell(v) / 256) % 2 == 1 <==> v[5] != -10000,
        forall|h: int|
            0 <= h < 24 && v[3] == #[trigger] ((20000 * h + 23) / 46) ==> (vector_cell(v) / 8) % 32
                == h,
        forall|d: int|
            0 <= d < 7 && v[4] == #[trigger] ((20000 * d + 6) / 12) ==> vector_cell(v) % 8 == d,
{
    lemma_vector_cell(v);
    assert forall|h: int| 0 <= h < 24 && v[3] == #[trigger] ((20000 * h + 23) / 46) implies (
    vector_cell(v) / 8) % 32 == h by {
        law_quantized_hours_and_weekdays(v[3], h, 0);
    }
    assert forall|d: int| 0 <= d < 7 && v[4] == #[trigger] ((20000 * d + 6) / 12) implies
        vector_cell(v) % 8 == d by {
        law_quantized_hours_and_weekdays(v[4], 0, d);
    }
}

/// Which cells are neighbours: those of the same flags that are one hour of
/// the same weekday, or one weekday of the same hour, away; each is listed
/// once.
pub proof fn law_neighbours_are_one_step_away(key: u16, other: u16)
    requires
        key < 8192,
        (key as int / 8) % 32 < 24,
        key % 8 < 7,
    ensures
        neighbor_list(key).no_duplicates(),
        neighbor_list(key).contains(other) <==> {
            let (h, d) = ((key as int / 8) % 32, key as int % 8);
            let (g, e) = ((other as int / 8) % 32, other as int % 8);
            &&& other / 256 == key / 256
            &&& g < 24 && e < 7
            &&& (e == d && (g == h + 1 || g == h - 1)) || (g == h && (e == d + 1 || e == d - 1))
        },
{
    law_neighbors(key, other);
    lemma_key_parts(key);
}

/// What the keys alone force between a query and a vector: the squares of the
/// differences in hour, weekday and the flags; and, where just one of the two
/// has a last transaction, the square of how far the features of it are from a
/// missing one, or ten thousand squared where the query has none.
pub proof fn law_cell_bound(q: Seq<i16>, v: Seq<i16>)
    requires
        normalized(q),
        normalized(v),
    ensures
        ({
            let bound = cell_bound(q, vector_cell(q) as u16, vector_cell(v) as u16);
            let forced = (q[3] - v[3]) * (q[3] - v[3]) + (q[4] - v[4]) * (q[4] - v[4]) + (q[9]
                - v[9]) * (q[9] - v[9]) + (q[10] - v[10]) * (q[10] - v[10]) + (q[11] - v[11]) * (
            q[11] - v[11]);
            &&& (q[5] == -10000) == (v[5] == -10000) ==> bound == forced
            &&& q[5] == -10000 && v[5] != -10000 ==> bound == forced + 200_000_000
            &&& q[5] != -10000 && v[5] == -10000 ==> bound == forced + (q[5] + 10000) * (q[5]
                + 10000) + (q[6] + 10000) * (q[6] + 10000)
        }),
{
    let a = vector_cell(q) as u16;
    let b = vector_cell(v) as u16;
    lemma_vector_cell(q);
    lemma_vector_cell(v);
    lemma_hour_day_values(q);
    lemma_hour_day_values(v);
    lemma_flip_sound(q[9], v[9]);
    lemma_flip_sound(q[10], v[10]);
    lemma_flip_sound(q[11], v[11]);
    if a == b {
        assert(key_hour(a) == hour_of(q[3]) && key_hour(b) == hour_of(v[3]));
        assert(q[3] == v[3] && q[4] == v[4]);
        assert(key_online(a) == (q[9] != 0) && key_online(b) == (v[9] != 0));
        assert(key_card(a) == (q[10] != 0) && key_card(b) == (v[10] != 0));
        assert(key_unknown(a) == (q[11] != 0) && key_unknown(b) == (v[11] != 0));
        assert(q[9] == v[9] && q[10] == v[10] && q[11] == v[11]);
        assert(0int * 0int == 0);
    }
}

/// Which vectors are normalized: features from zero to ten thousand; an hour
/// and a weekday of the tables; both features of a last transaction, or -10000
/// for both; flags at either end of the scale; and zeros as padding.
pub proof fn law_normalized(v: Seq<i16>)
    requires
        v.len() == 16,
    ensures
        normalized(v) <==> {
            &&& forall|d: int|
                0 <= d < 3 || d == 7 || d == 8 || d == 12 || d == 13 ==> 0 <= #[trigger] v[d]
                    <= 10000
            &&& exists|h: int| 0 <= h < 24 && v[3] == #[trigger] ((20000 * h + 23) / 46)
            &&& exists|d: int| 0 <= d < 7 && v[4] == #[trigger] ((20000 * d + 6) / 12)
            &&& (v[5] == -10000 && v[6] == -10000) || (0 <= v[5] <= 10000 && 0 <= v[6] <= 10000)
            &&& forall|d: int| 9 <= d < 12 ==> #[trigger] v[d] == 0 || v[d] == 10000
            &&& v[14] == 0 && v[15] == 0
        },
{
    law_quantized_steps();
    if normalized(v) {
        let h = choose|h: int| 0 <= h < HOUR_Q@.len() && HOUR_Q@[h] == v[3];
        assert(v[3] == (20000 * h + 23) / 46);
        let d = choose|d: int| 0 <= d < DAY_Q@.len() && DAY_Q@[d] == v[4];
        assert(v[4] == (20000 * d + 6) / 12);
    }
    if exists|h: int| 0 <= h < 24 && v[3] == #[trigger] ((20000 * h + 23) / 46) {
        let h = choose|h: int| 0 <= h < 24 && v[3] == #[trigger] ((20000 * h + 23) / 46);
        assert(HOUR_Q@[h] == v[3]);
    }
    if exists|d: int| 0 <= d < 7 && v[4] == #[trigger] ((20000 * d + 6) / 12) {
        let d = choose|d: int| 0 <= d < 7 && v[4] == #[trigger] ((20000 * d + 6) / 12);
        assert(DAY_Q@[d] == v[4]);
    }
    if forall|d: int|
        0 <= d < 3 || d == 7 || d == 8 || d == 12 || d == 13 ==> 0 <= #[trigger] v[d] <= 10000 {
        assert(0 <= v[0] <= 10000 && 0 <= v[1] <= 10000 && 0 <= v[2] <= 10000);
        assert(0 <= v[7] <= 10000 && 0 <= v[8] <= 10000);
        assert(0 <= v[12] <= 10000 && 0 <= v[13] <= 10000);
    }
    if forall|d: int| 9 <= d < 12 ==> #[trigger] v[d] == 0 || v[d] == 10000 {
        assert(v[9] == 0 || v[9] == 10000);
        assert(v[10] == 0 || v[10] == 10000);
        assert(v[11] == 0 || v[11] == 10000);
    }
}

/// The neighbours of a cell are handed out one by one: what comes out first
/// and what is left are what was to come, and nothing comes out at the end.
pub proof fn law_neighbours_are_handed_out(
    keys: &mut NeighborKeys,
    key: Option<u16>,
    hint: (usize, Option<usize>),
)
    requires
        call_ensures(NeighborKeys::size_hint, (&*old(keys),), hint),
        call_ensures(NeighborKeys::next, (keys,), key),
    ensures
        hint.0 == old(keys)@.len() && hint.1 == Some(hint.0),
        key is Some <==> hint.0 > 0,
        key is Some ==> seq![key->0] + final(keys)@ == old(keys)@,
        key is None ==> final(keys)@ == old(keys)@,
{
}

/// The neighbours that a cell is asked for are those of its list, and all of
/// them can be collected.
pub proof fn law_neighbours_of_a_cell(key: u16, neighbors: NeighborKeys, keys: Vec<u16>)
    requires
        call_ensures(neighbor_keys, (key,), neighbors),
        call_ensures(NeighborKeys::collect, (neighbors,), keys),
    ensures
        keys@ == neighbor_list(key),
{
}

/// Quantized hours and weekdays are read back as what they stand for.
pub proof fn law_quantized_are_read_back(h: int, d: int, hour: u8, day: u8)
    requires
        0 <= h < 24,
        0 <= d < 7,
        call_ensures(hour_from_q, (((20000 * h + 23) / 46) as i16,), hour),
        call_ensures(day_from_q, (((20000 * d + 6) / 12) as i16,), day),
    ensures
        hour == h,
        day == d,
{
    law_quantized_steps();
    law_hour_day_roundtrip();
    assert(HOUR_Q@[h] == (20000 * h + 23) / 46);
    assert(DAY_Q@[d] == (20000 * d + 6) / 12);
}

/// The neighbours of a cell come in a fixed order: the hour before, the hour
/// after, the weekday before, the weekday after.
pub proof fn law_order_of_neighbours(key: u16, i: int, j: int)
    requires
        key_in_tables(key),
        0 <= i < j < neighbor_list(key).len(),
    ensures
        ({
            let a = neighbor_list(key)[i] - key;
            let b = neighbor_list(key)[j] - key;
            &&& a == -8 || a == 8 || a == -1
            &&& b == 8 || b == -1 || b == 1
            &&& b == 8 ==> a == -8
            &&& b == -1 ==> a == -8 || a == 8
        }),
{
    assert(key_hour(key) > 0 ==> key >= 8);
}

/// The bound of a cell is what is stated of it.
pub proof fn law_bound_of_a_cell(q: Vec16I, query_key: u16, target_key: u16, bound: i32)
    requires
        call_ensures(cell_lower_bound_sq, (&q, query_key, target_key), bound),
    ensures
        bound == cell_bound(q@, query_key, target_key),
{
}

/// What cells are away that differ in one thing alone, whatever the query: a
/// flag counts for the whole scale; a feature of a last transaction that the
/// query alone has, for how far it is from a missing one, and one that it
/// lacks, for the whole scale; hour and weekday for their quantized distance.
pub proof fn law_cells_apart_in_one_thing(q: Seq<i16>, a: u16, b: u16)
    requires
        key_in_tables(a),
        key_in_tables(b),
        a != b,
    ensures
        ({
            let bound = cell_bound(q, a, b);
            let online = key_online(a) == key_online(b);
            let card = key_card(a) == key_card(b);
            let unknown = key_unknown(a) == key_unknown(b);
            let minutes = key_minutes(a) == key_minutes(b);
            let km = key_km(a) == key_km(b);
            let hour = key_hour(a) == key_hour(b);
            let day = key_day(a) == key_day(b);
            &&& !online && card && unknown && minutes && km && hour && day ==> bound == 100_000_000
            &&& online && !card && unknown && minutes && km && hour && day ==> bound == 100_000_000
            &&& online && card && !unknown && minutes && km && hour && day ==> bound == 100_000_000
            &&& online && card && unknown && !minutes && km && hour && day ==> bound == (
            if key_minutes(a) {
                (q[5] + 10000) * (q[5] + 10000)
            } else {
                100_000_000
            })
            &&& online && card && unknown && minutes && !km && hour && day ==> bound == (if key_km(
                a,
            ) {
                (q[6] + 10000) * (q[6] + 10000)
            } else {
                100_000_000
            })
            &&& online && card && unknown && minutes && km && !hour && day ==> {
                let x = (20000 * key_hour(a) + 23) / 46 - (20000 * key_hour(b) + 23) / 46;
                bound == x * x
            }
            &&& online && card && unknown && minutes && km && hour && !day ==> {
                let x = (20000 * key_day(a) + 6) / 12 - (20000 * key_day(b) + 6) / 12;
                bound == x * x
            }
        }),
        cell_bound(q, a, a) == 0,
{
    law_quantized_steps();
    assert(square(0) == 0) by {
        lemma_square(0);
    }
    assert(HOUR_Q@[key_hour(a)] == (20000 * key_hour(a) + 23) / 46);
    assert(HOUR_Q@[key_hour(b)] == (20000 * key_hour(b) + 23) / 46);
    assert(DAY_Q@[key_day(a)] == (20000 * key_day(a) + 6) / 12);
    assert(DAY_Q@[key_day(b)] == (20000 * key_day(b) + 6) / 12);
}

} // verus!
