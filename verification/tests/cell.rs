use fraud_index::cell::{
    cell_key_from_i16, cell_lower_bound_sq, day_from_q, hour_from_q, neighbor_keys, DAY_Q, HOUR_Q,
};

#[test]
fn hour_day_roundtrip() {
    for h in 0..24usize {
        assert_eq!(
            hour_from_q(HOUR_Q[h]),
            h as u8,
            "hour roundtrip failed for h={}",
            h
        );
    }
    for d in 0..7usize {
        assert_eq!(
            day_from_q(DAY_Q[d]),
            d as u8,
            "day roundtrip failed for d={}",
            d
        );
    }
}

#[test]
fn same_key_zero_bound() {
    let q = [0i16; 16];
    assert_eq!(cell_lower_bound_sq(&q, 0, 0), 0);
    assert_eq!(cell_lower_bound_sq(&q, 1234, 1234), 0);
}

#[test]
fn binary_flip_bound_is_exact() {
    let q = [0i16; 16];
    assert_eq!(cell_lower_bound_sq(&q, 0, 1 << 12), 100_000_000);
    assert_eq!(cell_lower_bound_sq(&q, 0, 1 << 11), 100_000_000);
    assert_eq!(cell_lower_bound_sq(&q, 0, 1 << 10), 100_000_000);
}

#[test]
fn sentinel_flip_bound_uses_query_value() {
    let mut q = [0i16; 16];
    q[5] = 2_500;
    q[6] = 7_500;

    let present_key = (1 << 9) | (1 << 8);
    let absent_key = 0;

    assert_eq!(
        cell_lower_bound_sq(&q, present_key, absent_key),
        (12_500_i32 * 12_500_i32) + (17_500_i32 * 17_500_i32)
    );

    q[5] = -10_000;
    q[6] = -10_000;
    assert_eq!(
        cell_lower_bound_sq(&q, absent_key, present_key),
        200_000_000
    );
}

#[test]
fn neighbor_keys_count() {
    // A middle key should have exactly 4 neighbors (hour ± 1, day ± 1)
    let hour = 12u16;
    let day = 3u16;
    let key = (hour << 3) | day;
    let n: Vec<_> = neighbor_keys(key).collect();
    assert_eq!(n.len(), 4);
}

#[test]
fn quantized_steps_are_rounded() {
    assert_eq!(HOUR_Q[0], 0);
    assert_eq!(HOUR_Q[1], 435);
    assert_eq!(HOUR_Q[12], 5217);
    assert_eq!(HOUR_Q[23], 10000);
    assert_eq!(DAY_Q, [0, 1667, 3333, 5000, 6667, 8333, 10000]);
    for h in 0..24usize {
        assert_eq!(HOUR_Q[h], (h as f64 * 10000.0 / 23.0).round() as i16);
    }
    for d in 0..7usize {
        assert_eq!(DAY_Q[d], (d as f64 * 10000.0 / 6.0).round() as i16);
    }
}

#[test]
fn values_outside_the_tables_read_as_zero() {
    assert_eq!(hour_from_q(1), 0);
    assert_eq!(day_from_q(-5), 0);
}

#[test]
fn cell_key_packs_the_discrete_features() {
    let mut v = [0i16; 16];
    v[3] = HOUR_Q[22];
    v[4] = DAY_Q[6];
    v[5] = -10000;
    v[6] = -10000;
    assert_eq!(cell_key_from_i16(&v), (22 << 3) | 6);
    v[5] = 10;
    v[6] = 20;
    v[9] = 10000;
    v[10] = 10000;
    v[11] = 10000;
    assert_eq!(
        cell_key_from_i16(&v),
        (1 << 12) | (1 << 11) | (1 << 10) | (1 << 9) | (1 << 8) | (22 << 3) | 6
    );
}

#[test]
fn neighbors_stop_at_the_ends_of_the_tables() {
    assert_eq!(neighbor_keys(0).collect(), vec![8, 1]);
    assert_eq!(
        neighbor_keys((23 << 3) | 6).collect(),
        vec![(22 << 3) | 6, (23 << 3) | 5]
    );
    let key = (1 << 12) | (5 << 3) | 2;
    assert_eq!(
        neighbor_keys(key).collect(),
        vec![key - 8, key + 8, key - 1, key + 1]
    );
    let mut keys = neighbor_keys(key);
    assert_eq!(keys.size_hint(), (4, Some(4)));
    assert_eq!(keys.next(), Some(key - 8));
    assert_eq!(keys.size_hint(), (3, Some(3)));
}

#[test]
fn hour_and_weekday_count_in_the_bound() {
    let q = [0i16; 16];
    let hour = HOUR_Q[3] as i32 - HOUR_Q[1] as i32;
    let day = DAY_Q[4] as i32 - DAY_Q[2] as i32;
    assert_eq!(
        cell_lower_bound_sq(&q, (1 << 3) | 2, (3 << 3) | 4),
        hour * hour + day * day
    );
}
