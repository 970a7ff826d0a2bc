use fraud_index::distance::{l2sq_avx2, l2sq_scalar};

#[test]
fn same_vector_distance_zero() {
    let v = [
        100i16, 200, 300, 400, 500, -10000, -10000, 100, 250, 0, 10000, 0, 2000, 416, 0, 0,
    ];
    assert_eq!(l2sq_scalar(&v, &v), 0);
    assert_eq!(l2sq_avx2(&v, &v), 0);
}

#[test]
fn known_distance() {
    let a = [0i16; 16];
    let mut b = [0i16; 16];
    b[0] = 100;
    b[1] = 200;
    // distance = 100^2 + 200^2 = 10000 + 40000 = 50000
    assert_eq!(l2sq_scalar(&a, &b), 50000);
    assert_eq!(l2sq_avx2(&a, &b), 50000);
}

#[test]
fn exact_match_random_range() {
    let mut a = [0i16; 16];
    let mut b = [0i16; 16];
    for i in 0..16 {
        a[i] = (i * 37) as i16 - 150;
        b[i] = (i * 73) as i16 - 320;
    }
    assert_eq!(l2sq_avx2(&a, &b), l2sq_scalar(&a, &b));
}

#[test]
fn distance_is_symmetric() {
    let mut a = [0i16; 16];
    let mut b = [0i16; 16];
    a[3] = -10000;
    b[3] = 10000;
    b[15] = 7;
    assert_eq!(l2sq_scalar(&a, &b), 400_000_049);
    assert_eq!(l2sq_scalar(&b, &a), 400_000_049);
}
