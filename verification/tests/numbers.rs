use fraud_index::normalization::Constants;
use fraud_index::numbers::parse_u64;

#[test]
fn unsigned_numbers_are_read() {
    for s in [
        "0",
        "7",
        "+12",
        "0012",
        "18446744073709551615",
        "18446744073709551616",
        "99999999999999999999999",
        "",
        "+",
        "++1",
        "-1",
        "-0",
        "1_000",
        " 1",
        "1 ",
        "1a",
        "é",
    ] {
        assert_eq!(parse_u64(s), s.parse::<u64>().ok(), "{}", s);
    }
    assert_eq!(parse_u64("+12"), Some(12));
    assert_eq!(parse_u64("18446744073709551616"), None);
}

#[test]
fn risks_are_entered_by_code() {
    let c = Constants::from_risks(&[
        (String::from("5411"), 1500),
        (String::from("x"), 1),
        (String::from("10000"), 2),
        (String::from("+0005"), 3),
        (String::from("5"), 4),
        (String::from("9999"), 5),
    ]);
    assert_eq!(c.mcc_risk_i16[5411], 1500);
    assert_eq!(c.mcc_risk_i16[5], 4);
    assert_eq!(c.mcc_risk_i16[9999], 5);
    assert_eq!(c.mcc_risk_i16[0], 5000);
    assert_eq!(c.mcc_risk_i16[1], 5000);
    assert!(c.mcc_risk_i16.iter().all(|&r| (0..=10000).contains(&r)));
}
