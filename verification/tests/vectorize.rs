use chrono::{DateTime, Datelike, Timelike, Utc};
use fraud_index::normalization::Constants;
use fraud_index::types::{
    Customer, KnownMerchants, LastTransaction, Merchant, Payload, Terminal, Transaction,
};
use fraud_index::vectorize::{
    cell_key_from_payload, fast_parse_mcc, parse_iso8601, payload_times, resolve_datetime,
    seconds_between, times_from, vectorize_to_i16, vectorize_to_i16_and_key, TimeError,
};

#[test]
fn fast_iso8601_vs_chrono() {
    let test_cases = vec![
        "1970-01-01T00:00:00Z",
        "1970-01-01T01:02:03Z",
        "1972-02-29T12:00:00Z", // leap year
        "2000-02-29T23:59:59Z", // leap year
        "2025-01-15T14:30:00Z",
        "2026-05-24T22:30:00Z",
        "2026-12-31T23:59:59Z",
        "2100-02-28T12:00:00Z", // non-leap year divisible by 100 but not 400
        "2025-01-15T14:30:00.123Z", // with fractional seconds
    ];

    for ts in test_cases {
        let fdt = parse_iso8601(ts).expect("fast parse failed");
        let dt: DateTime<Utc> = ts.parse().expect("chrono parse failed");

        assert_eq!(fdt.hour, dt.hour(), "hour mismatch for {}", ts);
        assert_eq!(
            fdt.day_of_week,
            dt.weekday().num_days_from_monday(),
            "weekday mismatch for {}",
            ts
        );
        assert_eq!(
            fdt.epoch_seconds,
            dt.timestamp(),
            "epoch_seconds mismatch for {}",
            ts
        );
    }
}

#[test]
fn fast_iso8601_invalid() {
    assert!(parse_iso8601("invalid").is_none());
    assert!(parse_iso8601("2025/01/15T14:30:00Z").is_none());
    assert!(parse_iso8601("2025-01-15T14:30:60Z").is_none()); // invalid second
    assert!(parse_iso8601("2025-01-15T24:30:00Z").is_none()); // invalid hour
    assert!(parse_iso8601("2025-13-15T14:30:00Z").is_none()); // invalid month
}

fn clamp01(x: f64) -> f64 {
    if x < 0.0 {
        0.0
    } else if x > 1.0 {
        1.0
    } else {
        x
    }
}

fn round4(v: f64) -> f64 {
    (v * 10000.0).round() / 10000.0
}

fn step(x: f64) -> i16 {
    (clamp01(x) * 10000.0).round() as i16
}

fn constants() -> Constants {
    Constants::from_risks(&[
        (String::from("5411"), 1500),
        (String::from("7995"), 8500),
        (String::from("5999"), 5000),
    ])
}

#[test]
fn direct_vectorize_parity() {
    let (amount, avg_amount, installments, tx_count) = (154.22, 100.0, 3.0, 2.0);
    let (merchant_avg, km_from_home, km_from_current) = (250.0, 12.5, 5.0);
    let times = payload_times("2026-05-24T22:30:00Z", Some("2026-05-24T22:00:00Z")).unwrap();
    let minutes = times.seconds_since_last.unwrap() as f64 / 60.0;
    let known = ["merchant-abc"];
    let payload = Payload {
        transaction: Transaction {
            amount: step(amount / 10000.0),
            installments: step(installments / 12.0),
            amount_vs_avg: step((amount / avg_amount) / 10.0),
            requested_at: times.requested_at,
        },
        customer: Customer {
            tx_count_24h: step(tx_count / 20.0),
            known_merchants: KnownMerchants::from_slice(&known),
        },
        merchant: Merchant {
            id: "merchant-abc",
            mcc: "5411",
            avg_amount: step(merchant_avg / 10000.0),
        },
        terminal: Terminal {
            is_online: true,
            card_present: true,
            km_from_home: step(km_from_home / 1000.0),
        },
        last_transaction: Some(LastTransaction {
            minutes: step(minutes / 1440.0),
            km_from_current: step(km_from_current / 1000.0),
        }),
    };

    let direct_v = vectorize_to_i16(&payload, &constants());
    let features = [
        clamp01(amount / 10000.0),
        clamp01(installments / 12.0),
        clamp01((amount / avg_amount) / 10.0),
        22.0 / 23.0,
        6.0 / 6.0,
        clamp01(minutes / 1440.0),
        clamp01(km_from_current / 1000.0),
        clamp01(km_from_home / 1000.0),
        clamp01(tx_count / 20.0),
        1.0,
        1.0,
        0.0,
        0.15,
        clamp01(merchant_avg / 10000.0),
    ];
    let mut q_round4 = [0i16; 16];
    for i in 0..14 {
        q_round4[i] = (round4(features[i]) * 10000.0).round() as i16;
    }

    assert_eq!(direct_v, q_round4);
}

fn plain_payload<'a>(known: &[&'a str], id: &'a str, mcc: &'a str) -> Payload<'a> {
    Payload {
        transaction: Transaction {
            amount: 100,
            installments: 200,
            amount_vs_avg: 300,
            requested_at: parse_iso8601("2025-01-15T14:30:00Z").unwrap(),
        },
        customer: Customer {
            tx_count_24h: 400,
            known_merchants: KnownMerchants::from_slice(known),
        },
        merchant: Merchant {
            id,
            mcc,
            avg_amount: 500,
        },
        terminal: Terminal {
            is_online: false,
            card_present: true,
            km_from_home: 600,
        },
        last_transaction: None,
    }
}

#[test]
fn a_request_becomes_its_vector_and_cell() {
    let p = plain_payload(&["a", "b"], "c", "7995");
    let (v, key) = vectorize_to_i16_and_key(&p, &constants());
    assert_eq!(
        v,
        [100, 200, 300, 6087, 3333, -10000, -10000, 600, 400, 0, 10000, 10000, 8500, 500, 0, 0]
    );
    assert_eq!(key, (1 << 11) | (1 << 10) | (14 << 3) | 2);
    assert_eq!(cell_key_from_payload(&p), key);
    assert_eq!(fraud_index::cell::cell_key_from_i16(&v), key);
}

#[test]
fn only_eight_merchants_are_known() {
    let ids = ["0", "1", "2", "3", "4", "5", "6", "7", "8"];
    let known = KnownMerchants::from_slice(&ids);
    assert_eq!(known.len, 8);
    assert!(known.contains("7"));
    assert!(!known.contains("8"));
    assert!(!known.contains(""));
    assert_eq!(KnownMerchants::default().len, 0);
    assert_eq!(
        vectorize_to_i16(&plain_payload(&ids, "3", "0000"), &constants())[11],
        0
    );
    assert_eq!(
        vectorize_to_i16(&plain_payload(&ids, "8", "0000"), &constants())[11],
        10000
    );
}

#[test]
fn what_is_no_category_has_the_default_risk() {
    let c = Constants::from_risks(&[(String::from("0"), 100), (String::from("5411"), 1500)]);
    for mcc in ["54x1", "541", "54111", "", "-541", "０000"] {
        assert_eq!(vectorize_to_i16(&plain_payload(&[], "c", mcc), &c)[12], 5000);
    }
    assert_eq!(vectorize_to_i16(&plain_payload(&[], "c", "0000"), &c)[12], 100);
    assert_eq!(vectorize_to_i16(&plain_payload(&[], "c", "5411"), &c)[12], 1500);
    assert_eq!(vectorize_to_i16(&plain_payload(&[], "c", "1234"), &c)[12], 5000);
}

#[test]
fn merchant_categories_have_four_digits() {
    assert_eq!(fast_parse_mcc("5411"), 5411);
    assert_eq!(fast_parse_mcc("0007"), 7);
    assert_eq!(fast_parse_mcc("541"), 0);
    assert_eq!(fast_parse_mcc("54111"), 0);
    assert_eq!(fast_parse_mcc("54a1"), 0);
    assert_eq!(fast_parse_mcc(""), 0);
}

#[test]
fn plain_timestamps_are_read() {
    let t = parse_iso8601("1970-01-02T03:04:05").unwrap();
    assert_eq!((t.hour, t.day_of_week, t.epoch_seconds), (3, 4, 97445));
    let t = parse_iso8601("0000-01-01T00:00:00").unwrap();
    assert_eq!((t.day_of_week, t.epoch_seconds), (5, -62167219200));
    let t = parse_iso8601("9999-12-31T23:59:59+09:00").unwrap();
    assert_eq!((t.hour, t.day_of_week, t.epoch_seconds), (23, 4, 253402300799));
    // A day past the end of the month runs on into the next one.
    assert_eq!(
        parse_iso8601("2025-02-31T00:00:00Z"),
        parse_iso8601("2025-03-03T00:00:00Z")
    );
    assert!(parse_iso8601("2025-00-15T14:30:00Z").is_none());
    assert!(parse_iso8601("2025-01-00T14:30:00Z").is_none());
    assert!(parse_iso8601("2025-01-32T14:30:00Z").is_none());
    assert!(parse_iso8601("2025-01-15T14:60:00Z").is_none());
    assert!(parse_iso8601("2025-01-15 14:30:00Z").is_none());
    assert!(parse_iso8601("2025-01-15T1x:30:00Z").is_none());
    assert!(parse_iso8601("2025-01-15T14:30:0").is_none());
}

#[test]
fn every_day_follows_the_day_before() {
    let lengths = [31, 28, 31, 30, 31, 30, 31, 31, 30, 31, 30, 31];
    let mut expected = None;
    for year in 1999..2005 {
        for month in 1..13usize {
            let leap = month == 2 && year % 4 == 0 && (year % 100 != 0 || year % 400 == 0);
            let days = lengths[month - 1] + if leap { 1 } else { 0 };
            for day in 1..days + 1 {
                let t = parse_iso8601(&format!("{:04}-{:02}-{:02}T00:00:00", year, month, day))
                    .unwrap();
                if let Some((seconds, weekday)) = expected {
                    assert_eq!((t.epoch_seconds, t.day_of_week), (seconds, weekday));
                }
                expected = Some((t.epoch_seconds + 86400, (t.day_of_week + 1) % 7));
            }
        }
    }
}

#[test]
fn other_timestamps_are_left_to_chrono() {
    for ts in [
        "2025-01-15 14:30:00Z",
        "2025-01-15 23:30:00-03:00",
        "2016-12-31T23:59:60Z",
        "1969-12-31t22:00:00 UTC",
    ] {
        assert!(parse_iso8601(ts).is_none(), "{}", ts);
        let t = resolve_datetime(ts).unwrap();
        let dt: DateTime<Utc> = ts.parse().unwrap();
        assert_eq!(t.hour, dt.hour(), "{}", ts);
        assert_eq!(t.day_of_week, dt.weekday().num_days_from_monday(), "{}", ts);
        assert_eq!(t.epoch_seconds, dt.timestamp(), "{}", ts);
        assert_eq!(t.hour as i64, t.epoch_seconds.rem_euclid(86400) / 3600);
        assert_eq!(
            t.day_of_week as i64,
            (t.epoch_seconds.div_euclid(86400) + 3).rem_euclid(7)
        );
    }
    assert_eq!(
        resolve_datetime("2025-01-15 23:30:00-03:00").unwrap().epoch_seconds,
        1736994600
    );
    assert!(resolve_datetime("yesterday").is_none());
}

#[test]
fn times_of_a_request() {
    let t = payload_times("2025-01-15T14:30:00Z", None).unwrap();
    assert_eq!(t.requested_at.hour, 14);
    assert_eq!(t.seconds_since_last, None);
    let t = payload_times("2025-01-15T14:30:00Z", Some("2025-01-15 15:30:05Z")).unwrap();
    assert_eq!(t.seconds_since_last, Some(3605));
    assert_eq!(
        payload_times("x", Some("y")),
        Err(TimeError::InvalidDatetime)
    );
    assert_eq!(
        payload_times("2025-01-15T14:30:00Z", Some("y")),
        Err(TimeError::InvalidLastTimestamp)
    );
    assert_eq!(
        times_from(None, None),
        Err(TimeError::InvalidDatetime)
    );
    assert_eq!(seconds_between(-5, 7), 12);
    assert_eq!(seconds_between(i64::MAX, i64::MIN), u64::MAX);
}
