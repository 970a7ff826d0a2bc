//! From a payment request to the vector and the cell that stand for it.
use crate::cell::{
    cell_key, cell_key_from_i16, law_cell_key_fields, law_hour_day_roundtrip, law_quantized_steps,
    normalized, on_scale, pack_cell_key, vector_cell, DAY_Q, HOUR_Q,
};
use crate::normalization::Constants;
use crate::types::{Customer, LastTransaction, Merchant, Payload, Terminal, Transaction, Vec16I};
use chrono::{DateTime, Datelike, Timelike, Utc};
use vstd::prelude::*;
use vstd::string::StringSliceAdditionalSpecFns;
use vstd::utf8::encode_utf8;

verus! {

/// A point in time with its hour and weekday in UTC, Monday being 0.
#[derive(Debug, Clone, Copy, PartialEq, Eq, Structural)]
pub struct FastDateTime {
    pub hour: u32,
    pub day_of_week: u32,
    pub epoch_seconds: i64,
}

/// The point in time that is so many seconds after 1970-01-01T00:00:00Z.
pub open spec fn utc(epoch_seconds: i64) -> FastDateTime {
    FastDateTime {
        hour: ((epoch_seconds % 86400) / 3600) as u32,
        day_of_week: ((epoch_seconds as int / 86400 + 3) % 7) as u32,
        epoch_seconds,
    }
}

pub open spec fn is_leap_year(year: int) -> bool {
    year % 4 == 0 && (year % 100 != 0 || year % 400 == 0)
}

pub open spec fn days_in_month(year: int, month: int) -> int {
    if month == 2 {
        if is_leap_year(year) {
            29
        } else {
            28
        }
    } else if month == 4 || month == 6 || month == 9 || month == 11 {
        30
    } else {
        31
    }
}

/// Days of the year before the first of the month.
pub open spec fn days_before_month(year: int, month: int) -> int
    decreases month,
{
    if month <= 1 {
        0
    } else {
        days_before_month(year, month - 1) + days_in_month(year, month - 1)
    }
}

/// Days from the first day of year 1 to the first day of the year.
pub open spec fn days_before_year(year: int) -> int {
    365 * (year - 1) + (year - 1) / 4 - (year - 1) / 100 + (year - 1) / 400
}

/// Days from 1970-01-01 to the given date of the Gregorian calendar. A day
/// past the end of the month runs on into the next one.
pub open spec fn civil_days(year: int, month: int, day: int) -> int {
    days_before_year(year) - days_before_year(1970) + days_before_month(year, month) + day - 1
}

proof fn lemma_months(year: int)
    ensures
        days_before_month(year, 1) == 0,
        days_before_month(year, 2) == 31,
        days_before_month(year, 3) == 31 + days_in_month(year, 2),
        days_before_month(year, 4) == 62 + days_in_month(year, 2),
        days_before_month(year, 5) == 92 + days_in_month(year, 2),
        days_before_month(year, 6) == 123 + days_in_month(year, 2),
        days_before_month(year, 7) == 153 + days_in_month(year, 2),
        days_before_month(year, 8) == 184 + days_in_month(year, 2),
        days_before_month(year, 9) == 215 + days_in_month(year, 2),
        days_before_month(year, 10) == 245 + days_in_month(year, 2),
        days_before_month(year, 11) == 276 + days_in_month(year, 2),
        days_before_month(year, 12) == 306 + days_in_month(year, 2),
{
    reveal_with_fuel(days_before_month, 13);
}

/// The calendar starts at 1970-01-01 and goes on by one from day to day, over
/// the end of each month and each year.
pub proof fn law_calendar(year: int, month: int, day: int)
    requires
        1 <= month <= 12,
        1 <= day <= days_in_month(year, month),
    ensures
        civil_days(1970, 1, 1) == 0,
        day < days_in_month(year, month) ==> civil_days(year, month, day + 1) == civil_days(
            year,
            month,
            day,
        ) + 1,
        day == days_in_month(year, month) && month < 12 ==> civil_days(year, month + 1, 1)
            == civil_days(year, month, day) + 1,
        day == days_in_month(year, month) && month == 12 ==> civil_days(year + 1, 1, 1)
            == civil_days(year, month, day) + 1,
{
    lemma_months(1970);
    lemma_months(year);
    lemma_months(year + 1);
}

pub open spec fn is_digit(b: u8) -> bool {
    0x30 <= b <= 0x39
}

pub open spec fn digits_2(b: Seq<u8>, at: int) -> int {
    10 * (b[at] - 0x30) + (b[at + 1] - 0x30)
}

pub open spec fn digits_4(b: Seq<u8>, at: int) -> int {
    100 * digits_2(b, at) + digits_2(b, at + 2)
}

/// `YYYY-MM-DDThh:mm:ss`, with anything behind it.
pub open spec fn iso8601_shape(b: Seq<u8>) -> bool {
    &&& b.len() >= 19
    &&& b[4] == 0x2d && b[7] == 0x2d && b[10] == 0x54 && b[13] == 0x3a && b[16] == 0x3a
    &&& is_digit(b[0]) && is_digit(b[1]) && is_digit(b[2]) && is_digit(b[3])
    &&& is_digit(b[5]) && is_digit(b[6]) && is_digit(b[8]) && is_digit(b[9])
    &&& is_digit(b[11]) && is_digit(b[12]) && is_digit(b[14]) && is_digit(b[15])
    &&& is_digit(b[17]) && is_digit(b[18])
}

/// The date and the time are within their ranges; any month may have 31 days.
pub open spec fn iso8601_in_range(b: Seq<u8>) -> bool {
    &&& 1 <= digits_2(b, 5) <= 12
    &&& 1 <= digits_2(b, 8) <= 31
    &&& digits_2(b, 11) <= 23
    &&& digits_2(b, 14) <= 59
    &&& digits_2(b, 17) <= 59
}

/// The seconds since 1970-01-01T00:00:00Z that a timestamp stands for.
pub open spec fn iso8601_seconds(b: Seq<u8>) -> int {
    86400 * civil_days(digits_4(b, 0), digits_2(b, 5), digits_2(b, 8)) + 3600 * digits_2(b, 11) + 60
        * digits_2(b, 14) + digits_2(b, 17)
}

fn are_digits(s: &[u8], from: usize, to: usize) -> (all: bool)
    requires
        from <= to <= s@.len(),
    ensures
        all == (forall|k: int| from <= k < to ==> is_digit(#[trigger] s@[k])),
{
    let mut i: usize = from;
    while i < to
        invariant
            from <= i <= to <= s@.len(),
            forall|k: int| from <= k < i ==> is_digit(#[trigger] s@[k]),
        decreases to - i,
    {
        if s[i] < 0x30 || s[i] > 0x39 {
            assert(!is_digit(s@[i as int]));
            return false;
        }
        i = i + 1;
    }
    true
}

fn parse_digits_2(s: &[u8], offset: usize) -> (value: u32)
    requires
        offset + 2 <= s@.len(),
        is_digit(s@[offset as int]),
        is_digit(s@[offset + 1]),
    ensures
        value == digits_2(s@, offset as int),
        value <= 99,
{
    let d1: u32 = (s[offset] - 0x30) as u32;
    let d2: u32 = (s[offset + 1] - 0x30) as u32;
    d1 * 10 + d2
}

fn parse_digits_4(s: &[u8], offset: usize) -> (value: i32)
    requires
        offset + 4 <= s@.len(),
        is_digit(s@[offset as int]),
        is_digit(s@[offset + 1]),
        is_digit(s@[offset + 2]),
        is_digit(s@[offset + 3]),
    ensures
        value == digits_4(s@, offset as int),
        0 <= value <= 9999,
{
    let d1: i32 = (s[offset] - 0x30) as i32;
    let d2: i32 = (s[offset + 1] - 0x30) as i32;
    let d3: i32 = (s[offset + 2] - 0x30) as i32;
    let d4: i32 = (s[offset + 3] - 0x30) as i32;
    d1 * 1000 + d2 * 100 + d3 * 10 + d4
}

proof fn lemma_era(y: int)
    ensures
        146097 * (y / 400) + 365 * (y % 400) + (y % 400) / 4 - (y % 400) / 100 == days_before_year(
            y + 1,
        ),
{
    let e = y / 400;
    let r = y % 400;
    assert(y == 400 * e + r);
    assert(y / 4 == 100 * e + r / 4);
    assert(y / 100 == 4 * e + r / 100);
}

proof fn lemma_year_length(year: int)
    ensures
        days_before_year(year + 1) == days_before_year(year) + 337 + days_in_month(year, 2),
        days_before_year(1970) == 719162,
{
    lemma_next_multiple(year);
    let leap: int = if year % 4 == 0 {
        1
    } else {
        0
    };
    let century: int = if year % 100 == 0 {
        1
    } else {
        0
    };
    let era: int = if year % 400 == 0 {
        1
    } else {
        0
    };
    assert(days_before_year(year + 1) == days_before_year(year) + 365 + leap - century + era);
    assert(days_in_month(year, 2) == 28 + leap - century + era);
}

/// A quotient grows by one at each multiple of the divisor.
proof fn lemma_next_multiple(y: int)
    ensures
        y % 400 == 0 ==> y % 100 == 0,
        y % 100 == 0 ==> y % 4 == 0,
        y / 4 == (y - 1) / 4 + (if y % 4 == 0 {
            1int
        } else {
            0
        }),
        y / 100 == (y - 1) / 100 + (if y % 100 == 0 {
            1int
        } else {
            0
        }),
        y / 400 == (y - 1) / 400 + (if y % 400 == 0 {
            1int
        } else {
            0
        }),
{
}

/// Days from 1970-01-01 to the given date.
fn date_to_epoch_days(year: i32, month: u32, day: u32) -> (days: i64)
    requires
        0 <= year <= 9999,
        1 <= month <= 12,
        1 <= day <= 31,
    ensures
        days == civil_days(year as int, month as int, day as int),
        -719528 <= days <= 2932926,
{
    let y: i32 = if month <= 2 {
        year - 1
    } else {
        year
    };
    let m: u32 = if month <= 2 {
        month + 12
    } else {
        month
    };
    let era: i32 = if y >= 0 {
        y / 400
    } else {
        -1
    };
    let y_of_era: i32 = y - era * 400;
    let day_of_year: i32 = ((153 * (m - 3) + 2) / 5 + day - 1) as i32;
    let day_of_era: i32 = y_of_era * 365 + y_of_era / 4 - y_of_era / 100 + day_of_year;
    proof {
        lemma_era(y as int);
        lemma_months(year as int);
        lemma_year_length(year as int);
        assert(era == y as int / 400 && y_of_era == y as int % 400);
    }
    let era_days: i64 = era as i64 * 146097;
    let days_from_civil_epoch: i64 = era_days + day_of_era as i64;
    days_from_civil_epoch - 719468
}

/// Reads a timestamp of the form `YYYY-MM-DDThh:mm:ss`, taken to be in UTC;
/// what stands behind the seconds is ignored.
pub fn parse_iso8601(s: &str) -> (parsed: Option<FastDateTime>)
    ensures
        match parsed {
            Some(t) => iso8601_shape(s.spec_bytes()) && iso8601_in_range(s.spec_bytes())
                && t.epoch_seconds == iso8601_seconds(s.spec_bytes()) && t == utc(t.epoch_seconds)
                && t.hour == 10 * (s.spec_bytes()[11] - 0x30) + (s.spec_bytes()[12] - 0x30)
                && t.epoch_seconds as int % 86400 == 3600 * t.hour + 60 * (10 * (s.spec_bytes()[14]
                - 0x30) + (s.spec_bytes()[15] - 0x30)) + 10 * (s.spec_bytes()[17] - 0x30) + (
            s.spec_bytes()[18] - 0x30),
            None => !(iso8601_shape(s.spec_bytes()) && iso8601_in_range(s.spec_bytes())),
        },
{
    let bytes = s.as_bytes();
    let ghost b = s.spec_bytes();
    if bytes.len() < 19 {
        return None;
    }
    if bytes[4] != 0x2d || bytes[7] != 0x2d || bytes[10] != 0x54 || bytes[13] != 0x3a || bytes[16]
        != 0x3a {
        return None;
    }
    if !(are_digits(bytes, 0, 4) && are_digits(bytes, 5, 7) && are_digits(bytes, 8, 10)
        && are_digits(bytes, 11, 13) && are_digits(bytes, 14, 16) && are_digits(bytes, 17, 19)) {
        return None;
    }
    let year: i32 = parse_digits_4(bytes, 0);
    let month: u32 = parse_digits_2(bytes, 5);
    let day: u32 = parse_digits_2(bytes, 8);
    let hour: u32 = parse_digits_2(bytes, 11);
    let minute: u32 = parse_digits_2(bytes, 14);
    let second: u32 = parse_digits_2(bytes, 17);
    if month < 1 || month > 12 || day < 1 || day > 31 || hour > 23 || minute > 59 || second > 59 {
        return None;
    }
    let epoch_days: i64 = date_to_epoch_days(year, month, day);
    let mut weekday: i64 = (epoch_days + 3) % 7;
    if weekday < 0 {
        weekday = weekday + 7;
    }
    let epoch_seconds: i64 = epoch_days * 86400 + hour as i64 * 3600 + minute as i64 * 60
        + second as i64;
    proof {
        assert(epoch_seconds as int / 86400 == epoch_days);
        assert(epoch_seconds as int % 86400 == hour * 3600 + minute * 60 + second);
        assert(weekday == (epoch_days + 3) % 7);
    }
    Some(FastDateTime { hour, day_of_week: weekday as u32, epoch_seconds })
}

/// The seconds since 1970-01-01T00:00:00Z of the timestamp that chrono reads
/// from a string; `None` where it reads none.
pub uninterp spec fn utc_timestamp(s: Seq<char>) -> Option<i64>;

/// `str::parse` for chrono's `DateTime<Utc>`, with `hour`, `weekday` (counted
/// from Monday) and `timestamp` of what it returns. The timestamp depends on
/// the string alone; hour and weekday are those of the timestamp in UTC.
#[verifier::external_body]
fn parse_utc(s: &str) -> (parsed: Option<FastDateTime>)
    ensures
        match parsed {
            Some(t) => utc_timestamp(s@) == Some(t.epoch_seconds) && t == utc(t.epoch_seconds),
            None => utc_timestamp(s@) is None,
        },
{
    match s.parse::<DateTime<Utc>>() {
        Ok(dt) => Some(
            FastDateTime {
                hour: dt.hour(),
                day_of_week: dt.weekday().num_days_from_monday(),
                epoch_seconds: dt.timestamp(),
            },
        ),
        Err(_) => None,
    }
}

/// The point in time that a timestamp stands for.
pub open spec fn seconds_of(s: Seq<char>) -> Option<i64> {
    let b = encode_utf8(s);
    if iso8601_shape(b) && iso8601_in_range(b) {
        Some(iso8601_seconds(b) as i64)
    } else {
        utc_timestamp(s)
    }
}

/// Reads a timestamp; one that is not of the plain form is left to chrono.
pub fn resolve_datetime(s: &str) -> (resolved: Option<FastDateTime>)
    ensures
        match resolved {
            Some(t) => seconds_of(s@) == Some(t.epoch_seconds) && t == utc(t.epoch_seconds),
            None => seconds_of(s@) is None,
        },
{
    match parse_iso8601(s) {
        Some(t) => Some(t),
        None => parse_utc(s),
    }
}

/// The times that a request mentions.
#[derive(Debug, Clone, Copy, PartialEq, Eq, Structural)]
pub struct PayloadTimes {
    pub requested_at: FastDateTime,
    /// Seconds between the request and the last transaction.
    pub seconds_since_last: Option<u64>,
}

/// Why the times of a request cannot be used.
#[derive(Debug, Clone, Copy, PartialEq, Eq, Structural)]
pub enum TimeError {
    InvalidDatetime,
    InvalidLastTimestamp,
}

/// The seconds between two points in time, whichever is the earlier.
pub fn seconds_between(a: i64, b: i64) -> (seconds: u64)
    ensures
        seconds == (if a >= b {
            a - b
        } else {
            b - a
        }),
{
    if a >= b {
        (a as i128 - b as i128) as u64
    } else {
        (b as i128 - a as i128) as u64
    }
}

/// The times of a request, given what its timestamps were read as.
pub fn times_from(
    requested_at: Option<FastDateTime>,
    last: Option<Option<FastDateTime>>,
) -> (times: Result<PayloadTimes, TimeError>)
    ensures
        requested_at is None <==> times == Err::<PayloadTimes, TimeError>(
            TimeError::InvalidDatetime,
        ),
        requested_at is Some && last == Some(None::<FastDateTime>) <==> times == Err::<
            PayloadTimes,
            TimeError,
        >(TimeError::InvalidLastTimestamp),
        times matches Ok(t) ==> {
            &&& requested_at == Some(t.requested_at)
            &&& last is None ==> t.seconds_since_last is None
            &&& last matches Some(Some(l)) ==> t.seconds_since_last is Some
                && t.seconds_since_last->0 == (if t.requested_at.epoch_seconds >= l.epoch_seconds {
                t.requested_at.epoch_seconds - l.epoch_seconds
            } else {
                l.epoch_seconds - t.requested_at.epoch_seconds
            })
        },
{
    match requested_at {
        None => Err(TimeError::InvalidDatetime),
        Some(requested_at) => match last {
            None => Ok(PayloadTimes { requested_at, seconds_since_last: None }),
            Some(None) => Err(TimeError::InvalidLastTimestamp),
            Some(Some(last)) => {
                let seconds: u64 = seconds_between(requested_at.epoch_seconds, last.epoch_seconds);
                Ok(PayloadTimes { requested_at, seconds_since_last: Some(seconds) })
            },
        },
    }
}

/// Reads the timestamps of a request: when the transaction was requested and,
/// where there is one, when the last transaction took place.
pub fn payload_times(requested_at: &str, last: Option<&str>) -> (times: Result<
    PayloadTimes,
    TimeError,
>)
    ensures
        seconds_of(requested_at@) is None <==> times == Err::<PayloadTimes, TimeError>(
            TimeError::InvalidDatetime,
        ),
        seconds_of(requested_at@) is Some && last is Some && seconds_of(last->0@) is None
            <==> times == Err::<PayloadTimes, TimeError>(TimeError::InvalidLastTimestamp),
        times matches Ok(t) ==> {
            &&& seconds_of(requested_at@) == Some(t.requested_at.epoch_seconds)
            &&& t.requested_at == utc(t.requested_at.epoch_seconds)
            &&& last is None ==> t.seconds_since_last is None
            &&& last matches Some(l) ==> {
                let a = t.requested_at.epoch_seconds;
                let b = seconds_of(l@)->0;
                t.seconds_since_last is Some && t.seconds_since_last->0 == (if a >= b {
                    a - b
                } else {
                    b - a
                })
            }
        },
{
    let requested = resolve_datetime(requested_at);
    let last_read = match last {
        None => None,
        Some(l) => Some(resolve_datetime(l)),
    };
    times_from(requested, last_read)
}

/// A merchant category is written with four digits.
pub open spec fn four_digits(b: Seq<u8>) -> bool {
    b.len() == 4 && is_digit(b[0]) && is_digit(b[1]) && is_digit(b[2]) && is_digit(b[3])
}

/// The index of a merchant category: its four digits, and zero for anything
/// else.
pub open spec fn mcc_index(b: Seq<u8>) -> int {
    if four_digits(b) {
        digits_4(b, 0)
    } else {
        0
    }
}

pub fn fast_parse_mcc(mcc: &str) -> (index: usize)
    ensures
        index == mcc_index(mcc.spec_bytes()),
        index < 10000,
{
    let b = mcc.as_bytes();
    if b.len() == 4 {
        let d0: usize = b[0].wrapping_sub(0x30) as usize;
        let d1: usize = b[1].wrapping_sub(0x30) as usize;
        let d2: usize = b[2].wrapping_sub(0x30) as usize;
        let d3: usize = b[3].wrapping_sub(0x30) as usize;
        if d0 < 10 && d1 < 10 && d2 < 10 && d3 < 10 {
            return d0 * 1000 + d1 * 100 + d2 * 10 + d3;
        }
    }
    0
}

/// The hour and the weekday of the request are such.
pub open spec fn request_time_ok(p: Payload<'_>) -> bool {
    p.transaction.requested_at.hour < 24 && p.transaction.requested_at.day_of_week < 7
        && p.customer.known_merchants.len <= 8
}

pub open spec fn merchant_known(p: Payload<'_>) -> bool {
    p.customer.known_merchants@.contains(p.merchant.id@)
}

pub open spec fn scale_end(flag: bool) -> i16 {
    if flag {
        10000
    } else {
        0
    }
}

/// The risk of a merchant category: what the table holds for it, and the
/// default for what is no category.
pub open spec fn category_risk(b: Seq<u8>, c: Constants) -> i16 {
    if four_digits(b) {
        c.mcc_risk_i16@[mcc_index(b)]
    } else {
        5000
    }
}

/// The risk of a merchant category.
fn risk_of_category(mcc: &str, c: &Constants) -> (risk: i16)
    ensures
        risk == category_risk(mcc.spec_bytes(), *c),
{
    let b = mcc.as_bytes();
    assert(b@.len() == 4 && is_digit(b@[0]) && is_digit(b@[1]) && is_digit(b@[2]) && is_digit(
        b@[3],
    ) ==> forall|k: int| 0 <= k < 4 ==> is_digit(#[trigger] b@[k]));
    if b.len() == 4 && are_digits(b, 0, 4) {
        c.mcc_risk_i16[fast_parse_mcc(mcc)]
    } else {
        5000
    }
}

/// The vector of a request.
pub open spec fn payload_vector(p: Payload<'_>, c: Constants) -> Seq<i16> {
    seq![
        p.transaction.amount,
        p.transaction.installments,
        p.transaction.amount_vs_avg,
        HOUR_Q@[p.transaction.requested_at.hour as int],
        DAY_Q@[p.transaction.requested_at.day_of_week as int],
        match p.last_transaction {
            Some(last) => last.minutes,
            None => -10000i16,
        },
        match p.last_transaction {
            Some(last) => last.km_from_current,
            None => -10000i16,
        },
        p.terminal.km_from_home,
        p.customer.tx_count_24h,
        scale_end(p.terminal.is_online),
        scale_end(p.terminal.card_present),
        scale_end(!merchant_known(p)),
        category_risk(encode_utf8(p.merchant.mcc@), c),
        p.merchant.avg_amount,
        0i16,
        0i16,
    ]
}

/// The cell of a request.
pub open spec fn payload_cell(p: Payload<'_>) -> int {
    cell_key(
        p.terminal.is_online,
        p.terminal.card_present,
        !merchant_known(p),
        p.last_transaction is Some,
        p.transaction.requested_at.hour as int,
        p.transaction.requested_at.day_of_week as int,
    )
}

/// The features of a request and the risks of its table are on the scale.
pub open spec fn payload_on_scale(p: Payload<'_>, c: Constants) -> bool {
    &&& on_scale(p.transaction.amount)
    &&& on_scale(p.transaction.installments)
    &&& on_scale(p.transaction.amount_vs_avg)
    &&& p.last_transaction matches Some(last) ==> on_scale(last.minutes) && on_scale(
        last.km_from_current,
    )
    &&& on_scale(p.terminal.km_from_home)
    &&& on_scale(p.customer.tx_count_24h)
    &&& on_scale(category_risk(encode_utf8(p.merchant.mcc@), c))
    &&& on_scale(p.merchant.avg_amount)
}

/// The vector of a request is normalized, and the cell computed from the
/// request is the cell of its vector.
pub proof fn law_payload_cell_is_vector_cell(p: Payload<'_>, c: Constants)
    requires
        request_time_ok(p),
        payload_on_scale(p, c),
    ensures
        normalized(payload_vector(p, c)),
        payload_cell(p) == vector_cell(payload_vector(p, c)),
{
    law_hour_day_roundtrip();
    let v = payload_vector(p, c);
    assert(v[3] == HOUR_Q@[p.transaction.requested_at.hour as int]);
    assert(v[4] == DAY_Q@[p.transaction.requested_at.day_of_week as int]);
}

pub fn vectorize_to_i16(p: &Payload<'_>, c: &Constants) -> (v: Vec16I)
    requires
        request_time_ok(*p),
    ensures
        v@ == payload_vector(*p, *c),
{
    vectorize_to_i16_and_key(p, c).0
}

/// The vector of a request and the key of its cell.
pub fn vectorize_to_i16_and_key(p: &Payload<'_>, c: &Constants) -> (result: (Vec16I, u16))
    requires
        request_time_ok(*p),
    ensures
        result.0@ == payload_vector(*p, *c),
        result.1 == payload_cell(*p),
        result.0@.len() == 16,
        result.0@[0] == p.transaction.amount,
        result.0@[1] == p.transaction.installments,
        result.0@[2] == p.transaction.amount_vs_avg,
        result.0@[3] == (20000 * p.transaction.requested_at.hour + 23) / 46,
        result.0@[4] == (20000 * p.transaction.requested_at.day_of_week + 6) / 12,
        p.last_transaction matches Some(last) ==> result.0@[5] == last.minutes && result.0@[6]
            == last.km_from_current,
        p.last_transaction is None ==> result.0@[5] == -10000 && result.0@[6] == -10000,
        result.0@[7] == p.terminal.km_from_home,
        result.0@[8] == p.customer.tx_count_24h,
        result.0@[9] == (if p.terminal.is_online {
            10000int
        } else {
            0
        }),
        result.0@[10] == (if p.terminal.card_present {
            10000int
        } else {
            0
        }),
        result.0@[11] == (if exists|i: int|
            0 <= i < p.customer.known_merchants.len && (
            #[trigger] p.customer.known_merchants.items@[i])@ == p.merchant.id@ {
            0int
        } else {
            10000
        }),
        result.0@[13] == p.merchant.avg_amount,
        result.0@[14] == 0,
        result.0@[15] == 0,
        ({
            let b = encode_utf8(p.merchant.mcc@);
            result.0@[12] == (if b.len() == 4 && 0x30 <= b[0] <= 0x39 && 0x30
                <= b[1] <= 0x39 && 0x30 <= b[2] <= 0x39 && 0x30 <= b[3] <= 0x39 {
                c.mcc_risk_i16@[1000 * (b[0] - 0x30) + 100 * (b[1] - 0x30) + 10 * (b[2] - 0x30) + (
                b[3] - 0x30)] as int
            } else {
                5000
            })
        }),
        result.1 < 8192,
        (result.1 as int / 4096) % 2 == 1 <==> p.terminal.is_online,
        (result.1 as int / 2048) % 2 == 1 <==> p.terminal.card_present,
        (result.1 as int / 1024) % 2 == 1 <==> result.0@[11] == 10000,
        (result.1 as int / 512) % 2 == 1 <==> p.last_transaction is Some,
        (result.1 as int / 256) % 2 == 1 <==> p.last_transaction is Some,
        (result.1 as int / 8) % 32 == p.transaction.requested_at.hour,
        result.1 as int % 8 == p.transaction.requested_at.day_of_week,
{
    proof {
        law_vector_of_a_request(*p, *c);
    }

    let hour: u16 = p.transaction.requested_at.hour as u16;
    let day: u16 = p.transaction.requested_at.day_of_week as u16;
    let mut out: Vec16I = [0i16; 16];
    out[0] = p.transaction.amount;
    out[1] = p.transaction.installments;
    out[2] = p.transaction.amount_vs_avg;
    out[3] = HOUR_Q[hour as usize];
    out[4] = DAY_Q[day as usize];
    match p.last_transaction {
        Some(last) => {
            out[5] = last.minutes;
            out[6] = last.km_from_current;
        },
        None => {
            out[5] = -10000;
            out[6] = -10000;
        },
    }
    out[7] = p.terminal.km_from_home;
    out[8] = p.customer.tx_count_24h;
    out[9] = if p.terminal.is_online {
        10000
    } else {
        0
    };
    out[10] = if p.terminal.card_present {
        10000
    } else {
        0
    };
    let known: bool = p.customer.known_merchants.contains(p.merchant.id);
    out[11] = if known {
        0
    } else {
        10000
    };
    out[12] = risk_of_category(p.merchant.mcc, c);
    out[13] = p.merchant.avg_amount;
    let key: u16 = pack_cell_key(
        p.terminal.is_online,
        p.terminal.card_present,
        !known,
        p.last_transaction.is_some(),
        hour,
        day,
    );
    assert(out@ =~= payload_vector(*p, *c));
    (out, key)
}

/// The key of the cell of a request.
pub fn cell_key_from_payload(p: &Payload<'_>) -> (key: u16)
    requires
        request_time_ok(*p),
    ensures
        key == payload_cell(*p),
{
    let known: bool = p.customer.known_merchants.contains(p.merchant.id);
    pack_cell_key(
        p.terminal.is_online,
        p.terminal.card_present,
        !known,
        p.last_transaction.is_some(),
        p.transaction.requested_at.hour as u16,
        p.transaction.requested_at.day_of_week as u16,
    )
}

/// What the vector of a request and the key of its cell are: each component is
/// its own feature of the request and nothing else, a flag is at one end of the
/// scale, hour and weekday are rounded to it, a last transaction that is
/// missing is -10000, a merchant is unknown unless it is listed, and a category
/// of four digits has the risk of its table. The key holds the flags, the hour
/// and the weekday bit by bit.
pub proof fn law_vector_of_a_request(p: Payload<'_>, c: Constants)
    requires
        request_time_ok(p),
    ensures
        payload_vector(p, c).len() == 16,
        payload_vector(p, c)[0] == p.transaction.amount,
        payload_vector(p, c)[1] == p.transaction.installments,
        payload_vector(p, c)[2] == p.transaction.amount_vs_avg,
        payload_vector(p, c)[3] == (20000 * p.transaction.requested_at.hour + 23) / 46,
        payload_vector(p, c)[4] == (20000 * p.transaction.requested_at.day_of_week + 6) / 12,
        p.last_transaction matches Some(last) ==> payload_vector(p, c)[5] == last.minutes
            && payload_vector(p, c)[6] == last.km_from_current,
        p.last_transaction is None ==> payload_vector(p, c)[5] == -10000
            && payload_vector(p, c)[6] == -10000,
        payload_vector(p, c)[7] == p.terminal.km_from_home,
        payload_vector(p, c)[8] == p.customer.tx_count_24h,
        payload_vector(p, c)[9] == (if p.terminal.is_online {
            10000int
        } else {
            0
        }),
        payload_vector(p, c)[10] == (if p.terminal.card_present {
            10000int
        } else {
            0
        }),
        payload_vector(p, c)[11] == (if exists|i: int|
            0 <= i < p.customer.known_merchants.len && (
            #[trigger] p.customer.known_merchants.items@[i])@ == p.merchant.id@ {
            0int
        } else {
            10000
        }),
        payload_vector(p, c)[13] == p.merchant.avg_amount,
        payload_vector(p, c)[14] == 0,
        payload_vector(p, c)[15] == 0,
        ({
            let b = encode_utf8(p.merchant.mcc@);
            payload_vector(p, c)[12] == (if b.len() == 4 && 0x30 <= b[0] <= 0x39 && 0x30
                <= b[1] <= 0x39 && 0x30 <= b[2] <= 0x39 && 0x30 <= b[3] <= 0x39 {
                c.mcc_risk_i16@[1000 * (b[0] - 0x30) + 100 * (b[1] - 0x30) + 10 * (b[2] - 0x30) + (
                b[3] - 0x30)] as int
            } else {
                5000
            })
        }),
        0 <= payload_cell(p) < 8192,
        (payload_cell(p) / 4096) % 2 == 1 <==> p.terminal.is_online,
        (payload_cell(p) / 2048) % 2 == 1 <==> p.terminal.card_present,
        (payload_cell(p) / 1024) % 2 == 1 <==> payload_vector(p, c)[11] == 10000,
        (payload_cell(p) / 512) % 2 == 1 <==> p.last_transaction is Some,
        (payload_cell(p) / 256) % 2 == 1 <==> p.last_transaction is Some,
        (payload_cell(p) / 8) % 32 == p.transaction.requested_at.hour,
        payload_cell(p) % 8 == p.transaction.requested_at.day_of_week,
{
    let v = payload_vector(p, c);
    law_quantized_steps();
    law_cell_key_fields(
        p.terminal.is_online,
        p.terminal.card_present,
        !merchant_known(p),
        p.last_transaction is Some,
        p.transaction.requested_at.hour as int,
        p.transaction.requested_at.day_of_week as int,
    );
    let known = p.customer.known_merchants;
    assert(merchant_known(p) <==> exists|i: int|
        0 <= i < known.len && (#[trigger] known.items@[i])@ == p.merchant.id@) by {
        if merchant_known(p) {
            let i = choose|i: int| 0 <= i < known@.len() && known@[i] == p.merchant.id@;
            assert(known.items@[i]@ == p.merchant.id@);
        }
        if exists|i: int| 0 <= i < known.len && (#[trigger] known.items@[i])@ == p.merchant.id@ {
            let i = choose|i: int|
                0 <= i < known.len && (#[trigger] known.items@[i])@ == p.merchant.id@;
            assert(known@[i] == p.merchant.id@);
        }
    }
}

/// A feature of a request that changes, changes its own component of the vector
/// and no other.
pub proof fn law_features_stand_alone(p: Payload<'_>, c: Constants, x: i16)
    requires
        request_time_ok(p),
    ensures
        payload_vector(
            (Payload { transaction: Transaction { amount: x, ..p.transaction }, ..p }),
            c,
        ) == payload_vector(p, c).update(0, x),
        payload_vector(
            (Payload { transaction: Transaction { installments: x, ..p.transaction }, ..p }),
            c,
        ) == payload_vector(p, c).update(1, x),
        payload_vector(
            (Payload { transaction: Transaction { amount_vs_avg: x, ..p.transaction }, ..p }),
            c,
        ) == payload_vector(p, c).update(2, x),
        payload_vector(
            (Payload { terminal: Terminal { km_from_home: x, ..p.terminal }, ..p }),
            c,
        ) == payload_vector(p, c).update(7, x),
        payload_vector(
            (Payload { customer: Customer { tx_count_24h: x, ..p.customer }, ..p }),
            c,
        ) == payload_vector(p, c).update(8, x),
        payload_vector(
            (Payload { merchant: Merchant { avg_amount: x, ..p.merchant }, ..p }),
            c,
        ) == payload_vector(p, c).update(13, x),
        payload_vector(
            (Payload { terminal: Terminal { is_online: x > 0, ..p.terminal }, ..p }),
            c,
        ) == payload_vector(p, c).update(
            9,
            if x > 0 {
                10000i16
            } else {
                0
            },
        ),
        payload_vector(
            (Payload { terminal: Terminal { card_present: x > 0, ..p.terminal }, ..p }),
            c,
        ) == payload_vector(p, c).update(
            10,
            if x > 0 {
                10000i16
            } else {
                0
            },
        ),
        p.last_transaction matches Some(last) ==> payload_vector(
            (Payload {
                last_transaction: Some(LastTransaction { minutes: x, ..last }),
                ..p
            }),
            c,
        ) == payload_vector(p, c).update(5, x),
        p.last_transaction matches Some(last) ==> payload_vector(
            (Payload {
                last_transaction: Some(LastTransaction { km_from_current: x, ..last }),
                ..p
            }),
            c,
        ) == payload_vector(p, c).update(6, x),
{
}

/// How days and the time of day make up a time.
proof fn lemma_day_and_time(days: int, time: int)
    requires
        0 <= time < 86400,
    ensures
        (86400 * days + time) / 86400 == days,
        (86400 * days + time) % 86400 == time,
{
}

/// The days of years of four digits.
proof fn lemma_days_in_range(year: int, month: int, day: int)
    requires
        0 <= year <= 9999,
        1 <= month <= 12,
        1 <= day <= 31,
    ensures
        -1_000_000 <= civil_days(year, month, day) <= 5_000_000,
{
    lemma_months(year);
    lemma_year_length(year);
    assert(-400 <= days_before_year(year) <= 4_000_000);
}

proof fn lemma_plain_timestamp_read(b: Seq<u8>)
    requires
        iso8601_shape(b),
        iso8601_in_range(b),
    ensures
        iso8601_seconds(b) / 86400 == civil_days(digits_4(b, 0), digits_2(b, 5), digits_2(b, 8)),
        iso8601_seconds(b) % 86400 == 3600 * digits_2(b, 11) + 60 * digits_2(b, 14) + digits_2(
            b,
            17,
        ),
        i64::MIN <= iso8601_seconds(b) <= i64::MAX,
{
    let days = civil_days(digits_4(b, 0), digits_2(b, 5), digits_2(b, 8));
    let time = 3600 * digits_2(b, 11) + 60 * digits_2(b, 14) + digits_2(b, 17);
    lemma_days_in_range(digits_4(b, 0), digits_2(b, 5), digits_2(b, 8));
    lemma_day_and_time(days, time);
}

/// Which timestamps of the plain form are read, and what as: the time of day is
/// the hour, the minute and the second that are written, whatever the date, and
/// the day is that of the calendar, whatever the time.
pub proof fn law_plain_timestamps(b: Seq<u8>)
    ensures
        iso8601_shape(b) && iso8601_in_range(b) <==> {
            &&& b.len() >= 19
            &&& b[4] == 0x2d && b[7] == 0x2d && b[10] == 0x54 && b[13] == 0x3a && b[16] == 0x3a
            &&& forall|k: int|
                0 <= k < 19 && k != 4 && k != 7 && k != 10 && k != 13 && k != 16 ==> 0x30
                    <= #[trigger] b[k] <= 0x39
            &&& 1 <= 10 * (b[5] - 0x30) + (b[6] - 0x30) <= 12
            &&& 1 <= 10 * (b[8] - 0x30) + (b[9] - 0x30) <= 31
            &&& 10 * (b[11] - 0x30) + (b[12] - 0x30) <= 23
            &&& 10 * (b[14] - 0x30) + (b[15] - 0x30) <= 59
            &&& 10 * (b[17] - 0x30) + (b[18] - 0x30) <= 59
        },
        iso8601_shape(b) && iso8601_in_range(b) ==> {
            &&& iso8601_seconds(b) % 86400 == 3600 * (10 * (b[11] - 0x30) + (b[12] - 0x30)) + 60
                * (10 * (b[14] - 0x30) + (b[15] - 0x30)) + 10 * (b[17] - 0x30) + (b[18] - 0x30)
            &&& iso8601_seconds(b) / 86400 == civil_days(
                1000 * (b[0] - 0x30) + 100 * (b[1] - 0x30) + 10 * (b[2] - 0x30) + (b[3] - 0x30),
                10 * (b[5] - 0x30) + (b[6] - 0x30),
                10 * (b[8] - 0x30) + (b[9] - 0x30),
            )
            &&& i64::MIN <= iso8601_seconds(b) <= i64::MAX
        },
{
    if b.len() >= 19 && (forall|k: int|
        0 <= k < 19 && k != 4 && k != 7 && k != 10 && k != 13 && k != 16 ==> 0x30
            <= #[trigger] b[k] <= 0x39) {
        assert(is_digit(b[0]) && is_digit(b[1]) && is_digit(b[2]) && is_digit(b[3]));
        assert(is_digit(b[5]) && is_digit(b[6]) && is_digit(b[8]) && is_digit(b[9]));
        assert(is_digit(b[11]) && is_digit(b[12]) && is_digit(b[14]) && is_digit(b[15]));
        assert(is_digit(b[17]) && is_digit(b[18]));
    }
    if iso8601_shape(b) && iso8601_in_range(b) {
        lemma_plain_timestamp_read(b);
    }
}

/// Timestamps of the plain form that differ in their dates alone have the same
/// time of day, and those that differ in their times alone the same day.
pub proof fn law_date_and_time_stand_alone(a: Seq<u8>, b: Seq<u8>)
    requires
        iso8601_shape(a) && iso8601_in_range(a),
        iso8601_shape(b) && iso8601_in_range(b),
    ensures
        (forall|k: int| 11 <= k < 19 ==> #[trigger] a[k] == b[k]) ==> iso8601_seconds(a) % 86400
            == iso8601_seconds(b) % 86400,
        (forall|k: int| 0 <= k < 10 ==> #[trigger] a[k] == b[k]) ==> iso8601_seconds(a) / 86400
            == iso8601_seconds(b) / 86400,
{
    law_plain_timestamps(a);
    law_plain_timestamps(b);
    if forall|k: int| 11 <= k < 19 ==> #[trigger] a[k] == b[k] {
        assert(a[11] == b[11] && a[12] == b[12] && a[14] == b[14] && a[15] == b[15]);
        assert(a[17] == b[17] && a[18] == b[18]);
    }
    if forall|k: int| 0 <= k < 10 ==> #[trigger] a[k] == b[k] {
        assert(a[0] == b[0] && a[1] == b[1] && a[2] == b[2] && a[3] == b[3]);
        assert(a[5] == b[5] && a[6] == b[6] && a[8] == b[8] && a[9] == b[9]);
    }
}

/// The calendar comes back after four hundred years.
proof fn lemma_four_centuries(year: int)
    ensures
        days_before_year(year + 400) == days_before_year(year) + 146097,
        is_leap_year(year + 400) == is_leap_year(year),
{
    let y = year - 1;
    assert((y + 400) / 4 == y / 4 + 100);
    assert((y + 400) / 100 == y / 100 + 4);
    assert((y + 400) / 400 == y / 400 + 1);
    assert((year + 400) % 4 == year % 4 && (year + 400) % 100 == year % 100);
}

/// The months of two years that are leap years both or neither have the same
/// lengths.
proof fn lemma_months_of_leap_years(year: int, other: int, month: int)
    requires
        is_leap_year(year) == is_leap_year(other),
    ensures
        days_before_month(year, month) == days_before_month(other, month),
    decreases month,
{
    if month > 1 {
        lemma_months_of_leap_years(year, other, month - 1);
    }
}

/// The days of a year before and after its last month.
proof fn lemma_december(year: int)
    ensures
        days_before_year(year + 1) + days_before_month(year + 1, 1) == days_before_year(year)
            + days_before_month(year, 12) + 31,
{
    lemma_year_length(year);
    lemma_months(year);
}

/// The days are those of the Gregorian calendar, counted from 1970-01-01: a
/// day later is one more, months have their lengths, and February has 29 days
/// in every fourth year, but of the full centuries only in every fourth.
pub proof fn law_days_are_gregorian(year: int, month: int, day: int)
    requires
        1 <= month <= 12,
    ensures
        civil_days(1970, 1, 1) == 0,
        civil_days(year, month, day + 1) == civil_days(year, month, day) + 1,
        month < 12 ==> civil_days(year, month + 1, day) - civil_days(year, month, day) == (
        if month == 2 {
            if year % 4 == 0 && (year % 100 != 0 || year % 400 == 0) {
                29int
            } else {
                28
            }
        } else if month == 4 || month == 6 || month == 9 || month == 11 {
            30
        } else {
            31
        }),
        civil_days(year + 1, 1, day) - civil_days(year, 12, day) == 31,
        civil_days(year + 400, month, day) == civil_days(year, month, day) + 146097,
{
    assert(civil_days(year + 1, 1, day) - civil_days(year, 12, day) == 31) by {
        lemma_december(year);
    }
    assert(civil_days(year + 400, month, day) == civil_days(year, month, day) + 146097) by {
        lemma_four_centuries(year);
        lemma_months_of_leap_years(year, year + 400, month);
    }
}

/// Hour and weekday of a point in time: so many full hours have passed of its
/// day; 1970-01-01 was a Thursday, and each day is followed by the next
/// weekday.
pub proof fn law_hour_and_weekday(epoch_seconds: i64, later: i64)
    ensures
        ({
            let t = utc(epoch_seconds);
            &&& t.epoch_seconds == epoch_seconds
            &&& 0 <= t.hour < 24
            &&& 3600 * t.hour <= epoch_seconds as int % 86400 < 3600 * (t.hour + 1)
            &&& 0 <= t.day_of_week < 7
            &&& 0 <= epoch_seconds < 86400 ==> t.day_of_week == 3
            &&& later == epoch_seconds + 86400 ==> utc(later).hour == t.hour && utc(
                later,
            ).day_of_week == (if t.day_of_week == 6 {
                0
            } else {
                t.day_of_week + 1
            })
            &&& later as int / 86400 == epoch_seconds as int / 86400 ==> utc(later).day_of_week
                == t.day_of_week
        }),
{
}

/// What a timestamp stands for: one of the plain form for what is written, any
/// other for what chrono reads.
pub proof fn law_timestamps(s: Seq<char>)
    ensures
        ({
            let b = encode_utf8(s);
            if iso8601_shape(b) && iso8601_in_range(b) {
                &&& seconds_of(s) is Some
                &&& seconds_of(s)->0 as int % 86400 == 3600 * (10 * (b[11] - 0x30) + (b[12]
                    - 0x30)) + 60 * (10 * (b[14] - 0x30) + (b[15] - 0x30)) + 10 * (b[17] - 0x30)
                    + (b[18] - 0x30)
                &&& seconds_of(s)->0 as int / 86400 == civil_days(
                    1000 * (b[0] - 0x30) + 100 * (b[1] - 0x30) + 10 * (b[2] - 0x30) + (b[3]
                        - 0x30),
                    10 * (b[5] - 0x30) + (b[6] - 0x30),
                    10 * (b[8] - 0x30) + (b[9] - 0x30),
                )
            } else {
                seconds_of(s) == utc_timestamp(s)
            }
        }),
{
    law_plain_timestamps(encode_utf8(s));
}

/// The index of a merchant category is the number that its four digits stand
/// for; its risk is what the table holds there. What is no category has index
/// zero and the default risk.
pub proof fn law_categories(b: Seq<u8>, c: Constants)
    ensures
        ({
            let category = b.len() == 4 && forall|k: int|
                0 <= k < 4 ==> 0x30 <= #[trigger] b[k] <= 0x39;
            let number = 1000 * (b[0] - 0x30) + 100 * (b[1] - 0x30) + 10 * (b[2] - 0x30) + (b[3]
                - 0x30);
            &&& category ==> mcc_index(b) == number && 0 <= number < 10000
            &&& category ==> category_risk(b, c) == c.mcc_risk_i16@[number]
            &&& !category ==> mcc_index(b) == 0
            &&& !category ==> category_risk(b, c) == 5000
        }),
{
    if b.len() == 4 && (forall|k: int| 0 <= k < 4 ==> 0x30 <= #[trigger] b[k] <= 0x39) {
        assert(is_digit(b[0]) && is_digit(b[1]) && is_digit(b[2]) && is_digit(b[3]));
    }
}

/// Which requests are on the scale: those all of whose features, and the risk
/// of whose category, are from zero to ten thousand.
pub proof fn law_requests_on_scale(p: Payload<'_>, c: Constants)
    ensures
        request_time_ok(p) <==> p.transaction.requested_at.hour < 24
            && p.transaction.requested_at.day_of_week < 7 && p.customer.known_merchants.len <= 8,
        payload_on_scale(p, c) <==> {
            &&& 0 <= p.transaction.amount <= 10000
            &&& 0 <= p.transaction.installments <= 10000
            &&& 0 <= p.transaction.amount_vs_avg <= 10000
            &&& 0 <= p.terminal.km_from_home <= 10000
            &&& 0 <= p.customer.tx_count_24h <= 10000
            &&& 0 <= p.merchant.avg_amount <= 10000
            &&& 0 <= payload_vector(p, c)[12] <= 10000
            &&& p.last_transaction matches Some(last) ==> 0 <= last.minutes <= 10000 && 0
                <= last.km_from_current <= 10000
        },
{
}

/// The seconds between two points in time lead from the earlier to the later,
/// and are the same both ways.
pub proof fn law_seconds_between(a: i64, b: i64, seconds: u64, back: u64)
    requires
        call_ensures(seconds_between, (a, b), seconds),
        call_ensures(seconds_between, (b, a), back),
    ensures
        a <= b ==> a + seconds == b,
        b <= a ==> b + seconds == a,
        seconds == back,
{
}

/// What the times of a request are, given what its timestamps were read as:
/// the request's own has to be read, and that of the last transaction where
/// there is one; between the two lie so many seconds.
pub proof fn law_times(
    requested_at: Option<FastDateTime>,
    last: Option<Option<FastDateTime>>,
    times: Result<PayloadTimes, TimeError>,
)
    requires
        call_ensures(times_from, (requested_at, last), times),
    ensures
        times is Ok <==> requested_at is Some && (last is Some ==> last->0 is Some),
        requested_at is None ==> times->Err_0 is InvalidDatetime,
        requested_at is Some && times is Err ==> times->Err_0 is InvalidLastTimestamp,
        times is Ok ==> {
            let t = times->Ok_0;
            &&& t.requested_at == requested_at->0
            &&& t.seconds_since_last is Some <==> last is Some
            &&& last is Some ==> {
                let a = t.requested_at.epoch_seconds;
                let b = last->0->0.epoch_seconds;
                a + t.seconds_since_last->0 == b || b + t.seconds_since_last->0 == a
            }
        },
{
}

/// What the times of a request are, given its timestamps: those of the plain
/// form are read as written, by the hour and the time of day, and the others
/// as chrono reads them.
pub proof fn law_request_times(
    requested_at: &str,
    last: Option<&str>,
    times: Result<PayloadTimes, TimeError>,
)
    requires
        call_ensures(payload_times, (requested_at, last), times),
    ensures
        times is Ok <==> seconds_of(requested_at@) is Some && (last is Some ==> seconds_of(
            last->0@,
        ) is Some),
        seconds_of(requested_at@) is None ==> times->Err_0 is InvalidDatetime,
        seconds_of(requested_at@) is Some && times is Err ==> times->Err_0 is InvalidLastTimestamp,
        times is Ok ==> {
            let t = times->Ok_0;
            let a = t.requested_at.epoch_seconds;
            let b = encode_utf8(requested_at@);
            &&& seconds_of(requested_at@) == Some(a)
            &&& t.requested_at == utc(a)
            &&& iso8601_shape(b) && iso8601_in_range(b) ==> t.requested_at.hour == 10 * (b[11]
                - 0x30) + (b[12] - 0x30)
            &&& t.seconds_since_last is Some <==> last is Some
            &&& last is Some ==> {
                let l = seconds_of(last->0@)->0;
                a + t.seconds_since_last->0 == l || l + t.seconds_since_last->0 == a
            }
        },
{
    if times is Ok {
        law_timestamps(requested_at@);
    }
}

/// A timestamp is resolved to the hour that it is written with, where it is of
/// the plain form, and to what chrono reads otherwise.
pub proof fn law_resolved(s: &str, resolved: Option<FastDateTime>)
    requires
        call_ensures(resolve_datetime, (s,), resolved),
    ensures
        resolved is Some <==> seconds_of(s@) is Some,
        resolved is Some ==> {
            let b = encode_utf8(s@);
            &&& seconds_of(s@) == Some(resolved->0.epoch_seconds)
            &&& resolved->0 == utc(resolved->0.epoch_seconds)
            &&& iso8601_shape(b) && iso8601_in_range(b) ==> resolved->0.hour == 10 * (b[11] - 0x30)
                + (b[12] - 0x30)
        },
{
    law_timestamps(s@);
}

/// The functions on requests agree with each other: the vector and the key of
/// the cell are the same however they are asked for, and the key is that of
/// the vector's cell.
pub proof fn law_vectorized(
    p: Payload<'_>,
    c: Constants,
    v: Vec16I,
    both: (Vec16I, u16),
    key: u16,
    cell: u16,
)
    requires
        request_time_ok(p),
        call_ensures(vectorize_to_i16, (&p, &c), v),
        call_ensures(vectorize_to_i16_and_key, (&p, &c), both),
        call_ensures(cell_key_from_payload, (&p,), key),
        call_ensures(cell_key_from_i16, (&v,), cell),
    ensures
        v@ == payload_vector(p, c),
        both.0@ == v@,
        both.1 == key,
        key == payload_cell(p),
        payload_on_scale(p, c) ==> cell == key,
{
    if payload_on_scale(p, c) {
        law_payload_cell_is_vector_cell(p, c);
    }
}

/// What is read of a timestamp of the plain form, and that nothing else is
/// read: the hour and the time of day are those that are written, and the day
/// is that of the calendar.
pub proof fn law_parsed(s: &str, parsed: Option<FastDateTime>)
    requires
        call_ensures(parse_iso8601, (s,), parsed),
    ensures
        ({
            let b = s.spec_bytes();
            &&& parsed is Some <==> iso8601_shape(b) && iso8601_in_range(b)
            &&& parsed is Some ==> {
                let t = parsed->0;
                &&& t.hour == 10 * (b[11] - 0x30) + (b[12] - 0x30)
                &&& t.epoch_seconds as int % 86400 == 3600 * t.hour + 60 * (10 * (b[14] - 0x30) + (
                b[15] - 0x30)) + 10 * (b[17] - 0x30) + (b[18] - 0x30)
                &&& t.epoch_seconds as int / 86400 == civil_days(
                    1000 * (b[0] - 0x30) + 100 * (b[1] - 0x30) + 10 * (b[2] - 0x30) + (b[3] - 0x30),
                    10 * (b[5] - 0x30) + (b[6] - 0x30),
                    10 * (b[8] - 0x30) + (b[9] - 0x30),
                )
                &&& t == utc(t.epoch_seconds)
            }
        }),
{
    law_plain_timestamps(s.spec_bytes());
}

/// The index of a category is the number that its four digits stand for, and
/// zero where it is none.
pub proof fn law_category_index(mcc: &str, index: usize)
    requires
        call_ensures(fast_parse_mcc, (mcc,), index),
    ensures
        ({
            let b = mcc.spec_bytes();
            let is_category = b.len() == 4 && forall|i: int|
                0 <= i < 4 ==> 0x30 <= #[trigger] b[i] <= 0x39;
            &&& is_category ==> index == 1000 * (b[0] - 0x30) + 100 * (b[1] - 0x30) + 10 * (b[2]
                - 0x30) + (b[3] - 0x30)
            &&& !is_category ==> index == 0
        }),
{
    let b = mcc.spec_bytes();
    if b.len() == 4 && (forall|i: int| 0 <= i < 4 ==> 0x30 <= #[trigger] b[i] <= 0x39) {
        assert(is_digit(b[0]) && is_digit(b[1]) && is_digit(b[2]) && is_digit(b[3]));
    }
}

} // verus!
