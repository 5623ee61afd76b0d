//! Instants and calendar days.

use vstd::prelude::*;

verus! {

/// Microseconds in a day.
pub const DAY_US: i64 = 86_400_000_000;

/// Seconds in a day.
pub const DAY_SECS: i64 = 86_400;

/// 1970-01-01, counted in days with 0001-01-01 as day 1.
pub const EPOCH_DAY: i64 = 719_163;

/// The first calendar day that can be represented, counted from 1970-01-01.
pub const FIRST_DAY: i64 = -96_465_292;

/// The last calendar day that can be represented, counted from 1970-01-01.
pub const LAST_DAY: i64 = 95_026_236;

/// An instant: whole seconds since 1970-01-01T00:00:00Z, and nanoseconds after them.
#[derive(Clone, Copy, Debug, PartialEq, Eq, Structural)]
pub struct Timestamp {
    pub secs: i64,
    pub nanos: u32,
}

impl Timestamp {
    /// Whether this instant comes before `other`.
    pub open spec fn before(self, other: Timestamp) -> bool {
        self.secs < other.secs || (self.secs == other.secs && self.nanos < other.nanos)
    }

    /// Whether this instant comes before `other`.
    pub fn is_before(self, other: Timestamp) -> (r: bool)
        ensures
            r == self.before(other),
    {
        self.secs < other.secs || (self.secs == other.secs && self.nanos < other.nanos)
    }

    /// Whether the instant can be represented: its day can, and the nanoseconds
    /// stay below a second, or below two where a leap second may stand.
    pub open spec fn valid(self) -> bool {
        &&& FIRST_DAY <= self.day() <= LAST_DAY
        &&& self.nanos < 1_000_000_000 || (self.nanos < 2_000_000_000 && self.secs as int % 60
            == 59)
    }

    /// Whether the instant lies in the years 1 to 9999 and not in a leap second.
    pub open spec fn common(self) -> bool {
        -719_162 <= self.day() <= 2_932_896 && self.nanos < 1_000_000_000
    }

    /// The calendar day of the instant, counted from 1970-01-01.
    pub open spec fn day(self) -> int {
        self.secs as int / DAY_SECS as int
    }
}

/// The instant that a text in the RFC 3339 form names, where it is one.
pub uninterp spec fn rfc3339_instant(s: Seq<char>) -> Option<(i64, u32)>;

/// The calendar day that a text in the form `YYYY-MM-DD` names, counted with
/// 0001-01-01 as day 1, where it is one.
pub uninterp spec fn day_of_text(s: Seq<char>) -> Option<i32>;

/// A calendar day in the form `YYYY-MM-DD`, counted with 0001-01-01 as day 1.
pub uninterp spec fn text_of_day(day: i32) -> Seq<char>;

/// Whether a year has a 29th of February.
pub open spec fn is_leap(y: int) -> bool {
    y % 4 == 0 && (y % 100 != 0 || y % 400 == 0)
}

/// The days of a year before a month, with January as month 1. Those before month 13 are
/// all.
pub open spec fn days_before_month(y: int, m: int) -> int {
    let common: int = if m <= 1 {
        0
    } else if m == 2 {
        31
    } else if m == 3 {
        59
    } else if m == 4 {
        90
    } else if m == 5 {
        120
    } else if m == 6 {
        151
    } else if m == 7 {
        181
    } else if m == 8 {
        212
    } else if m == 9 {
        243
    } else if m == 10 {
        273
    } else if m == 11 {
        304
    } else if m == 12 {
        334
    } else {
        365
    };
    common + if m > 2 && is_leap(y) {
        1int
    } else {
        0
    }
}

/// The first day of a month of the Gregorian calendar, counted from 1970-01-01.
pub open spec fn month_first(y: int, m: int) -> int {
    365 * (y - 1) + (y - 1) / 4 - (y - 1) / 100 + (y - 1) / 400 - 719_162 + days_before_month(y, m)
}

/// The place of a day, counted from 1970-01-01, in a year that begins in March. The day
/// 719468 before is a first of March, from which on the calendar comes back every 146097
/// days: four centuries of 36524 days, the last one longer by a day, each of spans of
/// four years of 1461 days, the last year longer by a day.
pub open spec fn day_of_march_year(day: int) -> int {
    let in_cycle = (day + 719_468) % 146_097;
    let century = if in_cycle == 146_096 {
        3
    } else {
        in_cycle / 36_524
    };
    let in_span = (in_cycle - 36_524 * century) % 1_461;
    let year = if in_span == 1_460 {
        3
    } else {
        in_span / 365
    };
    in_span - 365 * year
}

/// The day of the month at an instant in microseconds since 1970-01-01. From March on,
/// five months have 153 days, and `n` months have `(153 * n + 2) / 5`.
#[verifier::opaque]
pub open spec fn month_day(us: i64) -> int {
    let d = day_of_march_year(us as int / DAY_US as int);
    let months = (5 * d + 2) / 153;
    d - (153 * months + 2) / 5 + 1
}

/// `chrono::DateTime::parse_from_rfc3339`, then `timestamp` and
/// `timestamp_subsec_nanos`: what comes back depends on the text alone.
#[verifier::external_body]
fn chrono_rfc3339(s: &str) -> (r: Option<(i64, u32)>)
    ensures
        r == rfc3339_instant(s@),
{
    match chrono::DateTime::parse_from_rfc3339(s) {
        Ok(t) => Some((t.timestamp(), t.timestamp_subsec_nanos())),
        Err(_) => None,
    }
}

/// An instant in the RFC 3339 form.
pub uninterp spec fn text_of_instant(secs: i64, nanos: u32) -> Seq<char>;

/// `chrono::DateTime::from_timestamp`, then `to_rfc3339`: there is a text for
/// exactly the instants that can be represented, and it depends on the instant
/// alone. In the years 1 to 9999, reading it as `parse_from_rfc3339` does gives
/// the instant back.
#[verifier::external_body]
fn chrono_to_rfc3339(secs: i64, nanos: u32) -> (r: Option<String>)
    ensures
        r is Some <==> (Timestamp { secs, nanos }).valid(),
        r is Some ==> r->0@ == text_of_instant(secs, nanos),
        r is Some && (Timestamp { secs, nanos }).common() ==> rfc3339_instant(r->0@) == Some(
            (secs, nanos),
        ),
{
    match chrono::DateTime::from_timestamp(secs, nanos) {
        Some(t) => Some(t.to_rfc3339()),
        None => None,
    }
}

/// `chrono::NaiveDate::parse_from_str` with the format `%Y-%m-%d`, then
/// `num_days_from_ce`: what comes back depends on the text alone, and is a day
/// that can be represented.
#[verifier::external_body]
fn chrono_parse_day(s: &str) -> (r: Option<i32>)
    ensures
        r == day_of_text(s@),
        r is Some ==> FIRST_DAY + EPOCH_DAY <= r->0 <= LAST_DAY + EPOCH_DAY,
{
    match chrono::NaiveDate::parse_from_str(s, "%Y-%m-%d") {
        Ok(d) => Some(chrono::Datelike::num_days_from_ce(&d)),
        Err(_) => None,
    }
}

/// `chrono::NaiveDate::from_num_days_from_ce_opt`, then `format` with
/// `%Y-%m-%d`: there is a text for exactly the days that can be represented, and
/// it depends on the day alone. In the years 1 to 9999, reading it as
/// `parse_from_str` with that format does gives the day back.
#[verifier::external_body]
fn chrono_day_text(day: i32) -> (r: Option<String>)
    ensures
        r is Some <==> FIRST_DAY + EPOCH_DAY <= day <= LAST_DAY + EPOCH_DAY,
        r is Some ==> r->0@ == text_of_day(day),
        r is Some && 1 <= day <= 3_652_059 ==> day_of_text(r->0@) == Some(day),
{
    match chrono::NaiveDate::from_num_days_from_ce_opt(day) {
        Some(d) => Some(d.format("%Y-%m-%d").to_string()),
        None => None,
    }
}

/// `chrono::DateTime::from_timestamp_micros`, then `Datelike::day`: there is a
/// day of the month for exactly the instants on days that can be represented, and it is
/// that of the Gregorian calendar.
#[verifier::external_body]
fn chrono_month_day(us: i64) -> (r: Option<u32>)
    ensures
        r is Some <==> FIRST_DAY <= us as int / DAY_US as int <= LAST_DAY,
        r is Some ==> r->0 == month_day(us),
{
    match chrono::DateTime::from_timestamp_micros(us) {
        Some(t) => Some(chrono::Datelike::day(&t)),
        None => None,
    }
}

/// The instant that a text in the RFC 3339 form names, where it is one.
pub fn parse_instant(s: &str) -> (r: Option<Timestamp>)
    ensures
        r == instant_of(s@),
{
    match chrono_rfc3339(s) {
        Some(t) => Some(Timestamp { secs: t.0, nanos: t.1 }),
        None => None,
    }
}

/// The instant that a text in the RFC 3339 form names, where it is one.
pub open spec fn instant_of(s: Seq<char>) -> Option<Timestamp> {
    match rfc3339_instant(s) {
        Some(t) => Some(Timestamp { secs: t.0, nanos: t.1 }),
        None => None,
    }
}

/// An instant in the RFC 3339 form, where it can be represented.
pub fn instant_text(t: Timestamp) -> (r: Option<String>)
    ensures
        r is Some <==> t.valid(),
        r is Some ==> r->0@ == text_of_instant(t.secs, t.nanos),
        r is Some && t.common() ==> instant_of(r->0@) == Some(t),
{
    chrono_to_rfc3339(t.secs, t.nanos)
}

/// An instant in the RFC 3339 form, with microseconds and a `Z`.
pub uninterp spec fn text_of_micros(secs: i64, nanos: u32) -> Seq<char>;

/// `chrono::DateTime::from_timestamp`, then `to_rfc3339_opts` with microseconds and
/// a `Z`: there is a text for exactly the instants that can be represented, and it
/// depends on the instant alone.
#[verifier::external_body]
fn chrono_micros_text(secs: i64, nanos: u32) -> (r: Option<String>)
    ensures
        r is Some <==> (Timestamp { secs, nanos }).valid(),
        r is Some ==> r->0@ == text_of_micros(secs, nanos),
{
    match chrono::DateTime::from_timestamp(secs, nanos) {
        Some(t) => Some(t.to_rfc3339_opts(chrono::SecondsFormat::Micros, true)),
        None => None,
    }
}

/// An instant in the RFC 3339 form, with microseconds and a `Z`.
pub fn micros_text(t: Timestamp) -> (r: String)
    requires
        t.valid(),
    ensures
        r@ == text_of_micros(t.secs, t.nanos),
{
    match chrono_micros_text(t.secs, t.nanos) {
        Some(s) => s,
        None => String::new(),
    }
}

/// An instant in the RFC 3339 form.
pub fn rfc3339_text(t: Timestamp) -> (r: String)
    requires
        t.valid(),
    ensures
        r@ == text_of_instant(t.secs, t.nanos),
{
    match instant_text(t) {
        Some(s) => s,
        None => String::new(),
    }
}

/// The calendar day that a text in the form `YYYY-MM-DD` names, where it is one.
pub fn parse_day(s: &str) -> (r: Option<i32>)
    ensures
        r == day_of_text(s@),
        r is Some ==> FIRST_DAY + EPOCH_DAY <= r->0 <= LAST_DAY + EPOCH_DAY,
{
    chrono_parse_day(s)
}

/// A calendar day in the form `YYYY-MM-DD`, where it can be represented.
pub fn day_text(day: i32) -> (r: Option<String>)
    ensures
        r is Some <==> FIRST_DAY + EPOCH_DAY <= day <= LAST_DAY + EPOCH_DAY,
        r is Some ==> r->0@ == text_of_day(day),
        r is Some && 1 <= day <= 3_652_059 ==> day_of_text(r->0@) == Some(day),
{
    chrono_day_text(day)
}

/// The Monday on or before a day that is counted with 0001-01-01, a Monday, as day 1.
pub open spec fn monday_of(day: int) -> int {
    day - (day - 1) % 7
}

/// `a` divided by a positive `b`, rounded down.
pub fn floor_div(a: i64, b: i64) -> (r: i64)
    requires
        b > 0,
    ensures
        r == a as int / b as int,
{
    proof {
        vstd::arithmetic::div_mod::lemma_fundamental_div_mod(a as int, b as int);
        let q = a as int / b as int;
        assert(i64::MIN <= q <= i64::MAX) by (nonlinear_arith)
            requires
                b > 0,
                a as int == (b as int) * q + (a as int) % (b as int),
                0 <= (a as int) % (b as int) < b,
                i64::MIN <= a <= i64::MAX,
        ;
    }
    a.checked_div_euclid(b).unwrap()
}

/// What remains of `a` after dividing by a positive `b`, never negative.
pub fn floor_mod(a: i64, b: i64) -> (r: i64)
    requires
        b > 0,
    ensures
        r == a as int % b as int,
        0 <= r < b,
{
    a.checked_rem_euclid(b).unwrap()
}

/// The first microsecond of the month of an instant; of 1970-01 for an instant
/// that cannot be represented.
pub open spec fn month_start(us: i64) -> int {
    let day = us as int / DAY_US as int;
    if FIRST_DAY <= day <= LAST_DAY {
        (day - (month_day(us) - 1)) * DAY_US
    } else {
        0
    }
}

/// The days before a year that begins in March, from 0000-03-01 on, by the parts of its
/// number.
proof fn lemma_march_years(cycle: int, century: int, span: int, year: int)
    requires
        0 <= century <= 3,
        0 <= span <= 24,
        0 <= year <= 3,
    ensures
        ({
            let y = 400 * cycle + 100 * century + 4 * span + year;
            365 * y + y / 4 - y / 100 + y / 400 == 146_097 * cycle + 36_524 * century + 1_461 * span
                + 365 * year
        }),
{
    let y = 400 * cycle + 100 * century + 4 * span + year;
    assert(y / 4 == 100 * cycle + 25 * century + span);
    assert(y / 100 == 4 * cycle + century);
    assert(y / 400 == cycle);
}

/// One more fourth year is over where the number of the year is divisible by four.
proof fn lemma_fourth_years(y: int)
    ensures
        y / 4 == (y - 1) / 4 + if y % 4 == 0 {
            1int
        } else {
            0
        },
{
}

/// One more century is over where the number of the year is divisible by a hundred.
proof fn lemma_centuries(y: int)
    ensures
        y / 100 == (y - 1) / 100 + if y % 100 == 0 {
            1int
        } else {
            0
        },
        y % 100 == 0 ==> y % 4 == 0,
{
}

/// One more span of four centuries is over where the number of the year is divisible by
/// four hundred.
proof fn lemma_four_centuries(y: int)
    ensures
        y / 400 == (y - 1) / 400 + if y % 400 == 0 {
            1int
        } else {
            0
        },
        y % 400 == 0 ==> y % 100 == 0,
{
}

/// A year that begins in March begins 59 or 60 days into the year of that number, and
/// its last two months are in the next one.
proof fn lemma_march(y: int)
    ensures
        month_first(y, 3) == 365 * y + y / 4 - y / 100 + y / 400 - 719_468,
        month_first(y + 1, 1) == month_first(y, 3) + 306,
{
    lemma_fourth_years(y);
    lemma_centuries(y);
    lemma_four_centuries(y);
}

/// The year and the month of a day, counted from 1970-01-01.
spec fn month_of(day: int) -> (int, int) {
    let in_cycle = (day + 719_468) % 146_097;
    let century = if in_cycle == 146_096 {
        3
    } else {
        in_cycle / 36_524
    };
    let in_century = in_cycle - 36_524 * century;
    let in_span = in_century % 1_461;
    let year = if in_span == 1_460 {
        3
    } else {
        in_span / 365
    };
    let y = 400 * ((day + 719_468) / 146_097) + 100 * century + 4 * (in_century / 1_461) + year;
    let months = (5 * day_of_march_year(day) + 2) / 153;
    if months < 10 {
        (y, months + 3)
    } else {
        (y + 1, months - 9)
    }
}

/// A day lies in its month, as many days after the first as its day of the month says.
#[verifier::spinoff_prover]
proof fn lemma_month_day(day: int)
    ensures
        ({
            let (y, m) = month_of(day);
            let d = day_of_march_year(day);
            let n = d - (153 * ((5 * d + 2) / 153) + 2) / 5 + 1;
            &&& 1 <= m <= 12
            &&& 1 <= n <= 31
            &&& day == month_first(y, m) + n - 1
            &&& day < month_first(y, m + 1)
        }),
{
    let cycle = (day + 719_468) / 146_097;
    let in_cycle = (day + 719_468) % 146_097;
    let century = if in_cycle == 146_096 {
        3
    } else {
        in_cycle / 36_524
    };
    let in_century = in_cycle - 36_524 * century;
    let span = in_century / 1_461;
    let in_span = in_century % 1_461;
    let year = if in_span == 1_460 {
        3
    } else {
        in_span / 365
    };
    let d = in_span - 365 * year;
    let y = 400 * cycle + 100 * century + 4 * span + year;
    assert(0 <= century <= 3);
    assert(0 <= in_century <= 36_524);
    assert(in_century == 36_524 ==> century == 3);
    assert(0 <= span <= 24);
    assert(0 <= year <= 3);
    assert(0 <= d <= 365);
    assert(d == 365 ==> year == 3 && in_span == 1_460);
    lemma_march_years(cycle, century, span, year);
    lemma_march(y);
    assert(day == month_first(y, 3) + d);
    assert(d == 365 ==> is_leap(y + 1)) by {
        if d == 365 {
            assert(span == 24 ==> in_century == 36_524);
            if span == 24 {
                assert(y + 1 == 400 * (cycle + 1));
            } else {
                assert((y + 1) % 4 == 0);
                assert((y + 1) % 100 == 4 * (span + 1));
            }
        }
    }
    let months = (5 * d + 2) / 153;
    assert(0 <= months <= 11);
    assert(day_of_march_year(day) == d);
    let before = (153 * months + 2) / 5;
    if months == 0 {
        assert(before == 0);
    } else if months == 1 {
        assert(before == 31);
    } else if months == 2 {
        assert(before == 61);
    } else if months == 3 {
        assert(before == 92);
    } else if months == 4 {
        assert(before == 122);
    } else if months == 5 {
        assert(before == 153);
    } else if months == 6 {
        assert(before == 184);
    } else if months == 7 {
        assert(before == 214);
    } else if months == 8 {
        assert(before == 245);
    } else if months == 9 {
        assert(before == 275);
    } else if months == 10 {
        assert(before == 306);
    } else {
        assert(before == 337);
    }
}

/// The month of an instant begins with the first day of a month of the calendar, and the
/// instant is before the next month.
pub proof fn months_begin_on_the_first(us: i64)
    requires
        FIRST_DAY <= us as int / DAY_US as int <= LAST_DAY,
    ensures
        exists|y: int, m: int|
            1 <= m <= 12 && #[trigger] month_first(y, m) * DAY_US == month_start(us) && month_start(
                us,
            ) <= us < month_first(y, m + 1) * DAY_US,
{
    let day = us as int / DAY_US as int;
    reveal(month_day);
    lemma_month_day(day);
    let (y, m) = month_of(day);
    assert(month_start(us) == month_first(y, m) * DAY_US);
}

/// The first microsecond of the month of an instant.
pub fn month_start_us(us: i64) -> (r: i64)
    ensures
        r == month_start(us),
{
    proof {
        reveal(month_day);
        lemma_month_day(us as int / DAY_US as int);
    }
    match chrono_month_day(us) {
        Some(d) => (floor_div(us, DAY_US) - (d as i64 - 1)) * DAY_US,
        None => 0,
    }
}

/// Leap seconds that the difference of two instants counts: that of the earlier time
/// of day.
pub open spec fn leap_between(a: Timestamp, b: Timestamp) -> int {
    let x = a.secs as int % DAY_SECS as int;
    let y = b.secs as int % DAY_SECS as int;
    if x > y && b.nanos >= 1_000_000_000 {
        1
    } else if x < y && a.nanos >= 1_000_000_000 {
        -1
    } else {
        0
    }
}

/// The nanoseconds from `b` to `a`.
pub open spec fn nanos_between(a: Timestamp, b: Timestamp) -> int {
    (a.secs - b.secs + leap_between(a, b)) * 1_000_000_000 + (a.nanos - b.nanos)
}

/// The whole seconds from `b` to `a`, rounded towards zero.
pub open spec fn seconds_between(a: Timestamp, b: Timestamp) -> int {
    let n = nanos_between(a, b);
    if n >= 0 {
        n / 1_000_000_000
    } else {
        -((-n) / 1_000_000_000)
    }
}

/// `chrono::DateTime::signed_duration_since`, then `num_seconds`, for two instants
/// made by `from_timestamp`: there is a number for exactly the instants that can be
/// represented, and it is that of the whole seconds between them.
#[verifier::external_body]
fn chrono_seconds(a: Timestamp, b: Timestamp) -> (r: Option<i64>)
    ensures
        match r {
            Some(n) => a.valid() && b.valid() && n == seconds_between(a, b),
            None => !(a.valid() && b.valid()),
        },
{
    let x = chrono::DateTime::from_timestamp(a.secs, a.nanos);
    let y = chrono::DateTime::from_timestamp(b.secs, b.nanos);
    match (x, y) {
        (Some(x), Some(y)) => Some(x.signed_duration_since(y).num_seconds()),
        _ => None,
    }
}

/// The whole seconds from `b` to `a`, rounded towards zero.
pub fn seconds_since(a: Timestamp, b: Timestamp) -> (r: i64)
    requires
        a.valid(),
        b.valid(),
    ensures
        r == seconds_between(a, b),
{
    match chrono_seconds(a, b) {
        Some(n) => n,
        None => 0,
    }
}

/// An instant in the form `YYYY-MM-DD HH:MM`.
pub uninterp spec fn text_of_minute(secs: i64, nanos: u32) -> Seq<char>;

/// `chrono::DateTime::from_timestamp`, then `format` with `%Y-%m-%d %H:%M`: there is a
/// text for exactly the instants that can be represented, and it depends on the
/// instant alone.
#[verifier::external_body]
fn chrono_minute_text(secs: i64, nanos: u32) -> (r: Option<String>)
    ensures
        r is Some <==> (Timestamp { secs, nanos }).valid(),
        r is Some ==> r->0@ == text_of_minute(secs, nanos),
{
    match chrono::DateTime::from_timestamp(secs, nanos) {
        Some(t) => Some(t.format("%Y-%m-%d %H:%M").to_string()),
        None => None,
    }
}

/// An instant in the form `YYYY-MM-DD HH:MM`.
pub fn minute_text(t: Timestamp) -> (r: String)
    requires
        t.valid(),
    ensures
        r@ == text_of_minute(t.secs, t.nanos),
{
    match chrono_minute_text(t.secs, t.nanos) {
        Some(s) => s,
        None => String::new(),
    }
}

/// Of two different instants one comes before the other, and not the other way round; an
/// earlier second comes first, and within a second the earlier nanosecond.
pub proof fn instants_are_in_order(a: Timestamp, b: Timestamp, c: Timestamp, r: bool)
    requires
        call_ensures(Timestamp::is_before, (a, b), r),
    ensures
        a.secs < b.secs ==> r,
        a.secs > b.secs ==> !r,
        a.secs == b.secs ==> (r <==> a.nanos < b.nanos),
        r && b.before(c) ==> a.before(c),
        a != b ==> a.before(b) || b.before(a),
{
}

/// The week of a day begins at most six days before it, on a day that is a whole number of
/// weeks away from any other such beginning; a day and the one a week later begin theirs a
/// week apart.
pub proof fn weeks_begin_seven_days_apart(day: int)
    ensures
        monday_of(day) <= day <= monday_of(day) + 6,
        (monday_of(day) - 1) % 7 == 0,
        monday_of(day + 7) == monday_of(day) + 7,
        monday_of(1) == 1,
{
}

/// Division rounds down: what remains is never negative and below the divisor.
pub proof fn division_rounds_down(a: i64, b: i64, q: i64, m: i64)
    requires
        b > 0,
        call_ensures(floor_div, (a, b), q),
        call_ensures(floor_mod, (a, b), m),
    ensures
        q * b + m == a,
        0 <= m < b,
{
    assert((a as int / b as int) * b + a as int % b as int == a) by (nonlinear_arith)
        requires
            b > 0,
    ;
}

/// Between two instants lie as many seconds as they are apart, with those of a part of a
/// second left out, and as many less than none the other way round. None of them is a leap
/// second here.
pub proof fn seconds_are_counted_whole(a: Timestamp, b: Timestamp, r: i64, s: i64)
    requires
        a.valid(),
        b.valid(),
        a.nanos < 1_000_000_000,
        b.nanos < 1_000_000_000,
        call_ensures(seconds_since, (a, b), r),
        call_ensures(seconds_since, (b, a), s),
    ensures
        s == -r,
        a.nanos == b.nanos ==> r == a.secs - b.secs,
        a.secs >= b.secs && a.nanos >= b.nanos ==> r == a.secs - b.secs,
        a.secs > b.secs && a.nanos < b.nanos ==> r == a.secs - b.secs - 1,
{
    assert(leap_between(a, b) == 0 && leap_between(b, a) == 0);
    let n = nanos_between(a, b);
    assert(n == (a.secs - b.secs) * 1_000_000_000 + (a.nanos - b.nanos));
    assert(nanos_between(b, a) == -n);
}

} // verus!
