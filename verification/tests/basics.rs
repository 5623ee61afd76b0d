use axil_core::error::AxilError;
use axil_core::hash::sha256_hex;
use axil_core::json::{Number, Value};
use axil_core::order::sort_ranked;
use axil_core::plugin::TimeBucket;
use axil_core::record::{is_internal_table, Record, RecordId};
use axil_core::text::{contains, decimal_text, split_runs, to_ascii_lower, trim, CharClass};
use axil_core::time::{
    day_text, instant_text, micros_text, minute_text, month_start_us, parse_day, parse_instant,
    seconds_since, Timestamp,
};

const NOW: Timestamp = Timestamp { secs: 1_760_000_000, nanos: 0 };

#[test]
fn instants_are_read_and_written() {
    let t = parse_instant("2025-10-09T10:53:20.5+02:00").unwrap();
    assert_eq!(t, Timestamp { secs: 1_760_000_000, nanos: 500_000_000 });
    assert_eq!(instant_text(NOW).as_deref(), Some("2025-10-09T08:53:20+00:00"));
    assert_eq!(parse_instant(&instant_text(t).unwrap()), Some(t));
    assert_eq!(parse_instant("yesterday"), None);
    assert_eq!(instant_text(Timestamp { secs: i64::MAX, nanos: 0 }), None);
    assert_eq!(micros_text(t), "2025-10-09T08:53:20.500000Z");
    assert_eq!(minute_text(t), "2025-10-09 08:53");
}

#[test]
fn days_are_read_and_written() {
    let d = parse_day("2025-10-09").unwrap();
    assert_eq!(day_text(d).as_deref(), Some("2025-10-09"));
    assert_eq!(day_text(1).as_deref(), Some("0001-01-01"));
    assert_eq!(parse_day("2025-02-30"), None);
    assert_eq!(day_text(i32::MAX), None);
    let us = NOW.secs * 1_000_000;
    // 2025-10-01T00:00:00Z.
    assert_eq!(month_start_us(us), 1_759_276_800_000_000);
}

#[test]
fn months_begin_on_their_first_day() {
    let us = |day: &str| (parse_day(day).unwrap() as i64 - 719_163) * 86_400_000_000;
    for (day, first) in [
        ("1970-01-01", "1970-01-01"),
        ("1969-12-31", "1969-12-01"),
        ("2000-02-29", "2000-02-01"),
        ("2000-03-01", "2000-03-01"),
        ("1900-02-28", "1900-02-01"),
        ("1900-03-01", "1900-03-01"),
        ("2024-12-31", "2024-12-01"),
        ("0001-01-31", "0001-01-01"),
        ("2400-02-29", "2400-02-01"),
    ] {
        assert_eq!(month_start_us(us(day) + 86_399_999_999), us(first), "{day}");
    }
}

#[test]
fn white_space_is_what_unicode_says() {
    let ranges = [
        (0x9, 0xd),
        (0x20, 0x20),
        (0x85, 0x85),
        (0xa0, 0xa0),
        (0x1680, 0x1680),
        (0x2000, 0x200a),
        (0x2028, 0x2029),
        (0x202f, 0x202f),
        (0x205f, 0x205f),
        (0x3000, 0x3000),
    ];
    for n in 0..=0x10_ffffu32 {
        if let Some(c) = char::from_u32(n) {
            let white = ranges.iter().any(|(a, b)| *a <= n && n <= *b);
            assert_eq!(!CharClass::Visible.test(c), white, "{n:x}");
        }
    }
}

#[test]
fn seconds_between_instants_are_whole() {
    let later = Timestamp { secs: NOW.secs + 10, nanos: 0 };
    let half = Timestamp { secs: NOW.secs, nanos: 500_000_000 };
    assert_eq!(seconds_since(later, NOW), 10);
    assert_eq!(seconds_since(later, half), 9);
    assert_eq!(seconds_since(half, later), -9);
    assert_eq!(seconds_since(NOW, later), -10);
    // A leap second: 2016-12-31T23:59:60.5 is half a second before the new year.
    let leap = Timestamp { secs: 1_483_228_799, nanos: 1_500_000_000 };
    let year = Timestamp { secs: 1_483_228_800, nanos: 0 };
    assert_eq!(seconds_since(year, leap), 0);
    let minute = Timestamp { secs: 1_483_228_799 - 60, nanos: 0 };
    assert_eq!(seconds_since(leap, minute), 61);
}

#[test]
fn buckets_hold_their_instants() {
    let us = NOW.secs * 1_000_000 + 7;
    assert_eq!(TimeBucket::Hour.truncate_us(us), 1_759_996_800_000_000);
    assert_eq!(TimeBucket::Day.truncate_us(us), 1_759_968_000_000_000);
    // Monday, 2025-10-06.
    assert_eq!(TimeBucket::Week.truncate_us(us), 1_759_708_800_000_000);
    assert_eq!(TimeBucket::Month.truncate_us(us), 1_759_276_800_000_000);
    assert_eq!(TimeBucket::Day.truncate_us(-1), -86_400_000_000);
}

#[test]
fn digests_are_those_of_sha256() {
    assert_eq!(
        sha256_hex(b"abc", 32),
        "ba7816bf8f01cfea414140de5dae2223b00361a396177a9cb410ff61f20015ad"
    );
    assert_eq!(sha256_hex(b"abc", 2), "ba78");
}

#[test]
fn ids_are_ulids() {
    let a = RecordId::new();
    let b = RecordId::new();
    assert!(!a.same(&b));
    assert_eq!(a.as_str().len(), 26);
    assert!(RecordId::from_string(a.as_str()).unwrap().same(&a));
    match RecordId::from_string("nope") {
        Err(AxilError::InvalidQuery(m)) => assert_eq!(m, "invalid record id: nope"),
        _ => panic!("no ULID, no id"),
    }
    let r = Record::new("_x", Value::object(), NOW);
    assert!(r.is_internal());
    assert!(is_internal_table("_x") && !is_internal_table("x"));
    assert!(r.copy().id.same(&r.id));
}

#[test]
fn errors_describe_themselves() {
    for (e, text) in [
        (AxilError::Storage("s".to_string()), "storage error: s"),
        (AxilError::NotFound("n".to_string()), "not found: n"),
        (AxilError::InvalidQuery("q".to_string()), "invalid query: q"),
        (AxilError::Serialization("j".to_string()), "serialization error: j"),
        (AxilError::plugin("p"), "plugin error: p"),
        (
            AxilError::Busy,
            "database busy: already opened for writing by another process",
        ),
    ] {
        assert_eq!(e.message(), text);
        assert_eq!(e.is_busy(), text.starts_with("database busy"));
    }
}

#[test]
fn values_are_maps() {
    let mut v = Value::object();
    v.set("a", Value::count(1));
    v.set("b", Value::text("x"));
    v.set("a", Value::count(2));
    assert_eq!(v.get_u64("a"), Some(2));
    let other = Value::Object(vec![
        ("b".to_string(), Value::text("x")),
        ("a".to_string(), Value::count(2)),
    ]);
    assert!(v.same(&other));
    assert!(v.copy().same(&v));
    v.unset("b");
    assert!(v.get("b").is_none());
    assert!(!v.same(&other));
    let zero = |x: f64| Value::Number(Number::Float(x.to_bits()));
    assert!(zero(0.0).same(&zero(-0.0)));
    assert!(!zero(0.0).same(&Value::count(0)));
}

#[test]
fn texts_are_split_and_trimmed() {
    assert_eq!(trim("  a b \n"), "a b");
    assert_eq!(split_runs("a_1, b-c", CharClass::Identifier), vec!["a_1", "b", "c"]);
    assert_eq!(to_ascii_lower("AbÉ"), "abÉ");
    assert_eq!(decimal_text(18_446_744_073_709_551_615), "18446744073709551615");
    assert!(contains("hello", "ell") && !contains("hello", "elo"));
}

#[test]
fn sorting_is_stable() {
    let words: Vec<String> = ["b", "a", "c", "a"].iter().map(|s| s.to_string()).collect();
    assert_eq!(sort_ranked(words), vec!["a", "a", "b", "c"]);
    assert_eq!(sort_ranked(vec![3u64, 1, 2]), vec![1, 2, 3]);
}

#[test]
fn the_first_day_is_the_first() {
    let first = -8_334_601_228_800;
    assert!(instant_text(Timestamp { secs: first, nanos: 0 }).is_some());
    assert_eq!(instant_text(Timestamp { secs: first - 1, nanos: 0 }), None);
    assert_eq!(month_start_us(-8_334_601_315_200_000_000), 0);
}
