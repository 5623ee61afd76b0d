//! Checks that run in the background: sessions left open, slow queries, growth of the
//! files, and vectors of another model.

use crate::db::rows::{find_row, first_row, is_row, records_view, row_is};
use crate::json::{Json, Value};
use crate::record::{Record, RecordView};
use crate::text::{count_text, decimal, decimal_text, join2, join4, join5, join9, same_text};
use crate::time::{
    minute_text, rfc3339_text, seconds_between, seconds_since, text_of_instant, text_of_minute,
    Timestamp, DAY_SECS,
};
use vstd::prelude::*;

verus! {

/// What a check found.
#[derive(Clone, Debug)]
pub struct DetectorResult {
    /// The name of the check.
    pub name: String,
    /// Whether it found something.
    pub triggered: bool,
    /// What it found, in words.
    pub detail: String,
    /// How bad that is: `info`, `warning` or `error`.
    pub severity: String,
}

/// What a check found, in the model.
pub struct ResultView {
    pub name: Seq<char>,
    pub triggered: bool,
    pub detail: Seq<char>,
    pub severity: Seq<char>,
}

impl View for DetectorResult {
    type V = ResultView;

    open spec fn view(&self) -> ResultView {
        ResultView {
            name: self.name@,
            triggered: self.triggered,
            detail: self.detail@,
            severity: self.severity@,
        }
    }
}

/// What a check found.
fn result(name: &str, triggered: bool, detail: String, severity: &str) -> (r: DetectorResult)
    ensures
        r@ == (ResultView { name: name@, triggered, detail: detail@, severity: severity@ }),
{
    DetectorResult {
        name: name.to_owned(),
        triggered,
        detail,
        severity: severity.to_owned(),
    }
}

/// How bad a finding is that is at worst a warning.
pub open spec fn warning_if(triggered: bool) -> Seq<char> {
    if triggered {
        "warning"@
    } else {
        "info"@
    }
}

/// How bad a finding is that is at worst a warning.
fn warn_if(triggered: bool) -> (r: &'static str)
    ensures
        r@ == warning_if(triggered),
{
    if triggered {
        "warning"
    } else {
        "info"
    }
}

/// What the checks found, in order. The last is missing where there is no vector index.
pub fn run_all_detectors(
    sessions: DetectorResult,
    queries: DetectorResult,
    growth: DetectorResult,
    drift: Option<DetectorResult>,
) -> (r: Vec<DetectorResult>)
    ensures
        r@ == match drift {
            Some(d) => seq![sessions, queries, growth, d],
            None => seq![sessions, queries, growth],
        },
{
    let mut v: Vec<DetectorResult> = Vec::new();
    v.push(sessions);
    v.push(queries);
    v.push(growth);
    if let Some(d) = drift {
        v.push(d);
    }
    v
}

/// Whether a session is open and began more than a day ago.
pub open spec fn left_open(r: RecordView, now: Timestamp) -> bool {
    r.data.text_member("status"@) == Some("active"@) && r.created_at.before(
        Timestamp { secs: (now.secs - DAY_SECS) as i64, nanos: now.nanos },
    )
}

/// How many sessions were left open.
pub open spec fn left_open_count(s: Seq<RecordView>, now: Timestamp) -> nat
    decreases s.len(),
{
    if s.len() == 0 {
        0
    } else {
        left_open_count(s.drop_last(), now) + (if left_open(s.last(), now) {
            1nat
        } else {
            0nat
        })
    }
}

/// When the oldest session that was left open began.
pub open spec fn oldest_open(s: Seq<RecordView>, now: Timestamp) -> Option<Timestamp>
    decreases s.len(),
{
    if s.len() == 0 {
        None
    } else {
        let before = oldest_open(s.drop_last(), now);
        let t = s.last().created_at;
        if !left_open(s.last(), now) {
            before
        } else {
            match before {
                Some(b) => if t.before(b) {
                    Some(t)
                } else {
                    before
                },
                None => Some(t),
            }
        }
    }
}

/// What is found of the sessions.
pub open spec fn stale_sessions_of(s: Option<Seq<RecordView>>, now: Timestamp) -> ResultView {
    match s {
        None => ResultView {
            name: "stale_sessions"@,
            triggered: false,
            detail: "no sessions table"@,
            severity: "info"@,
        },
        Some(list) => {
            let n = left_open_count(list, now);
            let triggered = n > 0;
            ResultView {
                name: "stale_sessions"@,
                triggered,
                detail: match oldest_open(list, now) {
                    Some(t) => decimal(n) + " session(s) active for >24h (oldest: "@
                        + text_of_minute(t.secs, t.nanos) + ")"@,
                    None => "no stale sessions"@,
                },
                severity: warning_if(triggered),
            }
        },
    }
}

/// Whether the times of records can be represented.
pub open spec fn times_fit(r: Seq<Record>) -> bool {
    forall|i: int| 0 <= i < r.len() ==> (#[trigger] r[i]).created_at.valid()
}

/// Sessions that were left open are those that are counted.
proof fn lemma_open_counted(s: Seq<RecordView>, now: Timestamp)
    ensures
        left_open_count(s, now) > 0 <==> oldest_open(s, now) is Some,
        left_open_count(s, now) <= s.len(),
    decreases s.len(),
{
    if s.len() > 0 {
        lemma_open_counted(s.drop_last(), now);
    }
}

/// Looks for sessions that were open for more than a day. `None` stands for a table of
/// sessions that cannot be read.
pub fn detect_stale_sessions(sessions: Option<&Vec<Record>>, now: Timestamp) -> (r: DetectorResult)
    requires
        now.secs >= i64::MIN + DAY_SECS,
        sessions matches Some(s) ==> times_fit(s@),
    ensures
        r@ == stale_sessions_of(
            match sessions {
                Some(s) => Some(records_view(s@)),
                None => None,
            },
            now,
        ),
{
    let list = match sessions {
        Some(s) => s,
        None => {
            return result("stale_sessions", false, "no sessions table".to_owned(), "info");
        },
    };
    let cutoff = Timestamp { secs: now.secs - DAY_SECS, nanos: now.nanos };
    let ghost all = records_view(list@);
    let mut n: usize = 0;
    let mut oldest: Option<Timestamp> = None;
    let mut i: usize = 0;
    assert(all.take(0).len() == 0);
    while i < list.len()
        invariant
            i <= list@.len(),
            n <= i,
            all == records_view(list@),
            times_fit(list@),
            cutoff.secs == now.secs - DAY_SECS,
            cutoff.nanos == now.nanos,
            n == left_open_count(all.take(i as int), now),
            oldest == oldest_open(all.take(i as int), now),
            oldest matches Some(t) ==> t.valid(),
        decreases list@.len() - i,
    {
        let r = &list[i];
        proof {
            assert(all.take(i + 1).drop_last() =~= all.take(i as int));
            assert(all.take(i + 1).last() == r@);
            assert(list@[i as int].created_at.valid());
        }
        if is_row(r, "status", "active") && r.created_at.is_before(cutoff) {
            n += 1;
            oldest = match oldest {
                Some(b) => if r.created_at.is_before(b) {
                    Some(r.created_at)
                } else {
                    Some(b)
                },
                None => Some(r.created_at),
            };
        }
        i += 1;
    }
    assert(all.take(i as int) =~= all);
    proof {
        lemma_open_counted(all, now);
    }
    let detail = match oldest {
        Some(t) => join4(
            count_text(n).as_str(),
            " session(s) active for >24h (oldest: ",
            minute_text(t).as_str(),
            ")",
        ),
        None => "no stale sessions".to_owned(),
    };
    result("stale_sessions", n > 0, detail, warn_if(n > 0))
}

/// Looks at the slow queries that were logged, given their number and how long the
/// worst of them took, in milliseconds.
pub fn detect_slow_query_patterns(count: usize, worst: &str) -> (r: DetectorResult)
    ensures
        r@ == (ResultView {
            name: "slow_queries"@,
            triggered: count > 0,
            detail: if count > 0 {
                decimal(count as nat) + " slow queries recorded (worst: "@ + worst@ + "ms)"@
            } else {
                "no slow queries"@
            },
            severity: warning_if(count >= 10),
        }),
{
    let detail = if count > 0 {
        join4(count_text(count).as_str(), " slow queries recorded (worst: ", worst, "ms)")
    } else {
        "no slow queries".to_owned()
    };
    result("slow_queries", count > 0, detail, warn_if(count >= 10))
}

/// The name under which sizes are remembered.
pub const GROWTH_DETECTOR: &'static str = "storage_growth";

/// The place of the size that was remembered last, where there is one; the last of
/// those at the same time.
pub open spec fn last_baseline_of(rows: Seq<RecordView>) -> Option<int>
    decreases rows.len(),
{
    if rows.len() == 0 {
        None
    } else {
        let before = last_baseline_of(rows.drop_last());
        let r = rows.last();
        if !row_is(r, "detector"@, "storage_growth"@) {
            before
        } else {
            match before {
                Some(i) => if r.created_at.before(rows[i].created_at) {
                    before
                } else {
                    Some(rows.len() - 1)
                },
                None => Some(rows.len() - 1),
            }
        }
    }
}

/// The place of the size that was remembered last.
fn last_baseline(rows: &Vec<Record>) -> (r: Option<usize>)
    ensures
        match r {
            Some(i) => i < rows@.len() && last_baseline_of(records_view(rows@)) == Some(i as int),
            None => last_baseline_of(records_view(rows@)) is None,
        },
{
    let ghost all = records_view(rows@);
    let mut at: Option<usize> = None;
    let mut i: usize = 0;
    assert(all.take(0).len() == 0);
    while i < rows.len()
        invariant
            i <= rows@.len(),
            all == records_view(rows@),
            match at {
                Some(k) => k < i && last_baseline_of(all.take(i as int)) == Some(k as int),
                None => last_baseline_of(all.take(i as int)) is None,
            },
        decreases rows@.len() - i,
    {
        proof {
            assert(all.take(i + 1).drop_last() =~= all.take(i as int));
            assert(all.take(i + 1).last() == rows@[i as int]@);
            if let Some(k) = at {
                assert(all.take(i + 1)[k as int] == rows@[k as int]@);
            }
        }
        if is_row(&rows[i], "detector", "storage_growth") {
            let newer = match at {
                Some(k) => !rows[i].created_at.is_before(rows[k].created_at),
                None => true,
            };
            if newer {
                at = Some(i);
            }
        }
        i += 1;
    }
    assert(all.take(i as int) =~= all);
    at
}

/// How the files grew since their size was remembered last.
#[derive(Clone, Copy, Debug, PartialEq, Eq, Structural)]
pub struct Growth {
    /// The size that was remembered.
    pub previous: u64,
    /// How many bytes were added.
    pub bytes: u64,
    /// In how many hours, one at least.
    pub hours: u64,
}

/// How the files grew since a size was remembered.
pub open spec fn growth_of(row: RecordView, size: u64, now: Timestamp) -> Growth {
    let previous = match row.data.count_member("size_bytes"@) {
        Some(n) => n,
        None => 0,
    };
    let hours = seconds_between(now, row.created_at) / 3600;
    Growth {
        previous,
        bytes: if size > previous {
            (size - previous) as u64
        } else {
            0
        },
        hours: if hours > 1 {
            hours as u64
        } else {
            1
        },
    }
}

/// How the files grew since their size was remembered last, where it was.
pub fn growth_since(rows: &Vec<Record>, size: u64, now: Timestamp) -> (r: Option<Growth>)
    requires
        now.valid(),
        times_fit(rows@),
    ensures
        r == match last_baseline_of(records_view(rows@)) {
            Some(i) => Some(growth_of(records_view(rows@)[i], size, now)),
            None => None,
        },
{
    let i = match last_baseline(rows) {
        Some(i) => i,
        None => {
            return None;
        },
    };
    let row = &rows[i];
    assert(records_view(rows@)[i as int] == row@);
    assert(row.created_at.valid());
    let previous = match row.data.get_u64("size_bytes") {
        Some(n) => n,
        None => 0,
    };
    let secs = seconds_since(now, row.created_at);
    let hours: u64 = if secs >= 7200 {
        (secs / 3600) as u64
    } else {
        1
    };
    let bytes: u64 = if size > previous {
        size - previous
    } else {
        0
    };
    Some(Growth { previous, bytes, hours })
}

/// What is found of the growth of the files, given how fast it is: whether it is more
/// than ten megabytes in a day, and the rate in words, with one digit behind the point
/// for fast growth and two otherwise.
pub open spec fn storage_growth_of(
    size: u64,
    growth: Option<Growth>,
    fast: bool,
    rate: Seq<char>,
) -> ResultView {
    let triggered = growth is Some && fast;
    ResultView {
        name: "storage_growth"@,
        triggered,
        detail: match growth {
            None => "first measurement: "@ + decimal(size as nat) + " bytes"@,
            Some(g) => if fast {
                "growing at "@ + rate + " MB/day ("@ + decimal(g.previous as nat) + " → "@
                    + decimal(size as nat) + " bytes in "@ + decimal(g.hours as nat) + "h)"@
            } else {
                "growth rate: "@ + rate + " MB/day ("@ + decimal(size as nat) + " bytes total)"@
            },
        },
        severity: warning_if(triggered),
    }
}

/// Looks at the growth of the files.
pub fn detect_storage_growth(size: u64, growth: Option<Growth>, fast: bool, rate: &str) -> (r:
    DetectorResult)
    ensures
        r@ == storage_growth_of(size, growth, fast, rate@),
{
    let now = decimal_text(size);
    match growth {
        None => {
            let first = join2("first measurement: ", now.as_str());
            result("storage_growth", false, join2(first.as_str(), " bytes"), "info")
        },
        Some(g) => {
            let detail = if fast {
                join9(
                    "growing at ",
                    rate,
                    " MB/day (",
                    decimal_text(g.previous).as_str(),
                    " → ",
                    now.as_str(),
                    " bytes in ",
                    decimal_text(g.hours).as_str(),
                    "h)",
                )
            } else {
                join5("growth rate: ", rate, " MB/day (", now.as_str(), " bytes total)")
            };
            result("storage_growth", fast, detail, warn_if(fast))
        },
    }
}

/// What is remembered of the size of the files.
pub fn baseline_data(size: u64, now: Timestamp) -> (r: Value)
    requires
        now.valid(),
    ensures
        r.model() == Json::Object(Map::empty()).with_member(
            "detector"@,
            Json::Text("storage_growth"@),
        ).with_member("size_bytes"@, Json::PosInt(size)).with_member(
            "measured_at"@,
            Json::Text(text_of_instant(now.secs, now.nanos)),
        ),
{
    let mut v = Value::object();
    v.set("detector", Value::text("storage_growth"));
    v.set("size_bytes", Value::count(size));
    v.set("measured_at", Value::Text(rfc3339_text(now)));
    v
}

/// The value of the first setting with a key.
pub open spec fn setting_of(rows: Seq<RecordView>, key: Seq<char>) -> Option<Seq<char>> {
    let i = first_row(rows, "key"@, key) as int;
    if i < rows.len() {
        rows[i].data.text_member("value"@)
    } else {
        None
    }
}

/// The value of the first setting with a key.
fn setting<'a>(rows: &'a Vec<Record>, key: &str) -> (r: Option<&'a str>)
    ensures
        match r {
            Some(t) => setting_of(records_view(rows@), key@) == Some(t@),
            None => setting_of(records_view(rows@), key@) is None,
        },
{
    match find_row(rows, "key", key) {
        Some(i) => {
            assert(records_view(rows@)[i as int] == rows@[i as int]@);
            rows[i].data.get_str("value")
        },
        None => None,
    }
}

/// What is found of the models of the vectors.
pub open spec fn drift_of(rows: Seq<RecordView>) -> ResultView {
    let stored = setting_of(rows, "embedding_model"@);
    let current = setting_of(rows, "current_embedding_model"@);
    let triggered = stored is Some && current is Some && stored != current;
    ResultView {
        name: "embedding_drift"@,
        triggered,
        detail: match (stored, current) {
            (Some(s), Some(c)) => if s != c {
                "vectors indexed with '"@ + s + "' but current model is '"@ + c + "'"@
            } else {
                "model consistent: '"@ + c + "'"@
            },
            _ => "no model metadata stored (run `axil doctor` to check)"@,
        },
        severity: if triggered {
            "error"@
        } else {
            "info"@
        },
    }
}

/// Looks for vectors of another model than the present one, given the settings. There
/// is nothing to look for without a vector index.
pub fn detect_embedding_drift(vector_index: bool, settings: &Vec<Record>) -> (r: Option<
    DetectorResult,
>)
    ensures
        match r {
            Some(x) => vector_index && x@ == drift_of(records_view(settings@)),
            None => !vector_index,
        },
{
    if !vector_index {
        return None;
    }
    let stored = setting(settings, "embedding_model");
    let current = setting(settings, "current_embedding_model");
    match (stored, current) {
        (Some(s), Some(c)) => if same_text(s, c) {
            let text = join2("model consistent: '", c);
            Some(result("embedding_drift", false, join2(text.as_str(), "'"), "info"))
        } else {
            let text = join5("vectors indexed with '", s, "' but current model is '", c, "'");
            Some(result("embedding_drift", true, text, "error"))
        },
        _ => Some(
            result(
                "embedding_drift",
                false,
                "no model metadata stored (run `axil doctor` to check)".to_owned(),
                "info",
            ),
        ),
    }
}

/// A session that is active and began over a day ago is found, and warned of; sessions that
/// ended or that began within a day are not.
pub proof fn sessions_left_open_are_found(
    sessions: &Vec<Record>,
    now: Timestamp,
    r: DetectorResult,
    i: int,
)
    requires
        now.secs >= i64::MIN + 86_400,
        times_fit(sessions@),
        call_ensures(detect_stale_sessions, (Some(sessions), now), r),
        0 <= i < sessions@.len(),
    ensures
        ({
            let x = sessions@[i];
            let old = x.created_at.secs + 86_400 < now.secs || x.created_at.secs + 86_400
                == now.secs && x.created_at.nanos < now.nanos;
            x.data.model().member("status"@) == Some(Json::Text("active"@)) && old ==> r.triggered
                && r.severity@ == "warning"@
        }),
        (forall|j: int|
            #![trigger sessions@[j]]
            0 <= j < sessions@.len() ==> sessions@[j].data.model().member("status"@) != Some(
                Json::Text("active"@),
            ) || sessions@[j].created_at.secs + 86_400 > now.secs) ==> !r.triggered && r.severity@
            == "info"@,
{
    let v = records_view(sessions@);
    assert(v[i] == sessions@[i]@);
    lemma_open(v, now, i);
    assert(DAY_SECS == 86_400);
    if forall|j: int|
        #![trigger sessions@[j]]
        0 <= j < sessions@.len() ==> sessions@[j].data.model().member("status"@) != Some(
            Json::Text("active"@),
        ) || sessions@[j].created_at.secs + 86_400 > now.secs {
        assert forall|j: int| 0 <= j < v.len() implies !left_open(#[trigger] v[j], now) by {
            assert(v[j] == sessions@[j]@);
        }
        lemma_none_open(v, now);
    }
}

/// A session that was left open counts.
proof fn lemma_open(s: Seq<RecordView>, now: Timestamp, i: int)
    requires
        0 <= i < s.len(),
    ensures
        left_open(s[i], now) ==> left_open_count(s, now) > 0,
    decreases s.len(),
{
    if i < s.len() - 1 {
        lemma_open(s.drop_last(), now, i);
        assert(s.drop_last()[i] == s[i]);
    }
}

/// Without sessions that were left open, none counts.
proof fn lemma_none_open(s: Seq<RecordView>, now: Timestamp)
    requires
        forall|i: int| 0 <= i < s.len() ==> !left_open(#[trigger] s[i], now),
    ensures
        left_open_count(s, now) == 0,
    decreases s.len(),
{
    if s.len() > 0 {
        let d = s.drop_last();
        assert forall|i: int| 0 <= i < d.len() implies !left_open(#[trigger] d[i], now) by {
            assert(d[i] == s[i]);
        }
        assert(s.last() == s[s.len() - 1]);
        lemma_none_open(d, now);
    }
}

/// The oldest session that was left open began no later than any other.
pub proof fn the_oldest_session_is_shown(s: Seq<RecordView>, now: Timestamp, i: int)
    requires
        0 <= i < s.len(),
        left_open(s[i], now),
    ensures
        oldest_open(s, now) matches Some(t) && !s[i].created_at.before(t),
        exists|j: int|
            0 <= j < s.len() && left_open(#[trigger] s[j], now) && oldest_open(s, now) == Some(
                s[j].created_at,
            ),
    decreases s.len(),
{
    let d = s.drop_last();
    if i < s.len() - 1 {
        assert(d[i] == s[i]);
        the_oldest_session_is_shown(d, now, i);
        let j = choose|j: int|
            0 <= j < d.len() && left_open(#[trigger] d[j], now) && oldest_open(d, now) == Some(
                d[j].created_at,
            );
        assert(s[j] == d[j]);
        assert(s.last() == s[s.len() - 1]);
    } else if oldest_open(d, now) is Some {
        let j = lemma_oldest_from(d, now);
        assert(s[j] == d[j]);
        assert(s[i] == s.last());
    } else {
        assert(s[i] == s.last());
    }
}

/// The oldest session that was left open is one of them.
proof fn lemma_oldest_from(s: Seq<RecordView>, now: Timestamp) -> (j: int)
    requires
        oldest_open(s, now) is Some,
    ensures
        0 <= j < s.len(),
        left_open(s[j], now),
        oldest_open(s, now) == Some(s[j].created_at),
    decreases s.len(),
{
    let d = s.drop_last();
    if left_open(s.last(), now) && oldest_open(s, now) == Some(s.last().created_at) {
        s.len() - 1
    } else {
        let j = lemma_oldest_from(d, now);
        assert(s[j] == d[j]);
        j
    }
}

/// Slow queries are found from the first on, and warned of from the tenth on.
pub proof fn ten_slow_queries_are_a_warning(count: usize, worst: &str, r: DetectorResult)
    requires
        call_ensures(detect_slow_query_patterns, (count, worst), r),
    ensures
        r.triggered <==> count > 0,
        count >= 10 ==> r.severity@ == "warning"@,
        count < 10 ==> r.severity@ == "info"@,
        r.name@ == "slow_queries"@,
{
}

/// Growth is measured against the size that was remembered last: what was added is what the
/// size has over that one, in the hours since, one at least.
pub proof fn growth_is_measured_from_the_last_size(
    rows: &Vec<Record>,
    size: u64,
    now: Timestamp,
    r: Option<Growth>,
    i: int,
    n: u64,
)
    requires
        now.valid(),
        times_fit(rows@),
        call_ensures(growth_since, (rows, size, now), r),
        0 <= i < rows@.len(),
        rows@[i].data.model().member("detector"@) == Some(Json::Text("storage_growth"@)),
        rows@[i].data.model().member("size_bytes"@) == Some(Json::PosInt(n)),
        forall|j: int|
            #![trigger rows@[j]]
            0 <= j < rows@.len() && j != i && rows@[j].data.model().member("detector"@) == Some(
                Json::Text("storage_growth"@),
            ) ==> rows@[j].created_at.before(rows@[i].created_at),
    ensures
        r matches Some(g) && g.previous == n && g.hours >= 1 && (size >= n ==> n + g.bytes == size)
            && (size <= n ==> g.bytes == 0) && (seconds_between(now, rows@[i].created_at) >= 3600
            ==> g.hours * 3600 <= seconds_between(now, rows@[i].created_at) < g.hours * 3600
            + 3600) && (seconds_between(now, rows@[i].created_at) < 3600 ==> g.hours == 1),
{
    let v = records_view(rows@);
    assert forall|j: int| 0 <= j < v.len() implies #[trigger] v[j] == rows@[j]@ by {}
    lemma_baseline(v, i);
}

/// The size that was remembered last is the one with the latest time.
proof fn lemma_baseline(rows: Seq<RecordView>, i: int)
    requires
        0 <= i < rows.len(),
        row_is(rows[i], "detector"@, "storage_growth"@),
        forall|j: int|
            #![trigger rows[j]]
            0 <= j < rows.len() && j != i && row_is(rows[j], "detector"@, "storage_growth"@)
                ==> rows[j].created_at.before(rows[i].created_at),
    ensures
        last_baseline_of(rows) == Some(i),
    decreases rows.len(),
{
    let d = rows.drop_last();
    if i < rows.len() - 1 {
        assert(d[i] == rows[i]);
        assert forall|j: int|
            #![trigger d[j]]
            0 <= j < d.len() && j != i && row_is(
                d[j],
                "detector"@,
                "storage_growth"@,
            ) implies d[j].created_at.before(d[i].created_at) by {
            assert(d[j] == rows[j]);
        }
        lemma_baseline(d, i);
        assert(rows.last() == rows[rows.len() - 1]);
    } else if last_baseline_of(d) is Some {
        lemma_baseline_from(d);
        let j = last_baseline_of(d)->0;
        assert(d[j] == rows[j]);
        assert(rows.last() == rows[i]);
    }
}

/// The size that was remembered last is one that was remembered.
proof fn lemma_baseline_from(rows: Seq<RecordView>)
    ensures
        last_baseline_of(rows) matches Some(j) ==> 0 <= j < rows.len() && row_is(
            rows[j],
            "detector"@,
            "storage_growth"@,
        ),
    decreases rows.len(),
{
    if rows.len() > 0 {
        lemma_baseline_from(rows.drop_last());
    }
}

/// Without a size that was remembered there is no growth to measure, and none is found;
/// with one, fast growth is warned of.
pub proof fn fast_growth_is_warned_of(
    rows: &Vec<Record>,
    size: u64,
    now: Timestamp,
    g: Option<Growth>,
    fast: bool,
    rate: &str,
    r: DetectorResult,
)
    requires
        now.valid(),
        times_fit(rows@),
        call_ensures(growth_since, (rows, size, now), g),
        call_ensures(detect_storage_growth, (size, g, fast, rate), r),
    ensures
        rows@.len() == 0 ==> g is None,
        r.triggered <==> g is Some && fast,
        r.triggered ==> r.severity@ == "warning"@,
        !r.triggered ==> r.severity@ == "info"@,
{
    assert(records_view(rows@).len() == rows@.len());
}

/// The size that is remembered now is what growth is measured against next.
pub proof fn sizes_are_remembered(size: u64, now: Timestamp, r: Value, row: RecordView, later: u64, then: Timestamp)
    requires
        now.valid(),
        call_ensures(baseline_data, (size, now), r),
        row.data == r.model(),
    ensures
        last_baseline_of(seq![row]) == Some(0int),
        growth_of(row, later, then).previous == size,
{
    reveal_strlit("detector");
    reveal_strlit("size_bytes");
    reveal_strlit("measured_at");
    assert("detector"@.len() == 8 && "size_bytes"@.len() == 10 && "measured_at"@.len() == 11);
    assert(seq![row].drop_last().len() == 0);
    assert(last_baseline_of(seq![row].drop_last()) is None);
    assert(seq![row].last() == row);
}

/// Vectors of another model than the present one are an error; there is none where the
/// models are the same, where one is not known, or without a vector index.
pub proof fn other_models_are_an_error(
    index: bool,
    settings: &Vec<Record>,
    r: Option<DetectorResult>,
    i: int,
    j: int,
    s: Seq<char>,
    c: Seq<char>,
)
    requires
        call_ensures(detect_embedding_drift, (index, settings), r),
        0 <= i < settings@.len(),
        0 <= j < settings@.len(),
        settings@[i].data.model().member("key"@) == Some(Json::Text("embedding_model"@)),
        settings@[i].data.model().member("value"@) == Some(Json::Text(s)),
        settings@[j].data.model().member("key"@) == Some(Json::Text("current_embedding_model"@)),
        settings@[j].data.model().member("value"@) == Some(Json::Text(c)),
        forall|k: int|
            #![trigger settings@[k]]
            0 <= k < i ==> settings@[k].data.model().member("key"@) != Some(
                Json::Text("embedding_model"@),
            ),
        forall|k: int|
            #![trigger settings@[k]]
            0 <= k < j ==> settings@[k].data.model().member("key"@) != Some(
                Json::Text("current_embedding_model"@),
            ),
    ensures
        r is Some <==> index,
        r matches Some(x) ==> (x.triggered <==> s != c) && (s != c ==> x.severity@ == "error"@) && (
        s == c ==> x.severity@ == "info"@),
{
    let v = records_view(settings@);
    assert forall|k: int| 0 <= k < v.len() implies #[trigger] v[k] == settings@[k]@ by {}
    lemma_setting_at(v, "embedding_model"@, i);
    lemma_setting_at(v, "current_embedding_model"@, j);
}

/// The first setting with a key is the one that counts.
proof fn lemma_setting_at(rows: Seq<RecordView>, key: Seq<char>, i: int)
    requires
        0 <= i < rows.len(),
        row_is(rows[i], "key"@, key),
        forall|k: int| 0 <= k < i ==> !row_is(#[trigger] rows[k], "key"@, key),
    ensures
        first_row(rows, "key"@, key) == i,
    decreases rows.len(),
{
    if i > 0 {
        let d = rows.drop_first();
        assert(d[i - 1] == rows[i]);
        assert forall|k: int| 0 <= k < i - 1 implies !row_is(#[trigger] d[k], "key"@, key) by {
            assert(d[k] == rows[k + 1]);
        }
        assert(!row_is(rows[0], "key"@, key));
        lemma_setting_at(d, key, i - 1);
    }
}

/// What the checks found comes in their order, and nothing of the vectors without an index.
pub proof fn checks_come_in_order(
    a: DetectorResult,
    b: DetectorResult,
    c: DetectorResult,
    d: Option<DetectorResult>,
    r: Vec<DetectorResult>,
)
    requires
        call_ensures(run_all_detectors, (a, b, c, d), r),
    ensures
        r@[0] == a && r@[1] == b && r@[2] == c,
        d is None ==> r@.len() == 3,
        d matches Some(x) ==> r@.len() == 4 && r@[3] == x,
{
}

} // verus!
