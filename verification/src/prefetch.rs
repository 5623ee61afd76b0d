//! Queries that come back at the same time of day: the log of queries, the patterns
//! in it, and the results that are kept ready for them. Embeddings are held by the
//! bits of their single-precision numbers; how alike two of them are, and what lies
//! in the middle of several, is told by the host.

use crate::record::{ids_view, RecordId};
use crate::time::{floor_div, floor_mod, Timestamp, DAY_SECS};
use vstd::prelude::*;

verus! {

/// How many queries are kept in the log.
pub const MAX_QUERY_LOG: usize = 5_000;

/// How often a query must have come back to be a pattern.
pub const MIN_PATTERN_COUNT: usize = 3;

/// How many hours apart queries may be to count as at the same time of day.
pub const HOUR_WINDOW: u32 = 2;

/// A query that was made.
#[derive(Debug)]
pub struct QueryLogEntry {
    /// The embedding of the query.
    pub embedding: Vec<u32>,
    /// When it was made.
    pub timestamp: Timestamp,
    /// How many results it had.
    pub result_count: usize,
    /// The day of the week, from 0 for Monday.
    pub day_of_week: u32,
    /// The hour of the day.
    pub hour_of_day: u32,
}

/// A query that comes back.
#[derive(Debug)]
pub struct QueryPattern {
    /// The middle of the embeddings.
    pub embedding: Vec<u32>,
    /// The day of the week, where it is mostly the same.
    pub day_of_week: Option<u32>,
    /// The hour of the day.
    pub hour_of_day: u32,
    /// How often it came.
    pub occurrence_count: usize,
    /// When it came last.
    pub last_seen: Timestamp,
}

/// A pattern, in the model.
pub struct PatternView {
    pub embedding: Seq<u32>,
    pub day_of_week: Option<u32>,
    pub hour_of_day: u32,
    pub occurrence_count: usize,
    pub last_seen: Timestamp,
}

impl View for QueryPattern {
    type V = PatternView;

    open spec fn view(&self) -> PatternView {
        PatternView {
            embedding: self.embedding@,
            day_of_week: self.day_of_week,
            hour_of_day: self.hour_of_day,
            occurrence_count: self.occurrence_count,
            last_seen: self.last_seen,
        }
    }
}

/// Patterns, in the model.
pub open spec fn patterns_view(p: Seq<QueryPattern>) -> Seq<PatternView> {
    p.map_values(|x: QueryPattern| x@)
}

impl QueryPattern {
    /// A copy of the pattern.
    pub fn copy(&self) -> (r: QueryPattern)
        ensures
            r@ == self@,
    {
        let r = QueryPattern {
            embedding: copy_bits(&self.embedding),
            day_of_week: self.day_of_week,
            hour_of_day: self.hour_of_day,
            occurrence_count: self.occurrence_count,
            last_seen: self.last_seen,
        };
        r
    }
}

/// A copy of an embedding.
fn copy_bits(v: &Vec<u32>) -> (r: Vec<u32>)
    ensures
        r@ == v@,
{
    let mut out: Vec<u32> = Vec::new();
    let mut i: usize = 0;
    while i < v.len()
        invariant
            i <= v@.len(),
            out@ == v@.take(i as int),
        decreases v@.len() - i,
    {
        out.push(v[i]);
        i += 1;
        assert(v@.take(i as int) =~= v@.take(i - 1).push(v@[i - 1]));
    }
    assert(v@.take(i as int) =~= v@);
    out
}

/// Results that are kept ready.
#[derive(Debug)]
pub struct MaterializedRecall {
    /// The embedding of the pattern.
    pub pattern_embedding: Vec<u32>,
    /// The results.
    pub result_ids: Vec<RecordId>,
    /// When they were found.
    pub refreshed_at: Timestamp,
    /// Whether they still hold.
    pub valid: bool,
}

/// How far two hours of the day are apart, the shorter way round.
pub open spec fn hours_apart(a: u32, b: u32) -> int {
    let d = if a < b {
        b - a
    } else {
        a - b
    };
    if d <= 24 - d {
        d
    } else {
        24 - d
    }
}

/// How far two hours of the day are apart, the shorter way round.
pub fn hour_distance(a: u32, b: u32) -> (r: u32)
    requires
        a <= b + 24,
        b <= a + 24,
    ensures
        r == hours_apart(a, b),
{
    let d: u32 = if a < b {
        b - a
    } else {
        a - b
    };
    if d <= 24 - d {
        d
    } else {
        24 - d
    }
}

/// How often a value occurs.
pub open spec fn occurrences(v: Seq<u32>, x: u32) -> nat
    decreases v.len(),
{
    if v.len() == 0 {
        0
    } else {
        occurrences(v.drop_last(), x) + (if v.last() == x {
            1nat
        } else {
            0nat
        })
    }
}

/// Whether a value occurs, and none occurs more often. Where several occur as often,
/// each of them is one.
pub open spec fn is_mode(v: Seq<u32>, x: u32) -> bool {
    occurrences(v, x) > 0 && forall|y: u32| #[trigger] occurrences(v, y) <= occurrences(v, x)
}

/// How often a value occurs.
fn count_of(v: &Vec<u32>, x: u32) -> (r: usize)
    ensures
        r == occurrences(v@, x),
        r <= v@.len(),
{
    let mut n: usize = 0;
    let mut i: usize = 0;
    while i < v.len()
        invariant
            i <= v@.len(),
            n <= i,
            n == occurrences(v@.take(i as int), x),
        decreases v@.len() - i,
    {
        assert(v@.take(i + 1).drop_last() =~= v@.take(i as int));
        if v[i] == x {
            n += 1;
        }
        i += 1;
    }
    assert(v@.take(i as int) =~= v@);
    n
}

/// What does not occur is not counted.
proof fn lemma_absent(v: Seq<u32>, x: u32)
    ensures
        occurrences(v, x) > 0 <==> v.contains(x),
        occurrences(v, x) <= v.len(),
    decreases v.len(),
{
    if v.len() > 0 {
        lemma_absent(v.drop_last(), x);
        let d = v.drop_last();
        if d.contains(x) {
            let k = choose|k: int| 0 <= k < d.len() && d[k] == x;
            assert(v[k] == x);
        }
        if v.contains(x) && v.last() != x {
            let k = choose|k: int| 0 <= k < v.len() && v[k] == x;
            assert(d[k] == x);
        }
        if v.last() == x {
            assert(v[v.len() - 1] == x);
        }
    }
}

/// Two values share the places.
proof fn lemma_two_counts(v: Seq<u32>, x: u32, y: u32)
    requires
        x != y,
    ensures
        occurrences(v, x) + occurrences(v, y) <= v.len(),
    decreases v.len(),
{
    if v.len() > 0 {
        lemma_two_counts(v.drop_last(), x, y);
    }
}

/// A most common value, or 0 where there is none.
pub fn mode(values: &Vec<u32>) -> (r: u32)
    ensures
        values@.len() == 0 ==> r == 0,
        values@.len() > 0 ==> is_mode(values@, r),
{
    if values.len() == 0 {
        return 0;
    }
    let mut best = values[0];
    let mut most = count_of(values, best);
    let mut i: usize = 1;
    while i < values.len()
        invariant
            1 <= i <= values@.len(),
            most == occurrences(values@, best),
            values@.contains(best),
            forall|j: int| 0 <= j < i ==> occurrences(values@, #[trigger] values@[j]) <= most,
        decreases values@.len() - i,
    {
        let n = count_of(values, values[i]);
        if n > most {
            best = values[i];
            most = n;
            assert(values@[i as int] == best);
        }
        i += 1;
    }
    proof {
        lemma_absent(values@, best);
        assert forall|y: u32| #[trigger] occurrences(values@, y) <= occurrences(values@, best) by {
            lemma_absent(values@, y);
            if values@.contains(y) {
                let k = choose|k: int| 0 <= k < values@.len() && values@[k] == y;
                assert(occurrences(values@, values@[k]) <= most);
            }
        }
    }
    best
}

/// Whether a day is that of more than seven tenths of the queries.
pub open spec fn prevails(days: Seq<u32>, d: u32) -> bool {
    10 * occurrences(days, d) > 7 * days.len()
}

/// The day of more than seven tenths of the queries, where there is one.
pub open spec fn weekly_day(days: Seq<u32>) -> Option<u32> {
    if exists|d: u32| prevails(days, d) {
        Some(choose|d: u32| prevails(days, d))
    } else {
        None
    }
}

/// A day that prevails is the only one.
pub proof fn one_day_prevails(days: Seq<u32>, d: u32)
    requires
        prevails(days, d),
    ensures
        weekly_day(days) == Some(d),
        is_mode(days, d),
{
    let c = choose|c: u32| prevails(days, c);
    if c != d {
        lemma_two_counts(days, c, d);
    }
    assert forall|y: u32| #[trigger] occurrences(days, y) <= occurrences(days, d) by {
        if y != d {
            lemma_two_counts(days, y, d);
        }
    }
}

/// The day of more than seven tenths of the queries, where there is one.
fn prevailing_day(days: &Vec<u32>) -> (r: Option<u32>)
    requires
        days@.len() > 0,
    ensures
        r == weekly_day(days@),
{
    let d = mode(days);
    let n = count_of(days, d);
    if 10 * (n as u128) > 7 * (days.len() as u128) {
        proof {
            one_day_prevails(days@, d);
        }
        Some(d)
    } else {
        proof {
            if exists|c: u32| prevails(days@, c) {
                let c = choose|c: u32| prevails(days@, c);
                assert(occurrences(days@, c) <= occurrences(days@, d));
            }
        }
        None
    }
}

/// The numbers that are mixed into a key.
pub const KEY_LENGTH: usize = 16;

/// The key of an embedding: its first numbers, mixed one by one.
pub open spec fn key_of(bits: Seq<u32>) -> u64
    decreases bits.len(),
{
    if bits.len() == 0 {
        0xcbf2_9ce4_8422_2325
    } else if bits.len() > KEY_LENGTH {
        key_of(bits.drop_last())
    } else {
        (key_of(bits.drop_last()) ^ (bits.last() as u64)).wrapping_mul(0x100_0000_01b3)
    }
}

/// Numbers behind the first do not change a key.
proof fn lemma_key_prefix(bits: Seq<u32>)
    requires
        bits.len() >= KEY_LENGTH,
    ensures
        key_of(bits) == key_of(bits.take(KEY_LENGTH as int)),
    decreases bits.len(),
{
    if bits.len() > KEY_LENGTH {
        lemma_key_prefix(bits.drop_last());
        assert(bits.drop_last().take(KEY_LENGTH as int) =~= bits.take(KEY_LENGTH as int));
    } else {
        assert(bits.take(KEY_LENGTH as int) =~= bits);
    }
}

/// The key of an embedding.
pub fn embedding_hash(embedding: &Vec<u32>) -> (r: u64)
    ensures
        r == key_of(embedding@),
{
    let mut hash: u64 = 0xcbf2_9ce4_8422_2325;
    let mut i: usize = 0;
    while i < embedding.len() && i < KEY_LENGTH
        invariant
            i <= embedding@.len(),
            i <= KEY_LENGTH,
            hash == key_of(embedding@.take(i as int)),
        decreases KEY_LENGTH - i,
    {
        proof {
            assert(embedding@.take(i + 1).drop_last() =~= embedding@.take(i as int));
            assert(embedding@.take(i + 1).last() == embedding@[i as int]);
        }
        hash = (hash ^ (embedding[i] as u64)).wrapping_mul(0x100_0000_01b3);
        i += 1;
    }
    proof {
        if embedding@.len() >= KEY_LENGTH {
            lemma_key_prefix(embedding@);
        } else {
            assert(embedding@.take(i as int) =~= embedding@);
        }
    }
    hash
}

/// The hour of the day of an instant.
pub open spec fn hour_of(t: Timestamp) -> int {
    (t.secs as int % DAY_SECS as int) / 3600
}

/// The day of the week of an instant, from 0 for Monday: 1970-01-01 was a Thursday.
pub open spec fn weekday_of(t: Timestamp) -> int {
    (t.day() + 3) % 7
}

/// Queries that are alike and at the same time of day, by their places in the log.
#[derive(Debug)]
pub struct QueryCluster {
    pub hour_of_day: u32,
    pub entries: Vec<usize>,
}

/// The hours of queries.
pub open spec fn hours_at(log: Seq<QueryLogEntry>, places: Seq<usize>) -> Seq<u32> {
    places.map_values(|i: usize| log[i as int].hour_of_day)
}

/// The days of the week of queries.
pub open spec fn days_at(log: Seq<QueryLogEntry>, places: Seq<usize>) -> Seq<u32> {
    places.map_values(|i: usize| log[i as int].day_of_week)
}

/// The time of the latest of queries, of which there is one at least.
pub open spec fn latest_at(log: Seq<QueryLogEntry>, places: Seq<usize>) -> Timestamp
    decreases places.len(),
{
    let t = log[places.last() as int].timestamp;
    if places.len() <= 1 {
        t
    } else {
        let before = latest_at(log, places.drop_last());
        if before.before(t) {
            t
        } else {
            before
        }
    }
}

/// Whether the hours of a log are hours of a day.
pub open spec fn hours_fit(log: Seq<QueryLogEntry>) -> bool {
    forall|i: int| 0 <= i < log.len() ==> (#[trigger] log[i]).hour_of_day <= 24
}

/// Whether clusters are made of queries in a log, none of them empty.
pub open spec fn clusters_fit(c: Seq<QueryCluster>, n: nat) -> bool {
    forall|k: int|
        0 <= k < c.len() ==> {
            &&& (#[trigger] c[k]).entries@.len() > 0
            &&& c[k].hour_of_day <= 24
            &&& forall|j: int| 0 <= j < c[k].entries@.len() ==> (#[trigger] c[k].entries@[j]) < n
        }
}

/// The first cluster that a query goes to, or the number of clusters: one at the same
/// time of day whose queries are alike.
pub open spec fn cluster_for(c: Seq<QueryCluster>, alike: Seq<bool>, hour: u32) -> nat
    decreases c.len(),
{
    if c.len() == 0 || (hours_apart(hour, c[0].hour_of_day) <= HOUR_WINDOW && alike[0]) {
        0
    } else {
        1 + cluster_for(c.drop_first(), alike.drop_first(), hour)
    }
}

/// Whether clusters are others once the query at a place of the log was put into one,
/// given which of them it is like: the first of those at the same time of day, or else a
/// new one. The hour of a cluster is a most common one of its queries.
pub open spec fn clustered(
    log: Seq<QueryLogEntry>,
    c: Seq<QueryCluster>,
    i: usize,
    alike: Seq<bool>,
    d: Seq<QueryCluster>,
) -> bool {
    let hour = log[i as int].hour_of_day;
    let k = cluster_for(c, alike, hour) as int;
    if k < c.len() {
        &&& d.len() == c.len()
        &&& forall|j: int| 0 <= j < c.len() && j != k ==> (#[trigger] d[j]) == c[j]
        &&& d[k].entries@ == c[k].entries@.push(i)
        &&& is_mode(hours_at(log, d[k].entries@), d[k].hour_of_day)
    } else {
        &&& d.len() == c.len() + 1
        &&& d.drop_last() == c
        &&& d.last().hour_of_day == hour
        &&& d.last().entries@ == seq![i]
    }
}

/// Whether a query is at a place of a cluster.
pub open spec fn sits(c: Seq<QueryCluster>, i: int, k: int, j: int) -> bool {
    0 <= k < c.len() && 0 <= j < c[k].entries@.len() && c[k].entries@[j] == i
}

/// Whether a query is in one of the clusters.
pub open spec fn is_in_one(c: Seq<QueryCluster>, i: int) -> bool {
    exists|k: int, j: int| #[trigger] sits(c, i, k, j)
}

/// Whether clusters hold the first queries of a log, each of them at one place, and no
/// others.
pub open spec fn each_in_one(c: Seq<QueryCluster>, n: int) -> bool {
    &&& forall|i: int| 0 <= i < n ==> #[trigger] is_in_one(c, i)
    &&& forall|i: int, k: int, j: int| #[trigger] sits(c, i, k, j) ==> 0 <= i < n
    &&& forall|i: int, k: int, j: int, l: int, m: int| #[trigger]
        sits(c, i, k, j) && #[trigger] sits(c, i, l, m) ==> k == l && j == m
}

/// The pattern of a cluster, where its queries came back often enough.
pub open spec fn pattern_of(
    log: Seq<QueryLogEntry>,
    c: QueryCluster,
    centroid: Seq<u32>,
) -> Option<PatternView> {
    if c.entries@.len() >= MIN_PATTERN_COUNT {
        Some(
            PatternView {
                embedding: centroid,
                day_of_week: weekly_day(days_at(log, c.entries@)),
                hour_of_day: c.hour_of_day,
                occurrence_count: c.entries@.len() as usize,
                last_seen: latest_at(log, c.entries@),
            },
        )
    } else {
        None
    }
}

/// The patterns of clusters, in order.
pub open spec fn patterns_of(
    log: Seq<QueryLogEntry>,
    c: Seq<QueryCluster>,
    centroids: Seq<Vec<u32>>,
) -> Seq<PatternView>
    decreases c.len(),
{
    if c.len() == 0 {
        Seq::empty()
    } else {
        let before = patterns_of(log, c.drop_last(), centroids);
        match pattern_of(log, c.last(), centroids[c.len() - 1]@) {
            Some(p) => before.push(p),
            None => before,
        }
    }
}

/// The place of the first item with a key, or the number of items.
pub open spec fn cache_place(c: Seq<(u64, MaterializedRecall)>, key: u64) -> nat
    decreases c.len(),
{
    if c.len() == 0 || c[0].0 == key {
        0
    } else {
        1 + cache_place(c.drop_first(), key)
    }
}

/// Where the first item with a key stands.
proof fn lemma_cache_place(c: Seq<(u64, MaterializedRecall)>, key: u64)
    ensures
        cache_place(c, key) <= c.len(),
        cache_place(c, key) < c.len() ==> c[cache_place(c, key) as int].0 == key,
        forall|j: int| 0 <= j < cache_place(c, key) ==> (#[trigger] c[j]).0 != key,
    decreases c.len(),
{
    if c.len() > 0 && c[0].0 != key {
        lemma_cache_place(c.drop_first(), key);
        assert forall|j: int| 0 <= j < cache_place(c, key) implies (#[trigger] c[j]).0 != key by {
            if j > 0 {
                assert(c.drop_first()[j - 1] == c[j]);
            }
        }
    }
}

/// Lists with the same keys in the same places have them first in the same places.
proof fn lemma_same_keys(
    a: Seq<(u64, MaterializedRecall)>,
    b: Seq<(u64, MaterializedRecall)>,
    key: u64,
)
    requires
        a.len() == b.len(),
        forall|i: int| 0 <= i < a.len() ==> (#[trigger] a[i]).0 == b[i].0,
    ensures
        cache_place(a, key) == cache_place(b, key),
    decreases a.len(),
{
    if a.len() > 0 && a[0].0 != key {
        let c = a.drop_first();
        let d = b.drop_first();
        assert forall|i: int| 0 <= i < c.len() implies (#[trigger] c[i]).0 == d[i].0 by {
            assert(c[i] == a[i + 1] && d[i] == b[i + 1]);
        }
        lemma_same_keys(c, d, key);
    }
}

/// A new item at the end is found under its key, where that is new, and changes
/// nothing for the others.
proof fn lemma_cache_push(c: Seq<(u64, MaterializedRecall)>, x: (u64, MaterializedRecall), key: u64)
    ensures
        cache_place(c.push(x), key) == if cache_place(c, key) < c.len() || x.0 == key {
            cache_place(c, key)
        } else {
            c.len() + 1
        },
    decreases c.len(),
{
    let p = c.push(x);
    lemma_cache_place(c, key);
    if c.len() == 0 {
        assert(p.drop_first() =~= Seq::<(u64, MaterializedRecall)>::empty());
        assert(cache_place(p.drop_first(), key) == 0);
    } else if c[0].0 != key {
        lemma_cache_push(c.drop_first(), x, key);
        assert(p.drop_first() =~= c.drop_first().push(x));
    }
}

/// The log of queries, the patterns in it, and the results kept ready for them.
#[derive(Debug)]
pub struct PrefetchEngine {
    query_log: Vec<QueryLogEntry>,
    patterns: Vec<QueryPattern>,
    caches: Vec<(u64, MaterializedRecall)>,
}

impl PrefetchEngine {
    /// The log.
    pub closed spec fn log(self) -> Seq<QueryLogEntry> {
        self.query_log@
    }

    /// The patterns.
    pub closed spec fn known(self) -> Seq<QueryPattern> {
        self.patterns@
    }

    /// The results that are kept under a key.
    pub closed spec fn kept(self, key: u64) -> Option<MaterializedRecall> {
        let i = cache_place(self.caches@, key) as int;
        if i < self.caches@.len() {
            Some(self.caches@[i].1)
        } else {
            None
        }
    }

    /// Nothing yet.
    pub fn new() -> (r: Self)
        ensures
            r.log().len() == 0,
            r.known().len() == 0,
            forall|k: u64| #[trigger] r.kept(k) is None,
    {
        PrefetchEngine { query_log: Vec::new(), patterns: Vec::new(), caches: Vec::new() }
    }

    /// The log and the patterns that were kept before. No results are ready.
    pub fn from_state(query_log: Vec<QueryLogEntry>, patterns: Vec<QueryPattern>) -> (r: Self)
        ensures
            r.log() == query_log@,
            r.known() == patterns@,
            forall|k: u64| #[trigger] r.kept(k) is None,
    {
        PrefetchEngine { query_log, patterns, caches: Vec::new() }
    }

    /// Adds a query to the log. The oldest go where there are too many.
    pub fn log_query(&mut self, embedding: Vec<u32>, result_count: usize, now: Timestamp)
        ensures
            ({
                let all = old(self).log().push(
                    (QueryLogEntry {
                        embedding,
                        timestamp: now,
                        result_count,
                        day_of_week: weekday_of(now) as u32,
                        hour_of_day: hour_of(now) as u32,
                    }),
                );
                final(self).log() == if all.len() > MAX_QUERY_LOG {
                    all.skip(all.len() - MAX_QUERY_LOG)
                } else {
                    all
                }
            }),
            hours_fit(old(self).log()) ==> hours_fit(final(self).log()),
            old(self).log().len() < 5_000 ==> final(self).log().len() == old(self).log().len() + 1,
            old(self).log().len() >= 5_000 ==> final(self).log().len() == 5_000,
            final(self).log().last().timestamp == now,
            final(self).log().last().result_count == result_count,
            final(self).known() == old(self).known(),
            forall|k: u64| #[trigger] final(self).kept(k) == old(self).kept(k),
    {
        let day = floor_div(now.secs, DAY_SECS);
        let entry = QueryLogEntry {
            embedding,
            timestamp: now,
            result_count,
            day_of_week: floor_mod(day + 3, 7) as u32,
            hour_of_day: (floor_mod(now.secs, DAY_SECS) / 3600) as u32,
        };
        self.query_log.push(entry);
        if self.query_log.len() > MAX_QUERY_LOG {
            let excess = self.query_log.len() - MAX_QUERY_LOG;
            let ghost all = self.query_log@;
            let rest = self.query_log.split_off(excess);
            assert(rest@ =~= all.skip(excess as int));
            self.query_log = rest;
        }
    }

    /// Puts the query at a place of the log into a cluster, given which clusters it is
    /// like: the first of them at the same time of day, or else a new one. The hour of
    /// a cluster is a most common one of its queries.
    pub fn cluster_query(&self, clusters: &mut Vec<QueryCluster>, i: usize, alike: &Vec<bool>)
        requires
            i < self.log().len(),
            alike@.len() == old(clusters)@.len(),
            clusters_fit(old(clusters)@, self.log().len()),
            hours_fit(self.log()),
        ensures
            clusters_fit(final(clusters)@, self.log().len()),
            clustered(self.log(), old(clusters)@, i, alike@, final(clusters)@),
    {
        let hour = self.query_log[i].hour_of_day;
        let mut k: usize = 0;
        let ghost c = clusters@;
        proof {
            assert(c.skip(0) =~= c);
            assert(alike@.skip(0) =~= alike@);
        }
        while k < clusters.len()
            invariant
                k <= c.len(),
                clusters@ == c,
                c == old(clusters)@,
                alike@.len() == c.len(),
                hour == self.log()[i as int].hour_of_day,
                i < self.query_log@.len(),
                self.log() == self.query_log@,
                hours_fit(self.log()),
                clusters_fit(c, self.log().len()),
                cluster_for(c, alike@, hour) == k + cluster_for(
                    c.skip(k as int),
                    alike@.skip(k as int),
                    hour,
                ),
            decreases c.len() - k,
        {
            proof {
                assert(c.skip(k as int).drop_first() =~= c.skip(k + 1));
                assert(alike@.skip(k as int).drop_first() =~= alike@.skip(k + 1));
                assert(c[k as int].hour_of_day <= 24);
            }
            if hour_distance(hour, clusters[k].hour_of_day) <= HOUR_WINDOW && alike[k] {
                self.join_cluster(clusters, k, i);
                return;
            }
            k += 1;
        }
        let mut entries: Vec<usize> = Vec::new();
        entries.push(i);
        clusters.push(QueryCluster { hour_of_day: hour, entries });
        proof {
            assert(clusters@.drop_last() =~= c);
            assert(clusters@.last().entries@ =~= seq![i]);
        }
    }

    /// Puts the query at a place of the log into a cluster.
    fn join_cluster(&self, clusters: &mut Vec<QueryCluster>, k: usize, i: usize)
        requires
            i < self.log().len(),
            k < old(clusters)@.len(),
            hours_fit(self.log()),
            clusters_fit(old(clusters)@, self.log().len()),
        ensures
            clusters_fit(final(clusters)@, self.log().len()),
            final(clusters)@.len() == old(clusters)@.len(),
            forall|j: int|
                0 <= j < old(clusters)@.len() && j != k ==> (#[trigger] final(clusters)@[j])
                    == old(clusters)@[j],
            final(clusters)@[k as int].entries@ == old(clusters)@[k as int].entries@.push(i),
            is_mode(
                hours_at(self.log(), final(clusters)@[k as int].entries@),
                final(clusters)@[k as int].hour_of_day,
            ),
    {
        let ghost c = clusters@;
        let mut entries: Vec<usize> = Vec::new();
        let mut hours: Vec<u32> = Vec::new();
        let n = clusters[k].entries.len();
        let mut j: usize = 0;
        while j < n
            invariant
                j <= n,
                n == c[k as int].entries@.len(),
                clusters@ == c,
                k < c.len(),
                clusters_fit(c, self.query_log@.len()),
                entries@ == c[k as int].entries@.take(j as int),
                hours@ =~= hours_at(self.query_log@, entries@),
            decreases n - j,
        {
            let e = clusters[k].entries[j];
            proof {
                assert(c[k as int].entries@[j as int] < self.query_log@.len());
                assert(c[k as int].entries@.take(j + 1) =~= c[k as int].entries@.take(j as int).push(
                    e,
                ));
            }
            entries.push(e);
            hours.push(self.query_log[e].hour_of_day);
            j += 1;
        }
        assert(c[k as int].entries@.take(j as int) =~= c[k as int].entries@);
        entries.push(i);
        hours.push(self.query_log[i].hour_of_day);
        assert(hours@ =~= hours_at(self.query_log@, entries@));
        let hour = mode(&hours);
        proof {
            lemma_absent(hours@, hour);
            let at = choose|at: int| 0 <= at < hours@.len() && hours@[at] == hour;
            assert(hour == self.log()[entries@[at] as int].hour_of_day);
            if at < n {
                assert(entries@[at] == c[k as int].entries@[at]);
            }
        }
        let ghost x = QueryCluster { hour_of_day: hour, entries };
        clusters.set(k, QueryCluster { hour_of_day: hour, entries });
        proof {
            assert(clusters@ == c.update(k as int, x));
            assert forall|q: int| 0 <= q < clusters@.len() implies ({
                &&& (#[trigger] clusters@[q]).entries@.len() > 0
                &&& clusters@[q].hour_of_day <= 24
                &&& forall|j: int|
                    0 <= j < clusters@[q].entries@.len() ==> (#[trigger] clusters@[q].entries@[j])
                        < self.log().len()
            }) by {
                if q != k {
                    assert(clusters@[q] == c[q]);
                } else {
                    assert forall|j: int| 0 <= j < x.entries@.len() implies (
                    #[trigger] x.entries@[j]) < self.log().len() by {
                        if j < n {
                            assert(x.entries@[j] == c[k as int].entries@[j]);
                        }
                    }
                }
            }
        }
    }

    /// The pattern of a cluster, where its queries came back often enough.
    fn cluster_pattern(&self, c: &QueryCluster, centroid: &Vec<u32>) -> (r: Option<QueryPattern>)
        requires
            c.entries@.len() > 0,
            forall|j: int| 0 <= j < c.entries@.len() ==> (#[trigger] c.entries@[j]) < self.log().len(),
        ensures
            match r {
                Some(p) => pattern_of(self.log(), *c, centroid@) == Some(p@),
                None => pattern_of(self.log(), *c, centroid@) is None,
            },
    {
        if c.entries.len() < MIN_PATTERN_COUNT {
            return None;
        }
        let mut days: Vec<u32> = Vec::new();
        let mut last_seen = self.query_log[c.entries[0]].timestamp;
        let mut j: usize = 0;
        while j < c.entries.len()
            invariant
                j <= c.entries@.len(),
                c.entries@.len() > 0,
                forall|j: int|
                    0 <= j < c.entries@.len() ==> (#[trigger] c.entries@[j])
                        < self.query_log@.len(),
                days@ =~= days_at(self.query_log@, c.entries@.take(j as int)),
                j == 0 ==> last_seen == self.query_log@[c.entries@[0] as int].timestamp,
                j > 0 ==> last_seen == latest_at(self.query_log@, c.entries@.take(j as int)),
            decreases c.entries@.len() - j,
        {
            let e = c.entries[j];
            proof {
                let t = c.entries@.take(j + 1);
                assert(t.drop_last() =~= c.entries@.take(j as int));
                assert(t.last() == e);
                assert(t =~= c.entries@.take(j as int).push(e));
            }
            days.push(self.query_log[e].day_of_week);
            let t = self.query_log[e].timestamp;
            if last_seen.is_before(t) {
                last_seen = t;
            }
            j += 1;
        }
        assert(c.entries@.take(j as int) =~= c.entries@);
        let p = QueryPattern {
            embedding: copy_bits(centroid),
            day_of_week: prevailing_day(&days),
            hour_of_day: c.hour_of_day,
            occurrence_count: c.entries.len(),
            last_seen,
        };
        Some(p)
    }

    /// Takes the patterns of the clusters that the log falls into, given what lies in
    /// the middle of each. A log that is too short has none, and leaves those that
    /// were known.
    pub fn detect_patterns(&mut self, clusters: &Vec<QueryCluster>, centroids: &Vec<Vec<u32>>) -> (r:
        Vec<QueryPattern>)
        requires
            clusters@.len() == centroids@.len(),
            clusters_fit(clusters@, old(self).log().len()),
        ensures
            ({
                let found = patterns_of(old(self).log(), clusters@, centroids@);
                if old(self).log().len() < MIN_PATTERN_COUNT {
                    r@.len() == 0 && final(self).known() == old(self).known()
                } else {
                    patterns_view(r@) == found && patterns_view(final(self).known()) == found
                }
            }),
            final(self).log() == old(self).log(),
            forall|k: u64| #[trigger] final(self).kept(k) == old(self).kept(k),
    {
        let mut found: Vec<QueryPattern> = Vec::new();
        if self.query_log.len() < MIN_PATTERN_COUNT {
            return found;
        }
        let mut out: Vec<QueryPattern> = Vec::new();
        let mut i: usize = 0;
        proof {
            assert(patterns_view(found@) =~= patterns_of(self.log(), clusters@.take(0), centroids@));
            assert(patterns_view(out@) =~= patterns_view(found@));
        }
        while i < clusters.len()
            invariant
                i <= clusters@.len(),
                clusters@.len() == centroids@.len(),
                *self == *old(self),
                clusters_fit(clusters@, self.log().len()),
                patterns_view(found@) == patterns_of(
                    self.log(),
                    clusters@.take(i as int),
                    centroids@,
                ),
                patterns_view(out@) == patterns_view(found@),
            decreases clusters@.len() - i,
        {
            proof {
                assert(clusters@.take(i + 1).drop_last() =~= clusters@.take(i as int));
                assert(clusters@.take(i + 1).last() == clusters@[i as int]);
                assert(clusters@[i as int].entries@.len() > 0);
            }
            if let Some(p) = self.cluster_pattern(&clusters[i], &centroids[i]) {
                let ghost before = patterns_view(found@);
                let q = p.copy();
                let ghost x = p@;
                out.push(q);
                found.push(p);
                assert(patterns_view(found@) =~= before.push(x));
                assert(patterns_view(out@) =~= before.push(x));
            }
            i += 1;
        }
        assert(clusters@.take(i as int) =~= clusters@);
        self.patterns = found;
        out
    }

    /// Whether the results for a pattern are ready.
    pub open spec fn ready(self, p: QueryPattern) -> bool {
        self.kept(key_of(p.embedding@)) matches Some(c) && c.valid
    }

    /// The place of the first pattern that a query is like and whose results are ready,
    /// or the number of patterns.
    pub open spec fn hit(self, alike: Seq<bool>) -> int {
        self.hit_from(alike, 0)
    }

    /// The same, from a place on.
    pub open spec fn hit_from(self, alike: Seq<bool>, i: int) -> int
        decreases self.known().len() - i,
    {
        if i >= self.known().len() || (alike[i] && self.ready(self.known()[i])) {
            i
        } else {
            self.hit_from(alike, i + 1)
        }
    }

    /// The results that are ready for a query, given which patterns it is like.
    pub fn get_cached(&self, alike: &Vec<bool>) -> (r: Option<Vec<RecordId>>)
        requires
            alike@.len() == self.known().len(),
        ensures
            match r {
                Some(ids) => self.hit(alike@) < self.known().len() && ids_view(ids@) == ids_view(
                    self.kept(key_of(self.known()[self.hit(alike@)].embedding@))->0.result_ids@,
                ),
                None => self.hit(alike@) == self.known().len(),
            },
    {
        let mut i: usize = 0;
        while i < self.patterns.len()
            invariant
                i <= self.patterns@.len(),
                alike@.len() == self.patterns@.len(),
                self.hit(alike@) == self.hit_from(alike@, i as int),
            decreases self.patterns@.len() - i,
        {
            if alike[i] {
                let key = embedding_hash(&self.patterns[i].embedding);
                let at = self.find_cache(key);
                if at < self.caches.len() && self.caches[at].1.valid {
                    return Some(copy_ids(&self.caches[at].1.result_ids));
                }
            }
            i += 1;
        }
        None
    }

    /// The place of the results under a key.
    fn find_cache(&self, key: u64) -> (r: usize)
        ensures
            r == cache_place(self.caches@, key),
            r <= self.caches@.len(),
            r < self.caches@.len() ==> self.kept(key) == Some(self.caches@[r as int].1),
            r == self.caches@.len() ==> self.kept(key) is None,
    {
        let mut i: usize = 0;
        assert(self.caches@.skip(0) =~= self.caches@);
        while i < self.caches.len()
            invariant
                i <= self.caches@.len(),
                cache_place(self.caches@, key) == i + cache_place(self.caches@.skip(i as int), key),
            decreases self.caches@.len() - i,
        {
            assert(self.caches@.skip(i as int).drop_first() =~= self.caches@.skip(i + 1));
            if self.caches[i].0 == key {
                return i;
            }
            i += 1;
        }
        i
    }

    /// Keeps results ready under the key of an embedding, in place of those that were
    /// there.
    pub fn cache_results(
        &mut self,
        embedding: Vec<u32>,
        result_ids: Vec<RecordId>,
        now: Timestamp,
    )
        ensures
            forall|k: u64| #[trigger]
                final(self).kept(k) == if k == key_of(embedding@) {
                    Some(
                        MaterializedRecall {
                            pattern_embedding: embedding,
                            result_ids,
                            refreshed_at: now,
                            valid: true,
                        },
                    )
                } else {
                    old(self).kept(k)
                },
            final(self).log() == old(self).log(),
            final(self).known() == old(self).known(),
    {
        let key = embedding_hash(&embedding);
        let at = self.find_cache(key);
        let item = MaterializedRecall {
            pattern_embedding: embedding,
            result_ids,
            refreshed_at: now,
            valid: true,
        };
        let ghost c = self.caches@;
        let ghost x = item;
        if at < self.caches.len() {
            proof {
                lemma_cache_place(c, key);
            }
            self.caches.set(at, (key, item));
            proof {
                let d = self.caches@;
                assert forall|k: u64| #[trigger] self.kept(k) == if k == key {
                    Some(x)
                } else {
                    old(self).kept(k)
                } by {
                    lemma_same_keys(c, d, k);
                    lemma_cache_place(c, k);
                }
            }
        } else {
            self.caches.push((key, item));
            proof {
                assert forall|k: u64| #[trigger] self.kept(k) == if k == key {
                    Some(x)
                } else {
                    old(self).kept(k)
                } by {
                    lemma_cache_push(c, (key, x), k);
                    lemma_cache_place(c, k);
                }
            }
        }
    }

    /// No results that are kept hold any more.
    pub fn invalidate_caches(&mut self)
        ensures
            forall|k: u64| #[trigger]
                final(self).kept(k) == match old(self).kept(k) {
                    Some(c) => Some(MaterializedRecall { valid: false, ..c }),
                    None => None,
                },
            final(self).log() == old(self).log(),
            final(self).known() == old(self).known(),
    {
        let ghost c = self.caches@;
        let mut i: usize = 0;
        while i < self.caches.len()
            invariant
                i <= c.len(),
                self.caches@.len() == c.len(),
                self.query_log == old(self).query_log,
                self.patterns == old(self).patterns,
                forall|j: int|
                    0 <= j < i ==> (#[trigger] self.caches@[j]) == (
                        c[j].0,
                        MaterializedRecall { valid: false, ..c[j].1 },
                    ),
                forall|j: int| i <= j < c.len() ==> (#[trigger] self.caches@[j]) == c[j],
            decreases c.len() - i,
        {
            self.caches[i].1.valid = false;
            i += 1;
        }
        proof {
            assert forall|k: u64| #[trigger] self.kept(k) == match old(self).kept(k) {
                Some(x) => Some(MaterializedRecall { valid: false, ..x }),
                None => None,
            } by {
                lemma_same_keys(c, self.caches@, k);
                lemma_cache_place(c, k);
            }
        }
    }

    /// The patterns.
    pub fn patterns(&self) -> (r: &Vec<QueryPattern>)
        ensures
            r@ == self.known(),
    {
        &self.patterns
    }

    /// The log.
    pub fn query_log(&self) -> (r: &Vec<QueryLogEntry>)
        ensures
            r@ == self.log(),
    {
        &self.query_log
    }

    /// The number of queries in the log.
    pub fn query_log_size(&self) -> (r: usize)
        ensures
            r == self.log().len(),
    {
        self.query_log.len()
    }
}

impl Default for PrefetchEngine {
    fn default() -> (r: PrefetchEngine)
        ensures
            r.log().len() == 0,
            r.known().len() == 0,
            forall|k: u64| #[trigger] r.kept(k) is None,
    {
        PrefetchEngine::new()
    }
}

/// A copy of ids.
fn copy_ids(ids: &Vec<RecordId>) -> (r: Vec<RecordId>)
    ensures
        ids_view(r@) == ids_view(ids@),
{
    let mut out: Vec<RecordId> = Vec::new();
    let mut i: usize = 0;
    while i < ids.len()
        invariant
            i <= ids@.len(),
            out@.len() == i,
            forall|j: int| 0 <= j < i ==> (#[trigger] out@[j])@ == ids@[j]@,
        decreases ids@.len() - i,
    {
        out.push(ids[i].copy());
        i += 1;
    }
    assert(ids_view(out@) =~= ids_view(ids@));
    out
}

/// Where no results that are kept hold, no query has results ready.
pub proof fn nothing_is_ready_once_invalid(e: PrefetchEngine, alike: Seq<bool>, i: int)
    requires
        forall|k: u64| (#[trigger] e.kept(k)) matches Some(c) ==> !c.valid,
        0 <= i <= e.known().len(),
    ensures
        e.hit_from(alike, i) == e.known().len(),
    decreases e.known().len() - i,
{
    if i < e.known().len() {
        assert(!e.ready(e.known()[i])) by {
            let c = e.kept(key_of(e.known()[i].embedding@));
        }
        nothing_is_ready_once_invalid(e, alike, i + 1);
    }
}

/// Where a query is once the next one was put into a cluster.
proof fn lemma_one_more_sits(
    log: Seq<QueryLogEntry>,
    c: Seq<QueryCluster>,
    next: usize,
    alike: Seq<bool>,
    d: Seq<QueryCluster>,
    i: int,
    k: int,
    j: int,
)
    requires
        clustered(log, c, next, alike, d),
    ensures
        ({
            let at = cluster_for(c, alike, log[next as int].hour_of_day) as int;
            let joins = at < c.len();
            let (p, q): (int, int) = if joins {
                (at, c[at].entries@.len() as int)
            } else {
                (c.len() as int, 0)
            };
            sits(d, i, k, j) <==> sits(c, i, k, j) || (i == next && k == p && j == q)
        }),
{
    let at = cluster_for(c, alike, log[next as int].hour_of_day) as int;
    if at < c.len() {
        if 0 <= k < c.len() && k != at {
            assert(d[k] == c[k]);
        }
    } else if 0 <= k < c.len() {
        assert(d.drop_last()[k] == d[k]);
    }
}

/// Putting the next query into a cluster keeps each of them in one.
proof fn lemma_one_more_in_one(
    log: Seq<QueryLogEntry>,
    c: Seq<QueryCluster>,
    next: usize,
    alike: Seq<bool>,
    d: Seq<QueryCluster>,
)
    requires
        clustered(log, c, next, alike, d),
        each_in_one(c, next as int),
    ensures
        each_in_one(d, next + 1),
{
    let at = cluster_for(c, alike, log[next as int].hour_of_day) as int;
    let (p, q): (int, int) = if at < c.len() {
        (at, c[at].entries@.len() as int)
    } else {
        (c.len() as int, 0)
    };
    assert forall|i: int| 0 <= i < next + 1 implies #[trigger] is_in_one(d, i) by {
        if i == next {
            lemma_one_more_sits(log, c, next, alike, d, i, p, q);
            assert(sits(d, i, p, q));
        } else {
            assert(is_in_one(c, i));
            let (k, j) = choose|k: int, j: int| #[trigger] sits(c, i, k, j);
            lemma_one_more_sits(log, c, next, alike, d, i, k, j);
            assert(sits(d, i, k, j));
        }
    }
    assert forall|i: int, k: int, j: int| #[trigger] sits(d, i, k, j) implies 0 <= i < next + 1 by {
        lemma_one_more_sits(log, c, next, alike, d, i, k, j);
    }
    assert forall|i: int, k: int, j: int, l: int, m: int| #[trigger]
        sits(d, i, k, j) && #[trigger] sits(d, i, l, m) implies k == l && j == m by {
        lemma_one_more_sits(log, c, next, alike, d, i, k, j);
        lemma_one_more_sits(log, c, next, alike, d, i, l, m);
        if i == next {
            assert(!sits(c, i, k, j));
            assert(!sits(c, i, l, m));
        }
    }
}

/// Putting the queries of a log into clusters one after the other, whichever clusters
/// they are like, puts each query into exactly one cluster, once.
pub proof fn each_query_is_in_one_cluster(
    e: PrefetchEngine,
    steps: Seq<Seq<QueryCluster>>,
    alike: Seq<Seq<bool>>,
)
    requires
        steps.len() > 0,
        steps[0].len() == 0,
        steps.len() - 1 <= e.log().len(),
        forall|i: int|
            0 < i < steps.len() ==> clustered(
                e.log(),
                steps[i - 1],
                (i - 1) as usize,
                alike[i - 1],
                #[trigger] steps[i],
            ),
    ensures
        each_in_one(steps.last(), steps.len() - 1),
    decreases steps.len(),
{
    let n = steps.len() - 1;
    if n > 0 {
        let before = steps.drop_last();
        assert forall|i: int| 0 < i < before.len() implies clustered(
            e.log(),
            before[i - 1],
            (i - 1) as usize,
            alike[i - 1],
            #[trigger] before[i],
        ) by {
            assert(steps[i] == before[i]);
        }
        each_query_is_in_one_cluster(e, before, alike);
        assert(e.query_log.len() == e.query_log@.len());
        assert(clustered(e.log(), steps[n - 1], (n - 1) as usize, alike[n - 1], steps[n]));
        lemma_one_more_in_one(
            e.log(),
            steps[n - 1],
            (n - 1) as usize,
            alike[n - 1],
            steps[n],
        );
    }
}

/// Two hours of the day are apart by the shorter way round the clock: as far one way as the
/// other, never more than half a day, and an hour is no way from itself.
pub proof fn hours_go_round_the_clock(a: u32, b: u32, r: u32, s: u32)
    requires
        a < 24,
        b < 24,
        call_ensures(hour_distance, (a, b), r),
        call_ensures(hour_distance, (b, a), s),
    ensures
        r == s,
        r <= 12,
        r == 0 <==> a == b,
        (a + r) % 24 == b || (b + r) % 24 == a,
{
}

/// No value occurs more often than the one that is most common, which occurs.
pub proof fn most_common_values_occur_most(values: &Vec<u32>, r: u32, i: int)
    requires
        call_ensures(mode, (values,), r),
        0 <= i < values@.len(),
    ensures
        values@.contains(r),
        occurrences(values@, values@[i]) <= occurrences(values@, r),
{
    lemma_occurs(values@, r);
}

/// What occurs stands somewhere.
proof fn lemma_occurs(v: Seq<u32>, x: u32)
    ensures
        occurrences(v, x) > 0 <==> v.contains(x),
        occurrences(v, x) <= v.len(),
    decreases v.len(),
{
    if v.len() > 0 {
        let d = v.drop_last();
        lemma_occurs(d, x);
        if d.contains(x) {
            let i = choose|i: int| 0 <= i < d.len() && d[i] == x;
            assert(v[i] == x);
        }
        if v.last() == x {
            assert(v[v.len() - 1] == x);
        }
        if v.contains(x) && v.last() != x {
            let i = choose|i: int| 0 <= i < v.len() && v[i] == x;
            assert(d[i] == x);
        }
    }
}

/// Occurrences add up over two lists, and one value occurs once in a list of itself.
pub proof fn occurrences_add_up(a: Seq<u32>, b: Seq<u32>, x: u32)
    ensures
        occurrences(a + b, x) == occurrences(a, x) + occurrences(b, x),
        a.len() == 1 ==> occurrences(a, x) == if a[0] == x {
            1nat
        } else {
            0
        },
    decreases b.len(),
{
    if b.len() > 0 {
        occurrences_add_up(a, b.drop_last(), x);
        assert((a + b).drop_last() =~= a + b.drop_last());
    } else {
        assert(a + b =~= a);
    }
    if a.len() == 1 {
        assert(occurrences(a.drop_last(), x) == 0);
    }
}

/// A day that is that of all queries prevails; one that is that of seven in ten does not.
pub proof fn seven_in_ten_are_not_enough(days: Seq<u32>, d: u32)
    requires
        days.len() > 0,
    ensures
        10 * occurrences(days, d) > 7 * days.len() ==> weekly_day(days) == Some(d),
        (forall|x: u32| 10 * #[trigger] occurrences(days, x) <= 7 * days.len()) ==> weekly_day(days)
            is None,
{
    if prevails(days, d) {
        one_day_prevails(days, d);
    }
    if forall|x: u32| 10 * #[trigger] occurrences(days, x) <= 7 * days.len() {
        assert forall|x: u32| !#[trigger] prevails(days, x) by {
            assert(10 * occurrences(days, x) <= 7 * days.len());
        }
    }
}

/// A query goes to the first cluster that it is like and that is at most two hours away.
pub proof fn queries_join_the_first_such_cluster(
    c: Seq<QueryCluster>,
    alike: Seq<bool>,
    hour: u32,
    k: int,
)
    requires
        c.len() == alike.len(),
        0 <= k <= c.len(),
        k < c.len() ==> alike[k] && hours_apart(hour, c[k].hour_of_day) <= 2,
        forall|j: int|
            0 <= j < k ==> !alike[j] || hours_apart(hour, (#[trigger] c[j]).hour_of_day) > 2,
    ensures
        cluster_for(c, alike, hour) == k,
    decreases c.len(),
{
    if k > 0 {
        let d = c.drop_first();
        let a = alike.drop_first();
        if k < c.len() {
            assert(d[k - 1] == c[k] && a[k - 1] == alike[k]);
        }
        assert forall|j: int| 0 <= j < k - 1 implies !a[j] || hours_apart(
            hour,
            (#[trigger] d[j]).hour_of_day,
        ) > 2 by {
            assert(d[j] == c[j + 1] && a[j] == alike[j + 1]);
        }
        assert(!alike[0] || hours_apart(hour, c[0].hour_of_day) > 2);
        queries_join_the_first_such_cluster(d, a, hour, k - 1);
    }
}

/// Queries that came back three times are a pattern, with the hour of their cluster, their
/// number and the time of the latest; fewer are none.
pub proof fn three_queries_make_a_pattern(
    log: Seq<QueryLogEntry>,
    c: QueryCluster,
    centroid: Seq<u32>,
    j: int,
)
    requires
        0 <= j < c.entries@.len() <= usize::MAX,
    ensures
        c.entries@.len() < 3 ==> pattern_of(log, c, centroid) is None,
        c.entries@.len() >= 3 ==> (pattern_of(log, c, centroid) matches Some(p) && p.embedding
            == centroid && p.hour_of_day == c.hour_of_day && p.occurrence_count == c.entries@.len()
            && !p.last_seen.before(log[c.entries@[j] as int].timestamp)),
{
    lemma_latest(log, c.entries@, j);
}

/// The latest of times is before none of them, and is one of them.
proof fn lemma_latest(log: Seq<QueryLogEntry>, places: Seq<usize>, j: int)
    requires
        0 <= j < places.len(),
    ensures
        !latest_at(log, places).before(log[places[j] as int].timestamp),
        exists|k: int|
            0 <= k < places.len() && latest_at(log, places) == log[#[trigger] places[k]
                as int].timestamp,
    decreases places.len(),
{
    let d = places.drop_last();
    if places.len() == 1 {
        assert(latest_at(log, places) == log[places[0] as int].timestamp);
    } else {
        if j < places.len() - 1 {
            assert(d[j] == places[j]);
            lemma_latest(log, d, j);
        } else {
            lemma_latest(log, d, 0);
        }
        let k = choose|k: int|
            0 <= k < d.len() && latest_at(log, d) == log[#[trigger] d[k] as int].timestamp;
        assert(places[k] == d[k]);
        assert(places.last() == places[places.len() - 1]);
    }
}

/// The hour of the day and the day of the week of an instant: an hour later is the next
/// hour, a day later the same hour of the next day, and a week later the same of both.
pub proof fn hours_and_days_follow_one_another(t: Timestamp, later: Timestamp)
    ensures
        0 <= hour_of(t) < 24,
        0 <= weekday_of(t) < 7,
        later.secs == t.secs + 3600 ==> hour_of(later) == (hour_of(t) + 1) % 24,
        later.secs == t.secs + 86_400 ==> hour_of(later) == hour_of(t) && weekday_of(later) == (
        weekday_of(t) + 1) % 7,
        later.secs == t.secs + 7 * 86_400 ==> weekday_of(later) == weekday_of(t),
        0 <= t.secs < 3600 ==> hour_of(t) == 0 && weekday_of(t) == 3,
{
}

/// The results that a query gets are those of the first pattern that it is like and whose
/// results hold.
pub proof fn ready_results_are_handed_out(
    e: &PrefetchEngine,
    alike: &Vec<bool>,
    r: Option<Vec<RecordId>>,
    k: int,
    ready: MaterializedRecall,
)
    requires
        alike@.len() == e.known().len(),
        call_ensures(PrefetchEngine::get_cached, (e, alike), r),
        0 <= k < e.known().len(),
        alike@[k],
        e.kept(key_of(e.known()[k].embedding@)) == Some(ready),
        ready.valid,
        forall|j: int|
            0 <= j < k ==> !#[trigger] alike@[j] || !e.ready(e.known()[j]),
    ensures
        r matches Some(ids) && ids_view(ids@) == ids_view(ready.result_ids@),
{
    lemma_hit(*e, alike@, 0, k);
}

/// Where the first pattern stands whose results are ready.
proof fn lemma_hit(e: PrefetchEngine, alike: Seq<bool>, i: int, k: int)
    requires
        0 <= i <= k < e.known().len(),
        alike[k] && e.ready(e.known()[k]),
        forall|j: int| i <= j < k ==> !#[trigger] alike[j] || !e.ready(e.known()[j]),
    ensures
        e.hit_from(alike, i) == k,
    decreases k - i,
{
    if i < k {
        assert(!alike[i] || !e.ready(e.known()[i]));
        lemma_hit(e, alike, i + 1, k);
    }
}

/// The key of an embedding goes by its first sixteen numbers: those behind them change
/// nothing, and one more among them changes it by mixing that one in.
pub proof fn keys_go_by_sixteen_numbers(a: Seq<u32>, b: Seq<u32>, x: u32)
    ensures
        a.len() == 16 ==> key_of(a + b) == key_of(a),
        a.len() < 16 ==> key_of(a.push(x)) == (key_of(a) ^ (x as u64)).wrapping_mul(0x100_0000_01b3),
        a.len() == 0 ==> key_of(a) == 0xcbf2_9ce4_8422_2325,
    decreases b.len(),
{
    if b.len() > 0 {
        keys_go_by_sixteen_numbers(a, b.drop_last(), x);
        assert((a + b).drop_last() =~= a + b.drop_last());
    } else {
        assert(a + b =~= a);
    }
    assert(a.push(x).drop_last() =~= a);
}

} // verus!
