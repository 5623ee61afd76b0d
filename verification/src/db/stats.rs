//! Statistics, trends and benchmarks.

use super::report::live_share;
use super::Axil;
use crate::diagnostics::{
    bytes_text, human_bytes, DatabaseMeta, IndexStats, MetricsHistoryEntry, Ratio,
};
use crate::json::{Json, Value};
use crate::order::{is_number_below, number_below};
use crate::text::{count_text, decimal, decimal_text, join2, join3, text_before, text_less};
use crate::time::{rfc3339_text, text_of_instant, Timestamp, DAY_SECS};
use vstd::prelude::*;

verus! {

/// What the statistics of a database are made of.
#[derive(Debug)]
pub struct StatsFacts {
    pub path: String,
    pub total_size: u64,
    pub total_records: usize,
    /// The tables with the numbers of their records.
    pub tables: Vec<(String, usize)>,
    pub indexes: IndexStats,
    pub created: Option<String>,
    pub last_write: Option<String>,
    pub last_read: Option<String>,
}

/// The statistics of a database.
#[derive(Debug)]
pub struct DatabaseStats {
    pub database: DatabaseMeta,
    pub total_records: usize,
    pub tables: Value,
    pub indexes: IndexStats,
}

/// The numbers of records by table. Of two entries for a table the later one counts.
pub open spec fn table_counts(tables: Seq<(String, usize)>) -> Json
    decreases tables.len(),
{
    if tables.len() == 0 {
        Json::Object(Map::empty())
    } else {
        table_counts(tables.drop_last()).with_member(
            tables.last().0@,
            Json::PosInt(tables.last().1 as u64),
        )
    }
}

impl Axil {
    /// The statistics of a database: of all its tables, or of the one that is asked
    /// for with the number of its records.
    pub fn stats(facts: StatsFacts, filter: Option<(&str, usize)>) -> (r: DatabaseStats)
        ensures
            r.database.path == facts.path,
            r.database.size_bytes == facts.total_size,
            r.database.size_human@ == bytes_text(facts.total_size),
            r.database.created == facts.created,
            r.database.last_write == facts.last_write,
            r.database.last_read == facts.last_read,
            r.total_records == facts.total_records,
            r.indexes == facts.indexes,
            r.tables.model() == match filter {
                Some(f) => Json::Object(Map::empty()).with_member(f.0@, Json::PosInt(f.1 as u64)),
                None => table_counts(facts.tables@),
            },
    {
        let mut tables = Value::object();
        match filter {
            Some(f) => {
                tables.set(f.0, Value::count(f.1 as u64));
            },
            None => {
                let mut i: usize = 0;
                while i < facts.tables.len()
                    invariant
                        i <= facts.tables@.len(),
                        tables.model() == table_counts(facts.tables@.take(i as int)),
                    decreases facts.tables@.len() - i,
                {
                    assert(facts.tables@.take(i + 1).drop_last() =~= facts.tables@.take(i as int));
                    tables.set(facts.tables[i].0.as_str(), Value::count(facts.tables[i].1 as u64));
                    i += 1;
                }
                assert(facts.tables@.take(i as int) =~= facts.tables@);
            },
        }
        DatabaseStats {
            database: DatabaseMeta {
                path: facts.path,
                size_bytes: facts.total_size,
                size_human: human_bytes(facts.total_size),
                created: facts.created,
                last_write: facts.last_write,
                last_read: facts.last_read,
            },
            total_records: facts.total_records,
            tables,
            indexes: facts.indexes,
        }
    }

    /// The state of a database now, to be kept for trends.
    pub fn snapshot_metrics(
        now: Timestamp,
        total_records: usize,
        dead: (usize, usize),
        file_size_bytes: u64,
        vector_count: usize,
        edge_count: usize,
    ) -> (r: MetricsHistoryEntry)
        requires
            now.valid(),
            dead.0 + dead.1 <= total_records,
        ensures
            r.timestamp@ == text_of_instant(now.secs, now.nanos),
            r.record_count == total_records,
            r.file_size_bytes == file_size_bytes,
            r.vector_count == vector_count,
            r.edge_count == edge_count,
            r.live_ratio == live_share(total_records, (dead.0 + dead.1) as nat),
    {
        let live_ratio = if total_records > 0 {
            Ratio { part: total_records - (dead.0 + dead.1), whole: total_records }
        } else {
            Ratio { part: 1, whole: 1 }
        };
        MetricsHistoryEntry {
            timestamp: rfc3339_text(now),
            record_count: total_records,
            file_size_bytes,
            vector_count,
            edge_count,
            live_ratio,
        }
    }
}

/// The snapshots of a period: how it is called, how many there are, and the places
/// of the oldest and the newest where there are two at least.
#[derive(Debug)]
pub struct TrendWindow {
    pub period: String,
    pub kept: Vec<usize>,
    pub ends: Option<(usize, usize)>,
}

/// The instant that a period starts at: as many days ago, a hundred years at most.
pub open spec fn period_start(now: Timestamp, days: u64) -> Timestamp {
    let d = if days > 36_500 {
        36_500int
    } else {
        days as int
    };
    Timestamp { secs: (now.secs - d * DAY_SECS) as i64, nanos: now.nanos }
}

/// The places of the snapshots that are not before the cutoff.
pub open spec fn kept_snapshots(stamps: Seq<String>, cutoff: Seq<char>) -> Seq<usize>
    decreases stamps.len(),
{
    if stamps.len() == 0 {
        Seq::empty()
    } else {
        let before = kept_snapshots(stamps.drop_last(), cutoff);
        if text_less(stamps.last()@, cutoff) {
            before
        } else {
            before.push((stamps.len() - 1) as usize)
        }
    }
}

impl Axil {
    /// Finds the snapshots of a period, given their times from the newest on.
    pub fn trends(stamps: &Vec<String>, now: Timestamp, days: u64) -> (r: TrendWindow)
        requires
            now.valid(),
            period_start(now, days).valid(),
            now.secs >= i64::MIN + 36_500 * 86_400,
        ensures
            ({
                let start = period_start(now, days);
                let kept = kept_snapshots(stamps@, text_of_instant(start.secs, start.nanos));
                &&& r.period@ == decimal(days as nat) + "d"@
                &&& r.kept@ == kept
                &&& r.ends == if kept.len() >= 2 {
                    Some((kept.last(), kept[0]))
                } else {
                    None
                }
            }),
    {
        let d: i64 = if days > 36_500 {
            36_500
        } else {
            days as i64
        };
        assert(d * DAY_SECS == d * 86_400) by (nonlinear_arith)
            requires
                DAY_SECS == 86_400,
        ;
        let start = Timestamp { secs: now.secs - d * DAY_SECS, nanos: now.nanos };
        assert(start == period_start(now, days));
        let cutoff = rfc3339_text(start);
        let mut kept: Vec<usize> = Vec::new();
        let mut i: usize = 0;
        while i < stamps.len()
            invariant
                i <= stamps@.len(),
                kept@ == kept_snapshots(stamps@.take(i as int), cutoff@),
            decreases stamps@.len() - i,
        {
            assert(stamps@.take(i + 1).drop_last() =~= stamps@.take(i as int));
            if !text_before(stamps[i].as_str(), cutoff.as_str()) {
                kept.push(i);
            }
            i += 1;
        }
        assert(stamps@.take(i as int) =~= stamps@);
        let ends = if kept.len() >= 2 {
            Some((kept[kept.len() - 1], kept[0]))
        } else {
            None
        };
        TrendWindow { period: join2(decimal_text(days).as_str(), "d"), kept, ends }
    }
}

/// The bits of 0.7, the share of live records below which compacting is advised.
pub const LIVE_SHARE_BITS: u64 = 0x3fe6_6666_6666_6666;

impl Axil {
    /// What is advised for the share of live records, which is held by the bits of its
    /// IEEE number.
    pub fn trend_alert(live_ratio: u64) -> (r: Option<&'static str>)
        ensures
            match r {
                Some(t) => is_number_below(live_ratio, LIVE_SHARE_BITS) && t@
                    == "compact recommended"@,
                None => !is_number_below(live_ratio, LIVE_SHARE_BITS),
            },
    {
        if number_below(live_ratio, LIVE_SHARE_BITS) {
            Some("compact recommended")
        } else {
            None
        }
    }
}

/// A benchmark: what it is called, and how often it is run.
#[derive(Debug)]
pub struct BenchStep {
    pub name: String,
    pub iterations: usize,
}

/// A benchmark, in the model.
#[verifier::ext_equal]
pub struct BenchView {
    pub name: Seq<char>,
    pub iterations: usize,
}

impl View for BenchStep {
    type V = BenchView;

    open spec fn view(&self) -> BenchView {
        BenchView { name: self.name@, iterations: self.iterations }
    }
}

/// Benchmarks, in the model.
pub open spec fn bench_view(b: Seq<BenchStep>) -> Seq<BenchView> {
    b.map_values(|x: BenchStep| x@)
}

/// The number of records that are made for the benchmarks.
pub const BENCH_RECORDS: usize = 1000;

/// The number of records that are read and linked at most.
pub open spec fn at_most(n: usize, most: usize) -> usize {
    if n < most {
        n
    } else {
        most
    }
}

/// Adds a benchmark.
fn push_bench(out: &mut Vec<BenchStep>, name: String, iterations: usize)
    ensures
        bench_view(final(out)@) == bench_view(old(out)@).push(
            BenchView { name: name@, iterations },
        ),
{
    out.push(BenchStep { name, iterations });
    assert(bench_view(out@) =~= bench_view(old(out)@).push(BenchView { name: name@, iterations }));
}

impl Axil {
    /// The benchmarks that are run on a database with these engines, where `made`
    /// records were made for them and the vector index then holds `vectors`: those
    /// of an engine where it is there, and those of the graph where the records make
    /// a chain of three at least.
    pub open spec fn benchmarks(self, made: usize, vectors: usize) -> Seq<BenchView> {
        let b = seq![
            BenchView { name: "insert_1000"@, iterations: BENCH_RECORDS },
            BenchView {
                name: "get_"@ + decimal(at_most(made, BENCH_RECORDS) as nat),
                iterations: at_most(made, BENCH_RECORDS),
            },
        ];
        let b = if self.vector_index {
            b.push(
                BenchView {
                    name: "vector_search_"@ + decimal(vectors as nat) + "_top5"@,
                    iterations: 100,
                },
            )
        } else {
            b
        };
        let b = if self.fts_index {
            b.push(BenchView { name: "fts_search_100"@, iterations: 100 })
        } else {
            b
        };
        if self.graph_index && at_most(made, 50) > 2 {
            b.push(BenchView { name: "graph_traverse_depth1"@, iterations: 100 }).push(
                BenchView { name: "graph_traverse_depth3"@, iterations: 100 },
            )
        } else {
            b
        }
    }

    /// Plans the benchmarks.
    pub fn bench(&self, made: usize, vectors: usize) -> (r: Vec<BenchStep>)
        ensures
            bench_view(r@) == self.benchmarks(made, vectors),
    {
        let mut out: Vec<BenchStep> = Vec::new();
        push_bench(&mut out, "insert_1000".to_owned(), BENCH_RECORDS);
        let read: usize = if made < BENCH_RECORDS {
            made
        } else {
            BENCH_RECORDS
        };
        push_bench(&mut out, join2("get_", count_text(read).as_str()), read);
        assert(bench_view(out@) =~= seq![
            BenchView { name: "insert_1000"@, iterations: BENCH_RECORDS },
            BenchView {
                name: "get_"@ + decimal(at_most(made, BENCH_RECORDS) as nat),
                iterations: at_most(made, BENCH_RECORDS),
            },
        ]);
        if self.vector_index {
            push_bench(
                &mut out,
                join3("vector_search_", count_text(vectors).as_str(), "_top5"),
                100,
            );
        }
        if self.fts_index {
            push_bench(&mut out, "fts_search_100".to_owned(), 100);
        }
        if self.graph_index && made > 2 {
            push_bench(&mut out, "graph_traverse_depth1".to_owned(), 100);
            push_bench(&mut out, "graph_traverse_depth3".to_owned(), 100);
        }
        out
    }

    /// How many edges link the records that were made into a chain.
    pub fn bench_chain(made: usize) -> (r: usize)
        ensures
            r == if at_most(made, 50) == 0 {
                0
            } else {
                at_most(made, 50) - 1
            },
    {
        let n: usize = if made < 50 {
            made
        } else {
            50
        };
        if n == 0 {
            0
        } else {
            n - 1
        }
    }
}

/// Each table is shown with the number of its records; where one is asked for, only that
/// one.
pub proof fn tables_are_shown_with_their_counts(
    facts: StatsFacts,
    filter: Option<(&str, usize)>,
    r: DatabaseStats,
    i: int,
)
    requires
        call_ensures(Axil::stats, (facts, filter), r),
        0 <= i < facts.tables@.len(),
        forall|j: int| i < j < facts.tables@.len() ==> (#[trigger] facts.tables@[j]).0@
            != facts.tables@[i].0@,
    ensures
        filter is None ==> r.tables.model().member(facts.tables@[i].0@) == Some(
            Json::PosInt(facts.tables@[i].1 as u64),
        ),
        filter matches Some(f) ==> r.tables.model().member(f.0@) == Some(Json::PosInt(f.1 as u64)),
        filter matches Some(f) ==> (facts.tables@[i].0@ != f.0@ ==> r.tables.model().member(
            facts.tables@[i].0@,
        ) is None),
        r.total_records == facts.total_records && r.database.size_bytes == facts.total_size
            && r.indexes == facts.indexes,
{
    lemma_counted(facts.tables@, i);
}

/// The count of the last entry for a table is the one that is shown.
proof fn lemma_counted(tables: Seq<(String, usize)>, i: int)
    requires
        0 <= i < tables.len(),
        forall|j: int| i < j < tables.len() ==> (#[trigger] tables[j]).0@ != tables[i].0@,
    ensures
        table_counts(tables) is Object,
        table_counts(tables).member(tables[i].0@) == Some(Json::PosInt(tables[i].1 as u64)),
    decreases tables.len(),
{
    let d = tables.drop_last();
    lemma_counts_are_members(d);
    if i < tables.len() - 1 {
        assert(d[i] == tables[i]);
        assert forall|j: int| i < j < d.len() implies (#[trigger] d[j]).0@ != d[i].0@ by {
            assert(d[j] == tables[j]);
        }
        lemma_counted(d, i);
        assert(tables.last() == tables[tables.len() - 1]);
    }
}

/// Counts are shown as members.
proof fn lemma_counts_are_members(tables: Seq<(String, usize)>)
    ensures
        table_counts(tables) is Object,
    decreases tables.len(),
{
    if tables.len() > 0 {
        lemma_counts_are_members(tables.drop_last());
    }
}

/// The share of live records in a snapshot is what the dead ones leave of all; a database
/// without records is all live.
pub proof fn snapshots_show_what_is_live(
    now: Timestamp,
    total: usize,
    dead: (usize, usize),
    size: u64,
    vectors: usize,
    edges: usize,
    r: MetricsHistoryEntry,
)
    requires
        now.valid(),
        dead.0 + dead.1 <= total,
        call_ensures(Axil::snapshot_metrics, (now, total, dead, size, vectors, edges), r),
    ensures
        total > 0 ==> r.live_ratio.part + dead.0 + dead.1 == total && r.live_ratio.whole == total,
        total == 0 ==> r.live_ratio.part == r.live_ratio.whole && r.live_ratio.whole > 0,
        r.record_count == total && r.file_size_bytes == size && r.vector_count == vectors
            && r.edge_count == edges,
{
}

/// Where a snapshot was kept.
proof fn lemma_kept(stamps: Seq<String>, cutoff: Seq<char>, i: int)
    requires
        0 <= i < stamps.len() <= usize::MAX,
    ensures
        kept_snapshots(stamps, cutoff).contains(i as usize) <==> !text_less(stamps[i]@, cutoff),
        forall|k: int|
            0 <= k < kept_snapshots(stamps, cutoff).len() ==> (#[trigger] kept_snapshots(
                stamps,
                cutoff,
            )[k]) < stamps.len(),
        forall|k: int, l: int|
            0 <= k < l < kept_snapshots(stamps, cutoff).len() ==> (#[trigger] kept_snapshots(
                stamps,
                cutoff,
            )[k]) < (#[trigger] kept_snapshots(stamps, cutoff)[l]),
    decreases stamps.len(),
{
    let d = stamps.drop_last();
    let before = kept_snapshots(d, cutoff);
    if d.len() > 0 {
        lemma_kept(d, cutoff, 0);
    }
    let kept = kept_snapshots(stamps, cutoff);
    let n = (stamps.len() - 1) as usize;
    if i < stamps.len() - 1 {
        lemma_kept(d, cutoff, i);
        assert(d[i] == stamps[i]);
        if !text_less(stamps.last()@, cutoff) {
            crate::text::lemma_push_contains(before, n, i as usize);
        }
    } else {
        assert(!before.contains(n)) by {
            if before.contains(n) {
                let k = choose|k: int| 0 <= k < before.len() && before[k] == n;
                assert(before[k] < d.len());
            }
        }
        if !text_less(stamps.last()@, cutoff) {
            assert(before.push(n)[before.len() as int] == n);
        }
    }
}

/// A period keeps the snapshots that are not before its start, which lies as many days back,
/// a hundred years at most. Its ends are the last and the first of them, where there are two.
pub proof fn periods_go_back_as_many_days(
    stamps: &Vec<String>,
    now: Timestamp,
    days: u64,
    r: TrendWindow,
    i: int,
    start: Timestamp,
)
    requires
        now.valid(),
        start.valid(),
        start.nanos == now.nanos,
        days <= 36_500 ==> start.secs + days * 24 * 60 * 60 == now.secs,
        days > 36_500 ==> start.secs + 36_500 * 24 * 60 * 60 == now.secs,
        now.secs >= i64::MIN + 36_500 * 86_400,
        call_ensures(Axil::trends, (stamps, now, days), r),
        0 <= i < stamps@.len(),
    ensures
        r.kept@.contains(i as usize) <==> !text_less(
            stamps@[i]@,
            text_of_instant(start.secs, start.nanos),
        ),
        r.kept@.len() < 2 ==> r.ends is None,
        r.kept@.len() >= 2 ==> (r.ends matches Some(e) && e.0 == r.kept@[r.kept@.len() - 1] && e.1
            == r.kept@[0] && e.1 < e.0),
{
    let p = period_start(now, days);
    assert(p == start);
    assert(stamps.len() == stamps@.len());
    lemma_kept(stamps@, text_of_instant(start.secs, start.nanos), i);
}

/// A lower share of live records is advised on where a higher one is, and 0.7 is not.
pub proof fn lower_shares_are_advised_on_too(
    share: u64,
    lower: u64,
    r: Option<&'static str>,
    s: Option<&'static str>,
)
    requires
        call_ensures(Axil::trend_alert, (share,), r),
        call_ensures(Axil::trend_alert, (lower,), s),
    ensures
        r is Some && is_number_below(lower, share) ==> s is Some,
        share == 0x3fe6_6666_6666_6666 ==> r is None,
        share < 0x3fe6_6666_6666_6666 ==> r is Some,
        0x3fe6_6666_6666_6666 <= share <= 0x7ff0_0000_0000_0000 ==> r is None,
{
}

/// Records are made and read by the benchmarks of every database; each engine that is there
/// adds its own, the graph where there are three records at least.
pub proof fn engines_add_their_benchmarks(db: &Axil, made: usize, vectors: usize, r: Vec<BenchStep>)
    requires
        call_ensures(Axil::bench, (db, made, vectors), r),
    ensures
        ({
            let v: int = if db.vector_index {
                1
            } else {
                0
            };
            let f: int = if db.fts_index {
                1
            } else {
                0
            };
            let g: int = if db.graph_index && made > 2 {
                2
            } else {
                0
            };
            &&& r@.len() == 2 + v + f + g
            &&& r@[0].iterations == 1000
            &&& made <= 1000 ==> r@[1].iterations == made
            &&& made > 1000 ==> r@[1].iterations == 1000
            &&& v == 1 ==> r@[2].iterations == 100
            &&& f == 1 ==> r@[2 + v].name@ == "fts_search_100"@ && r@[2 + v].iterations == 100
            &&& g == 2 ==> r@[2 + v + f].name@ == "graph_traverse_depth1"@ && r@[3 + v + f].name@
                == "graph_traverse_depth3"@ && r@[2 + v + f].iterations == 100 && r@[3 + v
                + f].iterations == 100
        }),
{
    let b = bench_view(r@);
    assert(b.len() == r@.len());
    assert forall|i: int| 0 <= i < b.len() implies b[i] == (#[trigger] r@[i])@ by {}
}

/// A chain has an edge between each record and the next, of 50 records at most.
pub proof fn chains_link_fifty_records(made: usize, r: usize)
    requires
        call_ensures(Axil::bench_chain, (made,), r),
    ensures
        made == 0 ==> r == 0,
        1 <= made <= 50 ==> r + 1 == made,
        made > 50 ==> r == 49,
{
}

} // verus!
