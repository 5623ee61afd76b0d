//! Counts and latencies of operations.

use crate::order::{
    in_order, is_number_below, number_place, ranked, sort_ranked, sorting_orders_the_items, Ranked,
};
use crate::time::{floor_div, floor_mod, instant_text, text_of_instant, Timestamp};
use vstd::prelude::*;

verus! {

/// The number of latencies that are kept of each operation.
pub const LATENCY_WINDOW: usize = 1000;

/// The operations that are counted.
#[derive(Clone, Copy, Debug, PartialEq, Eq, Structural, Hash)]
pub enum OpType {
    Insert,
    Get,
    Delete,
    Update,
    VectorSearch,
    FtsSearch,
    Traversal,
    Recall,
}

impl OpType {
    /// The place of the operation in the list of all.
    pub open spec fn place(self) -> int {
        match self {
            OpType::Insert => 0,
            OpType::Get => 1,
            OpType::Delete => 2,
            OpType::Update => 3,
            OpType::VectorSearch => 4,
            OpType::FtsSearch => 5,
            OpType::Traversal => 6,
            OpType::Recall => 7,
        }
    }

    /// All operations.
    pub open spec fn every() -> Seq<OpType> {
        seq![
            OpType::Insert,
            OpType::Get,
            OpType::Delete,
            OpType::Update,
            OpType::VectorSearch,
            OpType::FtsSearch,
            OpType::Traversal,
            OpType::Recall,
        ]
    }

    /// The place of the operation in the list of all.
    fn index(self) -> (r: usize)
        ensures
            r == self.place(),
            r < 8,
    {
        match self {
            OpType::Insert => 0,
            OpType::Get => 1,
            OpType::Delete => 2,
            OpType::Update => 3,
            OpType::VectorSearch => 4,
            OpType::FtsSearch => 5,
            OpType::Traversal => 6,
            OpType::Recall => 7,
        }
    }

    /// All operations.
    pub fn all() -> (r: Vec<OpType>)
        ensures
            r@ == OpType::every(),
    {
        let mut v: Vec<OpType> = Vec::new();
        v.push(OpType::Insert);
        v.push(OpType::Get);
        v.push(OpType::Delete);
        v.push(OpType::Update);
        v.push(OpType::VectorSearch);
        v.push(OpType::FtsSearch);
        v.push(OpType::Traversal);
        v.push(OpType::Recall);
        assert(v@ =~= OpType::every());
        v
    }

    /// The name of the count.
    pub open spec fn total_name(self) -> Seq<char> {
        match self {
            OpType::Insert => "inserts_total"@,
            OpType::Get => "gets_total"@,
            OpType::Delete => "deletes_total"@,
            OpType::Update => "updates_total"@,
            OpType::VectorSearch => "vector_searches_total"@,
            OpType::FtsSearch => "fts_searches_total"@,
            OpType::Traversal => "traversals_total"@,
            OpType::Recall => "recalls_total"@,
        }
    }

    /// The name of the count.
    pub fn counter_name(&self) -> (r: &'static str)
        ensures
            r@ == self.total_name(),
    {
        match self {
            OpType::Insert => "inserts_total",
            OpType::Get => "gets_total",
            OpType::Delete => "deletes_total",
            OpType::Update => "updates_total",
            OpType::VectorSearch => "vector_searches_total",
            OpType::FtsSearch => "fts_searches_total",
            OpType::Traversal => "traversals_total",
            OpType::Recall => "recalls_total",
        }
    }

    /// The name of the latencies.
    pub open spec fn short_name(self) -> Seq<char> {
        match self {
            OpType::Insert => "inserts"@,
            OpType::Get => "gets"@,
            OpType::Delete => "deletes"@,
            OpType::Update => "updates"@,
            OpType::VectorSearch => "vector_searches"@,
            OpType::FtsSearch => "fts_searches"@,
            OpType::Traversal => "traversals"@,
            OpType::Recall => "recalls"@,
        }
    }

    /// The name of the latencies: that of the count without `_total`.
    pub fn latency_name(&self) -> (r: &'static str)
        ensures
            r@ == self.short_name(),
            self.total_name() == r@ + "_total"@,
    {
        proof {
            reveal_strlit("_total");
            reveal_strlit("inserts_total");
            reveal_strlit("inserts");
            reveal_strlit("gets_total");
            reveal_strlit("gets");
            reveal_strlit("deletes_total");
            reveal_strlit("deletes");
            reveal_strlit("updates_total");
            reveal_strlit("updates");
            reveal_strlit("vector_searches_total");
            reveal_strlit("vector_searches");
            reveal_strlit("fts_searches_total");
            reveal_strlit("fts_searches");
            reveal_strlit("traversals_total");
            reveal_strlit("traversals");
            reveal_strlit("recalls_total");
            reveal_strlit("recalls");
            assert(self.total_name() =~= self.short_name() + "_total"@);
        }
        match self {
            OpType::Insert => "inserts",
            OpType::Get => "gets",
            OpType::Delete => "deletes",
            OpType::Update => "updates",
            OpType::VectorSearch => "vector_searches",
            OpType::FtsSearch => "fts_searches",
            OpType::Traversal => "traversals",
            OpType::Recall => "recalls",
        }
    }

    /// Whether the operation writes.
    pub open spec fn writes(self) -> bool {
        self == OpType::Insert || self == OpType::Delete || self == OpType::Update
    }
}

/// The latest latencies of an operation, in a ring. A latency is held by the bits of
/// its IEEE number, which are ordered as the numbers are.
#[derive(Debug)]
pub struct LatencyBuffer {
    samples: Vec<u64>,
    pos: usize,
    count: usize,
}

impl LatencyBuffer {
    /// Whether the ring is in order.
    pub closed spec fn well_formed(self) -> bool {
        &&& self.samples@.len() == LATENCY_WINDOW
        &&& self.pos < LATENCY_WINDOW
        &&& self.count <= LATENCY_WINDOW
        &&& self.count < LATENCY_WINDOW ==> self.pos == self.count
    }

    /// The latencies that are kept, from the oldest on.
    pub closed spec fn recent(self) -> Seq<u64> {
        if self.count < LATENCY_WINDOW {
            self.samples@.take(self.count as int)
        } else {
            self.samples@.skip(self.pos as int) + self.samples@.take(self.pos as int)
        }
    }

    /// The samples in the order in which they stand in the ring.
    pub closed spec fn held(self) -> Seq<u64> {
        self.samples@.take(self.count as int)
    }

    /// A ring without latencies.
    pub fn new() -> (r: LatencyBuffer)
        ensures
            r.well_formed(),
            r.recent() == Seq::<u64>::empty(),
    {
        let mut samples: Vec<u64> = Vec::new();
        while samples.len() < LATENCY_WINDOW
            invariant
                samples@.len() <= LATENCY_WINDOW,
            decreases LATENCY_WINDOW - samples@.len(),
        {
            samples.push(0);
        }
        let r = LatencyBuffer { samples, pos: 0, count: 0 };
        assert(r.recent() =~= Seq::<u64>::empty());
        r
    }

    /// Keeps a latency. Where the ring is full, the oldest one goes.
    pub fn record(&mut self, sample: u64)
        requires
            old(self).well_formed(),
        ensures
            final(self).well_formed(),
            final(self).recent() == if old(self).recent().len() < LATENCY_WINDOW {
                old(self).recent().push(sample)
            } else {
                old(self).recent().drop_first().push(sample)
            },
            old(self).recent().len() < 1000 ==> final(self).recent().len() == old(
                self,
            ).recent().len() + 1,
            old(self).recent().len() == 1000 ==> final(self).recent().len() == 1000,
            final(self).recent().last() == sample,
    {
        let ghost before = *self;
        self.samples.set(self.pos, sample);
        self.pos = if self.pos + 1 == LATENCY_WINDOW {
            0
        } else {
            self.pos + 1
        };
        if self.count < LATENCY_WINDOW {
            self.count = self.count + 1;
        }
        proof {
            if before.count < LATENCY_WINDOW {
                assert(before.recent().len() == before.count);
                assert(self.recent() =~= before.recent().push(sample));
            } else {
                assert(before.recent().len() == LATENCY_WINDOW);
                assert(self.recent() =~= before.recent().drop_first().push(sample));
            }
        }
    }

    /// The number of latencies that are kept.
    pub fn len(&self) -> (r: usize)
        requires
            self.well_formed(),
        ensures
            r == self.recent().len(),
    {
        self.count
    }

    /// The latencies, from the smallest on.
    fn sorted(&self) -> (r: Vec<u64>)
        requires
            self.well_formed(),
        ensures
            r@ == ranked(self.held()),
            r@.len() == self.recent().len(),
    {
        let mut v: Vec<u64> = Vec::new();
        let mut i: usize = 0;
        while i < self.count
            invariant
                self.well_formed(),
                i <= self.count,
                v@ == self.samples@.take(i as int),
            decreases self.count - i,
        {
            v.push(self.samples[i]);
            i += 1;
            assert(v@ =~= self.samples@.take(i as int));
        }
        proof {
            sorting_orders_the_items(v@);
        }
        sort_ranked(v)
    }

    /// The samples in the ring are the latencies that are kept.
    proof fn lemma_held(self)
        requires
            self.well_formed(),
        ensures
            self.held().to_multiset() == self.recent().to_multiset(),
    {
        if self.count == LATENCY_WINDOW {
            let a = self.samples@.take(self.pos as int);
            let b = self.samples@.skip(self.pos as int);
            assert(self.held() =~= a + b);
            vstd::seq_lib::lemma_multiset_commutative(a, b);
            vstd::seq_lib::lemma_multiset_commutative(b, a);
            assert((a + b).to_multiset() =~= (b + a).to_multiset());
        }
    }
}

/// The place of a percentile among `n` sorted latencies, rounded to the nearest.
pub open spec fn percentile_place(percent: int, n: int) -> int {
    (percent * (n - 1) + 50) / 100
}

/// Latencies that so many percent of all are not above, by their bits.
#[derive(Clone, Copy, Debug, PartialEq, Eq, Structural)]
pub struct LatencyPercentiles {
    pub p50: u64,
    pub p95: u64,
    pub p99: u64,
}

impl LatencyPercentiles {
    /// The percentiles of latencies, in the order of the numbers that their bits stand for.
    pub open spec fn of(samples: Seq<u64>) -> LatencyPercentiles {
        let s = ranked(samples);
        let n = samples.len() as int;
        LatencyPercentiles {
            p50: s[percentile_place(50, n)],
            p95: s[percentile_place(95, n)],
            p99: s[percentile_place(99, n)],
        }
    }
}

/// Any two different numbers are ordered, so equal ranks are equal items.
proof fn lemma_same_samples(a: Seq<u64>, b: Seq<u64>)
    requires
        a.to_multiset() == b.to_multiset(),
    ensures
        ranked(a) == ranked(b),
{
    sorting_orders_the_items(a);
    sorting_orders_the_items(b);
    lemma_sorted_unique(ranked(a), ranked(b));
}

/// Two sorted lists with the same numbers are the same.
proof fn lemma_sorted_unique(a: Seq<u64>, b: Seq<u64>)
    requires
        in_order(a),
        in_order(b),
        a.to_multiset() == b.to_multiset(),
    ensures
        a == b,
    decreases a.len(),
{
    a.to_multiset_ensures();
    b.to_multiset_ensures();
    if a.len() == 0 {
        assert(a =~= b);
    } else {
        let n = a.len() - 1;
        let x = a[n];
        let y = b[n];
        assert(a.contains(x));
        assert(b.contains(y));
        assert(b.to_multiset().count(x) > 0);
        assert(a.to_multiset().count(y) > 0);
        assert(b.contains(x));
        assert(a.contains(y));
        let i = choose|i: int| 0 <= i < b.len() && b[i] == x;
        let j = choose|j: int| 0 <= j < a.len() && a[j] == y;
        assert(i == n || !b[n].before(b[i]));
        assert(j == n || !a[n].before(a[j]));
        assert(x == y);
        let c = a.drop_last();
        let d = b.drop_last();
        vstd::seq_lib::to_multiset_remove(a, n);
        vstd::seq_lib::to_multiset_remove(b, n);
        assert(a.remove(n) =~= c);
        assert(b.remove(n) =~= d);
        assert forall|p: int, q: int| 0 <= p < q < c.len() implies !(#[trigger] c[q]).before(
            #[trigger] c[p],
        ) by {
            assert(!a[q].before(a[p]));
        }
        assert forall|p: int, q: int| 0 <= p < q < d.len() implies !(#[trigger] d[q]).before(
            #[trigger] d[p],
        ) by {
            assert(!b[q].before(b[p]));
        }
        lemma_sorted_unique(c, d);
        assert(a =~= c.push(x));
        assert(b =~= d.push(y));
    }
}

/// What is counted and timed.
#[derive(Debug)]
pub struct Metrics {
    counters: Vec<u64>,
    latencies: Vec<LatencyBuffer>,
    created_at: Option<Timestamp>,
    last_write_at: i64,
    last_read_at: i64,
}

/// What was counted and timed, at one time.
#[derive(Debug)]
pub struct MetricsSnapshot {
    /// The counts with their names.
    pub counters: Vec<(&'static str, u64)>,
    /// The percentiles with their names, of the operations that were timed.
    pub latencies: Vec<(&'static str, LatencyPercentiles)>,
    pub db_created_at: Option<String>,
    pub last_write_at: Option<String>,
    pub last_read_at: Option<String>,
}

/// The instant of a number of microseconds.
pub open spec fn micros_instant(us: i64) -> Timestamp {
    Timestamp {
        secs: (us as int / 1_000_000) as i64,
        nanos: ((us as int % 1_000_000) * 1000) as u32,
    }
}

/// Whether a text is that of the instant of a number of microseconds: there is none
/// where the number is 0 or the instant cannot be represented.
pub open spec fn stamp_of(text: Option<String>, us: i64) -> bool {
    let t = micros_instant(us);
    if us != 0 && t.valid() {
        text matches Some(s) && s@ == text_of_instant(t.secs, t.nanos)
    } else {
        text is None
    }
}

/// The text of the instant of a number of microseconds.
fn stamp(us: i64) -> (r: Option<String>)
    ensures
        stamp_of(r, us),
{
    if us == 0 {
        return None;
    }
    let secs = floor_div(us, 1_000_000);
    let nanos = (floor_mod(us, 1_000_000) * 1000) as u32;
    instant_text(Timestamp { secs, nanos })
}

impl Metrics {
    /// Whether there is a count and a ring for every operation.
    pub closed spec fn well_formed(self) -> bool {
        &&& self.counters@.len() == 8
        &&& self.latencies@.len() == 8
        &&& forall|i: int| 0 <= i < 8 ==> (#[trigger] self.latencies@[i]).well_formed()
    }

    /// How often an operation was counted.
    pub closed spec fn count_of(self, op: OpType) -> u64 {
        self.counters@[op.place()]
    }

    /// The latencies of an operation that are kept, from the oldest on.
    pub closed spec fn latencies_of(self, op: OpType) -> Seq<u64> {
        self.latencies@[op.place()].recent()
    }

    /// When the database was made.
    pub closed spec fn created(self) -> Option<Timestamp> {
        self.created_at
    }

    /// When something was written last, in microseconds.
    pub closed spec fn written(self) -> i64 {
        self.last_write_at
    }

    /// When something was read last, in microseconds.
    pub closed spec fn read(self) -> i64 {
        self.last_read_at
    }

    /// Nothing counted and nothing timed.
    pub fn new() -> (r: Metrics)
        ensures
            r.well_formed(),
            forall|op: OpType| #[trigger] r.count_of(op) == 0,
            forall|op: OpType| #[trigger] r.latencies_of(op) == Seq::<u64>::empty(),
            r.created() is None,
            r.written() == 0,
            r.read() == 0,
    {
        let mut counters: Vec<u64> = Vec::new();
        let mut latencies: Vec<LatencyBuffer> = Vec::new();
        while counters.len() < 8
            invariant
                counters@.len() <= 8,
                latencies@.len() == counters@.len(),
                forall|i: int| 0 <= i < counters@.len() ==> (#[trigger] counters@[i]) == 0,
                forall|i: int|
                    0 <= i < latencies@.len() ==> (#[trigger] latencies@[i]).well_formed()
                        && latencies@[i].recent() == Seq::<u64>::empty(),
            decreases 8 - counters@.len(),
        {
            counters.push(0);
            latencies.push(LatencyBuffer::new());
        }
        let r = Metrics {
            counters,
            latencies,
            created_at: None,
            last_write_at: 0,
            last_read_at: 0,
        };
        proof {
            assert forall|op: OpType| #[trigger] r.count_of(op) == 0 by {
                assert(0 <= op.place() < 8);
            }
            assert forall|op: OpType| #[trigger]
                r.latencies_of(op) == Seq::<u64>::empty() by {
                assert(0 <= op.place() < 8);
            }
        }
        r
    }

    /// Notes when the database was made.
    pub fn set_created_at(&mut self, at: Timestamp)
        requires
            old(self).well_formed(),
        ensures
            final(self).well_formed(),
            final(self).created() == Some(at),
            forall|op: OpType| #[trigger] final(self).count_of(op) == old(self).count_of(op),
            forall|op: OpType| #[trigger]
                final(self).latencies_of(op) == old(self).latencies_of(op),
            final(self).written() == old(self).written(),
            final(self).read() == old(self).read(),
    {
        self.created_at = Some(at);
    }

    /// Counts an operation. The count starts again at 0 behind the largest number.
    pub fn inc(&mut self, op: OpType)
        requires
            old(self).well_formed(),
        ensures
            final(self).well_formed(),
            final(self).count_of(op) == if old(self).count_of(op) == u64::MAX {
                0
            } else {
                (old(self).count_of(op) + 1) as u64
            },
            forall|other: OpType|
                other != op ==> #[trigger] final(self).count_of(other) == old(self).count_of(other),
            forall|other: OpType| #[trigger]
                final(self).latencies_of(other) == old(self).latencies_of(other),
            final(self).created() == old(self).created(),
            final(self).written() == old(self).written(),
            final(self).read() == old(self).read(),
    {
        let i = op.index();
        let n = self.counters[i];
        let next: u64 = if n == u64::MAX {
            0
        } else {
            n + 1
        };
        self.counters.set(i, next);
        proof {
            assert forall|other: OpType| other != op implies #[trigger] self.count_of(other)
                == old(self).count_of(other) by {
                assert(other.place() != op.place());
            }
        }
    }

    /// Notes when an operation was done last.
    fn touch(&mut self, op: OpType, now_us: i64)
        requires
            old(self).well_formed(),
        ensures
            final(self).well_formed(),
            forall|other: OpType| #[trigger]
                final(self).count_of(other) == old(self).count_of(other),
            forall|other: OpType| #[trigger]
                final(self).latencies_of(other) == old(self).latencies_of(other),
            final(self).created() == old(self).created(),
            final(self).written() == if op.writes() {
                now_us
            } else {
                old(self).written()
            },
            final(self).read() == if op.writes() {
                old(self).read()
            } else {
                now_us
            },
    {
        match op {
            OpType::Insert | OpType::Delete | OpType::Update => {
                self.last_write_at = now_us;
            },
            _ => {
                self.last_read_at = now_us;
            },
        }
    }

    /// Keeps a latency of an operation, given by its bits.
    pub fn record_latency(&mut self, op: OpType, sample: u64)
        requires
            old(self).well_formed(),
        ensures
            final(self).well_formed(),
            forall|other: OpType| #[trigger]
                final(self).count_of(other) == old(self).count_of(other),
            final(self).latencies_of(op) == if old(self).latencies_of(op).len() < LATENCY_WINDOW {
                old(self).latencies_of(op).push(sample)
            } else {
                old(self).latencies_of(op).drop_first().push(sample)
            },
            forall|other: OpType|
                other != op ==> #[trigger] final(self).latencies_of(other) == old(
                    self,
                ).latencies_of(other),
            final(self).created() == old(self).created(),
            final(self).written() == old(self).written(),
            final(self).read() == old(self).read(),
    {
        let i = op.index();
        let ghost before = self.latencies@;
        let mut ring = LatencyBuffer { samples: Vec::new(), pos: 0, count: 0 };
        std::mem::swap(&mut ring, &mut self.latencies[i]);
        ring.record(sample);
        self.latencies.set(i, ring);
        proof {
            assert(self.latencies@ =~= before.update(i as int, ring));
            assert forall|other: OpType| other != op implies #[trigger] self.latencies_of(other)
                == old(self).latencies_of(other) by {
                assert(other.place() != op.place());
                assert(0 <= other.place() < 8);
            }
        }
    }

    /// How often an operation was counted.
    pub fn counter(&self, op: OpType) -> (r: u64)
        requires
            self.well_formed(),
        ensures
            r == self.count_of(op),
    {
        self.counters[op.index()]
    }

    /// Notes that an operation is done: counts it, keeps its latency, and notes when
    /// that was.
    pub fn finish(&mut self, op: OpType, sample: u64, now_us: i64)
        requires
            old(self).well_formed(),
        ensures
            final(self).well_formed(),
            final(self).count_of(op) == if old(self).count_of(op) == u64::MAX {
                0
            } else {
                (old(self).count_of(op) + 1) as u64
            },
            forall|other: OpType|
                other != op ==> #[trigger] final(self).count_of(other) == old(self).count_of(other),
            final(self).latencies_of(op) == if old(self).latencies_of(op).len() < LATENCY_WINDOW {
                old(self).latencies_of(op).push(sample)
            } else {
                old(self).latencies_of(op).drop_first().push(sample)
            },
            forall|other: OpType|
                other != op ==> #[trigger] final(self).latencies_of(other) == old(
                    self,
                ).latencies_of(other),
            final(self).created() == old(self).created(),
            final(self).written() == if op.writes() {
                now_us
            } else {
                old(self).written()
            },
            final(self).read() == if op.writes() {
                old(self).read()
            } else {
                now_us
            },
    {
        self.inc(op);
        self.record_latency(op, sample);
        self.touch(op, now_us);
    }

    /// The percentiles of an operation that was timed.
    fn percentiles(&self, op: OpType) -> (r: LatencyPercentiles)
        requires
            self.well_formed(),
            self.latencies_of(op).len() > 0,
        ensures
            r == LatencyPercentiles::of(self.latencies_of(op)),
    {
        let ring = &self.latencies[op.index()];
        let s = ring.sorted();
        let n = s.len();
        proof {
            ring.lemma_held();
            lemma_same_samples(ring.held(), ring.recent());
            sorting_orders_the_items(ring.recent());
        }
        LatencyPercentiles {
            p50: s[(50 * (n - 1) + 50) / 100],
            p95: s[(95 * (n - 1) + 50) / 100],
            p99: s[(99 * (n - 1) + 50) / 100],
        }
    }

    /// The operations among the first `n` that were timed.
    pub open spec fn timed(self, n: int) -> Seq<OpType>
        decreases n,
    {
        if n <= 0 || n > 8 {
            Seq::empty()
        } else {
            let op = OpType::every()[n - 1];
            if self.latencies_of(op).len() > 0 {
                self.timed(n - 1).push(op)
            } else {
                self.timed(n - 1)
            }
        }
    }

    /// What was counted and timed so far.
    pub fn snapshot(&self) -> (r: MetricsSnapshot)
        requires
            self.well_formed(),
        ensures
            r.counters@.len() == 8,
            forall|i: int|
                0 <= i < 8 ==> (#[trigger] r.counters@[i]).0@ == OpType::every()[i].total_name()
                    && r.counters@[i].1 == self.count_of(OpType::every()[i]),
            r.latencies@.len() == self.timed(8).len(),
            forall|i: int|
                0 <= i < r.latencies@.len() ==> (#[trigger] r.latencies@[i]).0@
                    == self.timed(8)[i].short_name() && r.latencies@[i].1
                    == LatencyPercentiles::of(self.latencies_of(self.timed(8)[i])),
            match self.created() {
                Some(t) => if t.valid() {
                    r.db_created_at matches Some(s) && s@ == text_of_instant(t.secs, t.nanos)
                } else {
                    r.db_created_at is None
                },
                None => r.db_created_at is None,
            },
            stamp_of(r.last_write_at, self.written()),
            stamp_of(r.last_read_at, self.read()),
    {
        let ops = OpType::all();
        let mut counters: Vec<(&'static str, u64)> = Vec::new();
        let mut latencies: Vec<(&'static str, LatencyPercentiles)> = Vec::new();
        let mut i: usize = 0;
        while i < ops.len()
            invariant
                i <= 8,
                self.well_formed(),
                ops@ == OpType::every(),
                ops@.len() == 8,
                counters@.len() == i,
                forall|j: int|
                    0 <= j < i ==> (#[trigger] counters@[j]).0@ == OpType::every()[j].total_name()
                        && counters@[j].1 == self.count_of(OpType::every()[j]),
                latencies@.len() == self.timed(i as int).len(),
                forall|j: int|
                    0 <= j < latencies@.len() ==> (#[trigger] latencies@[j]).0@ == self.timed(
                        i as int,
                    )[j].short_name() && latencies@[j].1 == LatencyPercentiles::of(
                        self.latencies_of(self.timed(i as int)[j]),
                    ),
            decreases 8 - i,
        {
            let op = ops[i];
            let ghost before = latencies@;
            counters.push((op.counter_name(), self.counter(op)));
            if self.latencies[op.index()].len() > 0 {
                latencies.push((op.latency_name(), self.percentiles(op)));
            }
            proof {
                assert(self.timed(i + 1) == if self.latencies_of(op).len() > 0 {
                    self.timed(i as int).push(op)
                } else {
                    self.timed(i as int)
                });
                assert forall|j: int| 0 <= j < latencies@.len() implies (
                #[trigger] latencies@[j]).0@ == self.timed(i + 1)[j].short_name()
                    && latencies@[j].1 == LatencyPercentiles::of(
                    self.latencies_of(self.timed(i + 1)[j]),
                ) by {
                    if j < before.len() {
                        assert(latencies@[j] == before[j]);
                    }
                }
            }
            i += 1;
        }
        let db_created_at = match self.created_at {
            Some(t) => instant_text(t),
            None => None,
        };
        MetricsSnapshot {
            counters,
            latencies,
            db_created_at,
            last_write_at: stamp(self.last_write_at),
            last_read_at: stamp(self.last_read_at),
        }
    }
}

/// An entry of the audit log.
#[derive(Debug)]
pub struct AuditEntry {
    pub timestamp: String,
    pub operation: String,
    pub record_id: String,
    pub table: String,
}

/// A percentile is one of the latencies, and the percentiles do not fall.
pub proof fn percentiles_are_ordered(samples: Seq<u64>)
    requires
        0 < samples.len() <= LATENCY_WINDOW,
    ensures
        samples.contains(LatencyPercentiles::of(samples).p50),
        samples.contains(LatencyPercentiles::of(samples).p95),
        samples.contains(LatencyPercentiles::of(samples).p99),
        number_place(LatencyPercentiles::of(samples).p50) <= number_place(
            LatencyPercentiles::of(samples).p95,
        ) <= number_place(LatencyPercentiles::of(samples).p99),
        !is_number_below(LatencyPercentiles::of(samples).p95, LatencyPercentiles::of(samples).p50),
        !is_number_below(LatencyPercentiles::of(samples).p99, LatencyPercentiles::of(samples).p95),
{
    let s = ranked(samples);
    let n = samples.len() as int;
    sorting_orders_the_items(samples);
    let (a, b, c) = (percentile_place(50, n), percentile_place(95, n), percentile_place(99, n));
    assert(0 <= a <= b <= c < n);
    assert(s.contains(s[a]) && s.contains(s[b]) && s.contains(s[c]));
    crate::order::lemma_ranked_contains(samples, s[a]);
    crate::order::lemma_ranked_contains(samples, s[b]);
    crate::order::lemma_ranked_contains(samples, s[c]);
    assert(a == b || !s[b].before(s[a]));
    assert(b == c || !s[c].before(s[b]));
}

/// Each operation is shown under its own name with its own count, and the latencies of those
/// that were timed under the same name.
pub proof fn counts_are_shown_under_their_names(m: &Metrics, r: MetricsSnapshot)
    requires
        m.well_formed(),
        call_ensures(Metrics::snapshot, (m,), r),
    ensures
        r.counters@.len() == 8,
        r.counters@[0].0@ == "inserts_total"@ && r.counters@[0].1 == m.count_of(OpType::Insert),
        r.counters@[1].0@ == "gets_total"@ && r.counters@[1].1 == m.count_of(OpType::Get),
        r.counters@[2].0@ == "deletes_total"@ && r.counters@[2].1 == m.count_of(OpType::Delete),
        r.counters@[3].0@ == "updates_total"@ && r.counters@[3].1 == m.count_of(OpType::Update),
        r.counters@[4].0@ == "vector_searches_total"@ && r.counters@[4].1 == m.count_of(
            OpType::VectorSearch,
        ),
        r.counters@[5].0@ == "fts_searches_total"@ && r.counters@[5].1 == m.count_of(
            OpType::FtsSearch,
        ),
        r.counters@[6].0@ == "traversals_total"@ && r.counters@[6].1 == m.count_of(
            OpType::Traversal,
        ),
        r.counters@[7].0@ == "recalls_total"@ && r.counters@[7].1 == m.count_of(OpType::Recall),
{
}

/// No two operations share a count: they stand in different places, and all of them in the
/// list of all.
pub proof fn operations_count_apart(a: OpType, b: OpType)
    ensures
        a != b ==> a.place() != b.place(),
        0 <= a.place() < 8,
        OpType::every().len() == 8,
        OpType::every()[a.place()] == a,
{
}

/// An operation that was timed has its percentiles shown, and no other.
pub proof fn timed_operations_are_shown(m: Metrics, n: int, op: OpType)
    requires
        0 <= n <= 8,
    ensures
        m.timed(n).contains(op) <==> op.place() < n && m.latencies_of(op).len() > 0,
    decreases n,
{
    if n > 0 {
        let x = OpType::every()[n - 1];
        timed_operations_are_shown(m, n - 1, op);
        operations_count_apart(x, op);
        operations_count_apart(op, x);
        assert(x.place() == n - 1);
        crate::text::lemma_push_contains(m.timed(n - 1), x, op);
    }
}

/// The place of a percentile is the nearest one to that share of the way from the first to
/// the last latency, and a higher percentile has no earlier place.
pub proof fn percentiles_stand_at_their_share(percent: int, more: int, n: int)
    requires
        0 <= percent <= more <= 100,
        n >= 1,
    ensures
        0 <= percentile_place(percent, n) <= n - 1,
        -50 <= 100 * percentile_place(percent, n) - percent * (n - 1) <= 50,
        percentile_place(percent, n) <= percentile_place(more, n),
        percentile_place(100, n) == n - 1,
        percentile_place(0, n) == 0,
{
    assert(0 <= percent * (n - 1) <= more * (n - 1) <= 100 * (n - 1)) by (nonlinear_arith)
        requires
            0 <= percent <= more <= 100,
            n >= 1,
    ;
    assert(0 * (n - 1) == 0);
}

/// The percentiles of latencies stand at half, at 95 and at 99 hundredths of the way through
/// the sorted latencies.
pub proof fn percentiles_are_sorted_latencies(samples: Seq<u64>)
    requires
        samples.len() > 0,
    ensures
        ({
            let s = ranked(samples);
            let p = LatencyPercentiles::of(samples);
            &&& in_order(s)
            &&& exists|i: int|
                0 <= i < s.len() && #[trigger] s[i] == p.p50 && -50 <= 100 * i - 50 * (samples.len()
                    - 1) <= 50
            &&& exists|i: int|
                0 <= i < s.len() && #[trigger] s[i] == p.p95 && -50 <= 100 * i - 95 * (samples.len()
                    - 1) <= 50
            &&& exists|i: int|
                0 <= i < s.len() && #[trigger] s[i] == p.p99 && -50 <= 100 * i - 99 * (samples.len()
                    - 1) <= 50
        }),
{
    let n = samples.len() as int;
    let s = ranked(samples);
    sorting_orders_the_items(samples);
    percentiles_stand_at_their_share(50, 100, n);
    percentiles_stand_at_their_share(95, 100, n);
    percentiles_stand_at_their_share(99, 100, n);
    let p = LatencyPercentiles::of(samples);
    assert(s[percentile_place(50, n)] == p.p50);
    assert(s[percentile_place(95, n)] == p.p95);
    assert(s[percentile_place(99, n)] == p.p99);
}

/// Inserting, deleting and updating write; all else reads.
pub proof fn changes_are_writes(op: OpType)
    ensures
        op.place() == 0 || op.place() == 2 || op.place() == 3 <==> op.writes(),
{
}

} // verus!
