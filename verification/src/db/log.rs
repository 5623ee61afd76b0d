//! The audit log and the log of slow queries.

use super::Axil;
use crate::metrics::AuditEntry;
use crate::order::{is_number_below, number_below};
use crate::record::{is_internal_table, Record, RecordId};
use crate::text::{decimal, decimal_text, join2, join3, same_text, text_before, text_less};
use crate::time::{micros_text, rfc3339_text, text_of_instant, text_of_micros, Timestamp};
use vstd::prelude::*;
use vstd::string::StringExecFns;

verus! {

/// The entries of the audit log at most.
pub const MAX_AUDIT_ENTRIES: usize = 10_000;

/// The entries of the log of slow queries at most.
pub const MAX_SLOW_QUERIES: usize = 1_000;

/// A number of six digits at least, with zeros in front.
pub open spec fn six_digits(n: nat) -> Seq<char> {
    let d = decimal(n);
    if d.len() < 6 {
        Seq::new((6 - d.len()) as nat, |i: int| '0') + d
    } else {
        d
    }
}

/// A number of six digits at least, with zeros in front.
fn six_digits_text(n: u64) -> (r: String)
    ensures
        r@ == six_digits(n as nat),
{
    let d = decimal_text(n);
    let len = crate::text::chars_of(d.as_str()).len();
    let mut s = String::new();
    let mut i: usize = len;
    while i < 6
        invariant
            i >= len,
            len == d@.len(),
            i <= 6 || i == len,
            s@ == Seq::new((i - len) as nat, |j: int| '0'),
        decreases 6 - i,
    {
        s.push('0');
        i += 1;
        assert(s@ =~= Seq::new((i - len) as nat, |j: int| '0'));
    }
    s.append(d.as_str());
    assert(s@ =~= six_digits(n as nat));
    s
}

/// Hands out the keys of log entries.
#[derive(Debug)]
pub struct LogKeys {
    /// The number of the next entry.
    pub next: u64,
}

impl LogKeys {
    /// The first key has the number 0.
    pub fn new() -> (r: LogKeys)
        ensures
            r.next == 0,
    {
        LogKeys { next: 0 }
    }

    /// The key of an entry that is made now: the time, and a number that goes up by
    /// one from entry to entry.
    pub fn log_key(&mut self, now: Timestamp) -> (r: String)
        requires
            now.valid(),
        ensures
            r@ == text_of_micros(now.secs, now.nanos) + ":"@ + six_digits(old(self).next as nat),
            final(self).next == if old(self).next == u64::MAX {
                0
            } else {
                (old(self).next + 1) as u64
            },
    {
        let n = self.next;
        self.next = if n == u64::MAX {
            0
        } else {
            n + 1
        };
        let stamp = micros_text(now);
        let number = six_digits_text(n);
        join3(stamp.as_str(), ":", number.as_str())
    }
}

impl Axil {
    /// The entry of a write in the audit log, where it is logged: auditing is on,
    /// and the table is the user's.
    pub fn audit(
        &self,
        operation: &str,
        id: &RecordId,
        table: &str,
        now: Timestamp,
    ) -> (r: Option<AuditEntry>)
        requires
            now.valid(),
        ensures
            r is Some <==> self.audits(table@),
            r matches Some(e) ==> e.timestamp@ == text_of_instant(now.secs, now.nanos)
                && e.operation@ == operation@ && e.record_id@ == id@ && e.table@ == table@,
    {
        if !self.audit_enabled || is_internal_table(table) {
            return None;
        }
        Some(write_audit_entry(operation, id, table, now))
    }

    /// The entry of a repair in the audit log, where auditing is on.
    pub fn audit_heal_action(&self, action: &str, detail: &str, now: Timestamp) -> (r: Option<
        AuditEntry,
    >)
        requires
            now.valid(),
        ensures
            r is Some <==> self.audit_enabled,
            r matches Some(e) ==> e.timestamp@ == text_of_instant(now.secs, now.nanos)
                && e.operation@ == "heal:"@ + action@ && e.record_id@.len() == 0 && e.table@
                == detail@,
    {
        if !self.audit_enabled {
            return None;
        }
        Some(
            AuditEntry {
                timestamp: rfc3339_text(now),
                operation: join2("heal:", action),
                record_id: String::new(),
                table: detail.to_owned(),
            },
        )
    }
}

/// An entry of the audit log.
pub fn write_audit_entry(operation: &str, id: &RecordId, table: &str, now: Timestamp) -> (r:
    AuditEntry)
    requires
        now.valid(),
    ensures
        r.timestamp@ == text_of_instant(now.secs, now.nanos),
        r.operation@ == operation@,
        r.record_id@ == id@,
        r.table@ == table@,
{
    AuditEntry {
        timestamp: rfc3339_text(now),
        operation: operation.to_owned(),
        record_id: id.as_str().to_owned(),
        table: table.to_owned(),
    }
}

/// What is asked of the audit log.
#[derive(Debug)]
pub struct AuditFilter {
    pub after: Option<String>,
    pub table: Option<String>,
    pub op: Option<String>,
}

impl AuditFilter {
    /// Whether an entry is asked for: it is later than the time, of the table, and of
    /// the operation, as far as these are given.
    pub open spec fn wants(self, e: AuditEntry) -> bool {
        &&& self.after matches Some(a) ==> text_less(a@, e.timestamp@)
        &&& self.table matches Some(t) ==> e.table@ == t@
        &&& self.op matches Some(o) ==> e.operation@ == o@
    }

    /// Whether an entry is asked for.
    pub fn keeps(&self, e: &AuditEntry) -> (r: bool)
        ensures
            r == self.wants(*e),
    {
        if let Some(a) = &self.after {
            if !text_before(a.as_str(), e.timestamp.as_str()) {
                return false;
            }
        }
        if let Some(t) = &self.table {
            if !same_text(e.table.as_str(), t.as_str()) {
                return false;
            }
        }
        if let Some(o) = &self.op {
            if !same_text(e.operation.as_str(), o.as_str()) {
                return false;
            }
        }
        true
    }
}

/// How many entries are read: as many as are asked for, or all.
pub fn log_limit(limit: Option<usize>, most: usize) -> (r: usize)
    ensures
        r == match limit {
            Some(n) => n,
            None => most,
        },
{
    match limit {
        Some(n) => n,
        None => most,
    }
}

/// The entries of the audit log that are asked for, in order.
pub fn audit_log(entries: Vec<AuditEntry>, filter: &AuditFilter) -> (r: Vec<AuditEntry>)
    ensures
        r@ == entries@.filter(|e: AuditEntry| filter.wants(e)),
{
    let ghost all = entries@;
    let ghost f = |e: AuditEntry| filter.wants(e);
    let mut out: Vec<AuditEntry> = Vec::new();
    proof {
        reveal(Seq::filter);
        assert(out@ =~= all.take(0).filter(f));
    }
    for e in it: entries
        invariant
            it.seq() == all,
            f == |e: AuditEntry| filter.wants(e),
            out@ == all.take(it.index()).filter(f),
    {
        proof {
            reveal(Seq::filter);
            let i = it.index();
            assert(all.take(i + 1).drop_last() =~= all.take(i));
            assert(all.take(i + 1).last() == e);
        }
        if filter.keeps(&e) {
            out.push(e);
        }
    }
    assert(all.take(all.len() as int) =~= all);
    out
}

/// Whether an entry of the log of slow queries is asked for: it is later than the
/// time, where one is given.
pub fn slow_query_wanted(timestamp: &str, after: Option<&str>) -> (r: bool)
    ensures
        r == match after {
            Some(a) => text_less(a@, timestamp@),
            None => true,
        },
{
    match after {
        Some(a) => text_before(a, timestamp),
        None => true,
    }
}

/// A query that took long. The time that it took is held by the bits of its IEEE
/// number.
#[derive(Debug)]
pub struct SlowQueryEntry {
    /// When it was made.
    pub timestamp: String,
    /// What was asked.
    pub command: String,
    /// How many milliseconds it took.
    pub duration_ms: u64,
    /// How many results it had.
    pub result_count: usize,
}

/// The bits of 100, the milliseconds from which on a query is slow unless another
/// threshold is set.
pub const SLOW_QUERY_MS: u64 = 0x4059_0000_0000_0000;

impl Axil {
    /// The entry of a query in the log of slow queries, where it was one: it took more
    /// than the threshold. Both times are held by the bits of their IEEE numbers.
    pub fn record_slow_query(
        threshold_ms: u64,
        command: &str,
        duration_ms: u64,
        result_count: usize,
        now: Timestamp,
    ) -> (r: Option<SlowQueryEntry>)
        requires
            now.valid(),
        ensures
            r is Some <==> is_number_below(threshold_ms, duration_ms),
            r matches Some(e) ==> e.timestamp@ == text_of_instant(now.secs, now.nanos)
                && e.command@ == command@ && e.duration_ms == duration_ms && e.result_count
                == result_count,
    {
        if !number_below(threshold_ms, duration_ms) {
            return None;
        }
        Some(
            SlowQueryEntry {
                timestamp: rfc3339_text(now),
                command: command.to_owned(),
                duration_ms,
                result_count,
            },
        )
    }

    /// The entries of a bulk insert in the audit log, one for each record, where
    /// auditing is on. Here records of internal tables count too.
    pub fn audit_inserts(&self, records: &Vec<Record>, now: Timestamp) -> (r: Vec<AuditEntry>)
        requires
            now.valid(),
        ensures
            r@.len() == if self.audit_enabled {
                records@.len()
            } else {
                0
            },
            forall|i: int|
                0 <= i < r@.len() ==> {
                    &&& (#[trigger] r@[i]).timestamp@ == text_of_instant(now.secs, now.nanos)
                    &&& r@[i].operation@ == "insert"@
                    &&& r@[i].record_id@ == records@[i].id@
                    &&& r@[i].table@ == records@[i].table@
                },
    {
        let mut out: Vec<AuditEntry> = Vec::new();
        if !self.audit_enabled {
            return out;
        }
        let mut i: usize = 0;
        while i < records.len()
            invariant
                i <= records@.len(),
                now.valid(),
                out@.len() == i,
                forall|i: int|
                    0 <= i < out@.len() ==> {
                        &&& (#[trigger] out@[i]).timestamp@ == text_of_instant(now.secs, now.nanos)
                        &&& out@[i].operation@ == "insert"@
                        &&& out@[i].record_id@ == records@[i].id@
                        &&& out@[i].table@ == records@[i].table@
                    },
            decreases records@.len() - i,
        {
            out.push(write_audit_entry("insert", &records[i].id, records[i].table.as_str(), now));
            i += 1;
        }
        out
    }
}

/// Zeros in front of a number change nothing about it.
proof fn lemma_zeros(k: nat, d: Seq<char>)
    ensures
        crate::text::read_decimal(Seq::new(k, |i: int| '0') + d) == crate::text::read_decimal(d),
    decreases d.len(), k,
{
    let z = Seq::new(k, |i: int| '0');
    if d.len() > 0 {
        lemma_zeros(k, d.drop_last());
        assert((z + d).drop_last() =~= z + d.drop_last());
    } else if k > 0 {
        let y = Seq::new((k - 1) as nat, |i: int| '0');
        lemma_zeros((k - 1) as nat, d);
        assert((z + d).drop_last() =~= y + d);
        assert((z + d).last() == '0');
    }
}

/// The number of a log entry takes six digits, or as many as it has where these are more,
/// and reads as the number.
pub proof fn log_numbers_have_six_digits(n: nat)
    ensures
        six_digits(n).len() >= 6,
        six_digits(n).len() > 6 ==> six_digits(n)[0] != '0',
        forall|i: int| 0 <= i < six_digits(n).len() ==> '0' <= (#[trigger] six_digits(n)[i]) <= '9',
        crate::text::read_decimal(six_digits(n)) == n,
{
    crate::text::decimals_read_as_their_numbers(n);
    let d = decimal(n);
    if d.len() < 6 {
        lemma_zeros((6 - d.len()) as nat, d);
    }
}

/// A write is logged where auditing is on, unless the table is one of the database itself,
/// whose name begins with `_`; a repair is logged where auditing is on.
pub proof fn users_writes_are_logged(
    db: &Axil,
    operation: &str,
    id: &RecordId,
    table: &str,
    now: Timestamp,
    r: Option<AuditEntry>,
    h: Option<AuditEntry>,
)
    requires
        now.valid(),
        call_ensures(Axil::audit, (db, operation, id, table, now), r),
        call_ensures(Axil::audit_heal_action, (db, operation, table, now), h),
    ensures
        r is Some <==> db.audit_enabled && !(table@.len() > 0 && table@[0] == '_'),
        h is Some <==> db.audit_enabled,
        r matches Some(e) ==> e.record_id@ == id@ && e.table@ == table@ && e.operation@
            == operation@,
        h matches Some(e) ==> e.record_id@.len() == 0 && e.table@ == table@ && e.operation@.len()
            == operation@.len() + 5,
        r matches Some(e) ==> (h matches Some(f) ==> e.timestamp@ == f.timestamp@),
{
    reveal_strlit("heal:");
    assert("heal:"@.len() == 5);
}

/// An entry of the audit log is read where it is later than the time that is asked for, of
/// the table and of the operation, and entries stay in order.
pub proof fn entries_are_read_as_asked(
    entries: Vec<AuditEntry>,
    filter: &AuditFilter,
    r: Vec<AuditEntry>,
    e: AuditEntry,
)
    requires
        call_ensures(audit_log, (entries, filter), r),
        entries@.contains(e),
    ensures
        filter.after is None && filter.table is None && filter.op is None ==> r@ == entries@,
        r@.contains(e) ==> (filter.table matches Some(t) ==> e.table@ == t@),
        r@.contains(e) ==> (filter.op matches Some(o) ==> e.operation@ == o@),
        r@.contains(e) ==> (filter.after matches Some(a) ==> text_less(a@, e.timestamp@)),
        (filter.table matches Some(t) ==> e.table@ == t@) && (filter.op matches Some(o)
            ==> e.operation@ == o@) && (filter.after matches Some(a) ==> text_less(
            a@,
            e.timestamp@,
        )) ==> r@.contains(e),
{
    let p = |x: AuditEntry| filter.wants(x);
    let s = entries@;
    if r@.contains(e) {
        let i = choose|i: int| 0 <= i < r@.len() && r@[i] == e;
        s.lemma_filter_pred(p, i);
        assert(p(e));
    }
    if filter.after is None && filter.table is None && filter.op is None {
        lemma_all_pass(s, p);
    }
    let i = choose|i: int| 0 <= i < s.len() && s[i] == e;
    if p(e) {
        lemma_passes(s, p, i);
    }
}

/// A filter that takes everything changes nothing.
proof fn lemma_all_pass<A>(s: Seq<A>, p: spec_fn(A) -> bool)
    requires
        forall|a: A| #[trigger] p(a),
    ensures
        s.filter(p) == s,
    decreases s.len(),
{
    reveal(Seq::filter);
    if s.len() > 0 {
        lemma_all_pass(s.drop_last(), p);
        assert(p(s.last()));
        assert(s =~= s.drop_last().push(s.last()));
    } else {
        assert(s.filter(p) =~= s);
    }
}

/// What a filter takes is in what it leaves.
proof fn lemma_passes<A>(s: Seq<A>, p: spec_fn(A) -> bool, i: int)
    requires
        0 <= i < s.len(),
        p(s[i]),
    ensures
        s.filter(p).contains(s[i]),
    decreases s.len(),
{
    reveal(Seq::filter);
    let f = s.drop_last().filter(p);
    if i < s.len() - 1 {
        lemma_passes(s.drop_last(), p, i);
        if p(s.last()) {
            crate::text::lemma_push_contains(f, s.last(), s[i]);
        }
    } else {
        assert(s.filter(p) == f.push(s[i]));
        assert(f.push(s[i])[f.len() as int] == s[i]);
    }
}

/// A query that took longer than another is slow where the other is, and one is slow at a
/// lower threshold where it is at a higher one. A query that took just the threshold is not.
pub proof fn longer_queries_are_slow_too(
    threshold: u64,
    command: &str,
    took: u64,
    longer: u64,
    results: usize,
    now: Timestamp,
    r: Option<SlowQueryEntry>,
    s: Option<SlowQueryEntry>,
)
    requires
        now.valid(),
        call_ensures(Axil::record_slow_query, (threshold, command, took, results, now), r),
        call_ensures(Axil::record_slow_query, (threshold, command, longer, results, now), s),
    ensures
        r is Some && is_number_below(took, longer) ==> s is Some,
        took == threshold ==> r is None,
        is_number_below(threshold, took) ==> (r matches Some(e) && e.duration_ms == took
            && e.result_count == results && e.command@ == command@),
        is_number_below(took, threshold) ==> r is None,
{
}

/// A bulk insert is logged record by record, in order, where auditing is on.
pub proof fn bulk_inserts_are_logged_one_by_one(
    db: &Axil,
    records: &Vec<Record>,
    now: Timestamp,
    r: Vec<AuditEntry>,
    i: int,
)
    requires
        now.valid(),
        call_ensures(Axil::audit_inserts, (db, records, now), r),
        0 <= i < records@.len(),
    ensures
        !db.audit_enabled ==> r@.len() == 0,
        db.audit_enabled ==> r@.len() == records@.len() && r@[i].record_id@ == records@[i].id@
            && r@[i].table@ == records@[i].table@ && r@[i].operation@ == "insert"@,
{
}

/// Entries are read up to the limit that is asked for, and all of them where none is; those
/// of slow queries from the time on that is asked for.
pub proof fn limits_are_taken_as_asked(
    limit: Option<usize>,
    most: usize,
    n: usize,
    t: &str,
    after: Option<&str>,
    wanted: bool,
)
    requires
        call_ensures(log_limit, (limit, most), n),
        call_ensures(slow_query_wanted, (t, after), wanted),
    ensures
        limit matches Some(l) ==> n == l,
        limit is None ==> n == most,
        after is None ==> wanted,
        after matches Some(a) ==> (wanted <==> text_less(a@, t@)),
{
}

} // verus!
