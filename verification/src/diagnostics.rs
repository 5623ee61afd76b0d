//! What the checks of a database report.

use crate::ratio::{nearest, nearest_double, round_even, round_half_even};
use crate::text::{decimal, decimal_text};
use vstd::prelude::*;
use vstd::string::StringExecFns;

verus! {

/// How bad a finding is.
#[derive(Clone, Copy, Debug, PartialEq, Eq, Structural)]
pub enum Severity {
    Fine,
    Warning,
    Error,
}

impl Severity {
    /// The levels in their order.
    pub open spec fn level(self) -> int {
        match self {
            Severity::Fine => 0,
            Severity::Warning => 1,
            Severity::Error => 2,
        }
    }

    /// The worse of two levels.
    pub open spec fn worse(self, other: Severity) -> Severity {
        if self.level() >= other.level() {
            self
        } else {
            other
        }
    }

    /// The worse of two levels.
    pub fn max(self, other: Severity) -> (r: Severity)
        ensures
            r == self.worse(other),
    {
        match (self, other) {
            (Severity::Error, _) | (_, Severity::Error) => Severity::Error,
            (Severity::Warning, _) | (_, Severity::Warning) => Severity::Warning,
            _ => Severity::Fine,
        }
    }
}

/// The result of one check.
#[derive(Debug)]
pub struct CheckResult {
    pub name: String,
    pub status: Severity,
    pub detail: String,
    pub fix: Option<String>,
}

/// The result of a check, in the model.
#[verifier::ext_equal]
pub struct CheckView {
    pub name: Seq<char>,
    pub status: Severity,
    pub detail: Seq<char>,
    pub fix: Option<Seq<char>>,
}

impl View for CheckResult {
    type V = CheckView;

    open spec fn view(&self) -> CheckView {
        CheckView {
            name: self.name@,
            status: self.status,
            detail: self.detail@,
            fix: match self.fix {
                Some(f) => Some(f@),
                None => None,
            },
        }
    }
}

/// The results of the checks, in the model.
pub open spec fn checks_view(c: Seq<CheckResult>) -> Seq<CheckView> {
    c.map_values(|x: CheckResult| x@)
}

/// The worst status among checks.
pub open spec fn worst(checks: Seq<CheckView>) -> Severity
    decreases checks.len(),
{
    if checks.len() == 0 {
        Severity::Fine
    } else {
        worst(checks.drop_last()).worse(checks.last().status)
    }
}

/// The results of all checks.
#[derive(Debug)]
pub struct DoctorReport {
    pub status: Severity,
    pub checks: Vec<CheckResult>,
}

impl DoctorReport {
    /// Whether the status is the worst among the checks.
    pub open spec fn consistent(self) -> bool {
        self.status == worst(checks_view(self.checks@))
    }

    /// The report of a list of checks.
    pub fn from_checks(checks: Vec<CheckResult>) -> (r: DoctorReport)
        ensures
            r.checks == checks,
            r.consistent(),
    {
        let mut status = Severity::Fine;
        let mut i: usize = 0;
        let ghost all = checks_view(checks@);
        while i < checks.len()
            invariant
                i <= checks@.len(),
                all == checks_view(checks@),
                status == worst(all.take(i as int)),
            decreases checks@.len() - i,
        {
            status = status.max(checks[i].status);
            i += 1;
            assert(all.take(i as int).drop_last() =~= all.take(i - 1));
        }
        assert(all.take(i as int) =~= all);
        DoctorReport { status, checks }
    }

    /// Adds a check.
    pub fn add_check(&mut self, check: CheckResult)
        ensures
            final(self).checks@ == old(self).checks@.push(check),
            final(self).status == old(self).status.worse(check.status),
            old(self).consistent() ==> final(self).consistent(),
    {
        self.status = self.status.max(check.status);
        self.checks.push(check);
        proof {
            let all = checks_view(self.checks@);
            assert(all.drop_last() =~= checks_view(old(self).checks@));
        }
    }

    /// The exit code of a program that shows the report: 0 where all is well, 1
    /// with warnings, 2 with errors.
    pub fn exit_code(&self) -> (r: i32)
        ensures
            r == self.status.level(),
    {
        match self.status {
            Severity::Fine => 0,
            Severity::Warning => 1,
            Severity::Error => 2,
        }
    }
}

/// The overall status is at least as bad as that of every check, and it is that
/// of some check where it is not `Fine`.
pub proof fn reports_show_the_worst_check(checks: Seq<CheckView>)
    ensures
        forall|i: int|
            0 <= i < checks.len() ==> (#[trigger] checks[i]).status.level() <= worst(
                checks,
            ).level(),
        worst(checks) == Severity::Fine || exists|i: int|
            0 <= i < checks.len() && (#[trigger] checks[i]).status == worst(checks),
    decreases checks.len(),
{
    if checks.len() > 0 {
        let d = checks.drop_last();
        reports_show_the_worst_check(d);
        assert forall|i: int| 0 <= i < checks.len() implies (
        #[trigger] checks[i]).status.level() <= worst(checks).level() by {
            if i < d.len() {
                assert(d[i] == checks[i]);
            }
        }
        if worst(checks) != checks.last().status && worst(checks) != Severity::Fine {
            let i = choose|i: int| 0 <= i < d.len() && (#[trigger] d[i]).status == worst(d);
            assert(checks[i] == d[i]);
        }
    }
}

/// What is known of the database as a whole.
#[derive(Debug)]
pub struct DatabaseMeta {
    pub path: String,
    pub size_bytes: u64,
    pub size_human: String,
    pub created: Option<String>,
    pub last_write: Option<String>,
    pub last_read: Option<String>,
}

/// What is known of the indexes.
#[derive(Clone, Copy, Debug, PartialEq, Eq, Structural)]
pub struct IndexStats {
    pub vectors: usize,
    pub vector_dimensions: usize,
    pub fts_enabled: bool,
    pub edges: usize,
    pub timeseries_entries: usize,
}

/// The system that a benchmark ran on.
#[derive(Debug)]
pub struct SystemInfo {
    pub os: String,
    pub arch: String,
}

/// One action of a repair.
#[derive(Debug)]
pub struct HealAction {
    pub action: String,
    pub result: String,
}

/// An action of a repair, in the model.
#[verifier::ext_equal]
pub struct HealView {
    pub action: Seq<char>,
    pub result: Seq<char>,
}

impl View for HealAction {
    type V = HealView;

    open spec fn view(&self) -> HealView {
        HealView { action: self.action@, result: self.result@ }
    }
}

/// The actions of a repair, in the model.
pub open spec fn actions_view(a: Seq<HealAction>) -> Seq<HealView> {
    a.map_values(|x: HealAction| x@)
}

/// What a repair did.
#[derive(Debug)]
pub struct SelfHealReport {
    pub healed: bool,
    pub actions: Vec<HealAction>,
}

/// What became of a rebuild of the vector index.
#[derive(Debug)]
pub struct VectorRebuildReport {
    pub rebuilt: bool,
    pub reason: String,
    pub old_size: usize,
    pub new_size: usize,
    pub deleted_removed: usize,
}

/// The state of a database at one time. The share of live records is given by its
/// two counts.
#[derive(Debug)]
pub struct MetricsHistoryEntry {
    pub timestamp: String,
    pub record_count: usize,
    pub file_size_bytes: u64,
    pub vector_count: usize,
    pub edge_count: usize,
    pub live_ratio: Ratio,
}

/// A problem that was found.
#[derive(Debug)]
pub struct ProblemDetection {
    pub detector: String,
    pub severity: Severity,
    pub message: String,
    pub recommendation: String,
    pub auto_fixable: bool,
}

/// A problem, in the model.
#[verifier::ext_equal]
pub struct ProblemView {
    pub detector: Seq<char>,
    pub severity: Severity,
    pub message: Seq<char>,
    pub recommendation: Seq<char>,
    pub auto_fixable: bool,
}

impl View for ProblemDetection {
    type V = ProblemView;

    open spec fn view(&self) -> ProblemView {
        ProblemView {
            detector: self.detector@,
            severity: self.severity,
            message: self.message@,
            recommendation: self.recommendation@,
            auto_fixable: self.auto_fixable,
        }
    }
}

/// The problems, in the model.
pub open spec fn problems_view(p: Seq<ProblemDetection>) -> Seq<ProblemView> {
    p.map_values(|x: ProblemDetection| x@)
}

/// The part of a report on storage.
#[derive(Debug)]
pub struct StorageSection {
    pub status: Severity,
    pub size: String,
    pub record_count: usize,
    pub table_count: usize,
}

/// The part of a report on speed.
#[derive(Clone, Copy, Debug, PartialEq, Eq, Structural)]
pub struct PerformanceSection {
    pub status: Severity,
    pub slow_queries_count: usize,
}

/// A ratio of two counts.
#[derive(Clone, Copy, Debug, PartialEq, Eq, Structural)]
pub struct Ratio {
    pub part: usize,
    pub whole: usize,
}

/// The part of a report on the indexes. The deletion ratio is given by its two
/// counts: the deleted vectors and all of them.
#[derive(Clone, Copy, Debug, PartialEq, Eq, Structural)]
pub struct IndexSection {
    pub status: Severity,
    pub vectors: usize,
    pub edges: usize,
    pub orphaned_edges: usize,
    pub vector_deletion_ratio: Option<Ratio>,
}

/// The part of a report on the records. The share of live records is given by its
/// two counts: the live records and all of them.
#[derive(Clone, Copy, Debug, PartialEq, Eq, Structural)]
pub struct DataQualitySection {
    pub status: Severity,
    pub expired_records: usize,
    pub superseded_records: usize,
    pub live_ratio: Ratio,
}

/// The parts of a report.
#[derive(Debug)]
pub struct HealthSections {
    pub storage: StorageSection,
    pub performance: PerformanceSection,
    pub indexes: IndexSection,
    pub data_quality: DataQualitySection,
}

/// A report on the health of a database.
#[derive(Debug)]
pub struct HealthReport {
    pub generated_at: String,
    pub overall_health: String,
    pub score: u32,
    pub summary: String,
    pub sections: HealthSections,
    pub recommendations: Vec<Recommendation>,
}

/// Something that the reader of a report should do.
#[derive(Debug)]
pub struct Recommendation {
    pub priority: String,
    pub action: String,
    pub auto_fixable: bool,
    pub command: String,
}

/// A recommendation, in the model.
#[verifier::ext_equal]
pub struct RecommendationView {
    pub priority: Seq<char>,
    pub action: Seq<char>,
    pub auto_fixable: bool,
    pub command: Seq<char>,
}

impl View for Recommendation {
    type V = RecommendationView;

    open spec fn view(&self) -> RecommendationView {
        RecommendationView {
            priority: self.priority@,
            action: self.action@,
            auto_fixable: self.auto_fixable,
            command: self.command@,
        }
    }
}

/// The recommendations, in the model.
pub open spec fn recommendations_view(r: Seq<Recommendation>) -> Seq<RecommendationView> {
    r.map_values(|x: Recommendation| x@)
}

/// What a compaction did.
#[derive(Clone, Copy, Debug, PartialEq, Eq, Structural)]
pub struct CompactReport {
    pub compacted: bool,
    pub purged_expired: usize,
    pub purged_superseded: usize,
    pub cleaned_orphaned_edges: usize,
    pub cleaned_orphaned_vectors: usize,
    pub cleaned_orphaned_fts: usize,
    pub freed_estimate_bytes: u64,
}

/// What became of the file of an engine that was taken out.
#[derive(Debug)]
pub struct DropEngineReport {
    pub engine: String,
    pub suffix: String,
    pub path: String,
    pub existed: bool,
    pub bytes_freed: u64,
}

/// Bytes in a kilobyte.
pub const KB: u64 = 1024;

/// Bytes in a megabyte.
pub const MB: u64 = 1_048_576;

/// Bytes in a gigabyte.
pub const GB: u64 = 1_073_741_824;

/// The quotient of the IEEE number nearest to a count and a power of two, in
/// tenths, rounded with halves to the even one.
pub open spec fn tenths(bytes: u64, unit: u64) -> nat {
    round_even(10 * nearest(bytes), unit as nat) / unit as nat
}

/// A number of tenths, with one digit behind the point.
pub open spec fn tenths_text(t: nat) -> Seq<char> {
    decimal(t / 10) + "."@ + decimal(t % 10)
}

/// A number of bytes as it is shown.
pub open spec fn bytes_text(bytes: u64) -> Seq<char> {
    if bytes >= GB {
        tenths_text(tenths(bytes, GB)) + " GB"@
    } else if bytes >= MB {
        tenths_text(tenths(bytes, MB)) + " MB"@
    } else if bytes >= KB {
        tenths_text(tenths(bytes, KB)) + " KB"@
    } else {
        decimal(bytes as nat) + " B"@
    }
}

/// A quotient in tenths, with one digit behind the point.
fn scaled_text(bytes: u64, unit: u64) -> (r: String)
    requires
        1024 <= unit <= GB,
    ensures
        r@ == tenths_text(tenths(bytes, unit)),
{
    let x = 10 * nearest_double(bytes);
    let t = round_half_even(x, unit as u128) / (unit as u128);
    proof {
        assert(t <= u64::MAX) by (nonlinear_arith)
            requires
                t as int == round_even(x as nat, unit as nat) as int / unit as int,
                round_even(x as nat, unit as nat) <= 10 * 0x1_0000_0000_0000_0800 + unit,
                1024 <= unit <= 1_073_741_824,
        ;
    }
    let n = t as u64;
    let mut s = decimal_text(n / 10);
    s.append(".");
    s.append(decimal_text(n % 10).as_str());
    s
}

/// A number of bytes, as it is shown to people.
pub fn human_bytes(bytes: u64) -> (r: String)
    ensures
        r@ == bytes_text(bytes),
{
    if bytes >= GB {
        let mut s = scaled_text(bytes, GB);
        s.append(" GB");
        s
    } else if bytes >= MB {
        let mut s = scaled_text(bytes, MB);
        s.append(" MB");
        s
    } else if bytes >= KB {
        let mut s = scaled_text(bytes, KB);
        s.append(" KB");
        s
    } else {
        let mut s = decimal_text(bytes);
        s.append(" B");
        s
    }
}

/// Of two levels, an error is worse than a warning, and a warning than none.
pub proof fn errors_are_worse_than_warnings(a: Severity, b: Severity, r: Severity)
    requires
        call_ensures(Severity::max, (a, b), r),
    ensures
        r == Severity::Error <==> a == Severity::Error || b == Severity::Error,
        r == Severity::Fine <==> a == Severity::Fine && b == Severity::Fine,
{
}

/// A report is an error where some check is, a warning where some check is and none is an
/// error, and fine where all are; a program that shows it exits with 2, 1 and 0.
pub proof fn programs_exit_with_the_worst_check(
    checks: Vec<CheckResult>,
    r: DoctorReport,
    code: i32,
    i: int,
)
    requires
        call_ensures(DoctorReport::from_checks, (checks,), r),
        call_ensures(DoctorReport::exit_code, (&r,), code),
        0 <= i < checks@.len(),
    ensures
        checks@[i].status == Severity::Error ==> code == 2 && r.status == Severity::Error,
        checks@[i].status == Severity::Warning ==> code == 1 || code == 2,
        (forall|j: int|
            0 <= j < checks@.len() ==> (#[trigger] checks@[j]).status != Severity::Error) ==> code
            <= 1,
        (forall|j: int|
            0 <= j < checks@.len() ==> (#[trigger] checks@[j]).status == Severity::Fine) ==> code
            == 0 && r.status == Severity::Fine,
        code == 0 || code == 1 || code == 2,
{
    let v = checks_view(r.checks@);
    assert(v.len() == checks@.len());
    assert forall|j: int| 0 <= j < v.len() implies #[trigger] v[j] == checks@[j]@ by {}
    reports_show_the_worst_check(v);
    assert(v[i].status == checks@[i].status);
    if worst(v) != Severity::Fine {
        let j = choose|j: int| 0 <= j < v.len() && (#[trigger] v[j]).status == worst(v);
        assert(checks@[j].status == worst(v));
    }
}

/// Bytes are shown in the largest unit that is not more than they are: as they are below
/// 1024, and with one digit behind the point above.
pub proof fn bytes_are_shown_in_their_unit(bytes: u64, r: String)
    requires
        call_ensures(human_bytes, (bytes,), r),
    ensures
        bytes < 1024 ==> r@ == decimal(bytes as nat) + " B"@,
        1024 <= bytes < 1024 * 1024 ==> " KB"@.is_suffix_of(r@),
        1024 * 1024 <= bytes < 1024 * 1024 * 1024 ==> " MB"@.is_suffix_of(r@),
        1024 * 1024 * 1024 <= bytes ==> " GB"@.is_suffix_of(r@),
{
    let k = tenths_text(tenths(bytes, KB));
    let m = tenths_text(tenths(bytes, MB));
    let g = tenths_text(tenths(bytes, GB));
    assert((k + " KB"@).subrange(k.len() as int, (k + " KB"@).len() as int) =~= " KB"@);
    assert((m + " MB"@).subrange(m.len() as int, (m + " MB"@).len() as int) =~= " MB"@);
    assert((g + " GB"@).subrange(g.len() as int, (g + " GB"@).len() as int) =~= " GB"@);
}

/// The tenths that are shown of bytes below `2^49` are the nearest ones: no further off than
/// half a tenth of the unit.
pub proof fn tenths_are_the_nearest(bytes: u64, unit: u64)
    requires
        bytes < 0x2_0000_0000_0000,
        unit > 0,
    ensures
        2 * (tenths(bytes, unit) * unit) <= 20 * bytes + unit,
        20 * bytes <= 2 * (tenths(bytes, unit) * unit) + unit,
{
    crate::ratio::small_counts_are_exact(bytes);
    let n: nat = 10 * (bytes as nat);
    let u: nat = unit as nat;
    let q = n / u;
    let p = n % u;
    assert(q * u + p == n && p < u) by (nonlinear_arith)
        requires
            q == n / u,
            p == n % u,
            u > 0,
    ;
    assert((q * u) / u == q && ((q + 1) * u) / u == q + 1) by (nonlinear_arith)
        requires
            u > 0,
    ;
    assert((q + 1) * u == q * u + u) by (nonlinear_arith);
}

/// A number of tenths is shown by its whole part and its last digit.
pub proof fn tenths_are_shown_with_a_point(t: nat)
    ensures
        exists|k: int|
            0 < k && k + 2 == tenths_text(t).len() && tenths_text(t)[k] == '.'
                && crate::text::read_decimal(#[trigger] tenths_text(t).take(k)) == t / 10
                && tenths_text(t)[k + 1] as u32 - 48 == t % 10,
{
    reveal_strlit(".");
    crate::text::decimals_read_as_their_numbers(t / 10);
    crate::text::decimals_read_as_their_numbers(t % 10);
    let a = decimal(t / 10);
    let b = decimal(t % 10);
    let k = a.len() as int;
    assert(b.len() == 1);
    assert(crate::text::read_decimal(b.drop_last()) == 0);
    assert(tenths_text(t).take(k) =~= a);
    assert(tenths_text(t)[k + 1] == b[0]);
    assert(b.last() == b[0]);
}

} // verus!
