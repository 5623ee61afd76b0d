//! Checks of a database, and the problems that are found in it.

use super::Axil;
use crate::diagnostics::{
    bytes_text, checks_view, human_bytes, problems_view, CheckResult, CheckView, DoctorReport,
    ProblemDetection, ProblemView, Severity,
};
use crate::ratio::{is_ratio_above, is_ratio_below, ratio_above, ratio_below};
use crate::text::{
    collected, count_text, decimal, join2, join3, join4, join5, join7, join9,
};
use vstd::prelude::*;

verus! {

/// A table with the number of its records, and its share of all records in percent
/// as it is shown.
#[derive(Debug)]
pub struct TableCount {
    pub name: String,
    pub count: usize,
    pub percent: String,
}

/// The number of records in all tables together.
pub open spec fn table_sum(tables: Seq<TableCount>) -> nat
    decreases tables.len(),
{
    if tables.len() == 0 {
        0
    } else {
        table_sum(tables.drop_last()) + tables.last().count as nat
    }
}

/// The number of records in the first tables is at most that in all.
proof fn lemma_table_sum(tables: Seq<TableCount>, i: int)
    requires
        0 <= i <= tables.len(),
    ensures
        table_sum(tables.take(i)) <= table_sum(tables),
    decreases tables.len(),
{
    if i == tables.len() {
        assert(tables.take(i) =~= tables);
    } else {
        lemma_table_sum(tables.drop_last(), i);
        assert(tables.drop_last().take(i) =~= tables.take(i));
    }
}

/// The number of records in all tables together.
pub fn sum_tables(tables: &Vec<TableCount>) -> (n: usize)
    requires
        table_sum(tables@) <= usize::MAX,
    ensures
        n == table_sum(tables@),
{
    let mut n: usize = 0;
    let mut i: usize = 0;
    while i < tables.len()
        invariant
            i <= tables@.len(),
            n == table_sum(tables@.take(i as int)),
            table_sum(tables@) <= usize::MAX,
        decreases tables@.len() - i,
    {
        proof {
            lemma_table_sum(tables@, i + 1);
            assert(tables@.take(i + 1).drop_last() =~= tables@.take(i as int));
        }
        n += tables[i].count;
        i += 1;
    }
    assert(tables@.take(i as int) =~= tables@);
    n
}

/// What is known of the vector index.
#[derive(Debug)]
pub struct VectorFacts {
    pub count: usize,
    pub deleted: usize,
    pub dimensions: usize,
    /// The share of the deleted ones, in percent as it is shown.
    pub deleted_percent: String,
}

/// What is known of the graph.
#[derive(Clone, Copy, Debug, PartialEq, Eq, Structural)]
pub struct GraphFacts {
    pub edges: usize,
    pub orphaned: usize,
}

/// What the checks look at.
#[derive(Debug)]
pub struct DoctorFacts {
    /// The number of records, or the message of the error that counting them gave.
    pub total: core::result::Result<usize, String>,
    pub tables: Vec<TableCount>,
    pub vector: Option<VectorFacts>,
    /// The number of records without the embedding that they should have.
    pub missing_embeddings: usize,
    pub graph: Option<GraphFacts>,
    /// The number of entries of the time index, where there is one.
    pub timeseries: Option<usize>,
    /// The number of records that are not in the full-text index though they
    /// should be, where there is one.
    pub missing_fts: Option<usize>,
    pub total_size: u64,
}

/// A check that found nothing.
pub open spec fn fine(name: Seq<char>, detail: Seq<char>) -> CheckView {
    CheckView { name, status: Severity::Fine, detail, fix: None }
}

/// A check that found something to mend.
pub open spec fn mendable(name: Seq<char>, detail: Seq<char>, fix: Seq<char>) -> CheckView {
    CheckView { name, status: Severity::Warning, detail, fix: Some(fix) }
}

/// Whether a file is large for what it holds: over 10 MB with under 100 records.
pub open spec fn bloated(size: u64, records: nat) -> bool {
    size > 10_485_760 && records < 100
}

impl DoctorFacts {
    /// The number of records, 0 where they could not be counted.
    pub open spec fn records(self) -> nat {
        match self.total {
            Ok(n) => n as nat,
            Err(_) => 0,
        }
    }

    /// The check that the records can be read.
    pub open spec fn readable(self) -> CheckView {
        match self.total {
            Ok(n) => fine(
                "database_readable"@,
                "database file valid, "@ + decimal(n as nat) + " records"@,
            ),
            Err(e) => CheckView {
                name: "database_readable"@,
                status: Severity::Error,
                detail: "database read error: "@ + e@,
                fix: None,
            },
        }
    }

    /// The check that the tables hold all records.
    pub open spec fn integrity(self) -> CheckView {
        let sum = table_sum(self.tables@);
        if self.records() == sum {
            fine(
                "record_integrity"@,
                decimal(self.records()) + " records verified across "@ + decimal(self.tables@.len())
                    + " tables"@,
            )
        } else {
            mendable(
                "record_integrity"@,
                "record count mismatch: total="@ + decimal(self.records()) + " but table sum="@
                    + decimal(sum),
                "axil compact"@,
            )
        }
    }

    /// The check of the vector index.
    pub open spec fn vectors(self, v: VectorFacts) -> CheckView {
        let found = decimal(v.count as nat) + " vectors indexed, dimensions="@ + decimal(
            v.dimensions as nat,
        );
        if self.missing_embeddings == 0 {
            fine("vector_index"@, found)
        } else {
            mendable(
                "vector_index"@,
                found + "; "@ + decimal(self.missing_embeddings as nat)
                    + " record(s) missing an embedding"@,
                "axil heal --reindex"@,
            )
        }
    }

    /// The check of the graph.
    pub open spec fn edges(self, g: GraphFacts) -> CheckView {
        if g.orphaned == 0 {
            fine("orphaned_edges"@, decimal(g.edges as nat) + " edges, no orphans"@)
        } else {
            mendable(
                "orphaned_edges"@,
                decimal(g.orphaned as nat) + " orphaned edges found (of "@ + decimal(g.edges as nat)
                    + " total)"@,
                "axil heal"@,
            )
        }
    }

    /// The check of the full-text index.
    pub open spec fn texts(self, missing: usize) -> CheckView {
        if missing == 0 {
            fine("fts_index"@, "FTS index present"@)
        } else {
            mendable(
                "fts_index"@,
                "FTS index present; "@ + decimal(missing as nat)
                    + " record(s) missing an FTS document"@,
                "axil heal --reindex"@,
            )
        }
    }

    /// The check of the size of the files.
    pub open spec fn storage(self) -> CheckView {
        if bloated(self.total_size, self.records()) {
            mendable(
                "storage_efficiency"@,
                "large file ("@ + bytes_text(self.total_size) + ") with few records ("@ + decimal(
                    self.records(),
                ) + ") — may benefit from compaction"@,
                "axil compact"@,
            )
        } else {
            fine(
                "storage_efficiency"@,
                bytes_text(self.total_size) + " total, "@ + decimal(self.records()) + " records"@,
            )
        }
    }

    /// All checks, in order: a check of an engine is there where the engine is.
    pub open spec fn checks(self) -> Seq<CheckView> {
        let c = seq![self.readable(), self.integrity()];
        let c = match self.vector {
            Some(v) => c.push(self.vectors(v)),
            None => c,
        };
        let c = match self.graph {
            Some(g) => c.push(self.edges(g)),
            None => c,
        };
        let c = match self.timeseries {
            Some(n) => c.push(
                fine("timeseries_index"@, decimal(n as nat) + " time entries indexed"@),
            ),
            None => c,
        };
        let c = match self.missing_fts {
            Some(n) => c.push(self.texts(n)),
            None => c,
        };
        c.push(self.storage())
    }
}

/// A check that found nothing.
fn fine_check(name: &str, detail: String) -> (r: CheckResult)
    ensures
        r@ == fine(name@, detail@),
{
    CheckResult { name: name.to_owned(), status: Severity::Fine, detail, fix: None }
}

/// A check that found something to mend.
fn mendable_check(name: &str, detail: String, fix: &str) -> (r: CheckResult)
    ensures
        r@ == mendable(name@, detail@, fix@),
{
    CheckResult {
        name: name.to_owned(),
        status: Severity::Warning,
        detail,
        fix: Some(fix.to_owned()),
    }
}

/// Adds a check.
fn note(checks: &mut Vec<CheckResult>, c: CheckResult)
    ensures
        checks_view(final(checks)@) == checks_view(old(checks)@).push(c@),
{
    checks.push(c);
    assert(checks_view(checks@) =~= checks_view(old(checks)@).push(c@));
}

impl Axil {
    /// Judges what was found in a database, check by check.
    pub fn doctor(facts: &DoctorFacts) -> (r: DoctorReport)
        requires
            table_sum(facts.tables@) <= usize::MAX,
        ensures
            checks_view(r.checks@) == facts.checks(),
            r.consistent(),
    {
        let mut checks: Vec<CheckResult> = Vec::new();
        let total: usize = match &facts.total {
            Ok(n) => {
                let detail = join3("database file valid, ", count_text(*n).as_str(), " records");
                note(&mut checks, fine_check("database_readable", detail));
                *n
            },
            Err(e) => {
                note(
                    &mut checks,
                    CheckResult {
                        name: "database_readable".to_owned(),
                        status: Severity::Error,
                        detail: join2("database read error: ", e.as_str()),
                        fix: None,
                    },
                );
                0
            },
        };
        let total_text = count_text(total);
        let sum = sum_tables(&facts.tables);
        if total == sum {
            let detail = join4(
                total_text.as_str(),
                " records verified across ",
                count_text(facts.tables.len()).as_str(),
                " tables",
            );
            note(&mut checks, fine_check("record_integrity", detail));
        } else {
            let detail = join4(
                "record count mismatch: total=",
                total_text.as_str(),
                " but table sum=",
                count_text(sum).as_str(),
            );
            note(&mut checks, mendable_check("record_integrity", detail, "axil compact"));
        }
        assert(checks_view(checks@) =~= seq![facts.readable(), facts.integrity()]);
        if let Some(v) = &facts.vector {
            let found = join3(
                count_text(v.count).as_str(),
                " vectors indexed, dimensions=",
                count_text(v.dimensions).as_str(),
            );
            if facts.missing_embeddings == 0 {
                note(&mut checks, fine_check("vector_index", found));
            } else {
                let detail = join4(
                    found.as_str(),
                    "; ",
                    count_text(facts.missing_embeddings).as_str(),
                    " record(s) missing an embedding",
                );
                note(&mut checks, mendable_check("vector_index", detail, "axil heal --reindex"));
            }
        }
        if let Some(g) = &facts.graph {
            if g.orphaned == 0 {
                let detail = join2(count_text(g.edges).as_str(), " edges, no orphans");
                note(&mut checks, fine_check("orphaned_edges", detail));
            } else {
                let detail = join4(
                    count_text(g.orphaned).as_str(),
                    " orphaned edges found (of ",
                    count_text(g.edges).as_str(),
                    " total)",
                );
                note(&mut checks, mendable_check("orphaned_edges", detail, "axil heal"));
            }
        }
        if let Some(n) = facts.timeseries {
            let detail = join2(count_text(n).as_str(), " time entries indexed");
            note(&mut checks, fine_check("timeseries_index", detail));
        }
        if let Some(missing) = facts.missing_fts {
            if missing == 0 {
                note(&mut checks, fine_check("fts_index", "FTS index present".to_owned()));
            } else {
                let detail = join3(
                    "FTS index present; ",
                    count_text(missing).as_str(),
                    " record(s) missing an FTS document",
                );
                note(&mut checks, mendable_check("fts_index", detail, "axil heal --reindex"));
            }
        }
        let size = human_bytes(facts.total_size);
        if facts.total_size > 10_485_760 && total < 100 {
            let detail = join5(
                "large file (",
                size.as_str(),
                ") with few records (",
                total_text.as_str(),
                ") — may benefit from compaction",
            );
            note(&mut checks, mendable_check("storage_efficiency", detail, "axil compact"));
        } else {
            let detail = join4(size.as_str(), " total, ", total_text.as_str(), " records");
            note(&mut checks, fine_check("storage_efficiency", detail));
        }
        DoctorReport::from_checks(checks)
    }
}

/// 0.9 as a 64-bit IEEE number: this over `2^53`.
pub const NINE_TENTHS: u64 = 8_106_479_329_266_893;

/// 0.7 as a 64-bit IEEE number: this over `2^53`.
pub const SEVEN_TENTHS: u64 = 6_305_039_478_318_694;

/// 0.2 as a 64-bit IEEE number: this over `2^55`.
pub const TWO_TENTHS: u64 = 7_205_759_403_792_794;

/// 0.15 as a 64-bit IEEE number: this over `2^55`.
pub const FIFTEEN_HUNDREDTHS: u64 = 5_404_319_552_844_595;

/// `2^51`.
pub const TWO_51: u64 = 0x8_0000_0000_0000;

/// `2^52`.
pub const TWO_52: u64 = 0x10_0000_0000_0000;

/// `2^53`.
pub const TWO_53: u64 = 0x20_0000_0000_0000;

/// `2^54`.
pub const TWO_54: u64 = 0x40_0000_0000_0000;

/// `2^55`.
pub const TWO_55: u64 = 0x80_0000_0000_0000;

/// What problems are looked for in.
#[derive(Debug)]
pub struct ProblemFacts {
    /// The tables, none where they could not be read.
    pub tables: Vec<TableCount>,
    /// The number of records, 0 where they could not be counted.
    pub total: usize,
    pub vector: Option<VectorFacts>,
    /// Whether there is an embedder.
    pub embedder: bool,
    /// The number of records without the embedding that they should have.
    pub missing_embeddings: usize,
    /// The number of records that should be in the full-text index and are not.
    pub missing_fts: usize,
    pub orphaned_edges: usize,
    pub expired: usize,
    pub superseded: usize,
    pub file_size: u64,
}

/// A problem that comes as a warning.
pub open spec fn warning(
    detector: Seq<char>,
    message: Seq<char>,
    recommendation: Seq<char>,
    auto_fixable: bool,
) -> ProblemView {
    ProblemView { detector, severity: Severity::Warning, message, recommendation, auto_fixable }
}

/// The problem that one table holds more than nine tenths of the records.
pub open spec fn hot_table(t: TableCount, total: nat) -> Option<ProblemView> {
    if ratio_above(t.count as u64, total as u64, NINE_TENTHS as nat, TWO_53 as nat) {
        Some(
            warning(
                "hot_table_imbalance"@,
                "Table '"@ + t.name@ + "' contains "@ + t.percent@ + "% of all records ("@
                    + decimal(t.count as nat) + "/"@ + decimal(total) + ")"@,
                "Consider TTL on '"@ + t.name@ + "' table or separate high-volume data"@,
                false,
            ),
        )
    } else {
        None
    }
}

/// The problem that records wait to be purged: a warning where they are many.
pub open spec fn pending(
    detector: Seq<char>,
    count: usize,
    many: usize,
    state: Seq<char>,
) -> ProblemView {
    ProblemView {
        detector,
        severity: if count > many {
            Severity::Warning
        } else {
            Severity::Fine
        },
        message: decimal(count as nat) + " "@ + state + " records pending cleanup"@,
        recommendation: "Run 'axil heal --compact' to purge "@ + state + " records"@,
        auto_fixable: true,
    }
}

impl ProblemFacts {
    /// Whether the counts can be summed up.
    pub open spec fn countable(self) -> bool {
        &&& table_sum(self.tables@) <= usize::MAX
        &&& self.vector matches Some(v) ==> v.count + v.deleted <= usize::MAX
    }

    /// The tables that hold too much, where there are over 100 records.
    pub open spec fn hot_tables(self) -> Seq<ProblemView> {
        let total = table_sum(self.tables@);
        if total > 100 {
            collected(self.tables@, |t: TableCount| hot_table(t, total))
        } else {
            Seq::empty()
        }
    }

    /// Whether there are fewer than half or more than double as many vectors as
    /// records.
    pub open spec fn mismatched(self, v: VectorFacts) -> bool {
        v.count > 0 && self.total > 0 && (ratio_below(
            v.count as u64,
            self.total as u64,
            TWO_53 as nat,
            TWO_54 as nat,
        ) || ratio_above(v.count as u64, self.total as u64, TWO_52 as nat, TWO_51 as nat))
    }

    /// Whether over a fifth of the vectors are deleted ones.
    pub open spec fn decayed(self, v: VectorFacts) -> bool {
        v.count + v.deleted > 0 && ratio_above(
            v.deleted as u64,
            (v.count + v.deleted) as u64,
            TWO_TENTHS as nat,
            TWO_55 as nat,
        )
    }

    /// `p` and the problems of the vector index.
    pub open spec fn with_vectors(self, p: Seq<ProblemView>) -> Seq<ProblemView> {
        match self.vector {
            None => p,
            Some(v) => {
                let p = if self.mismatched(v) {
                    p.push(
                        warning(
                            "index_size_mismatch"@,
                            "Vector count ("@ + decimal(v.count as nat)
                                + ") doesn't match record count ("@ + decimal(self.total as nat)
                                + ")"@,
                            "Consider reindexing: axil heal --reindex"@,
                            true,
                        ),
                    )
                } else {
                    p
                };
                if self.decayed(v) {
                    p.push(
                        warning(
                            "vector_deletion_ratio"@,
                            "Vector index deletion ratio is "@ + v.deleted_percent@ + "% ("@
                                + decimal(v.deleted as nat) + " deleted / "@ + decimal(
                                (v.count + v.deleted) as nat,
                            ) + " total)"@,
                            "Rebuild vector index: axil heal --reindex"@,
                            true,
                        ),
                    )
                } else {
                    p
                }
            },
        }
    }

    /// `p` and the problems of records that an index should know.
    pub open spec fn with_missing(self, p: Seq<ProblemView>) -> Seq<ProblemView> {
        let p = if self.missing_embeddings > 0 {
            p.push(
                warning(
                    "missing_embeddings"@,
                    decimal(self.missing_embeddings as nat)
                        + " record(s) committed without a vector embedding"@,
                    "Re-embed missing records: axil heal --reindex"@,
                    self.embedder,
                ),
            )
        } else {
            p
        };
        if self.missing_fts > 0 {
            p.push(
                warning(
                    "missing_fts"@,
                    decimal(self.missing_fts as nat)
                        + " record(s) committed without an FTS document"@,
                    "Re-index missing records: axil heal --reindex"@,
                    true,
                ),
            )
        } else {
            p
        }
    }

    /// All problems, in order.
    pub open spec fn problems(self) -> Seq<ProblemView> {
        let p = self.with_missing(self.with_vectors(self.hot_tables()));
        let p = if self.orphaned_edges > 0 {
            p.push(
                warning(
                    "orphaned_edges"@,
                    decimal(self.orphaned_edges as nat) + " orphaned edges found"@,
                    "Clean orphans: axil heal --orphans"@,
                    true,
                ),
            )
        } else {
            p
        };
        let p = if self.expired > 0 {
            p.push(pending("expired_records"@, self.expired, 1000, "expired"@))
        } else {
            p
        };
        let p = if self.superseded > 0 {
            p.push(pending("superseded_records"@, self.superseded, 500, "superseded"@))
        } else {
            p
        };
        if bloated(self.file_size, self.total as nat) {
            p.push(
                warning(
                    "storage_bloat"@,
                    "Large file ("@ + bytes_text(self.file_size) + ") with few records ("@
                        + decimal(self.total as nat) + ") — may benefit from compaction"@,
                    "Run 'axil compact' to reclaim space"@,
                    true,
                ),
            )
        } else {
            p
        }
    }
}

/// A problem that comes as a warning.
fn warn(
    problems: &mut Vec<ProblemDetection>,
    detector: &str,
    message: String,
    recommendation: String,
    auto_fixable: bool,
)
    ensures
        problems_view(final(problems)@) == problems_view(old(problems)@).push(
            warning(detector@, message@, recommendation@, auto_fixable),
        ),
{
    problems.push(
        ProblemDetection {
            detector: detector.to_owned(),
            severity: Severity::Warning,
            message,
            recommendation,
            auto_fixable,
        },
    );
    assert(problems_view(problems@) =~= problems_view(old(problems)@).push(
        warning(detector@, message@, recommendation@, auto_fixable),
    ));
}

/// The problem that records wait to be purged.
fn warn_pending(
    problems: &mut Vec<ProblemDetection>,
    detector: &str,
    count: usize,
    many: usize,
    state: &str,
)
    ensures
        problems_view(final(problems)@) == problems_view(old(problems)@).push(
            pending(detector@, count, many, state@),
        ),
{
    problems.push(
        ProblemDetection {
            detector: detector.to_owned(),
            severity: if count > many {
                Severity::Warning
            } else {
                Severity::Fine
            },
            message: join4(count_text(count).as_str(), " ", state, " records pending cleanup"),
            recommendation: join3("Run 'axil heal --compact' to purge ", state, " records"),
            auto_fixable: true,
        },
    );
    assert(problems_view(problems@) =~= problems_view(old(problems)@).push(
        pending(detector@, count, many, state@),
    ));
}

/// Finds the tables that hold too much.
fn find_hot_tables(tables: &Vec<TableCount>, total: usize) -> (problems: Vec<ProblemDetection>)
    ensures
        problems_view(problems@) == collected(
            tables@,
            |t: TableCount| hot_table(t, total as nat),
        ),
{
    let mut problems: Vec<ProblemDetection> = Vec::new();
    let mut i: usize = 0;
    let ghost f = |t: TableCount| hot_table(t, total as nat);
    assert(problems_view(problems@) =~= collected(tables@.take(0), f));
    while i < tables.len()
        invariant
            i <= tables@.len(),
            f == |t: TableCount| hot_table(t, total as nat),
            problems_view(problems@) == collected(tables@.take(i as int), f),
        decreases tables@.len() - i,
    {
        let t = &tables[i];
        proof {
            assert(tables@.take(i + 1).drop_last() =~= tables@.take(i as int));
            assert(tables@.take(i + 1).last() == *t);
        }
        if is_ratio_above(t.count as u64, total as u64, NINE_TENTHS, TWO_53) {
            let message = join9(
                "Table '",
                t.name.as_str(),
                "' contains ",
                t.percent.as_str(),
                "% of all records (",
                count_text(t.count).as_str(),
                "/",
                count_text(total).as_str(),
                ")",
            );
            let recommendation = join3(
                "Consider TTL on '",
                t.name.as_str(),
                "' table or separate high-volume data",
            );
            warn(&mut problems, "hot_table_imbalance", message, recommendation, false);
        }
        i += 1;
    }
    assert(tables@.take(i as int) =~= tables@);
    problems
}

impl Axil {
    /// Finds the problems in what is known of a database.
    pub fn detect_problems_with(facts: &ProblemFacts) -> (r: Vec<ProblemDetection>)
        requires
            facts.countable(),
        ensures
            problems_view(r@) == facts.problems(),
    {
        let sum = sum_tables(&facts.tables);
        let mut problems = if sum > 100 {
            find_hot_tables(&facts.tables, sum)
        } else {
            Vec::new()
        };
        assert(problems_view(problems@) =~= facts.hot_tables());
        if let Some(v) = &facts.vector {
            if v.count > 0 && facts.total > 0 && (is_ratio_below(
                v.count as u64,
                facts.total as u64,
                TWO_53,
                TWO_54,
            ) || is_ratio_above(v.count as u64, facts.total as u64, TWO_52, TWO_51)) {
                let message = join5(
                    "Vector count (",
                    count_text(v.count).as_str(),
                    ") doesn't match record count (",
                    count_text(facts.total).as_str(),
                    ")",
                );
                warn(
                    &mut problems,
                    "index_size_mismatch",
                    message,
                    "Consider reindexing: axil heal --reindex".to_owned(),
                    true,
                );
            }
            let all: usize = v.count + v.deleted;
            if all > 0 && is_ratio_above(v.deleted as u64, all as u64, TWO_TENTHS, TWO_55) {
                let message = join7(
                    "Vector index deletion ratio is ",
                    v.deleted_percent.as_str(),
                    "% (",
                    count_text(v.deleted).as_str(),
                    " deleted / ",
                    count_text(all).as_str(),
                    " total)",
                );
                warn(
                    &mut problems,
                    "vector_deletion_ratio",
                    message,
                    "Rebuild vector index: axil heal --reindex".to_owned(),
                    true,
                );
            }
        }
        assert(problems_view(problems@) == facts.with_vectors(facts.hot_tables()));
        if facts.missing_embeddings > 0 {
            warn(
                &mut problems,
                "missing_embeddings",
                join2(
                    count_text(facts.missing_embeddings).as_str(),
                    " record(s) committed without a vector embedding",
                ),
                "Re-embed missing records: axil heal --reindex".to_owned(),
                facts.embedder,
            );
        }
        if facts.missing_fts > 0 {
            warn(
                &mut problems,
                "missing_fts",
                join2(
                    count_text(facts.missing_fts).as_str(),
                    " record(s) committed without an FTS document",
                ),
                "Re-index missing records: axil heal --reindex".to_owned(),
                true,
            );
        }
        if facts.orphaned_edges > 0 {
            warn(
                &mut problems,
                "orphaned_edges",
                join2(count_text(facts.orphaned_edges).as_str(), " orphaned edges found"),
                "Clean orphans: axil heal --orphans".to_owned(),
                true,
            );
        }
        if facts.expired > 0 {
            warn_pending(&mut problems, "expired_records", facts.expired, 1000, "expired");
        }
        if facts.superseded > 0 {
            warn_pending(&mut problems, "superseded_records", facts.superseded, 500, "superseded");
        }
        if facts.file_size > 10_485_760 && facts.total < 100 {
            let message = join5(
                "Large file (",
                human_bytes(facts.file_size).as_str(),
                ") with few records (",
                count_text(facts.total).as_str(),
                ") — may benefit from compaction",
            );
            warn(
                &mut problems,
                "storage_bloat",
                message,
                "Run 'axil compact' to reclaim space".to_owned(),
                true,
            );
        }
        problems
    }
}

/// The records of tables add up: those of one table are its own, and those of two lists are
/// those of the one and those of the other.
pub proof fn tables_add_up(a: Seq<TableCount>, b: Seq<TableCount>)
    ensures
        table_sum(a + b) == table_sum(a) + table_sum(b),
        a.len() == 1 ==> table_sum(a) == a[0].count,
    decreases b.len(),
{
    if b.len() > 0 {
        tables_add_up(a, b.drop_last());
        assert((a + b).drop_last() =~= a + b.drop_last());
    } else {
        assert(a + b =~= a);
    }
    if a.len() == 1 {
        assert(table_sum(a.drop_last()) == 0);
    }
}

/// Each engine that is there is checked. A check warns where something is missing, and only
/// there: records that the tables do not hold, an embedding, an end of an edge, a document.
/// A file of over 10 MiB with under 100 records is a warning too, and records that cannot be
/// counted are an error.
pub proof fn each_engine_is_checked(facts: &DoctorFacts, r: DoctorReport)
    requires
        table_sum(facts.tables@) <= usize::MAX,
        call_ensures(Axil::doctor, (facts,), r),
    ensures
        ({
            let v: int = if facts.vector is Some {
                1
            } else {
                0
            };
            let g: int = if facts.graph is Some {
                1
            } else {
                0
            };
            let t: int = if facts.timeseries is Some {
                1
            } else {
                0
            };
            let f: int = if facts.missing_fts is Some {
                1
            } else {
                0
            };
            let c = r.checks@;
            &&& c.len() == 3 + v + g + t + f
            &&& facts.total is Err ==> c[0].status == Severity::Error
            &&& facts.total matches Ok(n) ==> c[0].status == Severity::Fine && c[1].status == (if n
                == table_sum(facts.tables@) {
                Severity::Fine
            } else {
                Severity::Warning
            }) && c.last().status == (if facts.total_size > 10 * 1024 * 1024 && n < 100 {
                Severity::Warning
            } else {
                Severity::Fine
            })
            &&& facts.vector is Some ==> c[2].status == (if facts.missing_embeddings > 0 {
                Severity::Warning
            } else {
                Severity::Fine
            })
            &&& facts.graph matches Some(x) ==> c[2 + v].status == (if x.orphaned > 0 {
                Severity::Warning
            } else {
                Severity::Fine
            })
            &&& facts.timeseries is Some ==> c[2 + v + g].status == Severity::Fine
            &&& facts.missing_fts matches Some(n) ==> c[2 + v + g + t].status == (if n > 0 {
                Severity::Warning
            } else {
                Severity::Fine
            })
        }),
{
    let c = checks_view(r.checks@);
    assert(c.len() == r.checks@.len());
    assert forall|i: int| 0 <= i < c.len() implies #[trigger] c[i] == r.checks@[i]@ by {}
    assert(c == facts.checks());
    let v: int = if facts.vector is Some {
        1
    } else {
        0
    };
    let g: int = if facts.graph is Some {
        1
    } else {
        0
    };
    let t: int = if facts.timeseries is Some {
        1
    } else {
        0
    };
    assert(c[0] == r.checks@[0]@ && c[1] == r.checks@[1]@ && c.last() == r.checks@.last()@);
    if facts.vector is Some {
        assert(c[2] == r.checks@[2]@);
        assert(c[2] == facts.vectors(facts.vector->0));
    }
    if facts.graph is Some {
        assert(c[2 + v] == r.checks@[2 + v]@);
        assert(c[2 + v] == facts.edges(facts.graph->0));
    }
    if facts.timeseries is Some {
        assert(c[2 + v + g] == r.checks@[2 + v + g]@);
    }
    if facts.missing_fts is Some {
        assert(c[2 + v + g + t] == r.checks@[2 + v + g + t]@);
        assert(c[2 + v + g + t] == facts.texts(facts.missing_fts->0));
    }
}

/// What share of the records a table holds is judged exactly: one with over nine tenths of
/// them stands out, and one with nine tenths does not.
proof fn lemma_hot(t: TableCount, total: nat)
    requires
        0 < total <= 1_000_000_000_000_000,
        t.count <= total,
    ensures
        hot_table(t, total) is Some <==> 10 * t.count > 9 * total,
{
    crate::ratio::small_counts_are_exact(t.count as u64);
    crate::ratio::small_counts_are_exact(total as u64);
    lemma_times(crate::ratio::nearest(t.count as u64), 2 * (TWO_53 as nat), 18014398509481984);
    lemma_times(crate::ratio::nearest(total as u64), 2 * (NINE_TENTHS as nat) + 1, 16212958658533787);
}

/// Equal factors give equal products.
proof fn lemma_times(a: nat, k: nat, n: nat)
    requires
        k == n,
    ensures
        a * k == n * a,
{
    assert(a * k == n * a) by (nonlinear_arith)
        requires
            k == n,
    ;
}

/// A table with over nine tenths of more than 100 records is a problem that no repair
/// mends; one with less is none.
pub proof fn tables_with_nearly_everything_stand_out(
    facts: &ProblemFacts,
    r: Vec<ProblemDetection>,
    i: int,
)
    requires
        facts.countable(),
        call_ensures(Axil::detect_problems_with, (facts,), r),
        0 <= i < facts.tables@.len(),
        100 < table_sum(facts.tables@) <= 1_000_000_000_000_000,
        10 * facts.tables@[i].count > 9 * table_sum(facts.tables@),
    ensures
        exists|k: int|
            0 <= k < r@.len() && (#[trigger] r@[k]).detector@ == "hot_table_imbalance"@
                && r@[k].severity == Severity::Warning && !r@[k].auto_fixable,
{
    let total = table_sum(facts.tables@);
    let ts = facts.tables@;
    lemma_sum_holds(ts, i);
    lemma_hot(ts[i], total);
    let f = |t: TableCount| hot_table(t, total);
    let p = hot_table(ts[i], total)->0;
    assert(f(ts[i]) == Some(p));
    crate::text::collected_values_come_from_items(ts, f, p);
    let hot = facts.hot_tables();
    let k = choose|k: int| 0 <= k < hot.len() && hot[k] == p;
    let all = facts.problems();
    assert(all.len() >= hot.len() && all[k] == hot[k]);
    assert(problems_view(r@)[k] == r@[k]@);
    assert(r@[k].detector@ == "hot_table_imbalance"@);
}

/// A table holds no more records than all tables do.
proof fn lemma_sum_holds(ts: Seq<TableCount>, i: int)
    requires
        0 <= i < ts.len(),
    ensures
        ts[i].count <= table_sum(ts),
    decreases ts.len(),
{
    if i < ts.len() - 1 {
        lemma_sum_holds(ts.drop_last(), i);
    }
}

/// Nothing is wrong with a database whose tables hold nine tenths of the records at most,
/// whose vectors are from half to double as many as its records with a fifth of them
/// deleted at most, which lacks nothing, and whose file is not large.
pub proof fn healthy_databases_have_no_problems(facts: &ProblemFacts, r: Vec<ProblemDetection>)
    requires
        facts.countable(),
        call_ensures(Axil::detect_problems_with, (facts,), r),
        table_sum(facts.tables@) <= 1_000_000_000_000_000,
        facts.total <= 1_000_000_000_000_000,
        forall|i: int|
            #![trigger facts.tables@[i]]
            0 <= i < facts.tables@.len() ==> 10 * facts.tables@[i].count <= 9 * table_sum(
                facts.tables@,
            ),
        facts.vector matches Some(v) ==> facts.total <= 2 * v.count && v.count <= 2 * facts.total
            && v.count + v.deleted <= 1_000_000_000_000_000 && 5 * v.deleted <= v.count + v.deleted,
        facts.missing_embeddings == 0 && facts.missing_fts == 0 && facts.orphaned_edges == 0,
        facts.expired == 0 && facts.superseded == 0,
        facts.file_size <= 10 * 1024 * 1024 || facts.total >= 100,
    ensures
        r@.len() == 0,
{
    let total = table_sum(facts.tables@);
    let ts = facts.tables@;
    let f = |t: TableCount| hot_table(t, total);
    if facts.hot_tables().len() > 0 {
        let p = facts.hot_tables()[0];
        assert(facts.hot_tables().contains(p));
        crate::text::collected_values_come_from_items(ts, f, p);
        let i = choose|i: int| 0 <= i < ts.len() && f(#[trigger] ts[i]) == Some(p);
        lemma_sum_holds(ts, i);
        lemma_hot(ts[i], total);
    }
    if facts.vector is Some {
        let v = facts.vector->0;
        lemma_vectors(facts, v);
    }
    assert(problems_view(r@).len() == r@.len());
}

/// The vectors are held against the records exactly, and the deleted ones against all.
proof fn lemma_vectors(facts: &ProblemFacts, v: VectorFacts)
    requires
        facts.total <= 1_000_000_000_000_000,
        v.count + v.deleted <= 1_000_000_000_000_000,
    ensures
        facts.mismatched(v) <==> v.count > 0 && facts.total > 0 && (2 * v.count < facts.total
            || v.count > 2 * facts.total),
        facts.decayed(v) <==> 5 * v.deleted > v.count + v.deleted,
{
    crate::ratio::small_counts_are_exact(v.count as u64);
    crate::ratio::small_counts_are_exact(v.deleted as u64);
    crate::ratio::small_counts_are_exact((v.count + v.deleted) as u64);
    crate::ratio::small_counts_are_exact(facts.total as u64);
    let c = crate::ratio::nearest(v.count as u64);
    let t = crate::ratio::nearest(facts.total as u64);
    let d = crate::ratio::nearest(v.deleted as u64);
    let n = crate::ratio::nearest((v.count + v.deleted) as u64);
    lemma_times(c, 2 * (TWO_54 as nat), 36028797018963968);
    lemma_times(c, 2 * (TWO_51 as nat), 4503599627370496);
    lemma_times(t, (2 * (TWO_53 as nat) - 1) as nat, 18014398509481983);
    lemma_times(t, 2 * (TWO_52 as nat) + 1, 9007199254740993);
    lemma_times(d, 2 * (TWO_55 as nat), 72057594037927936);
    lemma_times(n, 2 * (TWO_TENTHS as nat) + 1, 14411518807585589);
    assert(t * (2 * (TWO_53 as nat) - 1) == 18014398509481983 * t);
}

/// Vectors that are fewer than half or more than double as many as the records are a
/// problem, and so are deleted ones that make up over a fifth. Both are mended by a repair.
pub proof fn vectors_go_with_records(facts: &ProblemFacts, r: Vec<ProblemDetection>, v: VectorFacts)
    requires
        facts.countable(),
        call_ensures(Axil::detect_problems_with, (facts,), r),
        facts.vector == Some(v),
        facts.tables@.len() == 0,
        0 < facts.total <= 1_000_000_000_000_000,
        0 < v.count,
        v.count + v.deleted <= 1_000_000_000_000_000,
    ensures
        2 * v.count < facts.total || v.count > 2 * facts.total ==> r@.len() > 0 && r@[0].detector@
            == "index_size_mismatch"@ && r@[0].severity == Severity::Warning && r@[0].auto_fixable,
        5 * v.deleted > v.count + v.deleted && facts.total <= 2 * v.count && v.count <= 2
            * facts.total ==> r@.len() > 0 && r@[0].detector@ == "vector_deletion_ratio"@
            && r@[0].severity == Severity::Warning && r@[0].auto_fixable,
{
    lemma_vectors(facts, v);
    assert(facts.hot_tables().len() == 0);
    let all = problems_view(r@);
    assert(all.len() == r@.len());
    if all.len() > 0 {
        assert(all[0] == r@[0]@);
    }
}

/// Each thing that is amiss is one problem, named in order, with the number of things that
/// it is about in front of its message. Many records that wait to be purged are a warning:
/// over 1000 expired ones, or over 500 superseded ones. Embeddings are only mended where
/// there is an embedder.
pub proof fn each_lack_is_one_problem(facts: &ProblemFacts, r: Vec<ProblemDetection>)
    requires
        facts.countable(),
        call_ensures(Axil::detect_problems_with, (facts,), r),
        facts.tables@.len() == 0,
        facts.vector is None,
    ensures
        ({
            let m: int = if facts.missing_embeddings > 0 {
                1
            } else {
                0
            };
            let f: int = if facts.missing_fts > 0 {
                1
            } else {
                0
            };
            let o: int = if facts.orphaned_edges > 0 {
                1
            } else {
                0
            };
            let e: int = if facts.expired > 0 {
                1
            } else {
                0
            };
            let s: int = if facts.superseded > 0 {
                1
            } else {
                0
            };
            let b: int = if facts.file_size > 10 * 1024 * 1024 && facts.total < 100 {
                1
            } else {
                0
            };
            &&& r@.len() == m + f + o + e + s + b
            &&& m == 1 ==> r@[0].detector@ == "missing_embeddings"@ && r@[0].auto_fixable
                == facts.embedder && r@[0].severity == Severity::Warning
            &&& f == 1 ==> r@[m].detector@ == "missing_fts"@ && r@[m].auto_fixable && r@[m].severity
                == Severity::Warning
            &&& o == 1 ==> r@[m + f].detector@ == "orphaned_edges"@ && r@[m + f].auto_fixable
                && r@[m + f].severity == Severity::Warning
            &&& e == 1 ==> r@[m + f + o].detector@ == "expired_records"@ && r@[m + f
                + o].auto_fixable && (r@[m + f + o].severity == Severity::Warning <==> facts.expired
                > 1000)
            &&& s == 1 ==> r@[m + f + o + e].detector@ == "superseded_records"@ && r@[m + f + o
                + e].auto_fixable && (r@[m + f + o + e].severity == Severity::Warning
                <==> facts.superseded > 500)
            &&& b == 1 ==> r@[m + f + o + e + s].detector@ == "storage_bloat"@ && r@[m + f + o + e
                + s].auto_fixable && r@[m + f + o + e + s].severity == Severity::Warning
        }),
{
    let all = problems_view(r@);
    assert(facts.hot_tables().len() == 0);
    assert(all.len() == r@.len());
    assert forall|i: int| 0 <= i < all.len() implies all[i] == (#[trigger] r@[i])@ by {}
}

} // verus!
