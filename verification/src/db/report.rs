//! The report on the health of a database.

use super::health::{
    ProblemFacts, VectorFacts, FIFTEEN_HUNDREDTHS, SEVEN_TENTHS, TWO_53, TWO_55,
};
use super::Axil;
use crate::diagnostics::{
    bytes_text, human_bytes, problems_view, recommendations_view, DataQualitySection,
    HealthReport, HealthSections, IndexSection, PerformanceSection, ProblemDetection, ProblemView,
    Ratio, Recommendation, RecommendationView, Severity, StorageSection,
};
use crate::ratio::{is_ratio_above, is_ratio_below, ratio_above, ratio_below};
use crate::text::{collected, count_text, decimal, decimal_text, join3, join5, same_text};
use crate::time::{rfc3339_text, text_of_instant, Timestamp};
use vstd::prelude::*;

verus! {

/// What a report is made of, besides the problems.
#[derive(Debug)]
pub struct ReportFacts {
    pub now: Timestamp,
    pub problems: ProblemFacts,
    pub total_records: usize,
    pub total_size: u64,
    pub table_count: usize,
    pub edge_count: usize,
    pub slow_queries: usize,
}

/// How many problems have a severity.
pub open spec fn severity_count(problems: Seq<ProblemView>, s: Severity) -> nat
    decreases problems.len(),
{
    if problems.len() == 0 {
        0
    } else {
        severity_count(problems.drop_last(), s) + if problems.last().severity == s {
            1nat
        } else {
            0
        }
    }
}

/// The score of a database: 100, less 15 for every error and 5 for every warning,
/// and at least 0.
pub open spec fn health_score(problems: Seq<ProblemView>) -> int {
    let s = 100 - 15 * severity_count(problems, Severity::Error) - 5 * severity_count(
        problems,
        Severity::Warning,
    );
    if s < 0 {
        0
    } else {
        s
    }
}

/// The name of a score.
pub open spec fn grade(score: int) -> Seq<char> {
    if score >= 85 {
        "good"@
    } else if score >= 60 {
        "warning"@
    } else {
        "critical"@
    }
}

/// The summary of a report.
pub open spec fn summary_text(problems: Seq<ProblemView>) -> Seq<char> {
    let score = health_score(problems);
    decimal(severity_count(problems, Severity::Warning)) + " warnings, "@ + decimal(
        severity_count(problems, Severity::Error),
    ) + " errors. "@ + if score >= 85 {
        "Database is healthy."@
    } else {
        "Score: "@ + decimal(score as nat) + "/100. Optimization recommended."@
    }
}

/// What to do about a problem, where it can be mended.
pub open spec fn advice(p: ProblemView) -> Option<RecommendationView> {
    if p.auto_fixable {
        Some(
            RecommendationView {
                priority: match p.severity {
                    Severity::Error => "high"@,
                    Severity::Warning => "medium"@,
                    Severity::Fine => "low"@,
                },
                action: p.recommendation,
                auto_fixable: true,
                command: if p.detector == "vector_deletion_ratio"@ || p.detector
                    == "index_size_mismatch"@ {
                    "axil heal --reindex"@
                } else if p.detector == "orphaned_edges"@ {
                    "axil heal --orphans"@
                } else {
                    "axil heal --compact"@
                },
            },
        )
    } else {
        None
    }
}

/// The share of deleted vectors; 0 where there are none at all.
pub open spec fn deletion_ratio(v: VectorFacts) -> Ratio {
    if v.count + v.deleted > 0 {
        Ratio { part: v.deleted, whole: (v.count + v.deleted) as usize }
    } else {
        Ratio { part: 0, whole: 1 }
    }
}

/// The share of live records; 1 where there are none at all.
pub open spec fn live_share(total: usize, dead: nat) -> Ratio {
    if total > 0 {
        Ratio {
            part: if dead <= total {
                (total - dead) as usize
            } else {
                0
            },
            whole: total,
        }
    } else {
        Ratio { part: 1, whole: 1 }
    }
}

/// A warning where `bad` holds.
pub open spec fn warning_if(bad: bool) -> Severity {
    if bad {
        Severity::Warning
    } else {
        Severity::Fine
    }
}

impl ReportFacts {
    /// Whether the counts can be summed up and the instant can be written.
    pub open spec fn countable(self) -> bool {
        &&& self.now.valid()
        &&& self.problems.countable()
        &&& self.problems.expired + self.problems.superseded <= usize::MAX
    }

    /// The part on storage: a warning above 100 MB.
    pub open spec fn storage(self, s: StorageSection) -> bool {
        &&& s.status == warning_if(self.total_size > 104_857_600)
        &&& s.size@ == bytes_text(self.total_size)
        &&& s.record_count == self.total_records
        &&& s.table_count == self.table_count
    }

    /// The part on speed: a warning above ten slow queries.
    pub open spec fn performance(self) -> PerformanceSection {
        PerformanceSection {
            status: warning_if(self.slow_queries > 10),
            slow_queries_count: self.slow_queries,
        }
    }

    /// The part on the indexes: a warning where edges are orphaned or where over
    /// 15 percent of the vectors are deleted ones.
    pub open spec fn indexes(self) -> IndexSection {
        let ratio = match self.problems.vector {
            Some(v) => Some(deletion_ratio(v)),
            None => None,
        };
        let r = match ratio {
            Some(r) => r,
            None => Ratio { part: 0, whole: 1 },
        };
        IndexSection {
            status: warning_if(
                self.problems.orphaned_edges > 0 || ratio_above(
                    r.part as u64,
                    r.whole as u64,
                    FIFTEEN_HUNDREDTHS as nat,
                    TWO_55 as nat,
                ),
            ),
            vectors: match self.problems.vector {
                Some(v) => v.count,
                None => 0,
            },
            edges: self.edge_count,
            orphaned_edges: self.problems.orphaned_edges,
            vector_deletion_ratio: ratio,
        }
    }

    /// The part on the records: a warning where under seven tenths are live.
    pub open spec fn data_quality(self) -> DataQualitySection {
        let r = live_share(
            self.total_records,
            (self.problems.expired + self.problems.superseded) as nat,
        );
        DataQualitySection {
            status: warning_if(
                ratio_below(r.part as u64, r.whole as u64, SEVEN_TENTHS as nat, TWO_53 as nat),
            ),
            expired_records: self.problems.expired,
            superseded_records: self.problems.superseded,
            live_ratio: r,
        }
    }
}

/// The score, the number of warnings and the number of errors.
fn score_problems(problems: &Vec<ProblemDetection>) -> (r: (u32, usize, usize))
    ensures
        r.0 == health_score(problems_view(problems@)),
        r.1 == severity_count(problems_view(problems@), Severity::Warning),
        r.2 == severity_count(problems_view(problems@), Severity::Error),
{
    let mut warnings: usize = 0;
    let mut errors: usize = 0;
    let mut i: usize = 0;
    let ghost all = problems_view(problems@);
    while i < problems.len()
        invariant
            i <= problems@.len(),
            all == problems_view(problems@),
            warnings == severity_count(all.take(i as int), Severity::Warning),
            errors == severity_count(all.take(i as int), Severity::Error),
            warnings + errors <= i,
        decreases problems@.len() - i,
    {
        assert(all.take(i + 1).drop_last() =~= all.take(i as int));
        match problems[i].severity {
            Severity::Error => {
                errors += 1;
            },
            Severity::Warning => {
                warnings += 1;
            },
            Severity::Fine => {},
        }
        i += 1;
    }
    assert(all.take(i as int) =~= all);
    let score: u32 = if errors >= 7 || warnings >= 20 {
        0
    } else {
        let lost: u32 = 15 * (errors as u32) + 5 * (warnings as u32);
        if lost >= 100 {
            0
        } else {
            100 - lost
        }
    };
    (score, warnings, errors)
}

/// What to do about the problems that can be mended.
fn advise(problems: &Vec<ProblemDetection>) -> (r: Vec<Recommendation>)
    ensures
        recommendations_view(r@) == collected(
            problems_view(problems@),
            |p: ProblemView| advice(p),
        ),
{
    let mut out: Vec<Recommendation> = Vec::new();
    let mut i: usize = 0;
    let ghost all = problems_view(problems@);
    let ghost f = |p: ProblemView| advice(p);
    assert(recommendations_view(out@) =~= collected(all.take(0), f));
    while i < problems.len()
        invariant
            i <= problems@.len(),
            all == problems_view(problems@),
            f == |p: ProblemView| advice(p),
            recommendations_view(out@) == collected(all.take(i as int), f),
        decreases problems@.len() - i,
    {
        let p = &problems[i];
        proof {
            assert(all.take(i + 1).drop_last() =~= all.take(i as int));
            assert(all.take(i + 1).last() == p@);
        }
        if p.auto_fixable {
            let priority = match p.severity {
                Severity::Error => "high",
                Severity::Warning => "medium",
                Severity::Fine => "low",
            };
            let detector = p.detector.as_str();
            let command = if same_text(detector, "vector_deletion_ratio") || same_text(
                detector,
                "index_size_mismatch",
            ) {
                "axil heal --reindex"
            } else if same_text(detector, "orphaned_edges") {
                "axil heal --orphans"
            } else {
                "axil heal --compact"
            };
            let ghost before = out@;
            out.push(
                Recommendation {
                    priority: priority.to_owned(),
                    action: p.recommendation.clone(),
                    auto_fixable: true,
                    command: command.to_owned(),
                },
            );
            assert(recommendations_view(out@) =~= recommendations_view(before).push(
                advice(p@)->0,
            ));
        }
        i += 1;
    }
    assert(all.take(i as int) =~= all);
    out
}

/// A warning where `bad` holds.
fn warn_if(bad: bool) -> (r: Severity)
    ensures
        r == warning_if(bad),
{
    if bad {
        Severity::Warning
    } else {
        Severity::Fine
    }
}

impl Axil {
    /// Reports on the health of a database.
    pub fn report(facts: &ReportFacts) -> (r: HealthReport)
        requires
            facts.countable(),
        ensures
            r.generated_at@ == text_of_instant(facts.now.secs, facts.now.nanos),
            r.score == health_score(facts.problems.problems()),
            r.overall_health@ == grade(r.score as int),
            r.summary@ == summary_text(facts.problems.problems()),
            facts.storage(r.sections.storage),
            r.sections.performance == facts.performance(),
            r.sections.indexes == facts.indexes(),
            r.sections.data_quality == facts.data_quality(),
            recommendations_view(r.recommendations@) == collected(
                facts.problems.problems(),
                |p: ProblemView| advice(p),
            ),
    {
        let problems = Axil::detect_problems_with(&facts.problems);
        let (score, warnings, errors) = score_problems(&problems);
        let overall_health = if score >= 85 {
            "good"
        } else if score >= 60 {
            "warning"
        } else {
            "critical"
        };
        let verdict = if score >= 85 {
            "Database is healthy.".to_owned()
        } else {
            join3(
                "Score: ",
                decimal_text(score as u64).as_str(),
                "/100. Optimization recommended.",
            )
        };
        let summary = join5(
            count_text(warnings).as_str(),
            " warnings, ",
            count_text(errors).as_str(),
            " errors. ",
            verdict.as_str(),
        );
        let dead: usize = facts.problems.expired + facts.problems.superseded;
        let live_ratio = if facts.total_records > 0 {
            let live: usize = if dead <= facts.total_records {
                facts.total_records - dead
            } else {
                0
            };
            Ratio { part: live, whole: facts.total_records }
        } else {
            Ratio { part: 1, whole: 1 }
        };
        let (vectors, vector_deletion_ratio) = match &facts.problems.vector {
            Some(v) => {
                let all: usize = v.count + v.deleted;
                let ratio = if all > 0 {
                    Ratio { part: v.deleted, whole: all }
                } else {
                    Ratio { part: 0, whole: 1 }
                };
                (v.count, Some(ratio))
            },
            None => (0, None),
        };
        let deletion = match vector_deletion_ratio {
            Some(r) => r,
            None => Ratio { part: 0, whole: 1 },
        };
        let index_bad = facts.problems.orphaned_edges > 0 || is_ratio_above(
            deletion.part as u64,
            deletion.whole as u64,
            FIFTEEN_HUNDREDTHS,
            TWO_55,
        );
        let data_bad = is_ratio_below(
            live_ratio.part as u64,
            live_ratio.whole as u64,
            SEVEN_TENTHS,
            TWO_53,
        );
        HealthReport {
            generated_at: rfc3339_text(facts.now),
            overall_health: overall_health.to_owned(),
            score,
            summary,
            sections: HealthSections {
                storage: StorageSection {
                    status: warn_if(facts.total_size > 104_857_600),
                    size: human_bytes(facts.total_size),
                    record_count: facts.total_records,
                    table_count: facts.table_count,
                },
                performance: PerformanceSection {
                    status: warn_if(facts.slow_queries > 10),
                    slow_queries_count: facts.slow_queries,
                },
                indexes: IndexSection {
                    status: warn_if(index_bad),
                    vectors,
                    edges: facts.edge_count,
                    orphaned_edges: facts.problems.orphaned_edges,
                    vector_deletion_ratio,
                },
                data_quality: DataQualitySection {
                    status: warn_if(data_bad),
                    expired_records: facts.problems.expired,
                    superseded_records: facts.problems.superseded,
                    live_ratio,
                },
            },
            recommendations: advise(&problems),
        }
    }
}

/// A database without errors and with at most three warnings is in good health,
/// and the score never rises with one more problem.
pub proof fn problems_lower_the_score(problems: Seq<ProblemView>, more: ProblemView)
    ensures
        0 <= health_score(problems) <= 100,
        health_score(problems.push(more)) <= health_score(problems),
        severity_count(problems, Severity::Error) == 0 && severity_count(
            problems,
            Severity::Warning,
        ) <= 3 ==> grade(health_score(problems)) == "good"@,
{
    assert(problems.push(more).drop_last() =~= problems);
}

/// One more problem counts with its severity and with no other.
proof fn lemma_count_push(ps: Seq<ProblemView>, p: ProblemView, s: Severity)
    ensures
        severity_count(ps.push(p), s) == severity_count(ps, s) + if p.severity == s {
            1nat
        } else {
            0
        },
{
    assert(ps.push(p).drop_last() =~= ps);
}

/// A database without problems scores 100. A further error costs 15 points and a further
/// warning 5, as long as there are as many left; a remark costs nothing.
pub proof fn errors_cost_more_than_warnings(ps: Seq<ProblemView>, p: ProblemView)
    ensures
        ps.len() == 0 ==> health_score(ps) == 100,
        p.severity == Severity::Error && health_score(ps) >= 15 ==> health_score(ps.push(p))
            == health_score(ps) - 15,
        p.severity == Severity::Warning && health_score(ps) >= 5 ==> health_score(ps.push(p))
            == health_score(ps) - 5,
        p.severity == Severity::Fine ==> health_score(ps.push(p)) == health_score(ps),
        health_score(ps) >= 0,
{
    lemma_count_push(ps, p, Severity::Error);
    lemma_count_push(ps, p, Severity::Warning);
}

/// The health of a database goes by its score: it is good from 85 on, and critical below 60.
/// Without problems the score is 100.
pub proof fn health_goes_by_the_score(facts: &ReportFacts, r: HealthReport)
    requires
        facts.countable(),
        call_ensures(Axil::report, (facts,), r),
    ensures
        0 <= r.score <= 100,
        r.score >= 85 ==> r.overall_health@ == "good"@,
        60 <= r.score < 85 ==> r.overall_health@ == "warning"@,
        r.score < 60 ==> r.overall_health@ == "critical"@,
        facts.problems.problems().len() == 0 ==> r.score == 100,
{
    problems_lower_the_score(facts.problems.problems(), ProblemView {
        detector: ""@,
        severity: Severity::Fine,
        message: ""@,
        recommendation: ""@,
        auto_fixable: false,
    });
    errors_cost_more_than_warnings(
        facts.problems.problems(),
        ProblemView {
            detector: ""@,
            severity: Severity::Fine,
            message: ""@,
            recommendation: ""@,
            auto_fixable: false,
        },
    );
}

/// The parts of a report warn each of its own: storage of over 100 MiB, more than ten slow
/// queries, orphaned edges or over 15 in a hundred vectors deleted, and under seven in ten
/// records live.
pub proof fn each_part_warns_of_its_own(facts: &ReportFacts, r: HealthReport)
    requires
        facts.countable(),
        call_ensures(Axil::report, (facts,), r),
        facts.total_records <= 1_000_000_000_000_000,
        facts.problems.expired + facts.problems.superseded <= facts.total_records,
        facts.problems.vector matches Some(v) ==> v.count + v.deleted <= 1_000_000_000_000_000,
    ensures
        r.sections.storage.status == Severity::Warning <==> facts.total_size > 100 * 1024 * 1024,
        r.sections.storage.record_count == facts.total_records && r.sections.storage.table_count
            == facts.table_count,
        r.sections.performance.status == Severity::Warning <==> facts.slow_queries > 10,
        r.sections.performance.slow_queries_count == facts.slow_queries,
        r.sections.indexes.status == Severity::Warning <==> facts.problems.orphaned_edges > 0 || (
        facts.problems.vector matches Some(v) && 100 * v.deleted > 15 * (v.count + v.deleted)),
        r.sections.indexes.edges == facts.edge_count && r.sections.indexes.orphaned_edges
            == facts.problems.orphaned_edges,
        r.sections.data_quality.status == Severity::Warning <==> 10 * (facts.total_records - (
        facts.problems.expired + facts.problems.superseded)) < 7 * facts.total_records,
        r.sections.data_quality.expired_records == facts.problems.expired
            && r.sections.data_quality.superseded_records == facts.problems.superseded,
{
    let q = live_share(
        facts.total_records,
        (facts.problems.expired + facts.problems.superseded) as nat,
    );
    lemma_live(q.part, q.whole);
    let d = match facts.problems.vector {
        Some(v) => deletion_ratio(v),
        None => Ratio { part: 0, whole: 1 },
    };
    lemma_deleted(d.part, d.whole);
}

/// Whether under seven in ten are live is judged exactly.
proof fn lemma_live(part: usize, whole: usize)
    requires
        part <= 1_000_000_000_000_000,
        0 < whole <= 1_000_000_000_000_000,
    ensures
        ratio_below(part as u64, whole as u64, SEVEN_TENTHS as nat, TWO_53 as nat) <==> 10 * part
            < 7 * whole,
{
    crate::ratio::small_counts_are_exact(part as u64);
    crate::ratio::small_counts_are_exact(whole as u64);
    let a = crate::ratio::nearest(part as u64);
    let b = crate::ratio::nearest(whole as u64);
    assert(a * (2 * (TWO_53 as nat)) == 18014398509481984 * a) by (nonlinear_arith)
        requires
            TWO_53 == 9007199254740992,
    ;
    assert(b * (2 * (SEVEN_TENTHS as nat) - 1) == 12610078956637387 * b) by (nonlinear_arith)
        requires
            SEVEN_TENTHS == 6305039478318694,
    ;
}

/// Whether over 15 in a hundred are deleted is judged exactly.
proof fn lemma_deleted(part: usize, whole: usize)
    requires
        part <= 1_000_000_000_000_000,
        0 < whole <= 1_000_000_000_000_000,
    ensures
        ratio_above(part as u64, whole as u64, FIFTEEN_HUNDREDTHS as nat, TWO_55 as nat) <==> 100
            * part > 15 * whole,
{
    crate::ratio::small_counts_are_exact(part as u64);
    crate::ratio::small_counts_are_exact(whole as u64);
    let a = crate::ratio::nearest(part as u64);
    let b = crate::ratio::nearest(whole as u64);
    assert(a * (2 * (TWO_55 as nat)) == 72057594037927936 * a) by (nonlinear_arith)
        requires
            TWO_55 == 36028797018963968,
    ;
    assert(b * (2 * (FIFTEEN_HUNDREDTHS as nat) + 1) == 10808639105689191 * b) by (nonlinear_arith)
        requires
            FIFTEEN_HUNDREDTHS == 5404319552844595,
    ;
}

/// Every problem that can be mended has a recommendation, the more urgent the worse it is,
/// and no other problem has one.
pub proof fn what_can_be_mended_is_recommended(
    facts: &ReportFacts,
    r: HealthReport,
    i: int,
)
    requires
        facts.countable(),
        call_ensures(Axil::report, (facts,), r),
        0 <= i < facts.problems.problems().len(),
        facts.problems.problems()[i].auto_fixable,
    ensures
        exists|k: int|
            0 <= k < r.recommendations@.len() && (#[trigger] r.recommendations@[k]).action@
                == facts.problems.problems()[i].recommendation && r.recommendations@[k].auto_fixable
                && (facts.problems.problems()[i].severity == Severity::Error
                ==> r.recommendations@[k].priority@ == "high"@)
                && (facts.problems.problems()[i].severity == Severity::Warning
                ==> r.recommendations@[k].priority@ == "medium"@)
                && (facts.problems.problems()[i].severity == Severity::Fine
                ==> r.recommendations@[k].priority@ == "low"@),
{
    let ps = facts.problems.problems();
    let f = |p: ProblemView| advice(p);
    let x = advice(ps[i])->0;
    assert(f(ps[i]) == Some(x));
    crate::text::collected_values_come_from_items(ps, f, x);
    let v = recommendations_view(r.recommendations@);
    let k = choose|k: int| 0 <= k < v.len() && v[k] == x;
    assert(v[k] == r.recommendations@[k]@);
    assert(r.recommendations@[k].action@ == ps[i].recommendation);
}

/// Where no problem can be mended nothing is recommended.
pub proof fn nothing_else_is_recommended(facts: &ReportFacts, r: HealthReport)
    requires
        facts.countable(),
        call_ensures(Axil::report, (facts,), r),
        forall|i: int|
            0 <= i < facts.problems.problems().len() ==> !(
            #[trigger] facts.problems.problems()[i]).auto_fixable,
    ensures
        r.recommendations@.len() == 0,
{
    let ps = facts.problems.problems();
    let f = |p: ProblemView| advice(p);
    let v = recommendations_view(r.recommendations@);
    assert(v.len() == r.recommendations@.len());
    if v.len() > 0 {
        assert(v.contains(v[0]));
        crate::text::collected_values_come_from_items(ps, f, v[0]);
        let i = choose|i: int| 0 <= i < ps.len() && f(#[trigger] ps[i]) == Some(v[0]);
        assert(!ps[i].auto_fixable);
    }
}

} // verus!
