//! Purging what is dead, and mending what the indexes lost.

use super::rows::{push_id, records_view};
use super::{expired, is_expired_record, is_superseded_record, superseded, Axil};
use crate::diagnostics::{
    actions_view, problems_view, CompactReport, HealAction, HealView, ProblemDetection,
    ProblemView, SelfHealReport, VectorRebuildReport,
};
use crate::importance::{highly_important, is_highly_important, is_pinned, pinned};
use crate::portable::import::is_embeddable;
use crate::record::{
    id_set, ids_view, internal_table, is_internal_table, Record, RecordId, RecordView,
};
use crate::text::{
    byte_len, collected, count_text, decimal, join2, join4, join6, join8,
};
use crate::time::Timestamp;
use vstd::prelude::*;
use vstd::string::StringExecFns;

verus! {

/// Whether a record is never purged: its importance is fixed, or high.
pub open spec fn protected(r: RecordView) -> bool {
    pinned(r.data) || highly_important(r.data)
}

/// The id of a record that is purged because it is valid no more.
pub open spec fn purged_expired(r: RecordView, now: Timestamp) -> Option<Seq<char>> {
    if !protected(r) && expired(r, now) {
        Some(r.id)
    } else {
        None
    }
}

/// The id of a record that is purged because another took its place.
pub open spec fn purged_superseded(r: RecordView, now: Timestamp) -> Option<Seq<char>> {
    if !protected(r) && !expired(r, now) && superseded(r) {
        Some(r.id)
    } else {
        None
    }
}

/// The records to purge.
#[derive(Debug)]
pub struct CompactionPlan {
    pub expired: Vec<RecordId>,
    pub superseded: Vec<RecordId>,
}

/// How many records are dead: valid no more, or else superseded.
pub open spec fn dead_counts(records: Seq<RecordView>, now: Timestamp) -> (nat, nat) {
    (
        records.filter(|r: RecordView| expired(r, now)).len(),
        records.filter(|r: RecordView| !expired(r, now) && superseded(r)).len(),
    )
}

/// An edge with its two ends.
#[derive(Debug)]
pub struct EdgeEnds {
    pub id: RecordId,
    pub from: RecordId,
    pub to: RecordId,
}

/// The id of an edge one of whose ends is not among the records.
pub open spec fn orphaned_edge(e: EdgeEnds, records: Seq<Seq<char>>) -> Option<Seq<char>> {
    if records.contains(e.from@) && records.contains(e.to@) {
        None
    } else {
        Some(e.id@)
    }
}

/// An indexed id that is not among the records.
pub open spec fn orphaned_entry(id: RecordId, records: Seq<Seq<char>>) -> Option<Seq<char>> {
    if records.contains(id@) {
        None
    } else {
        Some(id@)
    }
}

/// What the indexes are held against: a record, the text that it can be found by,
/// and whether the full-text engine finds text in it.
#[derive(Debug)]
pub struct ScannedRecord {
    pub id: RecordId,
    pub table: String,
    pub searchable: String,
    pub has_text: bool,
}

/// The id of a record that should have an embedding and has none.
pub open spec fn unembedded(r: ScannedRecord, indexed: Seq<Seq<char>>) -> Option<Seq<char>> {
    if !internal_table(r.table@) && byte_len(r.searchable@) > 5 && !indexed.contains(r.id@) {
        Some(r.id@)
    } else {
        None
    }
}

/// The id of a record that should be in the full-text index and is not.
pub open spec fn unindexed(r: ScannedRecord, indexed: Seq<Seq<char>>) -> Option<Seq<char>> {
    if !internal_table(r.table@) && r.has_text && !indexed.contains(r.id@) {
        Some(r.id@)
    } else {
        None
    }
}

impl Axil {
    /// Counts the dead records: those that are valid no more, and the superseded
    /// ones among the others.
    pub fn count_dead_records(records: &Vec<Record>, now: Timestamp) -> (r: (usize, usize))
        ensures
            r.0 == dead_counts(records_view(records@), now).0,
            r.1 == dead_counts(records_view(records@), now).1,
            r.0 + r.1 <= records@.len(),
    {
        let mut expired_count: usize = 0;
        let mut superseded_count: usize = 0;
        let mut i: usize = 0;
        let ghost all = records_view(records@);
        assert(all.take(0) =~= Seq::<RecordView>::empty());
        reveal(Seq::filter);
        while i < records.len()
            invariant
                i <= records@.len(),
                all == records_view(records@),
                expired_count == dead_counts(all.take(i as int), now).0,
                superseded_count == dead_counts(all.take(i as int), now).1,
                expired_count + superseded_count <= i,
            decreases records@.len() - i,
        {
            reveal(Seq::filter);
            proof {
                assert(all.take(i + 1).drop_last() =~= all.take(i as int));
                assert(all.take(i + 1).last() == records@[i as int]@);
            }
            if is_expired_record(&records[i], now) {
                expired_count += 1;
            } else if is_superseded_record(&records[i]) {
                superseded_count += 1;
            }
            i += 1;
        }
        assert(all.take(i as int) =~= all);
        (expired_count, superseded_count)
    }

    /// Decides which records a compaction purges.
    pub fn compact(records: &Vec<Record>, now: Timestamp) -> (r: CompactionPlan)
        ensures
            ids_view(r.expired@) == collected(
                records_view(records@),
                |x: RecordView| purged_expired(x, now),
            ),
            ids_view(r.superseded@) == collected(
                records_view(records@),
                |x: RecordView| purged_superseded(x, now),
            ),
            r.expired@.len() + r.superseded@.len() <= records@.len(),
    {
        let mut plan = CompactionPlan { expired: Vec::new(), superseded: Vec::new() };
        let mut i: usize = 0;
        let ghost all = records_view(records@);
        let ghost f = |x: RecordView| purged_expired(x, now);
        let ghost g = |x: RecordView| purged_superseded(x, now);
        assert(ids_view(plan.expired@) =~= collected(all.take(0), f));
        assert(ids_view(plan.superseded@) =~= collected(all.take(0), g));
        while i < records.len()
            invariant
                i <= records@.len(),
                all == records_view(records@),
                f == |x: RecordView| purged_expired(x, now),
                g == |x: RecordView| purged_superseded(x, now),
                ids_view(plan.expired@) == collected(all.take(i as int), f),
                ids_view(plan.superseded@) == collected(all.take(i as int), g),
                plan.expired@.len() + plan.superseded@.len() <= i,
            decreases records@.len() - i,
        {
            let record = &records[i];
            proof {
                assert(all.take(i + 1).drop_last() =~= all.take(i as int));
                assert(all.take(i + 1).last() == record@);
            }
            let ghost lens = (plan.expired@.len(), plan.superseded@.len());
            if !is_pinned(&record.data) && !is_highly_important(&record.data) {
                if is_expired_record(record, now) {
                    push_id(&mut plan.expired, &record.id);
                    assert(ids_view(plan.expired@).len() == lens.0 + 1);
                } else if is_superseded_record(record) {
                    push_id(&mut plan.superseded, &record.id);
                    assert(ids_view(plan.superseded@).len() == lens.1 + 1);
                }
            }
            i += 1;
        }
        assert(all.take(i as int) =~= all);
        plan
    }

    /// What a compaction did, from the numbers of things that it removed and the
    /// sizes of the files before and after it.
    pub fn compact_report(
        purged_expired: usize,
        purged_superseded: usize,
        cleaned_orphaned_edges: usize,
        cleaned_orphaned_vectors: usize,
        cleaned_orphaned_fts: usize,
        size_before: u64,
        size_after: u64,
    ) -> (r: CompactReport)
        ensures
            r == (CompactReport {
                compacted: purged_expired + purged_superseded + cleaned_orphaned_edges
                    + cleaned_orphaned_vectors + cleaned_orphaned_fts > 0,
                purged_expired,
                purged_superseded,
                cleaned_orphaned_edges,
                cleaned_orphaned_vectors,
                cleaned_orphaned_fts,
                freed_estimate_bytes: if size_before > size_after {
                    (size_before - size_after) as u64
                } else {
                    0
                },
            }),
    {
        CompactReport {
            compacted: purged_expired > 0 || purged_superseded > 0 || cleaned_orphaned_edges > 0
                || cleaned_orphaned_vectors > 0 || cleaned_orphaned_fts > 0,
            purged_expired,
            purged_superseded,
            cleaned_orphaned_edges,
            cleaned_orphaned_vectors,
            cleaned_orphaned_fts,
            freed_estimate_bytes: if size_before > size_after {
                size_before - size_after
            } else {
                0
            },
        }
    }

    /// The edges that have lost an end.
    pub fn orphaned_edges(edges: &Vec<EdgeEnds>, records: &Vec<RecordId>) -> (r: Vec<RecordId>)
        ensures
            ids_view(r@) == collected(
                edges@,
                |e: EdgeEnds| orphaned_edge(e, ids_view(records@)),
            ),
    {
        let known = id_set(records);
        let mut out: Vec<RecordId> = Vec::new();
        let mut i: usize = 0;
        let ghost f = |e: EdgeEnds| orphaned_edge(e, ids_view(records@));
        assert(ids_view(out@) =~= collected(edges@.take(0), f));
        while i < edges.len()
            invariant
                i <= edges@.len(),
                f == |e: EdgeEnds| orphaned_edge(e, ids_view(records@)),
                forall|k: Seq<char>| #[trigger]
                    known@.contains(k) <==> ids_view(records@).contains(k),
                ids_view(out@) == collected(edges@.take(i as int), f),
            decreases edges@.len() - i,
        {
            proof {
                assert(edges@.take(i + 1).drop_last() =~= edges@.take(i as int));
                assert(edges@.take(i + 1).last() == edges@[i as int]);
            }
            let e = &edges[i];
            if !known.contains(e.from.as_str()) || !known.contains(e.to.as_str()) {
                push_id(&mut out, &e.id);
            }
            i += 1;
        }
        assert(edges@.take(i as int) =~= edges@);
        out
    }

    /// The entries of an index whose records are gone.
    pub fn orphaned_entries(indexed: &Vec<RecordId>, records: &Vec<RecordId>) -> (r: Vec<RecordId>)
        ensures
            ids_view(r@) == collected(
                indexed@,
                |id: RecordId| orphaned_entry(id, ids_view(records@)),
            ),
    {
        let known = id_set(records);
        let mut out: Vec<RecordId> = Vec::new();
        let mut i: usize = 0;
        let ghost f = |id: RecordId| orphaned_entry(id, ids_view(records@));
        assert(ids_view(out@) =~= collected(indexed@.take(0), f));
        while i < indexed.len()
            invariant
                i <= indexed@.len(),
                f == |id: RecordId| orphaned_entry(id, ids_view(records@)),
                forall|k: Seq<char>| #[trigger]
                    known@.contains(k) <==> ids_view(records@).contains(k),
                ids_view(out@) == collected(indexed@.take(i as int), f),
            decreases indexed@.len() - i,
        {
            proof {
                assert(indexed@.take(i + 1).drop_last() =~= indexed@.take(i as int));
                assert(indexed@.take(i + 1).last() == indexed@[i as int]);
            }
            if !known.contains(indexed[i].as_str()) {
                push_id(&mut out, &indexed[i]);
            }
            i += 1;
        }
        assert(indexed@.take(i as int) =~= indexed@);
        out
    }

    /// The records that should have an embedding and have none. There are none of
    /// them without a vector index or an embedder.
    pub fn missing_embeddings(
        &self,
        records: &Vec<ScannedRecord>,
        indexed: &Vec<RecordId>,
    ) -> (r: Vec<RecordId>)
        ensures
            ids_view(r@) == if self.vector_index && self.embedder {
                collected(records@, |x: ScannedRecord| unembedded(x, ids_view(indexed@)))
            } else {
                Seq::empty()
            },
    {
        let mut out: Vec<RecordId> = Vec::new();
        assert(ids_view(out@) =~= Seq::empty());
        if !self.vector_index || !self.embedder {
            return out;
        }
        let known = id_set(indexed);
        let mut i: usize = 0;
        let ghost f = |x: ScannedRecord| unembedded(x, ids_view(indexed@));
        assert(ids_view(out@) =~= collected(records@.take(0), f));
        while i < records.len()
            invariant
                i <= records@.len(),
                f == |x: ScannedRecord| unembedded(x, ids_view(indexed@)),
                forall|k: Seq<char>| #[trigger]
                    known@.contains(k) <==> ids_view(indexed@).contains(k),
                ids_view(out@) == collected(records@.take(i as int), f),
            decreases records@.len() - i,
        {
            proof {
                assert(records@.take(i + 1).drop_last() =~= records@.take(i as int));
                assert(records@.take(i + 1).last() == records@[i as int]);
            }
            let r = &records[i];
            if is_embeddable(r.table.as_str(), r.searchable.as_str()) && !known.contains(
                r.id.as_str(),
            ) {
                push_id(&mut out, &r.id);
            }
            i += 1;
        }
        assert(records@.take(i as int) =~= records@);
        out
    }

    /// The records that should be in the full-text index and are not. There are
    /// none of them without such an index.
    pub fn missing_fts(
        &self,
        records: &Vec<ScannedRecord>,
        indexed: &Vec<RecordId>,
    ) -> (r: Vec<RecordId>)
        ensures
            ids_view(r@) == if self.fts_index {
                collected(records@, |x: ScannedRecord| unindexed(x, ids_view(indexed@)))
            } else {
                Seq::empty()
            },
    {
        let mut out: Vec<RecordId> = Vec::new();
        assert(ids_view(out@) =~= Seq::empty());
        if !self.fts_index {
            return out;
        }
        let known = id_set(indexed);
        let mut i: usize = 0;
        let ghost f = |x: ScannedRecord| unindexed(x, ids_view(indexed@));
        assert(ids_view(out@) =~= collected(records@.take(0), f));
        while i < records.len()
            invariant
                i <= records@.len(),
                f == |x: ScannedRecord| unindexed(x, ids_view(indexed@)),
                forall|k: Seq<char>| #[trigger]
                    known@.contains(k) <==> ids_view(indexed@).contains(k),
                ids_view(out@) == collected(records@.take(i as int), f),
            decreases records@.len() - i,
        {
            proof {
                assert(records@.take(i + 1).drop_last() =~= records@.take(i as int));
                assert(records@.take(i + 1).last() == records@[i as int]);
            }
            let r = &records[i];
            if !is_internal_table(r.table.as_str()) && r.has_text && !known.contains(r.id.as_str()) {
                push_id(&mut out, &r.id);
            }
            i += 1;
        }
        assert(records@.take(i as int) =~= records@);
        out
    }

    /// Whether a compaction is due: there are records, and as many of them are
    /// expired or superseded as the thresholds say, or the share of live ones was
    /// found too low.
    pub fn needs_compaction(
        total: usize,
        dead: (usize, usize),
        expired_threshold: usize,
        superseded_threshold: usize,
        live_share_low: bool,
    ) -> (r: bool)
        ensures
            r == (total > 0 && (dead.0 >= expired_threshold || dead.1 >= superseded_threshold
                || live_share_low)),
    {
        total > 0 && (dead.0 >= expired_threshold || dead.1 >= superseded_threshold
            || live_share_low)
    }

    /// How many deleted vectors a rebuild of the index reclaims, where one is due: there
    /// are vectors, and the share of the deleted ones is above the threshold.
    pub fn compact_vector_index_if_needed(
        &self,
        live: usize,
        deleted: usize,
        above_threshold: bool,
    ) -> (r: Option<usize>)
        ensures
            r == if self.vector_index && live + deleted > 0 && above_threshold {
                Some(deleted)
            } else {
                None
            },
    {
        if self.vector_index && (live > 0 || deleted > 0) && above_threshold {
            Some(deleted)
        } else {
            None
        }
    }

    /// What a rebuild of the vector index did.
    pub fn vector_rebuild_report(old_size: usize, new_size: usize, deleted: usize) -> (r:
        VectorRebuildReport)
        ensures
            r.rebuilt,
            r.reason@ == if deleted > 0 {
                "deletion_ratio_exceeded"@
            } else {
                "manual"@
            },
            r.old_size == old_size,
            r.new_size == new_size,
            r.deleted_removed == deleted,
    {
        VectorRebuildReport {
            rebuilt: true,
            reason: if deleted > 0 {
                "deletion_ratio_exceeded".to_owned()
            } else {
                "manual".to_owned()
            },
            old_size,
            new_size,
            deleted_removed: deleted,
        }
    }
}

/// What a repair is made of.
#[derive(Debug)]
pub enum HealRun {
    /// Nothing is done; the problems are those that were found.
    Preview { problems: Vec<ProblemDetection> },
    /// The repair was done.
    Done {
        compacted: CompactReport,
        /// The rebuild of the vector index, where there was one.
        rebuilt: Option<VectorRebuildReport>,
        reembedded: usize,
        reindexed: usize,
    },
}

/// What a repair would do about a problem.
pub open spec fn preview(p: ProblemView) -> Option<HealView> {
    if p.auto_fixable {
        Some(HealView { action: p.detector, result: "[dry-run] would fix: "@ + p.message })
    } else {
        None
    }
}

/// What a compaction did, in words.
pub open spec fn compact_text(c: CompactReport) -> Seq<char> {
    "purged "@ + decimal(c.purged_expired as nat) + " expired, "@ + decimal(
        c.purged_superseded as nat,
    ) + " superseded, "@ + decimal(c.cleaned_orphaned_edges as nat) + " orphaned edges, "@
        + decimal(c.cleaned_orphaned_vectors as nat) + " orphaned vectors"@
}

/// What the indexes got back, in words.
pub open spec fn restored_text(reembedded: nat, reindexed: nat) -> Seq<char> {
    "restored "@ + decimal(reembedded) + " missing embeddings, "@ + decimal(reindexed)
        + " missing FTS docs"@
}

impl HealRun {
    /// The actions of the repair, in order.
    pub open spec fn actions(self) -> Seq<HealView> {
        match self {
            HealRun::Preview { problems } => collected(
                problems_view(problems@),
                |p: ProblemView| preview(p),
            ),
            HealRun::Done { compacted, rebuilt, reembedded, reindexed } => {
                let a: Seq<HealView> = if compacted.compacted {
                    seq![HealView { action: "compact"@, result: compact_text(compacted) }]
                } else {
                    Seq::empty()
                };
                let a = match rebuilt {
                    Some(b) => a.push(
                        HealView {
                            action: "vector_rebuild"@,
                            result: "rebuilt: "@ + decimal(b.old_size as nat) + " -> "@ + decimal(
                                b.new_size as nat,
                            ) + ", removed "@ + decimal(b.deleted_removed as nat)
                                + " tombstones"@,
                        },
                    ),
                    None => a,
                };
                if reembedded > 0 || reindexed > 0 {
                    a.push(
                        HealView {
                            action: "reembed_missing"@,
                            result: restored_text(reembedded as nat, reindexed as nat),
                        },
                    )
                } else {
                    a
                }
            },
        }
    }
}

/// Adds an action.
fn act(actions: &mut Vec<HealAction>, action: &str, result: String)
    ensures
        actions_view(final(actions)@) == actions_view(old(actions)@).push(
            HealView { action: action@, result: result@ },
        ),
{
    actions.push(HealAction { action: action.to_owned(), result });
    assert(actions_view(actions@) =~= actions_view(old(actions)@).push(
        HealView { action: action@, result: result@ },
    ));
}

impl Axil {
    /// Reports on a repair. One that was only previewed healed nothing.
    pub fn heal_all(run: &HealRun) -> (r: SelfHealReport)
        ensures
            actions_view(r.actions@) == run.actions(),
            r.healed == (run is Done && run.actions().len() > 0),
    {
        let mut actions: Vec<HealAction> = Vec::new();
        match run {
            HealRun::Preview { problems } => {
                let mut i: usize = 0;
                let ghost all = problems_view(problems@);
                let ghost f = |p: ProblemView| preview(p);
                assert(actions_view(actions@) =~= collected(all.take(0), f));
                while i < problems.len()
                    invariant
                        i <= problems@.len(),
                        all == problems_view(problems@),
                        f == |p: ProblemView| preview(p),
                        actions_view(actions@) == collected(all.take(i as int), f),
                    decreases problems@.len() - i,
                {
                    let p = &problems[i];
                    proof {
                        assert(all.take(i + 1).drop_last() =~= all.take(i as int));
                        assert(all.take(i + 1).last() == p@);
                    }
                    if p.auto_fixable {
                        act(
                            &mut actions,
                            p.detector.as_str(),
                            join2("[dry-run] would fix: ", p.message.as_str()),
                        );
                    }
                    i += 1;
                }
                assert(all.take(i as int) =~= all);
                SelfHealReport { healed: false, actions }
            },
            HealRun::Done { compacted, rebuilt, reembedded, reindexed } => {
                if compacted.compacted {
                    let result = join8(
                        "purged ",
                        count_text(compacted.purged_expired).as_str(),
                        " expired, ",
                        count_text(compacted.purged_superseded).as_str(),
                        " superseded, ",
                        count_text(compacted.cleaned_orphaned_edges).as_str(),
                        " orphaned edges, ",
                        join2(
                            count_text(compacted.cleaned_orphaned_vectors).as_str(),
                            " orphaned vectors",
                        ).as_str(),
                    );
                    assert(result@ =~= compact_text(*compacted));
                    act(&mut actions, "compact", result);
                    assert(actions_view(actions@) =~= seq![
                        HealView { action: "compact"@, result: compact_text(*compacted) },
                    ]);
                }
                if let Some(b) = rebuilt {
                    let mut result = join6(
                        "rebuilt: ",
                        count_text(b.old_size).as_str(),
                        " -> ",
                        count_text(b.new_size).as_str(),
                        ", removed ",
                        count_text(b.deleted_removed).as_str(),
                    );
                    result.append(" tombstones");
                    act(&mut actions, "vector_rebuild", result);
                }
                if *reembedded > 0 || *reindexed > 0 {
                    act(&mut actions, "reembed_missing", restored(*reembedded, *reindexed));
                }
                let healed = actions.len() > 0;
                assert(actions_view(actions@).len() == actions@.len());
                SelfHealReport { healed, actions }
            },
        }
    }
}

/// What the indexes got back, in words.
pub fn restored(reembedded: usize, reindexed: usize) -> (r: String)
    ensures
        r@ == restored_text(reembedded as nat, reindexed as nat),
{
    let mut r = join4(
        "restored ",
        count_text(reembedded).as_str(),
        " missing embeddings, ",
        count_text(reindexed).as_str(),
    );
    r.append(" missing FTS docs");
    r
}

/// What a compaction purges is unprotected and dead, and every unprotected dead
/// record is purged.
pub proof fn compaction_spares_protected_records(
    records: Seq<RecordView>,
    now: Timestamp,
    id: Seq<char>,
)
    ensures
        collected(records, |x: RecordView| purged_expired(x, now)).contains(id) || collected(
            records,
            |x: RecordView| purged_superseded(x, now),
        ).contains(id) <==> exists|i: int|
            0 <= i < records.len() && (#[trigger] records[i]).id == id && !protected(records[i])
                && (expired(records[i], now) || superseded(records[i])),
    decreases records.len(),
{
    let f = |x: RecordView| purged_expired(x, now);
    let g = |x: RecordView| purged_superseded(x, now);
    if records.len() > 0 {
        let d = records.drop_last();
        let x = records.last();
        compaction_spares_protected_records(d, now, id);
        crate::text::lemma_push_contains(collected(d, f), x.id, id);
        crate::text::lemma_push_contains(collected(d, g), x.id, id);
        let here = |r: RecordView|
            r.id == id && !protected(r) && (expired(r, now) || superseded(r));
        if exists|i: int| 0 <= i < d.len() && here(#[trigger] d[i]) {
            let i = choose|i: int| 0 <= i < d.len() && here(#[trigger] d[i]);
            assert(here(records[i]));
        }
        if exists|i: int| 0 <= i < records.len() && here(#[trigger] records[i]) {
            let i = choose|i: int| 0 <= i < records.len() && here(#[trigger] records[i]);
            if i < d.len() {
                assert(here(d[i]));
            }
        }
        if here(x) {
            assert(here(records[records.len() - 1]));
        }
        assert((exists|i: int| 0 <= i < records.len() && here(#[trigger] records[i])) <==> (
        exists|i: int| 0 <= i < d.len() && here(#[trigger] d[i])) || here(x));
    }
}

/// A database that has just been compacted has nothing more to purge.
pub proof fn compaction_is_complete(records: Seq<RecordView>, now: Timestamp)
    ensures
        ({
            let left = records.filter(
                |x: RecordView|
                    purged_expired(x, now) is None && purged_superseded(x, now) is None,
            );
            &&& collected(left, |x: RecordView| purged_expired(x, now)).len() == 0
            &&& collected(left, |x: RecordView| purged_superseded(x, now)).len() == 0
        }),
    decreases records.len(),
{
    reveal(Seq::filter);
    let keep = |x: RecordView|
        purged_expired(x, now) is None && purged_superseded(x, now) is None;
    if records.len() > 0 {
        compaction_is_complete(records.drop_last(), now);
        if keep(records.last()) {
            let before = records.drop_last().filter(keep);
            let left = records.filter(keep);
            assert(left =~= before.push(records.last()));
            assert(left.drop_last() =~= before);
        }
    }
}

/// A compaction purges a record that is expired or superseded, unless it is pinned or its
/// importance is a whole number of at least one; it purges no record that is neither.
pub proof fn compactions_purge_the_dead(
    records: &Vec<Record>,
    now: Timestamp,
    r: CompactionPlan,
    i: int,
)
    requires
        call_ensures(Axil::compact, (records, now), r),
        0 <= i < records@.len(),
        forall|a: int, b: int|
            0 <= a < b < records@.len() ==> (#[trigger] records@[a]).id@ != (
            #[trigger] records@[b]).id@,
    ensures
        ({
            let d = records@[i].data.model();
            let kept = d.member("_importance_pinned"@) == Some(crate::json::Json::Bool(true)) || (
            d.member("_importance"@) matches Some(crate::json::Json::PosInt(n)) && n >= 1);
            let plain = d.member("_importance_pinned"@) is None && d.member("_importance"@) is None;
            let x = ids_view(r.expired@).contains(records@[i].id@);
            let s = ids_view(r.superseded@).contains(records@[i].id@);
            &&& kept ==> !x && !s
            &&& plain ==> (x <==> expired(records@[i]@, now))
            &&& plain && !expired(records@[i]@, now) ==> (s <==> superseded(records@[i]@))
            &&& !(x && s)
        }),
{
    let v = records_view(records@);
    let f = |x: RecordView| purged_expired(x, now);
    let g = |x: RecordView| purged_superseded(x, now);
    let id = records@[i].id@;
    assert(v[i] == records@[i]@);
    crate::text::collected_values_come_from_items(v, f, id);
    crate::text::collected_values_come_from_items(v, g, id);
    assert(f(v[i]) == purged_expired(v[i], now) && g(v[i]) == purged_superseded(v[i], now));
    if ids_view(r.expired@).contains(id) {
        let j = choose|j: int| 0 <= j < v.len() && f(#[trigger] v[j]) == Some(id);
        assert(v[j] == records@[j]@);
        assert(j == i);
    }
    if ids_view(r.superseded@).contains(id) {
        let j = choose|j: int| 0 <= j < v.len() && g(#[trigger] v[j]) == Some(id);
        assert(v[j] == records@[j]@);
        assert(j == i);
    }
}

/// Each dead record counts once: as expired where it is, and as superseded otherwise.
pub proof fn dead_records_count_once(
    records: &Vec<Record>,
    more: &Vec<Record>,
    x: Record,
    now: Timestamp,
    r: (usize, usize),
    s: (usize, usize),
)
    requires
        more@ == records@.push(x),
        call_ensures(Axil::count_dead_records, (records, now), r),
        call_ensures(Axil::count_dead_records, (more, now), s),
    ensures
        records@.len() == 0 ==> r == (0usize, 0usize),
        s.0 == r.0 + if expired(x@, now) {
            1int
        } else {
            0
        },
        s.1 == r.1 + if !expired(x@, now) && superseded(x@) {
            1int
        } else {
            0
        },
{
    reveal(Seq::filter);
    let v = records_view(records@);
    let w = records_view(more@);
    assert(w.drop_last() =~= v);
    assert(w.last() == x@);
}

/// An edge is orphaned just where one of its ends is gone, and an entry of an index where
/// its record is.
pub proof fn orphans_have_lost_something(
    edges: &Vec<EdgeEnds>,
    indexed: &Vec<RecordId>,
    records: &Vec<RecordId>,
    r: Vec<RecordId>,
    s: Vec<RecordId>,
    i: int,
    k: int,
)
    requires
        call_ensures(Axil::orphaned_edges, (edges, records), r),
        call_ensures(Axil::orphaned_entries, (indexed, records), s),
        0 <= i < edges@.len(),
        0 <= k < indexed@.len(),
        forall|a: int, b: int|
            0 <= a < b < edges@.len() ==> (#[trigger] edges@[a]).id@ != (#[trigger] edges@[b]).id@,
    ensures
        ids_view(r@).contains(edges@[i].id@) <==> !ids_view(records@).contains(edges@[i].from@)
            || !ids_view(records@).contains(edges@[i].to@),
        ids_view(s@).contains(indexed@[k]@) <==> !ids_view(records@).contains(indexed@[k]@),
{
    let all = ids_view(records@);
    let f = |e: EdgeEnds| orphaned_edge(e, all);
    let g = |id: RecordId| orphaned_entry(id, all);
    let id = edges@[i].id@;
    crate::text::collected_values_come_from_items(edges@, f, id);
    crate::text::collected_values_come_from_items(indexed@, g, indexed@[k]@);
    assert(f(edges@[i]) == orphaned_edge(edges@[i], all));
    assert(g(indexed@[k]) == orphaned_entry(indexed@[k], all));
    if ids_view(r@).contains(id) {
        let j = choose|j: int| 0 <= j < edges@.len() && f(#[trigger] edges@[j]) == Some(id);
        assert(edges@[j].id@ == id);
        assert(j == i);
    }
    if ids_view(s@).contains(indexed@[k]@) {
        let j = choose|j: int|
            0 <= j < indexed@.len() && g(#[trigger] indexed@[j]) == Some(indexed@[k]@);
        assert(indexed@[j]@ == indexed@[k]@);
    }
}

/// A record of the user's that is not in an index is missing there: in the vector index
/// where its text takes over five bytes, in the full-text index where it has text. Records
/// of the database's own tables are missing nowhere, and none is where there is no index.
pub proof fn users_records_belong_in_the_indexes(
    db: &Axil,
    records: &Vec<ScannedRecord>,
    indexed: &Vec<RecordId>,
    e: Vec<RecordId>,
    t: Vec<RecordId>,
    i: int,
)
    requires
        call_ensures(Axil::missing_embeddings, (db, records, indexed), e),
        call_ensures(Axil::missing_fts, (db, records, indexed), t),
        0 <= i < records@.len(),
        forall|a: int, b: int|
            0 <= a < b < records@.len() ==> (#[trigger] records@[a]).id@ != (
            #[trigger] records@[b]).id@,
    ensures
        ({
            let x = records@[i];
            let own = x.table@.len() > 0 && x.table@[0] == '_';
            let there = ids_view(indexed@).contains(x.id@);
            &&& ids_view(e@).contains(x.id@) <==> db.vector_index && db.embedder && !own && !there
                && byte_len(x.searchable@) > 5
            &&& ids_view(t@).contains(x.id@) <==> db.fts_index && !own && !there && x.has_text
        }),
{
    let all = ids_view(indexed@);
    let f = |x: ScannedRecord| unembedded(x, all);
    let g = |x: ScannedRecord| unindexed(x, all);
    let id = records@[i].id@;
    crate::text::collected_values_come_from_items(records@, f, id);
    crate::text::collected_values_come_from_items(records@, g, id);
    assert(f(records@[i]) == unembedded(records@[i], all));
    assert(g(records@[i]) == unindexed(records@[i], all));
    if ids_view(e@).contains(id) {
        let j = choose|j: int| 0 <= j < records@.len() && f(#[trigger] records@[j]) == Some(id);
        assert(records@[j].id@ == id);
        assert(j == i);
    }
    if ids_view(t@).contains(id) {
        let j = choose|j: int| 0 <= j < records@.len() && g(#[trigger] records@[j]) == Some(id);
        assert(records@[j].id@ == id);
        assert(j == i);
    }
}

/// A compaction that is due stays due with more dead records and with lower thresholds. It
/// is due from the threshold on, and not before it unless too few records are live; without
/// records it never is.
pub proof fn more_dead_records_need_compaction(
    total: usize,
    dead: (usize, usize),
    more: (usize, usize),
    xt: usize,
    st: usize,
    low: bool,
    r: bool,
    s: bool,
)
    requires
        call_ensures(Axil::needs_compaction, (total, dead, xt, st, low), r),
        call_ensures(Axil::needs_compaction, (total, more, xt, st, low), s),
        more.0 >= dead.0 && more.1 >= dead.1,
    ensures
        r ==> s,
        total == 0 ==> !r,
        total > 0 && dead.0 == xt ==> r,
        total > 0 && dead.1 == st ==> r,
        dead.0 < xt && dead.1 < st && !low ==> !r,
        total > 0 && low ==> r,
{
}

/// The report on a compaction: it did something where it removed anything, and freed what
/// the files lost in size.
pub proof fn compactions_report_what_they_removed(
    x: usize,
    s: usize,
    e: usize,
    v: usize,
    f: usize,
    before: u64,
    after: u64,
    r: CompactReport,
)
    requires
        call_ensures(Axil::compact_report, (x, s, e, v, f, before, after), r),
    ensures
        !r.compacted <==> x == 0 && s == 0 && e == 0 && v == 0 && f == 0,
        r.purged_expired == x && r.purged_superseded == s && r.cleaned_orphaned_edges == e
            && r.cleaned_orphaned_vectors == v && r.cleaned_orphaned_fts == f,
        before >= after ==> r.freed_estimate_bytes + after == before,
        before <= after ==> r.freed_estimate_bytes == 0,
{
}

/// A rebuild of the vector index is due where there are vectors and enough of them were
/// deleted, and reclaims the deleted ones.
pub proof fn rebuilds_reclaim_deleted_vectors(
    db: &Axil,
    live: usize,
    deleted: usize,
    above: bool,
    r: Option<usize>,
    t: VectorRebuildReport,
)
    requires
        call_ensures(Axil::compact_vector_index_if_needed, (db, live, deleted, above), r),
        call_ensures(Axil::vector_rebuild_report, (deleted, live, deleted), t),
    ensures
        r matches Some(n) ==> n == deleted && n == t.deleted_removed && db.vector_index && above,
        db.vector_index && above && deleted > 0 ==> r is Some,
        db.vector_index && above && live > 0 ==> r is Some,
        live == 0 && deleted == 0 ==> r is None,
        t.rebuilt && t.old_size == deleted && t.new_size == live,
        deleted > 0 ==> t.reason@ == "deletion_ratio_exceeded"@,
        deleted == 0 ==> t.reason@ == "manual"@,
{
}

/// A preview heals nothing, and has an action for a problem just where a repair can mend
/// it.
pub proof fn previews_heal_nothing(run: &HealRun, r: SelfHealReport, i: int)
    requires
        call_ensures(Axil::heal_all, (run,), r),
        run matches HealRun::Preview { problems } && 0 <= i < problems@.len(),
    ensures
        !r.healed,
        run matches HealRun::Preview { problems } ==> (problems@[i].auto_fixable ==> exists|k: int|
            0 <= k < r.actions@.len() && (#[trigger] r.actions@[k]).action@
                == problems@[i].detector@),
        run matches HealRun::Preview { problems } ==> ((forall|j: int|
            0 <= j < problems@.len() ==> !(#[trigger] problems@[j]).auto_fixable) ==> r.actions@.len()
            == 0),
{
    let ps = run->problems@;
    let v = problems_view(ps);
    let f = |p: ProblemView| preview(p);
    let a = actions_view(r.actions@);
    assert(a == collected(v, f));
    assert(a.len() == r.actions@.len());
    assert(v[i] == ps[i]@);
    assert(f(v[i]) == preview(v[i]));
    if ps[i].auto_fixable {
        let x = preview(v[i])->0;
        crate::text::collected_values_come_from_items(v, f, x);
        let k = choose|k: int| 0 <= k < a.len() && a[k] == x;
        assert(r.actions@[k]@ == a[k]);
        assert(r.actions@[k].action@ == ps[i].detector@);
    }
    if r.actions@.len() > 0 {
        assert(a.contains(a[0]));
        crate::text::collected_values_come_from_items(v, f, a[0]);
        let j = choose|j: int| 0 <= j < v.len() && f(#[trigger] v[j]) == Some(a[0]);
        assert(v[j] == ps[j]@);
        assert(ps[j].auto_fixable);
    }
}

/// A repair heals where it compacted, rebuilt the vector index, or gave the indexes
/// something back, and has one action for each of these, in this order.
pub proof fn repairs_act_in_order(run: &HealRun, r: SelfHealReport)
    requires
        call_ensures(Axil::heal_all, (run,), r),
        run is Done,
    ensures
        ({
            let c: int = if run->compacted.compacted {
                1
            } else {
                0
            };
            let b: int = if run->rebuilt is Some {
                1
            } else {
                0
            };
            let m: int = if run->reembedded > 0 || run->reindexed > 0 {
                1
            } else {
                0
            };
            &&& r.actions@.len() == c + b + m
            &&& r.healed <==> c + b + m > 0
            &&& c == 1 ==> r.actions@[0].action@ == "compact"@
            &&& b == 1 ==> r.actions@[c].action@ == "vector_rebuild"@
            &&& m == 1 ==> r.actions@[c + b].action@ == "reembed_missing"@
        }),
{
    let a = actions_view(r.actions@);
    assert(a.len() == r.actions@.len());
    assert forall|i: int| 0 <= i < a.len() implies a[i] == (#[trigger] r.actions@[i])@ by {}
}

} // verus!
