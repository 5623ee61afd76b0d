//! What follows a write.

use super::chunks::{
    chunk_ids, micro_batches, recall_chunk_ids, recall_chunks_table, MICRO_BATCH,
};
use super::entities::{updates_view, RowUpdate, RowUpdateView};
use super::rows::{is_row, records_view, row_is};
use super::Axil;
use crate::json::{Json, Number, Value};
use crate::record::{ids_view, internal_table, is_internal_table, Record, RecordId, RecordView};
use crate::text::{byte_len, collected, join3, same_text, utf8_len};
use vstd::prelude::*;

verus! {

/// Whether a record is given an importance when it is inserted: it is of a user
/// table and carries none.
pub open spec fn unscored(r: RecordView) -> bool {
    !internal_table(r.table) && r.data.member("_importance"@) is None
}

/// Whether a record is given the defaults of consent when it is inserted: it is of a
/// user table and carries none of its own.
pub open spec fn without_consent(r: RecordView) -> bool {
    !internal_table(r.table) && !(r.metadata matches Some(m) && m.member("consent"@) is Some)
}

/// Whether a record carries consent.
fn has_consent(r: &Record) -> (b: bool)
    ensures
        b == (r@.metadata matches Some(m) && m.member("consent"@) is Some),
{
    match &r.metadata {
        Some(m) => match m.get("consent") {
            Some(_) => true,
            None => false,
        },
        None => false,
    }
}

/// Whether a text is long enough to be embedded.
pub open spec fn embeddable_text(text: Seq<char>) -> bool {
    byte_len(text) > 5
}

/// What an insert does besides storing the record.
#[derive(Clone, Copy, Debug, PartialEq, Eq, Structural)]
pub struct InsertPlan {
    /// The record gets an importance.
    pub score: bool,
    /// The record gets the defaults of consent.
    pub consent: bool,
    /// The write is logged.
    pub audit: bool,
    /// The engines without a role of their own are told.
    pub plugins: bool,
    /// The vector index is told.
    pub vector: bool,
    /// The full-text index is told.
    pub fts: bool,
    /// The time index is told.
    pub timeseries: bool,
    /// The text is embedded, and the vector is used to find what the record takes
    /// the place of.
    pub embed: bool,
    /// The parts of a long text are indexed.
    pub chunks: bool,
    /// The entities in the text are linked.
    pub link: bool,
}

/// What an update does besides storing the record.
#[derive(Clone, Copy, Debug, PartialEq, Eq, Structural)]
pub struct UpdatePlan {
    /// The time index is told.
    pub timeseries: bool,
    /// The full-text index is told.
    pub fts: bool,
    /// The text is embedded again.
    pub embed: bool,
    /// The parts of a long text are indexed again.
    pub chunks: bool,
    /// The write is logged.
    pub audit: bool,
}

/// What a delete does besides removing the record.
#[derive(Debug)]
pub struct DeletePlan {
    /// The parts that go with the record.
    pub chunks: Vec<RecordId>,
    /// The vector index is told.
    pub vector: bool,
    /// The graph is told.
    pub graph: bool,
    /// The time index is told.
    pub timeseries: bool,
    /// The full-text index is told.
    pub fts: bool,
    /// The references from code to the record go.
    pub code_refs: bool,
    /// Beliefs that rest on the record are doubted.
    pub doubts: bool,
    /// The write is logged.
    pub audit: bool,
}

/// What inserting many records at once does besides storing them.
#[derive(Debug)]
pub struct BatchPlan {
    /// The records that get the defaults of consent, by their places.
    pub consent: Vec<usize>,
    /// The records whose text is embedded, by their places.
    pub embeddable: Vec<usize>,
    /// The batches of those that are embedded together.
    pub batches: Vec<(usize, usize)>,
    /// The records that are logged, by their places.
    pub audited: Vec<usize>,
    /// The records that the engines without a role of their own and the time index
    /// are told of, by their places.
    pub hooked: Vec<usize>,
    /// The full-text index is told of all of them at once.
    pub fts: bool,
    /// The parts of long texts are indexed.
    pub chunks: bool,
    /// The entities in the texts are linked.
    pub link: bool,
}

/// The places of the items for which `f` holds.
pub open spec fn places<A>(items: Seq<A>, f: spec_fn(A) -> bool) -> Seq<usize>
    decreases items.len(),
{
    if items.len() == 0 {
        Seq::empty()
    } else {
        let before = places(items.drop_last(), f);
        if f(items.last()) {
            before.push((items.len() - 1) as usize)
        } else {
            before
        }
    }
}

/// The batches of `n` items, as they are embedded.
pub open spec fn batched(batches: Seq<(usize, usize)>, n: int) -> bool {
    &&& batches.len() == (n + MICRO_BATCH - 1) / MICRO_BATCH as int
    &&& forall|i: int|
        0 <= i < batches.len() ==> (#[trigger] batches[i]).0 == i * MICRO_BATCH && batches[i].1
            == if (i + 1) * MICRO_BATCH < n {
            (i + 1) * MICRO_BATCH
        } else {
            n
        }
}

/// The places of the texts that are long enough to be embedded.
fn embeddable_places(texts: &Vec<String>) -> (r: Vec<usize>)
    ensures
        r@ == places(texts@, |t: String| embeddable_text(t@)),
{
    let mut out: Vec<usize> = Vec::new();
    let mut i: usize = 0;
    let ghost f = |t: String| embeddable_text(t@);
    while i < texts.len()
        invariant
            i <= texts@.len(),
            f == |t: String| embeddable_text(t@),
            out@ == places(texts@.take(i as int), f),
        decreases texts@.len() - i,
    {
        assert(texts@.take(i + 1).drop_last() =~= texts@.take(i as int));
        if utf8_len(texts[i].as_str()) > 5 {
            out.push(i);
        }
        i += 1;
    }
    assert(texts@.take(i as int) =~= texts@);
    out
}

/// The batches of items that are embedded together.
fn embed_batches(n: usize) -> (r: Vec<(usize, usize)>)
    ensures
        batched(r@, n as int),
{
    let r = micro_batches(n, MICRO_BATCH);
    assert forall|i: int| 0 <= i < r@.len() implies (#[trigger] r@[i]).0 == i * MICRO_BATCH
        && r@[i].1 == if (i + 1) * MICRO_BATCH < n {
        (i + 1) * MICRO_BATCH
    } else {
        n as int
    } by {
    }
    r
}

impl Axil {
    /// Whether a write to a table is logged.
    pub open spec fn audits(self, table: Seq<char>) -> bool {
        self.audit_enabled && !internal_table(table)
    }

    /// Whether a text of a table is embedded.
    pub open spec fn embeds(self, table: Seq<char>, text: Seq<char>) -> bool {
        !internal_table(table) && self.vector_index && self.embedder && embeddable_text(text)
    }

    /// Plans what an insert does, given the text that the record can be found by.
    /// The search indexes hold what is the user's; the time index also holds
    /// summaries.
    pub fn insert_record_inner(&self, record: &Record, searchable: &str) -> (r: InsertPlan)
        ensures
            ({
                let user = !internal_table(record.table@);
                r == (InsertPlan {
                    score: unscored(record@),
                    consent: without_consent(record@),
                    audit: self.audits(record.table@),
                    plugins: user,
                    vector: user && self.vector_index,
                    fts: user && self.fts_index,
                    timeseries: self.timeseries_index && (user || record.table@ == "_summaries"@),
                    embed: self.embeds(record.table@, searchable@),
                    chunks: user,
                    link: user && self.graph_index,
                })
            }),
    {
        let user = !is_internal_table(record.table.as_str());
        let scored = match record.data.get("_importance") {
            Some(_) => true,
            None => false,
        };
        InsertPlan {
            score: user && !scored,
            consent: user && !has_consent(record),
            audit: user && self.audit_enabled,
            plugins: user,
            vector: user && self.vector_index,
            fts: user && self.fts_index,
            timeseries: self.timeseries_index && (user || same_text(
                record.table.as_str(),
                "_summaries",
            )),
            embed: user && self.vector_index && self.embedder && utf8_len(searchable) > 5,
            chunks: user,
            link: user && self.graph_index,
        }
    }

    /// Plans what an update does, given the text that the record can be found by.
    pub fn update(&self, record: &Record, searchable: &str) -> (r: UpdatePlan)
        ensures
            r == (UpdatePlan {
                timeseries: self.timeseries_index,
                fts: self.fts_index,
                embed: self.embeds(record.table@, searchable@),
                chunks: !internal_table(record.table@),
                audit: self.audits(record.table@),
            }),
    {
        let user = !is_internal_table(record.table.as_str());
        UpdatePlan {
            timeseries: self.timeseries_index,
            fts: self.fts_index,
            embed: user && self.vector_index && self.embedder && utf8_len(searchable) > 5,
            chunks: user,
            audit: user && self.audit_enabled,
        }
    }

    /// Plans what a delete does, given the record as it was, where it was there.
    pub fn delete(&self, existing: Option<&Record>) -> (r: DeletePlan)
        ensures
            ({
                let table = match existing {
                    Some(x) => x.table@,
                    None => ""@,
                };
                &&& ids_view(r.chunks@) == match existing {
                    Some(x) => if x.table@ == recall_chunks_table() {
                        Seq::empty()
                    } else {
                        chunk_ids(x@)
                    },
                    None => Seq::empty(),
                }
                &&& r.vector == self.vector_index
                &&& r.graph == self.graph_index
                &&& r.timeseries == self.timeseries_index
                &&& r.fts == self.fts_index
                &&& r.code_refs == !internal_table(table)
                &&& r.doubts == (table == "_entities"@)
                &&& r.audit == self.audits(table)
            }),
    {
        let table = match existing {
            Some(x) => x.table.as_str(),
            None => "",
        };
        let user = !is_internal_table(table);
        let chunks = match existing {
            Some(x) => if same_text(table, "_recall_chunks") {
                Vec::new()
            } else {
                recall_chunk_ids(x)
            },
            None => Vec::new(),
        };
        proof {
            if chunks@.len() == 0 {
                assert(ids_view(chunks@) =~= Seq::empty());
            }
        }
        DeletePlan {
            chunks,
            vector: self.vector_index,
            graph: self.graph_index,
            timeseries: self.timeseries_index,
            fts: self.fts_index,
            code_refs: user,
            doubts: same_text(table, "_entities"),
            audit: user && self.audit_enabled,
        }
    }

    /// Plans what inserting many records at once does. `user_table` says whether
    /// they were put into a user table, `texts` are those that the records can be
    /// found by.
    pub fn insert_batch_records(
        &self,
        records: &Vec<Record>,
        texts: &Vec<String>,
        user_table: bool,
    ) -> (r: BatchPlan)
        requires
            records@.len() == texts@.len(),
        ensures
            r.consent@ == if user_table {
                places(
                    records_view(records@),
                    |x: RecordView| !(x.metadata matches Some(m) && m.member("consent"@) is Some),
                )
            } else {
                Seq::empty()
            },
            r.embeddable@ == if user_table && self.vector_index && self.embedder {
                places(texts@, |t: String| embeddable_text(t@))
            } else {
                Seq::empty()
            },
            batched(r.batches@, r.embeddable@.len() as int),
            r.audited@ == places(records_view(records@), |x: RecordView| self.audits(x.table)),
            r.hooked@ == places(records_view(records@), |x: RecordView| !internal_table(x.table)),
            r.fts == (user_table && self.fts_index),
            r.chunks == user_table,
            r.link == (user_table && self.graph_index),
    {
        let mut consent: Vec<usize> = Vec::new();
        let mut audited: Vec<usize> = Vec::new();
        let mut hooked: Vec<usize> = Vec::new();
        let ghost all = records_view(records@);
        let ghost bare = |x: RecordView|
            !(x.metadata matches Some(m) && m.member("consent"@) is Some);
        let ghost logged = |x: RecordView| self.audits(x.table);
        let ghost user = |x: RecordView| !internal_table(x.table);
        let mut i: usize = 0;
        while i < records.len()
            invariant
                i <= records@.len(),
                all == records_view(records@),
                bare == |x: RecordView|
                    !(x.metadata matches Some(m) && m.member("consent"@) is Some),
                logged == |x: RecordView| self.audits(x.table),
                user == |x: RecordView| !internal_table(x.table),
                consent@ == if user_table {
                    places(all.take(i as int), bare)
                } else {
                    Seq::empty()
                },
                audited@ == places(all.take(i as int), logged),
                hooked@ == places(all.take(i as int), user),
            decreases records@.len() - i,
        {
            proof {
                assert(all.take(i + 1).drop_last() =~= all.take(i as int));
                assert(all.take(i + 1).last() == records@[i as int]@);
            }
            if user_table && !has_consent(&records[i]) {
                consent.push(i);
            }
            if !is_internal_table(records[i].table.as_str()) {
                hooked.push(i);
                if self.audit_enabled {
                    audited.push(i);
                }
            }
            i += 1;
        }
        assert(all.take(i as int) =~= all);
        let embeddable = if user_table && self.vector_index && self.embedder {
            embeddable_places(texts)
        } else {
            Vec::new()
        };
        let batches = embed_batches(embeddable.len());
        BatchPlan {
            consent,
            embeddable,
            batches,
            audited,
            hooked,
            fts: user_table && self.fts_index,
            chunks: user_table,
            link: user_table && self.graph_index,
        }
    }

    /// Plans what inserting many records at once into a table does where nothing but
    /// the embedding is wanted: the texts that are embedded, the batches of those that
    /// are embedded together, and whether the writes are logged.
    pub fn insert_batch_raw(&self, table: &str, texts: &Vec<String>) -> (r: (
        Vec<usize>,
        Vec<(usize, usize)>,
        bool,
    ))
        ensures
            r.0@ == if !internal_table(table@) && self.vector_index && self.embedder {
                places(texts@, |t: String| embeddable_text(t@))
            } else {
                Seq::empty()
            },
            batched(r.1@, r.0@.len() as int),
            r.2 == self.audits(table@),
    {
        let user = !is_internal_table(table);
        let embeddable = if user && self.vector_index && self.embedder {
            embeddable_places(texts)
        } else {
            Vec::new()
        };
        let batches = embed_batches(embeddable.len());
        (embeddable, batches, user && self.audit_enabled)
    }
}

/// The bits of the IEEE number 0.3.
pub const DOUBTED_CONFIDENCE: u64 = 0x3fd3_3333_3333_3333;

/// What a belief becomes when the entity that it rests on is deleted: one that was put
/// together from facts, and is not doubted yet, is doubted.
pub open spec fn doubted(belief: RecordView, deleted: Seq<char>) -> Option<RowUpdateView> {
    if row_is(belief, "source"@, "consolidated"@) && !belief.data.flag_member("doubted"@) {
        Some(
            RowUpdateView {
                id: belief.id,
                data: belief.data.with_member("doubted"@, Json::Bool(true)).with_member(
                    "confidence"@,
                    Json::Float(DOUBTED_CONFIDENCE),
                ).with_member(
                    "_doubt_reason"@,
                    Json::Text("source entity fact "@ + deleted + " deleted"@),
                ),
            },
        )
    } else {
        None
    }
}

/// The beliefs that are doubted when an entity is deleted.
pub fn doubt_beliefs(beliefs: &Vec<Record>, deleted: &RecordId) -> (r: Vec<RowUpdate>)
    ensures
        updates_view(r@) == collected(
            records_view(beliefs@),
            |x: RecordView| doubted(x, deleted@),
        ),
{
    let mut out: Vec<RowUpdate> = Vec::new();
    let mut i: usize = 0;
    let ghost all = records_view(beliefs@);
    let ghost f = |x: RecordView| doubted(x, deleted@);
    assert(updates_view(out@) =~= collected(all.take(0), f));
    while i < beliefs.len()
        invariant
            i <= beliefs@.len(),
            all == records_view(beliefs@),
            f == |x: RecordView| doubted(x, deleted@),
            updates_view(out@) == collected(all.take(i as int), f),
        decreases beliefs@.len() - i,
    {
        let b = &beliefs[i];
        proof {
            assert(all.take(i + 1).drop_last() =~= all.take(i as int));
            assert(all.take(i + 1).last() == b@);
        }
        if is_row(b, "source", "consolidated") && !b.data.flag("doubted") {
            let mut data = b.data.copy();
            data.set("doubted", Value::Bool(true));
            data.set("confidence", Value::Number(Number::Float(DOUBTED_CONFIDENCE)));
            let reason = join3("source entity fact ", deleted.as_str(), " deleted");
            data.set("_doubt_reason", Value::text(reason.as_str()));
            let ghost before = out@;
            out.push(RowUpdate { id: b.id.copy(), data });
            assert(updates_view(out@) =~= updates_view(before).push(doubted(b@, deleted@)->0));
        }
        i += 1;
    }
    assert(all.take(i as int) =~= all);
    out
}

impl Axil {
    /// What a record holds once it was accessed: its activation, and when that was.
    pub fn bump_activation(record: &Record, activation: Value, accessed: &str) -> (r: Value)
        ensures
            r.model() == record@.data.with_member("_activation"@, activation.model()).with_member(
                "_last_accessed"@,
                Json::Text(accessed@),
            ),
    {
        let mut data = record.data.copy();
        data.set("_activation", activation);
        data.set("_last_accessed", Value::text(accessed));
        data
    }
}

/// Nothing of an internal table reaches the search indexes, the log or the links.
pub proof fn internal_tables_stay_out(db: Axil, r: RecordView, text: Seq<char>)
    requires
        internal_table(r.table),
    ensures
        !db.audits(r.table),
        !db.embeds(r.table, text),
        !unscored(r),
        !without_consent(r),
{
}

/// What an insert tells of a record: the engines that are there learn of every record of
/// a user table, and none of them of one of an internal table, but for the time index,
/// which also learns of summaries. A text is embedded where there is an embedder and an
/// index for its vector, and it has more than five bytes.
pub proof fn engines_learn_of_user_records(db: &Axil, record: &Record, text: &str, plan: InsertPlan)
    requires
        call_ensures(Axil::insert_record_inner, (db, record, text), plan),
    ensures
        ({
            let own = record.table@.len() > 0 && record.table@[0] == '_';
            &&& own ==> !plan.vector && !plan.fts && !plan.embed && !plan.link && !plan.chunks
                && !plan.plugins && !plan.audit && !plan.score && !plan.consent
            &&& own ==> (plan.timeseries <==> db.timeseries_index && record.table@ == "_summaries"@)
            &&& !own ==> plan.plugins && plan.chunks && plan.vector == db.vector_index && plan.fts
                == db.fts_index && plan.timeseries == db.timeseries_index && plan.link
                == db.graph_index && plan.audit == db.audit_enabled
            &&& !own ==> (plan.embed <==> db.vector_index && db.embedder && byte_len(text@) >= 6)
            &&& !own ==> (plan.score <==> record.data.model().member("_importance"@) is None)
            &&& !own && record.metadata is None ==> plan.consent
            &&& record.metadata matches Some(m) ==> (m.model().member("consent"@) is Some
                ==> !plan.consent)
        }),
{
}

/// Records that are inserted together fare as they would one by one: the same texts are
/// embedded, the same records get consent, and the same are logged and told of.
pub proof fn batches_do_what_single_inserts_do(
    db: &Axil,
    records: &Vec<Record>,
    texts: &Vec<String>,
    batch: BatchPlan,
    i: int,
    text: &str,
    single: InsertPlan,
)
    requires
        records@.len() == texts@.len(),
        0 <= i < records@.len(),
        text@ == texts@[i]@,
        !(records@[i].table@.len() > 0 && records@[i].table@[0] == '_'),
        call_ensures(Axil::insert_batch_records, (db, records, texts, true), batch),
        call_ensures(Axil::insert_record_inner, (db, &records@[i], text), single),
    ensures
        batch.embeddable@.contains(i as usize) <==> single.embed,
        batch.consent@.contains(i as usize) <==> single.consent,
        batch.audited@.contains(i as usize) <==> single.audit,
        batch.hooked@.contains(i as usize) <==> single.plugins,
        batch.fts == single.fts,
        batch.chunks == single.chunks,
        batch.link == single.link,
{
    assert(records.len() == records@.len());
    let v = records_view(records@);
    let c = |x: RecordView| !(x.metadata matches Some(m) && m.member("consent"@) is Some);
    let e = |t: String| embeddable_text(t@);
    let a = |x: RecordView| db.audits(x.table);
    let h = |x: RecordView| !internal_table(x.table);
    assert(v[i] == records@[i]@);
    lemma_places(v, c, i);
    lemma_places(texts@, e, i);
    lemma_places(v, a, i);
    lemma_places(v, h, i);
    assert(c(v[i]) == without_consent(v[i]));
    assert(e(texts@[i]) == embeddable_text(text@));
    if !(db.vector_index && db.embedder) {
        assert(batch.embeddable@.len() == 0);
    }
}

/// The places of items are those for which the test holds.
pub proof fn lemma_places<A>(items: Seq<A>, f: spec_fn(A) -> bool, i: int)
    requires
        0 <= i < items.len() <= usize::MAX,
    ensures
        places(items, f).contains(i as usize) <==> f(items[i]),
    decreases items.len(),
{
    let d = items.drop_last();
    let n = items.len() - 1;
    let before = places(d, f);
    crate::text::lemma_push_contains(before, n as usize, i as usize);
    if i < n {
        assert(d[i] == items[i]);
        lemma_places(d, f, i);
    } else if before.contains(n as usize) {
        lemma_places_bound(d, f, n as usize);
    }
}

/// The places of items are within them.
proof fn lemma_places_bound<A>(items: Seq<A>, f: spec_fn(A) -> bool, x: usize)
    requires
        items.len() <= usize::MAX,
        places(items, f).contains(x),
    ensures
        x < items.len(),
    decreases items.len(),
{
    let d = items.drop_last();
    crate::text::lemma_push_contains(places(d, f), (items.len() - 1) as usize, x);
    if places(d, f).contains(x) {
        lemma_places_bound(d, f, x);
    }
}

/// Nothing of an internal table is embedded, told of or linked when many records are
/// inserted together.
pub proof fn internal_batches_stay_out(
    db: &Axil,
    records: &Vec<Record>,
    texts: &Vec<String>,
    batch: BatchPlan,
)
    requires
        records@.len() == texts@.len(),
        call_ensures(Axil::insert_batch_records, (db, records, texts, false), batch),
    ensures
        batch.embeddable@.len() == 0,
        batch.consent@.len() == 0,
        !batch.fts,
        !batch.chunks,
        !batch.link,
{
}

/// An update brings up to date what an insert told of, and a delete takes it away again:
/// no index that learnt of a record is left out.
pub proof fn indexes_follow_a_record(
    db: &Axil,
    record: &Record,
    text: &str,
    inserted: InsertPlan,
    updated: UpdatePlan,
    deleted: DeletePlan,
)
    requires
        call_ensures(Axil::insert_record_inner, (db, record, text), inserted),
        call_ensures(Axil::update, (db, record, text), updated),
        call_ensures(Axil::delete, (db, Some(record)), deleted),
    ensures
        inserted.fts ==> updated.fts && deleted.fts,
        inserted.timeseries ==> updated.timeseries && deleted.timeseries,
        inserted.vector ==> deleted.vector,
        inserted.link ==> deleted.graph,
        inserted.embed == updated.embed,
        inserted.embed ==> deleted.vector,
        inserted.chunks == updated.chunks,
        inserted.audit == updated.audit && updated.audit == deleted.audit,
        deleted.vector == db.vector_index,
        deleted.graph == db.graph_index,
        deleted.code_refs <==> !(record.table@.len() > 0 && record.table@[0] == '_'),
        deleted.doubts <==> record.table@ == "_entities"@,
{
}

/// The batches that are embedded follow one another without a gap, begin at the first item
/// and end at the last, and have 32 items but for the last.
pub proof fn batches_follow_one_another(batches: Seq<(usize, usize)>, n: int)
    requires
        batched(batches, n),
        0 <= n <= usize::MAX,
    ensures
        n > 0 ==> batches.len() > 0 && batches[0].0 == 0 && batches.last().1 == n,
        n == 0 ==> batches.len() == 0,
        forall|i: int|
            #![trigger batches[i]]
            0 <= i < batches.len() ==> batches[i].0 < batches[i].1 <= batches[i].0 + 32,
        forall|i: int|
            #![trigger batches[i]]
            0 <= i < batches.len() - 1 ==> batches[i].1 == batches[i].0 + 32 && batches[i + 1].0
                == batches[i].1,
{
    let k = batches.len() as int;
    assert(k == (n + 31) / 32);
    if n > 0 {
        assert(batches[k - 1].1 == n);
    }
    assert forall|i: int| #![trigger batches[i]] 0 <= i < k - 1 implies batches[i].1
        == batches[i].0 + 32 && batches[i + 1].0 == batches[i].1 by {
        assert(batches[i + 1].0 == (i + 1) * 32);
    }
}

/// A belief that was put together from facts is doubted when an entity is deleted, once,
/// with a confidence of 0.3 and the reason; all others stay as they are.
pub proof fn consolidated_beliefs_are_doubted_once(belief: RecordView, deleted: Seq<char>)
    requires
        belief.data is Object,
    ensures
        doubted(belief, deleted) is Some <==> belief.data.member("source"@) == Some(
            Json::Text("consolidated"@),
        ) && belief.data.member("doubted"@) != Some(Json::Bool(true)),
        doubted(belief, deleted) matches Some(u) ==> {
            &&& u.id == belief.id
            &&& u.data.member("doubted"@) == Some(Json::Bool(true))
            &&& u.data.member("confidence"@) == Some(Json::Float(0x3fd3_3333_3333_3333))
            &&& u.data.member("_doubt_reason"@) == Some(
                Json::Text("source entity fact "@ + deleted + " deleted"@),
            )
            &&& u.data.member("source"@) == belief.data.member("source"@)
            &&& doubted(RecordView { data: u.data, ..belief }, deleted) is None
        },
{
    reveal_strlit("doubted");
    reveal_strlit("confidence");
    reveal_strlit("_doubt_reason");
    reveal_strlit("source");
    assert("doubted"@.len() == 7 && "confidence"@.len() == 10 && "_doubt_reason"@.len() == 13
        && "source"@.len() == 6);
}

/// An access is noted in the data of a record, and nothing else changes.
pub proof fn accesses_are_noted(
    record: &Record,
    activation: Value,
    accessed: &str,
    r: Value,
    key: Seq<char>,
)
    requires
        call_ensures(Axil::bump_activation, (record, activation, accessed), r),
        record.data.model() is Object,
    ensures
        r.model().member("_activation"@) == Some(activation.model()),
        r.model().member("_last_accessed"@) == Some(Json::Text(accessed@)),
        key != "_activation"@ && key != "_last_accessed"@ ==> r.model().member(key)
            == record.data.model().member(key),
{
    reveal_strlit("_activation");
    reveal_strlit("_last_accessed");
    assert("_activation"@.len() == 11 && "_last_accessed"@.len() == 14);
}

/// When an entity goes, each belief that was put together from facts and is not doubted yet
/// is doubted, and no other.
pub proof fn beliefs_are_doubted_when_an_entity_goes(
    beliefs: &Vec<Record>,
    deleted: &RecordId,
    r: Vec<RowUpdate>,
    i: int,
)
    requires
        call_ensures(doubt_beliefs, (beliefs, deleted), r),
        0 <= i < beliefs@.len(),
        beliefs@[i].data.model() is Object,
        forall|a: int, b: int|
            0 <= a < b < beliefs@.len() ==> (#[trigger] beliefs@[a]).id@ != (
            #[trigger] beliefs@[b]).id@,
    ensures
        (exists|k: int| 0 <= k < r@.len() && (#[trigger] r@[k]).id@ == beliefs@[i].id@) <==> (
        beliefs@[i].data.model().member("source"@) == Some(Json::Text("consolidated"@))
            && beliefs@[i].data.model().member("doubted"@) != Some(Json::Bool(true))),
        forall|k: int|
            0 <= k < r@.len() && (#[trigger] r@[k]).id@ == beliefs@[i].id@
                ==> r@[k].data.model().member("doubted"@) == Some(Json::Bool(true)),
{
    let v = records_view(beliefs@);
    let u = updates_view(r@);
    let f = |x: RecordView| doubted(x, deleted@);
    assert(v[i] == beliefs@[i]@);
    assert(f(v[i]) == doubted(v[i], deleted@));
    consolidated_beliefs_are_doubted_once(v[i], deleted@);
    if doubted(v[i], deleted@) is Some {
        let x = doubted(v[i], deleted@)->0;
        crate::text::collected_values_come_from_items(v, f, x);
        let k = choose|k: int| 0 <= k < u.len() && u[k] == x;
        assert(u[k] == r@[k]@);
        assert(r@[k].id@ == beliefs@[i].id@);
    }
    assert forall|k: int| 0 <= k < r@.len() && (#[trigger] r@[k]).id@ == beliefs@[i].id@ implies
        doubted(v[i], deleted@) == Some(r@[k]@) by {
        assert(u[k] == r@[k]@);
        assert(u.contains(u[k]));
        crate::text::collected_values_come_from_items(v, f, u[k]);
        let j = choose|j: int| 0 <= j < v.len() && f(#[trigger] v[j]) == Some(u[k]);
        assert(v[j] == beliefs@[j]@);
        assert(beliefs@[j].id@ == beliefs@[i].id@);
        assert(j == i);
    }
}

} // verus!
