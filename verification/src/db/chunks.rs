//! The parts of long texts that are indexed on their own.

use super::rows::records_view;
use super::Axil;
use crate::json::{Json, Value};
use crate::record::{
    ids_view, internal_table, is_internal_table, is_ulid, Record, RecordId, RecordView,
};
use crate::text::{chars_of, collected, same_text, string_of};
use vstd::prelude::*;

verus! {

/// The table of the parts of long texts.
pub open spec fn recall_chunks_table() -> Seq<char> {
    "_recall_chunks"@
}

/// The bytes of a part at most.
pub const RECALL_CHUNK_MAX_BYTES: usize = 1600;

/// The bytes that a part shares with the one before.
pub const RECALL_CHUNK_OVERLAP_BYTES: usize = 400;

/// The number of parts that are embedded at once.
pub const MICRO_BATCH: usize = 32;

/// The windows of a text from the character `pos` on: where each starts and ends. A
/// window has `max` characters and starts `stride` characters behind the one before;
/// the last one reaches the end.
pub open spec fn windows(n: int, pos: int, max: int, stride: int) -> Seq<(int, int)>
    decreases
            if pos < n {
                n - pos
            } else {
                0
            },
{
    if pos >= n || stride <= 0 {
        Seq::empty()
    } else if pos + max >= n {
        seq![(pos, n)]
    } else {
        seq![(pos, pos + max)] + windows(n, pos + stride, max, stride)
    }
}

/// The stride that is taken: at least a character, at most a window.
pub open spec fn stride_taken(max: int, stride: int) -> int {
    if stride < 1 {
        1
    } else if stride > max {
        max
    } else {
        stride
    }
}

/// The parts that a text is split into: none of no text or of no size, the text
/// itself where it fits, else its windows.
pub open spec fn chunks(s: Seq<char>, max: int, stride: int) -> Seq<Seq<char>> {
    if max == 0 || s.len() == 0 {
        Seq::empty()
    } else if s.len() <= max {
        seq![s]
    } else {
        windows(s.len() as int, 0, max, stride_taken(max, stride)).map_values(
            |w: (int, int)| s.subrange(w.0, w.1),
        )
    }
}

/// Splits a text into parts that overlap.
pub fn chunk_by_chars(text: &str, max_chars: usize, stride: usize) -> (r: Vec<String>)
    ensures
        r@.map_values(|c: String| c@) == chunks(text@, max_chars as int, stride as int),
{
    let mut out: Vec<String> = Vec::new();
    let v = chars_of(text);
    if max_chars == 0 || v.len() == 0 {
        assert(out@.map_values(|c: String| c@) =~= Seq::<Seq<char>>::empty());
        return out;
    }
    let n = v.len();
    if n <= max_chars {
        out.push(string_of(&v, 0, n));
        assert(v@.subrange(0, v@.len() as int) =~= v@);
        assert(out@.map_values(|c: String| c@) =~= seq![text@]);
        return out;
    }
    let step: usize = if stride < 1 {
        1
    } else if stride > max_chars {
        max_chars
    } else {
        stride
    };
    let ghost part = |w: (int, int)| text@.subrange(w.0, w.1);
    let ghost all = chunks(text@, max_chars as int, stride as int);
    let mut pos: usize = 0;
    proof {
        assert(out@.map_values(|c: String| c@) =~= Seq::empty());
        assert(all =~= Seq::<Seq<char>>::empty() + windows(
            n as int,
            0,
            max_chars as int,
            step as int,
        ).map_values(part));
    }
    while max_chars < n - pos
        invariant
            v@ == text@,
            n == text@.len(),
            0 < step <= max_chars < n,
            pos < n,
            part == |w: (int, int)| text@.subrange(w.0, w.1),
            all == out@.map_values(|c: String| c@) + windows(
                n as int,
                pos as int,
                max_chars as int,
                step as int,
            ).map_values(part),
        decreases n - pos,
    {
        let ghost before = out@.map_values(|c: String| c@);
        let ghost rest = windows(n as int, pos as int, max_chars as int, step as int);
        out.push(string_of(&v, pos, pos + max_chars));
        proof {
            let here = text@.subrange(pos as int, pos + max_chars);
            let tail = windows(n as int, pos + step, max_chars as int, step as int);
            assert(out@.map_values(|c: String| c@) =~= before.push(here));
            assert(rest.map_values(part) =~= seq![here] + tail.map_values(part));
            assert(before + (seq![here] + tail.map_values(part)) =~= before.push(here)
                + tail.map_values(part));
        }
        pos = pos + step;
    }
    let ghost before = out@.map_values(|c: String| c@);
    let ghost rest = windows(n as int, pos as int, max_chars as int, step as int);
    out.push(string_of(&v, pos, n));
    proof {
        let here = text@.subrange(pos as int, n as int);
        assert(rest.map_values(part) =~= seq![here]);
        assert(before + rest.map_values(part) =~= before.push(here));
        assert(out@.map_values(|c: String| c@) =~= before.push(here));
    }
    out
}

/// Windows cover the text: the first starts where the windows begin, each begins at
/// or before the end of the one before it, the last reaches the end, and none is
/// empty or longer than asked for.
pub proof fn windows_cover_the_text(n: int, pos: int, max: int, stride: int)
    requires
        0 <= pos < n,
        1 <= stride <= max,
    ensures
        ({
            let w = windows(n, pos, max, stride);
            &&& w.len() > 0
            &&& w[0].0 == pos
            &&& w.last().1 == n
            &&& forall|i: int|
                0 <= i < w.len() ==> pos <= (#[trigger] w[i]).0 < w[i].1 <= n && w[i].1 - w[i].0
                    <= max
            &&& forall|i: int| #![trigger w[i + 1]] 0 <= i < w.len() - 1 ==> w[i + 1].0 <= w[i].1
        }),
    decreases n - pos,
{
    if pos + max < n {
        windows_cover_the_text(n, pos + stride, max, stride);
        let w = windows(n, pos, max, stride);
        let t = windows(n, pos + stride, max, stride);
        assert(w.last() == t.last());
        assert forall|i: int| 0 <= i < w.len() implies pos <= (#[trigger] w[i]).0 < w[i].1 <= n
            && w[i].1 - w[i].0 <= max by {
            if i > 0 {
                assert(w[i] == t[i - 1]);
            }
        }
        assert forall|i: int| #![trigger w[i + 1]] 0 <= i < w.len() - 1 implies w[i + 1].0
            <= w[i].1 by {
            if i > 0 {
                assert(w[i + 1] == t[(i - 1) + 1]);
                assert(w[i] == t[i - 1]);
            }
        }
    }
}

/// The id that the parts of a record name it by.
pub open spec fn source_of(r: RecordView) -> Option<Seq<char>> {
    match r.data.text_member("source_record"@) {
        Some(s) => if is_ulid(s) {
            Some(s)
        } else {
            None
        },
        None => None,
    }
}

/// The id of the record that a part belongs to.
pub fn parse_source_record_id(record: &Record) -> (r: Option<RecordId>)
    ensures
        match r {
            Some(id) => source_of(record@) == Some(id@),
            None => source_of(record@) is None,
        },
{
    match record.data.get_str("source_record") {
        Some(s) => match RecordId::from_string(s) {
            Ok(id) => Some(id),
            Err(_) => None,
        },
        None => None,
    }
}

/// What a hit leads to.
#[derive(Debug)]
pub enum Resolution {
    /// The record itself.
    Itself,
    /// The record that the hit is a part of.
    Source(RecordId),
    /// Nothing.
    Nothing,
}

/// What a hit leads to: the record, unless it is a part, which leads to the record
/// that it belongs to.
pub fn resolve_recall_candidate(record: &Record) -> (r: Resolution)
    ensures
        match r {
            Resolution::Itself => record.table@ != recall_chunks_table(),
            Resolution::Source(id) => record.table@ == recall_chunks_table() && source_of(record@)
                == Some(id@),
            Resolution::Nothing => record.table@ == recall_chunks_table() && source_of(
                record@,
            ) is None,
        },
{
    if !same_text(record.table.as_str(), "_recall_chunks") {
        return Resolution::Itself;
    }
    match parse_source_record_id(record) {
        Some(id) => Resolution::Source(id),
        None => Resolution::Nothing,
    }
}

/// The id that an item of a list is.
pub open spec fn listed_id(v: Json) -> Option<Seq<char>> {
    match v {
        Json::Text(s) => if is_ulid(s) {
            Some(s)
        } else {
            None
        },
        _ => None,
    }
}

/// The ids of the parts of a record.
pub open spec fn chunk_ids(r: RecordView) -> Seq<Seq<char>> {
    match r.metadata {
        Some(m) => match m.member("_recall_chunk_ids"@) {
            Some(Json::Array(items)) => collected(items, |v: Json| listed_id(v)),
            _ => Seq::empty(),
        },
        None => Seq::empty(),
    }
}

/// The ids of the parts of a record.
pub fn recall_chunk_ids(record: &Record) -> (r: Vec<RecordId>)
    ensures
        ids_view(r@) == chunk_ids(record@),
{
    let mut out: Vec<RecordId> = Vec::new();
    assert(ids_view(out@) =~= Seq::empty());
    if let Some(m) = &record.metadata {
        if let Some(Value::Array(items)) = m.get("_recall_chunk_ids") {
            let ghost all = (Value::Array(*items)).model()->Array_0;
            let ghost f = |v: Json| listed_id(v);
            let mut i: usize = 0;
            assert(ids_view(out@) =~= collected(all.take(0), f));
            while i < items.len()
                invariant
                    i <= items@.len(),
                    all == (Value::Array(*items)).model()->Array_0,
                    all.len() == items@.len(),
                    f == |v: Json| listed_id(v),
                    ids_view(out@) == collected(all.take(i as int), f),
                decreases items@.len() - i,
            {
                proof {
                    assert(all.take(i + 1).drop_last() =~= all.take(i as int));
                    assert(all.take(i + 1).last() == items@[i as int].model());
                }
                if let Some(s) = items[i].as_str() {
                    if let Ok(id) = RecordId::from_string(s) {
                        let ghost before = out@;
                        let ghost text = id@;
                        out.push(id);
                        assert(ids_view(out@) =~= ids_view(before).push(text));
                    }
                }
                i += 1;
            }
            assert(all.take(i as int) =~= all);
        }
    }
    out
}

/// A list of texts.
pub open spec fn texts_json(ids: Seq<Seq<char>>) -> Json {
    Json::Array(ids.map_values(|s: Seq<char>| Json::Text(s)))
}

/// A record with the ids of its parts in its metadata. Metadata that is no object
/// stays as it is, and metadata without members is none.
pub open spec fn with_chunk_ids(r: RecordView, ids: Seq<Seq<char>>) -> RecordView {
    let meta = match r.metadata {
        Some(m) => m,
        None => Json::Object(Map::empty()),
    };
    let after = if ids.len() == 0 {
        let m = meta.without_member("_recall_chunk_ids"@);
        if m == Json::Object(Map::empty()) {
            None
        } else {
            Some(m)
        }
    } else {
        Some(meta.with_member("_recall_chunk_ids"@, texts_json(ids)))
    };
    RecordView { metadata: after, ..r }
}

/// A list of ids as a value.
fn ids_value(ids: &Vec<RecordId>) -> (r: Value)
    ensures
        r.model() == texts_json(ids_view(ids@)),
{
    let mut items: Vec<Value> = Vec::new();
    let mut i: usize = 0;
    while i < ids.len()
        invariant
            i <= ids@.len(),
            items@.len() == i,
            forall|j: int| 0 <= j < i ==> (#[trigger] items@[j]).model() == Json::Text(ids@[j]@),
        decreases ids@.len() - i,
    {
        items.push(Value::text(ids[i].as_str()));
        i += 1;
    }
    let r = Value::Array(items);
    assert(r.model()->Array_0 =~= texts_json(ids_view(ids@))->Array_0);
    r
}

/// The record with the ids of its parts in its metadata.
pub fn persist_recall_chunk_ids(source: &Record, ids: &Vec<RecordId>) -> (r: Record)
    ensures
        r@ == with_chunk_ids(source@, ids_view(ids@)),
{
    let mut record = source.copy();
    let mut meta = match &source.metadata {
        Some(m) => m.copy(),
        None => Value::object(),
    };
    assert(ids_view(ids@).len() == ids@.len());
    if ids.len() == 0 {
        meta.unset("_recall_chunk_ids");
        if meta.is_empty_object() {
            record.metadata = None;
        } else {
            record.metadata = Some(meta);
        }
    } else {
        meta.set("_recall_chunk_ids", ids_value(ids));
        record.metadata = Some(meta);
    }
    record
}

/// What the record of a part holds.
pub open spec fn chunk_data(source: RecordView, idx: nat, count: nat, content: Seq<char>) -> Json {
    Json::Object(Map::empty()).with_member("source_record"@, Json::Text(source.id)).with_member(
        "source_table"@,
        Json::Text(source.table),
    ).with_member("chunk_idx"@, Json::PosInt(idx as u64)).with_member(
        "chunk_count"@,
        Json::PosInt(count as u64),
    ).with_member("content"@, Json::Text(content))
}

/// Whether a record is that of a part: it holds the part and is as old as the
/// record that the part belongs to.
pub open spec fn is_chunk_of(
    r: RecordView,
    source: RecordView,
    idx: nat,
    count: nat,
    content: Seq<char>,
) -> bool {
    is_ulid(r.id) && r == (RecordView {
        id: r.id,
        table: recall_chunks_table(),
        data: chunk_data(source, idx, count, content),
        created_at: source.created_at,
        updated_at: source.created_at,
        metadata: None,
    })
}

/// The record of a part.
fn chunk_record(source: &Record, idx: usize, count: usize, content: &str) -> (r: Record)
    ensures
        is_chunk_of(r@, source@, idx as nat, count as nat, content@),
{
    let mut data = Value::object();
    data.set("source_record", Value::text(source.id.as_str()));
    data.set("source_table", Value::text(source.table.as_str()));
    data.set("chunk_idx", Value::count(idx as u64));
    data.set("chunk_count", Value::count(count as u64));
    data.set("content", Value::text(content));
    Record::new("_recall_chunks", data, source.created_at)
}

/// What becomes of the parts of a record.
#[derive(Debug)]
pub enum ChunkPlan {
    /// Nothing.
    Skip,
    /// Old parts go, and the record has none.
    Clear,
    /// Old parts go, and these take their place.
    Split(Vec<Record>),
}

impl Axil {
    /// Whether a plan is that of a record whose text falls into the parts: nothing
    /// is done where no index would know the parts or where the table is internal,
    /// and a text of one part is not split.
    pub open spec fn plans(self, plan: ChunkPlan, record: RecordView, parts: Seq<String>) -> bool {
        if internal_table(record.table) || (!self.vector_index && !self.fts_index) {
            plan is Skip
        } else if parts.len() <= 1 {
            plan is Clear
        } else {
            &&& plan matches ChunkPlan::Split(records)
            &&& records@.len() == parts.len()
            &&& forall|i: int|
                0 <= i < parts.len() ==> is_chunk_of(
                    (#[trigger] records@[i])@,
                    record,
                    i as nat,
                    parts.len(),
                    parts[i]@,
                )
        }
    }

    /// Plans the parts of a record.
    pub fn sync_recall_chunks_for_record(&self, record: &Record, parts: &Vec<String>) -> (r:
        ChunkPlan)
        ensures
            self.plans(r, record@, parts@),
    {
        if is_internal_table(record.table.as_str()) || (!self.vector_index && !self.fts_index) {
            return ChunkPlan::Skip;
        }
        if parts.len() <= 1 {
            return ChunkPlan::Clear;
        }
        let mut records: Vec<Record> = Vec::new();
        let mut i: usize = 0;
        while i < parts.len()
            invariant
                i <= parts@.len(),
                records@.len() == i,
                forall|j: int|
                    0 <= j < i ==> is_chunk_of(
                        (#[trigger] records@[j])@,
                        record@,
                        j as nat,
                        parts@.len(),
                        parts@[j]@,
                    ),
            decreases parts@.len() - i,
        {
            records.push(chunk_record(record, i, parts.len(), parts[i].as_str()));
            i += 1;
        }
        ChunkPlan::Split(records)
    }

    /// Plans the parts of many records at once.
    pub fn batch_sync_recall_chunks(
        &self,
        records: &Vec<Record>,
        parts: &Vec<Vec<String>>,
    ) -> (r: Vec<ChunkPlan>)
        requires
            records@.len() == parts@.len(),
        ensures
            r@.len() == records@.len(),
            forall|i: int|
                0 <= i < r@.len() ==> self.plans(#[trigger] r@[i], records@[i]@, parts@[i]@),
    {
        let mut out: Vec<ChunkPlan> = Vec::new();
        let mut i: usize = 0;
        while i < records.len()
            invariant
                i <= records@.len(),
                records@.len() == parts@.len(),
                out@.len() == i,
                forall|j: int|
                    0 <= j < i ==> self.plans(#[trigger] out@[j], records@[j]@, parts@[j]@),
            decreases records@.len() - i,
        {
            out.push(self.sync_recall_chunks_for_record(&records[i], &parts[i]));
            i += 1;
        }
        out
    }
}

/// The records of the parts of all plans, one behind the other.
pub open spec fn planned(plans: Seq<ChunkPlan>) -> Seq<RecordView>
    decreases plans.len(),
{
    if plans.len() == 0 {
        Seq::empty()
    } else {
        planned(plans.drop_last()) + match plans.last() {
            ChunkPlan::Split(records) => records_view(records@),
            _ => Seq::empty(),
        }
    }
}

/// Copies of the records of the parts of all plans, one behind the other: they are
/// stored, embedded and indexed together.
pub fn flat_chunks(plans: &Vec<ChunkPlan>) -> (r: Vec<Record>)
    ensures
        records_view(r@) == planned(plans@),
{
    let mut out: Vec<Record> = Vec::new();
    let mut i: usize = 0;
    assert(records_view(out@) =~= planned(plans@.take(0)));
    while i < plans.len()
        invariant
            i <= plans@.len(),
            records_view(out@) == planned(plans@.take(i as int)),
        decreases plans@.len() - i,
    {
        assert(plans@.take(i + 1).drop_last() =~= plans@.take(i as int));
        let ghost before = out@;
        if let ChunkPlan::Split(records) = &plans[i] {
            let mut j: usize = 0;
            assert(records_view(out@) =~= records_view(before) + records_view(records@).take(0));
            while j < records.len()
                invariant
                    j <= records@.len(),
                    records_view(out@) == records_view(before) + records_view(records@).take(
                        j as int,
                    ),
                decreases records@.len() - j,
            {
                let ghost held = out@;
                out.push(records[j].copy());
                j += 1;
                proof {
                    assert(records_view(out@) =~= records_view(held).push(records@[j - 1]@));
                    assert(records_view(out@) =~= records_view(before) + records_view(
                        records@,
                    ).take(j as int));
                }
            }
            assert(records_view(records@).take(j as int) =~= records_view(records@));
        } else {
            assert(records_view(out@) =~= records_view(before) + Seq::<RecordView>::empty());
        }
        i += 1;
    }
    assert(plans@.take(i as int) =~= plans@);
    out
}

/// Where the `i`-th batch of `size` out of `n` items starts and ends.
pub open spec fn batch(n: int, size: int, i: int) -> (int, int) {
    (
        i * size,
        if (i + 1) * size < n {
            (i + 1) * size
        } else {
            n
        },
    )
}

/// The batches of at most `size` out of `n` items.
pub fn micro_batches(n: usize, size: usize) -> (r: Vec<(usize, usize)>)
    requires
        0 < size,
    ensures
        r@.len() == (n + size - 1) / size as int,
        forall|i: int|
            0 <= i < r@.len() ==> (#[trigger] r@[i]).0 == batch(n as int, size as int, i).0
                && r@[i].1 == batch(n as int, size as int, i).1,
{
    let mut out: Vec<(usize, usize)> = Vec::new();
    let mut cursor: usize = 0;
    proof {
        assert(0 * size as int == 0) by (nonlinear_arith);
        assert((size - 1) / size as int == 0) by (nonlinear_arith)
            requires
                0 < size,
        ;
    }
    while cursor < n
        invariant
            0 < size,
            cursor <= n,
            cursor == n || cursor == out@.len() * size,
            cursor == n ==> out@.len() == (n + size - 1) / size as int,
            forall|i: int|
                0 <= i < out@.len() ==> (#[trigger] out@[i]).0 == batch(n as int, size as int, i).0
                    && out@[i].1 == batch(n as int, size as int, i).1,
        decreases n - cursor,
    {
        let ghost k = out@.len() as int;
        let end: usize = if size < n - cursor {
            cursor + size
        } else {
            n
        };
        out.push((cursor, end));
        proof {
            assert((k + 1) * size == k * size + size) by (nonlinear_arith);
            if end == n {
                assert(k + 1 == (n + size - 1) / size as int) by (nonlinear_arith)
                    requires
                        0 < size,
                        k * size < n <= k * size + size,
                ;
            }
        }
        cursor = end;
    }
    out
}

/// What the metadata of a record says of its parts is what was put there, where the
/// ids are ULIDs and the metadata is an object or none.
pub proof fn stored_chunk_ids_are_read_back(r: RecordView, ids: Seq<Seq<char>>)
    requires
        forall|i: int| 0 <= i < ids.len() ==> is_ulid(#[trigger] ids[i]),
        r.metadata matches Some(m) ==> m is Object,
    ensures
        chunk_ids(with_chunk_ids(r, ids)) == ids,
{
    let after = with_chunk_ids(r, ids);
    if ids.len() == 0 {
        assert(chunk_ids(after) =~= ids);
    } else {
        let f = |v: Json| listed_id(v);
        let items = texts_json(ids)->Array_0;
        lemma_listed_ids(ids);
        assert(chunk_ids(after) =~= collected(items, f));
    }
}

/// The ids of a list of texts.
proof fn lemma_listed_ids(ids: Seq<Seq<char>>)
    requires
        forall|i: int| 0 <= i < ids.len() ==> is_ulid(#[trigger] ids[i]),
    ensures
        collected(texts_json(ids)->Array_0, |v: Json| listed_id(v)) == ids,
    decreases ids.len(),
{
    let f = |v: Json| listed_id(v);
    let items = texts_json(ids)->Array_0;
    if ids.len() > 0 {
        let d = ids.drop_last();
        assert forall|i: int| 0 <= i < d.len() implies is_ulid(#[trigger] d[i]) by {
            assert(d[i] == ids[i]);
        }
        lemma_listed_ids(d);
        assert(items.drop_last() =~= texts_json(d)->Array_0);
        assert(items.last() == Json::Text(ids.last()));
        assert(ids =~= d.push(ids.last()));
    } else {
        assert(collected(items, f) =~= ids);
    }
}

/// The windows of a text begin a stride apart and have the full size, but for the last,
/// which is the first to reach the end.
proof fn lemma_windows(n: int, pos: int, max: int, stride: int)
    requires
        0 <= pos < n,
        1 <= stride <= max,
    ensures
        windows(n, pos, max, stride).len() > 0,
        forall|k: int|
            #![trigger windows(n, pos, max, stride)[k]]
            0 <= k < windows(n, pos, max, stride).len() ==> windows(n, pos, max, stride)[k].0 == pos
                + k * stride,
        forall|k: int|
            #![trigger windows(n, pos, max, stride)[k]]
            0 <= k < windows(n, pos, max, stride).len() - 1 ==> windows(n, pos, max, stride)[k].1
                == pos + k * stride + max && pos + k * stride + max < n,
        windows(n, pos, max, stride).last().1 == n,
        windows(n, pos, max, stride).last().0 + max >= n,
    decreases n - pos,
{
    let w = windows(n, pos, max, stride);
    if pos + max < n {
        let rest = windows(n, pos + stride, max, stride);
        lemma_windows(n, pos + stride, max, stride);
        assert(w == seq![(pos, pos + max)] + rest);
        assert forall|k: int| #![trigger w[k]] 0 <= k < w.len() implies w[k].0 == pos + k
            * stride by {
            if k > 0 {
                assert(w[k] == rest[k - 1]);
                assert((k - 1) * stride + stride == k * stride) by (nonlinear_arith);
            } else {
                assert(0 * stride == 0);
            }
        }
        assert forall|k: int| #![trigger w[k]] 0 <= k < w.len() - 1 implies w[k].1 == pos + k
            * stride + max && pos + k * stride + max < n by {
            if k > 0 {
                assert(w[k] == rest[k - 1]);
                assert((k - 1) * stride + stride == k * stride) by (nonlinear_arith);
            } else {
                assert(0 * stride == 0);
            }
        }
        assert(w.last() == rest.last());
    } else {
        assert(w.len() == 1);
        assert(0 * stride == 0);
    }
}

/// A text is split into parts of the size asked for that begin a stride apart; the last one
/// is the first that reaches the end. A text that fits is its own part, and no text, or no
/// size, gives none.
pub proof fn parts_begin_a_stride_apart(
    text: &str,
    max: usize,
    stride: usize,
    r: Vec<String>,
    k: int,
)
    requires
        call_ensures(chunk_by_chars, (text, max, stride), r),
    ensures
        max == 0 || text@.len() == 0 ==> r@.len() == 0,
        0 < text@.len() <= max ==> r@.len() == 1 && r@[0]@ == text@,
        text@.len() > max && 1 <= stride <= max ==> r@.len() > 0 && r@.last()@ == text@.subrange(
            (r@.len() - 1) * stride,
            text@.len() as int,
        ) && (r@.len() - 1) * stride + max >= text@.len(),
        text@.len() > max && 1 <= stride <= max && 0 <= k < r@.len() - 1 ==> k * stride + max
            < text@.len() && r@[k]@ == text@.subrange(k * stride, k * stride + max),
{
    let v = r@.map_values(|c: String| c@);
    let s = text@;
    assert forall|k: int| 0 <= k < r@.len() implies #[trigger] r@[k]@ == v[k] by {}
    if max > 0 && s.len() > max && 1 <= stride <= max {
        lemma_windows(s.len() as int, 0, max as int, stride as int);
        let w = windows(s.len() as int, 0, max as int, stride as int);
        assert(v == w.map_values(|x: (int, int)| s.subrange(x.0, x.1)));
        if 0 <= k < r@.len() - 1 {
            assert(v[k] == s.subrange(w[k].0, w[k].1));
            assert(w[k].0 == 0 + k * stride);
            assert(w[k].1 == 0 + k * stride + max);
        }
        let n = r@.len() - 1;
        assert(w.len() == r@.len());
        assert(w[n].0 == 0 + n * stride);
        assert(w.last() == w[n]);
        assert(r@.last()@ == v[n]);
        assert(v[n] == s.subrange(w[n].0, w[n].1));
        assert(r@.last()@ == text@.subrange((r@.len() - 1) * stride, text@.len() as int));
        assert((r@.len() - 1) * stride + max >= text@.len());
    }
    assert(v.len() == r@.len());
    if r@.len() > 0 {
        assert(r@[0]@ == v[0]);
    }
}

/// A stride that is too small is taken for one character, and one that is too large for a
/// whole part, so that nothing is left out.
pub proof fn strides_leave_nothing_out(text: &str, max: usize, stride: usize, r: Vec<String>, i: int)
    requires
        call_ensures(chunk_by_chars, (text, max, stride), r),
        max > 0,
        0 <= i < text@.len(),
    ensures
        exists|k: int|
            #![trigger r@[k]]
            0 <= k < r@.len() && r@[k]@.contains(text@[i]),
        forall|k: int| 0 <= k < r@.len() ==> 0 < (#[trigger] r@[k])@.len() <= max,
{
    let v = r@.map_values(|c: String| c@);
    let s = text@;
    let n = s.len() as int;
    assert forall|k: int| 0 <= k < r@.len() implies #[trigger] r@[k]@ == v[k] by {}
    if n > max {
        let t = stride_taken(max as int, stride as int);
        let w = windows(n, 0, max as int, t);
        windows_cover_the_text(n, 0, max as int, t);
        assert(v == w.map_values(|x: (int, int)| s.subrange(x.0, x.1)));
        let k = lemma_covered(w, n, i);
        assert(v[k] == s.subrange(w[k].0, w[k].1));
        assert(v[k][i - w[k].0] == s[i]);
        assert(r@[k]@.contains(s[i]));
        assert forall|k: int| 0 <= k < r@.len() implies 0 < (#[trigger] r@[k])@.len() <= max by {
            assert(v[k] == s.subrange(w[k].0, w[k].1));
        }
    } else {
        assert(v == seq![s]);
        assert(r@[0]@ == v[0]);
        assert(r@[0]@[i] == s[i]);
        assert(r@[0]@.contains(s[i]));
    }
}

/// A position lies in one of the windows that follow one another.
proof fn lemma_covered(w: Seq<(int, int)>, n: int, i: int) -> (k: int)
    requires
        w.len() > 0,
        w[0].0 <= i,
        i < w.last().1,
        forall|j: int| #![trigger w[j + 1]] 0 <= j < w.len() - 1 ==> w[j + 1].0 <= w[j].1,
    ensures
        0 <= k < w.len(),
        w[k].0 <= i < w[k].1,
    decreases w.len(),
{
    if w[0].1 > i {
        0
    } else {
        assert(w.len() > 1);
        let d = w.drop_first();
        assert(w[0int + 1].0 <= w[0].1);
        assert(d[0] == w[1]);
        assert forall|j: int| #![trigger d[j + 1]] 0 <= j < d.len() - 1 implies d[j + 1].0
            <= d[j].1 by {
            assert(w[(j + 1) + 1].0 <= w[j + 1].1);
        }
        let k = lemma_covered(d, n, i);
        k + 1
    }
}

/// The record of a part leads back to the record that it belongs to, and says where in it
/// the part stands and what it holds.
pub proof fn parts_lead_back_to_their_record(
    part: &Record,
    source: RecordView,
    idx: nat,
    count: nat,
    content: Seq<char>,
    r: Resolution,
)
    requires
        is_chunk_of(part@, source, idx, count, content),
        is_ulid(source.id),
        call_ensures(resolve_recall_candidate, (part,), r),
    ensures
        r matches Resolution::Source(id) && id@ == source.id,
        part.data.model().member("content"@) == Some(Json::Text(content)),
        part.data.model().member("source_table"@) == Some(Json::Text(source.table)),
        part.data.model().member("chunk_idx"@) == Some(Json::PosInt(idx as u64)),
        part.data.model().member("chunk_count"@) == Some(Json::PosInt(count as u64)),
        part.table@ == "_recall_chunks"@,
{
    reveal_strlit("source_record");
    reveal_strlit("source_table");
    reveal_strlit("chunk_idx");
    reveal_strlit("chunk_count");
    reveal_strlit("content");
    assert("source_record"@.len() == 13 && "source_table"@.len() == 12 && "chunk_idx"@.len() == 9
        && "chunk_count"@.len() == 11 && "content"@.len() == 7);
    assert(part@.data == chunk_data(source, idx, count, content));
    assert(part@.table == "_recall_chunks"@);
}

/// A record that is no part leads to itself.
pub proof fn records_lead_to_themselves(record: &Record, r: Resolution)
    requires
        call_ensures(resolve_recall_candidate, (record,), r),
        record.table@ != "_recall_chunks"@,
    ensures
        r is Itself,
{
}

/// A text of two parts or more is split where an index would know the parts, and the plan
/// holds each part in its order; a text of one part is not, and old parts of it go. Nothing
/// is done for internal tables.
pub proof fn long_texts_are_split(db: &Axil, record: &Record, parts: &Vec<String>, r: ChunkPlan)
    requires
        call_ensures(Axil::sync_recall_chunks_for_record, (db, record, parts), r),
        is_ulid(record.id@),
    ensures
        record.table@.len() > 0 && record.table@[0] == '_' ==> r is Skip,
        !db.vector_index && !db.fts_index ==> r is Skip,
        !(record.table@.len() > 0 && record.table@[0] == '_') && (db.vector_index || db.fts_index)
            && parts@.len() <= 1 ==> r is Clear,
        !(record.table@.len() > 0 && record.table@[0] == '_') && (db.vector_index || db.fts_index)
            && parts@.len() >= 2 ==> (r matches ChunkPlan::Split(x) && x@.len() == parts@.len()
            && forall|i: int|
            0 <= i < parts@.len() ==> (#[trigger] x@[i]).data.model().member("content"@) == Some(
                Json::Text(parts@[i]@),
            ) && x@[i].data.model().member("source_record"@) == Some(Json::Text(record.id@))),
{
    if r is Split {
        let x = r->Split_0;
        reveal_strlit("source_record");
        reveal_strlit("source_table");
        reveal_strlit("chunk_idx");
        reveal_strlit("chunk_count");
        reveal_strlit("content");
        assert("source_record"@.len() == 13 && "source_table"@.len() == 12 && "chunk_idx"@.len()
            == 9 && "chunk_count"@.len() == 11 && "content"@.len() == 7);
        assert forall|i: int| 0 <= i < parts@.len() implies (
        #[trigger] x@[i]).data.model().member("content"@) == Some(Json::Text(parts@[i]@))
            && x@[i].data.model().member("source_record"@) == Some(Json::Text(record.id@)) by {
            assert(x@[i]@.data == chunk_data(record@, i as nat, parts@.len(), parts@[i]@));
        }
    }
}

/// Batches follow one another without a gap, begin at the first item and end at the last,
/// and have the full size but for the last.
pub proof fn micro_batches_follow_one_another(n: usize, size: usize, r: Vec<(usize, usize)>)
    requires
        0 < size,
        call_ensures(micro_batches, (n, size), r),
    ensures
        n == 0 ==> r@.len() == 0,
        n > 0 ==> r@.len() > 0 && r@[0].0 == 0 && r@.last().1 == n,
        forall|i: int|
            #![trigger r@[i]]
            0 <= i < r@.len() ==> r@[i].0 < r@[i].1 <= n && r@[i].1 - r@[i].0 <= size,
        forall|i: int|
            #![trigger r@[i]]
            0 <= i < r@.len() - 1 ==> r@[i].1 - r@[i].0 == size && r@[i + 1].0 == r@[i].1,
{
    let k = r@.len() as int;
    let s = size as int;
    let m = n as int;
    lemma_batch_count(m, s, k);
    assert forall|i: int| #![trigger r@[i]] 0 <= i < k implies r@[i].0 < r@[i].1 <= n && r@[i].1
        - r@[i].0 <= size by {
        lemma_batch_at(m, s, k, i);
    }
    assert forall|i: int| #![trigger r@[i]] 0 <= i < k - 1 implies r@[i].1 - r@[i].0 == size && r@[i
        + 1].0 == r@[i].1 by {
        lemma_batch_at(m, s, k, i);
        lemma_batch_at(m, s, k, i + 1);
        assert(r@[i + 1].0 == batch(m, s, i + 1).0);
    }
    if n > 0 {
        lemma_batch_at(m, s, k, k - 1);
        assert(0 * s == 0);
    }
}

/// How many batches there are.
proof fn lemma_batch_count(n: int, size: int, k: int)
    requires
        n >= 0,
        size > 0,
        k == (n + size - 1) / size,
    ensures
        n == 0 ==> k == 0,
        n > 0 ==> k > 0,
        (k - 1) * size < n || n == 0,
        k * size >= n,
{
    vstd::arithmetic::div_mod::lemma_fundamental_div_mod(n + size - 1, size);
    let rem = (n + size - 1) % size;
    vstd::arithmetic::div_mod::lemma_mod_bound(n + size - 1, size);
    assert(n + size - 1 == size * k + rem);
    assert((k - 1) * size == size * k - size) by (nonlinear_arith);
    assert(k * size == size * k) by (nonlinear_arith);
    if n == 0 {
        assert(k == 0) by (nonlinear_arith)
            requires
                size - 1 == size * k + rem,
                0 <= rem < size,
                size > 0,
        ;
    } else {
        assert(k > 0) by (nonlinear_arith)
            requires
                n + size - 1 == size * k + rem,
                rem < size,
                n > 0,
                size > 0,
        ;
    }
}

/// Where a batch starts and ends.
proof fn lemma_batch_at(n: int, size: int, k: int, i: int)
    requires
        n >= 0,
        size > 0,
        k == (n + size - 1) / size,
        0 <= i < k,
    ensures
        i * size < n,
        (i + 1) * size == i * size + size,
        i < k - 1 ==> (i + 1) * size < n,
        i == k - 1 ==> (i + 1) * size >= n,
{
    lemma_batch_count(n, size, k);
    assert((i + 1) * size == i * size + size) by (nonlinear_arith);
    assert(i * size <= (k - 1) * size) by (nonlinear_arith)
        requires
            i <= k - 1,
            size > 0,
    ;
    if i < k - 1 {
        assert((i + 1) * size <= (k - 1) * size) by (nonlinear_arith)
            requires
                i + 1 <= k - 1,
                size > 0,
        ;
    }
}

/// A part has 1600 bytes at most and shares 400 with the one before; 32 texts are embedded
/// at once.
pub proof fn parts_overlap_by_a_quarter()
    ensures
        RECALL_CHUNK_MAX_BYTES == 1600,
        RECALL_CHUNK_OVERLAP_BYTES == 400,
        MICRO_BATCH == 32,
{
}

/// The records of all parts come together, those of each plan in their order.
pub proof fn all_parts_come_together(plans: &Vec<ChunkPlan>, r: Vec<Record>, i: int, j: int)
    requires
        call_ensures(flat_chunks, (plans,), r),
        0 <= i < plans@.len(),
        plans@[i] matches ChunkPlan::Split(x) && 0 <= j < x@.len(),
    ensures
        records_view(r@).contains(plans@[i]->Split_0@[j]@),
{
    lemma_planned(plans@, i, j);
}

/// What a plan holds is among the records of all.
proof fn lemma_planned(plans: Seq<ChunkPlan>, i: int, j: int)
    requires
        0 <= i < plans.len(),
        plans[i] matches ChunkPlan::Split(x) && 0 <= j < x@.len(),
    ensures
        planned(plans).contains(plans[i]->Split_0@[j]@),
    decreases plans.len(),
{
    let d = plans.drop_last();
    let n = plans.len() - 1;
    let last = match plans.last() {
        ChunkPlan::Split(records) => records_view(records@),
        _ => Seq::empty(),
    };
    let x = plans[i]->Split_0@[j]@;
    if i < n {
        assert(d[i] == plans[i]);
        lemma_planned(d, i, j);
        let k = choose|k: int| 0 <= k < planned(d).len() && planned(d)[k] == x;
        assert((planned(d) + last)[k] == x);
    } else {
        assert(last[j] == x);
        assert((planned(d) + last)[planned(d).len() + j] == x);
    }
}

/// The parts that a record is noted to have are those that are read back of it, and all else
/// of the record stays.
pub proof fn noted_parts_are_read_back(
    source: &Record,
    ids: &Vec<RecordId>,
    noted: Record,
    r: Vec<RecordId>,
)
    requires
        call_ensures(persist_recall_chunk_ids, (source, ids), noted),
        call_ensures(recall_chunk_ids, (&noted,), r),
        forall|i: int| 0 <= i < ids@.len() ==> is_ulid((#[trigger] ids@[i])@),
        source@.metadata matches Some(m) ==> m is Object,
    ensures
        ids_view(r@) == ids_view(ids@),
        noted.id@ == source.id@ && noted.table@ == source.table@ && noted.data.model()
            == source.data.model() && noted.created_at == source.created_at && noted.updated_at
            == source.updated_at,
{
    let v = ids_view(ids@);
    assert forall|i: int| 0 <= i < v.len() implies is_ulid(#[trigger] v[i]) by {
        assert(v[i] == ids@[i]@);
    }
    stored_chunk_ids_are_read_back(source@, v);
    assert(noted@ == with_chunk_ids(source@, v));
    assert(noted@.id == source@.id && noted@.table == source@.table && noted@.data == source@.data);
    assert(noted@.created_at == source@.created_at && noted@.updated_at == source@.updated_at);
}

/// A record that names a source by a well-formed id belongs to it; another names none.
pub proof fn parts_name_their_source(record: &Record, r: Option<RecordId>, s: Seq<char>)
    requires
        call_ensures(parse_source_record_id, (record,), r),
    ensures
        record.data.model().member("source_record"@) == Some(Json::Text(s)) && is_ulid(s) ==> (
        r matches Some(id) && id@ == s),
        record.data.model().member("source_record"@) == Some(Json::Text(s)) && !is_ulid(s)
            ==> r is None,
        record.data.model().member("source_record"@) is None ==> r is None,
{
}

} // verus!
