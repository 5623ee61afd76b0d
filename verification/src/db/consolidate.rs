//! What is known of an entity, put together, and how it came about.

use super::rows::{find_row, first_row, id_of_row, ids_of_rows, records_view};
use super::Axil;
use crate::json::{Json, Number, Value};
use crate::order::{ranked, sort_ranked, Ranked};
use crate::plugin::EdgeInfo;
use crate::record::{ids_view, is_ulid, Record, RecordId, RecordView};
use crate::text::{
    collected, count_text, decimal, is_blank, join3, join4, join5, join6, trim, trimmed,
};
use crate::time::{rfc3339_text, text_of_instant, Timestamp};
use vstd::prelude::*;
use vstd::string::StringExecFns;

verus! {

/// How a fact stands to others. The similarity is what the edge holds; where it
/// holds no number, the usual one is meant.
#[derive(Debug)]
pub enum ConflictResult {
    /// The fact takes the place of another.
    Supersedes { old_record_id: RecordId, similarity: Option<Number> },
    /// The fact contradicts another.
    Contradicts { existing_record_id: RecordId, similarity: Option<Number> },
    /// The fact is new.
    Novel,
}

/// The number of a member, where there is one.
pub open spec fn number_member(v: Json, key: Seq<char>) -> Option<Number> {
    match v.member(key) {
        Some(Json::PosInt(n)) => Some(Number::PosInt(n)),
        Some(Json::NegInt(n)) => Some(Number::NegInt(n)),
        Some(Json::Float(b)) => Some(Number::Float(b)),
        _ => None,
    }
}

/// The number of a member, where there is one.
fn get_number(v: &Value, key: &str) -> (r: Option<Number>)
    ensures
        r == number_member(v.model(), key@),
{
    match v.get(key) {
        Some(Value::Number(Number::PosInt(n))) => Some(Number::PosInt(*n)),
        Some(Value::Number(Number::NegInt(n))) => Some(Number::NegInt(*n)),
        Some(Value::Number(Number::Float(b))) => Some(Number::Float(*b)),
        _ => None,
    }
}

/// How a fact stands to others, by its edges: superseding counts before
/// contradicting, and the first edge of each.
pub fn fact_conflict(supersedes: &Vec<EdgeInfo>, contradicts: &Vec<EdgeInfo>) -> (r: ConflictResult)
    ensures
        match r {
            ConflictResult::Supersedes { old_record_id, similarity } => supersedes@.len() > 0
                && old_record_id@ == supersedes@[0].to@ && similarity == number_member(
                supersedes@[0].properties.model(),
                "similarity"@,
            ),
            ConflictResult::Contradicts { existing_record_id, similarity } => supersedes@.len() == 0
                && contradicts@.len() > 0 && existing_record_id@ == contradicts@[0].to@
                && similarity == number_member(
                contradicts@[0].properties.model(),
                "similarity"@,
            ),
            ConflictResult::Novel => supersedes@.len() == 0 && contradicts@.len() == 0,
        },
{
    if supersedes.len() > 0 {
        ConflictResult::Supersedes {
            old_record_id: supersedes[0].to.copy(),
            similarity: get_number(&supersedes[0].properties, "similarity"),
        }
    } else if contradicts.len() > 0 {
        ConflictResult::Contradicts {
            existing_record_id: contradicts[0].to.copy(),
            similarity: get_number(&contradicts[0].properties, "similarity"),
        }
    } else {
        ConflictResult::Novel
    }
}

/// What is known of an entity, put together.
#[derive(Debug)]
pub struct ConsolidatedFact {
    pub entity: String,
    pub summary: String,
    pub source_ids: Vec<RecordId>,
    pub latest_at: Timestamp,
}

/// What the record of a consolidation holds.
pub open spec fn consolidated_json(f: ConsolidatedFact) -> Json {
    Json::Object(Map::empty()).with_member("entity"@, Json::Text(f.entity@)).with_member(
        "summary"@,
        Json::Text(f.summary@),
    ).with_member("source_count"@, Json::PosInt(f.source_ids@.len() as u64)).with_member(
        "latest_at"@,
        Json::Text(text_of_instant(f.latest_at.secs, f.latest_at.nanos)),
    )
}

/// What storing a consolidation does: earlier ones of the entity go with the edges
/// that lead to them, the record is stored, and every source is linked to it.
#[derive(Debug)]
pub struct ConsolidationPlan {
    pub stale: Vec<RecordId>,
    pub record: Record,
}

impl Axil {
    /// The row of an entity, by its name.
    pub fn find_entity(rows: &Vec<Record>, name: &str) -> (r: Option<RecordId>)
        ensures
            ({
                let all = records_view(rows@);
                let at = first_row(all, "name"@, name@);
                match r {
                    Some(id) => at < all.len() && id@ == all[at as int].id,
                    None => at == all.len(),
                }
            }),
    {
        match find_row(rows, "name", name) {
            Some(i) => Some(rows[i].id.copy()),
            None => None,
        }
    }

    /// Plans how a consolidation is stored.
    pub fn consolidate_entity(
        name: &str,
        fact: &ConsolidatedFact,
        stored: &Vec<Record>,
        now: Timestamp,
    ) -> (r: ConsolidationPlan)
        requires
            fact.latest_at.valid(),
        ensures
            ids_view(r.stale@) == collected(
                records_view(stored@),
                |x: RecordView| id_of_row(x, "entity"@, name@),
            ),
            is_ulid(r.record.id@),
            r.record@ == (RecordView {
                id: r.record.id@,
                table: "_consolidated"@,
                data: consolidated_json(*fact),
                created_at: now,
                updated_at: now,
                metadata: None,
            }),
    {
        let stale = ids_of_rows(stored, "entity", name);
        let mut data = Value::object();
        data.set("entity", Value::text(fact.entity.as_str()));
        data.set("summary", Value::text(fact.summary.as_str()));
        data.set("source_count", Value::count(fact.source_ids.len() as u64));
        let latest = rfc3339_text(fact.latest_at);
        data.set("latest_at", Value::text(latest.as_str()));
        ConsolidationPlan { stale, record: Record::new("_consolidated", data, now) }
    }
}

/// A fact in the history of an entity.
#[derive(Debug)]
pub struct HistoryEntry {
    pub record: Record,
    /// Whether another record took its place.
    pub superseded: bool,
}

impl HistoryEntry {
    /// The status as it is shown.
    pub fn status(&self) -> (r: &'static str)
        ensures
            r@ == if self.superseded {
                "superseded"@
            } else {
                "current"@
            },
    {
        if self.superseded {
            "superseded"
        } else {
            "current"
        }
    }
}

impl Ranked for HistoryEntry {
    open spec fn before(self, other: HistoryEntry) -> bool {
        self.record.created_at.before(other.record.created_at)
    }

    proof fn lemma_ranked(a: HistoryEntry, b: HistoryEntry, c: HistoryEntry) {
    }

    fn comes_before(&self, other: &HistoryEntry) -> (r: bool) {
        self.record.created_at.is_before(other.record.created_at)
    }
}

/// Whether entries are those of the records, in order.
pub open spec fn history_of(entries: Seq<HistoryEntry>, records: Seq<RecordView>) -> bool {
    &&& entries.len() == records.len()
    &&& forall|i: int|
        0 <= i < entries.len() ==> (#[trigger] entries[i]).record@ == records[i]
            && entries[i].superseded == records[i].data.flag_member("_superseded"@)
}

impl Axil {
    /// The facts about an entity, from the oldest on.
    pub fn entity_history(records: &Vec<Record>) -> (r: Vec<HistoryEntry>)
        ensures
            exists|e: Seq<HistoryEntry>| #[trigger]
                history_of(e, records_view(records@)) && r@ == ranked(e),
    {
        let mut out: Vec<HistoryEntry> = Vec::new();
        let mut i: usize = 0;
        let ghost all = records_view(records@);
        while i < records.len()
            invariant
                i <= records@.len(),
                all == records_view(records@),
                out@.len() == i,
                forall|j: int|
                    0 <= j < i ==> (#[trigger] out@[j]).record@ == all[j] && out@[j].superseded
                        == all[j].data.flag_member("_superseded"@),
            decreases records@.len() - i,
        {
            out.push(
                HistoryEntry {
                    record: records[i].copy(),
                    superseded: records[i].data.flag("_superseded"),
                },
            );
            i += 1;
        }
        assert(history_of(out@, all));
        sort_ranked(out)
    }
}

/// A fact with the day that it is from, as text.
#[derive(Debug)]
pub struct DatedFact {
    pub text: String,
    pub day: String,
}

/// The facts as a numbered list, from the newest on.
pub open spec fn numbered(facts: Seq<DatedFact>) -> Seq<char>
    decreases facts.len(),
{
    if facts.len() == 0 {
        Seq::empty()
    } else {
        let line = decimal(facts.len()) + ". '"@ + facts.last().text@ + "' ("@ + facts.last().day@
            + ")"@;
        if facts.len() == 1 {
            line
        } else {
            numbered(facts.drop_last()) + "\n"@ + line
        }
    }
}

/// What a model is asked to put facts together with.
pub open spec fn consolidation_prompt(entity: Seq<char>, facts: Seq<DatedFact>) -> Seq<char> {
    "Consolidate these facts about '"@ + entity
        + "' into a single brief summary.\nFacts (newest first):\n"@ + numbered(facts)
        + "\n\nWrite a brief, factual summary noting what changed and when. Return ONLY the summary text, no other text."@
}

/// What is said of an entity without a model: the one fact there is, or the newest
/// with its day and the number of those before.
pub open spec fn plain_summary(entity: Seq<char>, facts: Seq<DatedFact>) -> Seq<char> {
    if facts.len() == 0 {
        "No known facts about '"@ + entity + "'."@
    } else if facts.len() == 1 {
        facts[0].text@
    } else {
        facts[0].text@ + " (latest: "@ + facts[0].day@ + ")"@ + ". "@ + decimal(
            (facts.len() - 1) as nat,
        ) + " prior fact"@ + (if facts.len() > 2 {
            "s"@
        } else {
            ""@
        }) + "."@
    }
}

/// What a model is asked to put facts together with: it is asked where there are two
/// facts at least.
pub fn consolidation_request(entity: &str, facts: &Vec<DatedFact>) -> (r: Option<String>)
    ensures
        match r {
            Some(p) => facts@.len() > 1 && p@ == consolidation_prompt(entity@, facts@),
            None => facts@.len() <= 1,
        },
{
    if facts.len() <= 1 {
        return None;
    }
    let mut list = String::new();
    let mut i: usize = 0;
    assert(list@ =~= numbered(facts@.take(0)));
    while i < facts.len()
        invariant
            i <= facts@.len(),
            list@ == numbered(facts@.take(i as int)),
        decreases facts@.len() - i,
    {
        proof {
            assert(facts@.take(i + 1).drop_last() =~= facts@.take(i as int));
            assert(facts@.take(i + 1).last() == facts@[i as int]);
        }
        let line = join6(
            count_text(i + 1).as_str(),
            ". '",
            facts[i].text.as_str(),
            "' (",
            facts[i].day.as_str(),
            ")",
        );
        if i == 0 {
            list = line;
        } else {
            list.append("\n");
            list.append(line.as_str());
        }
        i += 1;
    }
    assert(facts@.take(i as int) =~= facts@);
    Some(
        join5(
            "Consolidate these facts about '",
            entity,
            "' into a single brief summary.\nFacts (newest first):\n",
            list.as_str(),
            "\n\nWrite a brief, factual summary noting what changed and when. Return ONLY the summary text, no other text.",
        ),
    )
}

impl Axil {
    /// What is said of an entity: what a model replied to the request, where that is
    /// more than white space, else what can be said without one.
    pub fn consolidate_entity_enhanced(
        entity: &str,
        facts: &Vec<DatedFact>,
        reply: Option<&str>,
    ) -> (r: String)
        ensures
            r@ == match reply {
                Some(t) => if facts@.len() > 1 && trimmed(t@).len() > 0 {
                    trimmed(t@)
                } else {
                    plain_summary(entity@, facts@)
                },
                None => plain_summary(entity@, facts@),
            },
    {
        if facts.len() == 0 {
            return join3("No known facts about '", entity, "'.");
        }
        if facts.len() > 1 {
            if let Some(t) = reply {
                let text = trim(t);
                if !is_blank(text.as_str()) {
                    return text;
                }
            }
        }
        if facts.len() == 1 {
            return facts[0].text.clone();
        }
        let plural = if facts.len() > 2 {
            "s"
        } else {
            ""
        };
        let mut s = join4(facts[0].text.as_str(), " (latest: ", facts[0].day.as_str(), ")");
        s.append(". ");
        s.append(count_text(facts.len() - 1).as_str());
        s.append(" prior fact");
        s.append(plural);
        s.append(".");
        s
    }
}

/// What warming up did.
#[derive(Clone, Copy, Debug, PartialEq, Eq, Structural)]
pub struct WarmUpReport {
    /// Whether the warm-up came to its end.
    pub warmed_up: bool,
    /// Whether the vector index was rebuilt.
    pub vector_rebuilt: bool,
}

impl Axil {
    /// Whether warming up rebuilds the vector index: where vectors were deleted.
    pub fn warm_up_rebuilds(&self, deleted: usize) -> (r: bool)
        ensures
            r == (self.vector_index && deleted > 0),
    {
        self.vector_index && deleted > 0
    }

    /// Reports on a warm-up.
    pub fn warm_up(rebuilt: bool) -> (r: WarmUpReport)
        ensures
            r == (WarmUpReport { warmed_up: true, vector_rebuilt: rebuilt }),
    {
        WarmUpReport { warmed_up: true, vector_rebuilt: rebuilt }
    }
}

/// A fact that supersedes another is told by the first edge that says so, and only where
/// there is none by the first that says that it contradicts one; without edges it is new.
pub proof fn superseding_comes_before_contradicting(
    supersedes: &Vec<EdgeInfo>,
    contradicts: &Vec<EdgeInfo>,
    r: ConflictResult,
)
    requires
        call_ensures(fact_conflict, (supersedes, contradicts), r),
    ensures
        supersedes@.len() > 0 ==> (r matches ConflictResult::Supersedes { old_record_id, .. }
            && old_record_id@ == supersedes@[0].to@),
        supersedes@.len() == 0 && contradicts@.len() > 0
            ==> (r matches ConflictResult::Contradicts { existing_record_id, .. }
            && existing_record_id@ == contradicts@[0].to@),
        supersedes@.len() == 0 && contradicts@.len() == 0 ==> r is Novel,
{
}

/// How alike two facts are is the number that the edge holds, and nothing where it holds
/// no number.
pub proof fn similarities_are_read_from_edges(
    supersedes: &Vec<EdgeInfo>,
    contradicts: &Vec<EdgeInfo>,
    r: ConflictResult,
    bits: u64,
)
    requires
        call_ensures(fact_conflict, (supersedes, contradicts), r),
        supersedes@.len() > 0,
    ensures
        r matches ConflictResult::Supersedes { similarity, .. } ==> {
            &&& supersedes@[0].properties.model().member("similarity"@) == Some(Json::Float(bits))
                ==> similarity == Some(Number::Float(bits))
            &&& supersedes@[0].properties.model().member("similarity"@) is None
                ==> similarity is None
            &&& supersedes@[0].properties.model().member("similarity"@) matches Some(Json::Text(_))
                ==> similarity is None
        },
{
}

/// Storing a consolidation replaces those of the entity, and no others, by a record that
/// says what was put together, how many facts it rests on and how late they are.
pub proof fn consolidations_are_replaced(
    name: &str,
    fact: &ConsolidatedFact,
    stored: &Vec<Record>,
    now: Timestamp,
    r: ConsolidationPlan,
    i: int,
)
    requires
        fact.latest_at.valid(),
        call_ensures(Axil::consolidate_entity, (name, fact, stored, now), r),
        0 <= i < stored@.len(),
        forall|a: int, b: int|
            0 <= a < b < stored@.len() ==> (#[trigger] stored@[a]).id@ != (
            #[trigger] stored@[b]).id@,
    ensures
        ids_view(r.stale@).contains(stored@[i].id@) <==> stored@[i].data.model().member("entity"@)
            == Some(Json::Text(name@)),
        r.record.table@ == "_consolidated"@,
        r.record.data.model().member("entity"@) == Some(Json::Text(fact.entity@)),
        r.record.data.model().member("summary"@) == Some(Json::Text(fact.summary@)),
        r.record.data.model().member("source_count"@) == Some(
            Json::PosInt(fact.source_ids@.len() as u64),
        ),
        r.record.data.model().member("latest_at"@) == Some(
            Json::Text(text_of_instant(fact.latest_at.secs, fact.latest_at.nanos)),
        ),
{
    let v = records_view(stored@);
    let f = |x: RecordView| id_of_row(x, "entity"@, name@);
    let id = stored@[i].id@;
    assert(v[i].id == id);
    crate::text::collected_values_come_from_items(v, f, id);
    if v[i].data.text_member("entity"@) == Some(name@) {
        assert(f(v[i]) == Some(id));
    }
    if ids_view(r.stale@).contains(id) {
        let j = choose|j: int| 0 <= j < v.len() && f(#[trigger] v[j]) == Some(id);
        assert(stored@[j].id@ == id);
        assert(j == i);
    }
    reveal_strlit("entity");
    reveal_strlit("summary");
    reveal_strlit("source_count");
    reveal_strlit("latest_at");
    assert("entity"@.len() == 6 && "summary"@.len() == 7 && "source_count"@.len() == 12
        && "latest_at"@.len() == 9);
    assert(r.record@.data == consolidated_json(*fact));
    assert(r.record@.table == "_consolidated"@);
}

/// The history of an entity has all its facts, from the oldest on, and says of each whether
/// another took its place.
pub proof fn histories_begin_with_the_oldest(records: &Vec<Record>, r: Vec<HistoryEntry>)
    requires
        call_ensures(Axil::entity_history, (records,), r),
    ensures
        r@.len() == records@.len(),
        forall|i: int, j: int|
            0 <= i < j < r@.len() ==> {
                let (a, b) = (
                    (#[trigger] r@[i]).record.created_at,
                    (#[trigger] r@[j]).record.created_at,
                );
                a.secs < b.secs || (a.secs == b.secs && a.nanos <= b.nanos)
            },
        forall|i: int|
            0 <= i < r@.len() ==> (#[trigger] r@[i]).superseded == (
            r@[i].record.data.model().member("_superseded"@) == Some(Json::Bool(true))),
        forall|k: int|
            0 <= k < records@.len() ==> exists|i: int|
                0 <= i < r@.len() && (#[trigger] r@[i]).record@ == (#[trigger] records@[k])@,
{
    let e = choose|e: Seq<HistoryEntry>| #[trigger]
        history_of(e, records_view(records@)) && r@ == ranked(e);
    crate::order::sorting_orders_the_items(e);
    assert forall|i: int, j: int| 0 <= i < j < r@.len() implies {
        let (a, b) = (
            (#[trigger] r@[i]).record.created_at,
            (#[trigger] r@[j]).record.created_at,
        );
        a.secs < b.secs || (a.secs == b.secs && a.nanos <= b.nanos)
    } by {
        assert(!r@[j].before(r@[i]));
    }
    assert forall|i: int| 0 <= i < r@.len() implies (#[trigger] r@[i]).superseded == (
    r@[i].record.data.model().member("_superseded"@) == Some(Json::Bool(true))) by {
        assert(r@.contains(r@[i]));
        crate::order::lemma_ranked_contains(e, r@[i]);
        let k = choose|k: int| 0 <= k < e.len() && e[k] == r@[i];
        assert(e[k].record@ == records_view(records@)[k]);
    }
    assert forall|k: int| 0 <= k < records@.len() implies exists|i: int|
        0 <= i < r@.len() && (#[trigger] r@[i]).record@ == (#[trigger] records@[k])@ by {
        assert(e[k].record@ == records_view(records@)[k]);
        assert(e.contains(e[k]));
        crate::order::lemma_ranked_contains(e, e[k]);
        let i = choose|i: int| 0 <= i < r@.len() && r@[i] == e[k];
        assert(r@[i].record@ == records@[k]@);
    }
}

/// What a model replied is taken where it says something and there was something to put
/// together; else the newest fact stands for all, with the number of those before it.
pub proof fn replies_are_taken_where_they_say_something(
    entity: &str,
    facts: &Vec<DatedFact>,
    reply: Option<&str>,
    r: String,
)
    requires
        call_ensures(Axil::consolidate_entity_enhanced, (entity, facts, reply), r),
    ensures
        reply matches Some(t) ==> (facts@.len() >= 2 && trimmed(t@).len() > 0 ==> r@ == trimmed(t@)),
        facts@.len() == 1 ==> r@ == facts@[0].text@,
        facts@.len() >= 2 && reply is None ==> facts@[0].text@.is_prefix_of(r@)
            && crate::text::contains_text(r@, facts@[0].day@) && crate::text::contains_text(
            r@,
            decimal((facts@.len() - 1) as nat),
        ),
        facts@.len() == 0 ==> crate::text::contains_text(r@, entity@),
{
    if facts@.len() >= 2 && reply is None {
        let a = facts@[0].text@;
        let d = facts@[0].day@;
        let n = decimal((facts@.len() - 1) as nat);
        let tail = " prior fact"@ + (if facts@.len() > 2 {
            "s"@
        } else {
            ""@
        }) + "."@;
        let before = a + " (latest: "@;
        let mid = ")"@ + ". "@;
        assert(r@ =~= before + d + (mid + n + tail));
        crate::text::parts_stand_somewhere(before, d, mid + n + tail);
        assert(r@ =~= (before + d + mid) + n + tail);
        crate::text::parts_stand_somewhere(before + d + mid, n, tail);
        assert(r@.take(a.len() as int) =~= a);
    }
    if facts@.len() == 0 {
        crate::text::parts_stand_somewhere("No known facts about '"@, entity@, "'."@);
    }
}

/// A model is asked where there are two facts at least, about the entity, with each of the
/// facts numbered from the first on.
pub proof fn models_are_asked_about_every_fact(
    entity: &str,
    facts: &Vec<DatedFact>,
    r: Option<String>,
    i: int,
)
    requires
        call_ensures(consolidation_request, (entity, facts), r),
        0 <= i < facts@.len(),
    ensures
        r is Some <==> facts@.len() >= 2,
        r matches Some(p) ==> crate::text::contains_text(p@, entity@) && crate::text::contains_text(
            p@,
            decimal((i + 1) as nat) + ". '"@ + facts@[i].text@ + "' ("@ + facts@[i].day@ + ")"@,
        ),
{
    if let Some(p) = r {
        let head = "Consolidate these facts about '"@;
        let mid = "' into a single brief summary.\nFacts (newest first):\n"@;
        let tail =
            "\n\nWrite a brief, factual summary noting what changed and when. Return ONLY the summary text, no other text."@;
        let n = numbered(facts@);
        assert(p@ =~= head + entity@ + (mid + n + tail));
        crate::text::parts_stand_somewhere(head, entity@, mid + n + tail);
        let line = decimal((i + 1) as nat) + ". '"@ + facts@[i].text@ + "' ("@ + facts@[i].day@
            + ")"@;
        lemma_numbered(facts@, i);
        let at = crate::text::held_texts_are_parts(n, line);
        let (x, y) = (n.take(at), n.skip(at + line.len()));
        assert(p@ =~= (head + entity@ + mid + x) + line + (y + tail));
        crate::text::parts_stand_somewhere(head + entity@ + mid + x, line, y + tail);
    }
}

/// Every fact has its line.
proof fn lemma_numbered(facts: Seq<DatedFact>, i: int)
    requires
        0 <= i < facts.len(),
    ensures
        crate::text::contains_text(
            numbered(facts),
            decimal((i + 1) as nat) + ". '"@ + facts[i].text@ + "' ("@ + facts[i].day@ + ")"@,
        ),
    decreases facts.len(),
{
    let d = facts.drop_last();
    let line = decimal((i + 1) as nat) + ". '"@ + facts[i].text@ + "' ("@ + facts[i].day@ + ")"@;
    let last = decimal(facts.len()) + ". '"@ + facts.last().text@ + "' ("@ + facts.last().day@
        + ")"@;
    if i < facts.len() - 1 {
        assert(d[i] == facts[i]);
        lemma_numbered(d, i);
        let at = crate::text::held_texts_are_parts(numbered(d), line);
        let (x, y) = (numbered(d).take(at), numbered(d).skip(at + line.len()));
        assert(numbered(facts) =~= x + line + (y + "\n"@ + last));
        crate::text::parts_stand_somewhere(x, line, y + "\n"@ + last);
    } else if facts.len() == 1 {
        assert(line =~= Seq::<char>::empty() + line + Seq::<char>::empty());
        crate::text::parts_stand_somewhere(Seq::empty(), line, Seq::empty());
    } else {
        assert(numbered(facts) =~= (numbered(d) + "\n"@) + line + Seq::<char>::empty());
        crate::text::parts_stand_somewhere(numbered(d) + "\n"@, line, Seq::empty());
    }
}

/// Warming up rebuilds the vector index where vectors were deleted, and says so.
pub proof fn warming_up_rebuilds_where_vectors_went(
    db: &Axil,
    deleted: usize,
    due: bool,
    rebuilt: bool,
    r: WarmUpReport,
)
    requires
        call_ensures(Axil::warm_up_rebuilds, (db, deleted), due),
        call_ensures(Axil::warm_up, (rebuilt,), r),
    ensures
        due <==> db.vector_index && deleted > 0,
        r.warmed_up && r.vector_rebuilt == rebuilt,
{
}

/// The row of an entity is the first with its name.
pub proof fn entities_are_found_by_name(rows: &Vec<Record>, name: &str, r: Option<RecordId>, i: int)
    requires
        call_ensures(Axil::find_entity, (rows, name), r),
        0 <= i < rows@.len(),
        rows@[i].data.model().member("name"@) == Some(Json::Text(name@)),
        forall|j: int|
            0 <= j < i ==> (#[trigger] rows@[j]).data.model().member("name"@) != Some(
                Json::Text(name@),
            ),
    ensures
        r matches Some(id) && id@ == rows@[i].id@,
{
    let v = records_view(rows@);
    assert forall|j: int| 0 <= j < v.len() implies #[trigger] v[j] == rows@[j]@ by {}
    lemma_named_first(v, name@, i);
}

/// Where the first row with a name stands.
proof fn lemma_named_first(rows: Seq<RecordView>, name: Seq<char>, i: int)
    requires
        0 <= i < rows.len(),
        rows[i].data.member("name"@) == Some(Json::Text(name)),
        forall|j: int|
            0 <= j < i ==> (#[trigger] rows[j]).data.member("name"@) != Some(Json::Text(name)),
    ensures
        first_row(rows, "name"@, name) == i,
    decreases rows.len(),
{
    if i > 0 {
        let d = rows.drop_first();
        assert(d[i - 1] == rows[i]);
        assert forall|j: int| 0 <= j < i - 1 implies (#[trigger] d[j]).data.member("name"@) != Some(
            Json::Text(name),
        ) by {
            assert(d[j] == rows[j + 1]);
        }
        assert(rows[0].data.member("name"@) != Some(Json::Text(name)));
        lemma_named_first(d, name, i - 1);
    }
}

} // verus!
