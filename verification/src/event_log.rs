//! The event log: which writes are worth telling other agents about, and how a
//! reader catches up.

pub mod kind;

use crate::json::{json_same, Json, Value};
use crate::record::{
    internal_table, is_internal_table, ulid_fresh, ulid_text, ulid_to_string, ulids_sort_as_numbers,
    Record, RecordView,
};
use crate::text::{same_text, text_less, trim, trimmed};
use vstd::prelude::*;

verus! {

/// One event of the log.
#[derive(Clone, Debug, PartialEq, Eq)]
pub struct SemanticEvent {
    /// The position in the log.
    pub cursor: String,
    /// What happened.
    pub kind: String,
    /// The write: `insert`, `update` or `delete`.
    pub op: String,
    /// The table of the record.
    pub table: String,
    /// The record.
    pub record_id: String,
    /// The agent that wrote, where the record tells.
    pub agent_id: Option<String>,
}

/// An event, in the model.
pub struct EventView {
    pub cursor: Seq<char>,
    pub kind: Seq<char>,
    pub op: Seq<char>,
    pub table: Seq<char>,
    pub record_id: Seq<char>,
    pub agent_id: Option<Seq<char>>,
}

/// An optional text, in the model.
pub open spec fn text_option(t: Option<String>) -> Option<Seq<char>> {
    match t {
        Some(s) => Some(s@),
        None => None,
    }
}

/// An optional borrowed text, in the model.
pub open spec fn str_option(t: Option<&str>) -> Option<Seq<char>> {
    match t {
        Some(s) => Some(s@),
        None => None,
    }
}

impl View for SemanticEvent {
    type V = EventView;

    open spec fn view(&self) -> EventView {
        EventView {
            cursor: self.cursor@,
            kind: self.kind@,
            op: self.op@,
            table: self.table@,
            record_id: self.record_id@,
            agent_id: text_option(self.agent_id),
        }
    }
}

/// One page of the log.
#[derive(Clone, Debug, PartialEq, Eq)]
#[non_exhaustive]
pub struct DeltaPage {
    /// The events that passed the filter, oldest first.
    pub events: Vec<SemanticEvent>,
    /// Where the next page starts: the position of the last entry that was looked
    /// at, whether it was handed out or not. `None` where nothing was looked at.
    pub next_cursor: Option<String>,
}

/// The table of the checkpoints.
pub const CHECKPOINT_TABLE: &'static str = "_checkpoint_records";

/// The table of the beliefs.
pub const BELIEFS_TABLE: &'static str = "_beliefs";

/// The table of the errors.
pub const ERRORS_TABLE: &'static str = "errors";

/// Whether a belief is in doubt.
pub open spec fn in_doubt(data: Json) -> bool {
    data.flag_member("doubted"@) || data.member("_doubt_reason"@) is Some
}

/// Whether the member `k` is a text with more than white space in it.
pub open spec fn filled_member(data: Json, k: Seq<char>) -> bool {
    match data.text_member(k) {
        Some(t) => trimmed(t).len() > 0,
        None => false,
    }
}

/// Whether the member `k` is the same in both values: missing in both, or equal.
pub open spec fn member_same(a: Json, b: Json, k: Seq<char>) -> bool {
    match (a.member(k), b.member(k)) {
        (Some(x), Some(y)) => json_same(x, y),
        (None, None) => true,
        _ => false,
    }
}

/// Whether a table is one that is looked at: one of the user's, or one of the two
/// internal ones that the log is meant for.
pub open spec fn watched_table(table: Seq<char>) -> bool {
    !internal_table(table) || table == BELIEFS_TABLE@ || table == CHECKPOINT_TABLE@
}

/// What kind of event the state of a written record is, if any.
pub open spec fn event_of(op: Seq<char>, record: RecordView) -> Option<Seq<char>> {
    let table = record.table;
    let data = record.data;
    if table == CHECKPOINT_TABLE@ && op == "insert"@ {
        Some(kind::CHECKPOINT_WRITTEN@)
    } else if table == BELIEFS_TABLE@ && (op == "update"@ || op == "insert"@) && in_doubt(data) {
        Some(kind::BELIEF_REVISED@)
    } else if watched_table(table) && data.flag_member("_superseded"@) {
        Some(kind::DECISION_SUPERSEDED@)
    } else if table == ERRORS_TABLE@ && filled_member(data, "fix"@) {
        Some(kind::ERROR_FIXED@)
    } else {
        None
    }
}

/// What kind of event the change from one state of a record to the next is, if any.
pub open spec fn event_of_change(
    op: Seq<char>,
    previous: RecordView,
    record: RecordView,
) -> Option<Seq<char>> {
    let table = record.table;
    let before = previous.data;
    let after = record.data;
    if table == BELIEFS_TABLE@ && (op == "update"@ || op == "insert"@) && in_doubt(after) && !(
    member_same(before, after, "doubted"@) && member_same(before, after, "_doubt_reason"@)
        && member_same(before, after, "confidence"@)) {
        Some(kind::BELIEF_REVISED@)
    } else if watched_table(table) && after.flag_member("_superseded"@) && !before.flag_member(
        "_superseded"@,
    ) {
        Some(kind::DECISION_SUPERSEDED@)
    } else if table == ERRORS_TABLE@ && filled_member(after, "fix"@) && !member_same(
        before,
        after,
        "fix"@,
    ) {
        Some(kind::ERROR_FIXED@)
    } else {
        None
    }
}

/// Whether the member `k` is a text with more than white space in it.
fn non_empty_str(data: &Value, k: &str) -> (r: bool)
    ensures
        r == filled_member(data.model(), k@),
{
    match data.get_str(k) {
        Some(t) => {
            let s = trim(t);
            crate::text::chars_of(s.as_str()).len() > 0
        },
        None => false,
    }
}

/// Whether the member `k` is the same in both values.
fn same_member(a: &Value, b: &Value, k: &str) -> (r: bool)
    ensures
        r == member_same(a.model(), b.model(), k@),
{
    match (a.get(k), b.get(k)) {
        (Some(x), Some(y)) => x.same(y),
        (None, None) => true,
        _ => false,
    }
}

/// Whether a table is one that is looked at.
fn is_watched(table: &str) -> (r: bool)
    ensures
        r == watched_table(table@),
{
    !is_internal_table(table) || same_text(table, BELIEFS_TABLE) || same_text(
        table,
        CHECKPOINT_TABLE,
    )
}

/// Whether a belief is in doubt.
fn is_in_doubt(data: &Value) -> (r: bool)
    ensures
        r == in_doubt(data.model()),
{
    data.flag("doubted") || data.get("_doubt_reason").is_some()
}

/// What kind of event a committed write is, by the state that it left: a
/// checkpoint written, a belief revised, a record superseded or an error fixed.
pub fn classify(op: &str, record: &Record) -> (r: Option<&'static str>)
    ensures
        str_option(r) == event_of(op@, record@),
{
    let table = record.table.as_str();
    let data = &record.data;
    if same_text(table, CHECKPOINT_TABLE) && same_text(op, "insert") {
        return Some(kind::CHECKPOINT_WRITTEN);
    }
    if same_text(table, BELIEFS_TABLE) && (same_text(op, "update") || same_text(op, "insert")) {
        if is_in_doubt(data) {
            return Some(kind::BELIEF_REVISED);
        }
    }
    if is_watched(table) && data.flag("_superseded") {
        return Some(kind::DECISION_SUPERSEDED);
    }
    if same_text(table, ERRORS_TABLE) && non_empty_str(data, "fix") {
        return Some(kind::ERROR_FIXED);
    }
    None
}

/// What kind of event a committed write is, by what it changed. Without a
/// previous state this is `classify`.
pub fn classify_transition(op: &str, previous: Option<&Record>, record: &Record) -> (r: Option<
    &'static str,
>)
    ensures
        str_option(r) == (match previous {
            Some(p) => event_of_change(op@, p@, record@),
            None => event_of(op@, record@),
        }),
{
    let previous = match previous {
        Some(p) => p,
        None => {
            return classify(op, record);
        },
    };
    let before = &previous.data;
    let after = &record.data;
    let table = record.table.as_str();
    if same_text(table, BELIEFS_TABLE) && (same_text(op, "update") || same_text(op, "insert"))
        && is_in_doubt(after) && !(same_member(before, after, "doubted") && same_member(
        before,
        after,
        "_doubt_reason",
    ) && same_member(before, after, "confidence")) {
        return Some(kind::BELIEF_REVISED);
    }
    if is_watched(table) && after.flag("_superseded") && !before.flag("_superseded") {
        return Some(kind::DECISION_SUPERSEDED);
    }
    if same_text(table, ERRORS_TABLE) && non_empty_str(after, "fix") && !same_member(
        before,
        after,
        "fix",
    ) {
        return Some(kind::ERROR_FIXED);
    }
    None
}

/// A JSON value is equal to itself.
pub proof fn lemma_json_same_reflexive(a: Json)
    ensures
        json_same(a, a),
    decreases a,
{
    match a {
        Json::Array(x) => {
            assert forall|i: int| 0 <= i < x.len() implies json_same(#[trigger] x[i], x[i]) by {
                lemma_json_same_reflexive(x[i]);
            }
        },
        Json::Object(x) => {
            assert forall|k: Seq<char>| #[trigger] x.dom().contains(k) implies json_same(
                x[k],
                x[k],
            ) by {
                lemma_json_same_reflexive(x[k]);
            }
        },
        _ => {},
    }
}

/// A write that leaves the members that events depend on as they were is no
/// event, whatever else it changes: the same state is logged once.
pub proof fn repeated_states_are_no_events(op: Seq<char>, previous: RecordView, record: RecordView)
    requires
        previous.data.member("doubted"@) == record.data.member("doubted"@),
        previous.data.member("_doubt_reason"@) == record.data.member("_doubt_reason"@),
        previous.data.member("confidence"@) == record.data.member("confidence"@),
        previous.data.member("_superseded"@) == record.data.member("_superseded"@),
        previous.data.member("fix"@) == record.data.member("fix"@),
    ensures
        event_of_change(op, previous, record) is None,
{
    assert forall|k: Seq<char>| previous.data.member(k) == record.data.member(k) implies
        #[trigger] member_same(previous.data, record.data, k) by {
        match record.data.member(k) {
            Some(x) => {
                lemma_json_same_reflexive(x);
            },
            None => {},
        }
    }
}

/// The agent that wrote a record, where it tells.
pub fn agent_id_of(record: &Record) -> (r: Option<String>)
    ensures
        text_option(r) == record@.data.text_member("_agent_id"@),
{
    match record.data.get_str("_agent_id") {
        Some(t) => Some(t.to_owned()),
        None => None,
    }
}

/// The event that a write is logged as, where it is one: what a log that is
/// switched on appends at the position `cursor`.
pub fn capture_semantic_event(op: &str, record: &Record, cursor: String) -> (r: Option<
    SemanticEvent,
>)
    ensures
        match (r, event_of(op@, record@)) {
            (Some(e), Some(k)) => e@ == (EventView {
                cursor: cursor@,
                kind: k,
                op: op@,
                table: record@.table,
                record_id: record@.id,
                agent_id: record@.data.text_member("_agent_id"@),
            }),
            (None, None) => true,
            _ => false,
        },
{
    match classify(op, record) {
        Some(k) => Some(
            SemanticEvent {
                cursor,
                kind: k.to_owned(),
                op: op.to_owned(),
                table: record.table.clone(),
                record_id: record.id.0.clone(),
                agent_id: agent_id_of(record),
            },
        ),
        None => None,
    }
}

// ── Positions ───────────────────────────────────────────────────────

/// The generator of ULIDs that only go up.
#[verifier::external_type_specification]
#[verifier::external_body]
pub struct ExGenerator(ulid::Generator);

/// The last ULID that a generator handed out, as a number.
pub uninterp spec fn last_generated(g: ulid::Generator) -> u128;

/// `ulid::Generator::new`: nothing was handed out yet.
#[verifier::external_body]
fn ulid_generator() -> (r: ulid::Generator)
    ensures
        last_generated(r) == 0,
{
    ulid::Generator::new()
}

/// How many numbers a millisecond has: the ULIDs of one millisecond differ in their
/// low 80 bits.
pub const NUMBERS_OF_A_MILLISECOND: u128 = 0x1_0000_0000_0000_0000_0000;

/// `ulid::Generator::generate`: a number above the one handed out before, which
/// the generator then remembers; or nothing and no change, which happens only where
/// the one handed out before was the last of its millisecond. Which number it is
/// depends on the clock and on chance.
#[verifier::external_body]
fn ulid_generate(g: &mut ulid::Generator) -> (r: Option<u128>)
    ensures
        match r {
            Some(n) => n > last_generated(*old(g)) && last_generated(*final(g)) == n,
            None => last_generated(*final(g)) == last_generated(*old(g)) && last_generated(*old(g))
                % NUMBERS_OF_A_MILLISECOND == NUMBERS_OF_A_MILLISECOND - 1,
        },
{
    match g.generate() {
        Ok(u) => Some(u.0),
        Err(_) => None,
    }
}

/// Hands out the positions of the log, each above the one before.
pub struct EventCursor {
    generator: ulid::Generator,
}

impl EventCursor {
    /// The number of the last position that was handed out.
    pub closed spec fn last(self) -> u128 {
        last_generated(self.generator)
    }

    /// A source of positions.
    pub fn new() -> (r: EventCursor)
        ensures
            r.last() == 0,
    {
        EventCursor { generator: ulid_generator() }
    }

    /// The next position. Its number is above that of every position before it,
    /// unless the one before was the last that its millisecond has: a fresh number is
    /// taken then that need not be above, and the source stays as it was.
    pub fn next(&mut self) -> (r: String)
        ensures
            old(self).last() <= final(self).last(),
            old(self).last() % NUMBERS_OF_A_MILLISECOND != NUMBERS_OF_A_MILLISECOND - 1 ==> old(
                self,
            ).last() < final(self).last(),
            old(self).last() < final(self).last() ==> r@ == ulid_text(final(self).last()) && forall|
                m: u128,
            |
                m <= old(self).last() ==> text_less(#[trigger] ulid_text(m), r@),
            exists|n: u128| r@ == #[trigger] ulid_text(n),
    {
        match ulid_generate(&mut self.generator) {
            Some(n) => {
                proof {
                    assert forall|m: u128| m <= old(self).last() implies text_less(
                        #[trigger] ulid_text(m),
                        ulid_text(n),
                    ) by {
                        ulids_sort_as_numbers(m, n);
                    }
                }
                ulid_to_string(n)
            },
            None => {
                let n = ulid_fresh();
                ulid_to_string(n)
            },
        }
    }
}

impl Default for EventCursor {
    fn default() -> (r: EventCursor)
        ensures
            r.last() == 0,
    {
        EventCursor::new()
    }
}

// ── Catching up ─────────────────────────────────────────────────────

/// How many entries are looked at for a page of `limit` events: four times as
/// many where the events of one agent are left out.
pub fn delta_scan_limit(limit: usize, excluding: bool) -> (r: usize)
    ensures
        r == (if !excluding {
            limit as int
        } else if 4 * limit > usize::MAX {
            usize::MAX as int
        } else {
            4 * limit
        }),
{
    if !excluding {
        limit
    } else if limit > usize::MAX / 4 {
        usize::MAX
    } else {
        4 * limit
    }
}

/// Whether an entry of the log passes: it could be read, and it is not of the
/// agent that is left out.
pub open spec fn passes(entry: Option<SemanticEvent>, exclude: Option<Seq<char>>) -> bool {
    match entry {
        Some(e) => exclude is None || text_option(e.agent_id) != exclude,
        None => false,
    }
}

/// The events among the entries that pass, in order.
pub open spec fn passing(
    entries: Seq<Option<SemanticEvent>>,
    exclude: Option<Seq<char>>,
) -> Seq<EventView>
    decreases entries.len(),
{
    if entries.len() == 0 {
        Seq::empty()
    } else {
        let before = passing(entries.drop_last(), exclude);
        if passes(entries.last(), exclude) {
            before.push(entries.last()->0@)
        } else {
            before
        }
    }
}

/// How many entries a page looks at: it stops behind the event that fills it.
pub open spec fn looked_at(
    entries: Seq<Option<SemanticEvent>>,
    exclude: Option<Seq<char>>,
    limit: int,
    from: nat,
) -> nat
    decreases entries.len() - from,
{
    if from >= entries.len() {
        entries.len()
    } else if passes(entries[from as int], exclude) && passing(
        entries.take(from as int + 1),
        exclude,
    ).len() >= limit {
        from + 1
    } else {
        looked_at(entries, exclude, limit, from + 1)
    }
}

/// The events as they are in the model.
pub open spec fn events_view(e: Seq<SemanticEvent>) -> Seq<EventView> {
    e.map_values(|x: SemanticEvent| x@)
}

/// A copy of an event.
fn copy_event(e: &SemanticEvent) -> (r: SemanticEvent)
    ensures
        r@ == e@,
{
    SemanticEvent {
        cursor: e.cursor.clone(),
        kind: e.kind.clone(),
        op: e.op.clone(),
        table: e.table.clone(),
        record_id: e.record_id.clone(),
        agent_id: match &e.agent_id {
            Some(a) => Some(a.clone()),
            None => None,
        },
    }
}

/// The events of a page: those among the entries read from the log that could be
/// read and are not of the agent that is left out, up to the limit. The page is
/// looked at after each event, so an entry that passes is handed out even where
/// the limit is 0.
pub fn recall_delta(
    entries: &Vec<Option<SemanticEvent>>,
    exclude_agent: Option<&str>,
    limit: usize,
) -> (r: Vec<SemanticEvent>)
    ensures
        events_view(r@) == passing(
            entries@.take(
                looked_at(entries@, str_option(exclude_agent), limit as int, 0) as int,
            ),
            str_option(exclude_agent),
        ),
{
    scan_delta(entries, exclude_agent, limit).0
}

/// The events of a page, and how many entries it looked at.
fn scan_delta(
    entries: &Vec<Option<SemanticEvent>>,
    exclude_agent: Option<&str>,
    limit: usize,
) -> (r: (Vec<SemanticEvent>, usize))
    ensures
        r.1 == looked_at(entries@, str_option(exclude_agent), limit as int, 0),
        r.1 <= entries@.len(),
        events_view(r.0@) == passing(entries@.take(r.1 as int), str_option(exclude_agent)),
{
    let ghost ex = str_option(exclude_agent);
    let mut out: Vec<SemanticEvent> = Vec::new();
    let mut i: usize = 0;
    assert(events_view(out@) =~= Seq::<EventView>::empty());
    while i < entries.len()
        invariant
            ex == str_option(exclude_agent),
            i <= entries@.len(),
            events_view(out@) == passing(entries@.take(i as int), ex),
            looked_at(entries@, ex, limit as int, 0) == looked_at(
                entries@,
                ex,
                limit as int,
                i as nat,
            ),
        decreases entries@.len() - i,
    {
        proof {
            assert(entries@.take(i + 1).drop_last() =~= entries@.take(i as int));
            assert(events_view(out@).len() == out@.len());
        }
        let keep = match &entries[i] {
            Some(e) => match exclude_agent {
                Some(x) => match &e.agent_id {
                    Some(a) => !same_text(a.as_str(), x),
                    None => true,
                },
                None => true,
            },
            None => false,
        };
        assert(keep == passes(entries@[i as int], ex));
        if keep {
            if let Some(e) = &entries[i] {
                let ghost before = events_view(out@);
                let c = copy_event(e);
                out.push(c);
                assert(events_view(out@) =~= before.push(e@));
            }
            assert(events_view(out@).len() == out@.len());
            if out.len() >= limit {
                return (out, i + 1);
            }
        }
        i += 1;
    }
    (out, i)
}

impl DeltaPage {
    /// The page of a reader: the events that pass, and the position of the last
    /// entry that was looked at. Each entry comes with its position.
    pub fn collect(
        positions: &Vec<String>,
        entries: &Vec<Option<SemanticEvent>>,
        exclude_agent: Option<&str>,
        limit: usize,
    ) -> (r: DeltaPage)
        requires
            positions@.len() == entries@.len(),
        ensures
            ({
                let n = looked_at(entries@, str_option(exclude_agent), limit as int, 0) as int;
                &&& events_view(r.events@) == passing(entries@.take(n), str_option(exclude_agent))
                &&& text_option(r.next_cursor) == (if n == 0 {
                    None
                } else {
                    Some(positions@[n - 1]@)
                })
            }),
    {
        let (events, n) = scan_delta(entries, exclude_agent, limit);
        let next_cursor = if n == 0 {
            None
        } else {
            Some(positions[n - 1].clone())
        };
        DeltaPage { events, next_cursor }
    }
}

/// No event of the agent that is left out is handed out.
pub proof fn excluded_agents_are_left_out(entries: Seq<Option<SemanticEvent>>, agent: Seq<char>)
    ensures
        forall|i: int|
            0 <= i < passing(entries, Some(agent)).len() ==> (#[trigger] passing(
                entries,
                Some(agent),
            )[i]).agent_id != Some(agent),
    decreases entries.len(),
{
    if entries.len() > 0 {
        excluded_agents_are_left_out(entries.drop_last(), agent);
    }
}

/// Going on from where a page stopped, nothing is seen twice and nothing is
/// passed over: what the page looked at and what is left make up the whole.
pub proof fn pages_join(
    entries: Seq<Option<SemanticEvent>>,
    exclude: Option<Seq<char>>,
    n: int,
)
    requires
        0 <= n <= entries.len(),
    ensures
        passing(entries.take(n), exclude) + passing(entries.skip(n), exclude) == passing(
            entries,
            exclude,
        ),
    decreases entries.len() - n,
{
    let a = passing(entries.take(n), exclude);
    if n == entries.len() {
        assert(entries.take(n) =~= entries);
        assert(a + Seq::<EventView>::empty() =~= a);
    } else {
        let whole = entries.drop_last();
        pages_join(whole, exclude, n);
        assert(whole.take(n) =~= entries.take(n));
        assert(whole.skip(n) =~= entries.skip(n).drop_last());
        let b = passing(entries.skip(n).drop_last(), exclude);
        if passes(entries.last(), exclude) {
            assert(a + b.push(entries.last()->0@) =~= (a + b).push(entries.last()->0@));
        }
    }
}

/// A checkpoint that is inserted is an event, and so are a belief that is in doubt, a record
/// that is superseded, and an error with a fix. A record of another internal table is none,
/// and neither is one that says nothing of the kind.
pub proof fn events_are_what_agents_wait_for(op: &str, record: &Record, r: Option<&'static str>)
    requires
        call_ensures(classify, (op, record), r),
    ensures
        ({
            let d = record.data.model();
            let t = record.table@;
            let doubted = d.member("doubted"@) == Some(Json::Bool(true)) || d.member(
                "_doubt_reason"@,
            ) is Some;
            let gone = d.member("_superseded"@) == Some(Json::Bool(true));
            &&& t == "_checkpoint_records"@ && op@ == "insert"@ ==> (r matches Some(k) && k@
                == "checkpoint-written"@)
            &&& t == "_beliefs"@ && (op@ == "insert"@ || op@ == "update"@) && doubted ==> (
            r matches Some(k) && k@ == "belief-revised"@)
            &&& !(t.len() > 0 && t[0] == '_') && gone ==> (r matches Some(k) && k@
                == "decision-superseded"@)
            &&& t == "_beliefs"@ && gone && !doubted ==> (r matches Some(k) && k@
                == "decision-superseded"@)
            &&& t == "errors"@ && !gone ==> (d.member("fix"@) matches Some(Json::Text(x)) ==> (
            r is Some <==> trimmed(x).len() > 0) && (r matches Some(k) ==> k@ == "error-fixed"@))
            &&& t != "errors"@ && t != "_checkpoint_records"@ && t != "_beliefs"@ && !gone
                ==> r is None
            &&& t.len() > 0 && t[0] == '_' && t != "_checkpoint_records"@ && t != "_beliefs"@
                ==> r is None
        }),
{
    reveal_strlit("_checkpoint_records");
    reveal_strlit("_beliefs");
    reveal_strlit("errors");
    assert("_checkpoint_records"@.len() == 19 && "_beliefs"@.len() == 8 && "errors"@.len() == 6);
    assert("_checkpoint_records"@[0] == '_' && "_beliefs"@[0] == '_' && "errors"@[0] == 'e');
}

/// A change is an event where it makes one: where a record becomes superseded, where an
/// error gets a fix that it did not have, and where a doubted belief gets another reason.
/// Without a previous state, the state itself counts.
pub proof fn changes_are_events_once(
    op: &str,
    previous: &Record,
    record: &Record,
    r: Option<&'static str>,
    s: Option<&'static str>,
    c: Option<&'static str>,
)
    requires
        call_ensures(classify_transition, (op, Some(previous), record), r),
        call_ensures(classify_transition, (op, None, record), s),
        call_ensures(classify, (op, record), c),
    ensures
        str_option(s) == str_option(c),
        ({
            let a = previous.data.model();
            let b = record.data.model();
            let t = record.table@;
            &&& !(t.len() > 0 && t[0] == '_') && b.member("_superseded"@) == Some(Json::Bool(true))
                && a.member("_superseded"@) != Some(Json::Bool(true)) ==> (r matches Some(k) && k@
                == "decision-superseded"@)
            &&& t != "_beliefs"@ && t != "errors"@ && a.member("_superseded"@) == b.member(
                "_superseded"@,
            ) ==> r is None
            &&& t == "errors"@ && a.member("fix"@) is None && b.member("_superseded"@) is None ==> (
            b.member("fix"@) matches Some(Json::Text(x)) ==> (trimmed(x).len() > 0 ==> (
            r matches Some(k) && k@ == "error-fixed"@)))
            &&& t == "errors"@ && b.member("fix"@) is None && b.member("_superseded"@) is None
                ==> r is None
            &&& t == "_beliefs"@ && op@ == "update"@ && a.member("_doubt_reason"@) is None
                && b.member("_doubt_reason"@) is Some ==> (r matches Some(k) && k@
                == "belief-revised"@)
        }),
{
    reveal_strlit("_checkpoint_records");
    reveal_strlit("_beliefs");
    reveal_strlit("errors");
    assert("_checkpoint_records"@.len() == 19 && "_beliefs"@.len() == 8 && "errors"@.len() == 6);
    assert("_checkpoint_records"@[0] == '_' && "_beliefs"@[0] == '_' && "errors"@[0] == 'e');
}

/// An event is logged with what it is about: the write, the record, its table and the agent
/// that the record names, at the position that was handed out.
pub proof fn events_say_what_they_are_about(
    op: &str,
    record: &Record,
    cursor: String,
    r: Option<SemanticEvent>,
    c: Option<&'static str>,
)
    requires
        call_ensures(capture_semantic_event, (op, record, cursor), r),
        call_ensures(classify, (op, record), c),
    ensures
        r is Some <==> c is Some,
        r matches Some(e) ==> (c matches Some(k) && e.kind@ == k@) && e.cursor@ == cursor@ && e.op@
            == op@ && e.table@ == record.table@ && e.record_id@ == record.id@ && (
        record.data.model().member("_agent_id"@) matches Some(Json::Text(a)) ==> (
        e.agent_id matches Some(x) && x@ == a)) && (record.data.model().member("_agent_id"@) is None
            ==> e.agent_id is None),
{
}

/// A page that is not full has looked at everything; a full one stopped at its last event.
proof fn lemma_looked_at(
    entries: Seq<Option<SemanticEvent>>,
    exclude: Option<Seq<char>>,
    limit: int,
    from: nat,
)
    requires
        from <= entries.len(),
        limit >= 1,
        passing(entries.take(from as int), exclude).len() < limit,
    ensures
        ({
            let n = looked_at(entries, exclude, limit, from) as int;
            &&& from <= n <= entries.len()
            &&& passing(entries.take(n), exclude).len() <= limit
            &&& n < entries.len() ==> passing(entries.take(n), exclude).len() == limit
        }),
    decreases entries.len() - from,
{
    if from < entries.len() {
        let t = entries.take(from as int + 1);
        assert(t.drop_last() =~= entries.take(from as int));
        assert(t.last() == entries[from as int]);
        if !(passes(entries[from as int], exclude) && passing(t, exclude).len() >= limit) {
            lemma_looked_at(entries, exclude, limit, from + 1);
        }
    } else {
        assert(entries.take(from as int) =~= entries);
    }
}

/// A page holds as many events as are asked for, at most, each of them one that could be
/// read and is not of the agent that is left out. Where it holds fewer, the log has no
/// more, and the reader goes on behind its last entry.
pub proof fn pages_hold_as_many_as_asked(
    positions: &Vec<String>,
    entries: &Vec<Option<SemanticEvent>>,
    exclude: Option<&str>,
    limit: usize,
    r: DeltaPage,
    d: Vec<SemanticEvent>,
)
    requires
        positions@.len() == entries@.len(),
        limit >= 1,
        call_ensures(DeltaPage::collect, (positions, entries, exclude, limit), r),
        call_ensures(recall_delta, (entries, exclude, limit), d),
    ensures
        r.events@.len() <= limit,
        events_view(d@) == events_view(r.events@),
        r.events@.len() < limit && entries@.len() > 0 ==> (r.next_cursor matches Some(c) && c@
            == positions@.last()@),
        entries@.len() == 0 ==> r.next_cursor is None && r.events@.len() == 0,
        r.events@.len() < limit && exclude is None && (forall|i: int|
            0 <= i < entries@.len() ==> (#[trigger] entries@[i]) is Some) ==> r.events@.len()
            == entries@.len(),
{
    let x = str_option(exclude);
    assert(entries@.take(0) =~= Seq::empty());
    lemma_looked_at(entries@, x, limit as int, 0);
    let n = looked_at(entries@, x, limit as int, 0) as int;
    assert(events_view(r.events@).len() == r.events@.len());
    if n == entries@.len() {
        assert(entries@.take(n) =~= entries@);
        if exclude is None && (forall|i: int|
            0 <= i < entries@.len() ==> (#[trigger] entries@[i]) is Some) {
            lemma_all_readable(entries@);
        }
    }
}

/// Where every entry could be read and no agent is left out, every one passes.
proof fn lemma_all_readable(entries: Seq<Option<SemanticEvent>>)
    requires
        forall|i: int| 0 <= i < entries.len() ==> (#[trigger] entries[i]) is Some,
    ensures
        passing(entries, None).len() == entries.len(),
    decreases entries.len(),
{
    if entries.len() > 0 {
        let d = entries.drop_last();
        assert forall|i: int| 0 <= i < d.len() implies (#[trigger] d[i]) is Some by {
            assert(d[i] == entries[i]);
        }
        assert(entries.last() == entries[entries.len() - 1]);
        lemma_all_readable(d);
    }
}

/// Four times as many entries are looked at where an agent is left out, as far as that can
/// be represented.
pub proof fn leaving_out_an_agent_takes_more_entries(limit: usize, r: usize, s: usize)
    requires
        call_ensures(delta_scan_limit, (limit, false), r),
        call_ensures(delta_scan_limit, (limit, true), s),
    ensures
        r == limit,
        s >= r,
        s == 4 * r || s == usize::MAX,
{
}

} // verus!
