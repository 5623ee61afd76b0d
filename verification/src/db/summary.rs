//! Daily and weekly summaries that take the place of old records.

use super::rows::records_view;
use super::Axil;
use crate::json::{Json, Value};
use crate::order::{
    lemma_rank_position, lemma_ranked_contains, rank_position, ranked, sort_ranked,
    sorting_orders_the_items, Ranked,
};
use crate::record::{ids_view, Record, RecordId, RecordView};
use crate::text::{
    collected, lemma_push_contains, lemma_text_order, same_text, text_before, text_less,
};
use crate::time::{
    day_of_text, day_text, floor_div, monday_of, parse_day, text_of_day, Timestamp, DAY_SECS,
    DAY_US, EPOCH_DAY, FIRST_DAY, LAST_DAY,
};
use vstd::prelude::*;

verus! {

/// Something that goes into a summary: a record, its table, its day or week, and
/// what it counts for.
#[derive(Debug)]
pub struct SummaryItem {
    pub id: RecordId,
    pub table: String,
    pub period: String,
    pub weight: u64,
}

impl SummaryItem {
    /// The table and the day or week.
    pub open spec fn key(self) -> (Seq<char>, Seq<char>) {
        (self.table@, self.period@)
    }

    /// The id, where the item belongs to the key.
    pub open spec fn id_under(self, key: (Seq<char>, Seq<char>)) -> Option<Seq<char>> {
        if self.key() == key {
            Some(self.id@)
        } else {
            None
        }
    }
}

/// The keys of items, each once, in the order of their first items.
pub open spec fn group_keys(items: Seq<SummaryItem>) -> Seq<(Seq<char>, Seq<char>)>
    decreases items.len(),
{
    if items.len() == 0 {
        Seq::empty()
    } else {
        let keys = group_keys(items.drop_last());
        if keys.contains(items.last().key()) {
            keys
        } else {
            keys.push(items.last().key())
        }
    }
}

/// The ids of the items under a key.
pub open spec fn group_ids(items: Seq<SummaryItem>, key: (Seq<char>, Seq<char>)) -> Seq<Seq<char>> {
    collected(items, |i: SummaryItem| i.id_under(key))
}

/// What the items under a key count for together.
pub open spec fn group_total(items: Seq<SummaryItem>, key: (Seq<char>, Seq<char>)) -> nat
    decreases items.len(),
{
    if items.len() == 0 {
        0
    } else {
        group_total(items.drop_last(), key) + if items.last().key() == key {
            items.last().weight as nat
        } else {
            0
        }
    }
}

/// Whether what the items under each key count for can be represented.
pub open spec fn summable(items: Seq<SummaryItem>) -> bool {
    forall|k: (Seq<char>, Seq<char>)| #[trigger] group_total(items, k) <= u64::MAX
}

/// The items of one table and one day or week.
#[derive(Debug)]
pub struct SummaryGroup {
    pub table: String,
    pub period: String,
    pub total: u64,
    pub ids: Vec<RecordId>,
}

impl SummaryGroup {
    /// The table and the day or week.
    pub open spec fn key(self) -> (Seq<char>, Seq<char>) {
        (self.table@, self.period@)
    }

    /// Whether the group holds what the items under its key say.
    pub open spec fn describes(self, items: Seq<SummaryItem>) -> bool {
        &&& self.total == group_total(items, self.key())
        &&& ids_view(self.ids@) == group_ids(items, self.key())
    }
}

impl Ranked for SummaryGroup {
    open spec fn before(self, other: SummaryGroup) -> bool {
        text_less(self.table@, other.table@) || (self.table@ == other.table@ && text_less(
            self.period@,
            other.period@,
        ))
    }

    proof fn lemma_ranked(a: SummaryGroup, b: SummaryGroup, c: SummaryGroup) {
        lemma_text_order(a.table@, b.table@, c.table@);
        lemma_text_order(b.table@, c.table@, a.table@);
        lemma_text_order(a.table@, c.table@, b.table@);
        lemma_text_order(c.table@, b.table@, a.table@);
        lemma_text_order(b.table@, a.table@, c.table@);
        lemma_text_order(a.period@, b.period@, c.period@);
        lemma_text_order(b.period@, c.period@, a.period@);
        lemma_text_order(a.period@, c.period@, b.period@);
        lemma_text_order(c.period@, b.period@, a.period@);
        lemma_text_order(b.period@, a.period@, c.period@);
    }

    fn comes_before(&self, other: &SummaryGroup) -> (r: bool) {
        text_before(self.table.as_str(), other.table.as_str()) || (same_text(
            self.table.as_str(),
            other.table.as_str(),
        ) && text_before(self.period.as_str(), other.period.as_str()))
    }
}

/// Whether groups are those of the items, in the order of their first items.
pub open spec fn grouped(groups: Seq<SummaryGroup>, items: Seq<SummaryItem>) -> bool {
    let keys = group_keys(items);
    &&& groups.len() == keys.len()
    &&& forall|i: int|
        0 <= i < keys.len() ==> (#[trigger] groups[i]).key() == keys[i] && groups[i].describes(items)
}

/// The first items count for no more than all of them do.
proof fn lemma_group_total(items: Seq<SummaryItem>, key: (Seq<char>, Seq<char>), i: int)
    requires
        0 <= i <= items.len(),
    ensures
        group_total(items.take(i), key) <= group_total(items, key),
    decreases items.len(),
{
    if i == items.len() {
        assert(items.take(i) =~= items);
    } else {
        lemma_group_total(items.drop_last(), key, i);
        assert(items.drop_last().take(i) =~= items.take(i));
    }
}

/// No key comes twice.
proof fn lemma_group_keys(items: Seq<SummaryItem>)
    ensures
        group_keys(items).no_duplicates(),
        forall|k: (Seq<char>, Seq<char>)|
            !group_keys(items).contains(k) ==> #[trigger] group_total(items, k) == 0 && group_ids(
                items,
                k,
            ).len() == 0,
    decreases items.len(),
{
    if items.len() > 0 {
        let d = items.drop_last();
        lemma_group_keys(d);
        let keys = group_keys(d);
        let x = items.last();
        assert forall|k: (Seq<char>, Seq<char>)|
            !group_keys(items).contains(k) implies #[trigger] group_total(items, k) == 0
            && group_ids(items, k).len() == 0 by {
            lemma_push_contains(keys, x.key(), k);
            assert(group_total(d, k) == 0);
        }
        if !keys.contains(x.key()) {
            let p = keys.push(x.key());
            assert forall|i: int, j: int| 0 <= i < p.len() && 0 <= j < p.len() && i != j implies p[i]
                != p[j] by {
                if i < keys.len() && j < keys.len() {
                    assert(keys[i] != keys[j]);
                } else if i < keys.len() {
                    assert(keys.contains(keys[i]));
                } else {
                    assert(keys.contains(keys[j]));
                }
            }
        }
    }
}

/// Takes an item into its group.
fn take_item(groups: &mut Vec<SummaryGroup>, item: &SummaryItem, Ghost(items): Ghost<Seq<SummaryItem>>)
    requires
        grouped(old(groups)@, items),
        group_total(items.push(*item), item.key()) <= u64::MAX,
    ensures
        grouped(final(groups)@, items.push(*item)),
{
    let ghost next = items.push(*item);
    let ghost before = groups@;
    proof {
        assert(next.drop_last() =~= items);
        lemma_group_keys(items);
    }
    let mut at: usize = 0;
    while at < groups.len() && !(same_text(groups[at].table.as_str(), item.table.as_str())
        && same_text(groups[at].period.as_str(), item.period.as_str()))
        invariant
            at <= groups@.len(),
            groups@ == before,
            forall|i: int| 0 <= i < at ==> (#[trigger] groups@[i]).key() != item.key(),
        decreases groups@.len() - at,
    {
        at += 1;
    }
    if at < groups.len() {
        proof {
            assert(group_keys(items)[at as int] == item.key());
            assert(group_keys(items).contains(item.key()));
        }
        let g = &mut groups[at];
        g.total = g.total + item.weight;
        let ghost held = g.ids@;
        g.ids.push(item.id.copy());
        assert(ids_view(g.ids@) =~= ids_view(held).push(item.id@));
        proof {
            assert forall|i: int| 0 <= i < groups@.len() implies (#[trigger] groups@[i]).key()
                == group_keys(next)[i] && groups@[i].describes(next) by {
                assert(before[i].key() == group_keys(items)[i]);
                if i != at {
                    assert(group_keys(items)[i] != group_keys(items)[at as int]);
                    assert(groups@[i] == before[i]);
                }
            }
        }
    } else {
        let mut ids: Vec<RecordId> = Vec::new();
        ids.push(item.id.copy());
        groups.push(
            SummaryGroup {
                table: item.table.clone(),
                period: item.period.clone(),
                total: item.weight,
                ids,
            },
        );
        proof {
            let keys = group_keys(items);
            if keys.contains(item.key()) {
                let i = choose|i: int| 0 <= i < keys.len() && keys[i] == item.key();
                assert(before[i].key() == item.key());
            }
            let n = before.len() as int;
            assert(group_total(items, item.key()) == 0);
            assert(ids_view(ids@) =~= group_ids(items, item.key()).push(item.id@));
            assert forall|i: int| 0 <= i <= n implies (#[trigger] groups@[i]).key() == group_keys(
                next,
            )[i] && groups@[i].describes(next) by {
                if i < n {
                    assert(groups@[i] == before[i]);
                    assert(before[i].key() == keys[i]);
                    assert(keys.contains(keys[i]));
                }
            }
        }
    }
}

/// Groups items by table and day or week, in the order of their first items.
pub fn gather_groups(items: &Vec<SummaryItem>) -> (r: Vec<SummaryGroup>)
    requires
        summable(items@),
    ensures
        grouped(r@, items@),
{
    let mut groups: Vec<SummaryGroup> = Vec::new();
    let mut i: usize = 0;
    while i < items.len()
        invariant
            i <= items@.len(),
            summable(items@),
            grouped(groups@, items@.take(i as int)),
        decreases items@.len() - i,
    {
        proof {
            lemma_group_total(items@, items@[i as int].key(), i + 1);
            assert(items@.take(i + 1) =~= items@.take(i as int).push(items@[i as int]));
        }
        take_item(&mut groups, &items[i], Ghost(items@.take(i as int)));
        i += 1;
    }
    assert(items@.take(i as int) =~= items@);
    groups
}

/// A summary that is stored.
#[derive(Debug)]
pub struct StoredSummary {
    pub id: RecordId,
    pub table: String,
    pub period: String,
    pub count: u64,
}

impl StoredSummary {
    /// The table and the day or week.
    pub open spec fn key(self) -> (Seq<char>, Seq<char>) {
        (self.table@, self.period@)
    }
}

/// The place of the stored summary that counts for a key, which is the last one
/// with it, or -1.
pub open spec fn stored_at(stored: Seq<StoredSummary>, key: (Seq<char>, Seq<char>)) -> int
    decreases stored.len(),
{
    if stored.len() == 0 {
        -1
    } else if stored.last().key() == key {
        stored.len() - 1
    } else {
        stored_at(stored.drop_last(), key)
    }
}

/// What becomes of the summary of a group.
#[derive(Debug)]
pub enum SummaryStep {
    /// It is made.
    Create,
    /// It gets another count.
    Update { id: RecordId, count: u64 },
    /// It stays as it is.
    Keep,
}

/// The count that a summary gets. Where records are purged, those that it counts
/// are gone, so the group adds to it; else the group holds them all.
pub open spec fn new_count(old: u64, total: u64, purge: bool) -> int {
    if purge {
        old + total
    } else {
        total as int
    }
}

/// Whether a step is the one for a group.
pub open spec fn steps(
    step: SummaryStep,
    group: SummaryGroup,
    stored: Seq<StoredSummary>,
    purge: bool,
) -> bool {
    let at = stored_at(stored, group.key());
    if at < 0 {
        step is Create
    } else {
        let count = new_count(stored[at].count, group.total, purge);
        if count == stored[at].count {
            step is Keep
        } else {
            step matches SummaryStep::Update { id, count: c } && id@ == stored[at].id@ && c == count
        }
    }
}

/// Where the stored summary is found.
proof fn lemma_stored_at(stored: Seq<StoredSummary>, key: (Seq<char>, Seq<char>), i: int)
    requires
        0 <= i <= stored.len(),
        forall|j: int| i <= j < stored.len() ==> (#[trigger] stored[j]).key() != key,
    ensures
        stored_at(stored, key) == stored_at(stored.take(i), key),
    decreases stored.len() - i,
{
    if i < stored.len() {
        assert forall|j: int| i <= j < stored.drop_last().len() implies (
        #[trigger] stored.drop_last()[j]).key() != key by {
            assert(stored.drop_last()[j] == stored[j]);
        }
        lemma_stored_at(stored.drop_last(), key, i);
        assert(stored.drop_last().take(i) =~= stored.take(i));
    } else {
        assert(stored.take(i) =~= stored);
    }
}

/// Whether the counts that stored summaries get can be represented.
pub open spec fn countable(
    stored: Seq<StoredSummary>,
    items: Seq<SummaryItem>,
    purge: bool,
) -> bool {
    purge ==> forall|i: int|
        0 <= i < stored.len() ==> (#[trigger] stored[i]).count + group_total(items, stored[i].key())
            <= u64::MAX
}

/// Decides what becomes of the summary of a group.
fn decide(group: &SummaryGroup, stored: &Vec<StoredSummary>, purge: bool) -> (r: SummaryStep)
    requires
        purge ==> forall|i: int|
            0 <= i < stored@.len() && (#[trigger] stored@[i]).key() == group.key()
                ==> stored@[i].count + group.total <= u64::MAX,
    ensures
        steps(r, *group, stored@, purge),
{
    let mut i: usize = stored.len();
    while i > 0
        invariant
            i <= stored@.len(),
            forall|j: int| i <= j < stored@.len() ==> (#[trigger] stored@[j]).key() != group.key(),
            purge ==> forall|j: int|
                0 <= j < stored@.len() && (#[trigger] stored@[j]).key() == group.key()
                    ==> stored@[j].count + group.total <= u64::MAX,
        decreases i,
    {
        let s = &stored[i - 1];
        if same_text(s.table.as_str(), group.table.as_str()) && same_text(
            s.period.as_str(),
            group.period.as_str(),
        ) {
            proof {
                lemma_stored_at(stored@, group.key(), i as int);
                assert(stored@.take(i as int).last() == stored@[i - 1]);
            }
            let count: u64 = if purge {
                s.count + group.total
            } else {
                group.total
            };
            if count == s.count {
                return SummaryStep::Keep;
            }
            return SummaryStep::Update { id: s.id.copy(), count };
        }
        i -= 1;
    }
    proof {
        lemma_stored_at(stored@, group.key(), 0);
        assert(stored@.take(0).len() == 0);
    }
    SummaryStep::Create
}

/// What a summarising does: the groups, in the order of tables and days or weeks,
/// and a step for each.
#[derive(Debug)]
pub struct SummaryPlan {
    pub groups: Vec<SummaryGroup>,
    pub steps: Vec<SummaryStep>,
    /// The number of summaries that are made.
    pub created: usize,
}

/// How many steps make a summary.
pub open spec fn created_count(steps: Seq<SummaryStep>) -> nat
    decreases steps.len(),
{
    if steps.len() == 0 {
        0
    } else {
        created_count(steps.drop_last()) + if steps.last() is Create {
            1nat
        } else {
            0
        }
    }
}

impl SummaryPlan {
    /// Whether the plan is the one for the items, given what is stored.
    pub open spec fn sums_up(
        self,
        items: Seq<SummaryItem>,
        stored: Seq<StoredSummary>,
        purge: bool,
    ) -> bool {
        &&& exists|g: Seq<SummaryGroup>| #[trigger]
            grouped(g, items) && self.groups@ == ranked(g)
        &&& self.steps@.len() == self.groups@.len()
        &&& forall|i: int|
            0 <= i < self.groups@.len() ==> steps(
                #[trigger] self.steps@[i],
                self.groups@[i],
                stored,
                purge,
            )
        &&& self.created == created_count(self.steps@)
    }
}

/// Plans the summaries of items.
fn plan_summaries(items: &Vec<SummaryItem>, stored: &Vec<StoredSummary>, purge: bool) -> (r:
    SummaryPlan)
    requires
        summable(items@),
        countable(stored@, items@, purge),
    ensures
        r.sums_up(items@, stored@, purge),
{
    let gathered = gather_groups(items);
    let ghost g = gathered@;
    let groups = sort_ranked(gathered);
    let mut decided: Vec<SummaryStep> = Vec::new();
    let mut created: usize = 0;
    let mut i: usize = 0;
    while i < groups.len()
        invariant
            i <= groups@.len(),
            grouped(g, items@),
            groups@ == ranked(g),
            countable(stored@, items@, purge),
            decided@.len() == i,
            forall|j: int|
                0 <= j < i ==> steps(#[trigger] decided@[j], groups@[j], stored@, purge),
            created == created_count(decided@),
            created <= i,
        decreases groups@.len() - i,
    {
        proof {
            lemma_ranked_contains(g, groups@[i as int]);
            assert(groups@.contains(groups@[i as int]));
            let k = choose|k: int| 0 <= k < g.len() && g[k] == groups@[i as int];
            assert(g[k].describes(items@));
        }
        let ghost before = decided@;
        let step = decide(&groups[i], stored, purge);
        if let SummaryStep::Create = &step {
            created += 1;
        }
        decided.push(step);
        assert(decided@.drop_last() =~= before);
        i += 1;
    }
    SummaryPlan { groups, steps: decided, created }
}

/// An item of a summary, in the model.
#[verifier::ext_equal]
pub struct ItemView {
    pub id: Seq<char>,
    pub table: Seq<char>,
    pub period: Seq<char>,
    pub weight: u64,
}

impl View for SummaryItem {
    type V = ItemView;

    open spec fn view(&self) -> ItemView {
        ItemView {
            id: self.id@,
            table: self.table@,
            period: self.period@,
            weight: self.weight,
        }
    }
}

impl View for StoredSummary {
    type V = ItemView;

    open spec fn view(&self) -> ItemView {
        ItemView {
            id: self.id@,
            table: self.table@,
            period: self.period@,
            weight: self.count,
        }
    }
}

/// Items, in the model.
pub open spec fn items_view(items: Seq<SummaryItem>) -> Seq<ItemView> {
    items.map_values(|i: SummaryItem| i@)
}

/// Stored summaries, in the model.
pub open spec fn stored_view(stored: Seq<StoredSummary>) -> Seq<ItemView> {
    stored.map_values(|x: StoredSummary| x@)
}

/// What an old record counts for: one, on the day that it was made on. Summaries
/// themselves are not summed up.
pub open spec fn daily_item(r: RecordView) -> Option<ItemView> {
    if r.table == "_summaries"@ {
        None
    } else {
        Some(
            ItemView {
                id: r.id,
                table: r.table,
                period: text_of_day((r.created_at.day() + EPOCH_DAY) as i32),
                weight: 1,
            },
        )
    }
}

/// Whether the day that a record counts for can be read back from its text.
pub open spec fn day_is_readable(r: RecordView) -> bool {
    let day = (r.created_at.day() + EPOCH_DAY) as i32;
    day_of_text(text_of_day(day)) == Some(day)
}

/// The daily summary that a stored record is. A count that is missing is 0.
pub open spec fn stored_daily(r: RecordView) -> Option<ItemView> {
    stored_under(r, "date"@)
}

/// The weekly summary that a stored record is.
pub open spec fn stored_weekly(r: RecordView) -> Option<ItemView> {
    if r.data.text_member("type"@) == Some("weekly_summary"@) {
        stored_under(r, "week"@)
    } else {
        None
    }
}

/// The summary that a record is whose day or week stands under a key.
pub open spec fn stored_under(r: RecordView, key: Seq<char>) -> Option<ItemView> {
    match (r.data.text_member("table"@), r.data.text_member(key)) {
        (Some(t), Some(p)) => Some(
            ItemView { id: r.id, table: t, period: p, weight: count_of(r.data) },
        ),
        _ => None,
    }
}

/// The count of a summary.
pub open spec fn count_of(data: Json) -> u64 {
    match data.count_member("count"@) {
        Some(n) => n,
        None => 0,
    }
}

/// A daily summary with its day.
#[derive(Debug)]
pub struct DailySummary {
    pub id: RecordId,
    pub table: String,
    /// The day, counted with 0001-01-01 as day 1.
    pub day: i32,
    pub count: u64,
}

/// A daily summary, in the model.
#[verifier::ext_equal]
pub struct DailyView {
    pub id: Seq<char>,
    pub table: Seq<char>,
    pub day: i32,
    pub count: u64,
}

impl View for DailySummary {
    type V = DailyView;

    open spec fn view(&self) -> DailyView {
        DailyView { id: self.id@, table: self.table@, day: self.day, count: self.count }
    }
}

/// Daily summaries, in the model.
pub open spec fn dailies_view(d: Seq<DailySummary>) -> Seq<DailyView> {
    d.map_values(|x: DailySummary| x@)
}

/// The daily summary that a stored record is, where its day is at or before the
/// last one.
pub open spec fn old_daily(r: RecordView, last: int) -> Option<DailyView> {
    if r.data.text_member("type"@) == Some("daily_summary"@) {
        match (r.data.text_member("table"@), r.data.text_member("date"@)) {
            (Some(table), Some(date)) => match day_of_text(date) {
                Some(day) if day <= last => Some(
                    DailyView { id: r.id, table, day, count: count_of(r.data) },
                ),
                _ => None,
            },
            _ => None,
        }
    } else {
        None
    }
}

/// What a daily summary counts for: its count, in the week that starts with the
/// Monday on or before its day.
pub open spec fn weekly_item(d: DailyView) -> ItemView {
    ItemView {
        id: d.id,
        table: d.table,
        period: text_of_day(monday_of(d.day as int) as i32),
        weight: d.count,
    }
}

/// The count of a summary.
fn count_in(data: &Value) -> (r: u64)
    ensures
        r == count_of(data.model()),
{
    match data.get_u64("count") {
        Some(n) => n,
        None => 0,
    }
}

/// Whether the member `type` is the given text.
fn has_type(data: &Value, t: &str) -> (r: bool)
    ensures
        r == (data.model().text_member("type"@) == Some(t@)),
{
    match data.get_str("type") {
        Some(x) => same_text(x, t),
        None => false,
    }
}

impl Axil {
    /// The last instant whose records are summed up, in microseconds: `retain_days`
    /// before now, as far as that can be represented.
    pub fn retention_cutoff(now_us: i64, retain_days: u64) -> (r: i64)
        ensures
            ({
                let delta = if retain_days * DAY_US > i64::MAX {
                    i64::MAX as int
                } else {
                    retain_days * DAY_US
                };
                r == if now_us - delta < i64::MIN {
                    i64::MIN as int
                } else {
                    now_us - delta
                }
            }),
    {
        assert(DAY_US == 86_400_000_000);
        assert(retain_days * DAY_US == retain_days * 86_400_000_000) by (nonlinear_arith)
            requires
                DAY_US == 86_400_000_000,
        ;
        let delta: i64 = if retain_days > 106_751_991 {
            i64::MAX
        } else {
            let days = retain_days as i64;
            assert(days * DAY_US == days * 86_400_000_000) by (nonlinear_arith)
                requires
                    DAY_US == 86_400_000_000,
            ;
            days * DAY_US
        };
        if now_us < i64::MIN + delta {
            i64::MIN
        } else {
            now_us - delta
        }
    }

    /// The last day whose daily summaries go into weekly ones, counted with
    /// 0001-01-01 as day 1: as many days before today, a hundred years at most.
    pub fn weekly_cutoff(now: Timestamp, retention_days: u64) -> (r: i64)
        requires
            FIRST_DAY + 36_500 <= now.day() <= LAST_DAY,
        ensures
            r == now.day() + EPOCH_DAY - (if retention_days > 36_500 {
                36_500
            } else {
                retention_days as int
            }),
    {
        let days: i64 = if retention_days > 36_500 {
            36_500
        } else {
            retention_days as i64
        };
        floor_div(now.secs, DAY_SECS) + EPOCH_DAY - days
    }

    /// What old records count for. In the years 1 to 9999 the day that an item is under
    /// can be read back.
    pub fn daily_items(records: &Vec<Record>) -> (r: Vec<SummaryItem>)
        requires
            forall|i: int| 0 <= i < records@.len() ==> (#[trigger] records@[i]).created_at.valid(),
        ensures
            items_view(r@) == collected(
                records_view(records@),
                |x: RecordView| daily_item(x),
            ),
            forall|i: int|
                0 <= i < records@.len() && (#[trigger] records@[i]).created_at.common()
                    && records@[i].table@ != "_summaries"@ ==> day_is_readable(records@[i]@),
    {
        let mut out: Vec<SummaryItem> = Vec::new();
        let mut i: usize = 0;
        let ghost all = records_view(records@);
        let ghost f = |x: RecordView| daily_item(x);
        assert(items_view(out@) =~= collected(all.take(0), f));
        while i < records.len()
            invariant
                i <= records@.len(),
                forall|j: int|
                    0 <= j < records@.len() ==> (#[trigger] records@[j]).created_at.valid(),
                all == records_view(records@),
                f == |x: RecordView| daily_item(x),
                items_view(out@) == collected(all.take(i as int), f),
                forall|j: int|
                    0 <= j < i && (#[trigger] records@[j]).created_at.common()
                        && records@[j].table@ != "_summaries"@ ==> day_is_readable(records@[j]@),
            decreases records@.len() - i,
        {
            let r = &records[i];
            proof {
                assert(all.take(i + 1).drop_last() =~= all.take(i as int));
                assert(all.take(i + 1).last() == r@);
            }
            if !same_text(r.table.as_str(), "_summaries") {
                let day = floor_div(r.created_at.secs, DAY_SECS) + EPOCH_DAY;
                if let Some(period) = day_text(day as i32) {
                    let ghost before = out@;
                    out.push(
                        SummaryItem {
                            id: r.id.copy(),
                            table: r.table.clone(),
                            period,
                            weight: 1,
                        },
                    );
                    assert(items_view(out@) =~= items_view(before).push(daily_item(r@)->0));
                }
            }
            i += 1;
        }
        assert(all.take(i as int) =~= all);
        out
    }

    /// The daily summaries among stored records.
    pub fn stored_dailies(records: &Vec<Record>) -> (r: Vec<StoredSummary>)
        ensures
            stored_view(r@) == collected(
                records_view(records@),
                |x: RecordView| stored_daily(x),
            ),
    {
        let mut out: Vec<StoredSummary> = Vec::new();
        let mut i: usize = 0;
        let ghost all = records_view(records@);
        let ghost f = |x: RecordView| stored_daily(x);
        assert(stored_view(out@) =~= collected(all.take(0), f));
        while i < records.len()
            invariant
                i <= records@.len(),
                all == records_view(records@),
                f == |x: RecordView| stored_daily(x),
                stored_view(out@) == collected(all.take(i as int), f),
            decreases records@.len() - i,
        {
            let r = &records[i];
            proof {
                assert(all.take(i + 1).drop_last() =~= all.take(i as int));
                assert(all.take(i + 1).last() == r@);
            }
            if let (Some(t), Some(p)) = (r.data.get_str("table"), r.data.get_str("date")) {
                let ghost before = out@;
                out.push(
                    StoredSummary {
                        id: r.id.copy(),
                        table: t.to_owned(),
                        period: p.to_owned(),
                        count: count_in(&r.data),
                    },
                );
                assert(stored_view(out@) =~= stored_view(before).push(stored_daily(r@)->0));
            }
            i += 1;
        }
        assert(all.take(i as int) =~= all);
        out
    }

    /// The weekly summaries among stored records.
    pub fn stored_weeklies(records: &Vec<Record>) -> (r: Vec<StoredSummary>)
        ensures
            stored_view(r@) == collected(
                records_view(records@),
                |x: RecordView| stored_weekly(x),
            ),
    {
        let mut out: Vec<StoredSummary> = Vec::new();
        let mut i: usize = 0;
        let ghost all = records_view(records@);
        let ghost f = |x: RecordView| stored_weekly(x);
        assert(stored_view(out@) =~= collected(all.take(0), f));
        while i < records.len()
            invariant
                i <= records@.len(),
                all == records_view(records@),
                f == |x: RecordView| stored_weekly(x),
                stored_view(out@) == collected(all.take(i as int), f),
            decreases records@.len() - i,
        {
            let r = &records[i];
            proof {
                assert(all.take(i + 1).drop_last() =~= all.take(i as int));
                assert(all.take(i + 1).last() == r@);
            }
            if has_type(&r.data, "weekly_summary") {
                if let (Some(t), Some(p)) = (r.data.get_str("table"), r.data.get_str("week")) {
                    let ghost before = out@;
                    out.push(
                        StoredSummary {
                            id: r.id.copy(),
                            table: t.to_owned(),
                            period: p.to_owned(),
                            count: count_in(&r.data),
                        },
                    );
                    assert(stored_view(out@) =~= stored_view(before).push(stored_weekly(r@)->0));
                }
            }
            i += 1;
        }
        assert(all.take(i as int) =~= all);
        out
    }

    /// The daily summaries among stored records that are old enough for weekly ones.
    pub fn old_dailies(records: &Vec<Record>, last: i64) -> (r: Vec<DailySummary>)
        ensures
            dailies_view(r@) == collected(
                records_view(records@),
                |x: RecordView| old_daily(x, last as int),
            ),
    {
        let mut out: Vec<DailySummary> = Vec::new();
        let mut i: usize = 0;
        let ghost all = records_view(records@);
        let ghost f = |x: RecordView| old_daily(x, last as int);
        assert(dailies_view(out@) =~= collected(all.take(0), f));
        while i < records.len()
            invariant
                i <= records@.len(),
                all == records_view(records@),
                f == |x: RecordView| old_daily(x, last as int),
                dailies_view(out@) == collected(all.take(i as int), f),
            decreases records@.len() - i,
        {
            let r = &records[i];
            proof {
                assert(all.take(i + 1).drop_last() =~= all.take(i as int));
                assert(all.take(i + 1).last() == r@);
            }
            if has_type(&r.data, "daily_summary") {
                if let (Some(t), Some(date)) = (r.data.get_str("table"), r.data.get_str("date")) {
                    if let Some(day) = parse_day(date) {
                        if day as i64 <= last {
                            let ghost before = out@;
                            out.push(
                                DailySummary {
                                    id: r.id.copy(),
                                    table: t.to_owned(),
                                    day,
                                    count: count_in(&r.data),
                                },
                            );
                            assert(dailies_view(out@) =~= dailies_view(before).push(
                                old_daily(r@, last as int)->0,
                            ));
                        }
                    }
                }
            }
            i += 1;
        }
        assert(all.take(i as int) =~= all);
        out
    }

    /// What daily summaries count for, by weeks.
    pub fn weekly_items(dailies: &Vec<DailySummary>) -> (r: Vec<SummaryItem>)
        requires
            forall|i: int|
                0 <= i < dailies@.len() ==> FIRST_DAY + EPOCH_DAY <= monday_of(
                    (#[trigger] dailies@[i]).day as int,
                ) && dailies@[i].day <= LAST_DAY + EPOCH_DAY,
        ensures
            items_view(r@) == dailies_view(dailies@).map_values(|d: DailyView| weekly_item(d)),
    {
        let mut out: Vec<SummaryItem> = Vec::new();
        let mut i: usize = 0;
        let ghost f = |d: DailyView| weekly_item(d);
        let ghost all = dailies_view(dailies@).map_values(f);
        while i < dailies.len()
            invariant
                i <= dailies@.len(),
                forall|j: int|
                    0 <= j < dailies@.len() ==> FIRST_DAY + EPOCH_DAY <= monday_of(
                        (#[trigger] dailies@[j]).day as int,
                    ) && dailies@[j].day <= LAST_DAY + EPOCH_DAY,
                f == |d: DailyView| weekly_item(d),
                all == dailies_view(dailies@).map_values(f),
                items_view(out@) == all.take(i as int),
            decreases dailies@.len() - i,
        {
            let d = &dailies[i];
            let day = d.day as i64;
            let monday = day - crate::time::floor_mod(day - 1, 7);
            if let Some(period) = day_text(monday as i32) {
                let ghost before = out@;
                out.push(
                    SummaryItem {
                        id: d.id.copy(),
                        table: d.table.clone(),
                        period,
                        weight: d.count,
                    },
                );
                assert(items_view(out@) =~= items_view(before).push(weekly_item(d@)));
                assert(all.take(i + 1) =~= all.take(i as int).push(weekly_item(d@)));
            }
            i += 1;
        }
        assert(all.take(i as int) =~= all);
        out
    }

    /// Plans the daily summaries of old records.
    pub fn downsample(
        items: &Vec<SummaryItem>,
        stored: &Vec<StoredSummary>,
        purge: bool,
    ) -> (r: SummaryPlan)
        requires
            summable(items@),
            countable(stored@, items@, purge),
        ensures
            r.sums_up(items@, stored@, purge),
    {
        plan_summaries(items, stored, purge)
    }

    /// Plans the weekly summaries of old daily ones.
    pub fn downsample_weekly(
        items: &Vec<SummaryItem>,
        stored: &Vec<StoredSummary>,
        purge: bool,
    ) -> (r: SummaryPlan)
        requires
            summable(items@),
            countable(stored@, items@, purge),
        ensures
            r.sums_up(items@, stored@, purge),
    {
        plan_summaries(items, stored, purge)
    }
}

/// What a summary holds.
pub open spec fn summary_data(
    key: (Seq<char>, Seq<char>),
    period_key: Seq<char>,
    count: u64,
    kind: Seq<char>,
) -> Json {
    Json::Object(Map::empty()).with_member("table"@, Json::Text(key.0)).with_member(
        period_key,
        Json::Text(key.1),
    ).with_member("count"@, Json::PosInt(count)).with_member("type"@, Json::Text(kind))
}

impl SummaryGroup {
    /// What the daily summary of the group holds.
    pub fn daily_data(&self) -> (r: Value)
        ensures
            r.model() == summary_data(self.key(), "date"@, self.total, "daily_summary"@),
    {
        let mut data = Value::object();
        data.set("table", Value::text(self.table.as_str()));
        data.set("date", Value::text(self.period.as_str()));
        data.set("count", Value::count(self.total));
        data.set("type", Value::text("daily_summary"));
        data
    }

    /// What the weekly summary of the group holds.
    pub fn weekly_data(&self) -> (r: Value)
        ensures
            r.model() == summary_data(self.key(), "week"@, self.total, "weekly_summary"@),
    {
        let mut data = Value::object();
        data.set("table", Value::text(self.table.as_str()));
        data.set("week", Value::text(self.period.as_str()));
        data.set("count", Value::count(self.total));
        data.set("type", Value::text("weekly_summary"));
        data
    }
}

/// The data of a summary with another count.
pub fn recounted(data: &Value, count: u64) -> (r: Value)
    ensures
        r.model() == data.model().with_member("count"@, Json::PosInt(count)),
{
    let mut r = data.copy();
    r.set("count", Value::count(count));
    r
}

/// The sum of what groups count for.
pub open spec fn groups_sum(totals: Seq<nat>) -> nat
    decreases totals.len(),
{
    if totals.len() == 0 {
        0
    } else {
        groups_sum(totals.drop_last()) + totals.last()
    }
}

/// What all items count for together.
pub open spec fn weight_sum(items: Seq<SummaryItem>) -> nat
    decreases items.len(),
{
    if items.len() == 0 {
        0
    } else {
        weight_sum(items.drop_last()) + items.last().weight as nat
    }
}

/// A sum with one term raised.
proof fn lemma_groups_sum_update(totals: Seq<nat>, i: int, w: nat)
    requires
        0 <= i < totals.len(),
    ensures
        groups_sum(totals.update(i, totals[i] + w)) == groups_sum(totals) + w,
    decreases totals.len(),
{
    let u = totals.update(i, totals[i] + w);
    if i == totals.len() - 1 {
        assert(u.drop_last() =~= totals.drop_last());
    } else {
        lemma_groups_sum_update(totals.drop_last(), i, w);
        assert(u.drop_last() =~= totals.drop_last().update(i, totals.drop_last()[i] + w));
    }
}

/// Nothing is lost and nothing counted twice: the groups count for as much together
/// as the items do.
pub proof fn summaries_account_for_everything(items: Seq<SummaryItem>)
    ensures
        groups_sum(
            group_keys(items).map_values(
                |k: (Seq<char>, Seq<char>)| group_total(items, k),
            ),
        ) == weight_sum(items),
    decreases items.len(),
{
    let keys = group_keys(items);
    let totals = keys.map_values(|k: (Seq<char>, Seq<char>)| group_total(items, k));
    if items.len() > 0 {
        let d = items.drop_last();
        let x = items.last();
        summaries_account_for_everything(d);
        lemma_group_keys(d);
        let before = group_keys(d);
        let old_totals = before.map_values(|k: (Seq<char>, Seq<char>)| group_total(d, k));
        if before.contains(x.key()) {
            let i = choose|i: int| 0 <= i < before.len() && before[i] == x.key();
            lemma_groups_sum_update(old_totals, i, x.weight as nat);
            assert(totals =~= old_totals.update(i, old_totals[i] + x.weight as nat));
        } else {
            assert(group_total(d, x.key()) == 0);
            assert forall|i: int| 0 <= i < before.len() implies before[i] != x.key() by {
                assert(before.contains(before[i]));
            }
            assert(totals.drop_last() =~= old_totals);
            assert(totals.last() == x.weight as nat);
        }
    } else {
        assert(totals =~= Seq::<nat>::empty());
    }
}

/// Summarising again without purging changes nothing: a summary that holds the count
/// of its group stays as it is.
pub proof fn summarising_again_changes_nothing(
    group: SummaryGroup,
    stored: Seq<StoredSummary>,
    step: SummaryStep,
)
    requires
        stored_at(stored, group.key()) >= 0,
        stored[stored_at(stored, group.key())].count == group.total,
        steps(step, group, stored, false),
    ensures
        step is Keep,
{
}

/// With purging, the counts of two rounds add up: a summary that counts the first
/// group gets the count of both.
pub proof fn purged_rounds_add_up(
    first: SummaryGroup,
    second: SummaryGroup,
    stored: Seq<StoredSummary>,
    step: SummaryStep,
)
    requires
        first.key() == second.key(),
        stored_at(stored, first.key()) >= 0,
        stored[stored_at(stored, first.key())].count == first.total,
        second.total > 0,
        steps(step, second, stored, true),
    ensures
        step matches SummaryStep::Update { count, .. } && count == first.total + second.total,
{
}

/// A summary by its table and day or week, with its count.
pub type KeyCount = ((Seq<char>, Seq<char>), nat);

/// Stored summaries by their keys, with their counts.
pub open spec fn key_counts(stored: Seq<StoredSummary>) -> Seq<KeyCount> {
    stored.map_values(|x: StoredSummary| (x.key(), x.count as nat))
}

/// What summaries count together.
pub open spec fn counted(counts: Seq<KeyCount>) -> nat {
    groups_sum(counts.map_values(|c: KeyCount| c.1))
}

/// Whether no two summaries have one key.
pub open spec fn one_per_key(counts: Seq<KeyCount>) -> bool {
    forall|i: int, j: int|
        0 <= i < j < counts.len() ==> (#[trigger] counts[i]).0 != (#[trigger] counts[j]).0
}

/// The summaries after the steps for groups were taken.
pub open spec fn after_steps(
    stored: Seq<StoredSummary>,
    groups: Seq<SummaryGroup>,
    taken: Seq<SummaryStep>,
) -> Seq<KeyCount>
    decreases groups.len(),
{
    if groups.len() == 0 {
        key_counts(stored)
    } else {
        let before = after_steps(stored, groups.drop_last(), taken.drop_last());
        let group = groups.last();
        match taken.last() {
            SummaryStep::Create => before.push((group.key(), group.total as nat)),
            SummaryStep::Update { count, .. } => before.update(
                stored_at(stored, group.key()),
                (group.key(), count as nat),
            ),
            SummaryStep::Keep => before,
        }
    }
}

impl SummaryPlan {
    /// The summaries after the plan was carried out.
    pub open spec fn outcome(self, stored: Seq<StoredSummary>) -> Seq<KeyCount> {
        after_steps(stored, self.groups@, self.steps@)
    }

    /// How many records the plan purges, where it purges.
    pub open spec fn purged(self) -> nat {
        groups_sum(self.groups@.map_values(|g: SummaryGroup| g.ids@.len()))
    }
}

/// Purging loses no count: what the summaries count together grows by what the purged
/// items count for, and each item is purged. As many summaries are made as the plan
/// says, and none for a key that has one.
pub proof fn purging_keeps_the_counts(
    plan: SummaryPlan,
    items: Seq<SummaryItem>,
    stored: Seq<StoredSummary>,
)
    requires
        plan.sums_up(items, stored, true),
    ensures
        counted(plan.outcome(stored)) == counted(key_counts(stored)) + weight_sum(items),
        plan.outcome(stored).len() == stored.len() + plan.created,
        one_per_key(key_counts(stored)) ==> one_per_key(plan.outcome(stored)),
        plan.purged() == items.len(),
{
    let g = choose|g: Seq<SummaryGroup>| #[trigger]
        grouped(g, items) && plan.groups@ == ranked(g);
    let groups = plan.groups@;
    lemma_groups_differ(g, items);
    lemma_after_steps(stored, groups, plan.steps@);
    let total = |x: SummaryGroup| x.total as nat;
    let size = |x: SummaryGroup| x.ids@.len();
    lemma_ranked_sum(g, total);
    lemma_ranked_sum(g, size);
    summaries_account_for_everything(items);
    assert(g.map_values(total) =~= group_keys(items).map_values(
        |k: (Seq<char>, Seq<char>)| group_total(items, k),
    ));
    let ones = items.map_values(|x: SummaryItem| SummaryItem { weight: 1, ..x });
    summaries_account_for_everything(ones);
    lemma_ones(items);
    assert(g.map_values(size) =~= group_keys(ones).map_values(
        |k: (Seq<char>, Seq<char>)| group_total(ones, k),
    )) by {
        assert forall|i: int| 0 <= i < g.len() implies g[i].ids@.len() == group_total(
            ones,
            group_keys(items)[i],
        ) by {
            assert(g[i].describes(items));
            lemma_group_of_ones(items, g[i].key());
            assert(ids_view(g[i].ids@).len() == g[i].ids@.len());
        }
    }
}

/// Over purging rounds, what the summaries count together grows by the number of the
/// records that were purged, where each counts for one. What a round finds stored is
/// what the round before left.
pub proof fn purging_rounds_keep_the_counts(
    plans: Seq<SummaryPlan>,
    items: Seq<Seq<SummaryItem>>,
    stored: Seq<Seq<StoredSummary>>,
)
    requires
        plans.len() == items.len(),
        stored.len() == plans.len() + 1,
        forall|n: int|
            #![trigger plans[n]]
            0 <= n < plans.len() ==> {
                &&& plans[n].sums_up(items[n], stored[n], true)
                &&& key_counts(stored[n + 1]) == plans[n].outcome(stored[n])
                &&& forall|i: int|
                    0 <= i < items[n].len() ==> (#[trigger] items[n][i]).weight == 1
            },
    ensures
        counted(key_counts(stored.last())) == counted(key_counts(stored[0])) + groups_sum(
            plans.map_values(|x: SummaryPlan| x.purged()),
        ),
    decreases plans.len(),
{
    let purged = plans.map_values(|x: SummaryPlan| x.purged());
    if plans.len() > 0 {
        let n = plans.len() - 1;
        let before = plans.drop_last();
        assert forall|k: int| #![trigger before[k]] 0 <= k < before.len() implies {
            &&& before[k].sums_up(items.drop_last()[k], stored.drop_last()[k], true)
            &&& key_counts(stored.drop_last()[k + 1]) == before[k].outcome(stored.drop_last()[k])
            &&& forall|i: int|
                0 <= i < items.drop_last()[k].len() ==> (#[trigger] items.drop_last()[k][i]).weight
                    == 1
        } by {
            assert(before[k] == plans[k]);
            assert forall|i: int| 0 <= i < items.drop_last()[k].len() implies (
            #[trigger] items.drop_last()[k][i]).weight == 1 by {
                assert(items.drop_last()[k][i] == items[k][i]);
            }
        }
        purging_rounds_keep_the_counts(before, items.drop_last(), stored.drop_last());
        assert(purged.drop_last() =~= before.map_values(|x: SummaryPlan| x.purged()));
        assert(plans[n].sums_up(items[n], stored[n], true));
        assert(stored.drop_last().last() == stored[n]);
        purging_keeps_the_counts(plans[n], items[n], stored[n]);
        lemma_weight_of_ones(items[n]);
        assert(key_counts(stored[n + 1]) == plans[n].outcome(stored[n]));
    }
}

/// What is purged are records that were handed over, none of them a summary, each under
/// its own table.
pub proof fn purging_spares_the_others(
    plan: SummaryPlan,
    records: Seq<RecordView>,
    items: Seq<SummaryItem>,
    stored: Seq<StoredSummary>,
    purge: bool,
    i: int,
    j: int,
)
    requires
        items_view(items) == collected(records, |x: RecordView| daily_item(x)),
        plan.sums_up(items, stored, purge),
        0 <= i < plan.groups@.len(),
        0 <= j < plan.groups@[i].ids@.len(),
    ensures
        exists|k: int|
            {
                &&& 0 <= k < records.len()
                &&& (#[trigger] records[k]).id == plan.groups@[i].ids@[j]@
                &&& records[k].table == plan.groups@[i].table@
                &&& records[k].table != "_summaries"@
            },
{
    let g = choose|g: Seq<SummaryGroup>| #[trigger]
        grouped(g, items) && plan.groups@ == ranked(g);
    let group = plan.groups@[i];
    lemma_ranked_contains(g, group);
    assert(plan.groups@.contains(group));
    let m = choose|m: int| 0 <= m < g.len() && g[m] == group;
    assert(g[m].describes(items));
    assert(ids_view(group.ids@)[j] == group.ids@[j]@);
    let n = lemma_group_id(items, group.key(), j);
    let f = |x: RecordView| daily_item(x);
    assert(items_view(items)[n] == items[n]@);
    let k = lemma_collected_source(records, f, n);
    assert(f(records[k]) == Some(items[n]@));
}

/// Whether the plan sums up a record: its id is in the group of its table and its day.
pub open spec fn sums_up_record(plan: SummaryPlan, r: RecordView, i: int, j: int) -> bool {
    &&& 0 <= i < plan.groups@.len()
    &&& 0 <= j < plan.groups@[i].ids@.len()
    &&& plan.groups@[i].ids@[j]@ == r.id
    &&& plan.groups@[i].table@ == r.table
    &&& plan.groups@[i].period@ == text_of_day((r.created_at.day() + EPOCH_DAY) as i32)
}

/// Whether what a plan sums up at a place is one of the records, and no summary.
pub open spec fn sums_up_one_of(
    plan: SummaryPlan,
    records: Seq<RecordView>,
    i: int,
    j: int,
) -> bool {
    exists|k: int|
        0 <= k < records.len() && (#[trigger] records[k]).table != "_summaries"@ && sums_up_record(
            plan,
            records[k],
            i,
            j,
        )
}

/// What a purging run over old records does, all in all. Each record that is no summary
/// is in the group of its table and its day, and every id in a group is that of such a
/// record, so nothing else is purged. What the daily summaries count together grows by
/// the number of these records, all of which are purged. No table gets a second summary
/// for a day.
pub proof fn old_records_become_daily_counts(
    plan: SummaryPlan,
    records: Seq<RecordView>,
    items: Seq<SummaryItem>,
    stored: Seq<StoredSummary>,
)
    requires
        items_view(items) == collected(records, |x: RecordView| daily_item(x)),
        plan.sums_up(items, stored, true),
    ensures
        forall|k: int|
            0 <= k < records.len() && (#[trigger] records[k]).table != "_summaries"@
                ==> exists|i: int, j: int| #[trigger] sums_up_record(plan, records[k], i, j),
        forall|i: int, j: int|
            0 <= i < plan.groups@.len() && 0 <= j < plan.groups@[i].ids@.len()
                ==> #[trigger] sums_up_one_of(plan, records, i, j),
        plan.purged() == records.filter(|r: RecordView| r.table != "_summaries"@).len(),
        counted(plan.outcome(stored)) == counted(key_counts(stored)) + plan.purged(),
        plan.outcome(stored).len() == stored.len() + plan.created,
        one_per_key(key_counts(stored)) ==> one_per_key(plan.outcome(stored)),
{
    let f = |x: RecordView| daily_item(x);
    let g = choose|g: Seq<SummaryGroup>| #[trigger]
        grouped(g, items) && plan.groups@ == ranked(g);
    purging_keeps_the_counts(plan, items, stored);
    assert(items_view(items).len() == items.len());
    lemma_daily_count(records);
    assert forall|n: int| 0 <= n < items.len() implies (#[trigger] items[n]).weight == 1 by {
        assert(items_view(items)[n] == items[n]@);
        let k = lemma_collected_source(records, f, n);
        assert(f(records[k]) == Some(items[n]@));
    }
    lemma_weight_of_ones(items);
    assert forall|k: int|
        0 <= k < records.len() && (#[trigger] records[k]).table != "_summaries"@ implies exists|
        i: int,
        j: int,
    | #[trigger] sums_up_record(plan, records[k], i, j) by {
        let n = lemma_collected_place(records, f, k);
        assert(items_view(items)[n] == items[n]@);
        let (m, j) = lemma_group_place(items, n);
        assert(g[m].key() == group_keys(items)[m] && g[m].describes(items));
        assert(g.contains(g[m]));
        lemma_ranked_contains(g, g[m]);
        let i = choose|i: int| 0 <= i < plan.groups@.len() && plan.groups@[i] == g[m];
        assert(ids_view(g[m].ids@)[j] == g[m].ids@[j]@);
        assert(sums_up_record(plan, records[k], i, j));
    }
    assert forall|i: int, j: int|
        0 <= i < plan.groups@.len() && 0 <= j < plan.groups@[i].ids@.len() implies #[trigger]
        sums_up_one_of(plan, records, i, j) by {
        let group = plan.groups@[i];
        lemma_ranked_contains(g, group);
        assert(plan.groups@.contains(group));
        let m = choose|m: int| 0 <= m < g.len() && g[m] == group;
        assert(g[m].describes(items));
        assert(ids_view(group.ids@)[j] == group.ids@[j]@);
        let n = lemma_group_id(items, group.key(), j);
        assert(items_view(items)[n] == items[n]@);
        let k = lemma_collected_source(records, f, n);
        assert(f(records[k]) == Some(items[n]@));
        assert(sums_up_record(plan, records[k], i, j));
    }
}

/// Each record that is no summary gives an item.
proof fn lemma_daily_count(records: Seq<RecordView>)
    ensures
        collected(records, |x: RecordView| daily_item(x)).len() == records.filter(
            |r: RecordView| r.table != "_summaries"@,
        ).len(),
    decreases records.len(),
{
    reveal(Seq::filter);
    if records.len() > 0 {
        lemma_daily_count(records.drop_last());
    }
}

/// Where the value that is collected of a record comes to stand.
proof fn lemma_collected_place(
    records: Seq<RecordView>,
    f: spec_fn(RecordView) -> Option<ItemView>,
    k: int,
) -> (n: int)
    requires
        0 <= k < records.len(),
        f(records[k]) is Some,
    ensures
        0 <= n < collected(records, f).len(),
        f(records[k]) == Some(collected(records, f)[n]),
    decreases records.len(),
{
    let before = collected(records.drop_last(), f);
    if k < records.len() - 1 {
        let n = lemma_collected_place(records.drop_last(), f, k);
        assert(collected(records, f)[n] == before[n]);
        n
    } else {
        before.len() as int
    }
}

/// The group that an item is in, and where it stands there.
proof fn lemma_group_place(items: Seq<SummaryItem>, n: int) -> (r: (int, int))
    requires
        0 <= n < items.len(),
    ensures
        0 <= r.0 < group_keys(items).len(),
        group_keys(items)[r.0] == items[n].key(),
        0 <= r.1 < group_ids(items, items[n].key()).len(),
        group_ids(items, items[n].key())[r.1] == items[n].id@,
    decreases items.len(),
{
    let before = items.drop_last();
    let key = items[n].key();
    if n < items.len() - 1 {
        let r = lemma_group_place(before, n);
        assert(group_keys(items)[r.0] == group_keys(before)[r.0]);
        assert(group_ids(items, key)[r.1] == group_ids(before, key)[r.1]);
        r
    } else {
        let keys = group_keys(before);
        let m = if keys.contains(key) {
            choose|m: int| 0 <= m < keys.len() && keys[m] == key
        } else {
            keys.len() as int
        };
        (m, group_ids(before, key).len() as int)
    }
}

/// The keys of what a summary holds differ.
proof fn lemma_summary_keys()
    ensures
        "table"@ != "date"@,
        "table"@ != "week"@,
        "table"@ != "count"@,
        "table"@ != "type"@,
        "date"@ != "week"@,
        "date"@ != "count"@,
        "date"@ != "type"@,
        "week"@ != "count"@,
        "week"@ != "type"@,
        "count"@ != "type"@,
        "daily_summary"@ != "weekly_summary"@,
{
    reveal_strlit("table");
    reveal_strlit("date");
    reveal_strlit("week");
    reveal_strlit("count");
    reveal_strlit("type");
    reveal_strlit("daily_summary");
    reveal_strlit("weekly_summary");
    assert("table"@.len() == 5 && "count"@.len() == 5);
    assert("table"@[0] == 't' && "count"@[0] == 'c');
    assert("date"@.len() == 4 && "week"@.len() == 4 && "type"@.len() == 4);
    assert("date"@[0] == 'd' && "week"@[0] == 'w' && "type"@[0] == 't');
    assert("daily_summary"@[0] == 'd' && "weekly_summary"@[0] == 'w');
}

/// What a run stores is what the next run finds: a summary that was made, under its
/// table and its day or week with its count, and with the new count once it was
/// recounted. A summary of a day is none of a week, and the other way round.
pub proof fn summaries_are_found_again(
    key: (Seq<char>, Seq<char>),
    total: u64,
    count: u64,
    row: RecordView,
)
    ensures
        ({
            let made = summary_data(key, "date"@, total, "daily_summary"@);
            let again = made.with_member("count"@, Json::PosInt(count));
            let item = ItemView { id: row.id, table: key.0, period: key.1, weight: total };
            &&& stored_daily(RecordView { data: made, ..row }) == Some(item)
            &&& stored_daily(RecordView { data: again, ..row }) == Some(
                ItemView { weight: count, ..item },
            )
            &&& stored_weekly(RecordView { data: made, ..row }) is None
        }),
        ({
            let made = summary_data(key, "week"@, total, "weekly_summary"@);
            let again = made.with_member("count"@, Json::PosInt(count));
            let item = ItemView { id: row.id, table: key.0, period: key.1, weight: total };
            &&& stored_weekly(RecordView { data: made, ..row }) == Some(item)
            &&& stored_weekly(RecordView { data: again, ..row }) == Some(
                ItemView { weight: count, ..item },
            )
            &&& stored_daily(RecordView { data: made, ..row }) is None
        }),
{
    lemma_summary_keys();
}

/// The daily summary of a record's day counts for the week that starts with the Monday on
/// or before that day, once the day is at or before the last one.
pub proof fn days_go_into_their_weeks(r: RecordView, total: u64, row: RecordView, last: int)
    requires
        day_is_readable(r),
        r.created_at.valid(),
        row.data == summary_data(
            (r.table, text_of_day((r.created_at.day() + EPOCH_DAY) as i32)),
            "date"@,
            total,
            "daily_summary"@,
        ),
        r.created_at.day() + EPOCH_DAY <= last,
    ensures
        ({
            let day = r.created_at.day() + EPOCH_DAY;
            let daily = DailyView { id: row.id, table: r.table, day: day as i32, count: total };
            &&& old_daily(row, last) == Some(daily)
            &&& weekly_item(daily) == (ItemView {
                id: row.id,
                table: r.table,
                period: text_of_day(monday_of(day) as i32),
                weight: total,
            })
            &&& monday_of(day) <= day < monday_of(day) + 7
        }),
{
    lemma_summary_keys();
}

/// Where the id of a group comes from.
proof fn lemma_group_id(items: Seq<SummaryItem>, key: (Seq<char>, Seq<char>), j: int) -> (n: int)
    requires
        0 <= j < group_ids(items, key).len(),
    ensures
        0 <= n < items.len(),
        items[n].key() == key,
        items[n].id@ == group_ids(items, key)[j],
    decreases items.len(),
{
    let before = group_ids(items.drop_last(), key);
    if j < before.len() {
        assert(group_ids(items, key)[j] == before[j]);
        lemma_group_id(items.drop_last(), key, j)
    } else {
        items.len() - 1
    }
}

/// Where a collected value comes from.
proof fn lemma_collected_source(
    records: Seq<RecordView>,
    f: spec_fn(RecordView) -> Option<ItemView>,
    n: int,
) -> (k: int)
    requires
        0 <= n < collected(records, f).len(),
    ensures
        0 <= k < records.len(),
        f(records[k]) == Some(collected(records, f)[n]),
    decreases records.len(),
{
    let before = collected(records.drop_last(), f);
    if n < before.len() {
        assert(collected(records, f)[n] == before[n]);
        lemma_collected_source(records.drop_last(), f, n)
    } else {
        records.len() - 1
    }
}

/// Groups of items, sorted or not, have different keys.
proof fn lemma_groups_differ(g: Seq<SummaryGroup>, items: Seq<SummaryItem>)
    requires
        grouped(g, items),
    ensures
        keys_differ(ranked(g)),
{
    lemma_group_keys(items);
    sorting_orders_the_items(g);
    assert(g.no_duplicates()) by {
        assert forall|i: int, j: int| 0 <= i < g.len() && 0 <= j < g.len() && i != j implies g[i]
            != g[j] by {
            assert(g[i].key() == group_keys(items)[i] && g[j].key() == group_keys(items)[j]);
        }
    }
    g.lemma_multiset_has_no_duplicates();
    let r = ranked(g);
    r.lemma_multiset_has_no_duplicates_conv();
    assert forall|i: int, j: int| 0 <= i < j < r.len() implies (#[trigger] r[i]).key() != (
    #[trigger] r[j]).key() by {
        lemma_ranked_contains(g, r[i]);
        lemma_ranked_contains(g, r[j]);
        assert(r.contains(r[i]) && r.contains(r[j]));
        let a = choose|a: int| 0 <= a < g.len() && g[a] == r[i];
        let b = choose|b: int| 0 <= b < g.len() && g[b] == r[j];
        assert(r[i] != r[j]);
        assert(g[a].key() == group_keys(items)[a] && g[b].key() == group_keys(items)[b]);
    }
}

/// Whether no two groups have one key.
spec fn keys_differ(groups: Seq<SummaryGroup>) -> bool {
    forall|i: int, j: int|
        0 <= i < j < groups.len() ==> (#[trigger] groups[i]).key() != (#[trigger] groups[j]).key()
}

/// What stands where a key is stored.
proof fn lemma_stored_key(stored: Seq<StoredSummary>, key: (Seq<char>, Seq<char>))
    ensures
        -1 <= stored_at(stored, key) < stored.len(),
        stored_at(stored, key) >= 0 ==> stored[stored_at(stored, key)].key() == key,
        stored_at(stored, key) < 0 ==> forall|i: int|
            0 <= i < stored.len() ==> (#[trigger] stored[i]).key() != key,
    decreases stored.len(),
{
    if stored.len() > 0 && stored.last().key() != key {
        lemma_stored_key(stored.drop_last(), key);
        assert forall|i: int|
            stored_at(stored, key) < 0 && 0 <= i < stored.len() implies (#[trigger] stored[i]).key()
            != key by {
            if i < stored.len() - 1 {
                assert(stored.drop_last()[i] == stored[i]);
            }
        }
    }
}

/// What purging steps leave: what no group is stored at stays, new summaries are those
/// of groups that had none, and the counts have grown by what the groups count for.
spec fn stepped(
    stored: Seq<StoredSummary>,
    groups: Seq<SummaryGroup>,
    taken: Seq<SummaryStep>,
    after: Seq<KeyCount>,
) -> bool {
    &&& after.len() == stored.len() + created_count(taken)
    &&& forall|i: int|
        0 <= i < stored.len() ==> (#[trigger] after[i]).0 == stored[i].key() && (!leads_at(
            stored,
            groups,
            i,
        ) ==> after[i] == key_counts(stored)[i])
    &&& forall|i: int|
        stored.len() <= i < after.len() ==> new_key(stored, groups, (#[trigger] after[i]).0)
    &&& one_per_key(key_counts(stored)) ==> one_per_key(after)
    &&& counted(after) == counted(key_counts(stored)) + groups_sum(
        groups.map_values(|x: SummaryGroup| x.total as nat),
    )
}

/// Whether some group is stored at a place.
spec fn leads_at(stored: Seq<StoredSummary>, groups: Seq<SummaryGroup>, i: int) -> bool {
    exists|k: int| 0 <= k < groups.len() && stored_at(stored, (#[trigger] groups[k]).key()) == i
}

/// Whether a key is that of a group that has no stored summary.
spec fn new_key(
    stored: Seq<StoredSummary>,
    groups: Seq<SummaryGroup>,
    key: (Seq<char>, Seq<char>),
) -> bool {
    &&& stored_at(stored, key) < 0
    &&& exists|k: int| 0 <= k < groups.len() && (#[trigger] groups[k]).key() == key
}

/// What purging steps leave.
proof fn lemma_after_steps(
    stored: Seq<StoredSummary>,
    groups: Seq<SummaryGroup>,
    taken: Seq<SummaryStep>,
)
    requires
        taken.len() == groups.len(),
        keys_differ(groups),
        forall|i: int|
            0 <= i < groups.len() ==> steps(#[trigger] taken[i], groups[i], stored, true),
    ensures
        stepped(stored, groups, taken, after_steps(stored, groups, taken)),
    decreases groups.len(),
{
    if groups.len() == 0 {
        assert(groups.map_values(|x: SummaryGroup| x.total as nat) =~= Seq::<nat>::empty());
    } else {
        let d = groups.drop_last();
        let t = taken.drop_last();
        assert forall|i: int| 0 <= i < d.len() implies steps(#[trigger] t[i], d[i], stored, true) by {
            assert(t[i] == taken[i]);
        }
        assert(keys_differ(d)) by {
            assert forall|i: int, j: int| 0 <= i < j < d.len() implies (#[trigger] d[i]).key() != (
            #[trigger] d[j]).key() by {
                assert(groups[i].key() != groups[j].key());
            }
        }
        lemma_after_steps(stored, d, t);
        assert(steps(taken[groups.len() - 1], groups.last(), stored, true));
        lemma_last_step(stored, groups, taken);
    }
}

/// What the last of purging steps leaves.
proof fn lemma_last_step(
    stored: Seq<StoredSummary>,
    groups: Seq<SummaryGroup>,
    taken: Seq<SummaryStep>,
)
    requires
        taken.len() == groups.len(),
        groups.len() > 0,
        keys_differ(groups),
        steps(taken.last(), groups.last(), stored, true),
        stepped(
            stored,
            groups.drop_last(),
            taken.drop_last(),
            after_steps(stored, groups.drop_last(), taken.drop_last()),
        ),
    ensures
        stepped(stored, groups, taken, after_steps(stored, groups, taken)),
{
    let total = |x: SummaryGroup| x.total as nat;
    let worth = |c: KeyCount| c.1;
    let d = groups.drop_last();
    let last = groups.last();
    let before = after_steps(stored, d, taken.drop_last());
    let after = after_steps(stored, groups, taken);
    let at = stored_at(stored, last.key());
    lemma_stored_key(stored, last.key());
    assert(groups.map_values(total).drop_last() =~= d.map_values(total));
    assert(groups[groups.len() - 1] == last);
    assert forall|k: int| 0 <= k < d.len() implies (#[trigger] d[k]).key() != last.key() && (at >= 0
        ==> stored_at(stored, d[k].key()) != at) by {
        assert(groups[k].key() != groups[groups.len() - 1].key());
        lemma_stored_key(stored, d[k].key());
    }
    match taken.last() {
        SummaryStep::Create => {
            assert(after.map_values(worth).drop_last() =~= before.map_values(worth));
        },
        SummaryStep::Update { count, .. } => {
            assert(!leads_at(stored, d, at));
            assert(before[at] == key_counts(stored)[at]);
            lemma_groups_sum_update(before.map_values(worth), at, last.total as nat);
            assert(after.map_values(worth) =~= before.map_values(worth).update(
                at,
                before.map_values(worth)[at] + last.total as nat,
            ));
        },
        SummaryStep::Keep => {},
    }
    assert forall|i: int| 0 <= i < stored.len() implies (#[trigger] after[i]).0 == stored[i].key()
        && (!leads_at(stored, groups, i) ==> after[i] == key_counts(stored)[i]) by {
        assert(before[i].0 == stored[i].key());
        if leads_at(stored, d, i) {
            let k = choose|k: int|
                0 <= k < d.len() && stored_at(stored, (#[trigger] d[k]).key()) == i;
            assert(groups[k] == d[k]);
        }
    }
    assert forall|i: int| stored.len() <= i < after.len() implies new_key(
        stored,
        groups,
        (#[trigger] after[i]).0,
    ) by {
        if i < before.len() {
            assert(new_key(stored, d, before[i].0));
            let k = choose|k: int| 0 <= k < d.len() && (#[trigger] d[k]).key() == before[i].0;
            assert(groups[k] == d[k]);
        }
    }
    if one_per_key(key_counts(stored)) {
        assert forall|i: int, j: int| 0 <= i < j < after.len() implies (#[trigger] after[i]).0 != (
        #[trigger] after[j]).0 by {
            if j < before.len() {
                assert(before[i].0 != before[j].0);
            } else if i < stored.len() {
                assert(before[i].0 == stored[i].key());
            } else {
                assert(new_key(stored, d, before[i].0));
                let k = choose|k: int| 0 <= k < d.len() && (#[trigger] d[k]).key() == before[i].0;
                assert(d[k].key() != last.key());
            }
        }
    }
}

/// A sum with one term put in.
proof fn lemma_groups_sum_insert(totals: Seq<nat>, i: int, x: nat)
    requires
        0 <= i <= totals.len(),
    ensures
        groups_sum(totals.insert(i, x)) == groups_sum(totals) + x,
    decreases totals.len(),
{
    let t = totals.insert(i, x);
    if i == totals.len() {
        assert(t.drop_last() =~= totals);
    } else {
        lemma_groups_sum_insert(totals.drop_last(), i, x);
        assert(t.drop_last() =~= totals.drop_last().insert(i, x));
        assert(t.last() == totals.last());
    }
}

/// Sorting does not change a sum.
proof fn lemma_ranked_sum(g: Seq<SummaryGroup>, f: spec_fn(SummaryGroup) -> nat)
    ensures
        groups_sum(ranked(g).map_values(f)) == groups_sum(g.map_values(f)),
    decreases g.len(),
{
    if g.len() > 0 {
        let d = g.drop_last();
        let before = ranked(d);
        let i = rank_position(before, g.last());
        lemma_rank_position(before, g.last());
        lemma_ranked_sum(d, f);
        lemma_groups_sum_insert(before.map_values(f), i, f(g.last()));
        assert(ranked(g).map_values(f) =~= before.map_values(f).insert(i, f(g.last())));
        assert(g.map_values(f).drop_last() =~= d.map_values(f));
    } else {
        assert(ranked(g).map_values(f) =~= g.map_values(f));
    }
}

/// Items that count for one have the keys of the items, and count for as many.
proof fn lemma_ones(items: Seq<SummaryItem>)
    ensures
        ({
            let ones = items.map_values(|x: SummaryItem| SummaryItem { weight: 1, ..x });
            &&& group_keys(ones) == group_keys(items)
            &&& weight_sum(ones) == items.len()
        }),
    decreases items.len(),
{
    let one = |x: SummaryItem| SummaryItem { weight: 1, ..x };
    let ones = items.map_values(one);
    if items.len() > 0 {
        lemma_ones(items.drop_last());
        assert(ones.drop_last() =~= items.drop_last().map_values(one));
        assert(ones.last().key() == items.last().key());
    }
}

/// Items that count for one count for as many as there are ids under a key.
proof fn lemma_group_of_ones(items: Seq<SummaryItem>, key: (Seq<char>, Seq<char>))
    ensures
        group_total(items.map_values(|x: SummaryItem| SummaryItem { weight: 1, ..x }), key)
            == group_ids(items, key).len(),
    decreases items.len(),
{
    let one = |x: SummaryItem| SummaryItem { weight: 1, ..x };
    let ones = items.map_values(one);
    if items.len() > 0 {
        lemma_group_of_ones(items.drop_last(), key);
        assert(ones.drop_last() =~= items.drop_last().map_values(one));
        assert(ones.last().key() == items.last().key());
    }
}

/// Items that count for one count for as many as there are.
proof fn lemma_weight_of_ones(items: Seq<SummaryItem>)
    requires
        forall|i: int| 0 <= i < items.len() ==> (#[trigger] items[i]).weight == 1,
    ensures
        weight_sum(items) == items.len(),
    decreases items.len(),
{
    if items.len() > 0 {
        let d = items.drop_last();
        assert forall|i: int| 0 <= i < d.len() implies (#[trigger] d[i]).weight == 1 by {
            assert(d[i] == items[i]);
        }
        lemma_weight_of_ones(d);
        assert(items[items.len() - 1].weight == 1);
    }
}

/// Records stay as many days as they are retained: the cutoff lies that many days before
/// now, and where that cannot be represented, as far back as can be.
pub proof fn records_stay_as_many_days(now_us: i64, days: u64, r: i64, more: u64, s: i64)
    requires
        call_ensures(Axil::retention_cutoff, (now_us, days), r),
        call_ensures(Axil::retention_cutoff, (now_us, more), s),
    ensures
        r <= now_us || days == 0,
        days <= 100_000_000 && now_us - days * 86_400_000_000 >= i64::MIN ==> now_us - r == days
            * 86_400_000_000,
        days <= more ==> s <= r,
        days <= 100_000_000 && now_us - days * 86_400_000_000 < i64::MIN ==> r == i64::MIN,
{
    assert(days <= more ==> days * DAY_US <= more * DAY_US) by (nonlinear_arith)
        requires
            DAY_US >= 0,
    ;
    assert(DAY_US == 86_400_000_000);
    assert(days * DAY_US == days * 86_400_000_000);
    assert(days * DAY_US >= 0);
}

/// Daily summaries stay as many days as they are retained, a hundred years at most: none
/// where these are no days, and a day longer with each day.
pub proof fn summaries_stay_as_many_days(now: Timestamp, days: u64, r: i64, more: u64, s: i64)
    requires
        FIRST_DAY + 36_500 <= now.day() <= LAST_DAY,
        call_ensures(Axil::weekly_cutoff, (now, days), r),
        call_ensures(Axil::weekly_cutoff, (now, more), s),
    ensures
        days <= 36_500 && more <= 36_500 ==> r - s == more - days,
        days == 0 ==> r == now.day() + EPOCH_DAY,
        days >= 36_500 && more >= 36_500 ==> r == s,
{
}

/// A stored daily summary goes into a weekly one just where its day is not after the last
/// one, with its table, its day and its count.
pub proof fn old_days_go_into_weeks(
    records: &Vec<Record>,
    last: i64,
    r: Vec<DailySummary>,
    i: int,
    table: Seq<char>,
    date: Seq<char>,
    day: i32,
)
    requires
        call_ensures(Axil::old_dailies, (records, last), r),
        0 <= i < records@.len(),
        records@[i].data.model().member("type"@) == Some(Json::Text("daily_summary"@)),
        records@[i].data.model().member("table"@) == Some(Json::Text(table)),
        records@[i].data.model().member("date"@) == Some(Json::Text(date)),
        day_of_text(date) == Some(day),
        forall|a: int, b: int|
            0 <= a < b < records@.len() ==> (#[trigger] records@[a]).id@ != (
            #[trigger] records@[b]).id@,
    ensures
        day <= last <==> exists|k: int|
            0 <= k < r@.len() && (#[trigger] r@[k]).id@ == records@[i].id@,
        forall|k: int|
            0 <= k < r@.len() && (#[trigger] r@[k]).id@ == records@[i].id@ ==> r@[k].table@ == table
                && r@[k].day == day && (records@[i].data.model().member("count"@) matches Some(
                Json::PosInt(n),
            ) ==> r@[k].count == n),
{
    let v = records_view(records@);
    let f = |x: RecordView| old_daily(x, last as int);
    let d = dailies_view(r@);
    assert(v[i] == records@[i]@);
    assert(f(v[i]) == old_daily(v[i], last as int));
    if day <= last {
        let x = old_daily(v[i], last as int)->0;
        crate::text::collected_values_come_from_items(v, f, x);
        let k = choose|k: int| 0 <= k < d.len() && d[k] == x;
        assert(d[k] == r@[k]@);
        assert(r@[k].id@ == records@[i].id@);
    }
    assert forall|k: int| 0 <= k < r@.len() && (#[trigger] r@[k]).id@ == records@[i].id@ implies day
        <= last && r@[k].table@ == table && r@[k].day == day && (records@[i].data.model().member(
        "count"@,
    ) matches Some(Json::PosInt(n)) ==> r@[k].count == n) by {
        assert(d[k] == r@[k]@);
        assert(d.contains(d[k]));
        crate::text::collected_values_come_from_items(v, f, d[k]);
        let j = choose|j: int| 0 <= j < v.len() && f(#[trigger] v[j]) == Some(d[k]);
        assert(v[j] == records@[j]@);
        assert(records@[j].id@ == records@[i].id@);
        assert(j == i);
    }
}

/// A summary that is stored gets the count of its group, and with purging that count on top
/// of its own; one that is not stored is made.
pub proof fn stored_summaries_get_new_counts(
    items: &Vec<SummaryItem>,
    stored: &Vec<StoredSummary>,
    purge: bool,
    r: SummaryPlan,
    i: int,
    k: int,
)
    requires
        summable(items@),
        countable(stored@, items@, purge),
        call_ensures(Axil::downsample, (items, stored, purge), r) || call_ensures(
            Axil::downsample_weekly,
            (items, stored, purge),
            r,
        ),
        0 <= i < r.groups@.len(),
        0 <= k < stored@.len(),
        stored@[k].table@ == r.groups@[i].table@ && stored@[k].period@ == r.groups@[i].period@,
        forall|l: int|
            k < l < stored@.len() ==> (#[trigger] stored@[l]).table@ != r.groups@[i].table@
                || stored@[l].period@ != r.groups@[i].period@,
    ensures
        r.steps@.len() == r.groups@.len(),
        !(r.steps@[i] is Create),
        r.steps@[i] matches SummaryStep::Update { id, count } ==> id@ == stored@[k].id@ && (purge
            ==> count == stored@[k].count + r.groups@[i].total) && (!purge ==> count
            == r.groups@[i].total),
        r.steps@[i] is Keep ==> (purge ==> r.groups@[i].total == 0) && (!purge ==> stored@[k].count
            == r.groups@[i].total),
{
    assert(steps(r.steps@[i], r.groups@[i], stored@, purge));
    lemma_stored_last(stored@, r.groups@[i].key(), k);
}

/// Where the last summary with a key stands.
proof fn lemma_stored_last(stored: Seq<StoredSummary>, key: (Seq<char>, Seq<char>), k: int)
    requires
        0 <= k < stored.len(),
        stored[k].key() == key,
        forall|l: int| k < l < stored.len() ==> (#[trigger] stored[l]).key() != key,
    ensures
        stored_at(stored, key) == k,
    decreases stored.len(),
{
    if k < stored.len() - 1 {
        let d = stored.drop_last();
        assert(stored.last() == stored[stored.len() - 1]);
        assert(d[k] == stored[k]);
        lemma_stored_last(d, key, k);
    }
}

/// A record counts once, in its table, on the day that it was made on, unless it is a summary
/// itself.
pub proof fn each_record_counts_on_its_day(
    records: &Vec<Record>,
    r: Vec<SummaryItem>,
    i: int,
)
    requires
        forall|k: int| 0 <= k < records@.len() ==> (#[trigger] records@[k]).created_at.valid(),
        call_ensures(Axil::daily_items, (records,), r),
        0 <= i < records@.len(),
        forall|a: int, b: int|
            0 <= a < b < records@.len() ==> (#[trigger] records@[a]).id@ != (
            #[trigger] records@[b]).id@,
    ensures
        (exists|k: int| 0 <= k < r@.len() && (#[trigger] r@[k]).id@ == records@[i].id@)
            <==> records@[i].table@ != "_summaries"@,
        forall|k: int|
            0 <= k < r@.len() && (#[trigger] r@[k]).id@ == records@[i].id@ ==> r@[k].table@
                == records@[i].table@ && r@[k].weight == 1 && r@[k].period@ == text_of_day(
                (records@[i].created_at.secs as int / 86_400 + 719_163) as i32,
            ),
{
    let v = records_view(records@);
    let f = |x: RecordView| daily_item(x);
    let u = items_view(r@);
    assert(v[i] == records@[i]@);
    assert(f(v[i]) == daily_item(v[i]));
    assert(DAY_SECS == 86_400 && EPOCH_DAY == 719_163);
    if daily_item(v[i]) is Some {
        let x = daily_item(v[i])->0;
        crate::text::collected_values_come_from_items(v, f, x);
        let k = choose|k: int| 0 <= k < u.len() && u[k] == x;
        assert(u[k] == r@[k]@);
        assert(r@[k].id@ == records@[i].id@);
    }
    assert forall|k: int| 0 <= k < r@.len() && (#[trigger] r@[k]).id@ == records@[i].id@ implies
        daily_item(v[i]) == Some(r@[k]@) by {
        assert(u[k] == r@[k]@);
        assert(u.contains(u[k]));
        crate::text::collected_values_come_from_items(v, f, u[k]);
        let j = choose|j: int| 0 <= j < v.len() && f(#[trigger] v[j]) == Some(u[k]);
        assert(v[j] == records@[j]@);
        assert(records@[j].id@ == records@[i].id@);
        assert(j == i);
    }
}

/// A daily summary counts with its count in the week of its day, which begins at most six
/// days before it, on a Monday.
pub proof fn daily_summaries_count_in_their_week(
    dailies: &Vec<DailySummary>,
    r: Vec<SummaryItem>,
    i: int,
    monday: int,
)
    requires
        forall|k: int|
            0 <= k < dailies@.len() ==> FIRST_DAY + EPOCH_DAY <= monday_of(
                (#[trigger] dailies@[k]).day as int,
            ) && dailies@[k].day <= LAST_DAY + EPOCH_DAY,
        call_ensures(Axil::weekly_items, (dailies,), r),
        0 <= i < dailies@.len(),
        monday <= dailies@[i].day <= monday + 6,
        (monday - 1) % 7 == 0,
    ensures
        r@.len() == dailies@.len(),
        r@[i].id@ == dailies@[i].id@ && r@[i].table@ == dailies@[i].table@ && r@[i].weight
            == dailies@[i].count,
        r@[i].period@ == text_of_day(monday as i32),
{
    let d = dailies_view(dailies@);
    let u = items_view(r@);
    assert(u == d.map_values(|x: DailyView| weekly_item(x)));
    assert(u.len() == r@.len() && d.len() == dailies@.len());
    assert(u[i] == weekly_item(d[i]));
    assert(u[i] == r@[i]@);
    assert(d[i] == dailies@[i]@);
    assert(monday_of(dailies@[i].day as int) == monday);
}

/// What a summary holds names its table, its day or week, and its count.
pub proof fn summaries_hold_their_count(g: &SummaryGroup, d: Value, w: Value)
    requires
        call_ensures(SummaryGroup::daily_data, (g,), d),
        call_ensures(SummaryGroup::weekly_data, (g,), w),
    ensures
        d.model().member("table"@) == Some(Json::Text(g.table@)),
        d.model().member("date"@) == Some(Json::Text(g.period@)),
        d.model().member("count"@) == Some(Json::PosInt(g.total)),
        d.model().member("type"@) == Some(Json::Text("daily_summary"@)),
        w.model().member("table"@) == Some(Json::Text(g.table@)),
        w.model().member("week"@) == Some(Json::Text(g.period@)),
        w.model().member("count"@) == Some(Json::PosInt(g.total)),
        w.model().member("type"@) == Some(Json::Text("weekly_summary"@)),
{
    reveal_strlit("table");
    reveal_strlit("date");
    reveal_strlit("week");
    reveal_strlit("count");
    reveal_strlit("type");
    assert("table"@.len() == 5 && "date"@.len() == 4 && "week"@.len() == 4 && "count"@.len() == 5
        && "type"@.len() == 4);
    assert("table"@[0] == 't' && "count"@[0] == 'c' && "date"@[0] == 'd' && "week"@[0] == 'w'
        && "type"@[0] == 't');
}

} // verus!
