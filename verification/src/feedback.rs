//! Feedback on results: which records were marked relevant for which queries.
//! Embeddings are held by the bits of their single-precision numbers; how alike two
//! of them are is told by the host.

use crate::db::search::missing_record;
use crate::db::Axil;
use crate::error::{AxilError, Result};
use crate::order::{in_order, ranked, sort_ranked, sorting_orders_the_items, Ranked};
use crate::record::RecordId;
use crate::time::{seconds_between, seconds_since, Timestamp};
use vstd::prelude::*;

verus! {

/// How many entries are kept.
pub const MAX_FEEDBACK_ENTRIES: usize = 10_000;

/// How long an entry is kept after its last use: five times thirty days, in seconds.
pub const FEEDBACK_LIFE_SECS: i64 = 12_960_000;

/// A record that was marked relevant for a query.
#[derive(Debug)]
pub struct FeedbackEntry {
    /// The embedding of the query.
    pub query_embedding: Vec<u32>,
    /// The record.
    pub record_id: RecordId,
    /// How often it was marked for queries like this.
    pub count: u32,
    /// When it was marked last.
    pub last_used: Timestamp,
    /// When it was marked first.
    pub created_at: Timestamp,
}

/// An entry, in the model.
pub struct FeedbackView {
    pub query: Seq<u32>,
    pub record: Seq<char>,
    pub count: u32,
    pub last_used: Timestamp,
    pub created_at: Timestamp,
}

impl View for FeedbackEntry {
    type V = FeedbackView;

    open spec fn view(&self) -> FeedbackView {
        FeedbackView {
            query: self.query_embedding@,
            record: self.record_id@,
            count: self.count,
            last_used: self.last_used,
            created_at: self.created_at,
        }
    }
}

impl Ranked for FeedbackEntry {
    open spec fn before(self, other: Self) -> bool {
        other.last_used.before(self.last_used)
    }

    proof fn lemma_ranked(a: Self, b: Self, c: Self) {
    }

    fn comes_before(&self, other: &Self) -> (r: bool) {
        other.last_used.is_before(self.last_used)
    }
}

/// The place of the first entry for a record whose query is alike, or the number of
/// entries.
pub open spec fn match_place(e: Seq<FeedbackEntry>, alike: Seq<bool>, id: Seq<char>) -> nat
    decreases e.len(),
{
    if e.len() == 0 || (e[0].record_id@ == id && alike[0]) {
        0
    } else {
        1 + match_place(e.drop_first(), alike.drop_first(), id)
    }
}

/// The entries that are kept: all of them, or the most recently used.
pub open spec fn bounded(e: Seq<FeedbackEntry>) -> Seq<FeedbackEntry> {
    if e.len() > MAX_FEEDBACK_ENTRIES {
        ranked(e).take(MAX_FEEDBACK_ENTRIES as int)
    } else {
        e
    }
}

/// Whether an entry was used lately enough to be kept.
pub open spec fn still_counts(e: FeedbackEntry, now: Timestamp) -> bool {
    seconds_between(now, e.last_used) < FEEDBACK_LIFE_SECS
}

/// The feedback of a database.
#[derive(Debug)]
pub struct FeedbackStore {
    entries: Vec<FeedbackEntry>,
}

impl FeedbackStore {
    /// The entries.
    pub closed spec fn stored(self) -> Seq<FeedbackEntry> {
        self.entries@
    }

    /// No feedback.
    pub fn new() -> (r: Self)
        ensures
            r.stored().len() == 0,
    {
        FeedbackStore { entries: Vec::new() }
    }

    /// The feedback that was kept before.
    pub fn from_entries(entries: Vec<FeedbackEntry>) -> (r: Self)
        ensures
            r.stored() == entries@,
    {
        FeedbackStore { entries }
    }

    /// The place of the first entry for a record whose query is alike.
    fn find_match(&self, alike: &Vec<bool>, id: &RecordId) -> (r: usize)
        requires
            alike@.len() == self.stored().len(),
        ensures
            r == match_place(self.stored(), alike@, id@),
            r <= self.stored().len(),
            r < self.stored().len() ==> self.stored()[r as int].record_id@ == id@ && alike@[r as int],
    {
        let mut i: usize = 0;
        proof {
            assert(self.entries@.skip(0) =~= self.entries@);
            assert(alike@.skip(0) =~= alike@);
        }
        while i < self.entries.len()
            invariant
                i <= self.entries@.len(),
                alike@.len() == self.entries@.len(),
                match_place(self.entries@, alike@, id@) == i + match_place(
                    self.entries@.skip(i as int),
                    alike@.skip(i as int),
                    id@,
                ),
            decreases self.entries@.len() - i,
        {
            proof {
                assert(self.entries@.skip(i as int).drop_first() =~= self.entries@.skip(i + 1));
                assert(alike@.skip(i as int).drop_first() =~= alike@.skip(i + 1));
            }
            if alike[i] && self.entries[i].record_id.same(id) {
                return i;
            }
            i += 1;
        }
        i
    }

    /// Marks a record relevant for a query, given which entries are for queries alike:
    /// the first of them for this record counts one more, or else there is a new
    /// entry, and the one that was not used for longest may have to go.
    pub fn mark_relevant(
        &mut self,
        query_embedding: Vec<u32>,
        record_id: &RecordId,
        alike: &Vec<bool>,
        now: Timestamp,
    )
        requires
            alike@.len() == old(self).stored().len(),
            ({
                let i = match_place(old(self).stored(), alike@, record_id@) as int;
                i < old(self).stored().len() ==> old(self).stored()[i].count < u32::MAX
            }),
        ensures
            ({
                let e = old(self).stored();
                let i = match_place(e, alike@, record_id@) as int;
                if i < e.len() {
                    final(self).stored() == e.update(
                        i,
                        FeedbackEntry { count: (e[i].count + 1) as u32, last_used: now, ..e[i] },
                    )
                } else {
                    exists|x: FeedbackEntry| #[trigger]
                        x@ == (FeedbackView {
                            query: query_embedding@,
                            record: record_id@,
                            count: 1,
                            last_used: now,
                            created_at: now,
                        }) && final(self).stored() == bounded(e.push(x))
                }
            }),
    {
        let i = self.find_match(alike, record_id);
        if i < self.entries.len() {
            self.entries[i].count += 1;
            self.entries[i].last_used = now;
            return;
        }
        let x = FeedbackEntry {
            query_embedding,
            record_id: record_id.copy(),
            count: 1,
            last_used: now,
            created_at: now,
        };
        let ghost gx = x;
        let mut all: Vec<FeedbackEntry> = Vec::new();
        all.append(&mut self.entries);
        all.push(x);
        let ghost pushed = all@;
        assert(pushed =~= old(self).stored().push(gx));
        if all.len() > MAX_FEEDBACK_ENTRIES {
            let mut sorted = sort_ranked(all);
            sorted.truncate(MAX_FEEDBACK_ENTRIES);
            proof {
                sorting_orders_the_items(pushed);
                assert(sorted@ =~= ranked(pushed).take(MAX_FEEDBACK_ENTRIES as int));
            }
            self.entries = sorted;
        } else {
            self.entries = all;
        }
        assert(gx@ == FeedbackView {
            query: query_embedding@,
            record: record_id@,
            count: 1,
            last_used: now,
            created_at: now,
        });
        assert(self.stored() == bounded(old(self).stored().push(gx)));
    }

    /// Drops the entries that were not used for too long.
    pub fn decay(&mut self, now: Timestamp)
        requires
            now.valid(),
            forall|i: int|
                0 <= i < old(self).stored().len() ==> (#[trigger] old(self).stored()[i]).last_used.valid(),
        ensures
            final(self).stored() == old(self).stored().filter(
                |e: FeedbackEntry| still_counts(e, now),
            ),
    {
        let ghost all = self.entries@;
        let ghost p = |e: FeedbackEntry| still_counts(e, now);
        proof {
            assert(all == old(self).stored());
        }
        let mut rest: Vec<FeedbackEntry> = Vec::new();
        rest.append(&mut self.entries);
        assert(rest@ =~= all);
        let mut kept: Vec<FeedbackEntry> = Vec::new();
        proof {
            reveal(Seq::filter);
            assert(kept@ =~= all.take(0).filter(p));
        }
        for e in it: rest
            invariant
                it.seq() == all,
                now.valid(),
                p == (|e: FeedbackEntry| still_counts(e, now)),
                forall|i: int| 0 <= i < all.len() ==> (#[trigger] all[i]).last_used.valid(),
                kept@ == all.take(it.index()).filter(p),
        {
            proof {
                let i = it.index();
                reveal(Seq::filter);
                assert(all.take(i + 1).drop_last() =~= all.take(i));
                assert(all.take(i + 1).last() == e);
                assert(all[i].last_used.valid());
            }
            if seconds_since(now, e.last_used) < FEEDBACK_LIFE_SECS {
                kept.push(e);
            }
        }
        assert(all.take(all.len() as int) =~= all);
        self.entries = kept;
    }

    /// The number of entries.
    pub fn len(&self) -> (r: usize)
        ensures
            r == self.stored().len(),
    {
        self.entries.len()
    }

    /// Whether there is no feedback.
    pub fn is_empty(&self) -> (r: bool)
        ensures
            r == (self.stored().len() == 0),
    {
        self.entries.len() == 0
    }

    /// Whether a record was ever marked.
    pub fn has_feedback(&self, record_id: &RecordId) -> (r: bool)
        ensures
            r == exists|i: int|
                0 <= i < self.stored().len() && (#[trigger] self.stored()[i]).record_id@
                    == record_id@,
    {
        let mut i: usize = 0;
        while i < self.entries.len()
            invariant
                i <= self.entries@.len(),
                forall|j: int| 0 <= j < i ==> (#[trigger] self.entries@[j]).record_id@ != record_id@,
            decreases self.entries@.len() - i,
        {
            if self.entries[i].record_id.same(record_id) {
                assert(self.stored()[i as int].record_id@ == record_id@);
                return true;
            }
            i += 1;
        }
        false
    }

    /// The entries.
    pub fn entries(&self) -> (r: &Vec<FeedbackEntry>)
        ensures
            r@ == self.stored(),
    {
        &self.entries
    }
}

impl Default for FeedbackStore {
    fn default() -> (r: FeedbackStore)
        ensures
            r.stored().len() == 0,
    {
        FeedbackStore::new()
    }
}

/// However many entries there are: no more are kept than the limit, and none that is
/// kept was last used before one that is dropped.
pub proof fn trimming_drops_the_oldest(e: Seq<FeedbackEntry>)
    ensures
        bounded(e).len() <= MAX_FEEDBACK_ENTRIES,
        e.len() > MAX_FEEDBACK_ENTRIES ==> in_order(ranked(e)) && forall|i: int, j: int|
            0 <= i < MAX_FEEDBACK_ENTRIES <= j < e.len() ==> !(#[trigger] bounded(
                e,
            )[i]).last_used.before((#[trigger] ranked(e)[j]).last_used),
{
    sorting_orders_the_items(e);
    if e.len() > MAX_FEEDBACK_ENTRIES {
        let k = ranked(e);
        assert forall|i: int, j: int|
            0 <= i < MAX_FEEDBACK_ENTRIES <= j < e.len() implies !(#[trigger] bounded(
            e,
        )[i]).last_used.before((#[trigger] k[j]).last_used) by {
            assert(bounded(e)[i] == k[i]);
            assert(!k[j].before(k[i]));
        }
    }
}

impl Axil {
    /// Whether feedback on a record is taken: the record must be there.
    pub fn mark_relevant(id: &RecordId, found: bool) -> (r: Result<()>)
        ensures
            r is Ok <==> found,
            r matches Err(e) ==> (e matches AxilError::NotFound(m) && m@ == "record "@ + id@),
    {
        if found {
            Ok(())
        } else {
            Err(missing_record(id))
        }
    }
}

/// The first entry for a record whose query is alike is the one that counts.
pub proof fn the_first_alike_entry_counts(
    e: Seq<FeedbackEntry>,
    alike: Seq<bool>,
    id: Seq<char>,
    i: int,
)
    requires
        e.len() == alike.len(),
        0 <= i <= e.len(),
        i < e.len() ==> e[i].record_id@ == id && alike[i],
        forall|j: int|
            0 <= j < i ==> (#[trigger] e[j]).record_id@ != id || !alike[j],
    ensures
        match_place(e, alike, id) == i,
    decreases e.len(),
{
    if i > 0 {
        let d = e.drop_first();
        let a = alike.drop_first();
        if i < e.len() {
            assert(d[i - 1] == e[i] && a[i - 1] == alike[i]);
        }
        assert forall|j: int| 0 <= j < i - 1 implies (#[trigger] d[j]).record_id@ != id || !a[j] by {
            assert(d[j] == e[j + 1] && a[j] == alike[j + 1]);
        }
        assert(e[0].record_id@ != id || !alike[0]);
        the_first_alike_entry_counts(d, a, id, i - 1);
    }
}

/// An entry counts for 150 days after its last use, and not from then on.
pub proof fn entries_count_for_five_months(e: FeedbackEntry, now: Timestamp)
    ensures
        seconds_between(now, e.last_used) < 150 * 24 * 60 * 60 <==> still_counts(e, now),
{
}

/// A store has feedback on a record only where some entry is about it.
pub proof fn feedback_is_about_its_record(
    store: &FeedbackStore,
    id: &RecordId,
    r: bool,
    n: usize,
    empty: bool,
)
    requires
        call_ensures(FeedbackStore::has_feedback, (store, id), r),
        call_ensures(FeedbackStore::len, (store,), n),
        call_ensures(FeedbackStore::is_empty, (store,), empty),
    ensures
        r ==> n > 0,
        empty <==> n == 0,
        r ==> exists|i: int|
            0 <= i < store.stored().len() && (#[trigger] store.stored()[i]).record_id@ == id@,
{
}

/// Feedback is kept in full up to ten thousand entries.
pub proof fn ten_thousand_entries_are_kept(e: Seq<FeedbackEntry>)
    ensures
        e.len() <= 10_000 ==> bounded(e) == e,
        e.len() > 10_000 ==> bounded(e).len() == 10_000,
{
    if e.len() > 10_000 {
        crate::order::sorting_orders_the_items(e);
    }
}

} // verus!
