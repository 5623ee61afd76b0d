//! Bulk work: records in batches, filling the time index, summing up a clean-up.

use super::write::unscored;
use super::Axil;
use crate::error::Result;
use crate::json::{Json, Value};
use crate::plugin::TimeSeriesIndex;
use crate::record::{internal_table, is_internal_table, is_ulid, Record};
use crate::time::Timestamp;
use vstd::prelude::*;

verus! {

/// What `heal` did.
#[derive(Clone, Copy, Debug, PartialEq, Eq, Structural)]
pub struct HealReport {
    /// Summaries of days that were made.
    pub daily_summaries_created: usize,
    /// Records that went into them.
    pub records_purged: usize,
    /// Summaries of weeks that were made.
    pub weekly_summaries_created: usize,
    /// Summaries of days that went into them.
    pub daily_summaries_purged: usize,
}

impl Default for HealReport {
    fn default() -> (r: HealReport)
        ensures
            r.daily_summaries_created == 0,
            r.records_purged == 0,
            r.weekly_summaries_created == 0,
            r.daily_summaries_purged == 0,
    {
        HealReport {
            daily_summaries_created: 0,
            records_purged: 0,
            weekly_summaries_created: 0,
            daily_summaries_purged: 0,
        }
    }
}

/// How many records are read at a time.
pub const BACKFILL_BATCH: usize = 1000;

/// What a record holds once it was given an importance, if it is to get one.
pub open spec fn scored(table: Seq<char>, data: Json, importance: Json) -> Json {
    if !internal_table(table) && data.member("_importance"@) is None {
        data.with_member("_importance"@, importance)
    } else {
        data
    }
}

/// Whether a time index may take a record in.
pub open spec fn taken_in<T: TimeSeriesIndex + ?Sized>(index: &T, record: Record) -> bool {
    call_ensures(T::on_record_insert, (index, &record), Ok(()))
}

impl Axil {
    /// What was done, given what came of the days and of the weeks: the summaries that
    /// were made, and what went into them.
    pub fn heal(days: (usize, usize), weeks: (usize, usize)) -> (r: HealReport)
        ensures
            r == (HealReport {
                daily_summaries_created: days.0,
                records_purged: days.1,
                weekly_summaries_created: weeks.0,
                daily_summaries_purged: weeks.1,
            }),
    {
        HealReport {
            daily_summaries_created: days.0,
            records_purged: days.1,
            weekly_summaries_created: weeks.0,
            daily_summaries_purged: weeks.1,
        }
    }

    /// The record that an insert of data makes: of a user table it carries an
    /// importance, its own or the one given.
    pub fn scored_record(table: &str, data: Value, importance: Value, now: Timestamp) -> (r: Record)
        ensures
            is_ulid(r.id@),
            r.table@ == table@,
            r.data.model() == scored(table@, data.model(), importance.model()),
            r.created_at == now,
            r.updated_at == now,
            r.metadata is None,
            !unscored(r@) || !(data.model() is Object),
    {
        let mut data = data;
        let own = match data.get("_importance") {
            Some(_) => true,
            None => false,
        };
        if !own && !is_internal_table(table) {
            data.set("_importance", importance);
        }
        let r = Record::new(table, data, now);
        assert(r@.metadata is None);
        r
    }

    /// The records that an insert of many makes, in order, each with the time and the
    /// importance that is given for it.
    pub fn insert_batch_at(
        table: &str,
        items: Vec<(Value, Timestamp)>,
        importance: Vec<Value>,
    ) -> (r: Vec<Record>)
        requires
            items@.len() == importance@.len(),
        ensures
            r@.len() == items@.len(),
            forall|i: int|
                0 <= i < r@.len() ==> {
                    &&& is_ulid((#[trigger] r@[i]).id@)
                    &&& r@[i].table@ == table@
                    &&& r@[i].data.model() == scored(
                        table@,
                        items@[i].0.model(),
                        importance@[i].model(),
                    )
                    &&& r@[i].created_at == items@[i].1
                    &&& r@[i].updated_at == items@[i].1
                    &&& r@[i].metadata is None
                },
    {
        let mut out: Vec<Record> = Vec::new();
        let mut scores = importance;
        let ghost all = importance@;
        for item in it: items
            invariant
                it.seq() == items@,
                all == importance@,
                items@.len() == all.len(),
                out@.len() == it.index(),
                scores@ == all.skip(it.index()),
                forall|i: int|
                    0 <= i < out@.len() ==> {
                        &&& is_ulid((#[trigger] out@[i]).id@)
                        &&& out@[i].table@ == table@
                        &&& out@[i].data.model() == scored(
                            table@,
                            items@[i].0.model(),
                            all[i].model(),
                        )
                        &&& out@[i].created_at == items@[i].1
                        &&& out@[i].updated_at == items@[i].1
                        &&& out@[i].metadata is None
                    },
        {
            let score = scores.remove(0);
            proof {
                assert(score == all[it.index()]);
                assert(scores@ =~= all.skip(it.index() + 1));
            }
            out.push(Self::scored_record(table, item.0, score, item.1));
        }
        out
    }

    /// Puts records into the time index, in order, up to the first failure.
    pub fn backfill_batch<T: TimeSeriesIndex + ?Sized>(index: &T, records: &Vec<Record>) -> (r: Result<usize>)
        ensures
            match r {
                Ok(n) => n == records@.len() && forall|j: int|
                    0 <= j < n ==> #[trigger] taken_in(index, records@[j]),
                Err(e) => exists|n: int|
                    {
                        &&& 0 <= n < records@.len()
                        &&& #[trigger] call_ensures(
                            T::on_record_insert,
                            (index, &records@[n]),
                            Err(e),
                        )
                        &&& forall|j: int| 0 <= j < n ==> #[trigger] taken_in(index, records@[j])
                    },
            },
    {
        let mut i: usize = 0;
        while i < records.len()
            invariant
                i <= records@.len(),
                forall|j: int| 0 <= j < i ==> #[trigger] taken_in(index, records@[j]),
            decreases records@.len() - i,
        {
            match index.on_record_insert(&records[i]) {
                Ok(done) => {
                    assert(done == ());
                    assert(taken_in(index, records@[i as int]));
                },
                Err(e) => {
                    return Err(e);
                },
            }
            i += 1;
        }
        Ok(i)
    }

    /// Where the next batch of a table begins, given where the last one began and how
    /// many records it had: a batch that is not full was the last.
    pub fn backfill_next(offset: usize, len: usize) -> (r: Option<usize>)
        requires
            offset + len <= usize::MAX,
        ensures
            r == if len < BACKFILL_BATCH {
                None
            } else {
                Some((offset + len) as usize)
            },
    {
        if len < BACKFILL_BATCH {
            None
        } else {
            Some(offset + len)
        }
    }
}

/// A record that is inserted is as given: its table, its time, and all that its data
/// says. One of a user table that carries no importance gets the one computed for it, and
/// none loses its own.
pub proof fn inserted_records_keep_what_they_say(
    table: &str,
    data: Value,
    importance: Value,
    now: Timestamp,
    r: Record,
    key: Seq<char>,
)
    requires
        call_ensures(Axil::scored_record, (table, data, importance, now), r),
        data.model() is Object,
    ensures
        r.table@ == table@ && r.created_at == now && r.updated_at == now,
        key != "_importance"@ ==> r.data.model().member(key) == data.model().member(key),
        data.model().member("_importance"@) is Some ==> r.data.model() == data.model(),
        table@.len() > 0 && table@[0] == '_' ==> r.data.model() == data.model(),
        !(table@.len() > 0 && table@[0] == '_') && data.model().member("_importance"@) is None
            ==> r.data.model().member("_importance"@) == Some(importance.model()),
{
}

/// Records that are inserted together are what they would be one by one, in their order.
pub proof fn records_inserted_together_are_alike(
    table: &str,
    items: Vec<(Value, Timestamp)>,
    importance: Vec<Value>,
    r: Vec<Record>,
    i: int,
    one: Record,
)
    requires
        items@.len() == importance@.len(),
        0 <= i < items@.len(),
        call_ensures(Axil::insert_batch_at, (table, items, importance), r),
        call_ensures(
            Axil::scored_record,
            (table, items@[i].0, importance@[i], items@[i].1),
            one,
        ),
    ensures
        r@.len() == items@.len(),
        r@[i].table@ == one.table@,
        r@[i].data.model() == one.data.model(),
        r@[i].created_at == one.created_at,
        r@[i].updated_at == one.updated_at,
        r@[i].metadata == one.metadata,
{
}

/// A table is read in batches of a thousand: a full batch is followed by the next one
/// where it ended, and one that is not full is the last.
pub proof fn full_batches_are_followed(offset: usize, len: usize, r: Option<usize>)
    requires
        offset + len <= usize::MAX,
        call_ensures(Axil::backfill_next, (offset, len), r),
    ensures
        len >= 1000 ==> r == Some((offset + len) as usize),
        len < 1000 ==> r is None,
{
}

/// A clean-up reports what came of the days and of the weeks.
pub proof fn clean_ups_report_days_and_weeks(
    days: (usize, usize),
    weeks: (usize, usize),
    r: HealReport,
)
    requires
        call_ensures(Axil::heal, (days, weeks), r),
    ensures
        r.daily_summaries_created == days.0 && r.records_purged == days.1,
        r.weekly_summaries_created == weeks.0 && r.daily_summaries_purged == weeks.1,
{
}

} // verus!
