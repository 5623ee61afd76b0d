//! The database: what its operations decide.

pub mod chunks;
pub mod consolidate;
pub mod entities;
pub mod health;
pub mod info;
pub mod link;
pub mod llm;
pub mod log;
pub mod recall;
pub mod registry;
pub mod repair;
pub mod report;
pub mod rows;
pub mod search;
pub mod stats;
pub mod summary;
pub mod upkeep;
pub mod write;

use crate::json::Json;
use crate::record::{Record, RecordView};
use crate::time::{instant_of, parse_instant, Timestamp};
use vstd::prelude::*;

verus! {

/// The decisions of an open database. The host opens the files, keeps the engines
/// and carries out what the operations ask for.
#[derive(Debug)]
pub struct Axil {
    /// Whether there is a vector index.
    pub vector_index: bool,
    /// Whether there is an embedder.
    pub embedder: bool,
    /// Whether there is a graph index.
    pub graph_index: bool,
    /// Whether there is a time index.
    pub timeseries_index: bool,
    /// Whether there is a full-text index.
    pub fts_index: bool,
    /// Whether writes to user tables are logged.
    pub audit_enabled: bool,
}

/// Whether another record has taken the place of this one.
pub open spec fn superseded(r: RecordView) -> bool {
    r.data.flag_member("_superseded"@) || (r.metadata matches Some(m) && m.flag_member(
        "superseded"@,
    ))
}

/// Whether the member `valid_until` of a value names an instant before `now`.
pub open spec fn outlived(v: Json, now: Timestamp) -> bool {
    v.text_member("valid_until"@) matches Some(t) && instant_of(t) matches Some(end) && end.before(
        now,
    )
}

/// Whether a record is valid no more.
pub open spec fn expired(r: RecordView, now: Timestamp) -> bool {
    outlived(r.data, now) || (r.metadata matches Some(m) && outlived(m, now))
}

/// Whether another record has taken the place of this one.
pub fn is_superseded_record(record: &Record) -> (r: bool)
    ensures
        r == superseded(record@),
{
    if record.data.flag("_superseded") {
        return true;
    }
    match &record.metadata {
        Some(m) => m.flag("superseded"),
        None => false,
    }
}

/// Whether the member `valid_until` of a value names an instant before `now`.
fn is_outlived(v: &crate::json::Value, now: Timestamp) -> (r: bool)
    ensures
        r == outlived(v.model(), now),
{
    match v.get_str("valid_until") {
        Some(t) => match parse_instant(t) {
            Some(end) => end.is_before(now),
            None => false,
        },
        None => false,
    }
}

/// Whether a record is valid no more.
pub fn is_expired_record(record: &Record, now: Timestamp) -> (r: bool)
    ensures
        r == expired(record@, now),
{
    match &record.metadata {
        Some(m) => is_outlived(m, now) || is_outlived(&record.data, now),
        None => is_outlived(&record.data, now),
    }
}

/// A record is valid no more once the instant that its data names has passed, or the one
/// that its metadata names, and never again after that. One that names none is always valid.
pub proof fn records_expire_for_good(
    record: &Record,
    now: Timestamp,
    r: bool,
    later: Timestamp,
    s: bool,
)
    requires
        call_ensures(is_expired_record, (record, now), r),
        call_ensures(is_expired_record, (record, later), s),
    ensures
        r && !later.before(now) ==> s,
        record.data.model().member("valid_until"@) matches Some(crate::json::Json::Text(t)) ==> (
        instant_of(t) matches Some(end) ==> ((end.secs < now.secs || end.secs == now.secs
            && end.nanos < now.nanos) ==> r)),
        record.metadata matches Some(m) ==> (m.model().member("valid_until"@) matches Some(
            crate::json::Json::Text(t),
        ) ==> (instant_of(t) matches Some(end) ==> ((end.secs < now.secs || end.secs == now.secs
            && end.nanos < now.nanos) ==> r))),
        record.metadata is None && record.data.model().member("valid_until"@) is None ==> !r,
        record.metadata is None ==> (record.data.model().member("valid_until"@) matches Some(
            crate::json::Json::Text(t),
        ) ==> (instant_of(t) matches Some(end) ==> (!(end.secs < now.secs || end.secs == now.secs
            && end.nanos < now.nanos) ==> !r))),
{
}

/// A record is superseded where its data says so, or else where its metadata does.
pub proof fn data_and_metadata_supersede(record: &Record, r: bool)
    requires
        call_ensures(is_superseded_record, (record,), r),
    ensures
        record.data.model().member("_superseded"@) == Some(crate::json::Json::Bool(true)) ==> r,
        record.metadata matches Some(m) ==> (m.model().member("superseded"@) == Some(
            crate::json::Json::Bool(true),
        ) ==> r),
        r && record.metadata is None ==> record.data.model().member("_superseded"@) == Some(
            crate::json::Json::Bool(true),
        ),
        r && record.data.model().member("_superseded"@) is None ==> record.metadata is Some,
{
}

} // verus!
