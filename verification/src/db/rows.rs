//! Finding rows of internal tables by what they hold.

use crate::json::Json;
use crate::record::{ids_view, Record, RecordId, RecordView};
use crate::text::{collected, same_text};
use vstd::prelude::*;

verus! {

/// Records, in the model.
pub open spec fn records_view(r: Seq<Record>) -> Seq<RecordView> {
    r.map_values(|x: Record| x@)
}

/// Whether the member `key` of a row is the text.
pub open spec fn row_is(row: RecordView, key: Seq<char>, text: Seq<char>) -> bool {
    row.data.text_member(key) == Some(text)
}

/// The place of the first row whose member `key` is the text, or the number of rows.
pub open spec fn first_row(rows: Seq<RecordView>, key: Seq<char>, text: Seq<char>) -> nat
    decreases rows.len(),
{
    if rows.len() == 0 || row_is(rows[0], key, text) {
        0
    } else {
        1 + first_row(rows.drop_first(), key, text)
    }
}

/// Whether the member `key` of a row is the text.
pub fn is_row(row: &Record, key: &str, text: &str) -> (r: bool)
    ensures
        r == row_is(row@, key@, text@),
{
    match row.data.get_str(key) {
        Some(t) => same_text(t, text),
        None => false,
    }
}

/// The first row whose member `key` is the text.
pub fn find_row(rows: &Vec<Record>, key: &str, text: &str) -> (r: Option<usize>)
    ensures
        match r {
            Some(i) => i < rows@.len() && i == first_row(records_view(rows@), key@, text@) && row_is(
                rows@[i as int]@,
                key@,
                text@,
            ),
            None => first_row(records_view(rows@), key@, text@) == rows@.len(),
        },
{
    let ghost all = records_view(rows@);
    let mut i: usize = 0;
    assert(all.skip(0) =~= all);
    while i < rows.len()
        invariant
            i <= rows@.len(),
            all == records_view(rows@),
            first_row(all, key@, text@) == i + first_row(all.skip(i as int), key@, text@),
        decreases rows@.len() - i,
    {
        assert(all.skip(i as int).drop_first() =~= all.skip(i + 1));
        if is_row(&rows[i], key, text) {
            return Some(i);
        }
        i += 1;
    }
    None
}

/// The id of a row whose member `key` is the text.
pub open spec fn id_of_row(row: RecordView, key: Seq<char>, text: Seq<char>) -> Option<Seq<char>> {
    if row_is(row, key, text) {
        Some(row.id)
    } else {
        None
    }
}

/// A copy of an id at the end of a list.
pub fn push_id(ids: &mut Vec<RecordId>, id: &RecordId)
    ensures
        ids_view(final(ids)@) == ids_view(old(ids)@).push(id@),
{
    ids.push(id.copy());
    assert(ids_view(ids@) =~= ids_view(old(ids)@).push(id@));
}

/// The ids of the rows whose member `key` is the text.
pub fn ids_of_rows(rows: &Vec<Record>, key: &str, text: &str) -> (r: Vec<RecordId>)
    ensures
        ids_view(r@) == collected(
            records_view(rows@),
            |x: RecordView| id_of_row(x, key@, text@),
        ),
{
    let mut out: Vec<RecordId> = Vec::new();
    let mut i: usize = 0;
    let ghost all = records_view(rows@);
    let ghost f = |x: RecordView| id_of_row(x, key@, text@);
    assert(ids_view(out@) =~= collected(all.take(0), f));
    while i < rows.len()
        invariant
            i <= rows@.len(),
            all == records_view(rows@),
            f == |x: RecordView| id_of_row(x, key@, text@),
            ids_view(out@) == collected(all.take(i as int), f),
        decreases rows@.len() - i,
    {
        proof {
            assert(all.take(i + 1).drop_last() =~= all.take(i as int));
            assert(all.take(i + 1).last() == rows@[i as int]@);
        }
        if is_row(&rows[i], key, text) {
            push_id(&mut out, &rows[i].id);
        }
        i += 1;
    }
    assert(all.take(i as int) =~= all);
    out
}

/// Where the first row with a text stands.
proof fn lemma_first_row(rows: Seq<RecordView>, key: Seq<char>, text: Seq<char>)
    ensures
        first_row(rows, key, text) <= rows.len(),
        forall|i: int| 0 <= i < first_row(rows, key, text) ==> !row_is(#[trigger] rows[i], key, text),
        first_row(rows, key, text) < rows.len() ==> row_is(
            rows[first_row(rows, key, text) as int],
            key,
            text,
        ),
    decreases rows.len(),
{
    if rows.len() > 0 && !row_is(rows[0], key, text) {
        let d = rows.drop_first();
        lemma_first_row(d, key, text);
        assert forall|i: int| 0 <= i < first_row(rows, key, text) implies !row_is(
            #[trigger] rows[i],
            key,
            text,
        ) by {
            if i > 0 {
                assert(d[i - 1] == rows[i]);
            }
        }
    }
}

/// The row that is found holds the text under the key, and none before it does; where none
/// is found, none does.
pub proof fn the_first_row_is_found(rows: &Vec<Record>, key: &str, text: &str, r: Option<usize>)
    requires
        call_ensures(find_row, (rows, key, text), r),
    ensures
        r matches Some(i) ==> i < rows@.len() && rows@[i as int].data.model().member(key@) == Some(
            Json::Text(text@),
        ) && forall|j: int|
            0 <= j < i ==> (#[trigger] rows@[j]).data.model().member(key@) != Some(
                Json::Text(text@),
            ),
        r is None ==> forall|j: int|
            0 <= j < rows@.len() ==> (#[trigger] rows@[j]).data.model().member(key@) != Some(
                Json::Text(text@),
            ),
{
    let v = records_view(rows@);
    lemma_first_row(v, key@, text@);
    assert forall|j: int| 0 <= j < v.len() implies row_is(#[trigger] v[j], key@, text@) == (
    rows@[j].data.model().member(key@) == Some(Json::Text(text@))) by {}
    if let Some(i) = r {
        assert forall|j: int| 0 <= j < i implies (#[trigger] rows@[j]).data.model().member(key@)
            != Some(Json::Text(text@)) by {
            assert(!row_is(v[j], key@, text@));
        }
    } else {
        assert forall|j: int| 0 <= j < rows@.len() implies (
        #[trigger] rows@[j]).data.model().member(key@) != Some(Json::Text(text@)) by {
            assert(!row_is(v[j], key@, text@));
        }
    }
}

/// The ids that are found are those of the rows that hold the text under the key.
pub proof fn all_rows_with_a_text_are_found(
    rows: &Vec<Record>,
    key: &str,
    text: &str,
    r: Vec<RecordId>,
    i: int,
)
    requires
        call_ensures(ids_of_rows, (rows, key, text), r),
        0 <= i < rows@.len(),
    ensures
        rows@[i].data.model().member(key@) == Some(Json::Text(text@)) ==> ids_view(r@).contains(
            rows@[i].id@,
        ),
        ids_view(r@).contains(rows@[i].id@) ==> exists|j: int|
            0 <= j < rows@.len() && (#[trigger] rows@[j]).id@ == rows@[i].id@
                && rows@[j].data.model().member(key@) == Some(Json::Text(text@)),
{
    let v = records_view(rows@);
    let f = |x: RecordView| id_of_row(x, key@, text@);
    let id = rows@[i].id@;
    crate::text::collected_values_come_from_items(v, f, id);
    assert(v[i].id == id);
    if row_is(v[i], key@, text@) {
        assert(f(v[i]) == Some(id));
    }
    if ids_view(r@).contains(id) {
        let j = choose|j: int| 0 <= j < v.len() && f(#[trigger] v[j]) == Some(id);
        assert(rows@[j].id@ == id);
    }
}

} // verus!
