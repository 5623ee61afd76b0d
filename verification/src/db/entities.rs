//! Names, merges and bridges of entities, and the defaults of consent.

use super::rows::{
    find_row, first_row, ids_of_rows, id_of_row, is_row, records_view, row_is,
};
use super::Axil;
use crate::error::{AxilError, Result};
use crate::json::{Json, Value};
use crate::plugin::EdgeInfo;
use crate::record::{ids_view, Record, RecordId, RecordView};
use crate::text::{collected, is_blank, join4, same_text, starts_with};
use crate::time::{rfc3339_text, text_of_instant, Timestamp};
use vstd::hash_set::StringHashSet;
use vstd::prelude::*;

verus! {

/// Whether a row says that the alias stands for the canonical id in the scope.
pub open spec fn alias_row(
    row: RecordView,
    alias: Seq<char>,
    scope: Seq<char>,
    canonical: Seq<char>,
) -> bool {
    row_is(row, "alias"@, alias) && row_is(row, "scope"@, scope) && row_is(
        row,
        "canonical_id"@,
        canonical,
    )
}

/// The place of the first row that says what an alias stands for in a scope, or the
/// number of rows.
pub open spec fn alias_place(
    rows: Seq<RecordView>,
    alias: Seq<char>,
    scope: Seq<char>,
    canonical: Seq<char>,
) -> nat
    decreases rows.len(),
{
    if rows.len() == 0 || alias_row(rows[0], alias, scope, canonical) {
        0
    } else {
        1 + alias_place(rows.drop_first(), alias, scope, canonical)
    }
}

/// What a row says that an alias stands for in a scope.
pub open spec fn alias_meaning(row: RecordView, alias: Seq<char>, scope: Seq<char>) -> Option<
    Seq<char>,
> {
    if row_is(row, "alias"@, alias) && row_is(row, "scope"@, scope) {
        row.data.text_member("canonical_id"@)
    } else {
        None
    }
}

/// What an alias stands for in a scope, by the first row that says it.
pub open spec fn scoped_meaning(
    rows: Seq<RecordView>,
    alias: Seq<char>,
    scope: Seq<char>,
) -> Option<Seq<char>>
    decreases rows.len(),
{
    if rows.len() == 0 {
        None
    } else if alias_meaning(rows[0], alias, scope) is Some {
        alias_meaning(rows[0], alias, scope)
    } else {
        scoped_meaning(rows.drop_first(), alias, scope)
    }
}

/// What an alias stands for in the first of the scopes that knows it.
pub open spec fn resolved_alias(
    rows: Seq<RecordView>,
    alias: Seq<char>,
    scopes: Seq<String>,
) -> Option<Seq<char>>
    decreases scopes.len(),
{
    if scopes.len() == 0 {
        None
    } else if scoped_meaning(rows, alias, scopes[0]@) is Some {
        scoped_meaning(rows, alias, scopes[0]@)
    } else {
        resolved_alias(rows, alias, scopes.drop_first())
    }
}

/// What the row of an alias holds.
pub open spec fn alias_json(alias: Seq<char>, scope: Seq<char>, canonical: Seq<char>) -> Json {
    Json::Object(Map::empty()).with_member("alias"@, Json::Text(alias)).with_member(
        "scope"@,
        Json::Text(scope),
    ).with_member("canonical_id"@, Json::Text(canonical))
}

/// What registering an alias does.
#[derive(Debug)]
pub enum AliasStep {
    /// The row is there.
    Known(RecordId),
    /// A row with this data is made.
    Insert(Value),
}

impl Axil {
    /// Registers what an alias stands for in a scope. A second time changes
    /// nothing.
    pub fn register_entity_alias(
        rows: &Vec<Record>,
        alias: &str,
        scope: &str,
        canonical: &str,
    ) -> (r: AliasStep)
        ensures
            ({
                let all = records_view(rows@);
                let at = alias_place(all, alias@, scope@, canonical@);
                match r {
                    AliasStep::Known(id) => at < all.len() && id@ == all[at as int].id,
                    AliasStep::Insert(data) => at == all.len() && data.model() == alias_json(
                        alias@,
                        scope@,
                        canonical@,
                    ),
                }
            }),
    {
        let ghost all = records_view(rows@);
        let mut i: usize = 0;
        assert(all.skip(0) =~= all);
        while i < rows.len()
            invariant
                i <= rows@.len(),
                all == records_view(rows@),
                alias_place(all, alias@, scope@, canonical@) == i + alias_place(
                    all.skip(i as int),
                    alias@,
                    scope@,
                    canonical@,
                ),
            decreases rows@.len() - i,
        {
            assert(all.skip(i as int).drop_first() =~= all.skip(i + 1));
            if is_row(&rows[i], "alias", alias) && is_row(&rows[i], "scope", scope) && is_row(
                &rows[i],
                "canonical_id",
                canonical,
            ) {
                return AliasStep::Known(rows[i].id.copy());
            }
            i += 1;
        }
        let mut data = Value::object();
        data.set("alias", Value::text(alias));
        data.set("scope", Value::text(scope));
        data.set("canonical_id", Value::text(canonical));
        AliasStep::Insert(data)
    }

    /// Resolves an alias, from the narrowest scope to the widest.
    pub fn resolve_entity_alias(rows: &Vec<Record>, alias: &str, scopes: &Vec<String>) -> (r:
        Option<String>)
        ensures
            match r {
                Some(c) => resolved_alias(records_view(rows@), alias@, scopes@) == Some(c@),
                None => resolved_alias(records_view(rows@), alias@, scopes@) is None,
            },
    {
        let ghost all = records_view(rows@);
        let mut k: usize = 0;
        assert(scopes@.skip(0) =~= scopes@);
        while k < scopes.len()
            invariant
                k <= scopes@.len(),
                all == records_view(rows@),
                resolved_alias(all, alias@, scopes@) == resolved_alias(
                    all,
                    alias@,
                    scopes@.skip(k as int),
                ),
            decreases scopes@.len() - k,
        {
            assert(scopes@.skip(k as int).drop_first() =~= scopes@.skip(k + 1));
            let scope = scopes[k].as_str();
            let mut i: usize = 0;
            assert(all.skip(0) =~= all);
            while i < rows.len()
                invariant
                    i <= rows@.len(),
                    k < scopes@.len(),
                    all == records_view(rows@),
                    scope@ == scopes@[k as int]@,
                    resolved_alias(all, alias@, scopes@) == resolved_alias(
                        all,
                        alias@,
                        scopes@.skip(k as int),
                    ),
                    scoped_meaning(all, alias@, scope@) == scoped_meaning(
                        all.skip(i as int),
                        alias@,
                        scope@,
                    ),
                decreases rows@.len() - i,
            {
                assert(all.skip(i as int).drop_first() =~= all.skip(i + 1));
                if is_row(&rows[i], "alias", alias) && is_row(&rows[i], "scope", scope) {
                    if let Some(c) = rows[i].data.get_str("canonical_id") {
                        return Some(c.to_owned());
                    }
                }
                i += 1;
            }
            k += 1;
        }
        None
    }
}

/// Registering an alias twice makes one row: once it is stored, it is known.
pub proof fn aliases_are_registered_once(
    rows: Seq<RecordView>,
    row: RecordView,
    alias: Seq<char>,
    scope: Seq<char>,
    canonical: Seq<char>,
)
    requires
        row.data == alias_json(alias, scope, canonical),
    ensures
        alias_place(rows.push(row), alias, scope, canonical) < rows.len() + 1,
    decreases rows.len(),
{
    let all = rows.push(row);
    if rows.len() == 0 {
        reveal_strlit("alias");
        reveal_strlit("scope");
        reveal_strlit("canonical_id");
        assert("alias"@[0] != "scope"@[0]);
        assert("alias"@.len() != "canonical_id"@.len());
        assert("scope"@.len() != "canonical_id"@.len());
        assert(alias_row(all[0], alias, scope, canonical));
    } else {
        aliases_are_registered_once(rows.drop_first(), row, alias, scope, canonical);
        assert(all.drop_first() =~= rows.drop_first().push(row));
    }
}

/// A row with new data.
#[derive(Debug)]
pub struct RowUpdate {
    pub id: RecordId,
    pub data: Value,
}

/// A row with new data, in the model.
#[verifier::ext_equal]
pub struct RowUpdateView {
    pub id: Seq<char>,
    pub data: Json,
}

impl View for RowUpdate {
    type V = RowUpdateView;

    open spec fn view(&self) -> RowUpdateView {
        RowUpdateView { id: self.id@, data: self.data.model() }
    }
}

/// Rows with new data, in the model.
pub open spec fn updates_view(u: Seq<RowUpdate>) -> Seq<RowUpdateView> {
    u.map_values(|x: RowUpdate| x@)
}

/// Adds a row with new data.
fn push_update(updates: &mut Vec<RowUpdate>, id: &RecordId, data: Value)
    ensures
        updates_view(final(updates)@) == updates_view(old(updates)@).push(
            RowUpdateView { id: id@, data: data.model() },
        ),
{
    updates.push(RowUpdate { id: id.copy(), data });
    assert(updates_view(updates@) =~= updates_view(old(updates)@).push(
        RowUpdateView { id: id@, data: data.model() },
    ));
}

/// The alias that a row holds, where it stands for `from`, standing for `to`.
pub open spec fn moved_alias(row: RecordView, from: Seq<char>, to: Seq<char>) -> Option<
    RowUpdateView,
> {
    if row_is(row, "canonical_id"@, from) {
        Some(
            RowUpdateView {
                id: row.id,
                data: row.data.with_member("canonical_id"@, Json::Text(to)),
            },
        )
    } else {
        None
    }
}

/// What a merge of two entities starts with: their rows, the aliases that move, and
/// the data of the row that is merged away.
#[derive(Debug)]
pub struct MergePlan {
    pub from: RecordId,
    pub to: RecordId,
    pub aliases: Vec<RowUpdate>,
    pub tombstone: Value,
}

/// What becomes of an edge of an entity that is merged away. In every case the edge
/// itself goes.
#[derive(Debug)]
pub enum EdgeMove {
    /// Nothing takes its place.
    Drop,
    /// This edge takes its place.
    Replace { from: RecordId, edge_type: String, to: RecordId, properties: Value },
}

impl EdgeMove {
    /// Whether an edge between the two records takes the place of an edge, with the type
    /// and the properties that the edge had.
    pub open spec fn carries(self, e: EdgeInfo, from: Seq<char>, to: Seq<char>) -> bool {
        self matches EdgeMove::Replace { from: f, edge_type, to: t, properties } && f@ == from && t@
            == to && edge_type@ == e.edge_type@ && properties.model() == e.properties.model()
    }

    /// Whether the move is the one for an edge that led to the entity: an edge from
    /// the entity to itself goes, any other leads to the new entity.
    pub open spec fn moves_in(self, e: EdgeInfo, from: Seq<char>, to: Seq<char>) -> bool {
        if e.from@ == from {
            self is Drop
        } else {
            self.carries(e, e.from@, to)
        }
    }

    /// Whether the move is the one for an edge that led away from the entity.
    pub open spec fn moves_out(self, e: EdgeInfo, to: Seq<char>) -> bool {
        self.carries(e, to, e.to@)
    }

    /// The move of an edge to other ends.
    fn to_ends(e: &EdgeInfo, from: &RecordId, to: &RecordId) -> (r: EdgeMove)
        ensures
            r.carries(*e, from@, to@),
    {
        EdgeMove::Replace {
            from: from.copy(),
            edge_type: e.edge_type.clone(),
            to: to.copy(),
            properties: e.properties.copy(),
        }
    }
}

/// How many moves make an edge.
pub open spec fn replaced(moves: Seq<EdgeMove>) -> nat
    decreases moves.len(),
{
    if moves.len() == 0 {
        0
    } else {
        replaced(moves.drop_last()) + if moves.last() is Replace {
            1nat
        } else {
            0
        }
    }
}

/// How many moves make an edge.
fn count_replaced(moves: &Vec<EdgeMove>) -> (r: usize)
    ensures
        r == replaced(moves@),
        r <= moves@.len(),
{
    let mut n: usize = 0;
    let mut i: usize = 0;
    while i < moves.len()
        invariant
            n <= i <= moves@.len(),
            n == replaced(moves@.take(i as int)),
        decreases moves@.len() - i,
    {
        assert(moves@.take(i + 1).drop_last() =~= moves@.take(i as int));
        if let EdgeMove::Replace { .. } = &moves[i] {
            n += 1;
        }
        i += 1;
    }
    assert(moves@.take(i as int) =~= moves@);
    n
}

impl Axil {
    /// Plans a merge of the entity `from` into the entity `to`: there is nothing to
    /// do where they are one, and both have to be there.
    pub fn merge_entities(
        rows: &Vec<Record>,
        aliases: &Vec<Record>,
        from: &str,
        to: &str,
    ) -> (r: Result<Option<MergePlan>>)
        ensures
            ({
                let all = records_view(rows@);
                let a = first_row(all, "canonical_id"@, from@);
                let b = first_row(all, "canonical_id"@, to@);
                match r {
                    Ok(None) => from@ == to@,
                    Ok(Some(plan)) => {
                        &&& from@ != to@ && a < all.len() && b < all.len()
                        &&& plan.from@ == all[a as int].id
                        &&& plan.to@ == all[b as int].id
                        &&& updates_view(plan.aliases@) == collected(
                            records_view(aliases@),
                            |x: RecordView| moved_alias(x, from@, to@),
                        )
                        &&& plan.tombstone.model() == all[a as int].data.with_member(
                            "_merged_into"@,
                            Json::Text(to@),
                        )
                    },
                    Err(e) => {
                        &&& from@ != to@ && (a == all.len() || b == all.len())
                        &&& e is NotFound
                        &&& e->NotFound_0@ == "entity merge: canonical_id not found: from="@ + from@
                            + ", to="@ + to@
                    },
                }
            }),
    {
        if same_text(from, to) {
            return Ok(None);
        }
        let found = (find_row(rows, "canonical_id", from), find_row(rows, "canonical_id", to));
        let (a, b) = match found {
            (Some(a), Some(b)) => (a, b),
            _ => {
                return Err(
                    AxilError::NotFound(
                        join4("entity merge: canonical_id not found: from=", from, ", to=", to),
                    ),
                );
            },
        };
        let mut moved: Vec<RowUpdate> = Vec::new();
        let mut i: usize = 0;
        let ghost all = records_view(aliases@);
        let ghost f = |x: RecordView| moved_alias(x, from@, to@);
        assert(updates_view(moved@) =~= collected(all.take(0), f));
        while i < aliases.len()
            invariant
                i <= aliases@.len(),
                all == records_view(aliases@),
                f == |x: RecordView| moved_alias(x, from@, to@),
                updates_view(moved@) == collected(all.take(i as int), f),
            decreases aliases@.len() - i,
        {
            proof {
                assert(all.take(i + 1).drop_last() =~= all.take(i as int));
                assert(all.take(i + 1).last() == aliases@[i as int]@);
            }
            if is_row(&aliases[i], "canonical_id", from) {
                let mut data = aliases[i].data.copy();
                data.set("canonical_id", Value::text(to));
                push_update(&mut moved, &aliases[i].id, data);
            }
            i += 1;
        }
        assert(all.take(i as int) =~= all);
        let mut tombstone = rows[a].data.copy();
        tombstone.set("_merged_into", Value::text(to));
        Ok(
            Some(
                MergePlan {
                    from: rows[a].id.copy(),
                    to: rows[b].id.copy(),
                    aliases: moved,
                    tombstone,
                },
            ),
        )
    }

    /// What becomes of the edges that led to an entity that is merged away.
    pub fn merge_incoming(edges: &Vec<EdgeInfo>, from: &RecordId, to: &RecordId) -> (r: Vec<
        EdgeMove,
    >)
        ensures
            r@.len() == edges@.len(),
            forall|i: int|
                0 <= i < edges@.len() ==> (#[trigger] r@[i]).moves_in(edges@[i], from@, to@),
    {
        let mut out: Vec<EdgeMove> = Vec::new();
        let mut i: usize = 0;
        while i < edges.len()
            invariant
                i <= edges@.len(),
                out@.len() == i,
                forall|j: int| 0 <= j < i ==> (#[trigger] out@[j]).moves_in(edges@[j], from@, to@),
            decreases edges@.len() - i,
        {
            if edges[i].from.same(from) {
                out.push(EdgeMove::Drop);
            } else {
                out.push(EdgeMove::to_ends(&edges[i], &edges[i].from, to));
            }
            i += 1;
        }
        out
    }

    /// What becomes of the edges that led away from an entity that is merged away,
    /// once those from it to itself are gone.
    pub fn merge_outgoing(edges: &Vec<EdgeInfo>, to: &RecordId) -> (r: Vec<EdgeMove>)
        ensures
            r@.len() == edges@.len(),
            forall|i: int| 0 <= i < edges@.len() ==> (#[trigger] r@[i]).moves_out(edges@[i], to@),
    {
        let mut out: Vec<EdgeMove> = Vec::new();
        let mut i: usize = 0;
        while i < edges.len()
            invariant
                i <= edges@.len(),
                out@.len() == i,
                forall|j: int| 0 <= j < i ==> (#[trigger] out@[j]).moves_out(edges@[j], to@),
            decreases edges@.len() - i,
        {
            out.push(EdgeMove::to_ends(&edges[i], to, &edges[i].to));
            i += 1;
        }
        out
    }

    /// How much a merge moves: the aliases, and the edges that took the place of others.
    pub fn merged_total(
        aliases: &Vec<RowUpdate>,
        incoming: &Vec<EdgeMove>,
        outgoing: &Vec<EdgeMove>,
    ) -> (r: usize)
        requires
            aliases@.len() + replaced(incoming@) + replaced(outgoing@) <= usize::MAX,
        ensures
            r == aliases@.len() + replaced(incoming@) + replaced(outgoing@),
    {
        let edges_in = count_replaced(incoming);
        let edges_out = count_replaced(outgoing);
        aliases.len() + edges_in + edges_out
    }
}

/// A merge moves every edge that led to the entity and was not its own, and every edge
/// that led away from it.
pub proof fn merges_count_what_they_move(
    incoming: Seq<EdgeInfo>,
    arriving: Seq<EdgeMove>,
    outgoing: Seq<EdgeInfo>,
    leaving: Seq<EdgeMove>,
    from: Seq<char>,
    to: Seq<char>,
)
    requires
        arriving.len() == incoming.len(),
        forall|i: int|
            0 <= i < incoming.len() ==> (#[trigger] arriving[i]).moves_in(incoming[i], from, to),
        leaving.len() == outgoing.len(),
        forall|i: int|
            0 <= i < outgoing.len() ==> (#[trigger] leaving[i]).moves_out(outgoing[i], to),
    ensures
        replaced(arriving) == incoming.filter(|e: EdgeInfo| e.from@ != from).len(),
        replaced(leaving) == outgoing.len(),
    decreases incoming.len() + outgoing.len(),
{
    reveal(Seq::filter);
    if incoming.len() > 0 {
        assert(arriving.last().moves_in(incoming.last(), from, to));
        merges_count_what_they_move(
            incoming.drop_last(),
            arriving.drop_last(),
            outgoing,
            leaving,
            from,
            to,
        );
    } else if outgoing.len() > 0 {
        assert(leaving.last().moves_out(outgoing.last(), to));
        merges_count_what_they_move(
            incoming,
            arriving,
            outgoing.drop_last(),
            leaving.drop_last(),
            from,
            to,
        );
    }
}

/// No edge that a merge makes leads to or from the entity that is merged away.
pub proof fn merged_entities_keep_no_edges(
    m: EdgeMove,
    e: EdgeInfo,
    from: Seq<char>,
    to: Seq<char>,
)
    requires
        from != to,
    ensures
        m.moves_in(e, from, to) ==> (m matches EdgeMove::Replace { from: f, to: t, .. } ==> f@
            != from && t@ != from),
        m.moves_out(e, to) && e.to@ != from ==> (m matches EdgeMove::Replace { from: f, to: t, .. }
            ==> f@ != from && t@ != from),
{
}

/// The canonical id that a row without one gets: its name.
pub open spec fn migrated(row: RecordView) -> Option<RowUpdateView> {
    if row.data.member("canonical_id"@) is Some {
        None
    } else {
        match row.data.text_member("name"@) {
            Some(name) => Some(
                RowUpdateView {
                    id: row.id,
                    data: row.data.with_member("canonical_id"@, Json::Text(name)),
                },
            ),
            None => None,
        }
    }
}

/// Whether an entity goes to the workspace: it has a canonical id that is not
/// provisional.
pub open spec fn published(r: RecordView) -> Option<Seq<char>> {
    if r.table == "_entities"@ {
        match r.data.text_member("canonical_id"@) {
            Some(c) => if c.len() == 0 || "provisional:"@.is_prefix_of(c) {
                None
            } else {
                Some(c)
            },
            None => None,
        }
    } else {
        None
    }
}

/// What tells bridges apart: the local entity, and the workspace, the member and the
/// entity at the other end.
pub type BridgeId = (Seq<char>, Seq<char>, Seq<char>, Seq<char>);

/// What tells bridges apart.
pub open spec fn bridge_id(bridge: Json) -> Option<BridgeId> {
    match (
        bridge.text_member("local_canonical"@),
        bridge.text_member("remote_workspace_id"@),
        bridge.text_member("remote_member_id"@),
        bridge.text_member("remote_canonical"@),
    ) {
        (Some(lc), Some(rws), Some(rm), Some(rc)) => Some((lc, rws, rm, rc)),
        _ => None,
    }
}

/// The four parts that tell bridges apart, where all of them are there.
pub fn bridge_key(bridge: &Value) -> (r: Option<(&str, &str, &str, &str)>)
    ensures
        match r {
            Some(k) => bridge_id(bridge.model()) == Some((k.0@, k.1@, k.2@, k.3@)),
            None => bridge_id(bridge.model()) is None,
        },
{
    let lc = bridge.get_str("local_canonical");
    let rws = bridge.get_str("remote_workspace_id");
    let rm = bridge.get_str("remote_member_id");
    let rc = bridge.get_str("remote_canonical");
    match (lc, rws, rm, rc) {
        (Some(lc), Some(rws), Some(rm), Some(rc)) => Some((lc, rws, rm, rc)),
        _ => None,
    }
}

/// The id of a row that a bridge takes the place of.
pub open spec fn replaced_bridge(row: RecordView, key: BridgeId) -> Option<Seq<char>> {
    if bridge_id(row.data) == Some(key) {
        Some(row.id)
    } else {
        None
    }
}

/// Whether a bridge is listed.
pub open spec fn bridge_listed(
    row: RecordView,
    local: Option<Seq<char>>,
    member: Option<Seq<char>>,
) -> bool {
    &&& local matches Some(l) ==> row_is(row, "local_canonical"@, l)
    &&& member matches Some(m) ==> row_is(row, "remote_member_id"@, m)
}

/// Whether the local side of a bridge is an entity that is known.
pub open spec fn bridge_holds(row: RecordView, known: Set<Seq<char>>) -> bool {
    row.data.text_member("local_canonical"@) matches Some(l) && known.contains(l)
}

/// The canonical ids of entity rows.
pub open spec fn canonical_set(rows: Seq<RecordView>) -> Set<Seq<char>> {
    Set::new(
        |c: Seq<char>|
            exists|i: int|
                0 <= i < rows.len() && (#[trigger] rows[i]).data.text_member("canonical_id"@)
                    == Some(c),
    )
}

/// The bridge whose mark has to change, with the mark.
pub open spec fn remarked(row: RecordView, known: Set<Seq<char>>) -> Option<RowUpdateView> {
    let dangling = !bridge_holds(row, known);
    if dangling == row.data.flag_member("dangling"@) {
        None
    } else {
        Some(
            RowUpdateView {
                id: row.id,
                data: row.data.with_member("dangling"@, Json::Bool(dangling)),
            },
        )
    }
}

/// What a look at the bridges found: those that hold, those that do not, and the
/// marks that have to change.
#[derive(Debug)]
pub struct BridgeReport {
    pub verified: usize,
    pub dangling: usize,
    pub updates: Vec<RowUpdate>,
}

impl Axil {
    /// The rows without a canonical id, with the one that they get.
    pub fn migrate_entity_canonical_id(rows: &Vec<Record>) -> (r: Vec<RowUpdate>)
        ensures
            updates_view(r@) == collected(records_view(rows@), |x: RecordView| migrated(x)),
    {
        let mut out: Vec<RowUpdate> = Vec::new();
        let mut i: usize = 0;
        let ghost all = records_view(rows@);
        let ghost f = |x: RecordView| migrated(x);
        assert(updates_view(out@) =~= collected(all.take(0), f));
        while i < rows.len()
            invariant
                i <= rows@.len(),
                all == records_view(rows@),
                f == |x: RecordView| migrated(x),
                updates_view(out@) == collected(all.take(i as int), f),
            decreases rows@.len() - i,
        {
            let row = &rows[i];
            proof {
                assert(all.take(i + 1).drop_last() =~= all.take(i as int));
                assert(all.take(i + 1).last() == row@);
            }
            let known = match row.data.get("canonical_id") {
                Some(_) => true,
                None => false,
            };
            if !known {
                if let Some(name) = row.data.get_str("name") {
                    let mut data = row.data.copy();
                    let canonical = crate::entity::natural_canonical_id(name);
                    data.set("canonical_id", Value::text(canonical.as_str()));
                    push_update(&mut out, &row.id, data);
                }
            }
            i += 1;
        }
        assert(all.take(i as int) =~= all);
        out
    }

    /// Whether the canonical ids were given out already.
    pub fn entity_migration_done(rows: &Vec<Record>, marker: &str) -> (r: bool)
        ensures
            r == (first_row(records_view(rows@), "name"@, marker@) < rows@.len()),
    {
        match find_row(rows, "name", marker) {
            Some(_) => true,
            None => false,
        }
    }

    /// The canonical id that goes to the workspace, where the record is an entity
    /// that has one.
    pub fn publish_canonical_for_record(record: &Record) -> (r: Option<String>)
        ensures
            match r {
                Some(c) => published(record@) == Some(c@),
                None => published(record@) is None,
            },
    {
        if !same_text(record.table.as_str(), "_entities") {
            return None;
        }
        match record.data.get_str("canonical_id") {
            Some(c) => if is_blank(c) || starts_with(c, "provisional:") {
                None
            } else {
                Some(c.to_owned())
            },
            None => None,
        }
    }

    /// The rows that a bridge takes the place of. A bridge needs all parts of its
    /// key.
    pub fn upsert_bridge(bridge: &Value, rows: &Vec<Record>) -> (r: Result<Vec<RecordId>>)
        ensures
            match r {
                Ok(ids) => bridge_id(bridge.model()) matches Some(k) && ids_view(ids@) == collected(
                    records_view(rows@),
                    |x: RecordView| replaced_bridge(x, k),
                ),
                Err(e) => bridge_id(bridge.model()) is None && e is InvalidQuery
                    && e->InvalidQuery_0@
                    == "bridge must include local_canonical + remote_* fields"@,
            },
    {
        let key = match bridge_key(bridge) {
            Some(k) => k,
            None => {
                return Err(
                    AxilError::InvalidQuery(
                        "bridge must include local_canonical + remote_* fields".to_owned(),
                    ),
                );
            },
        };
        let mut out: Vec<RecordId> = Vec::new();
        let mut i: usize = 0;
        let ghost all = records_view(rows@);
        let ghost id = (key.0@, key.1@, key.2@, key.3@);
        let ghost f = |x: RecordView| replaced_bridge(x, id);
        assert(ids_view(out@) =~= collected(all.take(0), f));
        while i < rows.len()
            invariant
                i <= rows@.len(),
                all == records_view(rows@),
                id == (key.0@, key.1@, key.2@, key.3@),
                f == |x: RecordView| replaced_bridge(x, id),
                ids_view(out@) == collected(all.take(i as int), f),
            decreases rows@.len() - i,
        {
            proof {
                assert(all.take(i + 1).drop_last() =~= all.take(i as int));
                assert(all.take(i + 1).last() == rows@[i as int]@);
            }
            if let Some(k) = bridge_key(&rows[i].data) {
                if same_text(k.0, key.0) && same_text(k.1, key.1) && same_text(k.2, key.2)
                    && same_text(k.3, key.3) {
                    super::rows::push_id(&mut out, &rows[i].id);
                }
            }
            i += 1;
        }
        assert(all.take(i as int) =~= all);
        Ok(out)
    }

    /// Whether a bridge is listed when asked for those of a local entity, of a
    /// remote member, or both.
    pub fn list_bridges(row: &Record, local: Option<&str>, member: Option<&str>) -> (r: bool)
        ensures
            r == bridge_listed(
                row@,
                super::link::hint_view(local),
                super::link::hint_view(member),
            ),
    {
        if let Some(l) = local {
            if !is_row(row, "local_canonical", l) {
                return false;
            }
        }
        if let Some(m) = member {
            if !is_row(row, "remote_member_id", m) {
                return false;
            }
        }
        true
    }

    /// Looks at every bridge: its local side is an entity that is known, or it
    /// dangles.
    pub fn verify_bridges(bridges: &Vec<Record>, entities: &Vec<Record>) -> (r: BridgeReport)
        ensures
            ({
                let known = canonical_set(records_view(entities@));
                let all = records_view(bridges@);
                &&& r.verified == all.filter(|x: RecordView| bridge_holds(x, known)).len()
                &&& r.verified + r.dangling == all.len()
                &&& updates_view(r.updates@) == collected(
                    all,
                    |x: RecordView| remarked(x, known),
                )
            }),
    {
        let mut ids = StringHashSet::new();
        let mut k: usize = 0;
        let ghost rows = records_view(entities@);
        while k < entities.len()
            invariant
                k <= entities@.len(),
                rows == records_view(entities@),
                forall|c: Seq<char>| #[trigger]
                    ids@.contains(c) <==> exists|i: int|
                        0 <= i < k && (#[trigger] rows[i]).data.text_member("canonical_id"@)
                            == Some(c),
            decreases entities@.len() - k,
        {
            let ghost before = ids@;
            assert(rows[k as int] == entities@[k as int]@);
            if let Some(c) = entities[k].data.get_str("canonical_id") {
                ids.insert(c.to_owned());
            }
            proof {
                assert forall|c: Seq<char>| #[trigger]
                    ids@.contains(c) <==> exists|i: int|
                        0 <= i < k + 1 && (#[trigger] rows[i]).data.text_member("canonical_id"@)
                            == Some(c) by {
                    assert(before.contains(c) <==> exists|i: int|
                        0 <= i < k && (#[trigger] rows[i]).data.text_member("canonical_id"@)
                            == Some(c));
                    if rows[k as int].data.text_member("canonical_id"@) == Some(c) {
                        assert(ids@.contains(c));
                    }
                }
            }
            k += 1;
        }
        let ghost known = canonical_set(rows);
        assert(ids@ =~= known);
        let mut report = BridgeReport { verified: 0, dangling: 0, updates: Vec::new() };
        let ghost all = records_view(bridges@);
        let ghost f = |x: RecordView| remarked(x, known);
        let ghost g = |x: RecordView| bridge_holds(x, known);
        let mut i: usize = 0;
        proof {
            reveal(Seq::filter);
            assert(updates_view(report.updates@) =~= collected(all.take(0), f));
            assert(all.take(0).filter(g).len() == 0);
        }
        while i < bridges.len()
            invariant
                i <= bridges@.len(),
                all == records_view(bridges@),
                ids@ == known,
                f == |x: RecordView| remarked(x, known),
                g == |x: RecordView| bridge_holds(x, known),
                updates_view(report.updates@) == collected(all.take(i as int), f),
                report.verified == all.take(i as int).filter(g).len(),
                report.verified + report.dangling == i,
            decreases bridges@.len() - i,
        {
            let row = &bridges[i];
            proof {
                reveal(Seq::filter);
                assert(all.take(i + 1).drop_last() =~= all.take(i as int));
                assert(all.take(i + 1).last() == row@);
            }
            let present = match row.data.get_str("local_canonical") {
                Some(l) => ids.contains(l),
                None => false,
            };
            let marked = row.data.flag("dangling");
            if present {
                report.verified += 1;
            } else {
                report.dangling += 1;
            }
            if marked == present {
                let mut data = row.data.copy();
                data.set("dangling", Value::Bool(!present));
                push_update(&mut report.updates, &row.id, data);
            }
            i += 1;
        }
        assert(all.take(i as int) =~= all);
        report
    }
}

/// What a second look at the bridges would change: nothing, once the marks are
/// right.
pub proof fn marked_bridges_stay(row: RecordView, known: Set<Seq<char>>)
    requires
        row.data is Object,
    ensures
        remarked(row, known) matches Some(u) ==> remarked(
            RecordView { data: u.data, ..row },
            known,
        ) is None,
{
    reveal_strlit("dangling");
    reveal_strlit("local_canonical");
    assert("dangling"@.len() != "local_canonical"@.len());
}

/// The default of a table for one side of consent.
pub open spec fn default_side(rows: Seq<RecordView>, table: Seq<char>, side: Seq<char>) -> Option<
    Json,
> {
    let at = first_row(rows, "table"@, table);
    if at < rows.len() {
        rows[at as int].data.member(side)
    } else {
        None
    }
}

/// The model of a value that may be there.
pub open spec fn value_view(v: Option<Value>) -> Option<Json> {
    match v {
        Some(x) => Some(x.model()),
        None => None,
    }
}

/// A value that may be there, in the place of another that may be there.
pub open spec fn given_or(given: Option<Json>, prior: Option<Json>) -> Option<Json> {
    if given is Some {
        given
    } else {
        prior
    }
}

/// A value with a member where there is one to set.
pub open spec fn with_some(v: Json, key: Seq<char>, member: Option<Json>) -> Json {
    match member {
        Some(m) => v.with_member(key, m),
        None => v,
    }
}

/// A copy of a value that may be there.
fn copy_option(v: Option<&Value>) -> (r: Option<Value>)
    ensures
        match v {
            Some(x) => r is Some && r->0.model() == x.model(),
            None => r is None,
        },
{
    match v {
        Some(x) => Some(x.copy()),
        None => None,
    }
}

impl Axil {
    /// The defaults of consent of a table: what may be read, and what may be
    /// written.
    pub fn consent_default(rows: &Vec<Record>, table: &str) -> (r: (Option<Value>, Option<Value>))
        ensures
            value_view(r.0) == default_side(records_view(rows@), table@, "read"@),
            value_view(r.1) == default_side(records_view(rows@), table@, "write"@),
    {
        match find_row(rows, "table", table) {
            Some(i) => (
                copy_option(rows[i].data.get("read")),
                copy_option(rows[i].data.get("write")),
            ),
            None => (None, None),
        }
    }

    /// The row that sets the defaults of consent of a table, and the rows that it
    /// takes the place of. A side that is not given keeps its default.
    pub fn set_consent_default(
        rows: &Vec<Record>,
        table: &str,
        read: Option<Value>,
        write: Option<Value>,
        now: Timestamp,
    ) -> (r: (Value, Vec<RecordId>))
        requires
            now.valid(),
        ensures
            r.0.model() == with_some(
                with_some(
                    Json::Object(Map::empty()).with_member("table"@, Json::Text(table@)).with_member(
                        "updated_at"@,
                        Json::Text(text_of_instant(now.secs, now.nanos)),
                    ),
                    "read"@,
                    given_or(
                        value_view(read),
                        default_side(records_view(rows@), table@, "read"@),
                    ),
                ),
                "write"@,
                given_or(
                    value_view(write),
                    default_side(records_view(rows@), table@, "write"@),
                ),
            ),
            ids_view(r.1@) == collected(
                records_view(rows@),
                |x: RecordView| id_of_row(x, "table"@, table@),
            ),
    {
        let (prior_read, prior_write) = Axil::consent_default(rows, table);
        let mut entry = Value::object();
        entry.set("table", Value::text(table));
        let stamp = rfc3339_text(now);
        entry.set("updated_at", Value::text(stamp.as_str()));
        let read = match read {
            Some(v) => Some(v),
            None => prior_read,
        };
        if let Some(v) = read {
            entry.set("read", v);
        }
        let write = match write {
            Some(v) => Some(v),
            None => prior_write,
        };
        if let Some(v) = write {
            entry.set("write", v);
        }
        (entry, ids_of_rows(rows, "table", table))
    }
}

impl Axil {
    /// The entry of a change of consent in its log, where the record is there, given
    /// what may be read and written of it since.
    pub fn set_record_consent(
        id: &RecordId,
        record: Option<&Record>,
        read: Value,
        write: Value,
        now: Timestamp,
    ) -> (r: Result<Value>)
        requires
            now.valid(),
        ensures
            match r {
                Ok(entry) => record is Some && entry.model() == Json::Object(
                    Map::empty(),
                ).with_member(
                    "timestamp"@,
                    Json::Text(text_of_instant(now.secs, now.nanos)),
                ).with_member("record_id"@, Json::Text(id@)).with_member(
                    "table"@,
                    Json::Text(record->0.table@),
                ).with_member("read_consent"@, read.model()).with_member(
                    "write_consent"@,
                    write.model(),
                ),
                Err(e) => record is None && (e matches AxilError::NotFound(m) && m@ == "record "@
                    + id@),
            },
    {
        match record {
            Some(x) => {
                let mut entry = Value::object();
                entry.set("timestamp", Value::Text(rfc3339_text(now)));
                entry.set("record_id", Value::text(id.as_str()));
                entry.set("table", Value::text(x.table.as_str()));
                entry.set("read_consent", read);
                entry.set("write_consent", write);
                Ok(entry)
            },
            None => Err(super::search::missing_record(id)),
        }
    }
}

/// What a scope says of an alias is what the first of its rows says.
proof fn lemma_scoped(rows: Seq<RecordView>, alias: Seq<char>, scope: Seq<char>)
    ensures
        scoped_meaning(rows, alias, scope) is None ==> forall|i: int|
            0 <= i < rows.len() ==> alias_meaning(#[trigger] rows[i], alias, scope) is None,
        scoped_meaning(rows, alias, scope) matches Some(c) ==> exists|i: int|
            0 <= i < rows.len() && alias_meaning(#[trigger] rows[i], alias, scope) == Some(c)
                && forall|j: int|
                0 <= j < i ==> alias_meaning(#[trigger] rows[j], alias, scope) is None,
    decreases rows.len(),
{
    if rows.len() > 0 {
        if alias_meaning(rows[0], alias, scope) is Some {
            assert(alias_meaning(rows[0], alias, scope) == scoped_meaning(rows, alias, scope));
        } else {
            let d = rows.drop_first();
            lemma_scoped(d, alias, scope);
            assert forall|i: int| 0 < i < rows.len() implies #[trigger] rows[i] == d[i - 1] by {}
            if scoped_meaning(rows, alias, scope) is Some {
                let c = scoped_meaning(rows, alias, scope)->0;
                let i = choose|i: int|
                    0 <= i < d.len() && alias_meaning(#[trigger] d[i], alias, scope) == Some(c)
                        && forall|j: int|
                        0 <= j < i ==> alias_meaning(#[trigger] d[j], alias, scope) is None;
                assert(rows[i + 1] == d[i]);
                assert forall|j: int| 0 <= j < i + 1 implies alias_meaning(
                    #[trigger] rows[j],
                    alias,
                    scope,
                ) is None by {
                    if j > 0 {
                        assert(alias_meaning(d[j - 1], alias, scope) is None);
                    }
                }
            }
        }
    }
}

/// An alias stands for what the first of the scopes says that knows it: a row of an earlier
/// scope counts before any of a later one, and rows of other scopes say nothing.
pub proof fn narrower_scopes_come_first(
    rows: &Vec<Record>,
    alias: &str,
    scopes: &Vec<String>,
    r: Option<String>,
    k: int,
    i: int,
    meaning: Seq<char>,
)
    requires
        call_ensures(Axil::resolve_entity_alias, (rows, alias, scopes), r),
        0 <= k < scopes@.len(),
        0 <= i < rows@.len(),
        rows@[i].data.model().member("alias"@) == Some(Json::Text(alias@)),
        rows@[i].data.model().member("scope"@) == Some(Json::Text(scopes@[k]@)),
        rows@[i].data.model().member("canonical_id"@) == Some(Json::Text(meaning)),
        forall|j: int|
            #![trigger rows@[j]]
            0 <= j < rows@.len() && j != i ==> rows@[j].data.model().member("alias"@) != Some(
                Json::Text(alias@),
            ) || (forall|m: int|
                0 <= m <= k ==> rows@[j].data.model().member("scope"@) != Some(
                    Json::Text((#[trigger] scopes@[m])@),
                )),
        forall|m: int| 0 <= m < k ==> (#[trigger] scopes@[m])@ != scopes@[k]@,
    ensures
        r matches Some(c) && c@ == meaning,
{
    let v = records_view(rows@);
    assert forall|m: int| 0 <= m < k implies scoped_meaning(
        v,
        alias@,
        (#[trigger] scopes@[m])@,
    ) is None by {
        lemma_scoped(v, alias@, scopes@[m]@);
        if scoped_meaning(v, alias@, scopes@[m]@) is Some {
            let c = scoped_meaning(v, alias@, scopes@[m]@)->0;
            let j = choose|j: int|
                0 <= j < v.len() && alias_meaning(#[trigger] v[j], alias@, scopes@[m]@) == Some(c)
                    && forall|l: int|
                    0 <= l < j ==> alias_meaning(#[trigger] v[l], alias@, scopes@[m]@) is None;
            assert(v[j] == rows@[j]@);
            if j == i {
                assert(Json::Text(scopes@[m]@) == Json::Text(scopes@[k]@));
            }
        }
    }
    lemma_scoped(v, alias@, scopes@[k]@);
    assert(v[i] == rows@[i]@);
    assert(alias_meaning(v[i], alias@, scopes@[k]@) == Some(meaning));
    let c = scoped_meaning(v, alias@, scopes@[k]@)->0;
    let j = choose|j: int|
        0 <= j < v.len() && alias_meaning(#[trigger] v[j], alias@, scopes@[k]@) == Some(c)
            && forall|l: int|
            0 <= l < j ==> alias_meaning(#[trigger] v[l], alias@, scopes@[k]@) is None;
    assert(v[j] == rows@[j]@);
    assert(j == i);
    lemma_resolved_at(v, alias@, scopes@, k);
}

/// An alias stands for what the first scope says that knows it.
proof fn lemma_resolved_at(rows: Seq<RecordView>, alias: Seq<char>, scopes: Seq<String>, k: int)
    requires
        0 <= k < scopes.len(),
        scoped_meaning(rows, alias, scopes[k]@) is Some,
        forall|m: int|
            0 <= m < k ==> scoped_meaning(rows, alias, (#[trigger] scopes[m])@) is None,
    ensures
        resolved_alias(rows, alias, scopes) == scoped_meaning(rows, alias, scopes[k]@),
    decreases scopes.len(),
{
    if k > 0 {
        let d = scopes.drop_first();
        assert(d[k - 1] == scopes[k]);
        assert forall|m: int| 0 <= m < k - 1 implies scoped_meaning(
            rows,
            alias,
            (#[trigger] d[m])@,
        ) is None by {
            assert(d[m] == scopes[m + 1]);
        }
        assert(scoped_meaning(rows, alias, scopes[0]@) is None);
        lemma_resolved_at(rows, alias, d, k - 1);
    }
}

/// An alias that no row of the scopes names stands for nothing.
pub proof fn unknown_aliases_stand_for_nothing(
    rows: &Vec<Record>,
    alias: &str,
    scopes: &Vec<String>,
    r: Option<String>,
)
    requires
        call_ensures(Axil::resolve_entity_alias, (rows, alias, scopes), r),
        forall|j: int|
            #![trigger rows@[j]]
            0 <= j < rows@.len() ==> rows@[j].data.model().member("alias"@) != Some(
                Json::Text(alias@),
            ),
    ensures
        r is None,
{
    let v = records_view(rows@);
    assert forall|s: Seq<char>| #[trigger] scoped_meaning(v, alias@, s) is None by {
        lemma_scoped(v, alias@, s);
        if scoped_meaning(v, alias@, s) is Some {
            let c = scoped_meaning(v, alias@, s)->0;
            let j = choose|j: int|
                0 <= j < v.len() && alias_meaning(#[trigger] v[j], alias@, s) == Some(c)
                    && forall|l: int|
                    0 <= l < j ==> alias_meaning(#[trigger] v[l], alias@, s) is None;
            assert(v[j] == rows@[j]@);
        }
    }
    lemma_none_resolved(v, alias@, scopes@);
}

/// An alias that no scope knows stands for nothing.
proof fn lemma_none_resolved(rows: Seq<RecordView>, alias: Seq<char>, scopes: Seq<String>)
    requires
        forall|s: Seq<char>| #[trigger] scoped_meaning(rows, alias, s) is None,
    ensures
        resolved_alias(rows, alias, scopes) is None,
    decreases scopes.len(),
{
    if scopes.len() > 0 {
        lemma_none_resolved(rows, alias, scopes.drop_first());
    }
}

/// Where the first row of an alias stands.
proof fn lemma_alias_place(
    rows: Seq<RecordView>,
    alias: Seq<char>,
    scope: Seq<char>,
    canonical: Seq<char>,
)
    ensures
        alias_place(rows, alias, scope, canonical) <= rows.len(),
        alias_place(rows, alias, scope, canonical) < rows.len() ==> alias_row(
            rows[alias_place(rows, alias, scope, canonical) as int],
            alias,
            scope,
            canonical,
        ),
        forall|i: int|
            0 <= i < alias_place(rows, alias, scope, canonical) ==> !alias_row(
                #[trigger] rows[i],
                alias,
                scope,
                canonical,
            ),
    decreases rows.len(),
{
    if rows.len() > 0 && !alias_row(rows[0], alias, scope, canonical) {
        let d = rows.drop_first();
        lemma_alias_place(d, alias, scope, canonical);
        assert forall|i: int|
            0 <= i < alias_place(rows, alias, scope, canonical) implies !alias_row(
            #[trigger] rows[i],
            alias,
            scope,
            canonical,
        ) by {
            if i > 0 {
                assert(d[i - 1] == rows[i]);
            }
        }
    }
}

/// Registering an alias makes a row unless one says the same already: the same alias, in
/// the same scope, for the same entity. The row says all three, so that it is resolved.
pub proof fn aliases_are_registered_unless_known(
    rows: &Vec<Record>,
    alias: &str,
    scope: &str,
    canonical: &str,
    r: AliasStep,
)
    requires
        call_ensures(Axil::register_entity_alias, (rows, alias, scope, canonical), r),
    ensures
        r is Known <==> exists|i: int|
            0 <= i < rows@.len() && (#[trigger] rows@[i]).data.model().member("alias"@) == Some(
                Json::Text(alias@),
            ) && rows@[i].data.model().member("scope"@) == Some(Json::Text(scope@))
                && rows@[i].data.model().member("canonical_id"@) == Some(Json::Text(canonical@)),
        r matches AliasStep::Insert(data) ==> data.model().member("alias"@) == Some(
            Json::Text(alias@),
        ) && data.model().member("scope"@) == Some(Json::Text(scope@)) && data.model().member(
            "canonical_id"@,
        ) == Some(Json::Text(canonical@)),
{
    let v = records_view(rows@);
    lemma_alias_place(v, alias@, scope@, canonical@);
    assert forall|i: int| 0 <= i < v.len() implies #[trigger] v[i] == rows@[i]@ by {}
    if r is Known {
        let at = alias_place(v, alias@, scope@, canonical@) as int;
        assert(v[at] == rows@[at]@);
        assert(rows@[at].data.model().member("alias"@) == Some(Json::Text(alias@)));
    } else {
        reveal_strlit("alias");
        reveal_strlit("scope");
        reveal_strlit("canonical_id");
        assert("alias"@[0] == 'a' && "scope"@[0] == 's');
        assert("alias"@.len() == 5 && "scope"@.len() == 5 && "canonical_id"@.len() == 12);
        assert forall|i: int| 0 <= i < rows@.len() implies !((
        #[trigger] rows@[i]).data.model().member("alias"@) == Some(Json::Text(alias@))
            && rows@[i].data.model().member("scope"@) == Some(Json::Text(scope@))
            && rows@[i].data.model().member("canonical_id"@) == Some(Json::Text(canonical@))) by {
            assert(!alias_row(v[i], alias@, scope@, canonical@));
        }
    }
}

/// A merge moves every alias of the entity to the other one, and no other alias; the row
/// that is merged away says what it was merged into, and all else stays.
pub proof fn merges_move_every_alias(
    rows: &Vec<Record>,
    aliases: &Vec<Record>,
    from: &str,
    to: &str,
    plan: MergePlan,
    i: int,
)
    requires
        call_ensures(Axil::merge_entities, (rows, aliases, from, to), Ok(Some(plan))),
        0 <= i < aliases@.len(),
        aliases@[i].data.model() is Object,
    ensures
        aliases@[i].data.model().member("canonical_id"@) == Some(Json::Text(from@)) ==> exists|
            k: int,
        |
            0 <= k < plan.aliases@.len() && (#[trigger] plan.aliases@[k]).id@ == aliases@[i].id@
                && plan.aliases@[k].data.model().member("canonical_id"@) == Some(Json::Text(to@)),
        forall|k: int|
            0 <= k < plan.aliases@.len() ==> exists|j: int|
                0 <= j < aliases@.len() && (#[trigger] aliases@[j]).id@ == (
                #[trigger] plan.aliases@[k]).id@ && aliases@[j].data.model().member(
                    "canonical_id"@,
                ) == Some(Json::Text(from@)),
        plan.tombstone.model() is Object ==> plan.tombstone.model().member("_merged_into"@) == Some(
            Json::Text(to@),
        ),
        from@ != to@,
{
    let v = records_view(aliases@);
    let f = |x: RecordView| moved_alias(x, from@, to@);
    let u = updates_view(plan.aliases@);
    assert(v[i] == aliases@[i]@);
    if aliases@[i].data.model().member("canonical_id"@) == Some(Json::Text(from@)) {
        let x = moved_alias(v[i], from@, to@)->0;
        crate::text::collected_values_come_from_items(v, f, x);
        assert(f(v[i]) == Some(x));
        let k = choose|k: int| 0 <= k < u.len() && u[k] == x;
        assert(plan.aliases@[k]@ == x);
    }
    assert forall|k: int| 0 <= k < plan.aliases@.len() implies exists|j: int|
        0 <= j < aliases@.len() && (#[trigger] aliases@[j]).id@ == (
        #[trigger] plan.aliases@[k]).id@ && aliases@[j].data.model().member("canonical_id"@)
            == Some(Json::Text(from@)) by {
        assert(u[k] == plan.aliases@[k]@);
        assert(u.contains(u[k]));
        crate::text::collected_values_come_from_items(v, f, u[k]);
        let j = choose|j: int| 0 <= j < v.len() && f(#[trigger] v[j]) == Some(u[k]);
        assert(aliases@[j].id@ == plan.aliases@[k].id@);
    }
}

/// The edges that led to an entity lead to the other one after a merge, and those that led
/// away from it lead away from the other one, each between the record that it had at its
/// other end, with its type and its properties.
pub proof fn merged_edges_keep_their_other_end(
    edges: &Vec<EdgeInfo>,
    from: &RecordId,
    to: &RecordId,
    arriving: Vec<EdgeMove>,
    leaving: Vec<EdgeMove>,
    i: int,
)
    requires
        call_ensures(Axil::merge_incoming, (edges, from, to), arriving),
        call_ensures(Axil::merge_outgoing, (edges, to), leaving),
        0 <= i < edges@.len(),
    ensures
        arriving@.len() == edges@.len() && leaving@.len() == edges@.len(),
        edges@[i].from@ == from@ ==> arriving@[i] is Drop,
        edges@[i].from@ != from@ ==> (arriving@[i] matches EdgeMove::Replace {
            from: f,
            edge_type,
            to: t,
            properties,
        } && f@ == edges@[i].from@ && t@ == to@ && edge_type@ == edges@[i].edge_type@
            && properties.model() == edges@[i].properties.model()),
        leaving@[i] matches EdgeMove::Replace { from: f, edge_type, to: t, properties } && f@ == to@
            && t@ == edges@[i].to@ && edge_type@ == edges@[i].edge_type@ && properties.model()
            == edges@[i].properties.model(),
{
    assert(arriving@[i].moves_in(edges@[i], from@, to@));
    assert(leaving@[i].moves_out(edges@[i], to@));
}

/// A row without a canonical id goes by its name from a migration on; rows that have one,
/// and rows without a name, stay as they are.
pub proof fn migrations_name_rows_without_an_id(row: RecordView)
    requires
        row.data is Object,
    ensures
        row.data.member("canonical_id"@) is Some ==> migrated(row) is None,
        !(row.data.member("name"@) matches Some(Json::Text(_))) ==> migrated(row) is None,
        row.data.member("canonical_id"@) is None ==> (row.data.member("name"@) matches Some(
            Json::Text(n),
        ) ==> (migrated(row) matches Some(u) && u.id == row.id && u.data.member("canonical_id"@)
            == Some(Json::Text(n)) && migrated(RecordView { data: u.data, ..row }) is None)),
{
}

/// An entity goes to the workspace under its canonical id, unless that is empty or
/// provisional. Records of other tables do not go.
pub proof fn provisional_entities_stay_here(record: &Record, r: Option<String>, c: Seq<char>)
    requires
        call_ensures(Axil::publish_canonical_for_record, (record,), r),
        record.data.model().member("canonical_id"@) == Some(Json::Text(c)),
    ensures
        record.table@ != "_entities"@ ==> r is None,
        record.table@ == "_entities"@ && c.len() > 0 && !"provisional:"@.is_prefix_of(c) ==> (
        r matches Some(x) && x@ == c),
        "provisional:"@.is_prefix_of(c) || c.len() == 0 ==> r is None,
{
}

/// A bridge takes the place of exactly the rows with its local entity, workspace, member
/// and remote entity, and needs all four.
pub proof fn bridges_replace_their_own_kind(
    bridge: &Value,
    rows: &Vec<Record>,
    r: Result<Vec<RecordId>>,
    i: int,
    l: Seq<char>,
    w: Seq<char>,
    m: Seq<char>,
    c: Seq<char>,
)
    requires
        call_ensures(Axil::upsert_bridge, (bridge, rows), r),
        bridge.model().member("local_canonical"@) == Some(Json::Text(l)),
        bridge.model().member("remote_workspace_id"@) == Some(Json::Text(w)),
        bridge.model().member("remote_member_id"@) == Some(Json::Text(m)),
        bridge.model().member("remote_canonical"@) == Some(Json::Text(c)),
        0 <= i < rows@.len(),
        forall|a: int, b: int|
            0 <= a < b < rows@.len() ==> (#[trigger] rows@[a]).id@ != (#[trigger] rows@[b]).id@,
    ensures
        r matches Ok(ids) && (ids_view(ids@).contains(rows@[i].id@) <==> {
            let d = rows@[i].data.model();
            &&& d.member("local_canonical"@) == Some(Json::Text(l))
            &&& d.member("remote_workspace_id"@) == Some(Json::Text(w))
            &&& d.member("remote_member_id"@) == Some(Json::Text(m))
            &&& d.member("remote_canonical"@) == Some(Json::Text(c))
        }),
{
    let k = (l, w, m, c);
    assert(bridge_id(bridge.model()) == Some(k));
    let v = records_view(rows@);
    let f = |x: RecordView| replaced_bridge(x, k);
    let id = rows@[i].id@;
    assert(v[i] == rows@[i]@);
    crate::text::collected_values_come_from_items(v, f, id);
    if r is Ok {
        let ids = ids_view(r->Ok_0@);
        if bridge_id(v[i].data) == Some(k) {
            assert(f(v[i]) == Some(id));
        }
        if ids.contains(id) {
            let j = choose|j: int| 0 <= j < v.len() && f(#[trigger] v[j]) == Some(id);
            assert(rows@[j].id@ == id);
            assert(j == i);
        }
    }
}

/// A bridge that lacks one of its four parts is refused.
pub proof fn incomplete_bridges_are_refused(
    bridge: &Value,
    rows: &Vec<Record>,
    r: Result<Vec<RecordId>>,
)
    requires
        call_ensures(Axil::upsert_bridge, (bridge, rows), r),
        bridge.model().member("local_canonical"@) is None || bridge.model().member(
            "remote_workspace_id"@,
        ) is None || bridge.model().member("remote_member_id"@) is None || bridge.model().member(
            "remote_canonical"@,
        ) is None,
    ensures
        r is Err,
{
}

/// Bridges are listed by their local entity, by their remote member, by both, or all.
pub proof fn bridges_are_listed_by_either_side(
    row: &Record,
    local: Option<&str>,
    member: Option<&str>,
    r: bool,
)
    requires
        call_ensures(Axil::list_bridges, (row, local, member), r),
    ensures
        ({
            let l = local matches Some(x) ==> row.data.model().member("local_canonical"@) == Some(
                Json::Text(x@),
            );
            let m = member matches Some(x) ==> row.data.model().member("remote_member_id"@) == Some(
                Json::Text(x@),
            );
            r <==> l && m
        }),
{
}

/// A bridge dangles where no entity has its local canonical id; a look at the bridges marks
/// those that dangle and no others, and counts both.
pub proof fn bridges_without_an_entity_dangle(
    row: RecordView,
    entities: Seq<RecordView>,
    l: Seq<char>,
)
    requires
        row.data is Object,
        row.data.member("local_canonical"@) == Some(Json::Text(l)),
    ensures
        ({
            let known = canonical_set(entities);
            let there = exists|i: int|
                0 <= i < entities.len() && (#[trigger] entities[i]).data.member("canonical_id"@)
                    == Some(Json::Text(l));
            &&& bridge_holds(row, known) <==> there
            &&& remarked(row, known) matches Some(u) ==> u.id == row.id && u.data.member(
                "dangling"@,
            ) == Some(Json::Bool(!there))
            &&& remarked(row, known) is None ==> (there <==> row.data.member("dangling"@) != Some(
                Json::Bool(true),
            ))
        }),
{
    let known = canonical_set(entities);
    if bridge_holds(row, known) {
        let i = choose|i: int|
            0 <= i < entities.len() && (#[trigger] entities[i]).data.text_member("canonical_id"@)
                == Some(l);
        assert(entities[i].data.member("canonical_id"@) == Some(Json::Text(l)));
    }
    if exists|i: int|
        0 <= i < entities.len() && (#[trigger] entities[i]).data.member("canonical_id"@) == Some(
            Json::Text(l),
        ) {
        let i = choose|i: int|
            0 <= i < entities.len() && (#[trigger] entities[i]).data.member("canonical_id"@)
                == Some(Json::Text(l));
        assert(entities[i].data.text_member("canonical_id"@) == Some(l));
    }
}

/// Setting one side of the defaults of consent keeps the other: the row that is made holds
/// the side that was given, and the other as it was. Read again, it gives what it holds.
pub proof fn consent_sides_are_set_apart(
    rows: &Vec<Record>,
    table: &str,
    read: Option<Value>,
    write: Option<Value>,
    now: Timestamp,
    r: (Value, Vec<RecordId>),
    before: (Option<Value>, Option<Value>),
)
    requires
        now.valid(),
        call_ensures(Axil::set_consent_default, (rows, table, read, write, now), r),
        call_ensures(Axil::consent_default, (rows, table), before),
    ensures
        r.0.model().member("table"@) == Some(Json::Text(table@)),
        read matches Some(x) ==> r.0.model().member("read"@) == Some(x.model()),
        write matches Some(x) ==> r.0.model().member("write"@) == Some(x.model()),
        read is None ==> r.0.model().member("read"@) == value_view(before.0),
        write is None ==> r.0.model().member("write"@) == value_view(before.1),
{
    reveal_strlit("table");
    reveal_strlit("updated_at");
    reveal_strlit("read");
    reveal_strlit("write");
    assert("table"@.len() == 5 && "updated_at"@.len() == 10 && "read"@.len() == 4 && "write"@.len()
        == 5);
    assert("table"@[0] == 't' && "write"@[0] == 'w');
}

/// The defaults of consent of a table are those of the first row that names it.
pub proof fn consent_defaults_come_from_the_row_of_the_table(
    rows: &Vec<Record>,
    table: &str,
    r: (Option<Value>, Option<Value>),
    i: int,
)
    requires
        call_ensures(Axil::consent_default, (rows, table), r),
        0 <= i < rows@.len(),
        rows@[i].data.model().member("table"@) == Some(Json::Text(table@)),
        forall|j: int|
            0 <= j < i ==> (#[trigger] rows@[j]).data.model().member("table"@) != Some(
                Json::Text(table@),
            ),
    ensures
        value_view(r.0) == rows@[i].data.model().member("read"@),
        value_view(r.1) == rows@[i].data.model().member("write"@),
{
    let v = records_view(rows@);
    assert forall|j: int| 0 <= j < v.len() implies #[trigger] v[j] == rows@[j]@ by {}
    lemma_first_row_is(v, "table"@, table@, i);
}

/// The first row with a text is the one that has it and that none before has.
proof fn lemma_first_row_is(rows: Seq<RecordView>, key: Seq<char>, text: Seq<char>, i: int)
    requires
        0 <= i < rows.len(),
        row_is(rows[i], key, text),
        forall|j: int| 0 <= j < i ==> !row_is(#[trigger] rows[j], key, text),
    ensures
        first_row(rows, key, text) == i,
    decreases rows.len(),
{
    if i > 0 {
        let d = rows.drop_first();
        assert(d[i - 1] == rows[i]);
        assert forall|j: int| 0 <= j < i - 1 implies !row_is(#[trigger] d[j], key, text) by {
            assert(d[j] == rows[j + 1]);
        }
        assert(!row_is(rows[0], key, text));
        lemma_first_row_is(d, key, text, i - 1);
    }
}

/// A change of consent is logged with the record, its table and both sides.
pub proof fn changes_of_consent_are_logged(
    id: &RecordId,
    record: &Record,
    read: Value,
    write: Value,
    now: Timestamp,
    r: Result<Value>,
)
    requires
        now.valid(),
        call_ensures(Axil::set_record_consent, (id, Some(record), read, write, now), r),
    ensures
        r matches Ok(e) && e.model().member("record_id"@) == Some(Json::Text(id@))
            && e.model().member("table"@) == Some(Json::Text(record.table@)) && e.model().member(
            "read_consent"@,
        ) == Some(read.model()) && e.model().member("write_consent"@) == Some(write.model()),
{
    reveal_strlit("timestamp");
    reveal_strlit("record_id");
    reveal_strlit("table");
    reveal_strlit("read_consent");
    reveal_strlit("write_consent");
    assert("timestamp"@.len() == 9 && "record_id"@.len() == 9 && "table"@.len() == 5
        && "read_consent"@.len() == 12 && "write_consent"@.len() == 13);
    assert("timestamp"@[0] == 't' && "record_id"@[0] == 'r');
}

/// A migration gives a canonical id to each row that has a name and none yet: its name. No
/// other row changes.
pub proof fn migrations_update_rows_without_an_id(rows: &Vec<Record>, r: Vec<RowUpdate>, i: int)
    requires
        call_ensures(Axil::migrate_entity_canonical_id, (rows,), r),
        0 <= i < rows@.len(),
        rows@[i].data.model() is Object,
        forall|a: int, b: int|
            0 <= a < b < rows@.len() ==> (#[trigger] rows@[a]).id@ != (#[trigger] rows@[b]).id@,
    ensures
        (exists|k: int| 0 <= k < r@.len() && (#[trigger] r@[k]).id@ == rows@[i].id@) <==> (
        rows@[i].data.model().member("canonical_id"@) is None && (rows@[i].data.model().member(
            "name"@,
        ) matches Some(Json::Text(_)))),
        forall|k: int|
            0 <= k < r@.len() && (#[trigger] r@[k]).id@ == rows@[i].id@ ==> r@[k].data.model().member(
                "canonical_id"@,
            ) == rows@[i].data.model().member("name"@),
{
    let v = records_view(rows@);
    let u = updates_view(r@);
    let f = |x: RecordView| migrated(x);
    assert(v[i] == rows@[i]@);
    assert(f(v[i]) == migrated(v[i]));
    migrations_name_rows_without_an_id(v[i]);
    if migrated(v[i]) is Some {
        let x = migrated(v[i])->0;
        crate::text::collected_values_come_from_items(v, f, x);
        let k = choose|k: int| 0 <= k < u.len() && u[k] == x;
        assert(u[k] == r@[k]@);
        assert(r@[k].id@ == rows@[i].id@);
    }
    assert forall|k: int| 0 <= k < r@.len() && (#[trigger] r@[k]).id@ == rows@[i].id@ implies
        migrated(v[i]) == Some(r@[k]@) by {
        assert(u[k] == r@[k]@);
        assert(u.contains(u[k]));
        crate::text::collected_values_come_from_items(v, f, u[k]);
        let j = choose|j: int| 0 <= j < v.len() && f(#[trigger] v[j]) == Some(u[k]);
        assert(v[j] == rows@[j]@);
        assert(rows@[j].id@ == rows@[i].id@);
        assert(j == i);
    }
}

/// A merge counts the aliases that moved and the edges that were replaced: one more of either
/// counts one more, and an edge that was dropped counts nothing.
pub proof fn merges_count_each_move(moves: Seq<EdgeMove>, m: EdgeMove)
    ensures
        m is Replace ==> replaced(moves.push(m)) == replaced(moves) + 1,
        m is Drop ==> replaced(moves.push(m)) == replaced(moves),
        moves.len() == 0 ==> replaced(moves) == 0,
{
    assert(moves.push(m).drop_last() =~= moves);
}

/// The total of a merge is what its parts are.
pub proof fn merged_totals_add_up(
    aliases: &Vec<RowUpdate>,
    incoming: &Vec<EdgeMove>,
    outgoing: &Vec<EdgeMove>,
    r: usize,
)
    requires
        aliases@.len() + replaced(incoming@) + replaced(outgoing@) <= usize::MAX,
        call_ensures(Axil::merged_total, (aliases, incoming, outgoing), r),
    ensures
        r == aliases@.len() + replaced(incoming@) + replaced(outgoing@),
        incoming@.len() == 0 && outgoing@.len() == 0 ==> r == aliases@.len(),
{
}

/// A migration was done where some row is named after it.
pub proof fn migrations_are_marked(rows: &Vec<Record>, marker: &str, r: bool, i: int)
    requires
        call_ensures(Axil::entity_migration_done, (rows, marker), r),
    ensures
        0 <= i < rows@.len() && rows@[i].data.model().member("name"@) == Some(Json::Text(marker@))
            ==> r,
        rows@.len() == 0 ==> !r,
{
    let v = records_view(rows@);
    assert(v.len() == rows@.len());
    if 0 <= i < rows@.len() && rows@[i].data.model().member("name"@) == Some(Json::Text(marker@)) {
        assert(v[i] == rows@[i]@);
        lemma_row_found(v, "name"@, marker@, i);
    }
}

/// A row with a text is found.
proof fn lemma_row_found(rows: Seq<RecordView>, key: Seq<char>, text: Seq<char>, i: int)
    requires
        0 <= i < rows.len(),
        row_is(rows[i], key, text),
    ensures
        first_row(rows, key, text) <= i,
    decreases rows.len(),
{
    if i > 0 && !row_is(rows[0], key, text) {
        assert(rows.drop_first()[i - 1] == rows[i]);
        lemma_row_found(rows.drop_first(), key, text, i - 1);
    }
}

/// A look at the bridges counts each of them once, as one that holds or as one that dangles,
/// and marks those whose mark is wrong.
pub proof fn each_bridge_is_looked_at(
    bridges: &Vec<Record>,
    entities: &Vec<Record>,
    r: BridgeReport,
    i: int,
    l: Seq<char>,
)
    requires
        call_ensures(Axil::verify_bridges, (bridges, entities), r),
        0 <= i < bridges@.len(),
        bridges@[i].data.model() is Object,
        bridges@[i].data.model().member("local_canonical"@) == Some(Json::Text(l)),
    ensures
        r.verified + r.dangling == bridges@.len(),
        !(exists|k: int|
            0 <= k < entities@.len() && (#[trigger] entities@[k]).data.model().member(
                "canonical_id"@,
            ) == Some(Json::Text(l))) && bridges@[i].data.model().member("dangling"@) is None
            ==> exists|k: int|
            0 <= k < r.updates@.len() && (#[trigger] r.updates@[k]).id@ == bridges@[i].id@
                && r.updates@[k].data.model().member("dangling"@) == Some(Json::Bool(true)),
{
    let e = records_view(entities@);
    let v = records_view(bridges@);
    let known = canonical_set(e);
    let f = |x: RecordView| remarked(x, known);
    assert(v.len() == bridges@.len());
    assert(v[i] == bridges@[i]@);
    assert(f(v[i]) == remarked(v[i], known));
    bridges_without_an_entity_dangle(v[i], e, l);
    if !(exists|k: int|
        0 <= k < entities@.len() && (#[trigger] entities@[k]).data.model().member("canonical_id"@)
            == Some(Json::Text(l))) && bridges@[i].data.model().member("dangling"@) is None {
        assert forall|k: int| 0 <= k < e.len() implies (#[trigger] e[k]).data.member(
            "canonical_id"@,
        ) != Some(Json::Text(l)) by {
            assert(e[k] == entities@[k]@);
        }
        let x = remarked(v[i], known)->0;
        crate::text::collected_values_come_from_items(v, f, x);
        let u = updates_view(r.updates@);
        let k = choose|k: int| 0 <= k < u.len() && u[k] == x;
        assert(u[k] == r.updates@[k]@);
        assert(r.updates@[k].id@ == bridges@[i].id@);
    }
}

} // verus!
