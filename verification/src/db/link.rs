//! Links between records: entities that are mentioned, records that are alike, and
//! records that take the place of others.

use super::rows::records_view;
use super::Axil;
use crate::entity::{canonical_id, entity_canonical_id, Entity, EntityType, EntityView, TypeView};
use crate::importance::{is_pinned, pinned};
use crate::json::{Json, Value};
use crate::record::{ids_view, is_ulid, Record, RecordId, RecordView};
use crate::text::{is_blank, same_text};
use crate::time::{floor_mod, nanos_between, Timestamp, DAY_SECS};
use vstd::hash_map::StringHashMap;
use vstd::hash_set::StringHashSet;
use vstd::prelude::*;

verus! {

/// What was linked.
#[derive(Clone, Copy, Debug, PartialEq, Eq, Structural)]
pub struct AutoLinkReport {
    /// The number of entities that were found in the text.
    pub entities_found: usize,
    /// The number of edges to entities that were made.
    pub edges_created: usize,
    /// The number of edges to records that are alike.
    pub similarity_links: usize,
}

/// The number of entities of one record that are linked at most.
pub const MAX_AUTO_LINK_ENTITIES: usize = 50;

/// The first text of a list.
pub open spec fn first_text(items: Seq<Json>) -> Option<Seq<char>>
    decreases items.len(),
{
    if items.len() == 0 {
        None
    } else {
        match items[0] {
            Json::Text(s) => Some(s),
            _ => first_text(items.drop_first()),
        }
    }
}

/// The file that a member of a record names, by itself or as the first text of a
/// list, where it is not empty.
pub open spec fn file_under(data: Json, key: Seq<char>, list: bool) -> Option<Seq<char>> {
    let named = if list {
        match data.member(key) {
            Some(Json::Array(items)) => first_text(items),
            _ => None,
        }
    } else {
        data.text_member(key)
    };
    match named {
        Some(s) if s.len() > 0 => Some(s),
        _ => None,
    }
}

/// The first of two that there is.
pub open spec fn or_else(a: Option<Seq<char>>, b: Option<Seq<char>>) -> Option<Seq<char>> {
    if a is Some {
        a
    } else {
        b
    }
}

/// The file that a record is about.
pub open spec fn file_hint(data: Json) -> Option<Seq<char>> {
    or_else(
        file_under(data, "file"@, false),
        or_else(
            file_under(data, "path"@, false),
            or_else(
                file_under(data, "file_path"@, false),
                or_else(
                    file_under(data, "files"@, true),
                    or_else(
                        file_under(data, "files_changed"@, true),
                        file_under(data, "files_modified"@, true),
                    ),
                ),
            ),
        ),
    )
}

/// The file that a member of a record names.
fn find_file(data: &Value, key: &str, list: bool) -> (r: Option<String>)
    ensures
        match r {
            Some(s) => file_under(data.model(), key@, list) == Some(s@),
            None => file_under(data.model(), key@, list) is None,
        },
{
    if list {
        if let Some(Value::Array(items)) = data.get(key) {
            let ghost all = (Value::Array(*items)).model()->Array_0;
            let mut i: usize = 0;
            assert(all.skip(0) =~= all);
            while i < items.len()
                invariant
                    i <= items@.len(),
                    list,
                    data.model().member(key@) == Some(Json::Array(all)),
                    all == (Value::Array(*items)).model()->Array_0,
                    all.len() == items@.len(),
                    first_text(all) == first_text(all.skip(i as int)),
                decreases items@.len() - i,
            {
                proof {
                    assert(all.skip(i as int)[0] == items@[i as int].model());
                    assert(all.skip(i as int).drop_first() =~= all.skip(i + 1));
                }
                if let Some(s) = items[i].as_str() {
                    if is_blank(s) {
                        return None;
                    }
                    return Some(s.to_owned());
                }
                i += 1;
            }
        }
        None
    } else {
        match data.get_str(key) {
            Some(s) => if is_blank(s) {
                None
            } else {
                Some(s.to_owned())
            },
            None => None,
        }
    }
}

/// The file that a record is about: what it names as its file or path, or else the
/// first of its files.
pub fn pick_file_hint(data: &Value) -> (r: Option<String>)
    ensures
        match r {
            Some(s) => file_hint(data.model()) == Some(s@),
            None => file_hint(data.model()) is None,
        },
{
    if let Some(s) = find_file(data, "file", false) {
        return Some(s);
    }
    if let Some(s) = find_file(data, "path", false) {
        return Some(s);
    }
    if let Some(s) = find_file(data, "file_path", false) {
        return Some(s);
    }
    if let Some(s) = find_file(data, "files", true) {
        return Some(s);
    }
    if let Some(s) = find_file(data, "files_changed", true) {
        return Some(s);
    }
    find_file(data, "files_modified", true)
}

/// The canonical id of a row of the entity table. A row without one goes by its
/// name.
pub open spec fn row_canonical(row: RecordView) -> Option<Seq<char>> {
    or_else(row.data.text_member("canonical_id"@), row.data.text_member("name"@))
}

/// The entities that rows hold: the id of the last row with each canonical id.
pub open spec fn known_entities(rows: Seq<RecordView>) -> Map<Seq<char>, Seq<char>>
    decreases rows.len(),
{
    if rows.len() == 0 {
        Map::empty()
    } else {
        let known = known_entities(rows.drop_last());
        match row_canonical(rows.last()) {
            Some(c) => known.insert(c, rows.last().id),
            None => known,
        }
    }
}

/// What an entity type is written as.
pub open spec fn type_json(t: TypeView) -> Json {
    match t {
        TypeView::File => Json::Text("file"@),
        TypeView::Code => Json::Text("code"@),
        TypeView::Project => Json::Text("project"@),
        TypeView::Reference => Json::Text("reference"@),
        TypeView::CodeSymbol(lang) => Json::Object(Map::empty()).with_member(
            "code_symbol"@,
            Json::Object(Map::empty()).with_member(
                "lang_hint"@,
                match lang {
                    Some(l) => Json::Text(l),
                    None => Json::Null,
                },
            ),
        ),
    }
}

/// What an entity type is written as.
pub fn entity_type_value(t: &EntityType) -> (r: Value)
    ensures
        r.model() == type_json(t@),
{
    match t {
        EntityType::File => Value::text("file"),
        EntityType::Code => Value::text("code"),
        EntityType::Project => Value::text("project"),
        EntityType::Reference => Value::text("reference"),
        EntityType::CodeSymbol { lang_hint } => {
            let mut inner = Value::object();
            let lang = match lang_hint {
                Some(l) => Value::text(l.as_str()),
                None => Value::Null,
            };
            inner.set("lang_hint", lang);
            let mut outer = Value::object();
            outer.set("code_symbol", inner);
            outer
        },
    }
}

/// What the row of an entity holds.
pub open spec fn entity_data(e: EntityView, canonical: Seq<char>) -> Json {
    Json::Object(Map::empty()).with_member("name"@, Json::Text(e.name)).with_member(
        "canonical_id"@,
        Json::Text(canonical),
    ).with_member("entity_type"@, type_json(e.entity_type)).with_member(
        "source_text"@,
        Json::Text(e.source_text),
    )
}

/// What the row of an entity holds.
fn entity_value(e: &Entity, canonical: &str) -> (r: Value)
    ensures
        r.model() == entity_data(e@, canonical@),
{
    let mut data = Value::object();
    data.set("name", Value::text(e.name.as_str()));
    data.set("canonical_id", Value::text(canonical));
    data.set("entity_type", entity_type_value(&e.entity_type));
    data.set("source_text", Value::text(e.source_text.as_str()));
    data
}

/// The bits of the IEEE number 1.
pub const ONE_BITS: u64 = 0x3ff0_0000_0000_0000;

/// What the edge to an entity holds.
pub fn mention_properties(t: &EntityType) -> (r: Value)
    ensures
        r.model() == Json::Object(Map::empty()).with_member(
            "entity_type"@,
            type_json(t@),
        ).with_member("strength"@, Json::Float(ONE_BITS)),
{
    let mut p = Value::object();
    p.set("entity_type", entity_type_value(t));
    p.set("strength", Value::Number(crate::json::Number::Float(ONE_BITS)));
    p
}

/// The canonical ids of entities.
pub open spec fn canonicals(entities: Seq<EntityView>, file: Option<Seq<char>>) -> Seq<Seq<char>> {
    entities.map_values(|e: EntityView| canonical_id(e, file))
}

/// The places where an item comes for the first time that is not among `known`.
pub open spec fn first_places(items: Seq<Seq<char>>, known: Set<Seq<char>>) -> Seq<usize>
    decreases items.len(),
{
    if items.len() == 0 {
        Seq::empty()
    } else {
        let d = items.drop_last();
        let before = first_places(d, known);
        if known.contains(items.last()) || d.contains(items.last()) {
            before
        } else {
            before.push((items.len() - 1) as usize)
        }
    }
}

/// How a record is linked to the entities in its text.
#[derive(Debug)]
pub struct MentionPlan {
    /// The row of each entity.
    pub targets: Vec<RecordId>,
    /// The entities that get a row, by their places.
    pub created: Vec<usize>,
    /// Their rows.
    pub rows: Vec<Record>,
    /// The entities to whose rows an edge is made, by their places.
    pub edges: Vec<usize>,
}

/// What is known once rows were made for canonical ids.
pub open spec fn assigned(
    known: Map<Seq<char>, Seq<char>>,
    ids: Seq<Seq<char>>,
    created: Seq<usize>,
    rows: Seq<Record>,
) -> Map<Seq<char>, Seq<char>>
    decreases created.len(),
{
    if created.len() == 0 || rows.len() == 0 {
        known
    } else {
        assigned(known, ids, created.drop_last(), rows.drop_last()).insert(
            ids[created.last() as int],
            rows.last().id@,
        )
    }
}

/// Whether a record is the row of an entity, made now.
pub open spec fn is_entity_row(
    row: Record,
    e: EntityView,
    canonical: Seq<char>,
    now: Timestamp,
) -> bool {
    is_ulid(row.id@) && row@ == (RecordView {
        id: row.id@,
        table: "_entities"@,
        data: entity_data(e, canonical),
        created_at: now,
        updated_at: now,
        metadata: None,
    })
}

impl MentionPlan {
    /// Whether the entities have their rows: each goes by the row that is known for
    /// its canonical id, or else by one that is made where the id comes first.
    pub open spec fn places(
        self,
        entities: Seq<EntityView>,
        ids: Seq<Seq<char>>,
        known: Map<Seq<char>, Seq<char>>,
        now: Timestamp,
    ) -> bool {
        let after = assigned(known, ids, self.created@, self.rows@);
        &&& self.targets@.len() == ids.len()
        &&& self.created@ == first_places(ids, known.dom())
        &&& self.rows@.len() == self.created@.len()
        &&& forall|k: int|
            0 <= k < self.created@.len() ==> (#[trigger] self.created@[k]) < ids.len()
        &&& forall|k: int|
            0 <= k < self.rows@.len() ==> is_entity_row(
                #[trigger] self.rows@[k],
                entities[self.created@[k] as int],
                ids[self.created@[k] as int],
                now,
            )
        &&& forall|i: int|
            0 <= i < ids.len() ==> (#[trigger] self.targets@[i])@ == after[ids[i]]
    }

    /// Whether the plan links the entities: they have their rows, and an edge is made
    /// to each row that is not linked yet.
    pub open spec fn links(
        self,
        entities: Seq<EntityView>,
        file: Option<Seq<char>>,
        known: Map<Seq<char>, Seq<char>>,
        linked: Set<Seq<char>>,
        now: Timestamp,
    ) -> bool {
        &&& self.places(entities, canonicals(entities, file), known, now)
        &&& self.edges@ == first_places(ids_view(self.targets@), linked)
    }
}

/// What is known with one more canonical id behind the others.
proof fn lemma_assigned_longer(
    known: Map<Seq<char>, Seq<char>>,
    ids: Seq<Seq<char>>,
    c: Seq<char>,
    created: Seq<usize>,
    rows: Seq<Record>,
)
    requires
        forall|k: int| 0 <= k < created.len() ==> (#[trigger] created[k]) < ids.len(),
    ensures
        assigned(known, ids.push(c), created, rows) == assigned(known, ids, created, rows),
    decreases created.len(),
{
    if created.len() > 0 && rows.len() > 0 {
        let d = created.drop_last();
        assert forall|k: int| 0 <= k < d.len() implies (#[trigger] d[k]) < ids.len() by {
            assert(d[k] == created[k]);
        }
        lemma_assigned_longer(known, ids, c, d, rows.drop_last());
        assert(created[created.len() - 1] < ids.len());
    }
}

/// The entities that rows hold.
fn index_entities(rows: &Vec<Record>) -> (r: StringHashMap<RecordId>)
    ensures
        r@.map_values(|id: RecordId| id@) == known_entities(records_view(rows@)),
{
    let mut known: StringHashMap<RecordId> = StringHashMap::new();
    let mut i: usize = 0;
    let ghost all = records_view(rows@);
    let ghost f = |id: RecordId| id@;
    assert(known@.map_values(f) =~= known_entities(all.take(0)));
    while i < rows.len()
        invariant
            i <= rows@.len(),
            all == records_view(rows@),
            f == |id: RecordId| id@,
            known@.map_values(f) == known_entities(all.take(i as int)),
        decreases rows@.len() - i,
    {
        let row = &rows[i];
        proof {
            assert(all.take(i + 1).drop_last() =~= all.take(i as int));
            assert(all.take(i + 1).last() == row@);
        }
        let ghost before = known@;
        let found = match row.data.get_str("canonical_id") {
            Some(c) => Some(c),
            None => row.data.get_str("name"),
        };
        if let Some(c) = found {
            let id = row.id.copy();
            let ghost copied = id;
            known.insert(c.to_owned(), id);
            assert(known@ =~= before.insert(c@, copied));
            assert(known@.map_values(f) =~= before.map_values(f).insert(c@, row.id@));
        }
        i += 1;
    }
    assert(all.take(i as int) =~= all);
    known
}

/// The canonical ids and rows that are known, in the model.
spec fn known_view(known: Map<Seq<char>, RecordId>) -> Map<Seq<char>, Seq<char>> {
    known.map_values(|id: RecordId| id@)
}

/// Whether the entities so far have their rows, and what is known is what was so
/// before and what was added.
spec fn placed(
    plan: MentionPlan,
    at: Map<Seq<char>, RecordId>,
    entities: Seq<EntityView>,
    ids: Seq<Seq<char>>,
    known: Map<Seq<char>, Seq<char>>,
    now: Timestamp,
) -> bool {
    &&& entities.len() == ids.len()
    &&& plan.places(entities, ids, known, now)
    &&& known_view(at) == assigned(known, ids, plan.created@, plan.rows@)
    &&& forall|c: Seq<char>| #[trigger]
        at.contains_key(c) <==> known.contains_key(c) || ids.contains(c)
}

/// Finds the row of one more entity, or makes one.
fn place_entity(
    plan: &mut MentionPlan,
    at: &mut StringHashMap<RecordId>,
    entity: &Entity,
    canonical: String,
    now: Timestamp,
    Ghost(entities): Ghost<Seq<EntityView>>,
    Ghost(ids): Ghost<Seq<Seq<char>>>,
    Ghost(known): Ghost<Map<Seq<char>, Seq<char>>>,
)
    requires
        placed(*old(plan), old(at)@, entities, ids, known, now),
        ids.len() < usize::MAX,
    ensures
        placed(*final(plan), final(at)@, entities.push(entity@), ids.push(canonical@), known, now),
        final(plan).edges == old(plan).edges,
        final(plan).targets@.len() == old(plan).targets@.len() + 1,
        final(plan).targets@.drop_last() == old(plan).targets@,
{
    let ghost c = canonical@;
    let ghost all = ids.push(c);
    let ghost next = entities.push(entity@);
    let ghost n = ids.len() as int;
    let ghost before = *plan;
    let ghost at0 = at@;
    proof {
        assert(all.drop_last() =~= ids);
        assert forall|x: Seq<char>| #[trigger] all.contains(x) <==> ids.contains(x) || x == c by {
            crate::text::lemma_push_contains(ids, c, x);
        }
        lemma_assigned_longer(known, ids, c, plan.created@, plan.rows@);
    }
    let found = match at.get(canonical.as_str()) {
        Some(id) => Some(id.copy()),
        None => None,
    };
    match found {
        Some(id) => {
            proof {
                assert(known_view(at@)[c] == id@);
            }
            plan.targets.push(id);
            proof {
                assert(plan.targets@.drop_last() =~= before.targets@);
                assert forall|i: int| 0 <= i <= n implies (#[trigger] plan.targets@[i])@
                    == known_view(at@)[all[i]] by {
                    if i < n {
                        assert(plan.targets@[i] == before.targets@[i]);
                    }
                }
                assert forall|k: int| 0 <= k < plan.rows@.len() implies is_entity_row(
                    #[trigger] plan.rows@[k],
                    next[plan.created@[k] as int],
                    all[plan.created@[k] as int],
                    now,
                ) by {
                    assert(before.created@[k] < n);
                }
            }
        },
        None => {
            let place = plan.targets.len();
            let row = Record::new("_entities", entity_value(entity, canonical.as_str()), now);
            let id = row.id.copy();
            let ghost fresh = id;
            at.insert(canonical, row.id.copy());
            plan.targets.push(id);
            plan.created.push(place);
            plan.rows.push(row);
            proof {
                let after = assigned(known, all, plan.created@, plan.rows@);
                assert(plan.targets@.drop_last() =~= before.targets@);
                assert(plan.created@.drop_last() =~= before.created@);
                assert(plan.rows@.drop_last() =~= before.rows@);
                assert(after == known_view(at0).insert(c, fresh@));
                assert(known_view(at@) =~= after);
                assert forall|i: int| 0 <= i <= n implies (#[trigger] plan.targets@[i])@
                    == after[all[i]] by {
                    if i < n {
                        assert(plan.targets@[i] == before.targets@[i]);
                        assert(ids.contains(ids[i]));
                        assert(at0.contains_key(ids[i]));
                        assert(ids[i] != c);
                    }
                }
                assert forall|k: int| 0 <= k < plan.rows@.len() implies is_entity_row(
                    #[trigger] plan.rows@[k],
                    next[plan.created@[k] as int],
                    all[plan.created@[k] as int],
                    now,
                ) by {
                    if k < before.rows@.len() {
                        assert(plan.rows@[k] == before.rows@[k]);
                        assert(before.created@[k] < n);
                    }
                }
            }
        },
    }
}

/// Makes an edge to the last target where there is none.
fn connect(
    plan: &mut MentionPlan,
    linked: &mut StringHashSet,
    Ghost(targets): Ghost<Seq<Seq<char>>>,
    Ghost(linked0): Ghost<Set<Seq<char>>>,
)
    requires
        old(plan).targets@.len() > 0,
        ids_view(old(plan).targets@.drop_last()) == targets,
        old(plan).edges@ == first_places(targets, linked0),
        forall|t: Seq<char>| #[trigger]
            old(linked)@.contains(t) <==> linked0.contains(t) || targets.contains(t),
    ensures
        final(plan).targets == old(plan).targets,
        final(plan).created == old(plan).created,
        final(plan).rows == old(plan).rows,
        final(plan).edges@ == first_places(ids_view(old(plan).targets@), linked0),
        forall|t: Seq<char>| #[trigger]
            final(linked)@.contains(t) <==> linked0.contains(t) || ids_view(
                old(plan).targets@,
            ).contains(t),
{
    let place = plan.targets.len() - 1;
    let ghost all = ids_view(plan.targets@);
    let target = plan.targets[place].copy();
    proof {
        assert(all =~= targets.push(target@));
        assert(all.drop_last() =~= targets);
        assert forall|x: Seq<char>| #[trigger] all.contains(x) <==> targets.contains(x) || x
            == target@ by {
            crate::text::lemma_push_contains(targets, target@, x);
        }
    }
    if !linked.contains(target.as_str()) {
        linked.insert(target.0.clone());
        plan.edges.push(place);
    }
}

/// A file that may be named, in the model.
pub open spec fn hint_view(hint: Option<&str>) -> Option<Seq<char>> {
    match hint {
        Some(f) => Some(f@),
        None => None,
    }
}

impl Axil {
    /// Plans the links of a record to the entities in its text, given the rows of
    /// the entity table and the records that it is linked to already. No more than
    /// the first entities are linked.
    pub fn auto_link(
        entities: &Vec<Entity>,
        data: &Value,
        rows: &Vec<Record>,
        linked: &Vec<RecordId>,
        now: Timestamp,
    ) -> (r: MentionPlan)
        ensures
            ({
                let n = if entities@.len() > MAX_AUTO_LINK_ENTITIES {
                    MAX_AUTO_LINK_ENTITIES as int
                } else {
                    entities@.len() as int
                };
                r.links(
                    crate::entity::entities_view(entities@).take(n),
                    file_hint(data.model()),
                    known_entities(records_view(rows@)),
                    ids_view(linked@).to_set(),
                    now,
                )
            }),
    {
        let hint = pick_file_hint(data);
        let file = match &hint {
            Some(f) => Some(f.as_str()),
            None => None,
        };
        let n: usize = if entities.len() > MAX_AUTO_LINK_ENTITIES {
            MAX_AUTO_LINK_ENTITIES
        } else {
            entities.len()
        };
        let known = index_entities(rows);
        let linked_set = crate::record::id_set(linked);
        let ghost known0 = known_entities(records_view(rows@));
        let ghost linked0 = ids_view(linked@).to_set();
        let ghost all = crate::entity::entities_view(entities@);
        let mut at = known;
        let mut met = linked_set;
        let mut plan = MentionPlan {
            targets: Vec::new(),
            created: Vec::new(),
            rows: Vec::new(),
            edges: Vec::new(),
        };
        let ghost f = file_hint(data.model());
        proof {
            let none = canonicals(all.take(0), f);
            assert(none =~= Seq::<Seq<char>>::empty());
            assert(ids_view(plan.targets@) =~= Seq::<Seq<char>>::empty());
            assert(plan.created@ =~= first_places(none, known0.dom()));
            assert(plan.edges@ =~= first_places(ids_view(plan.targets@), linked0));
            assert(known_view(at@) == known0);
            assert forall|c: Seq<char>| #[trigger]
                at@.contains_key(c) <==> known0.contains_key(c) || none.contains(c) by {
                assert(known_view(at@).contains_key(c) <==> at@.contains_key(c));
            }
        }
        let mut i: usize = 0;
        while i < n
            invariant
                i <= n <= entities@.len(),
                n <= MAX_AUTO_LINK_ENTITIES,
                all == crate::entity::entities_view(entities@),
                hint_view(file) == f,
                placed(
                    plan,
                    at@,
                    all.take(i as int),
                    canonicals(all.take(i as int), f),
                    known0,
                    now,
                ),
                plan.edges@ == first_places(ids_view(plan.targets@), linked0),
                forall|t: Seq<char>| #[trigger]
                    met@.contains(t) <==> linked0.contains(t) || ids_view(plan.targets@).contains(t),
            decreases n - i,
        {
            let ghost seen = all.take(i as int);
            let ghost targets = ids_view(plan.targets@);
            let canonical = entity_canonical_id(&entities[i], file);
            proof {
                assert(all.take(i + 1) =~= seen.push(entities@[i as int]@));
                assert(canonicals(all.take(i + 1), f) =~= canonicals(seen, f).push(canonical@));
            }
            place_entity(
                &mut plan,
                &mut at,
                &entities[i],
                canonical,
                now,
                Ghost(seen),
                Ghost(canonicals(seen, f)),
                Ghost(known0),
            );
            let ghost mid = plan;
            connect(&mut plan, &mut met, Ghost(targets), Ghost(linked0));
            proof {
                assert(placed(
                    mid,
                    at@,
                    all.take(i + 1),
                    canonicals(all.take(i + 1), f),
                    known0,
                    now,
                ));
            }
            i += 1;
        }
        plan
    }
}

/// A record that is alike: its score by a number that orders scores, and the record,
/// where it is still there.
#[derive(Debug)]
pub struct Similar {
    pub id: RecordId,
    pub score: i32,
    pub record: Option<Record>,
}

/// Whether two instants are two hours apart or more.
pub open spec fn apart(a: Timestamp, b: Timestamp) -> bool {
    let d = nanos_between(a, b);
    d >= 7_200_000_000_000 || d <= -7_200_000_000_000
}

/// Whether two instants are two hours apart or more.
pub fn is_apart(a: Timestamp, b: Timestamp) -> (r: bool)
    ensures
        r == apart(a, b),
{
    let x = floor_mod(a.secs, DAY_SECS);
    let y = floor_mod(b.secs, DAY_SECS);
    let leap: i128 = if x > y && b.nanos >= 1_000_000_000 {
        1
    } else if x < y && a.nanos >= 1_000_000_000 {
        -1
    } else {
        0
    };
    let d: i128 = (a.secs as i128 - b.secs as i128 + leap) * 1_000_000_000 + (a.nanos as i128
        - b.nanos as i128);
    d >= 7_200_000_000_000 || d <= -7_200_000_000_000
}

impl Similar {
    /// Whether it is worth a link from the record: it is alike enough, and it is of
    /// another table or another time.
    pub open spec fn worth_linking(self, record: RecordView, threshold: i32) -> bool {
        &&& self.id@ != record.id
        &&& self.score >= threshold
        &&& self.record matches Some(r) && (r.table@ != record.table || apart(
            record.created_at,
            r.created_at,
        ))
    }
}

/// The places of the records that are worth a link, each record once, and none that
/// is linked already.
pub open spec fn similar_places(
    similar: Seq<Similar>,
    record: RecordView,
    threshold: i32,
    linked: Set<Seq<char>>,
) -> Seq<usize>
    decreases similar.len(),
{
    if similar.len() == 0 {
        Seq::empty()
    } else {
        let d = similar.drop_last();
        let x = similar.last();
        let before = similar_places(d, record, threshold, linked);
        let met = exists|i: int|
            0 <= i < d.len() && (#[trigger] d[i]).id@ == x.id@ && d[i].worth_linking(
                record,
                threshold,
            );
        if x.worth_linking(record, threshold) && !linked.contains(x.id@) && !met {
            before.push((similar.len() - 1) as usize)
        } else {
            before
        }
    }
}

/// The score that a record is superseded from on: 0.92, by the bits of the 32-bit
/// IEEE number.
pub const SUPERSEDE_THRESHOLD: i32 = 1_064_011_039;

/// A stored record that is alike, with its score by a number that orders scores.
#[derive(Debug)]
pub struct Rival {
    pub record: Record,
    pub score: i32,
}

/// Whether a new record takes the place of a stored one: another one of the same
/// table that is nearly the same, not pinned, not younger, and not superseded yet.
pub open spec fn supersedes(new: RecordView, old: RecordView, score: i32) -> bool {
    &&& old.id != new.id
    &&& old.table == new.table
    &&& score >= SUPERSEDE_THRESHOLD
    &&& !pinned(old.data)
    &&& !new.created_at.before(old.created_at)
    &&& !old.data.flag_member("_superseded"@)
}

/// The places of the rivals whose place is taken.
pub open spec fn superseded_places(new: RecordView, rivals: Seq<Rival>) -> Seq<usize>
    decreases rivals.len(),
{
    if rivals.len() == 0 {
        Seq::empty()
    } else {
        let before = superseded_places(new, rivals.drop_last());
        let x = rivals.last();
        if supersedes(new, x.record@, x.score) {
            before.push((rivals.len() - 1) as usize)
        } else {
            before
        }
    }
}

/// The data of a record whose place is taken.
pub open spec fn superseded_json(data: Json, by: Seq<char>) -> Json {
    data.with_member("_superseded"@, Json::Bool(true)).with_member(
        "_superseded_by"@,
        Json::Text(by),
    )
}

/// The data of a record whose place is taken.
pub fn superseded_data(data: &Value, by: &RecordId) -> (r: Value)
    ensures
        r.model() == superseded_json(data.model(), by@),
{
    let mut d = data.copy();
    d.set("_superseded", Value::Bool(true));
    d.set("_superseded_by", Value::text(by.as_str()));
    d
}

/// What a comparison of two records says.
#[derive(Clone, Copy, Debug, PartialEq, Eq, Structural)]
pub enum Verdict {
    /// The newer one takes the place of the older one.
    Supersedes,
    /// They contradict each other.
    Contradicts,
    /// They have nothing to do with each other.
    Novel,
}

/// A record that was compared.
#[derive(Debug)]
pub struct Compared {
    pub id: RecordId,
    pub verdict: Verdict,
}

/// A conflict: where it was found, the type of the edge that tells of it, and
/// whether the other record is superseded.
#[derive(Clone, Copy, Debug, PartialEq, Eq, Structural)]
pub struct ConflictStep {
    pub at: usize,
    pub supersedes: bool,
}

/// The conflicts of a record with those that it was compared with.
pub open spec fn conflict_steps(record: Seq<char>, compared: Seq<Compared>) -> Seq<ConflictStep>
    decreases compared.len(),
{
    if compared.len() == 0 {
        Seq::empty()
    } else {
        let before = conflict_steps(record, compared.drop_last());
        let x = compared.last();
        if x.id@ != record && x.verdict != Verdict::Novel {
            before.push(
                ConflictStep {
                    at: (compared.len() - 1) as usize,
                    supersedes: x.verdict == Verdict::Supersedes,
                },
            )
        } else {
            before
        }
    }
}

impl Axil {
    /// The records that are alike to which a link is made.
    pub fn similarity_links(
        record: &Record,
        similar: &Vec<Similar>,
        threshold: i32,
        linked: &Vec<RecordId>,
    ) -> (r: Vec<usize>)
        ensures
            r@ == similar_places(similar@, record@, threshold, ids_view(linked@).to_set()),
    {
        let mut met = crate::record::id_set(linked);
        let ghost linked0 = ids_view(linked@).to_set();
        let mut out: Vec<usize> = Vec::new();
        let mut i: usize = 0;
        while i < similar.len()
            invariant
                i <= similar@.len(),
                linked0 == ids_view(linked@).to_set(),
                out@ == similar_places(similar@.take(i as int), record@, threshold, linked0),
                forall|t: Seq<char>| #[trigger]
                    met@.contains(t) <==> linked0.contains(t) || exists|j: int|
                        0 <= j < i && (#[trigger] similar@[j]).id@ == t
                            && similar@[j].worth_linking(record@, threshold),
            decreases similar@.len() - i,
        {
            let x = &similar[i];
            let ghost seen = similar@.take(i as int);
            proof {
                assert(similar@.take(i + 1).drop_last() =~= seen);
                assert(similar@.take(i + 1).last() == *x);
                assert forall|j: int| 0 <= j < i implies #[trigger] seen[j] == similar@[j] by {
                }
            }
            let worth = match &x.record {
                Some(r) => !x.id.same(&record.id) && x.score >= threshold && (!same_text(
                    r.table.as_str(),
                    record.table.as_str(),
                ) || is_apart(record.created_at, r.created_at)),
                None => false,
            };
            let ghost before = met@;
            if worth {
                let fresh = !met.contains(x.id.as_str());
                proof {
                    let again = exists|j: int|
                        0 <= j < seen.len() && (#[trigger] seen[j]).id@ == x.id@
                            && seen[j].worth_linking(record@, threshold);
                    if again {
                        let j = choose|j: int|
                            0 <= j < seen.len() && (#[trigger] seen[j]).id@ == x.id@
                                && seen[j].worth_linking(record@, threshold);
                        assert(similar@[j].id@ == x.id@);
                        assert(met@.contains(x.id@));
                    }
                    if met@.contains(x.id@) && !linked0.contains(x.id@) {
                        let j = choose|j: int|
                            0 <= j < i && (#[trigger] similar@[j]).id@ == x.id@
                                && similar@[j].worth_linking(record@, threshold);
                        assert(seen[j].id@ == x.id@);
                    }
                }
                if fresh {
                    out.push(i);
                }
                met.insert(x.id.0.clone());
            }
            proof {
                assert forall|t: Seq<char>| #[trigger]
                    met@.contains(t) <==> linked0.contains(t) || exists|j: int|
                        0 <= j < i + 1 && (#[trigger] similar@[j]).id@ == t
                            && similar@[j].worth_linking(record@, threshold) by {
                    assert(before.contains(t) <==> linked0.contains(t) || exists|j: int|
                        0 <= j < i && (#[trigger] similar@[j]).id@ == t
                            && similar@[j].worth_linking(record@, threshold));
                    if worth && t == x.id@ {
                        assert(similar@[i as int].id@ == t);
                    }
                }
            }
            i += 1;
        }
        assert(similar@.take(i as int) =~= similar@);
        out
    }

    /// The stored records whose place a new one takes.
    pub fn auto_supersede_with_vector(new: &Record, rivals: &Vec<Rival>) -> (r: Vec<usize>)
        ensures
            r@ == superseded_places(new@, rivals@),
    {
        let mut out: Vec<usize> = Vec::new();
        let mut i: usize = 0;
        while i < rivals.len()
            invariant
                i <= rivals@.len(),
                out@ == superseded_places(new@, rivals@.take(i as int)),
            decreases rivals@.len() - i,
        {
            let x = &rivals[i];
            proof {
                assert(rivals@.take(i + 1).drop_last() =~= rivals@.take(i as int));
                assert(rivals@.take(i + 1).last() == *x);
            }
            if !x.record.id.same(&new.id) && same_text(
                x.record.table.as_str(),
                new.table.as_str(),
            ) && x.score >= SUPERSEDE_THRESHOLD && !is_pinned(&x.record.data)
                && !new.created_at.is_before(x.record.created_at) && !x.record.data.flag(
                "_superseded",
            ) {
                out.push(i);
            }
            i += 1;
        }
        assert(rivals@.take(i as int) =~= rivals@);
        out
    }

    /// The conflicts of a record with those that it was compared with.
    pub fn detect_conflicts(record: &RecordId, compared: &Vec<Compared>) -> (r: Vec<ConflictStep>)
        ensures
            r@ == conflict_steps(record@, compared@),
    {
        let mut out: Vec<ConflictStep> = Vec::new();
        let mut i: usize = 0;
        while i < compared.len()
            invariant
                i <= compared@.len(),
                out@ == conflict_steps(record@, compared@.take(i as int)),
            decreases compared@.len() - i,
        {
            let x = &compared[i];
            proof {
                assert(compared@.take(i + 1).drop_last() =~= compared@.take(i as int));
                assert(compared@.take(i + 1).last() == *x);
            }
            if !x.id.same(record) && x.verdict != Verdict::Novel {
                out.push(ConflictStep { at: i, supersedes: x.verdict == Verdict::Supersedes });
            }
            i += 1;
        }
        assert(compared@.take(i as int) =~= compared@);
        out
    }
}

/// A record never takes the place of a younger one, of one of another table or of a
/// pinned one.
pub proof fn only_older_records_are_superseded(new: RecordView, rivals: Seq<Rival>, i: int)
    requires
        0 <= i < superseded_places(new, rivals).len(),
        rivals.len() <= usize::MAX,
    ensures
        superseded_places(new, rivals)[i] < rivals.len(),
        ({
            let old = rivals[superseded_places(new, rivals)[i] as int].record@;
            !new.created_at.before(old.created_at) && old.table == new.table && !pinned(old.data)
                && old.id != new.id
        }),
    decreases rivals.len(),
{
    if rivals.len() > 0 {
        let d = rivals.drop_last();
        let before = superseded_places(new, d);
        if i < before.len() {
            only_older_records_are_superseded(new, d, i);
            assert(d[before[i] as int] == rivals[before[i] as int]);
        }
    }
}

/// A record whose place was taken is not superseded again.
pub proof fn superseded_records_stay_out(new: RecordView, old: RecordView, by: Seq<char>, score: i32)
    requires
        old.data is Object,
    ensures
        !supersedes(
            new,
            RecordView { data: superseded_json(old.data, by), ..old },
            score,
        ),
{
    reveal_strlit("_superseded");
    reveal_strlit("_superseded_by");
    assert("_superseded"@.len() != "_superseded_by"@.len());
}

/// A new record takes the place of exactly the rivals that reach 0.92, are another record
/// of its table, are not younger, and are neither pinned nor superseded. The places come
/// in order, each once.
pub proof fn near_identical_records_are_superseded(new: RecordView, rivals: Seq<Rival>)
    requires
        rivals.len() <= usize::MAX,
    ensures
        forall|k: int|
            0 <= k < rivals.len() ==> (#[trigger] superseded_places(new, rivals).contains(
                k as usize,
            ) <==> {
                let old = rivals[k].record@;
                &&& rivals[k].score >= 0x3f6b_851f
                &&& old.id != new.id
                &&& old.table == new.table
                &&& old.created_at.secs < new.created_at.secs || (old.created_at.secs
                    == new.created_at.secs && old.created_at.nanos <= new.created_at.nanos)
                &&& old.data.member("_importance_pinned"@) != Some(Json::Bool(true))
                &&& old.data.member("_superseded"@) != Some(Json::Bool(true))
            }),
        forall|i: int, j: int|
            0 <= i < j < superseded_places(new, rivals).len() ==> (#[trigger] superseded_places(
                new,
                rivals,
            )[i]) < (#[trigger] superseded_places(new, rivals)[j]) < rivals.len(),
        forall|i: int|
            0 <= i < superseded_places(new, rivals).len() ==> (#[trigger] superseded_places(
                new,
                rivals,
            )[i]) < rivals.len(),
    decreases rivals.len(),
{
    if rivals.len() > 0 {
        let d = rivals.drop_last();
        near_identical_records_are_superseded(new, d);
        let before = superseded_places(new, d);
        let all = superseded_places(new, rivals);
        let last = (rivals.len() - 1) as usize;
        assert forall|k: int| 0 <= k < rivals.len() implies (#[trigger] all.contains(k as usize)
            <==> supersedes(new, rivals[k].record@, rivals[k].score)) by {
            crate::text::lemma_push_contains(before, last, k as usize);
            if k < last {
                assert(d[k] == rivals[k]);
                assert(before.contains(k as usize) <==> supersedes(new, d[k].record@, d[k].score));
            } else if before.contains(last) {
                let i = choose|i: int| 0 <= i < before.len() && before[i] == last;
                assert(before[i] < d.len());
            }
        }
    }
}

/// Of two rivals that are alike in all but their scores, the one with the higher score is
/// superseded where the other one is.
pub proof fn closer_rivals_go_first(new: RecordView, rivals: Seq<Rival>, i: int, j: int)
    requires
        rivals.len() <= usize::MAX,
        0 <= i < rivals.len(),
        0 <= j < rivals.len(),
        rivals[i].record@ == rivals[j].record@,
        rivals[i].score <= rivals[j].score,
        superseded_places(new, rivals).contains(i as usize),
    ensures
        superseded_places(new, rivals).contains(j as usize),
{
    near_identical_records_are_superseded(new, rivals);
}

/// A record whose place is taken says so, and by which record, and keeps the rest.
pub proof fn superseded_records_say_so(data: Json, by: Seq<char>, key: Seq<char>)
    requires
        data is Object,
    ensures
        superseded_json(data, by).member("_superseded"@) == Some(Json::Bool(true)),
        superseded_json(data, by).member("_superseded_by"@) == Some(Json::Text(by)),
        key != "_superseded"@ && key != "_superseded_by"@ ==> superseded_json(data, by).member(key)
            == data.member(key),
{
    reveal_strlit("_superseded");
    reveal_strlit("_superseded_by");
    assert("_superseded"@.len() != "_superseded_by"@.len());
}

/// Every record that a record was compared with, but for itself, is a conflict where it
/// is superseded or contradicts, and only there; it is superseded where the comparison
/// says so.
pub proof fn conflicts_are_what_was_compared(record: Seq<char>, compared: Seq<Compared>)
    requires
        compared.len() <= usize::MAX,
    ensures
        forall|k: int|
            #![trigger compared[k]]
            0 <= k < compared.len() ==> {
                let steps = conflict_steps(record, compared);
                let x = compared[k];
                &&& steps.contains(ConflictStep { at: k as usize, supersedes: true }) <==> x.id@
                    != record && x.verdict == Verdict::Supersedes
                &&& steps.contains(ConflictStep { at: k as usize, supersedes: false }) <==> x.id@
                    != record && x.verdict == Verdict::Contradicts
            },
        forall|i: int|
            0 <= i < conflict_steps(record, compared).len() ==> (#[trigger] conflict_steps(
                record,
                compared,
            )[i]).at < compared.len(),
    decreases compared.len(),
{
    if compared.len() > 0 {
        let d = compared.drop_last();
        conflicts_are_what_was_compared(record, d);
        let before = conflict_steps(record, d);
        let all = conflict_steps(record, compared);
        let last = (compared.len() - 1) as usize;
        let x = compared.last();
        let made = ConflictStep { at: last, supersedes: x.verdict == Verdict::Supersedes };
        assert forall|k: int| #![trigger compared[k]] 0 <= k < compared.len() implies {
            let x = compared[k];
            &&& all.contains(ConflictStep { at: k as usize, supersedes: true }) <==> x.id@ != record
                && x.verdict == Verdict::Supersedes
            &&& all.contains(ConflictStep { at: k as usize, supersedes: false }) <==> x.id@
                != record && x.verdict == Verdict::Contradicts
        } by {
            let yes = ConflictStep { at: k as usize, supersedes: true };
            let no = ConflictStep { at: k as usize, supersedes: false };
            crate::text::lemma_push_contains(before, made, yes);
            crate::text::lemma_push_contains(before, made, no);
            if k < last {
                assert(d[k] == compared[k]);
            } else {
                if before.contains(yes) {
                    let i = choose|i: int| 0 <= i < before.len() && before[i] == yes;
                    assert(before[i].at < d.len());
                }
                if before.contains(no) {
                    let i = choose|i: int| 0 <= i < before.len() && before[i] == no;
                    assert(before[i].at < d.len());
                }
            }
        }
    }
}

/// Two instants outside leap seconds are apart where two hours or more lie between them,
/// whichever comes first.
pub proof fn two_hours_are_apart(a: Timestamp, b: Timestamp)
    requires
        a.nanos < 1_000_000_000,
        b.nanos < 1_000_000_000,
    ensures
        apart(a, b) <==> {
            let x = a.secs * 1_000_000_000 + a.nanos;
            let y = b.secs * 1_000_000_000 + b.nanos;
            x - y >= 7_200_000_000_000 || y - x >= 7_200_000_000_000
        },
        apart(a, b) == apart(b, a),
{
}

/// A link is made to a record that is alike exactly where it is another one that reaches
/// the threshold, is there, is of another table or two hours apart, and is not linked
/// yet. Of several hits of one record the first is taken, so no record is linked twice.
pub proof fn similar_records_are_linked_once(
    similar: Seq<Similar>,
    record: RecordView,
    threshold: i32,
    linked: Set<Seq<char>>,
)
    requires
        similar.len() <= usize::MAX,
    ensures
        ({
            let r = similar_places(similar, record, threshold, linked);
            &&& forall|i: int|
                0 <= i < r.len() ==> {
                    &&& (#[trigger] r[i]) < similar.len()
                    &&& similar[r[i] as int].id@ != record.id
                    &&& similar[r[i] as int].score >= threshold
                    &&& !linked.contains(similar[r[i] as int].id@)
                    &&& similar[r[i] as int].record matches Some(x) && (x.table@ != record.table
                        || apart(record.created_at, x.created_at))
                }
            &&& forall|i: int, j: int|
                0 <= i < j < r.len() ==> similar[(#[trigger] r[i]) as int].id@ != similar[(
                #[trigger] r[j]) as int].id@
            &&& forall|k: int|
                0 <= k < similar.len() && (#[trigger] similar[k]).id@ != record.id
                    && similar[k].score >= threshold && !linked.contains(similar[k].id@)
                    && (similar[k].record matches Some(x) && (x.table@ != record.table || apart(
                    record.created_at,
                    x.created_at,
                ))) ==> exists|i: int|
                    0 <= i < r.len() && similar[(#[trigger] r[i]) as int].id@ == similar[k].id@
        }),
    decreases similar.len(),
{
    let r = similar_places(similar, record, threshold, linked);
    if similar.len() > 0 {
        let d = similar.drop_last();
        let x = similar.last();
        similar_records_are_linked_once(d, record, threshold, linked);
        let before = similar_places(d, record, threshold, linked);
        let last = similar.len() - 1;
        assert forall|i: int| 0 <= i < before.len() implies similar[(
        #[trigger] before[i]) as int] == d[before[i] as int] && before[i] == r[i] by {}
        let met = exists|i: int|
            0 <= i < d.len() && (#[trigger] d[i]).id@ == x.id@ && d[i].worth_linking(
                record,
                threshold,
            );
        if x.worth_linking(record, threshold) && !linked.contains(x.id@) && met {
            let k = choose|i: int|
                0 <= i < d.len() && (#[trigger] d[i]).id@ == x.id@ && d[i].worth_linking(
                    record,
                    threshold,
                );
            assert(exists|i: int|
                0 <= i < before.len() && d[(#[trigger] before[i]) as int].id@ == d[k].id@);
            let i = choose|i: int|
                0 <= i < before.len() && d[(#[trigger] before[i]) as int].id@ == d[k].id@;
            assert(similar[r[i] as int].id@ == x.id@);
        }
        assert forall|k: int|
            0 <= k < similar.len() && (#[trigger] similar[k]).worth_linking(record, threshold)
                && !linked.contains(similar[k].id@) implies exists|i: int|
            0 <= i < r.len() && similar[(#[trigger] r[i]) as int].id@ == similar[k].id@ by {
            if k < last {
                assert(similar[k] == d[k]);
                let i = choose|i: int|
                    0 <= i < before.len() && d[(#[trigger] before[i]) as int].id@ == d[k].id@;
                assert(r[i] == before[i]);
            } else if !met {
                assert(r[before.len() as int] == last);
            }
        }
        assert forall|i: int, j: int| 0 <= i < j < r.len() implies similar[(
        #[trigger] r[i]) as int].id@ != similar[(#[trigger] r[j]) as int].id@ by {
            assert(r[i] == before[i]);
            let y = d[before[i] as int];
            assert(y.worth_linking(record, threshold));
            if j < before.len() {
                assert(r[j] == before[j]);
            }
        }
    }
}

/// The file that a record is about is the first that it names, of `file`, `path` and
/// `file_path`, or else the first text of its `files`, `files_changed` or
/// `files_modified`. Empty texts name nothing.
pub proof fn files_are_looked_for_in_order(data: Json)
    ensures
        ({
            let named = |k: Seq<char>| data.member(k) matches Some(Json::Text(s)) && s.len() > 0;
            let listed = |k: Seq<char>|
                data.member(k) matches Some(Json::Array(a)) && a.len() > 0 && (a[0] matches Json::Text(
                    s,
                ) && s.len() > 0);
            let text = |k: Seq<char>| Some(data.member(k)->0->Text_0);
            let first = |k: Seq<char>| Some(data.member(k)->0->Array_0[0]->Text_0);
            let none = !named("file"@) && !named("path"@) && !named("file_path"@);
            &&& named("file"@) ==> file_hint(data) == text("file"@)
            &&& !named("file"@) && named("path"@) ==> file_hint(data) == text("path"@)
            &&& !named("file"@) && !named("path"@) && named("file_path"@) ==> file_hint(data)
                == text("file_path"@)
            &&& none && listed("files"@) ==> file_hint(data) == first("files"@)
            &&& none && !(data.member("files"@) is Some) && listed("files_changed"@) ==> file_hint(
                data,
            ) == first("files_changed"@)
            &&& none && !(data.member("files"@) is Some) && !(data.member("files_changed"@) is Some)
                && listed("files_modified"@) ==> file_hint(data) == first("files_modified"@)
            &&& none && !(data.member("files"@) is Some) && !(data.member("files_changed"@) is Some)
                && !(data.member("files_modified"@) is Some) ==> file_hint(data) is None
        }),
{
}

/// What is known under a canonical id is the last row with it.
proof fn lemma_last_row(rows: Seq<RecordView>, c: Seq<char>, i: int)
    requires
        0 <= i < rows.len(),
        row_canonical(rows[i]) == Some(c),
        forall|j: int| i < j < rows.len() ==> row_canonical(#[trigger] rows[j]) != Some(c),
    ensures
        known_entities(rows).contains_key(c),
        known_entities(rows)[c] == rows[i].id,
    decreases rows.len(),
{
    let d = rows.drop_last();
    let last = rows.len() - 1;
    assert(rows.last() == rows[last]);
    if i < last {
        assert(row_canonical(rows[last]) != Some(c));
        assert(d[i] == rows[i]);
        assert forall|j: int| i < j < d.len() implies row_canonical(#[trigger] d[j]) != Some(c) by {
            assert(d[j] == rows[j]);
        }
        lemma_last_row(d, c, i);
    }
}

/// Nothing is known under a canonical id that no row has.
proof fn lemma_no_row(rows: Seq<RecordView>, c: Seq<char>)
    requires
        forall|j: int| 0 <= j < rows.len() ==> row_canonical(#[trigger] rows[j]) != Some(c),
    ensures
        !known_entities(rows).contains_key(c),
    decreases rows.len(),
{
    if rows.len() > 0 {
        let d = rows.drop_last();
        let last = rows.len() - 1;
        assert(row_canonical(rows[last]) != Some(c));
        assert forall|j: int| 0 <= j < d.len() implies row_canonical(#[trigger] d[j]) != Some(c) by {
            assert(d[j] == rows[j]);
        }
        lemma_no_row(d, c);
    }
}

/// A row goes by its canonical id, or by its name where it has none. What is known under
/// an id is the last row that goes by it.
pub proof fn the_last_row_of_an_entity_is_known(rows: Seq<RecordView>, c: Seq<char>, i: int)
    requires
        0 <= i < rows.len(),
        rows[i].data.member("canonical_id"@) == Some(Json::Text(c)) || (!(rows[i].data.member(
            "canonical_id"@,
        ) matches Some(Json::Text(_))) && rows[i].data.member("name"@) == Some(Json::Text(c))),
        forall|j: int|
            #![trigger rows[j]]
            i < j < rows.len() ==> rows[j].data.member("canonical_id"@) != Some(Json::Text(c))
                && rows[j].data.member("name"@) != Some(Json::Text(c)),
    ensures
        known_entities(rows).contains_key(c),
        known_entities(rows)[c] == rows[i].id,
{
    assert(row_canonical(rows[i]) == Some(c));
    assert forall|j: int| i < j < rows.len() implies row_canonical(#[trigger] rows[j]) != Some(
        c,
    ) by {}
    lemma_last_row(rows, c, i);
}

/// Nothing is known that no row names.
pub proof fn only_rows_are_known(rows: Seq<RecordView>, c: Seq<char>)
    requires
        forall|j: int|
            #![trigger rows[j]]
            0 <= j < rows.len() ==> rows[j].data.member("canonical_id"@) != Some(Json::Text(c))
                && rows[j].data.member("name"@) != Some(Json::Text(c)),
    ensures
        !known_entities(rows).contains_key(c),
{
    assert forall|j: int| 0 <= j < rows.len() implies row_canonical(#[trigger] rows[j]) != Some(
        c,
    ) by {}
    lemma_no_row(rows, c);
}

/// The places that are picked are exactly those whose item is not known and does not
/// come before.
pub proof fn first_places_are_the_first(items: Seq<Seq<char>>, known: Set<Seq<char>>)
    requires
        items.len() <= usize::MAX,
    ensures
        forall|k: int|
            0 <= k < items.len() ==> (#[trigger] first_places(items, known).contains(k as usize)
                <==> !known.contains(items[k]) && forall|j: int|
                0 <= j < k ==> (#[trigger] items[j]) != items[k]),
        forall|i: int|
            0 <= i < first_places(items, known).len() ==> (#[trigger] first_places(
                items,
                known,
            )[i]) < items.len(),
        forall|i: int, j: int|
            0 <= i < j < first_places(items, known).len() ==> (#[trigger] first_places(
                items,
                known,
            )[i]) < (#[trigger] first_places(items, known)[j]),
    decreases items.len(),
{
    if items.len() > 0 {
        let d = items.drop_last();
        first_places_are_the_first(d, known);
        let before = first_places(d, known);
        let all = first_places(items, known);
        let last = (items.len() - 1) as usize;
        assert forall|k: int| 0 <= k < items.len() implies (#[trigger] all.contains(k as usize)
            <==> !known.contains(items[k]) && forall|j: int|
            0 <= j < k ==> (#[trigger] items[j]) != items[k]) by {
            crate::text::lemma_push_contains(before, last, k as usize);
            if k < last {
                assert(d[k] == items[k]);
                assert(before.contains(k as usize) <==> !known.contains(d[k]) && forall|j: int|
                    0 <= j < k ==> (#[trigger] d[j]) != d[k]);
                assert forall|j: int| 0 <= j < k implies d[j] == (#[trigger] items[j]) by {}
                assert forall|j: int| 0 <= j < k implies (#[trigger] d[j]) == items[j] by {}
            } else {
                if before.contains(last) {
                    let i = choose|i: int| 0 <= i < before.len() && before[i] == last;
                    assert(before[i] < d.len());
                }
                assert(d.contains(items[k]) <==> exists|j: int|
                    0 <= j < k && (#[trigger] items[j]) == items[k]) by {
                    if d.contains(items[k]) {
                        let j = choose|j: int| 0 <= j < d.len() && d[j] == items[k];
                        assert(items[j] == items[k]);
                    }
                    if exists|j: int| 0 <= j < k && (#[trigger] items[j]) == items[k] {
                        let j = choose|j: int| 0 <= j < k && (#[trigger] items[j]) == items[k];
                        assert(d[j] == items[k]);
                    }
                }
            }
        }
    }
}

/// What is known once rows were made: an item that was not given a row stays what it
/// was, and one that was is known by that row.
proof fn lemma_assigned_of(
    known: Map<Seq<char>, Seq<char>>,
    ids: Seq<Seq<char>>,
    created: Seq<usize>,
    rows: Seq<Record>,
    c: Seq<char>,
)
    requires
        created.len() == rows.len(),
        forall|k: int| 0 <= k < created.len() ==> (#[trigger] created[k]) < ids.len(),
        forall|i: int, j: int|
            0 <= i < j < created.len() ==> ids[(#[trigger] created[i]) as int] != ids[(
            #[trigger] created[j]) as int],
    ensures
        (forall|k: int| 0 <= k < created.len() ==> ids[(#[trigger] created[k]) as int] != c)
            ==> assigned(known, ids, created, rows)[c] == known[c],
        forall|k: int|
            0 <= k < created.len() && ids[(#[trigger] created[k]) as int] == c ==> assigned(
                known,
                ids,
                created,
                rows,
            )[c] == rows[k].id@,
    decreases created.len(),
{
    if created.len() > 0 {
        let a = created.drop_last();
        let b = rows.drop_last();
        assert forall|k: int| 0 <= k < a.len() implies (#[trigger] a[k]) < ids.len() by {
            assert(a[k] == created[k]);
        }
        assert forall|i: int, j: int| 0 <= i < j < a.len() implies ids[(#[trigger] a[i]) as int]
            != ids[(#[trigger] a[j]) as int] by {
            assert(a[i] == created[i] && a[j] == created[j]);
        }
        lemma_assigned_of(known, ids, a, b, c);
        let last = created.len() - 1;
        assert forall|k: int| 0 <= k < a.len() implies (#[trigger] a[k]) == created[k] by {}
        assert forall|k: int|
            0 <= k < created.len() && ids[(#[trigger] created[k]) as int] == c implies assigned(
            known,
            ids,
            created,
            rows,
        )[c] == rows[k].id@ by {
            if k < last {
                assert(a[k] == created[k]);
                assert(b[k] == rows[k]);
                assert(ids[created[last] as int] != c);
            }
        }
        if forall|k: int| 0 <= k < created.len() ==> ids[(#[trigger] created[k]) as int] != c {
            assert(ids[created[last] as int] != c);
            assert forall|k: int| 0 <= k < a.len() implies ids[(#[trigger] a[k]) as int] != c by {
                assert(a[k] == created[k]);
            }
        }
    }
}

/// The items at the places that are picked differ, and none of them is known.
proof fn lemma_picked_differ(items: Seq<Seq<char>>, known: Set<Seq<char>>)
    requires
        items.len() <= usize::MAX,
    ensures
        forall|i: int, j: int|
            0 <= i < j < first_places(items, known).len() ==> items[(#[trigger] first_places(
                items,
                known,
            )[i]) as int] != items[(#[trigger] first_places(items, known)[j]) as int],
        forall|i: int|
            0 <= i < first_places(items, known).len() ==> (#[trigger] first_places(
                items,
                known,
            )[i]) < items.len() && !known.contains(items[first_places(items, known)[i] as int]),
        forall|k: int|
            0 <= k < items.len() && !known.contains(#[trigger] items[k]) ==> exists|i: int|
                0 <= i < first_places(items, known).len() && items[(#[trigger] first_places(
                    items,
                    known,
                )[i]) as int] == items[k],
{
    first_places_are_the_first(items, known);
    let p = first_places(items, known);
    assert forall|i: int| 0 <= i < p.len() implies (#[trigger] p[i]) < items.len()
        && !known.contains(items[p[i] as int]) by {
        assert(p.contains(p[i]));
        assert(p.contains((p[i] as int) as usize));
    }
    assert forall|i: int, j: int| 0 <= i < j < p.len() implies items[(#[trigger] p[i]) as int]
        != items[(#[trigger] p[j]) as int] by {
        assert(p.contains(p[j]));
        assert(p.contains((p[j] as int) as usize));
        assert(p[i] < p[j]);
    }
    assert forall|k: int| 0 <= k < items.len() && !known.contains(#[trigger] items[k]) implies exists|
        i: int,
    | 0 <= i < p.len() && items[(#[trigger] p[i]) as int] == items[k] by {
        let at = lemma_first_of(items, k);
        assert(p.contains(at as usize));
        let i = choose|i: int| 0 <= i < p.len() && p[i] == at;
        assert(items[p[i] as int] == items[k]);
    }
}

/// What the rows that are made hold.
proof fn lemma_made_rows(
    plan: MentionPlan,
    entities: Seq<EntityView>,
    ids: Seq<Seq<char>>,
    known: Map<Seq<char>, Seq<char>>,
    now: Timestamp,
    k: int,
)
    requires
        plan.places(entities, ids, known, now),
        0 <= k < plan.rows@.len(),
    ensures
        plan.rows@[k].table@ == "_entities"@,
        plan.rows@[k].data.model().member("canonical_id"@) == Some(
            Json::Text(ids[plan.created@[k] as int]),
        ),
        plan.rows@[k].data.model().member("name"@) == Some(
            Json::Text(entities[plan.created@[k] as int].name),
        ),
{
    let row = plan.rows@[k];
    let e = entities[plan.created@[k] as int];
    let id = ids[plan.created@[k] as int];
    assert(is_entity_row(row, e, id, now));
    entity_rows_say_what_was_found(e, id);
    assert(row@.data == entity_data(e, id));
    assert(row@.table == "_entities"@);
}

/// Every entity of a text is linked by the row that is known for its canonical id, or
/// else by a new row of that id.
pub proof fn entities_go_by_the_row_of_their_id(
    plan: MentionPlan,
    entities: Seq<EntityView>,
    file: Option<Seq<char>>,
    known: Map<Seq<char>, Seq<char>>,
    linked: Set<Seq<char>>,
    now: Timestamp,
    i: int,
)
    requires
        plan.links(entities, file, known, linked, now),
        entities.len() <= usize::MAX,
        0 <= i < entities.len(),
    ensures
        plan.targets@.len() == entities.len(),
        known.contains_key(canonical_id(entities[i], file)) ==> plan.targets@[i]@
            == known[canonical_id(entities[i], file)],
        !known.contains_key(canonical_id(entities[i], file)) ==> exists|k: int|
            0 <= k < plan.rows@.len() && (#[trigger] plan.rows@[k]).id@ == plan.targets@[i]@
                && plan.rows@[k].table@ == "_entities"@ && plan.rows@[k].data.model().member(
                "canonical_id"@,
            ) == Some(Json::Text(canonical_id(entities[i], file))),
{
    let ids = canonicals(entities, file);
    let created = plan.created@;
    let rows = plan.rows@;
    assert(ids[i] == canonical_id(entities[i], file));
    lemma_picked_differ(ids, known.dom());
    lemma_assigned_of(known, ids, created, rows, ids[i]);
    if known.contains_key(ids[i]) {
        assert forall|k: int| 0 <= k < created.len() implies ids[(#[trigger] created[k]) as int]
            != ids[i] by {}
    } else {
        let k = choose|k: int|
            0 <= k < created.len() && ids[(#[trigger] created[k]) as int] == ids[i];
        lemma_made_rows(plan, entities, ids, known, now, k);
        assert(rows[k].id@ == plan.targets@[i]@);
    }
}

/// A row is made for no canonical id that is known, and for none twice, and it names one
/// of the entities.
pub proof fn entities_get_one_row(
    plan: MentionPlan,
    entities: Seq<EntityView>,
    file: Option<Seq<char>>,
    known: Map<Seq<char>, Seq<char>>,
    linked: Set<Seq<char>>,
    now: Timestamp,
    j: int,
    k: int,
)
    requires
        plan.links(entities, file, known, linked, now),
        entities.len() <= usize::MAX,
        0 <= j < k < plan.rows@.len(),
    ensures
        plan.rows@[j].data.model().member("canonical_id"@) != plan.rows@[k].data.model().member(
            "canonical_id"@,
        ),
        exists|i: int|
            0 <= i < entities.len() && !known.contains_key(
                canonical_id(#[trigger] entities[i], file),
            ) && plan.rows@[k].data.model().member("canonical_id"@) == Some(
                Json::Text(canonical_id(entities[i], file)),
            ) && plan.rows@[k].data.model().member("name"@) == Some(Json::Text(entities[i].name)),
{
    let ids = canonicals(entities, file);
    lemma_picked_differ(ids, known.dom());
    lemma_made_rows(plan, entities, ids, known, now, j);
    lemma_made_rows(plan, entities, ids, known, now, k);
    assert(ids[plan.created@[j] as int] != ids[plan.created@[k] as int]);
    let i = plan.created@[k] as int;
    assert(ids[i] == canonical_id(entities[i], file));
}

/// An edge goes to the row of every entity that is not linked yet, once, and to no other.
pub proof fn entities_get_one_edge(
    plan: MentionPlan,
    entities: Seq<EntityView>,
    file: Option<Seq<char>>,
    known: Map<Seq<char>, Seq<char>>,
    linked: Set<Seq<char>>,
    now: Timestamp,
)
    requires
        plan.links(entities, file, known, linked, now),
        entities.len() <= usize::MAX,
    ensures
        forall|i: int|
            0 <= i < entities.len() && !linked.contains((#[trigger] plan.targets@[i])@)
                ==> exists|e: int|
                0 <= e < plan.edges@.len() && plan.targets@[(#[trigger] plan.edges@[e]) as int]@
                    == plan.targets@[i]@,
        forall|e: int|
            0 <= e < plan.edges@.len() ==> (#[trigger] plan.edges@[e]) < entities.len()
                && !linked.contains(plan.targets@[plan.edges@[e] as int]@),
        forall|a: int, b: int|
            0 <= a < b < plan.edges@.len() ==> plan.targets@[(#[trigger] plan.edges@[a]) as int]@
                != plan.targets@[(#[trigger] plan.edges@[b]) as int]@,
{
    let targets = ids_view(plan.targets@);
    lemma_picked_differ(targets, linked);
    assert forall|i: int| 0 <= i < entities.len() implies #[trigger] targets[i]
        == plan.targets@[i]@ by {}
    assert forall|i: int|
        0 <= i < entities.len() && !linked.contains((#[trigger] plan.targets@[i])@) implies exists|
        e: int,
    |
        0 <= e < plan.edges@.len() && plan.targets@[(#[trigger] plan.edges@[e]) as int]@
            == plan.targets@[i]@ by {
        assert(!linked.contains(targets[i]));
        let e = choose|e: int|
            0 <= e < plan.edges@.len() && targets[(#[trigger] plan.edges@[e]) as int]
                == targets[i];
        assert(targets[plan.edges@[e] as int] == plan.targets@[plan.edges@[e] as int]@);
    }
    assert forall|e: int| 0 <= e < plan.edges@.len() implies (#[trigger] plan.edges@[e])
        < entities.len() && !linked.contains(plan.targets@[plan.edges@[e] as int]@) by {
        assert(targets[plan.edges@[e] as int] == plan.targets@[plan.edges@[e] as int]@);
    }
    assert forall|a: int, b: int| 0 <= a < b < plan.edges@.len() implies plan.targets@[(
    #[trigger] plan.edges@[a]) as int]@ != plan.targets@[(#[trigger] plan.edges@[b]) as int]@ by {
        assert(targets[plan.edges@[a] as int] != targets[plan.edges@[b] as int]);
    }
}

/// Where an item comes for the first time.
proof fn lemma_first_of(items: Seq<Seq<char>>, i: int) -> (at: int)
    requires
        0 <= i < items.len(),
    ensures
        0 <= at <= i,
        items[at] == items[i],
        forall|j: int| 0 <= j < at ==> (#[trigger] items[j]) != items[i],
    decreases i,
{
    if exists|j: int| 0 <= j < i && (#[trigger] items[j]) == items[i] {
        let j = choose|j: int| 0 <= j < i && (#[trigger] items[j]) == items[i];
        lemma_first_of(items, j)
    } else {
        i
    }
}

/// The row of an entity says what was found: its name, its id, its text, and what it is.
pub proof fn entity_rows_say_what_was_found(e: EntityView, canonical: Seq<char>)
    ensures
        entity_data(e, canonical).member("name"@) == Some(Json::Text(e.name)),
        entity_data(e, canonical).member("canonical_id"@) == Some(Json::Text(canonical)),
        entity_data(e, canonical).member("source_text"@) == Some(Json::Text(e.source_text)),
        e.entity_type is File ==> entity_data(e, canonical).member("entity_type"@) == Some(
            Json::Text("file"@),
        ),
        e.entity_type is Code ==> entity_data(e, canonical).member("entity_type"@) == Some(
            Json::Text("code"@),
        ),
        e.entity_type is Project ==> entity_data(e, canonical).member("entity_type"@) == Some(
            Json::Text("project"@),
        ),
        e.entity_type is Reference ==> entity_data(e, canonical).member("entity_type"@) == Some(
            Json::Text("reference"@),
        ),
        e.entity_type matches TypeView::CodeSymbol(lang) ==> (entity_data(e, canonical).member(
            "entity_type"@,
        ) matches Some(t) && (t.member("code_symbol"@) matches Some(s) && s.member("lang_hint"@)
            == Some(
            match lang {
                Some(l) => Json::Text(l),
                None => Json::Null,
            },
        ))),
{
    reveal_strlit("name");
    reveal_strlit("canonical_id");
    reveal_strlit("entity_type");
    reveal_strlit("source_text");
    assert("name"@.len() == 4 && "canonical_id"@.len() == 12);
    assert("entity_type"@[0] == 'e' && "source_text"@[0] == 's');
    assert("entity_type"@.len() == 11 && "source_text"@.len() == 11);
}

/// The first fifty entities of a text are linked.
pub proof fn fifty_entities_are_linked()
    ensures
        MAX_AUTO_LINK_ENTITIES == 50,
{
}

/// What storing a record supersedes: every rival of its table that reaches 0.92, is not
/// younger, and is neither pinned nor superseded yet, and no other.
pub proof fn storing_supersedes_near_identical_records(
    new: &Record,
    rivals: &Vec<Rival>,
    r: Vec<usize>,
    k: int,
)
    requires
        call_ensures(Axil::auto_supersede_with_vector, (new, rivals), r),
        0 <= k < rivals@.len(),
    ensures
        r@.contains(k as usize) <==> {
            let old = rivals@[k].record;
            &&& rivals@[k].score >= 0x3f6b_851f
            &&& old.id@ != new.id@
            &&& old.table@ == new.table@
            &&& old.created_at.secs < new.created_at.secs || (old.created_at.secs
                == new.created_at.secs && old.created_at.nanos <= new.created_at.nanos)
            &&& old.data.model().member("_importance_pinned"@) != Some(Json::Bool(true))
            &&& old.data.model().member("_superseded"@) != Some(Json::Bool(true))
        },
        forall|i: int| 0 <= i < r@.len() ==> (#[trigger] r@[i]) < rivals@.len(),
{
    assert(rivals.len() == rivals@.len());
    near_identical_records_are_superseded(new@, rivals@);
}

/// A link is made to a record that is alike enough, is not linked yet, and is of another
/// table or two hours away; it is made once, and to no other record.
pub proof fn alike_records_get_one_link(
    record: &Record,
    similar: &Vec<Similar>,
    threshold: i32,
    linked: &Vec<RecordId>,
    r: Vec<usize>,
    k: int,
    i: int,
)
    requires
        call_ensures(Axil::similarity_links, (record, similar, threshold, linked), r),
        0 <= k < similar@.len(),
    ensures
        0 <= i < r@.len() ==> r@[i] < similar@.len() && similar@[r@[i] as int].score >= threshold
            && similar@[r@[i] as int].id@ != record.id@ && !ids_view(linked@).contains(
            similar@[r@[i] as int].id@,
        ),
        similar@[k].id@ != record.id@ && similar@[k].score >= threshold && !ids_view(
            linked@,
        ).contains(similar@[k].id@) && (similar@[k].record matches Some(x) && x.table@
            != record.table@) ==> exists|j: int|
            0 <= j < r@.len() && similar@[(#[trigger] r@[j]) as int].id@ == similar@[k].id@,
{
    assert(similar.len() == similar@.len());
    let l = ids_view(linked@).to_set();
    similar_records_are_linked_once(similar@, record@, threshold, l);
    assert(similar@[k] == similar@[k]);
}

/// A comparison that found a conflict is a step, superseding or not as it said; a record is
/// in no conflict with itself or with one that has nothing to do with it.
pub proof fn each_conflict_is_one_step(
    record: &RecordId,
    compared: &Vec<Compared>,
    r: Vec<ConflictStep>,
    k: int,
)
    requires
        call_ensures(Axil::detect_conflicts, (record, compared), r),
        0 <= k < compared@.len(),
    ensures
        r@.contains(ConflictStep { at: k as usize, supersedes: true }) <==> compared@[k].id@
            != record@ && compared@[k].verdict == Verdict::Supersedes,
        r@.contains(ConflictStep { at: k as usize, supersedes: false }) <==> compared@[k].id@
            != record@ && compared@[k].verdict == Verdict::Contradicts,
{
    assert(compared.len() == compared@.len());
    conflicts_are_what_was_compared(record@, compared@);
    assert(compared@[k] == compared@[k]);
}

/// The file that a record is about is the one it names, or else the first of those it lists.
pub proof fn named_files_come_before_listed_ones(data: &Value, r: Option<String>, s: Seq<char>)
    requires
        call_ensures(pick_file_hint, (data,), r),
        s.len() > 0,
    ensures
        data.model().member("file"@) == Some(Json::Text(s)) ==> (r matches Some(x) && x@ == s),
        data.model().member("file"@) is None && data.model().member("path"@) == Some(Json::Text(s))
            ==> (r matches Some(x) && x@ == s),
        data.model().member("file"@) is None && data.model().member("path"@) is None
            && data.model().member("file_path"@) is None && data.model().member("files"@) is None
            && data.model().member("files_changed"@) is None && data.model().member(
            "files_modified"@,
        ) is None ==> r is None,
{
    files_are_looked_for_in_order(data.model());
}

/// A record whose place is taken says so and names the one that took it; its other members
/// stay.
pub proof fn superseded_data_names_the_newer_record(
    data: &Value,
    by: &RecordId,
    r: Value,
    k: Seq<char>,
)
    requires
        call_ensures(superseded_data, (data, by), r),
        data.model() is Object,
    ensures
        r.model().member("_superseded"@) == Some(Json::Bool(true)),
        r.model().member("_superseded_by"@) == Some(Json::Text(by@)),
        k != "_superseded"@ && k != "_superseded_by"@ ==> r.model().member(k)
            == data.model().member(k),
{
    reveal_strlit("_superseded");
    reveal_strlit("_superseded_by");
    assert("_superseded"@.len() == 11 && "_superseded_by"@.len() == 14);
}

/// The entities of a record are linked, fifty of them at most: each goes by a row, and there
/// is an edge to each row that was not linked yet.
pub proof fn mentioned_entities_are_linked(
    entities: &Vec<Entity>,
    data: &Value,
    rows: &Vec<Record>,
    linked: &Vec<RecordId>,
    now: Timestamp,
    r: MentionPlan,
    i: int,
)
    requires
        call_ensures(Axil::auto_link, (entities, data, rows, linked, now), r),
    ensures
        entities@.len() <= 50 ==> r.targets@.len() == entities@.len(),
        entities@.len() > 50 ==> r.targets@.len() == 50,
        0 <= i < r.targets@.len() && !ids_view(linked@).contains(r.targets@[i]@) ==> exists|e: int|
            0 <= e < r.edges@.len() && r.targets@[(#[trigger] r.edges@[e]) as int]@
                == r.targets@[i]@,
{
    assert(entities.len() == entities@.len());
    let n: int = if entities@.len() > 50 {
        50
    } else {
        entities@.len() as int
    };
    let all = crate::entity::entities_view(entities@);
    assert(all.len() == entities@.len());
    let some = all.take(n);
    let file = file_hint(data.model());
    let known = known_entities(records_view(rows@));
    let l = ids_view(linked@).to_set();
    entities_get_one_edge(r, some, file, known, l, now);
    if n > 0 {
        entities_go_by_the_row_of_their_id(r, some, file, known, l, now, 0);
    }
    assert(r.targets@.len() == n) by {
        assert(canonicals(some, file).len() == n);
    }
    if 0 <= i < r.targets@.len() {
        assert(r.targets@[i] == r.targets@[i]);
    }
}

} // verus!
