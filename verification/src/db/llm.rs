//! What a language model adds where there is one: entities, and the table that a
//! record belongs in.

use crate::db::Axil;
use crate::entity::{
    candidates, entities_view, extract_entities, first_of_each, text_captures, Entity, EntityType,
    EntityView, TypeView,
};
use crate::json::{Json, Value};
use crate::text::{byte_len, chars_of, join3, join5, same_text, str_lowercase, trim, trimmed, utf8_len};
use vstd::hash_set::StringHashSet;
use vstd::prelude::*;
use vstd::string::StringExecFns;
use vstd::utf8::{encode_scalar, encode_utf8};

verus! {

/// The JSON that a model is asked to return entities in.
pub const ENTITY_SCHEMA: &'static str = "[{\"name\": \"string\", \"type\": \"person|code|concept|file\"}]";

/// What a model is asked to find entities with.
pub open spec fn entity_prompt_of(text: Seq<char>) -> Seq<char> {
    "Extract named entities from this text. Return a JSON array.\nText: \""@ + text
        + "\"\nSchema: [{\"name\": \"string\", \"type\": \"person|code|concept|file\"}]\nReturn ONLY the JSON array, no other text."@
}

/// What a model is asked to find entities with.
pub fn entity_prompt(text: &str) -> (r: String)
    ensures
        r@ == entity_prompt_of(text@),
{
    join3(
        "Extract named entities from this text. Return a JSON array.\nText: \"",
        text,
        "\"\nSchema: [{\"name\": \"string\", \"type\": \"person|code|concept|file\"}]\nReturn ONLY the JSON array, no other text.",
    )
}

/// What an entity that a model named is.
pub open spec fn named_type(t: Seq<char>) -> TypeView {
    if t == "file"@ {
        TypeView::File
    } else if t == "code"@ {
        TypeView::Code
    } else {
        TypeView::Reference
    }
}

/// The entity that an item of a model's reply names.
pub open spec fn named_entity(item: Json) -> Option<EntityView> {
    match (item.text_member("name"@), item.text_member("type"@)) {
        (Some(name), Some(t)) => Some(
            EntityView { name, entity_type: named_type(t), source_text: name },
        ),
        _ => None,
    }
}

/// Whether some entity has this name in small letters.
pub open spec fn is_named(e: Seq<EntityView>, low: Seq<char>) -> bool {
    exists|i: int| 0 <= i < e.len() && str_lowercase((#[trigger] e[i]).name) == low
}

/// The entities that a model named, each name only where it comes first, whatever its
/// case.
pub open spec fn named_entities(reply: Seq<Value>) -> Seq<EntityView>
    decreases reply.len(),
{
    if reply.len() == 0 {
        Seq::empty()
    } else {
        let before = named_entities(reply.drop_last());
        match named_entity(reply.last().model()) {
            Some(e) => if is_named(before, str_lowercase(e.name)) {
                before
            } else {
                before.push(e)
            },
            None => before,
        }
    }
}

/// The entities whose names a model did not name, and behind them those that it named.
pub open spec fn with_named(base: Seq<EntityView>, reply: Seq<Value>) -> Seq<EntityView> {
    let named = named_entities(reply);
    base.filter(|e: EntityView| !is_named(named, str_lowercase(e.name))) + named
}

/// A list with one more entity names what it named and that one.
proof fn lemma_named_push(e: Seq<EntityView>, x: EntityView, low: Seq<char>)
    ensures
        is_named(e.push(x), low) <==> is_named(e, low) || str_lowercase(x.name) == low,
{
    let p = e.push(x);
    if is_named(e, low) {
        let i = choose|i: int| 0 <= i < e.len() && str_lowercase((#[trigger] e[i]).name) == low;
        assert(p[i] == e[i]);
    }
    if str_lowercase(x.name) == low {
        assert(p[e.len() as int] == x);
    }
    if is_named(p, low) && str_lowercase(x.name) != low {
        let i = choose|i: int| 0 <= i < p.len() && str_lowercase((#[trigger] p[i]).name) == low;
        assert(p[i] == e[i]);
    }
}

/// What an entity that a model named is.
fn entity_type_named(t: &str) -> (r: EntityType)
    ensures
        r@ == named_type(t@),
{
    if same_text(t, "file") {
        EntityType::File
    } else if same_text(t, "code") {
        EntityType::Code
    } else {
        EntityType::Reference
    }
}

/// The entities that a model named, and their names in small letters.
fn entities_named(reply: &Vec<Value>) -> (r: (Vec<Entity>, StringHashSet))
    ensures
        entities_view(r.0@) == named_entities(reply@),
        forall|low: Seq<char>| #[trigger]
            r.1@.contains(low) <==> is_named(named_entities(reply@), low),
{
    let mut out: Vec<Entity> = Vec::new();
    let mut seen = StringHashSet::new();
    let mut i: usize = 0;
    assert(entities_view(out@) =~= named_entities(reply@.take(0)));
    while i < reply.len()
        invariant
            i <= reply@.len(),
            entities_view(out@) == named_entities(reply@.take(i as int)),
            forall|low: Seq<char>| #[trigger]
                seen@.contains(low) <==> is_named(entities_view(out@), low),
        decreases reply@.len() - i,
    {
        proof {
            assert(reply@.take(i + 1).drop_last() =~= reply@.take(i as int));
            assert(reply@.take(i + 1).last() == reply@[i as int]);
        }
        if let (Some(name), Some(t)) = (reply[i].get_str("name"), reply[i].get_str("type")) {
            let key = name.to_lowercase();
            if !seen.contains(key.as_str()) {
                let ghost low = key@;
                let ghost before = seen@;
                let ghost was = entities_view(out@);
                seen.insert(key);
                let e = Entity {
                    name: name.to_owned(),
                    entity_type: entity_type_named(t),
                    source_text: name.to_owned(),
                };
                let ghost x = e@;
                out.push(e);
                proof {
                    assert(entities_view(out@) =~= was.push(x));
                    assert forall|l: Seq<char>| #[trigger]
                        seen@.contains(l) <==> is_named(entities_view(out@), l) by {
                        lemma_named_push(was, x, l);
                        assert(before.contains(l) <==> is_named(was, l));
                    }
                }
            }
        }
        i += 1;
    }
    assert(reply@.take(i as int) =~= reply@);
    (out, seen)
}

/// The entities whose names a model did not name, and behind them those that it named.
pub fn add_named_entities(entities: Vec<Entity>, reply: &Vec<Value>) -> (r: Vec<Entity>)
    ensures
        entities_view(r@) == with_named(entities_view(entities@), reply@),
{
    let (more, seen) = entities_named(reply);
    let mut named = more;
    let ghost base = entities_view(entities@);
    let ghost keep = |e: EntityView| !is_named(named_entities(reply@), str_lowercase(e.name));
    let mut out: Vec<Entity> = Vec::new();
    proof {
        reveal(Seq::filter);
        assert(entities_view(out@) =~= base.take(0).filter(keep));
    }
    for e in it: entities
        invariant
            it.seq() == entities@,
            base == entities_view(entities@),
            keep == (|e: EntityView| !is_named(named_entities(reply@), str_lowercase(e.name))),
            forall|low: Seq<char>| #[trigger]
                seen@.contains(low) <==> is_named(named_entities(reply@), low),
            entities_view(out@) == base.take(it.index()).filter(keep),
    {
        proof {
            reveal(Seq::filter);
            let i = it.index();
            assert(base.take(i + 1).drop_last() =~= base.take(i));
            assert(base.take(i + 1).last() == e@);
        }
        let low = e.name.to_lowercase();
        if !seen.contains(low.as_str()) {
            let ghost was = entities_view(out@);
            let ghost x = e@;
            out.push(e);
            assert(entities_view(out@) =~= was.push(x));
        }
    }
    assert(base.take(base.len() as int) =~= base);
    let ghost kept = entities_view(out@);
    let ghost added = entities_view(named@);
    out.append(&mut named);
    assert(entities_view(out@) =~= kept + added);
    out
}

/// A model wins where it names what the patterns found: each entity that it named is
/// there, and no other has its name, whatever its case. What it did not name stays.
pub proof fn models_win(base: Seq<EntityView>, reply: Seq<Value>)
    ensures
        forall|i: int|
            0 <= i < named_entities(reply).len() ==> with_named(base, reply).contains(
                #[trigger] named_entities(reply)[i],
            ),
        forall|i: int, j: int|
            #![trigger with_named(base, reply)[i], named_entities(reply)[j]]
            0 <= i < with_named(base, reply).len() && 0 <= j < named_entities(reply).len()
                && str_lowercase(with_named(base, reply)[i].name) == str_lowercase(
                named_entities(reply)[j].name,
            ) ==> i == with_named(base, reply).len() - named_entities(reply).len() + j,
        forall|i: int|
            0 <= i < base.len() ==> with_named(base, reply).contains(#[trigger] base[i]) || is_named(
                named_entities(reply),
                str_lowercase(base[i].name),
            ),
{
    let named = named_entities(reply);
    let keep = |e: EntityView| !is_named(named, str_lowercase(e.name));
    let kept = base.filter(keep);
    let all = with_named(base, reply);
    assert forall|i: int| 0 <= i < named.len() implies all.contains(#[trigger] named[i]) by {
        assert(all[kept.len() + i] == named[i]);
    }
    assert forall|i: int, j: int|
        #![trigger all[i], named[j]]
        0 <= i < all.len() && 0 <= j < named.len() && str_lowercase(all[i].name) == str_lowercase(
            named[j].name,
        ) implies i == kept.len() + j by {
        if i < kept.len() {
            assert(all[i] == kept[i]);
            base.lemma_filter_pred(keep, i);
            assert(is_named(named, str_lowercase(all[i].name)));
        } else {
            assert(all[i] == named[i - kept.len()]);
            lemma_named_once(reply, i - kept.len(), j);
        }
    }
    assert forall|i: int| 0 <= i < base.len() implies all.contains(#[trigger] base[i]) || is_named(
        named,
        str_lowercase(base[i].name),
    ) by {
        if keep(base[i]) {
            base.lemma_filter_contains(keep, i);
            let k = choose|k: int| 0 <= k < kept.len() && kept[k] == base[i];
            assert(all[k] == base[i]);
        }
    }
}

/// No two entities that a model named have one name, whatever its case.
proof fn lemma_named_once(reply: Seq<Value>, i: int, j: int)
    requires
        0 <= i < named_entities(reply).len(),
        0 <= j < named_entities(reply).len(),
        str_lowercase(named_entities(reply)[i].name) == str_lowercase(
            named_entities(reply)[j].name,
        ),
    ensures
        i == j,
    decreases reply.len(),
{
    let before = named_entities(reply.drop_last());
    let all = named_entities(reply);
    if i < before.len() && j < before.len() {
        assert(all[i] == before[i] && all[j] == before[j]);
        lemma_named_once(reply.drop_last(), i, j);
    } else if i < before.len() {
        assert(all[i] == before[i]);
        assert(is_named(before, str_lowercase(all[j].name)));
    } else if j < before.len() {
        assert(all[j] == before[j]);
        assert(is_named(before, str_lowercase(all[i].name)));
    }
}

/// How many bytes of data a model is shown.
pub const PREVIEW_BYTES: usize = 500;

/// The characters at the front of a text that begin within its first `n` bytes.
pub open spec fn head(s: Seq<char>, n: int) -> Seq<char>
    decreases s.len(),
{
    if n <= 0 || s.len() == 0 {
        Seq::empty()
    } else {
        seq![s[0]] + head(s.drop_first(), n - encode_scalar(s[0] as u32).len())
    }
}

/// Whether a character begins or the text ends after `n` bytes.
pub open spec fn splits_at(s: Seq<char>, n: int) -> bool
    decreases s.len(),
{
    n == 0 || (n > 0 && s.len() > 0 && splits_at(
        s.drop_first(),
        n - encode_scalar(s[0] as u32).len(),
    ))
}

/// What of the data a model is shown.
pub open spec fn preview_of(data: Seq<char>) -> Seq<char> {
    if byte_len(data) > PREVIEW_BYTES {
        head(data, PREVIEW_BYTES as int)
    } else {
        data
    }
}

/// The preview of long data takes just as many bytes as are shown.
pub proof fn previews_are_bounded(s: Seq<char>, n: int)
    requires
        splits_at(s, n),
    ensures
        byte_len(head(s, n)) == n,
        head(s, n).is_prefix_of(s),
    decreases s.len(),
{
    if n > 0 {
        let w = encode_scalar(s[0] as u32).len() as int;
        previews_are_bounded(s.drop_first(), n - w);
        let h = head(s, n);
        let t = head(s.drop_first(), n - w);
        assert(h.drop_first() =~= t);
        assert(s.take(h.len() as int) =~= h);
    } else {
        assert(head(s, n) =~= Seq::<char>::empty());
        assert(s.take(0) =~= Seq::<char>::empty());
        assert(encode_utf8(Seq::<char>::empty()).len() == 0);
    }
}

/// The number of bytes of a character.
fn char_bytes(c: char) -> (r: usize)
    ensures
        r == encode_scalar(c as u32).len(),
        1 <= r <= 4,
{
    let n = c as u32;
    if n <= 0x7f {
        1
    } else if n <= 0x7ff {
        2
    } else if n <= 0xffff {
        3
    } else {
        4
    }
}

/// What of the data a model is shown. Data that is cut is cut between characters.
fn preview(data: &str) -> (r: String)
    requires
        byte_len(data@) > PREVIEW_BYTES ==> splits_at(data@, PREVIEW_BYTES as int),
    ensures
        r@ == preview_of(data@),
{
    if utf8_len(data) <= PREVIEW_BYTES {
        return data.to_owned();
    }
    let v = chars_of(data);
    let mut out = String::new();
    let mut left: usize = PREVIEW_BYTES;
    let mut i: usize = 0;
    assert(v@.skip(0) =~= v@);
    assert(out@ + head(v@, left as int) =~= head(v@, left as int));
    while left > 0 && i < v.len()
        invariant
            i <= v@.len(),
            splits_at(v@.skip(i as int), left as int),
            out@ + head(v@.skip(i as int), left as int) == head(v@, PREVIEW_BYTES as int),
        decreases v@.len() - i,
    {
        let c = v[i];
        let w = char_bytes(c);
        proof {
            let s = v@.skip(i as int);
            assert(s[0] == c);
            assert(s.drop_first() =~= v@.skip(i + 1));
            assert(splits_at(s.drop_first(), left - w));
            assert(left >= w);
            assert(out@ + head(s, left as int) =~= out@.push(c) + head(s.drop_first(), left - w));
        }
        out.push(c);
        left -= w;
        i += 1;
    }
    assert(out@ + Seq::<char>::empty() =~= out@);
    out
}

/// Names with a comma between each two.
pub open spec fn listed(names: Seq<String>) -> Seq<char>
    decreases names.len(),
{
    if names.len() == 0 {
        Seq::empty()
    } else if names.len() == 1 {
        names[0]@
    } else {
        listed(names.drop_last()) + ", "@ + names.last()@
    }
}

/// Names with a comma between each two.
fn list_names(names: &Vec<String>) -> (r: String)
    ensures
        r@ == listed(names@),
{
    let mut out = String::new();
    let mut i: usize = 0;
    assert(out@ =~= listed(names@.take(0)));
    while i < names.len()
        invariant
            i <= names@.len(),
            out@ == listed(names@.take(i as int)),
        decreases names@.len() - i,
    {
        proof {
            assert(names@.take(i + 1).drop_last() =~= names@.take(i as int));
            assert(names@.take(i + 1).last() == names@[i as int]);
        }
        if i == 0 {
            out = names[i].clone();
        } else {
            out.append(", ");
            out.append(names[i].as_str());
        }
        i += 1;
    }
    assert(names@.take(i as int) =~= names@);
    out
}

/// What a model is asked to find the table of a record with.
pub open spec fn table_prompt(tables: Seq<String>, data: Seq<char>) -> Seq<char> {
    "Given this data, which table does it belong in? Available tables: ["@ + listed(tables)
        + "]\nData: "@ + preview_of(data) + "\n\nReturn ONLY the table name, nothing else."@
}

/// The place of the first table that a reply names, whatever the case, or the number
/// of tables.
pub open spec fn table_named(tables: Seq<String>, reply: Seq<char>) -> nat
    decreases tables.len(),
{
    if tables.len() == 0 || str_lowercase(tables[0]@) == str_lowercase(trimmed(reply)) {
        0
    } else {
        1 + table_named(tables.drop_first(), reply)
    }
}

impl Axil {
    /// The entities of a text: those that the patterns find, and behind them those
    /// that a model named, where one was asked and its reply could be read. Where both
    /// have a name, the model's entity takes the place of the other.
    pub fn extract_entities_enhanced(text: &str, reply: Option<&Vec<Value>>) -> (r: Vec<Entity>)
        ensures
            ({
                let found = first_of_each(candidates(text@, text_captures(text@)));
                entities_view(r@) == match reply {
                    Some(items) => with_named(found, items@),
                    None => found,
                }
            }),
    {
        let found = extract_entities(text);
        match reply {
            Some(items) => add_named_entities(found, items),
            None => found,
        }
    }

    /// What a model is asked to find the table of a record with. It is asked where
    /// there are tables to choose from.
    pub fn categorize_request(tables: &Vec<String>, data: &str) -> (r: Option<String>)
        requires
            byte_len(data@) > PREVIEW_BYTES ==> splits_at(data@, PREVIEW_BYTES as int),
        ensures
            match r {
                Some(p) => tables@.len() > 0 && p@ == table_prompt(tables@, data@),
                None => tables@.len() == 0,
            },
    {
        if tables.len() == 0 {
            return None;
        }
        Some(
            join5(
                "Given this data, which table does it belong in? Available tables: [",
                list_names(tables).as_str(),
                "]\nData: ",
                preview(data).as_str(),
                "\n\nReturn ONLY the table name, nothing else.",
            ),
        )
    }

    /// The table that a model's reply names, where it is one that there is.
    pub fn auto_categorize(tables: &Vec<String>, reply: &str) -> (r: Option<String>)
        ensures
            match r {
                Some(t) => table_named(tables@, reply@) < tables@.len() && t@ == tables@[table_named(
                    tables@,
                    reply@,
                ) as int]@,
                None => table_named(tables@, reply@) == tables@.len(),
            },
    {
        let wanted = trim(reply).to_lowercase();
        let mut i: usize = 0;
        assert(tables@.skip(0) =~= tables@);
        while i < tables.len()
            invariant
                i <= tables@.len(),
                wanted@ == str_lowercase(trimmed(reply@)),
                table_named(tables@, reply@) == i + table_named(tables@.skip(i as int), reply@),
            decreases tables@.len() - i,
        {
            let low = tables[i].to_lowercase();
            assert(tables@.skip(i as int).drop_first() =~= tables@.skip(i + 1));
            if same_text(low.as_str(), wanted.as_str()) {
                return Some(tables[i].clone());
            }
            i += 1;
        }
        None
    }
}

/// The entity of an item is among those that a model named, where no item before it has its
/// name.
proof fn lemma_item_named(reply: Seq<Value>, i: int)
    requires
        0 <= i < reply.len(),
        named_entity(reply[i].model()) is Some,
        forall|j: int|
            0 <= j < i ==> (named_entity((#[trigger] reply[j]).model()) matches Some(e)
                ==> str_lowercase(e.name) != str_lowercase(
                named_entity(reply[i].model())->0.name,
            )),
    ensures
        named_entities(reply).contains(named_entity(reply[i].model())->0),
    decreases reply.len(),
{
    let d = reply.drop_last();
    let before = named_entities(d);
    let x = named_entity(reply[i].model())->0;
    if i < reply.len() - 1 {
        assert(d[i] == reply[i]);
        assert forall|j: int| 0 <= j < i implies (named_entity((#[trigger] d[j]).model())
            matches Some(e) ==> str_lowercase(e.name) != str_lowercase(
            named_entity(d[i].model())->0.name,
        )) by {
            assert(d[j] == reply[j]);
        }
        lemma_item_named(d, i);
        if named_entity(reply.last().model()) is Some {
            crate::text::lemma_push_contains(
                before,
                named_entity(reply.last().model())->0,
                x,
            );
        }
    } else {
        if is_named(before, str_lowercase(x.name)) {
            let k = choose|k: int|
                0 <= k < before.len() && str_lowercase((#[trigger] before[k]).name)
                    == str_lowercase(x.name);
            let j = lemma_named_from(d, k);
            assert(d[j] == reply[j]);
        }
        assert(before.push(x)[before.len() as int] == x);
    }
}

/// Each entity that a model named is that of an item.
proof fn lemma_named_from(reply: Seq<Value>, k: int) -> (j: int)
    requires
        0 <= k < named_entities(reply).len(),
    ensures
        0 <= j < reply.len(),
        named_entity(reply[j].model()) == Some(named_entities(reply)[k]),
    decreases reply.len(),
{
    let d = reply.drop_last();
    let before = named_entities(d);
    if k < before.len() {
        let j = lemma_named_from(d, k);
        assert(d[j] == reply[j]);
        j
    } else {
        reply.len() - 1
    }
}

/// Where a model was asked, each item of its reply with a name and a type is an entity,
/// unless an item before it has the same name: a file where it says so, code where it says
/// so, and a reference otherwise.
pub proof fn each_named_item_is_an_entity(
    text: &str,
    reply: &Vec<Value>,
    r: Vec<Entity>,
    i: int,
    name: Seq<char>,
    t: Seq<char>,
)
    requires
        call_ensures(Axil::extract_entities_enhanced, (text, Some(reply)), r),
        0 <= i < reply@.len(),
        reply@[i].model().member("name"@) == Some(Json::Text(name)),
        reply@[i].model().member("type"@) == Some(Json::Text(t)),
        forall|j: int|
            0 <= j < i ==> ((#[trigger] reply@[j]).model().member("name"@) matches Some(
                Json::Text(n),
            ) ==> str_lowercase(n) != str_lowercase(name)),
    ensures
        exists|k: int|
            0 <= k < r@.len() && (#[trigger] r@[k])@.name == name && r@[k]@.source_text == name
                && (t == "file"@ ==> r@[k]@.entity_type is File) && (t == "code"@
                ==> r@[k]@.entity_type is Code) && (t != "file"@ && t != "code"@
                ==> r@[k]@.entity_type is Reference),
{
    reveal_strlit("file");
    reveal_strlit("code");
    assert("file"@[0] == 'f' && "code"@[0] == 'c');
    let s = reply@;
    let x = named_entity(s[i].model())->0;
    assert(x.name == name);
    lemma_item_named(s, i);
    let found = first_of_each(candidates(text@, text_captures(text@)));
    let all = with_named(found, s);
    let named = named_entities(s);
    let j = choose|j: int| 0 <= j < named.len() && named[j] == x;
    let rest = found.filter(|e: EntityView| !is_named(named, str_lowercase(e.name)));
    assert(all == rest + named);
    let k = rest.len() + j;
    assert(all[k] == x);
    assert(entities_view(r@) == all);
    assert(entities_view(r@).len() == r@.len());
    assert(0 <= j < named.len());
    assert(0 <= k < r@.len());
    assert(entities_view(r@)[k] == r@[k]@);
}

/// Where no model was asked, and where its reply names nothing, the entities are those that
/// the patterns find.
pub proof fn empty_replies_change_nothing(
    text: &str,
    reply: &Vec<Value>,
    r: Vec<Entity>,
    s: Vec<Entity>,
)
    requires
        call_ensures(Axil::extract_entities_enhanced, (text, Some(reply)), r),
        call_ensures(Axil::extract_entities_enhanced, (text, None), s),
        forall|j: int|
            0 <= j < reply@.len() ==> (#[trigger] reply@[j]).model().member("name"@) is None,
    ensures
        entities_view(r@) == entities_view(s@),
{
    let named = named_entities(reply@);
    if named.len() > 0 {
        let j = lemma_named_from(reply@, 0);
    }
    let found = first_of_each(candidates(text@, text_captures(text@)));
    let p = |e: EntityView| !is_named(named, str_lowercase(e.name));
    lemma_nothing_filtered(found, p);
    assert(found.filter(p) + named =~= found);
}

/// A filter that takes every item changes nothing.
proof fn lemma_nothing_filtered(s: Seq<EntityView>, p: spec_fn(EntityView) -> bool)
    requires
        forall|e: EntityView| #[trigger] p(e),
    ensures
        s.filter(p) == s,
    decreases s.len(),
{
    reveal(Seq::filter);
    if s.len() > 0 {
        lemma_nothing_filtered(s.drop_last(), p);
        assert(p(s.last()));
        assert(s =~= s.drop_last().push(s.last()));
    } else {
        assert(s.filter(p) =~= s);
    }
}

/// Names are listed one behind the other, with a comma between.
proof fn lemma_listed(names: Seq<String>, i: int) -> (at: int)
    requires
        0 <= i < names.len(),
    ensures
        0 <= at <= at + names[i]@.len() <= listed(names).len(),
        listed(names).subrange(at, at + names[i]@.len()) == names[i]@,
    decreases names.len(),
{
    if names.len() == 1 {
        assert(listed(names).subrange(0, names[0]@.len() as int) =~= names[0]@);
        0
    } else if i < names.len() - 1 {
        let at = lemma_listed(names.drop_last(), i);
        assert(names.drop_last()[i] == names[i]);
        assert(listed(names).subrange(at, at + names[i]@.len()) =~= listed(
            names.drop_last(),
        ).subrange(at, at + names[i]@.len()));
        at
    } else {
        let front = listed(names.drop_last()) + ", "@;
        assert(listed(names) == front + names.last()@);
        assert((front + names.last()@).subrange(
            front.len() as int,
            (front.len() + names[i]@.len()) as int,
        ) =~= names[i]@);
        front.len() as int
    }
}

/// A model is asked for the table of a record where there are tables. What it is asked
/// shows each table, and the whole data where these take 500 bytes at most.
pub proof fn models_see_tables_and_data(
    tables: &Vec<String>,
    data: &str,
    r: Option<String>,
    i: int,
)
    requires
        byte_len(data@) > 500 ==> splits_at(data@, 500),
        call_ensures(Axil::categorize_request, (tables, data), r),
        0 <= i < tables@.len(),
    ensures
        r is Some,
        exists|at: int|
            0 <= at && at + tables@[i]@.len() <= r->0@.len() && #[trigger] r->0@.subrange(
                at,
                at + tables@[i]@.len(),
            ) == tables@[i]@,
        byte_len(data@) <= 500 ==> exists|at: int|
            0 <= at && at + data@.len() <= r->0@.len() && #[trigger] r->0@.subrange(
                at,
                at + data@.len(),
            ) == data@,
{
    let a = "Given this data, which table does it belong in? Available tables: ["@;
    let b = "]\nData: "@;
    let c = "\n\nReturn ONLY the table name, nothing else."@;
    let p = r->0@;
    let l = listed(tables@);
    let d = preview_of(data@);
    assert(p == a + l + b + d + c);
    let x = lemma_listed(tables@, i);
    let n = tables@[i]@.len();
    assert(p.subrange(a.len() + x, a.len() + x + n) =~= l.subrange(x, x + n));
    if byte_len(data@) <= 500 {
        let at = (a + l + b).len() as int;
        assert(p.subrange(at, at + data@.len()) =~= data@);
    }
}

/// The table that a reply names is the first one with its name, whatever the case and what
/// stands around it; where no table has that name, there is none.
pub proof fn replies_name_the_first_such_table(
    tables: &Vec<String>,
    reply: &str,
    r: Option<String>,
    i: int,
)
    requires
        call_ensures(Axil::auto_categorize, (tables, reply), r),
        0 <= i <= tables@.len(),
        forall|j: int|
            0 <= j < i ==> str_lowercase((#[trigger] tables@[j])@) != str_lowercase(
                trimmed(reply@),
            ),
        i < tables@.len() ==> str_lowercase(tables@[i]@) == str_lowercase(trimmed(reply@)),
    ensures
        i == tables@.len() ==> r is None,
        i < tables@.len() ==> (r matches Some(t) && t@ == tables@[i]@),
{
    lemma_table_named(tables@, reply@, i);
}

/// Where the first table with a name stands.
proof fn lemma_table_named(tables: Seq<String>, reply: Seq<char>, i: int)
    requires
        0 <= i <= tables.len(),
        forall|j: int|
            0 <= j < i ==> str_lowercase((#[trigger] tables[j])@) != str_lowercase(trimmed(reply)),
        i < tables.len() ==> str_lowercase(tables[i]@) == str_lowercase(trimmed(reply)),
    ensures
        table_named(tables, reply) == i,
    decreases tables.len(),
{
    if i > 0 {
        let d = tables.drop_first();
        assert(tables[0] == tables[0]);
        assert forall|j: int| 0 <= j < i - 1 implies str_lowercase((#[trigger] d[j])@)
            != str_lowercase(trimmed(reply)) by {
            assert(d[j] == tables[j + 1]);
        }
        if i < tables.len() {
            assert(d[i - 1] == tables[i]);
        }
        lemma_table_named(d, reply, i - 1);
    }
}

} // verus!
