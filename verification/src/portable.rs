//! Moving records between databases: what an export emits and what an import
//! does with each line.

pub mod import;

use crate::error::Result;
use crate::json::{
    find_key, first_value, has_key, key_index, lemma_insert_member, lemma_key_bounds,
    lemma_key_index, Json, Layout, Value,
};
use crate::hash::{hex, sha256_hex, sha256_of};
use crate::order::{
    all_differ, lemma_ranked_contains, ranked, sort_ranked, sorting_forgets_the_order, Ranked,
};
use crate::plugin::EdgeInfo;
use crate::record::{
    internal_table, is_internal_table, is_ulid, Record, RecordId, RecordView,
};
use crate::text::{lemma_text_order, same_text, starts_with, text_before, text_less};
use crate::time::{instant_of, instant_text, parse_instant, text_of_instant, Timestamp};
use vstd::hash_set::StringHashSet;
use vstd::prelude::*;

verus! {

/// What the check of the embeddings found after an import.
#[derive(Clone, Copy, Debug, PartialEq, Eq, Structural)]
pub enum EmbeddingVerification {
    /// Every imported record that should have an embedding was looked up.
    Verified {
        /// Imported records that should have an embedding.
        expected: usize,
        /// How many of those have one.
        indexed: usize,
        /// How many of those have none.
        missing: usize,
    },
    /// There was no index or no embedder, so this many records have no embedding.
    EngineUnavailable { affected: usize },
    /// A dry run writes nothing, so there was nothing to look up.
    SkippedDryRun,
}

/// What an import did.
#[derive(Clone, Copy, Debug, PartialEq, Eq, Structural)]
pub struct ImportReport {
    /// Records inserted as new.
    pub imported: usize,
    /// Records that replaced one with the same id.
    pub overwritten: usize,
    /// Records skipped because their id existed.
    pub skipped_id: usize,
    /// Records skipped because their content existed.
    pub skipped_dup: usize,
    /// Existing records that were marked superseded.
    pub superseded: usize,
    /// Edges created.
    pub edges_created: usize,
    /// Edges skipped: an endpoint is missing, or the edge exists.
    pub edges_skipped: usize,
    /// Edges among those created whose endpoint moved to a surviving copy.
    pub edges_remapped: usize,
    /// Records that got another id. Always 0.
    pub id_remapped: usize,
    /// What the check of the embeddings found.
    pub embeddings: Option<EmbeddingVerification>,
}

// ── Canonical content ───────────────────────────────────────────────

impl Layout {
    /// Whether the members of every object are sorted by their keys.
    pub open spec fn sorted(self) -> bool
        decreases self,
    {
        match self {
            Layout::Array(s) => forall|i: int| 0 <= i < s.len() ==> (#[trigger] s[i]).sorted(),
            Layout::Object(m) => {
                &&& forall|i: int, j: int|
                    0 <= i < j < m.len() ==> text_less((#[trigger] m[i]).0, (#[trigger] m[j]).0)
                &&& forall|i: int| 0 <= i < m.len() ==> (#[trigger] m[i]).1.sorted()
            },
            _ => true,
        }
    }
}

/// The meaning of a value without the members that belong to the database
/// itself: those of the outermost object whose keys start with `_`.
pub open spec fn content_of(data: Json) -> Json {
    match data {
        Json::Object(m) => Json::Object(
            Map::new(|k: Seq<char>| m.dom().contains(k) && !internal_table(k), |k: Seq<char>| m[k]),
        ),
        _ => data,
    }
}

/// A value with the members of every object sorted by key, and, where asked for,
/// without the members of the outermost object whose keys start with `_`.
pub fn canonical_value(value: &Value, strip_underscore_top: bool) -> (r: Value)
    ensures
        r.layout().sorted(),
        r.model() == (if strip_underscore_top {
            content_of(value.model())
        } else {
            value.model()
        }),
    decreases value,
{
    match value {
        Value::Object(m) => {
            let mut out: Vec<(String, Value)> = Vec::new();
            let mut i: usize = 0;
            proof {
                lemma_key_bounds(m@);
            }
            while i < m.len()
                invariant
                    i <= m@.len(),
                    *value == Value::Object(*m),
                    forall|k: Seq<char>| 0 <= #[trigger] key_index(m@, k) <= m@.len(),
                    forall|a: int, b: int|
                        0 <= a < b < out@.len() ==> text_less(
                            (#[trigger] out@[a]).0@,
                            (#[trigger] out@[b]).0@,
                        ),
                    forall|a: int| 0 <= a < out@.len() ==> (#[trigger] out@[a]).1.layout().sorted(),
                    forall|k: Seq<char>| #[trigger]
                        has_key(out@, k) <==> key_index(m@, k) < i && !(strip_underscore_top
                            && internal_table(k)),
                    forall|k: Seq<char>| #[trigger]
                        has_key(out@, k) ==> first_value(out@, k).model() == first_value(
                            m@,
                            k,
                        ).model(),
                decreases m@.len() - i,
            {
                let k = m[i].0.as_str();
                let first = find_key(m, k);
                let drop_it = strip_underscore_top && is_internal_table(k);
                proof {
                    lemma_key_index(m@, k@);
                    assert(m@[i as int].0@ == k@);
                    assert forall|j: Seq<char>| #[trigger] key_index(m@, j) == i implies j == k@ by {
                        lemma_key_index(m@, j);
                    }
                }
                if first == i && !drop_it {
                    assert(decreases_to!(*value => value->Object_0@[i as int].1));
                    let v = canonical_value(&m[i].1, false);
                    let mut p: usize = 0;
                    while p < out.len() && text_before(out[p].0.as_str(), k)
                        invariant
                            p <= out@.len(),
                            forall|a: int| 0 <= a < p ==> text_less((#[trigger] out@[a]).0@, k@),
                        decreases out@.len() - p,
                    {
                        p += 1;
                    }
                    let ghost o0 = out@;
                    let entry = (m[i].0.clone(), v);
                    proof {
                        assert(!has_key(o0, k@));
                        assert forall|a: int| p <= a < o0.len() implies text_less(
                            k@,
                            (#[trigger] o0[a]).0@,
                        ) by {
                            lemma_text_order(o0[p as int].0@, k@, k@);
                            if o0[a].0@ == k@ {
                                lemma_key_index(o0, k@);
                            }
                            lemma_text_order(k@, o0[p as int].0@, o0[a].0@);
                            if p == a {
                                lemma_text_order(k@, o0[a].0@, k@);
                            } else {
                                assert(text_less(o0[p as int].0@, o0[a].0@));
                                if o0[p as int].0@ == k@ {
                                    lemma_key_index(o0, k@);
                                }
                                lemma_text_order(k@, o0[p as int].0@, k@);
                            }
                        }
                    }
                    out.insert(p, entry);
                    proof {
                        assert forall|j: Seq<char>| #[trigger]
                            has_key(out@, j) <==> key_index(m@, j) < i + 1 && !(strip_underscore_top
                                && internal_table(j)) by {
                            lemma_insert_member(o0, p as int, entry, j);
                            assert(has_key(o0, j) <==> key_index(m@, j) < i && !(
                            strip_underscore_top && internal_table(j)));
                        }
                        assert forall|j: Seq<char>| #[trigger] has_key(out@, j) implies first_value(
                            out@,
                            j,
                        ).model() == first_value(m@, j).model() by {
                            lemma_insert_member(o0, p as int, entry, j);
                            if j != k@ {
                                assert(has_key(o0, j));
                            }
                        }
                        assert forall|a: int, b: int| 0 <= a < b < out@.len() implies text_less(
                            (#[trigger] out@[a]).0@,
                            (#[trigger] out@[b]).0@,
                        ) by {
                            if a < p && b < p {
                                assert(out@[a] == o0[a] && out@[b] == o0[b]);
                            } else if a < p && b == p {
                                assert(out@[a] == o0[a]);
                            } else if a < p {
                                assert(out@[a] == o0[a] && out@[b] == o0[b - 1]);
                            } else if a == p {
                                assert(out@[b] == o0[b - 1]);
                            } else {
                                assert(out@[a] == o0[a - 1] && out@[b] == o0[b - 1]);
                            }
                        }
                        assert forall|a: int| 0 <= a < out@.len() implies (
                        #[trigger] out@[a]).1.layout().sorted() by {
                            if a < p {
                                assert(out@[a] == o0[a]);
                            } else if a > p {
                                assert(out@[a] == o0[a - 1]);
                            }
                        }
                    }
                } else {
                    proof {
                        assert forall|j: Seq<char>| #[trigger]
                            has_key(out@, j) <==> key_index(m@, j) < i + 1 && !(strip_underscore_top
                                && internal_table(j)) by {
                            if key_index(m@, j) == i {
                                assert(j == k@);
                            }
                        }
                    }
                }
                i += 1;
            }
            let r = Value::Object(out);
            proof {
                lemma_key_bounds(out@);
                let want = (if strip_underscore_top {
                    content_of(value.model())
                } else {
                    value.model()
                })->Object_0;
                let got = r.model()->Object_0;
                assert forall|k: Seq<char>| #[trigger] got.dom().contains(k) == want.dom().contains(
                    k,
                ) by {
                    assert(got.dom().contains(k) == has_key(out@, k));
                    assert(value.model()->Object_0.dom().contains(k) == has_key(m@, k));
                }
                assert forall|k: Seq<char>| got.dom().contains(k) implies #[trigger] got[k]
                    == want[k] by {
                    assert(has_key(out@, k));
                    assert(got[k] == first_value(out@, k).model());
                    assert(has_key(m@, k));
                    assert(value.model()->Object_0[k] == first_value(m@, k).model());
                }
                assert(got =~= want);
                let l = r.layout()->Object_0;
                assert forall|a: int| 0 <= a < l.len() implies (#[trigger] l[a]).1.sorted() by {
                    assert(l[a] == (out@[a].0@, out@[a].1.layout()));
                }
                assert forall|a: int, b: int| 0 <= a < b < l.len() implies text_less(
                    (#[trigger] l[a]).0,
                    (#[trigger] l[b]).0,
                ) by {
                    assert(l[a] == (out@[a].0@, out@[a].1.layout()));
                    assert(l[b] == (out@[b].0@, out@[b].1.layout()));
                }
            }
            r
        },
        Value::Array(v) => {
            let mut out: Vec<Value> = Vec::new();
            let mut i: usize = 0;
            while i < v.len()
                invariant
                    i <= v@.len(),
                    out@.len() == i,
                    *value == Value::Array(*v),
                    forall|j: int| 0 <= j < i ==> (#[trigger] out@[j]).model() == v@[j].model(),
                    forall|j: int| 0 <= j < i ==> (#[trigger] out@[j]).layout().sorted(),
                decreases v@.len() - i,
            {
                assert(decreases_to!(*value => value->Array_0@[i as int]));
                out.push(canonical_value(&v[i], false));
                i += 1;
            }
            let r = Value::Array(out);
            proof {
                assert(r.model()->Array_0 =~= value.model()->Array_0);
                let l = r.layout()->Array_0;
                assert forall|a: int| 0 <= a < l.len() implies (#[trigger] l[a]).sorted() by {
                    assert(l[a] == out@[a].layout());
                }
            }
            r
        },
        _ => value.copy(),
    }
}

/// The keys of a member list, in order.
pub open spec fn layout_keys(m: Seq<(Seq<char>, Layout)>) -> Seq<Seq<char>> {
    m.map_values(|e: (Seq<char>, Layout)| e.0)
}

/// Two sorted lists of the same keys are the same list.
proof fn lemma_sorted_keys_unique(a: Seq<Seq<char>>, b: Seq<Seq<char>>)
    requires
        forall|i: int, j: int|
            0 <= i < j < a.len() ==> text_less(#[trigger] a[i], #[trigger] a[j]),
        forall|i: int, j: int|
            0 <= i < j < b.len() ==> text_less(#[trigger] b[i], #[trigger] b[j]),
        forall|k: Seq<char>| #[trigger] a.contains(k) <==> b.contains(k),
    ensures
        a == b,
    decreases a.len(),
{
    if a.len() == 0 {
        if b.len() > 0 {
            assert(b.contains(b[0]));
            assert(a.contains(b[0]));
        }
        assert(a =~= b);
    } else {
        assert(a.contains(a.last()));
        assert(b.contains(a.last()));
        assert(b.contains(b.last()));
        assert(a.contains(b.last()));
        let i = choose|i: int| 0 <= i < b.len() && b[i] == a.last();
        let j = choose|j: int| 0 <= j < a.len() && a[j] == b.last();
        lemma_text_order(a.last(), b.last(), a.last());
        if a.last() != b.last() {
            assert(text_less(b[i], b[b.len() - 1]));
            assert(text_less(a[j], a[a.len() - 1]));
        }
        let c = a.drop_last();
        let d = b.drop_last();
        assert forall|k: Seq<char>| #[trigger] c.contains(k) <==> d.contains(k) by {
            if c.contains(k) {
                let x = choose|x: int| 0 <= x < c.len() && c[x] == k;
                assert(a[x] == k);
                assert(a.contains(k));
                let y = choose|y: int| 0 <= y < b.len() && b[y] == k;
                assert(text_less(a[x], a[a.len() - 1]));
                lemma_text_order(k, k, k);
                assert(y < d.len());
                assert(d[y] == k);
            }
            if d.contains(k) {
                let x = choose|x: int| 0 <= x < d.len() && d[x] == k;
                assert(b[x] == k);
                assert(b.contains(k));
                assert(a.contains(k));
                let y = choose|y: int| 0 <= y < a.len() && a[y] == k;
                assert(text_less(b[x], b[b.len() - 1]));
                lemma_text_order(k, k, k);
                assert(y < c.len());
                assert(c[y] == k);
            }
        }
        lemma_sorted_keys_unique(c, d);
        assert(a =~= c.push(a.last()));
        assert(b =~= d.push(b.last()));
    }
}

/// Where the keys of a sorted member list stand.
proof fn lemma_sorted_members(m: Seq<(String, Value)>)
    requires
        forall|i: int, j: int|
            0 <= i < j < m.len() ==> text_less((#[trigger] m[i]).0@, (#[trigger] m[j]).0@),
    ensures
        forall|i: int| 0 <= i < m.len() ==> key_index(m, (#[trigger] m[i]).0@) == i,
{
    assert forall|i: int| 0 <= i < m.len() implies key_index(m, (#[trigger] m[i]).0@) == i by {
        assert forall|j: int| 0 <= j < i implies (#[trigger] m[j]).0@ != m[i].0@ by {
            lemma_text_order(m[j].0@, m[i].0@, m[j].0@);
        }
        crate::json::lemma_key_index_is(m, m[i].0@, i);
    }
}

/// Values in canonical form that mean the same are laid out the same: they have
/// one text, so they have one content hash, whatever the order of the members
/// was and whatever the database noted in members of its own.
pub proof fn canonical_forms_are_unique(a: Value, b: Value)
    requires
        a.layout().sorted(),
        b.layout().sorted(),
        a.model() == b.model(),
    ensures
        a.layout() == b.layout(),
    decreases a,
{
    match (a, b) {
        (Value::Array(x), Value::Array(y)) => {
            let la = a.layout()->Array_0;
            let lb = b.layout()->Array_0;
            let ma = a.model()->Array_0;
            let mb = b.model()->Array_0;
            assert(x@.len() == y@.len()) by {
                assert(ma.len() == x@.len() && mb.len() == y@.len());
            }
            assert forall|i: int| 0 <= i < la.len() implies la[i] == lb[i] by {
                assert(ma[i] == x@[i].model() && mb[i] == y@[i].model());
                assert(la[i] == x@[i].layout() && lb[i] == y@[i].layout());
                assert(la[i].sorted() && lb[i].sorted());
                canonical_forms_are_unique(x@[i], y@[i]);
            }
            assert(la =~= lb);
        },
        (Value::Object(x), Value::Object(y)) => {
            let la = a.layout()->Object_0;
            let lb = b.layout()->Object_0;
            let ma = a.model()->Object_0;
            let mb = b.model()->Object_0;
            assert forall|i: int, j: int| 0 <= i < j < x@.len() implies text_less(
                (#[trigger] x@[i]).0@,
                (#[trigger] x@[j]).0@,
            ) by {
                assert(text_less(la[i].0, la[j].0));
            }
            assert forall|i: int, j: int| 0 <= i < j < y@.len() implies text_less(
                (#[trigger] y@[i]).0@,
                (#[trigger] y@[j]).0@,
            ) by {
                assert(text_less(lb[i].0, lb[j].0));
            }
            lemma_sorted_members(x@);
            lemma_sorted_members(y@);
            lemma_key_bounds(x@);
            lemma_key_bounds(y@);
            let ka = layout_keys(la);
            let kb = layout_keys(lb);
            assert forall|k: Seq<char>| #[trigger] ka.contains(k) <==> kb.contains(k) by {
                assert(ma.dom().contains(k) == has_key(x@, k));
                assert(mb.dom().contains(k) == has_key(y@, k));
                lemma_key_index(x@, k);
                lemma_key_index(y@, k);
                if ka.contains(k) {
                    let i = choose|i: int| 0 <= i < ka.len() && ka[i] == k;
                    assert(x@[i].0@ == k);
                    assert(has_key(x@, k));
                    assert(kb[key_index(y@, k)] == k);
                }
                if kb.contains(k) {
                    let i = choose|i: int| 0 <= i < kb.len() && kb[i] == k;
                    assert(y@[i].0@ == k);
                    assert(has_key(y@, k));
                    assert(ka[key_index(x@, k)] == k);
                }
            }
            assert forall|i: int, j: int| 0 <= i < j < ka.len() implies text_less(
                #[trigger] ka[i],
                #[trigger] ka[j],
            ) by {
                assert(text_less(la[i].0, la[j].0));
            }
            assert forall|i: int, j: int| 0 <= i < j < kb.len() implies text_less(
                #[trigger] kb[i],
                #[trigger] kb[j],
            ) by {
                assert(text_less(lb[i].0, lb[j].0));
            }
            lemma_sorted_keys_unique(ka, kb);
            assert(la.len() == ka.len() && lb.len() == kb.len());
            assert forall|i: int| 0 <= i < la.len() implies la[i] == lb[i] by {
                let k = x@[i].0@;
                assert(ka[i] == k && kb[i] == y@[i].0@);
                assert(key_index(x@, k) == i && key_index(y@, k) == i);
                assert(ma.dom().contains(k));
                assert(ma[k] == x@[i].1.model());
                assert(mb[k] == y@[i].1.model());
                assert(la[i] == (x@[i].0@, x@[i].1.layout()));
                assert(lb[i] == (y@[i].0@, y@[i].1.layout()));
                assert(la[i].1.sorted() && lb[i].1.sorted());
                canonical_forms_are_unique(x@[i].1, y@[i].1);
            }
            assert(la =~= lb);
        },
        _ => {},
    }
}

/// The content hash, from the text of the canonical form: its SHA-256 digest in
/// hexadecimal.
pub fn content_hash_of(canonical: &[u8]) -> (r: String)
    ensures
        r@ == hex(sha256_of(canonical@).take(32)),
{
    sha256_hex(canonical, 32)
}

// ── Export ──────────────────────────────────────────────────────────

/// The name of the format, in the header line.
pub const FORMAT: &'static str = "axil-export-jsonl";

/// The version of the format.
pub const FORMAT_VERSION: u32 = 1;

/// Whether a table is rebuilt from the records, so that it never travels: its
/// name starts with `_idx_`.
pub fn is_rebuilt_index_table(table: &str) -> (r: bool)
    ensures
        r == "_idx_"@.is_prefix_of(table@),
{
    starts_with(table, "_idx_")
}

/// What an export takes.
#[derive(Debug)]
pub struct ExportOptions {
    /// Exactly these tables, where given.
    pub tables: Option<Vec<String>>,
    /// Only records created at this instant or later, where given.
    pub since: Option<Timestamp>,
    /// Tables of the database itself too.
    pub include_system: bool,
}

impl Default for ExportOptions {
    fn default() -> (r: ExportOptions)
        ensures
            r.tables is None,
            r.since is None,
            !r.include_system,
    {
        ExportOptions { tables: None, since: None, include_system: false }
    }
}

/// What an export wrote.
#[derive(Clone, Copy, Debug, PartialEq, Eq, Structural)]
pub struct ExportStats {
    /// Record lines.
    pub records: usize,
    /// Edge lines.
    pub edges: usize,
    /// Tables.
    pub tables: usize,
}

/// Whether a text is in a list.
pub open spec fn listed(names: Seq<String>, name: Seq<char>) -> bool {
    exists|i: int| 0 <= i < names.len() && (#[trigger] names[i])@ == name
}

/// Whether a text is in a list.
pub fn is_listed(names: &Vec<String>, name: &str) -> (r: bool)
    ensures
        r == listed(names@, name@),
{
    let mut i: usize = 0;
    while i < names.len()
        invariant
            i <= names@.len(),
            forall|j: int| 0 <= j < i ==> (#[trigger] names@[j])@ != name@,
        decreases names@.len() - i,
    {
        if same_text(names[i].as_str(), name) {
            return true;
        }
        i += 1;
    }
    false
}

/// Whether an export takes a table: never one that is rebuilt; where tables are
/// listed, exactly those; otherwise the tables of the user, and those of the
/// database itself where asked for.
pub open spec fn selects_table(opts: ExportOptions, table: Seq<char>) -> bool {
    if "_idx_"@.is_prefix_of(table) {
        false
    } else {
        match opts.tables {
            Some(names) => listed(names@, table),
            None => !internal_table(table) || opts.include_system,
        }
    }
}

/// Whether an export takes a table.
pub fn table_selected(table: &str, opts: &ExportOptions) -> (r: bool)
    ensures
        r == selects_table(*opts, table@),
{
    if is_rebuilt_index_table(table) {
        return false;
    }
    match &opts.tables {
        Some(names) => is_listed(names, table),
        None => !is_internal_table(table) || opts.include_system,
    }
}

/// The tables that an export takes, sorted by name.
pub fn export_tables(tables: Vec<String>, opts: &ExportOptions) -> (r: Vec<String>)
    ensures
        r@ == ranked(tables@.filter(|t: String| selects_table(*opts, t@))),
{
    let ghost keep = |t: String| selects_table(*opts, t@);
    let ghost all = tables@;
    let mut out: Vec<String> = Vec::new();
    let mut i: usize = 0;
    reveal(Seq::filter);
    while i < tables.len()
        invariant
            tables@ == all,
            keep == (|t: String| selects_table(*opts, t@)),
            i <= all.len(),
            out@ == all.take(i as int).filter(keep),
        decreases all.len() - i,
    {
        reveal(Seq::filter);
        assert(all.take(i + 1).drop_last() =~= all.take(i as int));
        if table_selected(tables[i].as_str(), opts) {
            out.push(tables[i].clone());
        }
        i += 1;
    }
    assert(all.take(i as int) =~= all);
    sort_ranked(out)
}

impl Ranked for Record {
    open spec fn before(self, other: Record) -> bool {
        text_less(self.id@, other.id@)
    }

    proof fn lemma_ranked(a: Record, b: Record, c: Record) {
        String::lemma_ranked(a.id.0, b.id.0, c.id.0);
    }

    fn comes_before(&self, other: &Record) -> (r: bool) {
        text_before(self.id.as_str(), other.id.as_str())
    }
}

impl Ranked for EdgeInfo {
    open spec fn before(self, other: EdgeInfo) -> bool {
        text_less(self.id@, other.id@)
    }

    proof fn lemma_ranked(a: EdgeInfo, b: EdgeInfo, c: EdgeInfo) {
        String::lemma_ranked(a.id.0, b.id.0, c.id.0);
    }

    fn comes_before(&self, other: &EdgeInfo) -> (r: bool) {
        text_before(self.id.as_str(), other.id.as_str())
    }
}

/// Whether an export takes a record of a table that it takes.
pub open spec fn selects_record(opts: ExportOptions, r: Record) -> bool {
    match opts.since {
        Some(t) => !r.created_at.before(t),
        None => true,
    }
}

/// The records that an export takes, from those of the tables that it takes,
/// sorted by id.
pub open spec fn exported_records(opts: ExportOptions, records: Seq<Record>) -> Seq<Record> {
    ranked(records.filter(|x: Record| selects_record(opts, x)))
}

/// The records that an export takes, from those of the tables that it takes,
/// sorted by id.
pub fn export_records(records: Vec<Record>, opts: &ExportOptions) -> (r: Vec<Record>)
    ensures
        r@ == exported_records(*opts, records@),
{
    let ghost keep = |x: Record| selects_record(*opts, x);
    let ghost all = records@;
    let mut out: Vec<Record> = Vec::new();
    reveal(Seq::filter);
    for x in it: records
        invariant
            keep == (|x: Record| selects_record(*opts, x)),
            it.seq() == all,
            out@ == all.take(it.index()).filter(keep),
    {
        reveal(Seq::filter);
        assert(all.take(it.index() + 1).drop_last() =~= all.take(it.index()));
        let take = match opts.since {
            Some(t) => !x.created_at.is_before(t),
            None => true,
        };
        if take {
            out.push(x);
        }
    }
    assert(all.take(all.len() as int) =~= all);
    sort_ranked(out)
}

/// Whether a record with the id is among the records.
pub open spec fn has_record(records: Seq<Record>, id: Seq<char>) -> bool {
    exists|i: int| 0 <= i < records.len() && (#[trigger] records[i]).id@ == id
}

/// The edges that an export takes, from the outgoing edges of the records that it
/// takes: those that end at one of them, sorted by id.
pub open spec fn exported_edges(records: Seq<Record>, edges: Seq<EdgeInfo>) -> Seq<EdgeInfo> {
    ranked(edges.filter(|e: EdgeInfo| has_record(records, e.to@)))
}

/// The edges that an export takes, from the outgoing edges of the records that it
/// takes: those that end at one of them, sorted by id.
pub fn export_edges(records: &Vec<Record>, edges: Vec<EdgeInfo>) -> (r: Vec<EdgeInfo>)
    ensures
        r@ == exported_edges(records@, edges@),
{
    let ghost keep = |e: EdgeInfo| has_record(records@, e.to@);
    let ghost all = edges@;
    let mut ids = StringHashSet::new();
    let mut i: usize = 0;
    while i < records.len()
        invariant
            i <= records@.len(),
            forall|k: Seq<char>| #[trigger]
                ids@.contains(k) <==> has_record(records@.take(i as int), k),
        decreases records@.len() - i,
    {
        let ghost before = ids@;
        ids.insert(records[i].id.0.clone());
        i += 1;
        proof {
            let a = records@.take(i - 1);
            let b = records@.take(i as int);
            assert forall|k: Seq<char>| #[trigger] ids@.contains(k) <==> has_record(b, k) by {
                assert(before.contains(k) <==> has_record(a, k));
                if has_record(a, k) {
                    let j = choose|j: int| 0 <= j < a.len() && (#[trigger] a[j]).id@ == k;
                    assert(b[j].id@ == k);
                }
                if has_record(b, k) {
                    let j = choose|j: int| 0 <= j < b.len() && (#[trigger] b[j]).id@ == k;
                    if j < i - 1 {
                        assert(a[j].id@ == k);
                    }
                }
                assert(b[i - 1].id@ == records@[i - 1].id@);
            }
        }
    }
    assert(records@.take(i as int) =~= records@);
    let mut out: Vec<EdgeInfo> = Vec::new();
    reveal(Seq::filter);
    for e in it: edges
        invariant
            keep == (|e: EdgeInfo| has_record(records@, e.to@)),
            forall|k: Seq<char>| #[trigger] ids@.contains(k) <==> has_record(records@, k),
            it.seq() == all,
            out@ == all.take(it.index()).filter(keep),
    {
        reveal(Seq::filter);
        assert(all.take(it.index() + 1).drop_last() =~= all.take(it.index()));
        if ids.contains(e.to.as_str()) {
            out.push(e);
        }
    }
    assert(all.take(all.len() as int) =~= all);
    sort_ranked(out)
}

// ── Lines ───────────────────────────────────────────────────────────

/// The first line of an export.
#[derive(Debug)]
pub struct Header {
    pub kind: String,
    pub format: String,
    pub format_version: u32,
    pub axil_version: String,
    pub record_count: usize,
    pub edge_count: usize,
}

/// The line of a record.
#[derive(Debug)]
pub struct RecordLine {
    pub kind: String,
    pub table: String,
    pub id: String,
    pub data: Value,
    pub created_at: String,
    pub updated_at: Option<String>,
    pub metadata: Option<Value>,
}

/// The line of an edge.
#[derive(Debug)]
pub struct EdgeLine {
    pub kind: String,
    pub from: String,
    pub edge_type: String,
    pub to: String,
    pub props: Value,
    pub created_at: Option<String>,
}

/// An optional value, in the model.
pub open spec fn value_option(v: Option<Value>) -> Option<Json> {
    match v {
        Some(x) => Some(x.model()),
        None => None,
    }
}

/// The header of an export with this many records and edges.
pub fn export_header(records: usize, edges: usize, version: &str) -> (r: Header)
    ensures
        r.kind@ == "header"@,
        r.format@ == FORMAT@,
        r.format_version == FORMAT_VERSION,
        r.axil_version@ == version@,
        r.record_count == records,
        r.edge_count == edges,
{
    Header {
        kind: "header".to_owned(),
        format: FORMAT.to_owned(),
        format_version: FORMAT_VERSION,
        axil_version: version.to_owned(),
        record_count: records,
        edge_count: edges,
    }
}

/// Whether a line is that of a record. In the years 1 to 9999 the instants can
/// be read back from their texts.
pub open spec fn is_line_of(line: RecordLine, record: Record) -> bool {
    &&& line.kind@ == "record"@
    &&& line.table@ == record@.table
    &&& line.id@ == record@.id
    &&& line.data.model() == record@.data
    &&& line.created_at@ == text_of_instant(record.created_at.secs, record.created_at.nanos)
    &&& line.updated_at is Some
    &&& line.updated_at->0@ == text_of_instant(record.updated_at.secs, record.updated_at.nanos)
    &&& value_option(line.metadata) == record@.metadata
    &&& record.created_at.common() ==> instant_of(line.created_at@) == Some(record.created_at)
    &&& record.updated_at.common() ==> instant_of(line.updated_at->0@) == Some(record.updated_at)
}

/// The line of a record, whose instants can be represented.
pub fn record_line(record: &Record) -> (r: RecordLine)
    requires
        record.created_at.valid(),
        record.updated_at.valid(),
    ensures
        is_line_of(r, *record),
{
    RecordLine {
        kind: "record".to_owned(),
        table: record.table.clone(),
        id: record.id.0.clone(),
        data: record.data.copy(),
        created_at: instant_text(record.created_at).unwrap(),
        updated_at: instant_text(record.updated_at),
        metadata: match &record.metadata {
            Some(m) => Some(m.copy()),
            None => None,
        },
    }
}

/// Whether a line is that of an edge.
pub open spec fn is_edge_line_of(line: EdgeLine, edge: EdgeInfo) -> bool {
    &&& line.kind@ == "edge"@
    &&& line.from@ == edge.from@
    &&& line.edge_type@ == edge.edge_type@
    &&& line.to@ == edge.to@
    &&& line.props.model() == edge.properties.model()
    &&& line.created_at is Some
    &&& line.created_at->0@ == edge.created_at@
}

/// The line of an edge.
pub fn edge_line(edge: &EdgeInfo) -> (r: EdgeLine)
    ensures
        is_edge_line_of(r, *edge),
{
    EdgeLine {
        kind: "edge".to_owned(),
        from: edge.from.0.clone(),
        edge_type: edge.edge_type.clone(),
        to: edge.to.0.clone(),
        props: edge.properties.copy(),
        created_at: Some(edge.created_at.clone()),
    }
}

/// The instant that a line was created at: `now` where its text is none.
pub open spec fn line_created(line: RecordLine, now: Timestamp) -> Timestamp {
    match instant_of(line.created_at@) {
        Some(t) => t,
        None => now,
    }
}

/// The instant that a line was updated at: that of its creation where it has none.
pub open spec fn line_updated(line: RecordLine, now: Timestamp) -> Timestamp {
    match line.updated_at {
        Some(s) => match instant_of(s@) {
            Some(t) => t,
            None => line_created(line, now),
        },
        None => line_created(line, now),
    }
}

/// The record of a line.
pub open spec fn line_record(line: RecordLine, now: Timestamp) -> RecordView {
    RecordView {
        id: line.id@,
        table: line.table@,
        data: line.data.model(),
        created_at: line_created(line, now),
        updated_at: line_updated(line, now),
        metadata: value_option(line.metadata),
    }
}

/// The record of a line. Its id, instants and metadata stay; an instant that
/// cannot be read is replaced, so that the line still counts.
pub fn build_record(line: &RecordLine, now: Timestamp) -> (r: Result<Record>)
    ensures
        match r {
            Ok(x) => is_ulid(line.id@) && x@ == line_record(*line, now),
            Err(e) => !is_ulid(line.id@) && e is InvalidQuery && e->InvalidQuery_0@
                == "invalid record id: "@ + line.id@,
        },
{
    let id = match RecordId::from_string(line.id.as_str()) {
        Ok(id) => id,
        Err(e) => {
            return Err(e);
        },
    };
    let created_at = match parse_instant(line.created_at.as_str()) {
        Some(t) => t,
        None => now,
    };
    let updated_at = match &line.updated_at {
        Some(s) => match parse_instant(s.as_str()) {
            Some(t) => t,
            None => created_at,
        },
        None => created_at,
    };
    Ok(
        Record {
            id,
            table: line.table.clone(),
            data: line.data.copy(),
            created_at,
            updated_at,
            metadata: match &line.metadata {
                Some(m) => Some(m.copy()),
                None => None,
            },
        },
    )
}

// ── What holds of exports ───────────────────────────────────────────

/// Every edge of an export ends at a record of the export.
pub proof fn exported_edges_do_not_dangle(records: Seq<Record>, edges: Seq<EdgeInfo>)
    ensures
        ({
            let taken = exported_edges(records, edges);
            forall|i: int| 0 <= i < taken.len() ==> has_record(records, (#[trigger] taken[i]).to@)
        }),
{
    let taken = exported_edges(records, edges);
    assert forall|i: int| 0 <= i < taken.len() implies has_record(
        records,
        (#[trigger] taken[i]).to@,
    ) by {
        lemma_exported_edge(records, edges, i);
    }
}

/// An edge of an export is one of those that were found, and ends at a record of it.
pub proof fn lemma_exported_edge(records: Seq<Record>, edges: Seq<EdgeInfo>, i: int)
    requires
        0 <= i < exported_edges(records, edges).len(),
    ensures
        edges.contains(exported_edges(records, edges)[i]),
        has_record(records, exported_edges(records, edges)[i].to@),
{
    let keep = |e: EdgeInfo| has_record(records, e.to@);
    let kept = edges.filter(keep);
    let x = exported_edges(records, edges)[i];
    lemma_ranked_contains(kept, x);
    assert(ranked(kept).contains(x));
    edges.lemma_filter_contains_rev(keep, x);
    let j = choose|j: int| 0 <= j < kept.len() && kept[j] == x;
    edges.lemma_filter_pred(keep, j);
}

/// A record of an export is one of those that were read.
pub proof fn lemma_exported_record(opts: ExportOptions, records: Seq<Record>, i: int)
    requires
        0 <= i < exported_records(opts, records).len(),
    ensures
        records.contains(exported_records(opts, records)[i]),
{
    let keep = |x: Record| selects_record(opts, x);
    let kept = records.filter(keep);
    let x = exported_records(opts, records)[i];
    lemma_ranked_contains(kept, x);
    assert(ranked(kept).contains(x));
    records.lemma_filter_contains_rev(keep, x);
}

/// An export does not depend on the order in which the records are read, where
/// no two have one id.
pub proof fn exports_are_deterministic(a: Seq<Record>, b: Seq<Record>)
    requires
        a.to_multiset() == b.to_multiset(),
        all_differ(ranked(a)),
    ensures
        ranked(a) == ranked(b),
{
    sorting_forgets_the_order(a, b);
}

/// A record survives an export and an import: what is built from its line is the
/// record, with its id, its table, its data, its metadata and its instants, where
/// the instants lie in the years 1 to 9999.
pub proof fn records_survive_the_trip(record: Record, line: RecordLine, now: Timestamp)
    requires
        record.created_at.common(),
        record.updated_at.common(),
        is_line_of(line, record),
    ensures
        line_record(line, now) == record@,
{
}

/// An export takes the user's tables, and those of the database itself where asked for; where
/// tables are listed it takes just those. Tables that are rebuilt never travel.
pub proof fn rebuilt_tables_never_travel(table: &str, opts: &ExportOptions, r: bool)
    requires
        call_ensures(table_selected, (table, opts), r),
    ensures
        "_idx_"@.is_prefix_of(table@) ==> !r,
        opts.tables is None && !(table@.len() > 0 && table@[0] == '_') ==> r,
        opts.tables is None && table@.len() > 0 && table@[0] == '_' && !"_idx_"@.is_prefix_of(
            table@,
        ) ==> (r <==> opts.include_system),
        opts.tables matches Some(names) ==> (!"_idx_"@.is_prefix_of(table@) ==> (r <==> exists|
            i: int,
        |
            0 <= i < names@.len() && (#[trigger] names@[i])@ == table@)),
{
    reveal_strlit("_idx_");
    if "_idx_"@.is_prefix_of(table@) {
        assert(table@.subrange(0, 5)[0] == "_idx_"@[0]);
    }
}

/// The tables of an export are those that it takes of the ones that there are, by name.
pub proof fn exports_take_the_selected_tables(
    tables: Vec<String>,
    opts: &ExportOptions,
    r: Vec<String>,
    t: String,
    i: int,
)
    requires
        call_ensures(export_tables, (tables, opts), r),
    ensures
        r@.contains(t) ==> tables@.contains(t) && selects_table(*opts, t@),
        tables@.contains(t) && selects_table(*opts, t@) ==> r@.contains(t),
        0 < i < r@.len() ==> !text_less(r@[i]@, r@[i - 1]@),
{
    let p = |x: String| selects_table(*opts, x@);
    let f = tables@.filter(p);
    crate::order::sorting_orders_the_items(f);
    lemma_ranked_contains(f, t);
    lemma_filtered(tables@, p, t);
}

/// A filter leaves just the items that it takes.
proof fn lemma_filtered<A>(s: Seq<A>, p: spec_fn(A) -> bool, x: A)
    ensures
        s.filter(p).contains(x) <==> s.contains(x) && p(x),
    decreases s.len(),
{
    reveal(Seq::filter);
    if s.len() > 0 {
        let d = s.drop_last();
        lemma_filtered(d, p, x);
        if p(s.last()) {
            crate::text::lemma_push_contains(d.filter(p), s.last(), x);
        }
        crate::text::lemma_push_contains(d, s.last(), x);
        assert(s =~= d.push(s.last()));
    }
}

/// The records of an export are those that were made at the instant that is asked for or
/// later, by id, and all of them where none is asked for.
pub proof fn exports_begin_with_their_instant(
    records: Vec<Record>,
    opts: &ExportOptions,
    r: Vec<Record>,
    x: Record,
    i: int,
)
    requires
        call_ensures(export_records, (records, opts), r),
        records@.contains(x),
    ensures
        opts.since is None ==> r@.contains(x),
        opts.since matches Some(t) ==> (r@.contains(x) <==> x.created_at.secs > t.secs
            || x.created_at.secs == t.secs && x.created_at.nanos >= t.nanos),
        0 < i < r@.len() ==> !text_less(r@[i].id@, r@[i - 1].id@),
        r@.len() <= records@.len(),
{
    let p = |y: Record| selects_record(*opts, y);
    let f = records@.filter(p);
    crate::order::sorting_orders_the_items(f);
    lemma_ranked_contains(f, x);
    lemma_filtered(records@, p, x);
    assert(p(x) == selects_record(*opts, x));
    lemma_filter_shortens(records@, p);
}

/// A filter makes a list no longer.
proof fn lemma_filter_shortens<A>(s: Seq<A>, p: spec_fn(A) -> bool)
    ensures
        s.filter(p).len() <= s.len(),
    decreases s.len(),
{
    reveal(Seq::filter);
    if s.len() > 0 {
        lemma_filter_shortens(s.drop_last(), p);
    }
}

/// An edge travels just where the record that it leads to does.
pub proof fn edges_travel_with_their_targets(
    records: &Vec<Record>,
    edges: Vec<EdgeInfo>,
    r: Vec<EdgeInfo>,
    e: EdgeInfo,
)
    requires
        call_ensures(export_edges, (records, edges), r),
        edges@.contains(e),
    ensures
        r@.contains(e) <==> exists|i: int|
            0 <= i < records@.len() && (#[trigger] records@[i]).id@ == e.to@,
{
    let p = |x: EdgeInfo| has_record(records@, x.to@);
    let f = edges@.filter(p);
    lemma_ranked_contains(f, e);
    lemma_filtered(edges@, p, e);
    assert(p(e) == has_record(records@, e.to@));
}

/// The content of a record leaves out the members that the database noted itself, whose
/// names begin with `_`, and nothing else.
pub proof fn content_is_what_the_user_said(
    value: &Value,
    content: Value,
    whole: Value,
    k: Seq<char>,
)
    requires
        call_ensures(canonical_value, (value, true), content),
        call_ensures(canonical_value, (value, false), whole),
    ensures
        whole.model() == value.model(),
        k.len() > 0 && k[0] == '_' ==> content.model().member(k) is None,
        !(k.len() > 0 && k[0] == '_') ==> content.model().member(k) == value.model().member(k),
        !(value.model() is Object) ==> content.model() == value.model(),
{
}

/// Records with the same content have one canonical form, whatever the order of their
/// members, so that they have one hash.
pub proof fn same_content_has_one_form(a: &Value, b: &Value, r: Value, s: Value)
    requires
        call_ensures(canonical_value, (a, true), r),
        call_ensures(canonical_value, (b, true), s),
        content_of(a.model()) == content_of(b.model()),
    ensures
        r.layout() == s.layout(),
{
    canonical_forms_are_unique(r, s);
}

/// The line of a record is read back as that record, with its id, its table, its data, its
/// metadata and its instants, in the years 1 to 9999.
pub proof fn lines_are_read_back(
    record: &Record,
    line: RecordLine,
    now: Timestamp,
    r: Result<Record>,
)
    requires
        record.created_at.valid() && record.updated_at.valid(),
        record.created_at.common() && record.updated_at.common(),
        call_ensures(record_line, (record,), line),
        call_ensures(build_record, (&line, now), r),
    ensures
        is_ulid(record.id@) ==> (r matches Ok(x) && x.id@ == record.id@ && x.table@ == record.table@
            && x.data.model() == record.data.model() && x.created_at == record.created_at
            && x.updated_at == record.updated_at),
        !is_ulid(record.id@) ==> r is Err,
{
    records_survive_the_trip(*record, line, now);
    if r is Ok {
        let x = r->Ok_0;
        assert(x@ == record@);
    }
}

/// The line of an edge says which records it lies between, of which type it is, and what it
/// holds.
pub proof fn edge_lines_say_what_edges_are(edge: &EdgeInfo, line: EdgeLine)
    requires
        call_ensures(edge_line, (edge,), line),
    ensures
        line.kind@ == "edge"@,
        line.from@ == edge.from@ && line.to@ == edge.to@ && line.edge_type@ == edge.edge_type@,
        line.props.model() == edge.properties.model(),
        line.created_at matches Some(t) && t@ == edge.created_at@,
{
}

/// A line without a readable instant counts as made now, and one without a readable second
/// instant as updated when it was made.
pub proof fn unreadable_instants_are_replaced(
    line: &RecordLine,
    now: Timestamp,
    r: Result<Record>,
)
    requires
        call_ensures(build_record, (line, now), r),
        is_ulid(line.id@),
    ensures
        r matches Ok(x) && (instant_of(line.created_at@) is None ==> x.created_at == now) && (
        instant_of(line.created_at@) matches Some(t) ==> x.created_at == t) && (line.updated_at
            is None ==> x.updated_at == x.created_at) && (line.updated_at matches Some(s) ==> (
        instant_of(s@) is None ==> x.updated_at == x.created_at)) && (line.updated_at matches Some(
            s,
        ) ==> (instant_of(s@) matches Some(t) ==> x.updated_at == t)),
{
    if r is Ok {
        let x = r->Ok_0;
        assert(x@.created_at == x.created_at && x@.updated_at == x.updated_at);
    }
}

/// The header of an export names the format and its version, and says how many lines follow.
pub proof fn exports_say_what_they_are(records: usize, edges: usize, version: &str, r: Header)
    requires
        call_ensures(export_header, (records, edges, version), r),
    ensures
        r.kind@ == "header"@,
        r.format@ == "axil-export-jsonl"@,
        r.format_version == 1,
        r.axil_version@ == version@,
        r.record_count == records && r.edge_count == edges,
{
}

} // verus!
