//! The files of a database, its vector spaces and its extensions.

use super::Axil;
use crate::diagnostics::DropEngineReport;
use crate::error::{AxilError, Result};
use crate::text::{
    chars_of, join2, join3, join6, join7, same_text, starts_with, string_of,
};
use vstd::prelude::*;
use vstd::string::StringExecFns;

verus! {

/// The path of a file that belongs to a database.
pub fn companion_path(base: &str, suffix: &str) -> (r: String)
    ensures
        r@ == base@ + suffix@,
{
    join2(base, suffix)
}

/// The role and the suffix of an engine, by its role, or by its suffix with the dot or
/// without it.
pub open spec fn engine_suffix(engine: Seq<char>) -> Option<(Seq<char>, Seq<char>)> {
    if engine == "vector"@ || engine == "vec"@ || engine == ".vec"@ {
        Some(("vector"@, ".vec"@))
    } else if engine == "graph"@ || engine == ".graph"@ {
        Some(("graph"@, ".graph"@))
    } else if engine == "timeseries"@ || engine == "ts"@ || engine == ".ts"@ {
        Some(("timeseries"@, ".ts"@))
    } else if engine == "fts"@ || engine == ".fts"@ {
        Some(("fts"@, ".fts"@))
    } else {
        None
    }
}

/// The role and the suffix of an engine.
pub fn resolve_engine_suffix(engine: &str) -> (r: Option<(&'static str, &'static str)>)
    ensures
        match r {
            Some(p) => engine_suffix(engine@) == Some((p.0@, p.1@)),
            None => engine_suffix(engine@) is None,
        },
{
    if same_text(engine, "vector") || same_text(engine, "vec") || same_text(engine, ".vec") {
        Some(("vector", ".vec"))
    } else if same_text(engine, "graph") || same_text(engine, ".graph") {
        Some(("graph", ".graph"))
    } else if same_text(engine, "timeseries") || same_text(engine, "ts") || same_text(
        engine,
        ".ts",
    ) {
        Some(("timeseries", ".ts"))
    } else if same_text(engine, "fts") || same_text(engine, ".fts") {
        Some(("fts", ".fts"))
    } else {
        None
    }
}

/// Which file goes when an engine is taken out of a database: the one of the engine,
/// never the database itself. Whether it was there and how large it was is filled in
/// by the host.
pub fn drop_engine_companion(base: &str, engine: &str) -> (r: Result<DropEngineReport>)
    ensures
        match r {
            Ok(d) => {
                &&& engine_suffix(engine@) == Some((d.engine@, d.suffix@))
                &&& d.path@ == base@ + d.suffix@
                &&& !d.existed
                &&& d.bytes_freed == 0
            },
            Err(e) => {
                &&& engine_suffix(engine@) is None
                &&& e is InvalidQuery
                &&& e->InvalidQuery_0@ == "unknown engine `"@ + engine@
                    + "` — expected one of: vector, graph, timeseries, fts"@
            },
        },
{
    match resolve_engine_suffix(engine) {
        Some(p) => Ok(
            DropEngineReport {
                engine: p.0.to_owned(),
                suffix: p.1.to_owned(),
                path: companion_path(base, p.1),
                existed: false,
                bytes_freed: 0,
            },
        ),
        None => Err(
            AxilError::InvalidQuery(
                join3(
                    "unknown engine `",
                    engine,
                    "` — expected one of: vector, graph, timeseries, fts",
                ),
            ),
        ),
    }
}

/// The file of an engine is never the database itself.
pub proof fn engine_files_are_no_databases(base: Seq<char>, engine: Seq<char>)
    ensures
        engine_suffix(engine) matches Some(p) ==> base + p.1 != base,
{
    reveal_strlit(".vec");
    reveal_strlit(".graph");
    reveal_strlit(".ts");
    reveal_strlit(".fts");
    if let Some(p) = engine_suffix(engine) {
        assert((base + p.1).len() > base.len());
    }
}

/// Whether a character may stand in the name of a vector space.
pub open spec fn space_char(c: char) -> bool {
    'a' <= c <= 'z' || '0' <= c <= '9' || c == '_' || c == '-'
}

/// Whether a text is the name of a vector space.
pub open spec fn space_name(s: Seq<char>) -> bool {
    1 <= s.len() <= 32 && forall|i: int| 0 <= i < s.len() ==> space_char(#[trigger] s[i])
}

/// Whether a text is the name of a vector space: 1 to 32 small letters, digits, `_`
/// and `-`.
pub fn is_valid_space_name(name: &str) -> (r: bool)
    ensures
        r == space_name(name@),
{
    let v = chars_of(name);
    if v.len() == 0 || v.len() > 32 {
        return false;
    }
    let mut i: usize = 0;
    while i < v.len()
        invariant
            i <= v@.len(),
            v@ == name@,
            forall|j: int| 0 <= j < i ==> space_char(#[trigger] v@[j]),
        decreases v@.len() - i,
    {
        let c = v[i];
        if !(('a' <= c && c <= 'z') || ('0' <= c && c <= '9') || c == '_' || c == '-') {
            assert(!space_char(name@[i as int]));
            return false;
        }
        i += 1;
    }
    true
}

/// Refuses a text that is not the name of a vector space.
pub fn validate_space_name(space: &str) -> (r: Result<()>)
    ensures
        match r {
            Ok(_) => space_name(space@),
            Err(e) => !space_name(space@) && e is InvalidQuery && e->InvalidQuery_0@
                == "invalid vector space name '"@ + space@ + "': must match [a-z0-9_-]{1,32}"@,
        },
{
    if is_valid_space_name(space) {
        Ok(())
    } else {
        Err(
            AxilError::InvalidQuery(
                join3(
                    "invalid vector space name '",
                    space,
                    "': must match [a-z0-9_-]{1,32}",
                ),
            ),
        )
    }
}

/// Whether one of two prefixes is a prefix of the other.
pub open spec fn overlap(a: Seq<char>, b: Seq<char>) -> bool {
    b.is_prefix_of(a) || a.is_prefix_of(b)
}

/// Whether one of two table prefixes is a prefix of the other.
pub fn prefix_overlaps(a: &str, b: &str) -> (r: bool)
    ensures
        r == overlap(a@, b@),
{
    starts_with(a, b) || starts_with(b, a)
}

/// The table prefixes that no extension may claim.
pub open spec fn reserved_prefixes() -> Seq<Seq<char>> {
    seq![
        "decisions"@,
        "errors"@,
        "context"@,
        "sessions"@,
        "rules"@,
        "_entities"@,
        "_entity_aliases"@,
        "_summaries"@,
        "_beliefs"@,
        "_idx_"@,
        "_scip_"@,
        "_dep_"@,
        "_checkpoint_"@,
        "_recall"@,
    ]
}

/// The table prefixes that no extension may claim.
fn reserved() -> (r: Vec<&'static str>)
    ensures
        r@.map_values(|s: &'static str| s@) == reserved_prefixes(),
{
    let mut v: Vec<&'static str> = Vec::new();
    v.push("decisions");
    v.push("errors");
    v.push("context");
    v.push("sessions");
    v.push("rules");
    v.push("_entities");
    v.push("_entity_aliases");
    v.push("_summaries");
    v.push("_beliefs");
    v.push("_idx_");
    v.push("_scip_");
    v.push("_dep_");
    v.push("_checkpoint_");
    v.push("_recall");
    assert(v@.map_values(|s: &'static str| s@) =~= reserved_prefixes());
    v
}

/// An extension that is registered: its id and the table prefixes that it claims.
#[derive(Debug)]
pub struct RegisteredExtension {
    pub id: String,
    pub prefixes: Vec<String>,
}

impl RegisteredExtension {
    /// Whether a prefix overlaps one that the extension claims.
    pub open spec fn claims(self, prefix: Seq<char>) -> bool {
        exists|i: int|
            0 <= i < self.prefixes@.len() && overlap(prefix, (#[trigger] self.prefixes@[i])@)
    }

    /// Whether two extensions have nothing in common.
    pub open spec fn apart(self, other: RegisteredExtension) -> bool {
        &&& self.id@ != other.id@
        &&& forall|i: int|
            0 <= i < self.prefixes@.len() ==> !other.claims((#[trigger] self.prefixes@[i])@)
    }
}

/// The extensions of a database.
#[derive(Debug)]
pub struct ExtensionRegistry {
    pub extensions: Vec<RegisteredExtension>,
}

/// What stands in the way of an extension.
pub enum Obstacle {
    /// Its id is taken.
    Id,
    /// A prefix of it overlaps a reserved one: its place, and that of the reserved
    /// one.
    Reserved(int, int),
    /// A prefix of it overlaps one of another extension: its place, that of the
    /// extension, and that of the prefix there.
    Claimed(int, int, int),
}

impl ExtensionRegistry {
    /// Whether no two extensions have an id or table prefixes in common.
    pub open spec fn disjoint(self) -> bool {
        forall|i: int, j: int|
            0 <= i < j < self.extensions@.len() ==> (#[trigger] self.extensions@[j]).apart(
                #[trigger] self.extensions@[i],
            )
    }

    /// Whether an id is taken.
    pub open spec fn taken(self, id: Seq<char>) -> bool {
        exists|i: int| 0 <= i < self.extensions@.len() && (#[trigger] self.extensions@[i]).id@ == id
    }

    /// The first claim that overlaps a prefix, from the extension `e` and its prefix
    /// `p` on.
    pub open spec fn first_claim(self, prefix: Seq<char>, e: int, p: int) -> Option<(int, int)>
        decreases
            self.extensions@.len() - e,
            if 0 <= e < self.extensions@.len() {
                self.extensions@[e].prefixes@.len() - p
            } else {
                0
            },
    {
        if e < 0 || p < 0 || e >= self.extensions@.len() {
            None
        } else if p >= self.extensions@[e].prefixes@.len() {
            self.first_claim(prefix, e + 1, 0)
        } else if overlap(prefix, self.extensions@[e].prefixes@[p]@) {
            Some((e, p))
        } else {
            self.first_claim(prefix, e, p + 1)
        }
    }

    /// The first reserved prefix that overlaps one, from the place `i` on.
    pub open spec fn first_reserved(prefix: Seq<char>, i: int) -> Option<int>
        decreases reserved_prefixes().len() - i,
    {
        if i < 0 || i >= reserved_prefixes().len() {
            None
        } else if overlap(prefix, reserved_prefixes()[i]) {
            Some(i)
        } else {
            Self::first_reserved(prefix, i + 1)
        }
    }

    /// What stands in the way of the prefixes from the place `i` on: for each in turn,
    /// a reserved prefix, then one of another extension.
    pub open spec fn obstacle_from(self, prefixes: Seq<String>, i: int) -> Option<Obstacle>
        decreases prefixes.len() - i,
    {
        if i < 0 || i >= prefixes.len() {
            None
        } else {
            match Self::first_reserved(prefixes[i]@, 0) {
                Some(r) => Some(Obstacle::Reserved(i, r)),
                None => match self.first_claim(prefixes[i]@, 0, 0) {
                    Some(c) => Some(Obstacle::Claimed(i, c.0, c.1)),
                    None => self.obstacle_from(prefixes, i + 1),
                },
            }
        }
    }

    /// What stands in the way of an extension.
    pub open spec fn obstacle(self, ext: RegisteredExtension) -> Option<Obstacle> {
        if self.taken(ext.id@) {
            Some(Obstacle::Id)
        } else {
            self.obstacle_from(ext.prefixes@, 0)
        }
    }

    /// The message on what stands in the way of an extension.
    pub open spec fn refusal(self, ext: RegisteredExtension, o: Obstacle) -> Seq<char> {
        match o {
            Obstacle::Id => "extension id `"@ + ext.id@ + "` is already registered"@,
            Obstacle::Reserved(i, r) => "extension `"@ + ext.id@ + "` table prefix `"@
                + ext.prefixes@[i]@ + "` is reserved by Axil core/engines (overlaps `"@
                + reserved_prefixes()[r] + "`) — choose a distinct, more specific prefix"@,
            Obstacle::Claimed(i, e, p) => "extension `"@ + ext.id@ + "` table prefix `"@
                + ext.prefixes@[i]@ + "` overlaps with existing extension `"@
                + self.extensions@[e].id@ + "` prefix `"@ + self.extensions@[e].prefixes@[p]@
                + "`"@,
        }
    }

    /// A database without extensions.
    pub fn new() -> (r: ExtensionRegistry)
        ensures
            r.extensions@.len() == 0,
            r.disjoint(),
    {
        ExtensionRegistry { extensions: Vec::new() }
    }

    /// Finds the first claim that overlaps a prefix.
    fn find_claim(&self, prefix: &str) -> (r: Option<(usize, usize)>)
        ensures
            match r {
                Some(c) => self.first_claim(prefix@, 0, 0) == Some((c.0 as int, c.1 as int)) && c.0
                    < self.extensions@.len() && c.1 < self.extensions@[c.0 as int].prefixes@.len(),
                None => self.first_claim(prefix@, 0, 0) is None,
            },
    {
        let mut e: usize = 0;
        while e < self.extensions.len()
            invariant
                e <= self.extensions@.len(),
                self.first_claim(prefix@, 0, 0) == self.first_claim(prefix@, e as int, 0),
            decreases self.extensions@.len() - e,
        {
            let x = &self.extensions[e];
            let mut p: usize = 0;
            while p < x.prefixes.len()
                invariant
                    e < self.extensions@.len(),
                    *x == self.extensions@[e as int],
                    p <= x.prefixes@.len(),
                    self.first_claim(prefix@, 0, 0) == self.first_claim(
                        prefix@,
                        e as int,
                        p as int,
                    ),
                decreases x.prefixes@.len() - p,
            {
                if prefix_overlaps(prefix, x.prefixes[p].as_str()) {
                    return Some((e, p));
                }
                p += 1;
            }
            e += 1;
        }
        None
    }

    /// Finds the first reserved prefix that overlaps one.
    fn find_reserved(prefix: &str) -> (r: Option<&'static str>)
        ensures
            match r {
                Some(s) => Self::first_reserved(prefix@, 0) matches Some(i) && 0 <= i
                    < reserved_prefixes().len() && s@ == reserved_prefixes()[i],
                None => Self::first_reserved(prefix@, 0) is None,
            },
    {
        let all = reserved();
        let ghost views = all@.map_values(|s: &'static str| s@);
        let mut i: usize = 0;
        while i < all.len()
            invariant
                i <= all@.len(),
                views == all@.map_values(|s: &'static str| s@),
                views == reserved_prefixes(),
                Self::first_reserved(prefix@, 0) == Self::first_reserved(prefix@, i as int),
            decreases all@.len() - i,
        {
            assert(views[i as int] == all@[i as int]@);
            if prefix_overlaps(prefix, all[i]) {
                return Some(all[i]);
            }
            i += 1;
        }
        None
    }

    /// Whether an id is taken.
    fn is_taken(&self, id: &str) -> (r: bool)
        ensures
            r == self.taken(id@),
    {
        let mut i: usize = 0;
        while i < self.extensions.len()
            invariant
                i <= self.extensions@.len(),
                forall|j: int| 0 <= j < i ==> (#[trigger] self.extensions@[j]).id@ != id@,
            decreases self.extensions@.len() - i,
        {
            if same_text(self.extensions[i].id.as_str(), id) {
                return true;
            }
            i += 1;
        }
        false
    }

    /// Registers an extension on a database that is open. Its id has to be new, and
    /// its table prefixes have to be apart from the reserved ones and from those of
    /// the others.
    pub fn register_extension(&mut self, ext: RegisteredExtension) -> (r: Result<()>)
        ensures
            match r {
                Ok(_) => old(self).obstacle(ext) is None && final(self).extensions@
                    == old(self).extensions@.push(ext),
                Err(e) => *final(self) == *old(self) && (old(self).obstacle(ext) matches Some(o)
                    && e is Plugin && e->Plugin_0@ == old(self).refusal(ext, o)),
            },
            old(self).disjoint() ==> final(self).disjoint(),
    {
        if self.is_taken(ext.id.as_str()) {
            return Err(
                AxilError::Plugin(
                    join3("extension id `", ext.id.as_str(), "` is already registered"),
                ),
            );
        }
        let mut i: usize = 0;
        while i < ext.prefixes.len()
            invariant
                i <= ext.prefixes@.len(),
                *self == *old(self),
                !self.taken(ext.id@),
                self.obstacle(ext) == self.obstacle_from(ext.prefixes@, i as int),
            decreases ext.prefixes@.len() - i,
        {
            let prefix = ext.prefixes[i].as_str();
            if let Some(reserved) = Self::find_reserved(prefix) {
                return Err(
                    AxilError::Plugin(
                        join7(
                            "extension `",
                            ext.id.as_str(),
                            "` table prefix `",
                            prefix,
                            "` is reserved by Axil core/engines (overlaps `",
                            reserved,
                            "`) — choose a distinct, more specific prefix",
                        ),
                    ),
                );
            }
            if let Some(c) = self.find_claim(prefix) {
                let other = &self.extensions[c.0];
                let mut m = join6(
                    "extension `",
                    ext.id.as_str(),
                    "` table prefix `",
                    prefix,
                    "` overlaps with existing extension `",
                    other.id.as_str(),
                );
                m.append("` prefix `");
                m.append(other.prefixes[c.1].as_str());
                m.append("`");
                return Err(AxilError::Plugin(m));
            }
            i += 1;
        }
        proof {
            if self.disjoint() {
                lemma_no_obstacle(*self, ext);
            }
        }
        let ghost before = self.extensions@;
        self.extensions.push(ext);
        proof {
            if old(self).disjoint() {
                assert forall|i: int, j: int| 0 <= i < j < self.extensions@.len() implies (
                #[trigger] self.extensions@[j]).apart(#[trigger] self.extensions@[i]) by {
                    assert(self.extensions@[i] == before[i]);
                    if j < before.len() {
                        assert(self.extensions@[j] == before[j]);
                    }
                }
            }
        }
        Ok(())
    }

    /// Registers an extension while a database is put together. Its id has to be new,
    /// and its table prefixes have to be apart from those of the others.
    pub fn with_extension(&mut self, ext: RegisteredExtension)
        requires
            forall|i: int|
                0 <= i < old(self).extensions@.len() ==> ext.apart(
                    #[trigger] old(self).extensions@[i],
                ),
        ensures
            final(self).extensions@ == old(self).extensions@.push(ext),
            old(self).disjoint() ==> final(self).disjoint(),
    {
        let ghost before = self.extensions@;
        self.extensions.push(ext);
        proof {
            if old(self).disjoint() {
                assert forall|i: int, j: int| 0 <= i < j < self.extensions@.len() implies (
                #[trigger] self.extensions@[j]).apart(#[trigger] self.extensions@[i]) by {
                    assert(self.extensions@[i] == before[i]);
                    if j < before.len() {
                        assert(self.extensions@[j] == before[j]);
                    }
                }
            }
        }
    }
}

/// A prefix that nothing claims overlaps no claim.
proof fn lemma_no_claim(reg: ExtensionRegistry, prefix: Seq<char>, e: int, p: int)
    requires
        0 <= e,
        0 <= p,
        reg.first_claim(prefix, e, p) is None,
    ensures
        forall|i: int, j: int|
            e <= i < reg.extensions@.len() && 0 <= j < (
            #[trigger] reg.extensions@[i]).prefixes@.len() && (i > e || j >= p) ==> !overlap(
                prefix,
                (#[trigger] reg.extensions@[i].prefixes@[j])@,
            ),
    decreases
            reg.extensions@.len() - e,
            if 0 <= e < reg.extensions@.len() {
                reg.extensions@[e].prefixes@.len() - p
            } else {
                0
            },
{
    if e < reg.extensions@.len() {
        if p >= reg.extensions@[e].prefixes@.len() {
            lemma_no_claim(reg, prefix, e + 1, 0);
        } else {
            lemma_no_claim(reg, prefix, e, p + 1);
        }
    }
}

/// Where nothing stands in the way from a place on, the prefixes from there on overlap
/// no claim.
proof fn lemma_no_obstacle_from(reg: ExtensionRegistry, prefixes: Seq<String>, i: int)
    requires
        0 <= i,
        reg.obstacle_from(prefixes, i) is None,
    ensures
        forall|k: int, e: int|
            i <= k < prefixes.len() && 0 <= e < reg.extensions@.len() ==> !(
            #[trigger] reg.extensions@[e]).claims((#[trigger] prefixes[k])@),
    decreases prefixes.len() - i,
{
    if i < prefixes.len() {
        lemma_no_claim(reg, prefixes[i]@, 0, 0);
        lemma_no_obstacle_from(reg, prefixes, i + 1);
        assert forall|k: int, e: int|
            i <= k < prefixes.len() && 0 <= e < reg.extensions@.len() implies !(
        #[trigger] reg.extensions@[e]).claims((#[trigger] prefixes[k])@) by {
            if k == i && reg.extensions@[e].claims(prefixes[k]@) {
                let j = choose|j: int|
                    0 <= j < reg.extensions@[e].prefixes@.len() && overlap(
                        prefixes[k]@,
                        (#[trigger] reg.extensions@[e].prefixes@[j])@,
                    );
                assert(!overlap(prefixes[i]@, reg.extensions@[e].prefixes@[j]@));
            }
        }
    }
}

/// An extension that nothing stands in the way of is apart from the others.
proof fn lemma_no_obstacle(reg: ExtensionRegistry, ext: RegisteredExtension)
    requires
        reg.obstacle(ext) is None,
    ensures
        forall|e: int| 0 <= e < reg.extensions@.len() ==> ext.apart(#[trigger] reg.extensions@[e]),
{
    lemma_no_obstacle_from(reg, ext.prefixes@, 0);
    assert forall|e: int| 0 <= e < reg.extensions@.len() implies ext.apart(
        #[trigger] reg.extensions@[e],
    ) by {
        assert forall|i: int| 0 <= i < ext.prefixes@.len() implies !reg.extensions@[e].claims(
            (#[trigger] ext.prefixes@[i])@,
        ) by {
        }
    }
}

/// A table that belongs to one extension belongs to no other: a name cannot start
/// with prefixes of two that are apart.
pub proof fn tables_have_one_owner(
    a: RegisteredExtension,
    b: RegisteredExtension,
    i: int,
    j: int,
    table: Seq<char>,
)
    requires
        a.apart(b),
        0 <= i < a.prefixes@.len(),
        0 <= j < b.prefixes@.len(),
        a.prefixes@[i]@.is_prefix_of(table),
    ensures
        !b.prefixes@[j]@.is_prefix_of(table),
{
    let p = a.prefixes@[i]@;
    let q = b.prefixes@[j]@;
    assert(!b.claims(a.prefixes@[i]@));
    if q.is_prefix_of(table) {
        if p.len() <= q.len() {
            assert(p =~= q.subrange(0, p.len() as int));
        } else {
            assert(q =~= p.subrange(0, q.len() as int));
        }
        assert(overlap(p, b.prefixes@[j]@));
    }
}

impl Axil {
    /// Whether opening a database gives canonical ids to the entities: it can be
    /// written to, has entities, and this was not done yet.
    pub fn migrates_on_open(read_only: bool, has_entities: bool, done: bool) -> (r: bool)
        ensures
            r == (!read_only && has_entities && !done),
    {
        !read_only && has_entities && !done
    }

    /// Whether opening a database fills the full-text index anew: the index asks for
    /// it, is there, and can be written to.
    pub fn reindexes_on_open(&self, asked: bool, read_only: bool) -> (r: bool)
        ensures
            r == (asked && !read_only && self.fts_index),
    {
        asked && !read_only && self.fts_index
    }
}

/// An engine is known by its role, by its suffix, and by its suffix without the dot: all
/// three lead to the same file, which is that of the engine's role among the files of a
/// database.
pub proof fn engines_are_known_by_role_and_suffix(
    i: usize,
    c: (&'static str, &'static str),
    engine: &str,
    r: Option<(&'static str, &'static str)>,
)
    requires
        i < 4,
        call_ensures(super::info::companion_suffix, (i,), c),
        call_ensures(resolve_engine_suffix, (engine,), r),
    ensures
        c.0@.len() > 0 && c.0@[0] == '.',
        engine@ == c.1@ || engine@ == c.0@ || (engine@ == c.0@.drop_first()) ==> (
        r matches Some(p) && p.0@ == c.1@ && p.1@ == c.0@),
{
    reveal_strlit("vector");
    reveal_strlit("vec");
    reveal_strlit(".vec");
    reveal_strlit("graph");
    reveal_strlit(".graph");
    reveal_strlit("timeseries");
    reveal_strlit("ts");
    reveal_strlit(".ts");
    reveal_strlit("fts");
    reveal_strlit(".fts");
    assert("vector"@.len() == 6 && "vec"@.len() == 3 && ".vec"@.len() == 4 && "graph"@.len() == 5
        && ".graph"@.len() == 6 && "timeseries"@.len() == 10 && "ts"@.len() == 2 && ".ts"@.len()
        == 3 && "fts"@.len() == 3 && ".fts"@.len() == 4);
    assert("vec"@[0] == 'v' && "fts"@[0] == 'f' && ".ts"@[0] == '.' && ".vec"@[0] == '.'
        && ".graph"@[0] == '.' && ".fts"@[0] == '.' && "vector"@[0] == 'v' && ".vec"@[1] == 'v'
        && ".fts"@[1] == 'f');
    assert(".vec"@.drop_first() =~= "vec"@);
    assert(".graph"@.drop_first() =~= "graph"@);
    assert(".ts"@.drop_first() =~= "ts"@);
    assert(".fts"@.drop_first() =~= "fts"@);
}

/// Taking an engine out of a database removes the file of that engine: the path of the
/// database with the suffix of the engine, and nothing where the engine is not known.
pub proof fn engines_take_their_own_file(
    base: &str,
    engine: &str,
    known: Option<(&'static str, &'static str)>,
    r: Result<DropEngineReport>,
)
    requires
        call_ensures(resolve_engine_suffix, (engine,), known),
        call_ensures(drop_engine_companion, (base, engine), r),
    ensures
        known is None <==> r is Err,
        known matches Some(p) ==> (r matches Ok(d) && d.engine@ == p.0@ && d.suffix@ == p.1@
            && d.path@ == base@ + p.1@),
{
}

/// A name of a vector space is made of 1 to 32 characters. Two names in a row are one as
/// long as they are not too long, and each part of a name that is not empty is one.
pub proof fn space_names_are_made_of_parts(
    a: &str,
    b: &str,
    ab: &str,
    r: bool,
    s: bool,
    rs: bool,
)
    requires
        ab@ == a@ + b@,
        call_ensures(is_valid_space_name, (a,), r),
        call_ensures(is_valid_space_name, (b,), s),
        call_ensures(is_valid_space_name, (ab,), rs),
    ensures
        a@.len() == 0 || a@.len() > 32 ==> !r,
        r && s && ab@.len() <= 32 ==> rs,
        rs && a@.len() > 0 ==> r,
        rs && b@.len() > 0 ==> s,
        a@.len() == 1 ==> (r <==> ('a' <= a@[0] <= 'z' || '0' <= a@[0] <= '9' || a@[0] == '_'
            || a@[0] == '-')),
{
    if r && s && ab@.len() <= 32 {
        assert forall|i: int| 0 <= i < ab@.len() implies space_char(#[trigger] ab@[i]) by {
            if i < a@.len() {
                assert(space_char(a@[i]));
            } else {
                assert(space_char(b@[i - a@.len()]));
            }
        }
    }
    if rs {
        assert forall|i: int| 0 <= i < a@.len() implies space_char(#[trigger] a@[i]) by {
            assert(a@[i] == ab@[i]);
        }
        assert forall|i: int| 0 <= i < b@.len() implies space_char(#[trigger] b@[i]) by {
            assert(b@[i] == ab@[i + a@.len()]);
        }
    }
    if a@.len() == 1 {
        assert(space_char(a@[0]) <==> ('a' <= a@[0] <= 'z' || '0' <= a@[0] <= '9' || a@[0] == '_'
            || a@[0] == '-'));
    }
}

/// A text that is no name of a vector space is refused, and no other.
pub proof fn only_names_of_spaces_are_taken(space: &str, r: bool, v: Result<()>)
    requires
        call_ensures(is_valid_space_name, (space,), r),
        call_ensures(validate_space_name, (space,), v),
    ensures
        v is Ok <==> r,
{
}

/// Two prefixes overlap just where some table begins with both.
pub proof fn overlapping_prefixes_share_a_table(a: &str, b: &str, r: bool, table: Seq<char>)
    requires
        call_ensures(prefix_overlaps, (a, b), r),
    ensures
        a@.is_prefix_of(table) && b@.is_prefix_of(table) ==> r,
        r ==> a@.is_prefix_of(a@) && b@.is_prefix_of(a@) || a@.is_prefix_of(b@) && b@.is_prefix_of(
            b@,
        ),
{
    if a@.is_prefix_of(table) && b@.is_prefix_of(table) {
        if a@.len() <= b@.len() {
            assert(a@ =~= b@.subrange(0, a@.len() as int));
        } else {
            assert(b@ =~= a@.subrange(0, b@.len() as int));
        }
    }
}

/// Nothing stands in the way of an extension just where its id is new and no table could
/// begin with a prefix of it and with one that is reserved or that another extension has.
pub proof fn only_new_extensions_are_registered(reg: ExtensionRegistry, ext: RegisteredExtension)
    ensures
        reg.obstacle(ext) is None <==> {
            &&& forall|j: int|
                0 <= j < reg.extensions@.len() ==> (#[trigger] reg.extensions@[j]).id@ != ext.id@
            &&& forall|i: int|
                0 <= i < ext.prefixes@.len() ==> !blocked(reg, (#[trigger] ext.prefixes@[i])@)
        },
{
    lemma_obstacles(reg, ext.prefixes@, 0);
}

/// Whether some table could begin with a prefix and with one that is reserved or that an
/// extension has.
pub open spec fn blocked(reg: ExtensionRegistry, prefix: Seq<char>) -> bool {
    ||| exists|r: int|
        0 <= r < reserved_prefixes().len() && overlap(prefix, #[trigger] reserved_prefixes()[r])
    ||| exists|e: int| 0 <= e < reg.extensions@.len() && (#[trigger] reg.extensions@[e]).claims(prefix)
}

/// Nothing stands in the way from a place on where no prefix from there on is blocked.
proof fn lemma_obstacles(reg: ExtensionRegistry, prefixes: Seq<String>, i: int)
    requires
        0 <= i <= prefixes.len(),
    ensures
        reg.obstacle_from(prefixes, i) is None <==> forall|k: int|
            i <= k < prefixes.len() ==> !blocked(reg, (#[trigger] prefixes[k])@),
    decreases prefixes.len() - i,
{
    if i < prefixes.len() {
        let p = prefixes[i]@;
        lemma_reserved(p, 0);
        lemma_claims(reg, p, 0, 0);
        lemma_obstacles(reg, prefixes, i + 1);
        let r = ExtensionRegistry::first_reserved(p, 0);
        let c = reg.first_claim(p, 0, 0);
        if r is Some {
            assert(overlap(p, reserved_prefixes()[r->0]));
        }
        if c is Some {
            let (e, q) = c->0;
            assert(overlap(p, reg.extensions@[e].prefixes@[q]@));
            assert(reg.extensions@[e].claims(p));
        }
        assert(blocked(reg, p) <==> r is Some || c is Some);
    }
}

/// A reserved prefix is found where one overlaps.
proof fn lemma_reserved(prefix: Seq<char>, i: int)
    requires
        0 <= i,
    ensures
        ExtensionRegistry::first_reserved(prefix, i) is None ==> forall|r: int|
            i <= r < reserved_prefixes().len() ==> !overlap(
                prefix,
                #[trigger] reserved_prefixes()[r],
            ),
        ExtensionRegistry::first_reserved(prefix, i) matches Some(r) ==> i <= r
            < reserved_prefixes().len() && overlap(prefix, reserved_prefixes()[r]),
    decreases reserved_prefixes().len() - i,
{
    if i < reserved_prefixes().len() && !overlap(prefix, reserved_prefixes()[i]) {
        lemma_reserved(prefix, i + 1);
    }
}

/// A claim is found where one overlaps.
proof fn lemma_claims(reg: ExtensionRegistry, prefix: Seq<char>, e: int, p: int)
    requires
        0 <= e,
        0 <= p,
    ensures
        reg.first_claim(prefix, e, p) is None ==> (forall|k: int, q: int|
            #![trigger reg.extensions@[k].prefixes@[q]]
            e <= k < reg.extensions@.len() && 0 <= q < reg.extensions@[k].prefixes@.len() && (k > e
                || q >= p) ==> !overlap(prefix, reg.extensions@[k].prefixes@[q]@)),
        reg.first_claim(prefix, e, p) matches Some(c) ==> 0 <= c.0 < reg.extensions@.len() && 0
            <= c.1 < reg.extensions@[c.0].prefixes@.len() && overlap(
            prefix,
            reg.extensions@[c.0].prefixes@[c.1]@,
        ),
    decreases
            reg.extensions@.len() - e,
            if 0 <= e < reg.extensions@.len() {
                reg.extensions@[e].prefixes@.len() - p
            } else {
                0
            },
{
    if e < reg.extensions@.len() {
        if p >= reg.extensions@[e].prefixes@.len() {
            lemma_claims(reg, prefix, e + 1, 0);
        } else if !overlap(prefix, reg.extensions@[e].prefixes@[p]@) {
            lemma_claims(reg, prefix, e, p + 1);
        }
    }
}

/// The prefixes of the tables that the database keeps itself are reserved: an extension
/// with one of them, or with the beginning of one, is refused.
pub proof fn own_tables_are_reserved(reg: ExtensionRegistry, ext: RegisteredExtension, i: int)
    requires
        0 <= i < ext.prefixes@.len(),
        ext.prefixes@[i]@.is_prefix_of("decisions"@) || ext.prefixes@[i]@.is_prefix_of("errors"@)
            || ext.prefixes@[i]@.is_prefix_of("context"@) || ext.prefixes@[i]@.is_prefix_of(
            "sessions"@,
        ) || ext.prefixes@[i]@.is_prefix_of("rules"@) || ext.prefixes@[i]@.is_prefix_of(
            "_entities"@,
        ) || ext.prefixes@[i]@.is_prefix_of("_entity_aliases"@) || ext.prefixes@[i]@.is_prefix_of(
            "_summaries"@,
        ) || ext.prefixes@[i]@.is_prefix_of("_beliefs"@) || ext.prefixes@[i]@.is_prefix_of(
            "_idx_"@,
        ) || ext.prefixes@[i]@.is_prefix_of("_scip_"@) || ext.prefixes@[i]@.is_prefix_of("_dep_"@)
            || ext.prefixes@[i]@.is_prefix_of("_checkpoint_"@) || ext.prefixes@[i]@.is_prefix_of(
            "_recall"@,
        ),
    ensures
        reg.obstacle(ext) is Some,
{
    only_new_extensions_are_registered(reg, ext);
    let p = ext.prefixes@[i]@;
    let s = reserved_prefixes();
    assert(overlap(p, s[0]) || overlap(p, s[1]) || overlap(p, s[2]) || overlap(p, s[3]) || overlap(
        p,
        s[4],
    ) || overlap(p, s[5]) || overlap(p, s[6]) || overlap(p, s[7]) || overlap(p, s[8]) || overlap(
        p,
        s[9],
    ) || overlap(p, s[10]) || overlap(p, s[11]) || overlap(p, s[12]) || overlap(p, s[13]));
    assert(blocked(reg, p));
}

/// A database that cannot be written to is neither migrated nor indexed anew when it is
/// opened; one that can is indexed where that is asked and there is an index, and migrated
/// where it has entities, once.
pub proof fn opening_writes_only_where_it_may(
    db: &Axil,
    read_only: bool,
    entities: bool,
    done: bool,
    m: bool,
    x: bool,
)
    requires
        call_ensures(Axil::migrates_on_open, (read_only, entities, done), m),
        call_ensures(Axil::reindexes_on_open, (db, entities, read_only), x),
    ensures
        read_only ==> !m && !x,
        done ==> !m,
        !entities ==> !m && !x,
        !db.fts_index ==> !x,
        !read_only && entities && !done ==> m,
        !read_only && entities && db.fts_index ==> x,
{
}

} // verus!
