//! What a database is made of: its files, tables and engines.

use super::registry::companion_path;
use super::Axil;
use crate::json::{Json, Value};
use vstd::prelude::*;

verus! {

/// How many kinds of files a database may have besides its own.
pub const COMPANIONS: usize = 4;

/// The suffix and the role of a file that belongs to a database.
pub open spec fn companion(i: int) -> (Seq<char>, Seq<char>) {
    if i == 0 {
        (".vec"@, "vector"@)
    } else if i == 1 {
        (".graph"@, "graph"@)
    } else if i == 2 {
        (".ts"@, "timeseries"@)
    } else {
        (".fts"@, "fts"@)
    }
}

/// The suffix and the role of a file that belongs to a database.
pub fn companion_suffix(i: usize) -> (r: (&'static str, &'static str))
    requires
        i < COMPANIONS,
    ensures
        (r.0@, r.1@) == companion(i as int),
{
    if i == 0 {
        (".vec", "vector")
    } else if i == 1 {
        (".graph", "graph")
    } else if i == 2 {
        (".ts", "timeseries")
    } else {
        (".fts", "fts")
    }
}

/// A file of a database.
#[derive(Debug)]
pub struct DatabaseFile {
    pub path: String,
    pub role: String,
    pub size: u64,
}

/// A file of a database, in the model.
pub struct FileView {
    pub path: Seq<char>,
    pub role: Seq<char>,
    pub size: u64,
}

impl View for DatabaseFile {
    type V = FileView;

    open spec fn view(&self) -> FileView {
        FileView { path: self.path@, role: self.role@, size: self.size }
    }
}

/// Files, in the model.
pub open spec fn files_view(f: Seq<DatabaseFile>) -> Seq<FileView> {
    f.map_values(|x: DatabaseFile| x@)
}

/// The files of a database: its own first, then those of its engines that are there.
pub open spec fn files_of(base: Seq<char>, core: u64, found: Seq<Option<u64>>) -> Seq<FileView>
    decreases found.len(),
{
    if found.len() == 0 {
        seq![FileView { path: base, role: "core"@, size: core }]
    } else {
        let before = files_of(base, core, found.drop_last());
        let c = companion(found.len() - 1);
        match found.last() {
            Some(size) => before.push(FileView { path: base + c.0, role: c.1, size }),
            None => before,
        }
    }
}

/// The size of files together.
pub open spec fn size_of(f: Seq<FileView>) -> int
    decreases f.len(),
{
    if f.len() == 0 {
        0
    } else {
        size_of(f.drop_last()) + f.last().size
    }
}

/// Files together are no smaller than some of them.
proof fn lemma_size_grows(f: Seq<FileView>, n: int)
    requires
        0 <= n <= f.len(),
    ensures
        0 <= size_of(f.take(n)) <= size_of(f),
    decreases f.len(),
{
    if n < f.len() {
        lemma_size_grows(f.drop_last(), n);
        assert(f.drop_last().take(n) =~= f.take(n));
    } else {
        assert(f.take(n) =~= f);
        if f.len() > 0 {
            lemma_size_grows(f.drop_last(), f.len() - 1);
            assert(f.drop_last().take(f.len() - 1) =~= f.drop_last());
        }
    }
}

/// What the engines of a database say of themselves.
#[derive(Clone, Copy, Debug)]
pub struct EngineFacts {
    /// The number of vectors and their dimension, where there is a vector index.
    pub vector: Option<(u64, u64)>,
    /// Whether there is a graph index.
    pub graph: bool,
    /// The number of entries, where there is a time index.
    pub timeseries: Option<u64>,
    /// Whether there is a full-text index.
    pub fts: bool,
}

/// What an engine is shown as that only says that it is there.
pub open spec fn enabled() -> Json {
    Json::Object(Map::empty()).with_member("enabled"@, Json::Bool(true))
}

/// What the engines are shown as.
pub open spec fn plugins_of(e: EngineFacts) -> Json {
    let v0 = Json::Object(Map::empty());
    let v1 = match e.vector {
        Some(x) => v0.with_member(
            "vector"@,
            Json::Object(Map::empty()).with_member("count"@, Json::PosInt(x.0)).with_member(
                "dimensions"@,
                Json::PosInt(x.1),
            ),
        ),
        None => v0,
    };
    let v2 = if e.graph {
        v1.with_member("graph"@, enabled())
    } else {
        v1
    };
    let v3 = match e.timeseries {
        Some(n) => v2.with_member(
            "timeseries"@,
            Json::Object(Map::empty()).with_member("entries"@, Json::PosInt(n)),
        ),
        None => v2,
    };
    if e.fts {
        v3.with_member("fts"@, enabled())
    } else {
        v3
    }
}

/// What an engine is shown as that only says that it is there.
fn enabled_value() -> (r: Value)
    ensures
        r.model() == enabled(),
{
    let mut v = Value::object();
    v.set("enabled", Value::Bool(true));
    v
}

/// What the engines are shown as.
fn plugins(e: EngineFacts) -> (r: Value)
    ensures
        r.model() == plugins_of(e),
{
    let mut out = Value::object();
    if let Some((count, dimensions)) = e.vector {
        let mut v = Value::object();
        v.set("count", Value::count(count));
        v.set("dimensions", Value::count(dimensions));
        out.set("vector", v);
    }
    if e.graph {
        out.set("graph", enabled_value());
    }
    if let Some(n) = e.timeseries {
        let mut v = Value::object();
        v.set("entries", Value::count(n));
        out.set("timeseries", v);
    }
    if e.fts {
        out.set("fts", enabled_value());
    }
    out
}

/// What a database is made of.
#[derive(Debug)]
pub struct DatabaseInfo {
    /// The path of its own file.
    pub path: String,
    /// Its files.
    pub files: Vec<DatabaseFile>,
    /// Their size together.
    pub total_size: u64,
    /// The number of records.
    pub total_records: usize,
    /// The tables, each with the number of its records.
    pub tables: Vec<(String, usize)>,
    /// What the engines say of themselves, by their roles.
    pub plugins: Value,
}

impl Axil {
    /// The files of a database, given the size of its own and of each of the others
    /// that is there.
    pub fn files_with_roles(base: &str, core: u64, found: &Vec<Option<u64>>) -> (r: Vec<
        DatabaseFile,
    >)
        requires
            found@.len() == COMPANIONS,
        ensures
            files_view(r@) == files_of(base@, core, found@),
    {
        let mut out: Vec<DatabaseFile> = Vec::new();
        out.push(DatabaseFile { path: base.to_owned(), role: "core".to_owned(), size: core });
        assert(files_view(out@) =~= files_of(base@, core, found@.take(0)));
        let mut i: usize = 0;
        while i < COMPANIONS
            invariant
                i <= COMPANIONS,
                found@.len() == COMPANIONS,
                files_view(out@) == files_of(base@, core, found@.take(i as int)),
            decreases COMPANIONS - i,
        {
            proof {
                assert(found@.take(i + 1).drop_last() =~= found@.take(i as int));
                assert(found@.take(i + 1).last() == found@[i as int]);
            }
            if let Some(size) = found[i] {
                let (suffix, role) = companion_suffix(i);
                let f = DatabaseFile {
                    path: companion_path(base, suffix),
                    role: role.to_owned(),
                    size,
                };
                let ghost before = files_view(out@);
                let ghost x = f@;
                out.push(f);
                assert(files_view(out@) =~= before.push(x));
            }
            i += 1;
        }
        assert(found@.take(i as int) =~= found@);
        out
    }

    /// What a database is made of.
    pub fn info(
        base: &str,
        files: Vec<DatabaseFile>,
        total_records: usize,
        tables: Vec<(String, usize)>,
        engines: EngineFacts,
    ) -> (r: DatabaseInfo)
        requires
            size_of(files_view(files@)) <= u64::MAX,
        ensures
            r.path@ == base@,
            r.files == files,
            r.total_size == size_of(files_view(files@)),
            r.total_records == total_records,
            r.tables == tables,
            r.plugins.model() == plugins_of(engines),
    {
        let ghost all = files_view(files@);
        let mut total: u64 = 0;
        let mut i: usize = 0;
        while i < files.len()
            invariant
                i <= files@.len(),
                all == files_view(files@),
                size_of(all) <= u64::MAX,
                total == size_of(all.take(i as int)),
            decreases files@.len() - i,
        {
            proof {
                lemma_size_grows(all, i + 1);
                assert(all.take(i + 1).drop_last() =~= all.take(i as int));
                assert(all.take(i + 1).last() == files@[i as int]@);
            }
            total += files[i].size;
            i += 1;
        }
        assert(all.take(i as int) =~= all);
        DatabaseInfo {
            path: base.to_owned(),
            files,
            total_size: total,
            total_records,
            tables,
            plugins: plugins(engines),
        }
    }
}

/// The files of a database: its own comes first, and each other that is there comes in the
/// order of the engines, with the path of the database and the suffix of its engine.
pub proof fn each_engine_has_its_file(
    base: &str,
    core: u64,
    found: &Vec<Option<u64>>,
    r: Vec<DatabaseFile>,
)
    requires
        found@.len() == 4,
        call_ensures(Axil::files_with_roles, (base, core, found), r),
    ensures
        ({
            let a: int = if found@[0] is Some {
                1
            } else {
                0
            };
            let b: int = if found@[1] is Some {
                a + 1
            } else {
                a
            };
            let c: int = if found@[2] is Some {
                b + 1
            } else {
                b
            };
            let d: int = if found@[3] is Some {
                c + 1
            } else {
                c
            };
            &&& r@.len() == 1 + d
            &&& r@[0].path@ == base@ && r@[0].role@ == "core"@ && r@[0].size == core
            &&& found@[0] matches Some(n) ==> r@[a].path@ == base@ + ".vec"@ && r@[a].role@
                == "vector"@ && r@[a].size == n
            &&& found@[1] matches Some(n) ==> r@[b].path@ == base@ + ".graph"@ && r@[b].role@
                == "graph"@ && r@[b].size == n
            &&& found@[2] matches Some(n) ==> r@[c].path@ == base@ + ".ts"@ && r@[c].role@
                == "timeseries"@ && r@[c].size == n
            &&& found@[3] matches Some(n) ==> r@[d].path@ == base@ + ".fts"@ && r@[d].role@
                == "fts"@ && r@[d].size == n
        }),
{
    let s = found@;
    let f3 = s.drop_last();
    let f2 = f3.drop_last();
    let f1 = f2.drop_last();
    let f0 = f1.drop_last();
    let v = files_view(r@);
    assert(v.len() == r@.len());
    assert forall|i: int| 0 <= i < v.len() implies v[i] == (#[trigger] r@[i])@ by {}
    assert(files_of(base@, core, f0) == seq![
        FileView { path: base@, role: "core"@, size: core },
    ]);
    assert(f1.last() == s[0] && f2.last() == s[1] && f3.last() == s[2]);
    let v1 = files_of(base@, core, f1);
    let v2 = files_of(base@, core, f2);
    let v3 = files_of(base@, core, f3);
    assert(f1.drop_last() == f0 && f2.drop_last() == f1 && f3.drop_last() == f2);
}

/// The size of a database is that of its files together: one more file adds its size.
pub proof fn files_add_their_sizes(
    base: &str,
    files: Vec<DatabaseFile>,
    more: Vec<DatabaseFile>,
    x: DatabaseFile,
    records: usize,
    tables: Vec<(String, usize)>,
    engines: EngineFacts,
    r: DatabaseInfo,
    s: DatabaseInfo,
)
    requires
        more@ == files@.push(x),
        size_of(files_view(more@)) <= u64::MAX,
        call_ensures(Axil::info, (base, files, records, tables, engines), r),
        call_ensures(Axil::info, (base, more, records, tables, engines), s),
    ensures
        s.total_size == r.total_size + x.size,
        files@.len() == 0 ==> r.total_size == 0,
        r.total_records == records && r.tables == tables && r.files == files && r.path@ == base@,
{
    assert(files_view(more@).drop_last() =~= files_view(files@));
    assert(files_view(more@).last() == x@);
}

/// Each engine that is there is shown under its role, with what it says of itself, and none
/// that is not there.
pub proof fn engines_show_what_they_hold(
    base: &str,
    files: Vec<DatabaseFile>,
    records: usize,
    tables: Vec<(String, usize)>,
    engines: EngineFacts,
    r: DatabaseInfo,
)
    requires
        size_of(files_view(files@)) <= u64::MAX,
        call_ensures(Axil::info, (base, files, records, tables, engines), r),
    ensures
        ({
            let p = r.plugins.model();
            &&& p.member("vector"@) is Some <==> engines.vector is Some
            &&& p.member("graph"@) is Some <==> engines.graph
            &&& p.member("timeseries"@) is Some <==> engines.timeseries is Some
            &&& p.member("fts"@) is Some <==> engines.fts
            &&& engines.vector matches Some(x) ==> (p.member("vector"@) matches Some(v)
                && v.member("count"@) == Some(Json::PosInt(x.0)) && v.member("dimensions"@) == Some(
                Json::PosInt(x.1),
            ))
            &&& engines.timeseries matches Some(n) ==> (p.member("timeseries"@) matches Some(v)
                && v.member("entries"@) == Some(Json::PosInt(n)))
            &&& engines.graph ==> (p.member("graph"@) matches Some(v) && v.member("enabled"@)
                == Some(Json::Bool(true)))
            &&& engines.fts ==> (p.member("fts"@) matches Some(v) && v.member("enabled"@) == Some(
                Json::Bool(true),
            ))
        }),
{
    reveal_strlit("vector");
    reveal_strlit("graph");
    reveal_strlit("timeseries");
    reveal_strlit("fts");
    reveal_strlit("count");
    reveal_strlit("dimensions");
    assert("vector"@.len() == 6 && "graph"@.len() == 5 && "timeseries"@.len() == 10 && "fts"@.len()
        == 3 && "count"@.len() == 5 && "dimensions"@.len() == 10);
}

} // verus!
