//! What an import does with each line of an export.

use crate::error::{AxilError, Result};
use crate::json::{first_value, has_key, key_index, lemma_key_index, lemma_key_index_is, Value};
use crate::plugin::EdgeInfo;
use crate::portable::{
    build_record, exported_edges, exported_records, is_edge_line_of, is_line_of,
    is_rebuilt_index_table, lemma_exported_edge, lemma_exported_record, selects_table, EdgeLine,
    EmbeddingVerification, ExportOptions, ImportReport, RecordLine, FORMAT, FORMAT_VERSION,
};
use crate::record::{is_internal_table, is_ulid, internal_table, Record, RecordId};
use crate::text::{byte_len, decimal, decimal_text, same_text, utf8_len};
use crate::time::Timestamp;
use vstd::hash_map::StringHashMap;
use vstd::hash_set::StringHashSet;
use vstd::prelude::*;
use vstd::string::StringExecFns;

verus! {

/// How an import treats what it reads.
#[derive(Clone, Copy, Debug, PartialEq, Eq, Structural)]
pub struct ImportOptions {
    /// Skip a record whose id or content exists.
    pub dedup: bool,
    /// Write nothing, only report.
    pub dry_run: bool,
}

impl Default for ImportOptions {
    fn default() -> (r: ImportOptions)
        ensures
            !r.dedup,
            !r.dry_run,
    {
        ImportOptions { dedup: false, dry_run: false }
    }
}

impl Default for ImportReport {
    fn default() -> (r: ImportReport)
        ensures
            r == empty_report(),
    {
        ImportReport {
            imported: 0,
            overwritten: 0,
            skipped_id: 0,
            skipped_dup: 0,
            superseded: 0,
            edges_created: 0,
            edges_skipped: 0,
            edges_remapped: 0,
            id_remapped: 0,
            embeddings: None,
        }
    }
}

/// The report of an import that did nothing.
pub open spec fn empty_report() -> ImportReport {
    ImportReport {
        imported: 0,
        overwritten: 0,
        skipped_id: 0,
        skipped_dup: 0,
        superseded: 0,
        edges_created: 0,
        edges_skipped: 0,
        edges_remapped: 0,
        id_remapped: 0,
        embeddings: None,
    }
}

/// The state of an import.
pub struct Importer {
    opts: ImportOptions,
    present: StringHashSet,
    hashes: Vec<(String, StringHashMap<String>)>,
    remap: StringHashMap<String>,
    embeddable: Vec<RecordId>,
    edges: Vec<EdgeLine>,
    made: Vec<(String, String, String)>,
    report: ImportReport,
    header_seen: bool,
}

/// An edge by its source, its type and its target.
pub type EdgeKey = (Seq<char>, Seq<char>, Seq<char>);

/// What kind of line was read.
#[derive(Clone, Copy, Debug, PartialEq, Eq, Structural)]
pub enum LineKind {
    Header,
    Record,
    Edge,
}

/// What becomes of a record line.
pub enum RecordFate {
    /// Its table is rebuilt, so it is passed over.
    Rebuilt,
    /// Its id exists.
    SameId,
    /// Its content exists, in the record with this id.
    SameContent(Seq<char>),
    /// It replaces the record with its id.
    Overwrites,
    /// It is new.
    New,
}

/// What is to be done for a record line.
#[derive(Debug)]
pub enum RecordPlan {
    /// Nothing: the line is dealt with.
    Done,
    /// Insert this record, then report back.
    Insert(Record),
}

/// What is to be done for an edge line.
#[derive(Debug)]
pub enum EdgePlan {
    /// Nothing: the line is dealt with.
    Done,
    /// Create this edge, then report back.
    Relate { from: RecordId, to: RecordId, props: Option<Value> },
}

impl Importer {
    /// How the import treats what it reads.
    pub closed spec fn options(self) -> ImportOptions {
        self.opts
    }

    /// Whether a record with the id exists, from before or from this import.
    pub closed spec fn has(self, id: Seq<char>) -> bool {
        self.present@.contains(id)
    }

    /// The record that holds a content in a table, where one is known.
    pub closed spec fn holder(self, table: Seq<char>, hash: Seq<char>) -> Option<Seq<char>> {
        if has_key(self.hashes@, table) && first_value(self.hashes@, table)@.contains_key(hash) {
            Some(first_value(self.hashes@, table)@[hash]@)
        } else {
            None
        }
    }

    /// Where the edges of a record go that was skipped for its content.
    pub closed spec fn moved(self, id: Seq<char>) -> Option<Seq<char>> {
        if self.remap@.contains_key(id) {
            Some(self.remap@[id]@)
        } else {
            None
        }
    }

    /// Where an edge that ends at `id` ends after the import.
    pub open spec fn endpoint(self, id: Seq<char>) -> Seq<char> {
        match self.moved(id) {
            Some(s) => s,
            None => id,
        }
    }

    /// What was done so far.
    pub closed spec fn so_far(self) -> ImportReport {
        self.report
    }

    /// Whether the header was accepted.
    pub closed spec fn started(self) -> bool {
        self.header_seen
    }

    /// The records that should have an embedding.
    pub closed spec fn to_embed(self) -> Seq<Seq<char>> {
        self.embeddable@.map_values(|x: RecordId| x@)
    }

    /// The edge lines that wait for the records.
    pub closed spec fn waiting(self) -> Seq<EdgeLine> {
        self.edges@
    }

    /// The edges that this import made, or would make, each by its source, its type
    /// and its target.
    pub closed spec fn edges_made(self) -> Seq<EdgeKey> {
        self.made@.map_values(|x: (String, String, String)| (x.0@, x.1@, x.2@))
    }

    /// Whether nothing changed but the report.
    pub open spec fn same_but_report(self, other: Importer) -> bool {
        &&& self.options() == other.options()
        &&& forall|id: Seq<char>| #[trigger] self.has(id) == other.has(id)
        &&& forall|t: Seq<char>, h: Seq<char>| #[trigger] self.holder(t, h) == other.holder(t, h)
        &&& forall|id: Seq<char>| #[trigger] self.moved(id) == other.moved(id)
        &&& self.started() == other.started()
        &&& self.to_embed() == other.to_embed()
        &&& self.waiting() == other.waiting()
        &&& self.edges_made() == other.edges_made()
    }

    /// Whether nothing changed but the edge lines that wait.
    pub open spec fn same_but_waiting(self, other: Importer) -> bool {
        &&& self.options() == other.options()
        &&& forall|id: Seq<char>| #[trigger] self.has(id) == other.has(id)
        &&& forall|t: Seq<char>, h: Seq<char>| #[trigger] self.holder(t, h) == other.holder(t, h)
        &&& forall|id: Seq<char>| #[trigger] self.moved(id) == other.moved(id)
        &&& self.started() == other.started()
        &&& self.to_embed() == other.to_embed()
        &&& self.edges_made() == other.edges_made()
        &&& self.so_far() == other.so_far()
    }

    /// What becomes of a record line.
    pub open spec fn fate(self, table: Seq<char>, id: Seq<char>, hash: Seq<char>) -> RecordFate {
        if "_idx_"@.is_prefix_of(table) {
            RecordFate::Rebuilt
        } else if self.options().dedup && self.has(id) {
            RecordFate::SameId
        } else if self.options().dedup && self.holder(table, hash) is Some {
            RecordFate::SameContent(self.holder(table, hash)->0)
        } else if self.has(id) {
            RecordFate::Overwrites
        } else {
            RecordFate::New
        }
    }

    /// Whether a record line is refused: it would be inserted, and its id is malformed.
    pub open spec fn refuses(self, table: Seq<char>, id: Seq<char>, hash: Seq<char>) -> bool {
        let fate = self.fate(table, id, hash);
        (fate is Overwrites || fate is New) && !is_ulid(id)
    }

    /// An import into a database without records.
    pub fn new(opts: ImportOptions) -> (r: Importer)
        ensures
            r.options() == opts,
            forall|id: Seq<char>| !#[trigger] r.has(id),
            forall|t: Seq<char>, h: Seq<char>| #[trigger] r.holder(t, h) is None,
            forall|id: Seq<char>| #[trigger] r.moved(id) is None,
            r.so_far() == empty_report(),
            !r.started(),
            r.to_embed() == Seq::<Seq<char>>::empty(),
            r.waiting() == Seq::<EdgeLine>::empty(),
            r.edges_made() == Seq::<EdgeKey>::empty(),
    {
        let r = Importer {
            opts,
            present: StringHashSet::new(),
            hashes: Vec::new(),
            remap: StringHashMap::new(),
            embeddable: Vec::new(),
            edges: Vec::new(),
            made: Vec::new(),
            report: ImportReport::default(),
            header_seen: false,
        };
        assert(r.to_embed() =~= Seq::<Seq<char>>::empty());
        assert(r.edges_made() =~= Seq::<EdgeKey>::empty());
        r
    }

    /// Notes which record holds a content in a table.
    fn note_content(&mut self, table: &str, hash: &str, id: &str)
        ensures
            forall|t: Seq<char>, h: Seq<char>| #[trigger]
                final(self).holder(t, h) == (if t == table@ && h == hash@ {
                    Some(id@)
                } else {
                    old(self).holder(t, h)
                }),
            final(self).opts == old(self).opts,
            final(self).present == old(self).present,
            final(self).remap == old(self).remap,
            final(self).embeddable == old(self).embeddable,
            final(self).edges == old(self).edges,
            final(self).made == old(self).made,
            final(self).report == old(self).report,
            final(self).header_seen == old(self).header_seen,
    {
        let ghost h0 = self.hashes@;
        let i = crate::json::find_key(&self.hashes, table);
        proof {
            lemma_key_index(h0, table@);
        }
        if i < self.hashes.len() {
            let mut m = StringHashMap::new();
            std::mem::swap(&mut self.hashes[i].1, &mut m);
            m.insert(hash.to_owned(), id.to_owned());
            self.hashes[i].1 = m;
        } else {
            let mut m = StringHashMap::new();
            m.insert(hash.to_owned(), id.to_owned());
            self.hashes.push((table.to_owned(), m));
        }
        proof {
            let h1 = self.hashes@;
            assert forall|t: Seq<char>, h: Seq<char>| #[trigger] self.holder(t, h) == (if t
                == table@ && h == hash@ {
                Some(id@)
            } else {
                old(self).holder(t, h)
            }) by {
                lemma_key_index(h0, t);
                if t == table@ {
                    lemma_key_index_is(h1, t, i as int);
                } else if has_key(h0, t) {
                    lemma_key_index_is(h1, t, key_index(h0, t));
                } else {
                    lemma_key_index_is(h1, t, h1.len() as int);
                }
            }
        }
    }

    /// Notes a record that exists before the import.
    pub fn note_existing(&mut self, table: &str, id: &str, hash: &str)
        ensures
            final(self).options() == old(self).options(),
            forall|x: Seq<char>| #[trigger] final(self).has(x) == (old(self).has(x) || x == id@),
            forall|t: Seq<char>, h: Seq<char>| #[trigger]
                final(self).holder(t, h) == (if old(self).options().dedup && t == table@ && h
                    == hash@ {
                    Some(id@)
                } else {
                    old(self).holder(t, h)
                }),
            forall|x: Seq<char>| #[trigger] final(self).moved(x) == old(self).moved(x),
            final(self).so_far() == old(self).so_far(),
            final(self).started() == old(self).started(),
            final(self).to_embed() == old(self).to_embed(),
            final(self).waiting() == old(self).waiting(),
            final(self).edges_made() == old(self).edges_made(),
    {
        if self.opts.dedup {
            self.note_content(table, hash, id);
        }
        let ghost mid = *self;
        self.present.insert(id.to_owned());
        assert forall|t: Seq<char>, h: Seq<char>| #[trigger] self.holder(t, h) == mid.holder(
            t,
            h,
        ) by {}
    }

    /// Takes in a line that is not blank, by its kind, and tells what it is. The
    /// header comes first: a line before it ends the import, and so does a line of
    /// an unknown kind.
    pub fn begin_line(&self, kind: &str, lineno: usize) -> (r: Result<LineKind>)
        ensures
            match r {
                Ok(LineKind::Header) => kind@ == "header"@,
                Ok(LineKind::Record) => self.started() && kind@ == "record"@,
                Ok(LineKind::Edge) => self.started() && kind@ == "edge"@,
                Err(e) => {
                    &&& e is InvalidQuery
                    &&& kind@ != "header"@
                    &&& if !self.started() {
                        e->InvalidQuery_0@ == missing_header_text(lineno as nat)
                    } else {
                        &&& kind@ != "record"@ && kind@ != "edge"@
                        &&& e->InvalidQuery_0@ == unknown_kind_text(kind@, lineno as nat)
                    }
                },
            },
    {
        if same_text(kind, "header") {
            return Ok(LineKind::Header);
        }
        if !self.header_seen {
            let mut m = String::new();
            m.append("missing export header at line ");
            m.append(decimal_text(lineno as u64).as_str());
            m.append(
                ": the first non-empty line of an axil export must be its header (nothing was imported)",
            );
            assert(m@ =~= missing_header_text(lineno as nat));
            return Err(AxilError::InvalidQuery(m));
        }
        if same_text(kind, "record") {
            proof {
                reveal_strlit("header");
                reveal_strlit("record");
            }
            return Ok(LineKind::Record);
        }
        if same_text(kind, "edge") {
            return Ok(LineKind::Edge);
        }
        let mut m = String::new();
        m.append("unknown line kind '");
        m.append(kind);
        m.append("' at line ");
        m.append(decimal_text(lineno as u64).as_str());
        assert(m@ =~= unknown_kind_text(kind@, lineno as nat));
        Err(AxilError::InvalidQuery(m))
    }

    /// Accepts a header of this format and of a version that is known, and no other.
    pub fn accept_header(&mut self, format: &str, version: u32) -> (r: Result<()>)
        ensures
            final(self).so_far() == old(self).so_far(),
            match r {
                Ok(_) => {
                    &&& format@ == FORMAT@
                    &&& version <= FORMAT_VERSION
                    &&& final(self).started()
                    &&& final(self).options() == old(self).options()
                    &&& forall|id: Seq<char>| #[trigger] final(self).has(id) == old(self).has(id)
                    &&& forall|t: Seq<char>, h: Seq<char>| #[trigger]
                        final(self).holder(t, h) == old(self).holder(t, h)
                    &&& forall|id: Seq<char>| #[trigger]
                        final(self).moved(id) == old(self).moved(id)
                    &&& final(self).to_embed() == old(self).to_embed()
                    &&& final(self).waiting() == old(self).waiting()
                    &&& final(self).edges_made() == old(self).edges_made()
                },
                Err(e) => {
                    &&& *final(self) == *old(self)
                    &&& e is InvalidQuery
                    &&& e->InvalidQuery_0@ == (if format@ != FORMAT@ {
                        "unrecognized export format '"@ + format@ + "' (expected '"@ + FORMAT@
                            + "')"@
                    } else {
                        "export format version "@ + decimal(version as nat)
                            + " is newer than supported version 1 — upgrade axil to import this file"@
                    })
                    &&& format@ != FORMAT@ || version > FORMAT_VERSION
                },
            },
    {
        if !same_text(format, FORMAT) {
            let mut m = String::new();
            m.append("unrecognized export format '");
            m.append(format);
            m.append("' (expected '");
            m.append(FORMAT);
            m.append("')");
            assert(m@ =~= "unrecognized export format '"@ + format@ + "' (expected '"@ + FORMAT@
                + "')"@);
            return Err(AxilError::InvalidQuery(m));
        }
        if version > FORMAT_VERSION {
            let mut m = String::new();
            m.append("export format version ");
            m.append(decimal_text(version as u64).as_str());
            m.append(" is newer than supported version 1 — upgrade axil to import this file");
            assert(m@ =~= "export format version "@ + decimal(version as nat)
                + " is newer than supported version 1 — upgrade axil to import this file"@);
            return Err(AxilError::InvalidQuery(m));
        }
        self.header_seen = true;
        proof {
            assert forall|t: Seq<char>, h: Seq<char>| #[trigger] self.holder(t, h) == old(
                self,
            ).holder(t, h) by {}
        }
        Ok(())
    }

    /// The report after a record line that needs no insert.
    pub open spec fn report_after_skip(self, fate: RecordFate) -> ImportReport {
        let r = self.so_far();
        match fate {
            RecordFate::SameId => ImportReport { skipped_id: (r.skipped_id + 1) as usize, ..r },
            RecordFate::SameContent(_) => ImportReport {
                skipped_dup: (r.skipped_dup + 1) as usize,
                ..r
            },
            _ => r,
        }
    }

    /// The report after a record line that was inserted, or would be.
    pub open spec fn report_after_insert(self, fate: RecordFate, superseded: int) -> ImportReport {
        let r = self.so_far();
        match fate {
            RecordFate::Overwrites => ImportReport {
                overwritten: (r.overwritten + 1) as usize,
                superseded: (r.superseded + superseded) as usize,
                ..r
            },
            _ => ImportReport {
                imported: (r.imported + 1) as usize,
                superseded: (r.superseded + superseded) as usize,
                ..r
            },
        }
    }

    /// Whether the state is the one after a record line was inserted, or would be.
    pub open spec fn follows_insert(
        self,
        before: Importer,
        table: Seq<char>,
        id: Seq<char>,
        hash: Seq<char>,
        superseded: int,
    ) -> bool {
        &&& self.options() == before.options()
        &&& self.started() == before.started()
        &&& self.waiting() == before.waiting()
        &&& self.edges_made() == before.edges_made()
        &&& forall|x: Seq<char>| #[trigger] self.has(x) == (before.has(x) || x == id)
        &&& forall|t: Seq<char>, h: Seq<char>| #[trigger]
            self.holder(t, h) == (if before.options().dedup && t == table && h == hash {
                Some(id)
            } else {
                before.holder(t, h)
            })
        &&& forall|x: Seq<char>| #[trigger] self.moved(x) == before.moved(x)
        &&& self.so_far() == before.report_after_insert(before.fate(table, id, hash), superseded)
    }

    /// Whether the state is the one after a record line was skipped for its content,
    /// which another record holds: the edges of the record go to that one.
    pub open spec fn follows_duplicate(
        self,
        before: Importer,
        id: Seq<char>,
        survivor: Seq<char>,
    ) -> bool {
        &&& self.options() == before.options()
        &&& self.started() == before.started()
        &&& self.waiting() == before.waiting()
        &&& self.edges_made() == before.edges_made()
        &&& forall|x: Seq<char>| #[trigger] self.has(x) == before.has(x)
        &&& forall|t: Seq<char>, h: Seq<char>| #[trigger] self.holder(t, h) == before.holder(t, h)
        &&& forall|x: Seq<char>| #[trigger]
            self.moved(x) == (if x == id && survivor != id {
                Some(survivor)
            } else {
                before.moved(x)
            })
        &&& self.so_far() == before.report_after_skip(RecordFate::SameContent(survivor))
    }

    /// Whether the state is the one after a record line, whatever became of it.
    pub open spec fn follows_record(
        self,
        before: Importer,
        table: Seq<char>,
        id: Seq<char>,
        hash: Seq<char>,
        superseded: int,
    ) -> bool {
        match before.fate(table, id, hash) {
            RecordFate::Rebuilt => self.same_but_report(before) && self.so_far()
                == before.so_far(),
            RecordFate::SameId => self.same_but_report(before) && self.so_far()
                == before.report_after_skip(RecordFate::SameId),
            RecordFate::SameContent(survivor) => self.follows_duplicate(before, id, survivor),
            _ => self.follows_insert(before, table, id, hash, superseded),
        }
    }

    /// Deals with a record line, given its content hash. A line that is skipped is
    /// counted at once, and so is one of a dry run; otherwise the record to insert
    /// comes back, and nothing changes until it is reported as inserted. A line that
    /// would be inserted needs a well-formed id, in a dry run too.
    pub fn plan_record(&mut self, line: &RecordLine, hash: &str, now: Timestamp) -> (r: Result<
        RecordPlan,
    >)
        requires
            old(self).so_far().imported < usize::MAX,
            old(self).so_far().overwritten < usize::MAX,
            old(self).so_far().skipped_id < usize::MAX,
            old(self).so_far().skipped_dup < usize::MAX,
        ensures
            ({
                let fate = old(self).fate(line.table@, line.id@, hash@);
                let inserts = fate is Overwrites || fate is New;
                if old(self).refuses(line.table@, line.id@, hash@) {
                    &&& *final(self) == *old(self)
                    &&& r matches Err(AxilError::InvalidQuery(m)) && m@ == "invalid record id: "@
                        + line.id@
                } else if inserts && !old(self).options().dry_run {
                    &&& *final(self) == *old(self)
                    &&& r matches Ok(RecordPlan::Insert(x)) && x@ == crate::portable::line_record(
                        *line,
                        now,
                    )
                } else {
                    &&& r == Ok::<RecordPlan, AxilError>(RecordPlan::Done)
                    &&& final(self).follows_record(*old(self), line.table@, line.id@, hash@, 0)
                    &&& final(self).to_embed() == old(self).to_embed()
                }
            }),
    {
        if is_rebuilt_index_table(line.table.as_str()) {
            return Ok(RecordPlan::Done);
        }
        let exists = self.present.contains(line.id.as_str());
        if self.opts.dedup && exists {
            self.report.skipped_id = self.report.skipped_id + 1;
            assert forall|t: Seq<char>, h: Seq<char>| #[trigger] self.holder(t, h) == old(
                self,
            ).holder(t, h) by {}
            return Ok(RecordPlan::Done);
        }
        if self.opts.dedup {
            match self.find_holder(line.table.as_str(), hash) {
                Some(survivor) => {
                    self.report.skipped_dup = self.report.skipped_dup + 1;
                    if !same_text(survivor.as_str(), line.id.as_str()) {
                        self.remap.insert(line.id.clone(), survivor);
                    }
                    assert forall|t: Seq<char>, h: Seq<char>| #[trigger] self.holder(t, h) == old(
                        self,
                    ).holder(t, h) by {}
                    return Ok(RecordPlan::Done);
                },
                None => {},
            }
        }
        match build_record(line, now) {
            Ok(x) => {
                if self.opts.dry_run {
                    self.count_insert(line, hash, 0);
                    Ok(RecordPlan::Done)
                } else {
                    Ok(RecordPlan::Insert(x))
                }
            },
            Err(e) => Err(e),
        }
    }

    /// The record that holds a content in a table, where one is known.
    fn find_holder(&self, table: &str, hash: &str) -> (r: Option<String>)
        ensures
            match r {
                Some(s) => self.holder(table@, hash@) == Some(s@),
                None => self.holder(table@, hash@) is None,
            },
    {
        let i = crate::json::find_key(&self.hashes, table);
        proof {
            lemma_key_index(self.hashes@, table@);
        }
        if i < self.hashes.len() {
            match self.hashes[i].1.get(hash) {
                Some(s) => Some(s.clone()),
                None => None,
            }
        } else {
            None
        }
    }

    /// Counts a record line that was inserted, or would be.
    fn count_insert(&mut self, line: &RecordLine, hash: &str, superseded: usize)
        requires
            old(self).fate(line.table@, line.id@, hash@) is Overwrites || old(self).fate(
                line.table@,
                line.id@,
                hash@,
            ) is New,
            old(self).so_far().imported < usize::MAX,
            old(self).so_far().overwritten < usize::MAX,
            old(self).so_far().superseded + superseded <= usize::MAX,
        ensures
            final(self).follows_insert(
                *old(self),
                line.table@,
                line.id@,
                hash@,
                superseded as int,
            ),
            final(self).to_embed() == old(self).to_embed(),
    {
        let overwrites = self.present.contains(line.id.as_str());
        if self.opts.dedup {
            self.note_content(line.table.as_str(), hash, line.id.as_str());
        }
        let ghost mid = *self;
        self.present.insert(line.id.clone());
        self.report.superseded = self.report.superseded + superseded;
        if overwrites {
            self.report.overwritten = self.report.overwritten + 1;
        } else {
            self.report.imported = self.report.imported + 1;
        }
        assert forall|t: Seq<char>, h: Seq<char>| #[trigger] self.holder(t, h) == mid.holder(
            t,
            h,
        ) by {}
    }

    /// Takes note that the record of a line was inserted, how many records it
    /// superseded, and whether it should have an embedding.
    pub fn record_inserted(
        &mut self,
        line: &RecordLine,
        hash: &str,
        superseded: usize,
        embeddable: bool,
    )
        requires
            old(self).fate(line.table@, line.id@, hash@) is Overwrites || old(self).fate(
                line.table@,
                line.id@,
                hash@,
            ) is New,
            old(self).so_far().imported < usize::MAX,
            old(self).so_far().overwritten < usize::MAX,
            old(self).so_far().superseded + superseded <= usize::MAX,
        ensures
            final(self).follows_insert(
                *old(self),
                line.table@,
                line.id@,
                hash@,
                superseded as int,
            ),
            final(self).to_embed() == (if embeddable {
                old(self).to_embed().push(line.id@)
            } else {
                old(self).to_embed()
            }),
    {
        self.count_insert(line, hash, superseded);
        if embeddable {
            let ghost mid = *self;
            self.embeddable.push(RecordId(line.id.clone()));
            assert(self.to_embed() =~= mid.to_embed().push(line.id@));
            assert forall|t: Seq<char>, h: Seq<char>| #[trigger] self.holder(t, h) == mid.holder(
                t,
                h,
            ) by {}
            assert forall|x: Seq<char>| #[trigger] self.has(x) == mid.has(x) by {}
            assert forall|x: Seq<char>| #[trigger] self.moved(x) == mid.moved(x) by {}
        }
    }
}

impl Importer {
    /// Keeps an edge line until every record line is dealt with.
    pub fn add_edge(&mut self, line: EdgeLine)
        ensures
            final(self).waiting() == old(self).waiting().push(line),
            final(self).same_but_waiting(*old(self)),
    {
        self.edges.push(line);
        assert forall|t: Seq<char>, h: Seq<char>| #[trigger] self.holder(t, h) == old(self).holder(
            t,
            h,
        ) by {}
    }

    /// Hands out the edge lines, to be dealt with one by one.
    pub fn take_edges(&mut self) -> (r: Vec<EdgeLine>)
        ensures
            r@ == old(self).waiting(),
            final(self).waiting() == Seq::<EdgeLine>::empty(),
            final(self).same_but_waiting(*old(self)),
    {
        let mut out: Vec<EdgeLine> = Vec::new();
        std::mem::swap(&mut self.edges, &mut out);
        assert forall|t: Seq<char>, h: Seq<char>| #[trigger] self.holder(t, h) == old(self).holder(
            t,
            h,
        ) by {}
        out
    }

    /// Where an edge that ends at `id` ends after the import.
    fn resolve(&self, id: &str) -> (r: String)
        ensures
            r@ == self.endpoint(id@),
    {
        match self.remap.get(id) {
            Some(s) => s.clone(),
            None => id.to_owned(),
        }
    }

    /// Whether both ends of an edge exist, where they are after the import.
    pub open spec fn ends_exist(self, line: EdgeLine) -> bool {
        self.has(self.endpoint(line.from@)) && self.has(self.endpoint(line.to@))
    }

    /// Whether an end of an edge moved to a surviving copy.
    pub open spec fn edge_moved(self, line: EdgeLine) -> bool {
        self.endpoint(line.from@) != line.from@ || self.endpoint(line.to@) != line.to@
    }

    /// The edge of a line, with its ends where they are after the import.
    pub open spec fn edge_key(self, line: EdgeLine) -> EdgeKey {
        (self.endpoint(line.from@), line.edge_type@, self.endpoint(line.to@))
    }

    /// Whether the edge of a line is to be made, given the edges of its type that leave
    /// its source, or that there is no graph: its ends exist, an edge can be made, and
    /// it neither exists nor was made by this import.
    pub open spec fn edge_wanted(self, line: EdgeLine, existing: Option<Seq<EdgeInfo>>) -> bool {
        &&& self.ends_exist(line)
        &&& existing matches Some(edges) && !leads_to(edges, self.endpoint(line.to@))
        &&& !self.edges_made().contains(self.edge_key(line))
    }

    /// The report after an edge that was made, or would be.
    pub open spec fn report_after_edge(self, moved: bool) -> ImportReport {
        let r = self.so_far();
        ImportReport {
            edges_created: (r.edges_created + 1) as usize,
            edges_remapped: if moved {
                (r.edges_remapped + 1) as usize
            } else {
                r.edges_remapped
            },
            ..r
        }
    }

    /// The report after an edge that was skipped.
    pub open spec fn report_after_skipped_edge(self) -> ImportReport {
        let r = self.so_far();
        ImportReport { edges_skipped: (r.edges_skipped + 1) as usize, ..r }
    }

    /// Whether the state is the one after an edge line, given whether its edge was
    /// made, or would be, or was skipped.
    pub open spec fn follows_edge(self, before: Importer, line: EdgeLine, made: bool) -> bool {
        &&& self.options() == before.options()
        &&& forall|id: Seq<char>| #[trigger] self.has(id) == before.has(id)
        &&& forall|t: Seq<char>, h: Seq<char>| #[trigger] self.holder(t, h) == before.holder(t, h)
        &&& forall|id: Seq<char>| #[trigger] self.moved(id) == before.moved(id)
        &&& self.started() == before.started()
        &&& self.to_embed() == before.to_embed()
        &&& self.waiting() == before.waiting()
        &&& self.edges_made() == (if made {
            before.edges_made().push(before.edge_key(line))
        } else {
            before.edges_made()
        })
        &&& self.so_far() == (if made {
            before.report_after_edge(before.edge_moved(line))
        } else {
            before.report_after_skipped_edge()
        })
    }

    /// The ends of an edge line after the import. An edge with an end that does not
    /// exist is counted as skipped, and none come back.
    pub fn edge_ends(&mut self, line: &EdgeLine) -> (r: Result<Option<(RecordId, RecordId)>>)
        requires
            old(self).so_far().edges_skipped < usize::MAX,
        ensures
            match r {
                Ok(None) => !old(self).ends_exist(*line) && final(self).follows_edge(
                    *old(self),
                    *line,
                    false,
                ),
                Ok(Some(ends)) => old(self).ends_exist(*line) && *final(self) == *old(self)
                    && ends.0@ == old(self).endpoint(line.from@) && ends.1@ == old(self).endpoint(
                    line.to@,
                ) && is_ulid(ends.0@) && is_ulid(ends.1@),
                Err(e) => {
                    let from = old(self).endpoint(line.from@);
                    let to = old(self).endpoint(line.to@);
                    &&& old(self).ends_exist(*line)
                    &&& *final(self) == *old(self)
                    &&& e is InvalidQuery
                    &&& !is_ulid(from) || !is_ulid(to)
                    &&& e->InvalidQuery_0@ == "invalid record id: "@ + (if !is_ulid(from) {
                        from
                    } else {
                        to
                    })
                },
            },
    {
        let from_key = self.resolve(line.from.as_str());
        let to_key = self.resolve(line.to.as_str());
        if !self.present.contains(from_key.as_str()) || !self.present.contains(to_key.as_str()) {
            self.skip_edge(line);
            return Ok(None);
        }
        let from = match RecordId::from_string(from_key.as_str()) {
            Ok(id) => id,
            Err(e) => {
                return Err(e);
            },
        };
        let to = match RecordId::from_string(to_key.as_str()) {
            Ok(id) => id,
            Err(e) => {
                return Err(e);
            },
        };
        Ok(Some((from, to)))
    }

    /// Deals with an edge whose ends exist, given the edges of its type that leave
    /// its source, or none where there is no graph. One that cannot be made, that
    /// exists or that this import made is skipped; in a dry run the edge is counted as
    /// made; otherwise it is to be made, and is counted when that is reported.
    pub fn plan_edge(
        &mut self,
        line: &EdgeLine,
        from: RecordId,
        to: RecordId,
        existing: Option<&Vec<EdgeInfo>>,
    ) -> (r: EdgePlan)
        requires
            old(self).ends_exist(*line),
            from@ == old(self).endpoint(line.from@),
            to@ == old(self).endpoint(line.to@),
            old(self).so_far().edges_skipped < usize::MAX,
            old(self).so_far().edges_created < usize::MAX,
            old(self).so_far().edges_remapped < usize::MAX,
        ensures
            ({
                let wanted = old(self).edge_wanted(
                    *line,
                    match existing {
                        Some(edges) => Some(edges@),
                        None => None,
                    },
                );
                match r {
                    EdgePlan::Done => {
                        &&& wanted ==> old(self).options().dry_run
                        &&& final(self).follows_edge(*old(self), *line, wanted)
                    },
                    EdgePlan::Relate { from: f, to: t, props } => {
                        &&& wanted
                        &&& !old(self).options().dry_run
                        &&& *final(self) == *old(self)
                        &&& f@ == from@
                        &&& t@ == to@
                        &&& crate::portable::value_option(props) == (if line.props is Null {
                            None
                        } else {
                            Some(line.props.model())
                        })
                    },
                }
            }),
    {
        let taken = match existing {
            Some(edges) => any_leads_to(edges, &to),
            None => true,
        };
        if taken || self.was_made(line) {
            self.skip_edge(line);
            EdgePlan::Done
        } else if self.opts.dry_run {
            self.count_edge(line);
            EdgePlan::Done
        } else {
            let props = match &line.props {
                Value::Null => None,
                v => Some(v.copy()),
            };
            EdgePlan::Relate { from, to, props }
        }
    }

    /// Whether this import made the edge of a line, or would make it.
    fn was_made(&self, line: &EdgeLine) -> (r: bool)
        ensures
            r == self.edges_made().contains(self.edge_key(*line)),
    {
        let from = self.resolve(line.from.as_str());
        let to = self.resolve(line.to.as_str());
        let ghost all = self.edges_made();
        let ghost key = self.edge_key(*line);
        let mut i: usize = 0;
        while i < self.made.len()
            invariant
                i <= self.made@.len(),
                all == self.edges_made(),
                key == self.edge_key(*line),
                key == (from@, line.edge_type@, to@),
                forall|j: int| 0 <= j < i ==> #[trigger] all[j] != key,
            decreases self.made@.len() - i,
        {
            let m = &self.made[i];
            assert(all[i as int] == (m.0@, m.1@, m.2@));
            if same_text(m.0.as_str(), from.as_str()) && same_text(
                m.1.as_str(),
                line.edge_type.as_str(),
            ) && same_text(m.2.as_str(), to.as_str()) {
                assert(all[i as int] == key);
                return true;
            }
            i += 1;
        }
        false
    }

    /// Counts an edge that was skipped.
    fn skip_edge(&mut self, line: &EdgeLine)
        requires
            old(self).so_far().edges_skipped < usize::MAX,
        ensures
            final(self).follows_edge(*old(self), *line, false),
    {
        self.report.edges_skipped = self.report.edges_skipped + 1;
        assert forall|t: Seq<char>, h: Seq<char>| #[trigger] self.holder(t, h) == old(self).holder(
            t,
            h,
        ) by {}
    }

    /// Counts an edge that was made, or would be.
    fn count_edge(&mut self, line: &EdgeLine)
        requires
            old(self).so_far().edges_created < usize::MAX,
            old(self).so_far().edges_remapped < usize::MAX,
        ensures
            final(self).follows_edge(*old(self), *line, true),
    {
        let from = self.resolve(line.from.as_str());
        let to = self.resolve(line.to.as_str());
        let moved = !same_text(from.as_str(), line.from.as_str()) || !same_text(
            to.as_str(),
            line.to.as_str(),
        );
        self.made.push((from, line.edge_type.clone(), to));
        self.report.edges_created = self.report.edges_created + 1;
        if moved {
            self.report.edges_remapped = self.report.edges_remapped + 1;
        }
        proof {
            assert(self.edges_made() =~= old(self).edges_made().push(old(self).edge_key(*line)));
            assert forall|t: Seq<char>, h: Seq<char>| #[trigger] self.holder(t, h) == old(
                self,
            ).holder(t, h) by {}
        }
    }

    /// Takes note whether the edge of a line could be made; one that could not counts
    /// as skipped.
    pub fn edge_related(&mut self, line: &EdgeLine, created: bool)
        requires
            old(self).so_far().edges_skipped < usize::MAX,
            old(self).so_far().edges_created < usize::MAX,
            old(self).so_far().edges_remapped < usize::MAX,
        ensures
            final(self).follows_edge(*old(self), *line, created),
    {
        if created {
            self.count_edge(line);
        } else {
            self.skip_edge(line);
        }
    }

    /// The ids of the records that should have an embedding, in order.
    pub fn embeddable_ids(&self) -> (r: &Vec<RecordId>)
        ensures
            r@.map_values(|x: RecordId| x@) == self.to_embed(),
    {
        &self.embeddable
    }

    /// What was done, at the end of the lines, given whether a vector index and an
    /// embedder are there and which records have an embedding. Without a header
    /// there was no export.
    pub fn finish(&self, engines: bool, indexed: &Vec<bool>) -> (r: Result<ImportReport>)
        requires
            indexed@.len() == self.to_embed().len(),
        ensures
            match r {
                Ok(report) => self.started() && report == (ImportReport {
                    embeddings: Some(
                        verification(self.options(), engines, indexed@),
                    ),
                    ..self.so_far()
                }),
                Err(e) => !self.started() && e is InvalidQuery && e->InvalidQuery_0@
                    == "missing export header — is this an axil export file?"@,
            },
    {
        if !self.header_seen {
            return Err(
                AxilError::InvalidQuery(
                    "missing export header — is this an axil export file?".to_owned(),
                ),
            );
        }
        let n = indexed.len();
        let mut found: usize = 0;
        let mut i: usize = 0;
        while i < n
            invariant
                i <= n == indexed@.len(),
                found <= i,
                found == count_true(indexed@.take(i as int)),
            decreases n - i,
        {
            assert(indexed@.take(i + 1).drop_last() =~= indexed@.take(i as int));
            if indexed[i] {
                found += 1;
            }
            i += 1;
        }
        assert(indexed@.take(i as int) =~= indexed@);
        let embeddings = if self.opts.dry_run {
            EmbeddingVerification::SkippedDryRun
        } else if engines {
            EmbeddingVerification::Verified { expected: n, indexed: found, missing: n - found }
        } else {
            EmbeddingVerification::EngineUnavailable { affected: n }
        };
        let mut report = self.report;
        report.embeddings = Some(embeddings);
        Ok(report)
    }

    /// The error that ends an import: with what was written so far where the header
    /// was accepted, and as it is where nothing was written.
    pub fn fail(&self, source: AxilError) -> (r: AxilError)
        ensures
            if self.started() {
                &&& r is ImportInterrupted
                &&& r->report == self.so_far()
                &&& r->source@ == source.describe()
            } else {
                r == source
            },
    {
        if self.header_seen {
            AxilError::ImportInterrupted { report: self.report, source: source.message() }
        } else {
            source
        }
    }
}

/// How many of the values are true.
pub open spec fn count_true(s: Seq<bool>) -> nat
    decreases s.len(),
{
    if s.len() == 0 {
        0
    } else {
        count_true(s.drop_last()) + (if s.last() { 1nat } else { 0nat })
    }
}

/// What the check of the embeddings finds.
pub open spec fn verification(
    opts: ImportOptions,
    engines: bool,
    indexed: Seq<bool>,
) -> EmbeddingVerification {
    if opts.dry_run {
        EmbeddingVerification::SkippedDryRun
    } else if engines {
        EmbeddingVerification::Verified {
            expected: indexed.len() as usize,
            indexed: count_true(indexed) as usize,
            missing: (indexed.len() - count_true(indexed)) as usize,
        }
    } else {
        EmbeddingVerification::EngineUnavailable { affected: indexed.len() as usize }
    }
}

/// Whether a record gets an embedding when it is inserted, given the text that it
/// can be found by: its table is the user's, and the text is longer than five bytes.
pub fn is_embeddable(table: &str, searchable: &str) -> (r: bool)
    ensures
        r == (!internal_table(table@) && byte_len(searchable@) > 5),
{
    !is_internal_table(table) && utf8_len(searchable) > 5
}

/// The text of the error for a line before the header.
pub open spec fn missing_header_text(lineno: nat) -> Seq<char> {
    "missing export header at line "@ + decimal(lineno)
        + ": the first non-empty line of an axil export must be its header (nothing was imported)"@
}

/// The text of the error for a line of an unknown kind.
pub open spec fn unknown_kind_text(kind: Seq<char>, lineno: nat) -> Seq<char> {
    "unknown line kind '"@ + kind + "' at line "@ + decimal(lineno)
}

/// Whether some of the edges leads to a record.
pub open spec fn leads_to(edges: Seq<EdgeInfo>, to: Seq<char>) -> bool {
    exists|i: int| 0 <= i < edges.len() && (#[trigger] edges[i]).to@ == to
}

/// Whether some of the edges leads to a record.
fn any_leads_to(edges: &Vec<EdgeInfo>, to: &RecordId) -> (r: bool)
    ensures
        r == leads_to(edges@, to@),
{
    let mut i: usize = 0;
    while i < edges.len()
        invariant
            i <= edges@.len(),
            forall|j: int| 0 <= j < i ==> (#[trigger] edges@[j]).to@ != to@,
        decreases edges@.len() - i,
    {
        if edges[i].to.same(to) {
            assert(edges@[i as int].to@ == to@);
            return true;
        }
        i += 1;
    }
    false
}

/// How many record lines a report accounts for.
pub open spec fn record_lines(r: ImportReport) -> int {
    r.imported + r.overwritten + r.skipped_id + r.skipped_dup
}

/// Every record line is counted in exactly one place, whatever becomes of it.
pub proof fn record_lines_count_once(
    before: Importer,
    table: Seq<char>,
    id: Seq<char>,
    hash: Seq<char>,
    superseded: int,
)
    requires
        before.so_far().imported < usize::MAX,
        before.so_far().overwritten < usize::MAX,
        before.so_far().skipped_id < usize::MAX,
        before.so_far().skipped_dup < usize::MAX,
    ensures
        match before.fate(table, id, hash) {
            RecordFate::Rebuilt => true,
            RecordFate::SameId | RecordFate::SameContent(_) => record_lines(
                before.report_after_skip(before.fate(table, id, hash)),
            ) == record_lines(before.so_far()) + 1,
            _ => record_lines(
                before.report_after_insert(before.fate(table, id, hash), superseded),
            ) == record_lines(before.so_far()) + 1,
        },
{
}

/// With deduplication, a line that was imported is skipped when it comes again,
/// and so is every line of its table with the same content.
pub proof fn imported_lines_are_skipped_again(
    before: Importer,
    after: Importer,
    table: Seq<char>,
    id: Seq<char>,
    hash: Seq<char>,
    superseded: int,
    other: Seq<char>,
)
    requires
        before.options().dedup,
        before.fate(table, id, hash) is New,
        after.follows_insert(before, table, id, hash, superseded),
    ensures
        after.fate(table, id, hash) is SameId,
        after.fate(table, other, hash) is SameId || after.fate(table, other, hash)
            == RecordFate::SameContent(id),
{
    assert(after.has(id));
    assert(after.holder(table, hash) == Some(id));
}

/// Whether a real run stands where a dry run does: they know the same records and
/// edges, and count the same, but for the records that a real run supersedes.
pub open spec fn runs_agree(wet: Importer, dry: Importer) -> bool {
    &&& wet.options().dedup == dry.options().dedup
    &&& forall|x: Seq<char>| #[trigger] wet.has(x) == dry.has(x)
    &&& forall|t: Seq<char>, h: Seq<char>| #[trigger] wet.holder(t, h) == dry.holder(t, h)
    &&& forall|x: Seq<char>| #[trigger] wet.moved(x) == dry.moved(x)
    &&& wet.edges_made() == dry.edges_made()
    &&& wet.so_far() == (ImportReport { superseded: wet.so_far().superseded, ..dry.so_far() })
}

/// Whether states are those of a run over record lines, given the hashes of what the
/// lines say and how many records each of them superseded.
pub open spec fn record_run(
    states: Seq<Importer>,
    lines: Seq<RecordLine>,
    hashes: Seq<Seq<char>>,
    superseded: Seq<int>,
) -> bool {
    &&& states.len() == lines.len() + 1
    &&& forall|i: int|
        #![trigger lines[i]]
        0 <= i < lines.len() ==> states[i + 1].follows_record(
            states[i],
            lines[i].table@,
            lines[i].id@,
            hashes[i],
            superseded[i],
        )
}

/// Whether the edge of a line is to be made, given the edges that the graph held before
/// the import, or that there is no graph.
pub open spec fn edge_needed(
    state: Importer,
    line: EdgeLine,
    held: Option<Set<EdgeKey>>,
) -> bool {
    &&& state.ends_exist(line)
    &&& held matches Some(edges) && !edges.contains(state.edge_key(line))
    &&& !state.edges_made().contains(state.edge_key(line))
}

/// Whether states are those of a run over edge lines in which every edge that is to be
/// made is made, or would be.
pub open spec fn edge_run(
    states: Seq<Importer>,
    lines: Seq<EdgeLine>,
    held: Option<Set<EdgeKey>>,
) -> bool {
    &&& states.len() == lines.len() + 1
    &&& forall|i: int|
        #![trigger lines[i]]
        0 <= i < lines.len() ==> states[i + 1].follows_edge(
            states[i],
            lines[i],
            edge_needed(states[i], lines[i], held),
        )
}

/// Whether edges are all those of a type that leave a record, in a graph that holds
/// some edges and those that an import made.
pub open spec fn looked_up(
    existing: Seq<EdgeInfo>,
    from: Seq<char>,
    edge_type: Seq<char>,
    held: Set<EdgeKey>,
    made: Seq<EdgeKey>,
) -> bool {
    forall|to: Seq<char>| #[trigger]
        leads_to(existing, to) <==> held.contains((from, edge_type, to)) || made.contains(
            (from, edge_type, to),
        )
}

/// What is found in the graph tells whether an edge is to be made: in a real run, where
/// the graph holds what the import made, and in a dry run, where it does not.
pub proof fn lookups_tell_what_is_needed(
    state: Importer,
    line: EdgeLine,
    existing: Seq<EdgeInfo>,
    held: Set<EdgeKey>,
)
    requires
        ({
            let from = state.endpoint(line.from@);
            ||| looked_up(existing, from, line.edge_type@, held, state.edges_made())
            ||| looked_up(existing, from, line.edge_type@, held, Seq::empty())
        }),
    ensures
        state.edge_wanted(line, Some(existing)) == edge_needed(state, line, Some(held)),
        state.edge_wanted(line, None) == edge_needed(state, line, None),
{
    let to = state.endpoint(line.to@);
    assert(leads_to(existing, to) || !leads_to(existing, to));
    assert(!Seq::<EdgeKey>::empty().contains(state.edge_key(line)));
}

/// A dry run over record lines ends where a real run does, and on the way it refuses the
/// lines that a real run refuses, and no others.
pub proof fn dry_runs_predict_records(
    dry: Seq<Importer>,
    wet: Seq<Importer>,
    lines: Seq<RecordLine>,
    hashes: Seq<Seq<char>>,
    superseded: Seq<int>,
)
    requires
        record_run(dry, lines, hashes, Seq::new(lines.len(), |i: int| 0int)),
        record_run(wet, lines, hashes, superseded),
        runs_agree(wet[0], dry[0]),
    ensures
        forall|i: int| 0 <= i <= lines.len() ==> runs_agree(#[trigger] wet[i], dry[i]),
        forall|i: int, table: Seq<char>, id: Seq<char>, hash: Seq<char>|
            0 <= i <= lines.len() ==> #[trigger] wet[i].refuses(table, id, hash) == dry[i].refuses(
                table,
                id,
                hash,
            ),
{
    assert forall|i: int| 0 <= i <= lines.len() implies runs_agree(#[trigger] wet[i], dry[i]) by {
        lemma_records_agree(dry, wet, lines, hashes, superseded, i);
    }
}

proof fn lemma_records_agree(
    dry: Seq<Importer>,
    wet: Seq<Importer>,
    lines: Seq<RecordLine>,
    hashes: Seq<Seq<char>>,
    superseded: Seq<int>,
    n: int,
)
    requires
        record_run(dry, lines, hashes, Seq::new(lines.len(), |i: int| 0int)),
        record_run(wet, lines, hashes, superseded),
        runs_agree(wet[0], dry[0]),
        0 <= n <= lines.len(),
    ensures
        runs_agree(wet[n], dry[n]),
    decreases n,
{
    if n > 0 {
        lemma_records_agree(dry, wet, lines, hashes, superseded, n - 1);
        let line = lines[n - 1];
        lemma_record_steps_agree(
            wet[n - 1],
            wet[n],
            dry[n - 1],
            dry[n],
            line.table@,
            line.id@,
            hashes[n - 1],
            superseded[n - 1],
        );
    }
}

/// A record line leads states that agree to states that agree.
proof fn lemma_record_steps_agree(
    wet: Importer,
    wet_after: Importer,
    dry: Importer,
    dry_after: Importer,
    table: Seq<char>,
    id: Seq<char>,
    hash: Seq<char>,
    superseded: int,
)
    requires
        runs_agree(wet, dry),
        wet_after.follows_record(wet, table, id, hash, superseded),
        dry_after.follows_record(dry, table, id, hash, 0),
    ensures
        runs_agree(wet_after, dry_after),
{
    assert(wet.has(id) == dry.has(id));
    assert(wet.holder(table, hash) == dry.holder(table, hash));
    assert(wet.fate(table, id, hash) == dry.fate(table, id, hash));
    assert forall|x: Seq<char>| #[trigger] wet_after.has(x) == dry_after.has(x) by {
        assert(wet.has(x) == dry.has(x));
    }
    assert forall|t: Seq<char>, h: Seq<char>| #[trigger]
        wet_after.holder(t, h) == dry_after.holder(t, h) by {
        assert(wet.holder(t, h) == dry.holder(t, h));
    }
    assert forall|x: Seq<char>| #[trigger] wet_after.moved(x) == dry_after.moved(x) by {
        assert(wet.moved(x) == dry.moved(x));
    }
}

/// A dry run over edge lines ends where a real run does, with a graph and without.
pub proof fn dry_runs_predict_edges(
    dry: Seq<Importer>,
    wet: Seq<Importer>,
    lines: Seq<EdgeLine>,
    held: Option<Set<EdgeKey>>,
)
    requires
        edge_run(dry, lines, held),
        edge_run(wet, lines, held),
        runs_agree(wet[0], dry[0]),
    ensures
        forall|i: int| 0 <= i <= lines.len() ==> runs_agree(#[trigger] wet[i], dry[i]),
{
    assert forall|i: int| 0 <= i <= lines.len() implies runs_agree(#[trigger] wet[i], dry[i]) by {
        lemma_edges_agree(dry, wet, lines, held, i);
    }
}

proof fn lemma_edges_agree(
    dry: Seq<Importer>,
    wet: Seq<Importer>,
    lines: Seq<EdgeLine>,
    held: Option<Set<EdgeKey>>,
    n: int,
)
    requires
        edge_run(dry, lines, held),
        edge_run(wet, lines, held),
        runs_agree(wet[0], dry[0]),
        0 <= n <= lines.len(),
    ensures
        runs_agree(wet[n], dry[n]),
    decreases n,
{
    if n > 0 {
        lemma_edges_agree(dry, wet, lines, held, n - 1);
        let line = lines[n - 1];
        lemma_edge_steps_agree(wet[n - 1], wet[n], dry[n - 1], dry[n], line, held);
    }
}

/// An edge line leads states that agree to states that agree.
proof fn lemma_edge_steps_agree(
    wet: Importer,
    wet_after: Importer,
    dry: Importer,
    dry_after: Importer,
    line: EdgeLine,
    held: Option<Set<EdgeKey>>,
)
    requires
        runs_agree(wet, dry),
        wet_after.follows_edge(wet, line, edge_needed(wet, line, held)),
        dry_after.follows_edge(dry, line, edge_needed(dry, line, held)),
    ensures
        runs_agree(wet_after, dry_after),
{
    assert(wet.moved(line.from@) == dry.moved(line.from@));
    assert(wet.moved(line.to@) == dry.moved(line.to@));
    assert(wet.has(wet.endpoint(line.from@)) == dry.has(dry.endpoint(line.from@)));
    assert(wet.has(wet.endpoint(line.to@)) == dry.has(dry.endpoint(line.to@)));
    assert forall|x: Seq<char>| #[trigger] wet_after.has(x) == dry_after.has(x) by {
        assert(wet.has(x) == dry.has(x));
    }
    assert forall|t: Seq<char>, h: Seq<char>| #[trigger]
        wet_after.holder(t, h) == dry_after.holder(t, h) by {
        assert(wet.holder(t, h) == dry.holder(t, h));
    }
    assert forall|x: Seq<char>| #[trigger] wet_after.moved(x) == dry_after.moved(x) by {
        assert(wet.moved(x) == dry.moved(x));
    }
}

/// The edges of a graph, each by its source, its type and its target.
pub open spec fn edge_keys(edges: Seq<EdgeInfo>) -> Set<EdgeKey> {
    edges.map_values(|e: EdgeInfo| (e.from@, e.edge_type@, e.to@)).to_set()
}

/// Importing an export back into the database that it was made of, with deduplication,
/// skips every record by its id and every edge, and writes nothing. The export is that
/// of the records read from `stored` and of the edges found in `graph`; the import
/// knows the stored records when it begins.
pub proof fn reimports_skip_everything(
    opts: ExportOptions,
    stored: Seq<Record>,
    read: Seq<Record>,
    graph: Seq<EdgeInfo>,
    found: Seq<EdgeInfo>,
    lines: Seq<RecordLine>,
    edge_lines: Seq<EdgeLine>,
    hashes: Seq<Seq<char>>,
    superseded: Seq<int>,
    states: Seq<Importer>,
    edge_states: Seq<Importer>,
)
    requires
        forall|i: int|
            0 <= i < read.len() ==> stored.contains(#[trigger] read[i]) && selects_table(
                opts,
                read[i].table@,
            ),
        ({
            let exported = exported_records(opts, read);
            let edges = exported_edges(exported, found);
            &&& forall|i: int| 0 <= i < found.len() ==> graph.contains(#[trigger] found[i])
            &&& lines.len() == exported.len()
            &&& forall|i: int| 0 <= i < lines.len() ==> is_line_of(#[trigger] lines[i], exported[i])
            &&& edge_lines.len() == edges.len()
            &&& forall|i: int|
                0 <= i < edge_lines.len() ==> is_edge_line_of(#[trigger] edge_lines[i], edges[i])
        }),
        states[0].options().dedup,
        forall|i: int| 0 <= i < stored.len() ==> states[0].has((#[trigger] stored[i]).id@),
        forall|x: Seq<char>| #[trigger] states[0].moved(x) is None,
        states[0].so_far().skipped_id + lines.len() <= usize::MAX,
        states[0].so_far().edges_skipped + edge_lines.len() <= usize::MAX,
        record_run(states, lines, hashes, superseded),
        edge_states[0].same_but_waiting(states[lines.len() as int]),
        edge_run(edge_states, edge_lines, Some(edge_keys(graph))),
    ensures
        forall|i: int|
            0 <= i < lines.len() ==> states[i].fate(
                (#[trigger] lines[i]).table@,
                lines[i].id@,
                hashes[i],
            ) is SameId,
        forall|i: int|
            0 <= i < edge_lines.len() ==> !edge_needed(
                edge_states[i],
                #[trigger] edge_lines[i],
                Some(edge_keys(graph)),
            ),
        edge_states[edge_lines.len() as int].so_far() == (ImportReport {
            skipped_id: (states[0].so_far().skipped_id + lines.len()) as usize,
            edges_skipped: (states[0].so_far().edges_skipped + edge_lines.len()) as usize,
            ..states[0].so_far()
        }),
{
    let exported = exported_records(opts, read);
    assert forall|i: int| 0 <= i < lines.len() implies skipped_by_id(
        states[0],
        #[trigger] lines[i],
    ) by {
        lemma_exported_record(opts, read, i);
        let k = choose|k: int| 0 <= k < read.len() && read[k] == exported[i];
        assert(stored.contains(read[k]));
        let m = choose|m: int| 0 <= m < stored.len() && stored[m] == read[k];
        assert(states[0].has(stored[m].id@));
        assert(selects_table(opts, read[k].table@));
    }
    lemma_records_skipped(lines, hashes, superseded, states, lines.len() as int);
    assert forall|i: int| 0 <= i < lines.len() implies states[i].fate(
        (#[trigger] lines[i]).table@,
        lines[i].id@,
        hashes[i],
    ) is SameId by {
        lemma_records_skipped(lines, hashes, superseded, states, i);
        assert(states[i].has(lines[i].id@));
    }
    let last = states[lines.len() as int];
    let edges = exported_edges(exported, found);
    let held = edge_keys(graph);
    assert forall|i: int| 0 <= i < edge_lines.len() implies held.contains(
        ((#[trigger] edge_lines[i]).from@, edge_lines[i].edge_type@, edge_lines[i].to@),
    ) by {
        lemma_exported_edge(exported, found, i);
        let k = choose|k: int| 0 <= k < found.len() && found[k] == edges[i];
        assert(graph.contains(found[k]));
        let m = choose|m: int| 0 <= m < graph.len() && graph[m] == found[k];
        let keys = graph.map_values(|e: EdgeInfo| (e.from@, e.edge_type@, e.to@));
        assert(keys[m] == (edge_lines[i].from@, edge_lines[i].edge_type@, edge_lines[i].to@));
        assert(keys.contains(keys[m]));
    }
    assert forall|x: Seq<char>| #[trigger] edge_states[0].moved(x) is None by {
        assert(last.moved(x) is None);
    }
    lemma_edges_skipped(edge_lines, held, edge_states, edge_lines.len() as int);
    assert forall|i: int| 0 <= i < edge_lines.len() implies !edge_needed(
        edge_states[i],
        #[trigger] edge_lines[i],
        Some(held),
    ) by {
        lemma_edges_skipped(edge_lines, held, edge_states, i);
        assert(edge_states[i].moved(edge_lines[i].from@) is None);
        assert(edge_states[i].moved(edge_lines[i].to@) is None);
    }
}

/// Whether an import with deduplication skips a line by its id.
spec fn skipped_by_id(state: Importer, line: RecordLine) -> bool {
    state.has(line.id@) && !"_idx_"@.is_prefix_of(line.table@)
}

/// Lines of records that exist are skipped, one after the other.
proof fn lemma_records_skipped(
    lines: Seq<RecordLine>,
    hashes: Seq<Seq<char>>,
    superseded: Seq<int>,
    states: Seq<Importer>,
    n: int,
)
    requires
        0 <= n <= lines.len(),
        record_run(states, lines, hashes, superseded),
        states[0].options().dedup,
        forall|i: int| 0 <= i < lines.len() ==> skipped_by_id(states[0], #[trigger] lines[i]),
        states[0].so_far().skipped_id + lines.len() <= usize::MAX,
    ensures
        states[n].same_but_report(states[0]),
        states[n].so_far() == (ImportReport {
            skipped_id: (states[0].so_far().skipped_id + n) as usize,
            ..states[0].so_far()
        }),
    decreases n,
{
    if n > 0 {
        lemma_records_skipped(lines, hashes, superseded, states, n - 1);
        let line = lines[n - 1];
        let before = states[n - 1];
        let after = states[n];
        assert(skipped_by_id(states[0], line));
        assert(before.has(line.id@));
        assert(before.fate(line.table@, line.id@, hashes[n - 1]) is SameId);
        assert(after.same_but_report(before));
        lemma_same_but_report(states[0], before, after);
    }
}

/// What changes only the report twice changes only the report.
proof fn lemma_same_but_report(a: Importer, b: Importer, c: Importer)
    requires
        b.same_but_report(a),
        c.same_but_report(b),
    ensures
        c.same_but_report(a),
{
    assert forall|id: Seq<char>| #[trigger] c.has(id) == a.has(id) by {
        assert(b.has(id) == a.has(id));
    }
    assert forall|t: Seq<char>, h: Seq<char>| #[trigger] c.holder(t, h) == a.holder(t, h) by {
        assert(b.holder(t, h) == a.holder(t, h));
    }
    assert forall|id: Seq<char>| #[trigger] c.moved(id) == a.moved(id) by {
        assert(b.moved(id) == a.moved(id));
    }
}

/// Lines of edges that the graph holds are skipped, one after the other.
proof fn lemma_edges_skipped(
    lines: Seq<EdgeLine>,
    held: Set<EdgeKey>,
    states: Seq<Importer>,
    n: int,
)
    requires
        0 <= n <= lines.len(),
        edge_run(states, lines, Some(held)),
        forall|x: Seq<char>| #[trigger] states[0].moved(x) is None,
        forall|i: int|
            0 <= i < lines.len() ==> held.contains(
                ((#[trigger] lines[i]).from@, lines[i].edge_type@, lines[i].to@),
            ),
        states[0].so_far().edges_skipped + lines.len() <= usize::MAX,
    ensures
        forall|x: Seq<char>| #[trigger] states[n].moved(x) is None,
        states[n].so_far() == (ImportReport {
            edges_skipped: (states[0].so_far().edges_skipped + n) as usize,
            ..states[0].so_far()
        }),
    decreases n,
{
    if n > 0 {
        lemma_edges_skipped(lines, held, states, n - 1);
        let line = lines[n - 1];
        let before = states[n - 1];
        let after = states[n];
        assert(before.moved(line.from@) is None);
        assert(before.moved(line.to@) is None);
        assert(!edge_needed(before, line, Some(held)));
        assert(after.follows_edge(before, line, false));
        assert forall|x: Seq<char>| #[trigger] after.moved(x) is None by {
            assert(before.moved(x) is None);
        }
    }
}

/// What the check of the embeddings finds adds up: the records that have one and
/// those that lack one are those that should.
pub proof fn embeddings_add_up(opts: ImportOptions, engines: bool, indexed: Seq<bool>)
    requires
        indexed.len() <= usize::MAX,
    ensures
        verification(opts, engines, indexed) matches EmbeddingVerification::Verified {
            expected,
            indexed: found,
            missing,
        } ==> found + missing == expected,
{
    lemma_count_true_bound(indexed);
}

proof fn lemma_count_true_bound(s: Seq<bool>)
    ensures
        count_true(s) <= s.len(),
    decreases s.len(),
{
    if s.len() > 0 {
        lemma_count_true_bound(s.drop_last());
    }
}

/// Without deduplication no record is skipped: one whose id exists replaces that record, and
/// any other is new. With it, a record is skipped where its id exists or else its content.
pub proof fn duplicates_are_skipped_where_asked(
    state: Importer,
    table: Seq<char>,
    id: Seq<char>,
    hash: Seq<char>,
)
    requires
        !"_idx_"@.is_prefix_of(table),
    ensures
        !state.options().dedup && state.has(id) ==> state.fate(table, id, hash) is Overwrites,
        !state.has(id) && (!state.options().dedup || state.holder(table, hash) is None)
            ==> state.fate(table, id, hash) is New,
        state.options().dedup && state.has(id) ==> state.fate(table, id, hash) is SameId,
        state.options().dedup && !state.has(id) ==> (state.holder(table, hash) matches Some(h)
            ==> state.fate(table, id, hash) == RecordFate::SameContent(h)),
{
}

/// The lines of tables that are rebuilt are passed over, whatever the options.
pub proof fn rebuilt_tables_are_passed_over(
    state: Importer,
    table: Seq<char>,
    id: Seq<char>,
    hash: Seq<char>,
)
    requires
        "_idx_"@.is_prefix_of(table),
    ensures
        state.fate(table, id, hash) is Rebuilt,
        !state.refuses(table, id, hash),
{
}

/// A record line moves one count by one: that of the new records, of the replaced ones, or of
/// those that were skipped for their id or for their content.
pub proof fn each_fate_has_its_count(
    state: Importer,
    table: Seq<char>,
    id: Seq<char>,
    hash: Seq<char>,
    superseded: int,
)
    requires
        state.so_far().imported < usize::MAX,
        state.so_far().overwritten < usize::MAX,
        state.so_far().skipped_id < usize::MAX,
        state.so_far().skipped_dup < usize::MAX,
        0 <= superseded,
        state.so_far().superseded + superseded <= usize::MAX,
    ensures
        ({
            let f = state.fate(table, id, hash);
            let r = state.so_far();
            let s = state.report_after_skip(f);
            let i = state.report_after_insert(f, superseded);
            &&& f is SameId ==> s.skipped_id == r.skipped_id + 1 && s.skipped_dup == r.skipped_dup
                && s.imported == r.imported && s.overwritten == r.overwritten
            &&& f is SameContent ==> s.skipped_dup == r.skipped_dup + 1 && s.skipped_id
                == r.skipped_id && s.imported == r.imported && s.overwritten == r.overwritten
            &&& f is New ==> i.imported == r.imported + 1 && i.overwritten == r.overwritten
                && i.skipped_id == r.skipped_id && i.skipped_dup == r.skipped_dup && i.superseded
                == r.superseded + superseded
            &&& f is Overwrites ==> i.overwritten == r.overwritten + 1 && i.imported == r.imported
                && i.skipped_id == r.skipped_id && i.skipped_dup == r.skipped_dup && i.superseded
                == r.superseded + superseded
        }),
{
}

/// An edge is to be made where both its ends exist after the import, the graph has no such
/// edge, and this import did not make it before. Without a graph none is.
pub proof fn edges_are_made_once(
    state: Importer,
    line: EdgeLine,
    existing: Seq<EdgeInfo>,
    i: int,
)
    ensures
        !state.edge_wanted(line, None),
        !state.has(state.endpoint(line.from@)) || !state.has(state.endpoint(line.to@))
            ==> !state.edge_wanted(line, Some(existing)),
        0 <= i < existing.len() && existing[i].to@ == state.endpoint(line.to@)
            ==> !state.edge_wanted(line, Some(existing)),
        state.edges_made().contains(
            (state.endpoint(line.from@), line.edge_type@, state.endpoint(line.to@)),
        ) ==> !state.edge_wanted(line, Some(existing)),
        state.has(state.endpoint(line.from@)) && state.has(state.endpoint(line.to@))
            && state.edges_made().len() == 0 && existing.len() == 0 ==> state.edge_wanted(
            line,
            Some(existing),
        ),
{
    if 0 <= i < existing.len() && existing[i].to@ == state.endpoint(line.to@) {
        assert(leads_to(existing, state.endpoint(line.to@)));
    }
}

/// The edges of a record that was skipped for its content go to the record that holds it;
/// those of any other record stay.
pub proof fn edges_move_to_the_surviving_copy(
    before: Importer,
    after: Importer,
    table: Seq<char>,
    id: Seq<char>,
    hash: Seq<char>,
    other: Seq<char>,
    survivor: Seq<char>,
)
    requires
        !"_idx_"@.is_prefix_of(table),
        before.options().dedup,
        !before.has(id),
        before.holder(table, hash) == Some(survivor),
        survivor != id,
        after.follows_record(before, table, id, hash, 0),
    ensures
        after.endpoint(id) == survivor,
        other != id ==> after.endpoint(other) == before.endpoint(other),
        after.has(other) == before.has(other),
{
    assert(after.moved(id) == Some(survivor));
}

/// The header comes first: before it every other line ends the import. Behind it there are
/// lines of records and of edges, and no others.
pub proof fn headers_come_first(state: &Importer, kind: &str, lineno: usize, r: Result<LineKind>)
    requires
        call_ensures(Importer::begin_line, (state, kind, lineno), r),
    ensures
        kind@ == "header"@ ==> (r matches Ok(k) && k is Header),
        !state.started() && kind@ != "header"@ ==> r is Err,
        state.started() && kind@ == "record"@ ==> (r matches Ok(k) && k is Record),
        state.started() && kind@ == "edge"@ ==> (r matches Ok(k) && k is Edge),
        kind@ != "header"@ && kind@ != "record"@ && kind@ != "edge"@ ==> r is Err,
{
    reveal_strlit("header");
    reveal_strlit("record");
    reveal_strlit("edge");
    assert("header"@.len() == 6 && "record"@.len() == 6 && "edge"@.len() == 4 && "header"@[0] == 'h'
        && "record"@[0] == 'r');
}

/// An import that is finished reports what it did, and of the embeddings how many of those
/// that should be there are; a dry run looks nothing up, and without an engine all are
/// lacking. Without a header there is nothing to report.
pub proof fn finished_imports_report_embeddings(
    state: &Importer,
    engines: bool,
    indexed: &Vec<bool>,
    r: Result<ImportReport>,
)
    requires
        indexed@.len() == state.to_embed().len(),
        call_ensures(Importer::finish, (state, engines, indexed), r),
    ensures
        r is Ok <==> state.started(),
        r matches Ok(x) ==> x.imported == state.so_far().imported && x.overwritten
            == state.so_far().overwritten && x.edges_created == state.so_far().edges_created,
        r matches Ok(x) ==> (state.options().dry_run ==> x.embeddings == Some(
            EmbeddingVerification::SkippedDryRun,
        )),
        r matches Ok(x) ==> (!state.options().dry_run && !engines ==> x.embeddings == Some(
            EmbeddingVerification::EngineUnavailable { affected: indexed@.len() as usize },
        )),
        r matches Ok(x) ==> (!state.options().dry_run && engines && (forall|i: int|
            0 <= i < indexed@.len() ==> #[trigger] indexed@[i]) ==> x.embeddings == Some(
            EmbeddingVerification::Verified {
                expected: indexed@.len() as usize,
                indexed: indexed@.len() as usize,
                missing: 0,
            },
        )),
        r matches Ok(x) ==> (!state.options().dry_run && engines && (forall|i: int|
            0 <= i < indexed@.len() ==> !#[trigger] indexed@[i]) ==> x.embeddings == Some(
            EmbeddingVerification::Verified {
                expected: indexed@.len() as usize,
                indexed: 0,
                missing: indexed@.len() as usize,
            },
        )),
{
    lemma_counts_of_one_kind(indexed@);
}

/// Where all values are true all are counted, and where none is none.
proof fn lemma_counts_of_one_kind(s: Seq<bool>)
    ensures
        (forall|i: int| 0 <= i < s.len() ==> #[trigger] s[i]) ==> count_true(s) == s.len(),
        (forall|i: int| 0 <= i < s.len() ==> !#[trigger] s[i]) ==> count_true(s) == 0,
    decreases s.len(),
{
    if s.len() > 0 {
        let d = s.drop_last();
        lemma_counts_of_one_kind(d);
        assert(s.last() == s[s.len() - 1]);
        assert forall|i: int| 0 <= i < d.len() implies #[trigger] d[i] == s[i] by {}
    }
}

/// A user's record gets an embedding where its text takes over five bytes; a record of the
/// database itself gets none.
pub proof fn short_texts_get_no_embedding(table: &str, text: &str, r: bool)
    requires
        call_ensures(is_embeddable, (table, text), r),
    ensures
        r <==> byte_len(text@) >= 6 && !(table@.len() > 0 && table@[0] == '_'),
{
}

/// An import that fails behind its header says what was written up to there; before it, the
/// failure is all there is.
pub proof fn interrupted_imports_say_what_was_written(
    state: &Importer,
    source: AxilError,
    r: AxilError,
)
    requires
        call_ensures(Importer::fail, (state, source), r),
    ensures
        state.started() ==> r is ImportInterrupted && r->report == state.so_far(),
        !state.started() ==> r == source,
{
}

} // verus!
