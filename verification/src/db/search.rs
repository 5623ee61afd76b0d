//! Resolving what the engines find, and refusing what they cannot do.

use super::recall::{best, fetch_size, ranks, sources, Hit};
use super::registry::{space_name, validate_space_name};
use super::Axil;
use crate::error::{AxilError, Result};
use crate::order::{ranked, sort_ranked, Ranked};
use crate::record::{Record, RecordId};
use crate::text::{
    count_text, decimal, join2, join3, join5, join6, join7, lemma_text_order, text_before, text_less,
};
use vstd::prelude::*;

verus! {

/// A record that a search leads to: its best score, by a number that orders scores,
/// the best rank, and the place of the hit with that score.
#[derive(Debug)]
pub struct ScoredSource {
    pub id: RecordId,
    pub score: i32,
    pub rank: usize,
    pub at: usize,
}

impl ScoredSource {
    /// Whether this says what the hits say of the record. Of hits with the best
    /// score the first one counts.
    pub open spec fn describes(self, hits: Seq<Hit>) -> bool {
        &&& best(hits, self.id@) == Some(self.score)
        &&& ranks(hits, self.id@).len() > 0
        &&& self.rank == ranks(hits, self.id@)[0]
        &&& self.at < hits.len()
        &&& hits[self.at as int].leads_to(self.id@)
        &&& hits[self.at as int].score == self.score
        &&& forall|j: int|
            0 <= j < self.at && (#[trigger] hits[j]).leads_to(self.id@) ==> hits[j].score
                < self.score
    }
}

impl Ranked for ScoredSource {
    open spec fn before(self, other: ScoredSource) -> bool {
        self.score > other.score || (self.score == other.score && self.rank < other.rank)
    }

    proof fn lemma_ranked(a: ScoredSource, b: ScoredSource, c: ScoredSource) {
    }

    fn comes_before(&self, other: &ScoredSource) -> (r: bool) {
        self.score > other.score || (self.score == other.score && self.rank < other.rank)
    }
}

/// Whether the sources are those of the hits, in the order of their first hits.
pub open spec fn resolves(found: Seq<ScoredSource>, hits: Seq<Hit>) -> bool {
    &&& found.len() == sources(hits).len()
    &&& forall|i: int|
        0 <= i < found.len() ==> (#[trigger] found[i]).id@ == sources(hits)[i]
            && found[i].describes(hits)
}

/// The best score is an upper bound, and one of the hits has it.
proof fn lemma_best(hits: Seq<Hit>, id: Seq<char>)
    ensures
        forall|j: int|
            0 <= j < hits.len() && (#[trigger] hits[j]).leads_to(id) ==> best(hits, id) is Some
                && hits[j].score <= best(hits, id)->0,
        best(hits, id) matches Some(s) ==> exists|j: int|
            0 <= j < hits.len() && (#[trigger] hits[j]).leads_to(id) && hits[j].score == s,
    decreases hits.len(),
{
    if hits.len() > 0 {
        let d = hits.drop_last();
        lemma_best(d, id);
        assert forall|j: int| 0 <= j < hits.len() && (#[trigger] hits[j]).leads_to(id) implies best(
            hits,
            id,
        ) is Some && hits[j].score <= best(hits, id)->0 by {
            if j < d.len() {
                assert(d[j] == hits[j]);
            }
        }
        if let Some(s) = best(hits, id) {
            if best(d, id) == Some(s) {
                let j = choose|j: int|
                    0 <= j < d.len() && (#[trigger] d[j]).leads_to(id) && d[j].score == s;
                assert(hits[j] == d[j]);
            } else {
                assert(hits[hits.len() - 1].leads_to(id));
            }
        }
    }
}

/// The place of the first hit of a record with a score.
fn find_best(hits: &Vec<Hit>, id: &RecordId, score: i32) -> (r: usize)
    requires
        best(hits@, id@) == Some(score),
    ensures
        r < hits@.len(),
        hits@[r as int].leads_to(id@),
        hits@[r as int].score == score,
        forall|j: int|
            0 <= j < r && (#[trigger] hits@[j]).leads_to(id@) ==> hits@[j].score < score,
{
    proof {
        lemma_best(hits@, id@);
    }
    let mut i: usize = 0;
    while i < hits.len()
        invariant
            i <= hits@.len(),
            best(hits@, id@) == Some(score),
            forall|j: int|
                0 <= j < hits@.len() && (#[trigger] hits@[j]).leads_to(id@) ==> hits@[j].score
                    <= score,
            exists|j: int|
                i <= j < hits@.len() && (#[trigger] hits@[j]).leads_to(id@) && hits@[j].score
                    == score,
            forall|j: int|
                0 <= j < i && (#[trigger] hits@[j]).leads_to(id@) ==> hits@[j].score < score,
        decreases hits@.len() - i,
    {
        let here = match &hits[i].source {
            Some(s) => s.same(id),
            None => false,
        };
        if here && hits[i].score == score {
            return i;
        }
        assert(!(hits@[i as int].leads_to(id@) && hits@[i as int].score == score));
        i += 1;
    }
    0
}

impl Axil {
    /// The records that a search leads to, each once: from the best score down, and
    /// of equal scores from the best rank down.
    pub fn resolve_scored(hits: &Vec<Hit>) -> (r: Vec<ScoredSource>)
        ensures
            exists|f: Seq<ScoredSource>| #[trigger] resolves(f, hits@) && r@ == ranked(f),
    {
        let none: Vec<Hit> = Vec::new();
        let candidates = Axil::gather_candidates(hits, &none, 0);
        proof {
            assert(hits@ + none@ =~= hits@);
        }
        let ghost ids = sources(hits@);
        let mut found: Vec<ScoredSource> = Vec::new();
        let mut i: usize = 0;
        while i < candidates.len()
            invariant
                i <= candidates@.len(),
                ids == sources(hits@),
                none@.len() == 0,
                candidates@.len() == ids.len(),
                forall|j: int|
                    0 <= j < candidates@.len() ==> (#[trigger] candidates@[j]).id@ == ids[j]
                        && candidates@[j].describes(hits@, none@, fetch_size(0)),
                found@.len() == i,
                forall|j: int|
                    0 <= j < i ==> (#[trigger] found@[j]).id@ == ids[j] && found@[j].describes(
                        hits@,
                    ),
            decreases candidates@.len() - i,
        {
            let c = &candidates[i];
            proof {
                assert(c.describes(hits@, none@, fetch_size(0)));
                assert(ranks(none@, c.id@).len() == 0);
                lemma_has_best(hits@, c.id@);
            }
            let at = find_best(hits, &c.id, c.vector_score);
            found.push(
                ScoredSource {
                    id: c.id.copy(),
                    score: c.vector_score,
                    rank: c.first_rank,
                    at,
                },
            );
            i += 1;
        }
        assert(resolves(found@, hits@));
        sort_ranked(found)
    }
}

/// A record with a rank has a best score.
proof fn lemma_has_best(hits: Seq<Hit>, id: Seq<char>)
    ensures
        ranks(hits, id).len() > 0 ==> best(hits, id) is Some,
    decreases hits.len(),
{
    if hits.len() > 0 {
        lemma_has_best(hits.drop_last(), id);
    }
}

/// The error that a record is not there.
pub fn missing_record(id: &RecordId) -> (r: AxilError)
    ensures
        r is NotFound,
        r->NotFound_0@ == "record "@ + id@,
{
    AxilError::NotFound(join2("record ", id.as_str()))
}

/// A refusal with the message, unless the thing is there.
fn needs(there: bool, message: &str) -> (r: Result<()>)
    ensures
        match r {
            Ok(_) => there,
            Err(e) => !there && e is Plugin && e->Plugin_0@ == message@,
        },
{
    if there {
        Ok(())
    } else {
        Err(AxilError::plugin(message))
    }
}

impl Axil {
    /// Refuses where there is no vector index.
    pub fn require_vector_index(&self) -> (r: Result<()>)
        ensures
            match r {
                Ok(_) => self.vector_index,
                Err(e) => !self.vector_index && e is Plugin && e->Plugin_0@
                    == "no vector index configured"@,
            },
    {
        needs(self.vector_index, "no vector index configured")
    }

    /// Refuses where there is no embedder.
    pub fn require_embedder(&self) -> (r: Result<()>)
        ensures
            match r {
                Ok(_) => self.embedder,
                Err(e) => !self.embedder && e is Plugin && e->Plugin_0@
                    == "no embedder configured — use with_embedder()"@,
            },
    {
        needs(self.embedder, "no embedder configured — use with_embedder()")
    }

    /// Refuses where there is no graph.
    pub fn require_graph_index(&self) -> (r: Result<()>)
        ensures
            match r {
                Ok(_) => self.graph_index,
                Err(e) => !self.graph_index && e is Plugin && e->Plugin_0@
                    == "no graph index configured"@,
            },
    {
        needs(self.graph_index, "no graph index configured")
    }

    /// Refuses where there is no time index.
    pub fn require_timeseries_index(&self) -> (r: Result<()>)
        ensures
            match r {
                Ok(_) => self.timeseries_index,
                Err(e) => !self.timeseries_index && e is Plugin && e->Plugin_0@
                    == "no timeseries index configured"@,
            },
    {
        needs(self.timeseries_index, "no timeseries index configured")
    }

    /// Refuses where there is no full-text index.
    pub fn require_fts_index(&self) -> (r: Result<()>)
        ensures
            match r {
                Ok(_) => self.fts_index,
                Err(e) => !self.fts_index && e is Plugin && e->Plugin_0@
                    == "no FTS index configured"@,
            },
    {
        needs(self.fts_index, "no FTS index configured")
    }

    /// The text of a field, to be embedded.
    pub fn embed_field(&self, id: &RecordId, record: Option<&Record>, field: &str) -> (r: Result<
        String,
    >)
        ensures
            match r {
                Ok(t) => self.vector_index && self.embedder && (record matches Some(x)
                    && x.data.model().text_member(field@) == Some(t@)),
                Err(e) => if !self.vector_index {
                    e is Plugin && e->Plugin_0@ == "no vector index configured"@
                } else if !self.embedder {
                    e is Plugin && e->Plugin_0@ == "no embedder configured — use with_embedder()"@
                } else if record is None {
                    e is NotFound && e->NotFound_0@ == "record "@ + id@
                } else {
                    record->0.data.model().text_member(field@) is None && e is InvalidQuery
                        && e->InvalidQuery_0@ == "field '"@ + field@
                        + "' not found or not a string"@
                },
            },
    {
        if let Err(e) = self.require_vector_index() {
            return Err(e);
        }
        if let Err(e) = self.require_embedder() {
            return Err(e);
        }
        let record = match record {
            Some(x) => x,
            None => {
                return Err(missing_record(id));
            },
        };
        match record.data.get_str(field) {
            Some(t) => Ok(t.to_owned()),
            None => Err(
                AxilError::InvalidQuery(join3("field '", field, "' not found or not a string")),
            ),
        }
    }

    /// Refuses an edge where one of its ends is not there, or where there is no
    /// graph.
    pub fn relate(
        &self,
        from: &RecordId,
        from_exists: bool,
        to: &RecordId,
        to_exists: bool,
    ) -> (r: Result<()>)
        ensures
            match r {
                Ok(_) => from_exists && to_exists && self.graph_index,
                Err(e) => if !from_exists {
                    e is NotFound && e->NotFound_0@ == "source record "@ + from@
                } else if !to_exists {
                    e is NotFound && e->NotFound_0@ == "target record "@ + to@
                } else {
                    !self.graph_index && e is Plugin && e->Plugin_0@ == "no graph index configured"@
                },
            },
    {
        if !from_exists {
            return Err(AxilError::NotFound(join2("source record ", from.as_str())));
        }
        if !to_exists {
            return Err(AxilError::NotFound(join2("target record ", to.as_str())));
        }
        self.require_graph_index()
    }
}

/// Refuses vectors that are not as many as the texts that they were made from.
pub fn check_vectors(returned: usize, asked: usize) -> (r: Result<()>)
    ensures
        match r {
            Ok(_) => returned == asked,
            Err(e) => returned != asked && e is Plugin && e->Plugin_0@ == "embedder returned "@
                + decimal(returned as nat) + " vectors for "@ + decimal(asked as nat)
                + " texts — refusing to silently drop the remainder"@,
        },
{
    if returned == asked {
        Ok(())
    } else {
        Err(
            AxilError::Plugin(
                join5(
                    "embedder returned ",
                    count_text(returned).as_str(),
                    " vectors for ",
                    count_text(asked).as_str(),
                    " texts — refusing to silently drop the remainder",
                ),
            ),
        )
    }
}

/// Refuses a vector that a space of other dimensions cannot hold.
pub fn check_space_vector(space: &str, dimensions: usize, supplied: usize) -> (r: Result<()>)
    ensures
        match r {
            Ok(_) => dimensions == supplied,
            Err(e) => dimensions != supplied && e is Plugin && e->Plugin_0@
                == "dimension mismatch: vector space '"@ + space@ + "' was created with "@
                + decimal(dimensions as nat) + " dimensions, but "@ + decimal(supplied as nat)
                + " supplied"@,
        },
{
    if dimensions == supplied {
        Ok(())
    } else {
        Err(
            AxilError::Plugin(
                join7(
                    "dimension mismatch: vector space '",
                    space,
                    "' was created with ",
                    count_text(dimensions).as_str(),
                    " dimensions, but ",
                    count_text(supplied).as_str(),
                    " supplied",
                ),
            ),
        )
    }
}

/// Refuses a query for a space of other dimensions.
pub fn check_space_query(space: &str, dimensions: usize, asked: usize) -> (r: Result<()>)
    ensures
        match r {
            Ok(_) => dimensions == asked,
            Err(e) => dimensions != asked && e is Plugin && e->Plugin_0@
                == "dimension mismatch: vector space '"@ + space@ + "' holds "@ + decimal(
                dimensions as nat,
            ) + "-dimensional vectors, but the query has "@ + decimal(asked as nat),
        },
{
    if dimensions == asked {
        Ok(())
    } else {
        Err(
            AxilError::Plugin(
                join6(
                    "dimension mismatch: vector space '",
                    space,
                    "' holds ",
                    count_text(dimensions).as_str(),
                    "-dimensional vectors, but the query has ",
                    count_text(asked).as_str(),
                ),
            ),
        )
    }
}

/// How a vector space is reached.
#[derive(Clone, Copy, Debug, PartialEq, Eq, Structural)]
pub enum SpaceStep {
    /// It is open.
    Open,
    /// It is to be opened or made.
    Make,
}

impl Axil {
    /// How a vector space is reached, given whether it is open and whether the vector
    /// engine can make one: its name is looked at first, and one that is open needs
    /// no engine.
    pub fn open_or_create_space(space: &str, open: bool, factory: bool) -> (r: Result<SpaceStep>)
        ensures
            match r {
                Ok(step) => space_name(space@) && (open || factory) && step == if open {
                    SpaceStep::Open
                } else {
                    SpaceStep::Make
                },
                Err(e) => if space_name(space@) {
                    !open && !factory && (e matches AxilError::Plugin(m) && m@
                        == "no vector-space factory registered — named spaces require the vector engine"@)
                } else {
                    e matches AxilError::InvalidQuery(m) && m@ == "invalid vector space name '"@
                        + space@ + "': must match [a-z0-9_-]{1,32}"@
                },
            },
    {
        match validate_space_name(space) {
            Ok(_) => {},
            Err(e) => {
                return Err(e);
            },
        }
        if open {
            return Ok(SpaceStep::Open);
        }
        if !factory {
            return Err(
                AxilError::plugin(
                    "no vector-space factory registered — named spaces require the vector engine",
                ),
            );
        }
        Ok(SpaceStep::Make)
    }
}

/// A vector space with its name.
#[derive(Debug)]
pub struct VectorSpaceInfo {
    /// The name.
    pub name: String,
    /// The dimension of its vectors.
    pub dimensions: usize,
    /// The number of its vectors.
    pub count: usize,
}

impl Ranked for VectorSpaceInfo {
    open spec fn before(self, other: VectorSpaceInfo) -> bool {
        text_less(self.name@, other.name@)
    }

    proof fn lemma_ranked(a: VectorSpaceInfo, b: VectorSpaceInfo, c: VectorSpaceInfo) {
        lemma_text_order(a.name@, b.name@, c.name@);
        lemma_text_order(b.name@, c.name@, a.name@);
        lemma_text_order(a.name@, c.name@, b.name@);
        lemma_text_order(c.name@, b.name@, a.name@);
    }

    fn comes_before(&self, other: &VectorSpaceInfo) -> (r: bool) {
        text_before(self.name.as_str(), other.name.as_str())
    }
}

impl Axil {
    /// The vector spaces, by their names.
    pub fn vector_spaces(found: Vec<VectorSpaceInfo>) -> (r: Vec<VectorSpaceInfo>)
        ensures
            r@ == ranked(found@),
    {
        sort_ranked(found)
    }
}

/// A search leads to a record once where some hit leads to it, with the best score of those
/// hits, from the best score down.
pub proof fn searches_lead_to_each_record_once(
    hits: &Vec<Hit>,
    r: Vec<ScoredSource>,
    i: int,
    j: int,
)
    requires
        call_ensures(Axil::resolve_scored, (hits,), r),
        0 <= i < r@.len(),
        0 <= j < hits@.len(),
    ensures
        hits@[j].leads_to(r@[i].id@) ==> hits@[j].score <= r@[i].score,
        r@[i].at < hits@.len() && hits@[r@[i].at as int].leads_to(r@[i].id@)
            && hits@[r@[i].at as int].score == r@[i].score,
        i > 0 ==> r@[i - 1].score >= r@[i].score,
        i > 0 && r@[i - 1].score == r@[i].score ==> r@[i - 1].rank <= r@[i].rank,
{
    let f = choose|f: Seq<ScoredSource>| #[trigger] resolves(f, hits@) && r@ == ranked(f);
    crate::order::sorting_orders_the_items(f);
    crate::order::lemma_ranked_contains(f, r@[i]);
    assert(r@.contains(r@[i]));
    let k = choose|k: int| 0 <= k < f.len() && f[k] == r@[i];
    assert(f[k].describes(hits@));
    lemma_best(hits@, f[k].id@);
}

/// Without an engine, what needs it is refused, and nothing else.
pub proof fn missing_engines_are_refused(
    db: &Axil,
    v: Result<()>,
    e: Result<()>,
    g: Result<()>,
    t: Result<()>,
    f: Result<()>,
)
    requires
        call_ensures(Axil::require_vector_index, (db,), v),
        call_ensures(Axil::require_embedder, (db,), e),
        call_ensures(Axil::require_graph_index, (db,), g),
        call_ensures(Axil::require_timeseries_index, (db,), t),
        call_ensures(Axil::require_fts_index, (db,), f),
    ensures
        v is Ok <==> db.vector_index,
        e is Ok <==> db.embedder,
        g is Ok <==> db.graph_index,
        t is Ok <==> db.timeseries_index,
        f is Ok <==> db.fts_index,
        v matches Err(x) ==> x is Plugin,
        e matches Err(x) ==> x is Plugin,
        g matches Err(x) ==> x is Plugin,
        t matches Err(x) ==> x is Plugin,
        f matches Err(x) ==> x is Plugin,
{
}

/// The text of a field is embedded where there are a vector index, an embedder, the record,
/// and in it a text under that name.
pub proof fn fields_with_text_are_embedded(
    db: &Axil,
    id: &RecordId,
    record: &Record,
    field: &str,
    r: Result<String>,
    s: Result<String>,
    text: Seq<char>,
)
    requires
        call_ensures(Axil::embed_field, (db, id, Some(record), field), r),
        call_ensures(Axil::embed_field, (db, id, None, field), s),
        record.data.model().member(field@) == Some(crate::json::Json::Text(text)),
    ensures
        db.vector_index && db.embedder ==> (r matches Ok(t) && t@ == text),
        !db.vector_index || !db.embedder ==> r is Err,
        s is Err,
        db.vector_index && db.embedder ==> (s matches Err(e) && e is NotFound),
{
}

/// An edge is made where both its ends and a graph are there.
pub proof fn edges_need_both_ends(
    db: &Axil,
    from: &RecordId,
    a: bool,
    to: &RecordId,
    b: bool,
    r: Result<()>,
)
    requires
        call_ensures(Axil::relate, (db, from, a, to, b), r),
    ensures
        r is Ok <==> a && b && db.graph_index,
        !a || !b ==> (r matches Err(e) && e is NotFound),
        a && b && !db.graph_index ==> (r matches Err(e) && e is Plugin),
{
}

/// Vectors are taken where they are as many, and as long, as they have to be.
pub proof fn vectors_have_to_fit(
    space: &str,
    n: usize,
    m: usize,
    a: Result<()>,
    b: Result<()>,
    c: Result<()>,
)
    requires
        call_ensures(check_vectors, (n, m), a),
        call_ensures(check_space_vector, (space, n, m), b),
        call_ensures(check_space_query, (space, n, m), c),
    ensures
        a is Ok <==> n == m,
        b is Ok <==> n == m,
        c is Ok <==> n == m,
{
}

/// A vector space with a good name is reached where it is open, and made where it is not
/// and can be; one with a bad name is never reached.
pub proof fn open_spaces_are_not_made(
    space: &str,
    open: bool,
    factory: bool,
    named: bool,
    r: Result<SpaceStep>,
)
    requires
        call_ensures(super::registry::is_valid_space_name, (space,), named),
        call_ensures(Axil::open_or_create_space, (space, open, factory), r),
    ensures
        r is Ok <==> named && (open || factory),
        r matches Ok(step) ==> (step is Open <==> open),
        r matches Err(e) ==> (e is InvalidQuery <==> !named),
{
}

/// The vector spaces are shown by their names, none of them left out.
pub proof fn spaces_are_shown_by_name(found: Vec<VectorSpaceInfo>, r: Vec<VectorSpaceInfo>, i: int)
    requires
        call_ensures(Axil::vector_spaces, (found,), r),
        0 <= i < r@.len(),
    ensures
        r@.len() == found@.len(),
        r@.to_multiset() == found@.to_multiset(),
        i > 0 ==> !text_less(r@[i].name@, r@[i - 1].name@),
{
    crate::order::sorting_orders_the_items(found@);
}

} // verus!
