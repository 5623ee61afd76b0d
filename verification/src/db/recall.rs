//! Gathering, ordering and thinning out what a query finds.

use super::Axil;
use crate::diagnostics::Ratio;
use crate::json::{Json, Value};
use crate::order::{ranked, sort_ranked, sorting_orders_the_items, Ranked};
use crate::record::{id_set, ids_view, RecordId};
use crate::text::{chars_of, same_text};
use vstd::hash_map::StringHashMap;
use vstd::hash_set::StringHashSet;
use vstd::prelude::*;
use vstd::string::StringExecFns;

verus! {

/// How many results are asked of each engine: enough for the later steps to choose
/// from.
pub open spec fn fetch_size(top_k: usize) -> int {
    let wide = if top_k * 8 > usize::MAX {
        usize::MAX as int
    } else {
        top_k * 8
    };
    if wide < 40 {
        40
    } else {
        wide
    }
}

/// A hit of an engine: the record that it leads to, if it leads to one, and its
/// score by a number that orders scores as their IEEE numbers are ordered, with 0
/// for zero.
#[derive(Debug)]
pub struct Hit {
    pub source: Option<RecordId>,
    pub score: i32,
}

impl Hit {
    /// Whether the hit leads to the record.
    pub open spec fn leads_to(self, id: Seq<char>) -> bool {
        self.source matches Some(s) && s@ == id
    }
}

/// The ranks of the hits that lead to a record, best first.
pub open spec fn ranks(hits: Seq<Hit>, id: Seq<char>) -> Seq<usize>
    decreases hits.len(),
{
    if hits.len() == 0 {
        Seq::empty()
    } else {
        let r = ranks(hits.drop_last(), id);
        if hits.last().leads_to(id) {
            r.push((hits.len() - 1) as usize)
        } else {
            r
        }
    }
}

/// The highest score of the hits that lead to a record.
pub open spec fn best(hits: Seq<Hit>, id: Seq<char>) -> Option<i32>
    decreases hits.len(),
{
    if hits.len() == 0 {
        None
    } else {
        let b = best(hits.drop_last(), id);
        if hits.last().leads_to(id) {
            match b {
                Some(s) if s >= hits.last().score => b,
                _ => Some(hits.last().score),
            }
        } else {
            b
        }
    }
}

/// The records that hits lead to, each once, in the order of their first hits.
pub open spec fn sources(hits: Seq<Hit>) -> Seq<Seq<char>>
    decreases hits.len(),
{
    if hits.len() == 0 {
        Seq::empty()
    } else {
        let s = sources(hits.drop_last());
        match hits.last().source {
            Some(id) if !s.contains(id@) => s.push(id@),
            _ => s,
        }
    }
}

/// A record that a query may return, with what the engines said of it.
#[derive(Debug)]
pub struct RecallCandidate {
    pub id: RecordId,
    pub vector_score: i32,
    pub fts_score: i32,
    pub first_rank: usize,
    pub vector_ranks: Vec<usize>,
    pub fts_ranks: Vec<usize>,
}

impl RecallCandidate {
    /// Whether the candidate says what the hits of the two engines say of its
    /// record. Its first rank is the best of its ranks, those of the full-text
    /// engine counted from `fetch_k` on.
    pub open spec fn describes(self, vector: Seq<Hit>, fts: Seq<Hit>, fetch_k: int) -> bool {
        let v = ranks(vector, self.id@);
        let f = ranks(fts, self.id@);
        &&& self.vector_ranks@ == v
        &&& self.fts_ranks@ == f
        &&& self.vector_score == match best(vector, self.id@) {
            Some(s) => s,
            None => 0,
        }
        &&& self.fts_score == match best(fts, self.id@) {
            Some(s) => if v.len() > 0 && s < 0 {
                0
            } else {
                s
            },
            None => 0,
        }
        &&& v.len() + f.len() > 0
        &&& self.first_rank as int == if v.len() > 0 && (f.len() == 0 || v[0] <= fetch_k + f[0]) {
            v[0] as int
        } else {
            fetch_k + f[0]
        }
    }
}

impl Ranked for RecallCandidate {
    open spec fn before(self, other: RecallCandidate) -> bool {
        self.first_rank < other.first_rank
    }

    proof fn lemma_ranked(a: RecallCandidate, b: RecallCandidate, c: RecallCandidate) {
    }

    fn comes_before(&self, other: &RecallCandidate) -> (r: bool) {
        self.first_rank < other.first_rank
    }
}

/// Whether candidates are those of the hits, in the order of their first hits.
pub open spec fn gathered(
    candidates: Seq<RecallCandidate>,
    vector: Seq<Hit>,
    fts: Seq<Hit>,
    fetch_k: int,
) -> bool {
    let ids = sources(vector + fts);
    &&& candidates.len() == ids.len()
    &&& forall|i: int|
        0 <= i < ids.len() ==> (#[trigger] candidates[i]).id@ == ids[i] && candidates[i].describes(
            vector,
            fts,
            fetch_k,
        )
}

/// Whether the map tells where the candidate of each record stands.
spec fn located(candidates: Seq<RecallCandidate>, at: Map<Seq<char>, usize>) -> bool {
    &&& forall|id: Seq<char>| #[trigger]
        at.contains_key(id) ==> at[id] < candidates.len() && candidates[at[id] as int].id@ == id
    &&& forall|i: int|
        0 <= i < candidates.len() ==> at.contains_key((#[trigger] candidates[i]).id@)
            && at[candidates[i].id@] == i
}

/// Every hit leads to one of the sources.
proof fn lemma_sources(hits: Seq<Hit>, id: Seq<char>)
    ensures
        sources(hits).contains(id) <==> ranks(hits, id).len() > 0,
        ranks(hits, id).len() == 0 ==> best(hits, id) is None,
        ranks(hits, id).len() > 0 ==> ranks(hits, id)[0] < hits.len() && best(hits, id) is Some,
    decreases hits.len(),
{
    if hits.len() > 0 {
        lemma_sources(hits.drop_last(), id);
        if let Some(s) = hits.last().source {
            crate::text::lemma_push_contains(sources(hits.drop_last()), s@, id);
        }
    }
}

/// The sources of two lists of hits.
proof fn lemma_sources_of_both(vector: Seq<Hit>, fts: Seq<Hit>, id: Seq<char>)
    ensures
        sources(vector + fts).contains(id) <==> ranks(vector, id).len() > 0 || ranks(fts, id).len()
            > 0,
    decreases fts.len(),
{
    if fts.len() == 0 {
        assert(vector + fts =~= vector);
        lemma_sources(vector, id);
    } else {
        lemma_sources_of_both(vector, fts.drop_last(), id);
        assert((vector + fts).drop_last() =~= vector + fts.drop_last());
        if let Some(s) = fts.last().source {
            crate::text::lemma_push_contains(sources(vector + fts.drop_last()), s@, id);
        }
    }
}

/// The candidates that were gathered so far.
struct Gathering {
    candidates: Vec<RecallCandidate>,
    at: StringHashMap<usize>,
}

impl Gathering {
    /// Whether what was gathered is what the hits say.
    spec fn holds(self, vector: Seq<Hit>, fts: Seq<Hit>, fetch_k: int) -> bool {
        &&& gathered(self.candidates@, vector, fts, fetch_k)
        &&& located(self.candidates@, self.at@)
    }

    /// Takes in the next hit of the vector index.
    fn take_vector(&mut self, hit: &Hit, rank: usize, Ghost(vector): Ghost<Seq<Hit>>, fetch_k: usize)
        requires
            old(self).holds(vector, Seq::empty(), fetch_k as int),
            rank == vector.len(),
        ensures
            final(self).holds(vector.push(*hit), Seq::empty(), fetch_k as int),
    {
        let ghost none = Seq::<Hit>::empty();
        let ghost next = vector.push(*hit);
        proof {
            assert(next.drop_last() =~= vector);
            assert(vector + none =~= vector);
            assert(next + none =~= next);
        }
        match &hit.source {
            None => {},
            Some(source) => {
                proof {
                    lemma_sources(vector, source@);
                }
                match self.at.get(source.as_str()) {
                    Some(p) => {
                        let at: usize = *p;
                        let ghost before = self.candidates@;
                        let c = &mut self.candidates[at];
                        if hit.score > c.vector_score {
                            c.vector_score = hit.score;
                        }
                        c.vector_ranks.push(rank);
                        proof {
                            assert(sources(vector).contains(source@)) by {
                                assert(sources(vector)[at as int] == source@);
                            }
                            assert forall|i: int|
                                0 <= i < before.len() implies (
                            #[trigger] self.candidates@[i]).describes(
                                next,
                                none,
                                fetch_k as int,
                            ) && self.candidates@[i].id@ == sources(next)[i] by {
                                assert(before[i].describes(vector, none, fetch_k as int));
                                lemma_sources(vector, before[i].id@);
                                if i != at {
                                    assert(before[i].id@ != source@);
                                    assert(self.candidates@[i] == before[i]);
                                }
                            }
                        }
                    },
                    None => {
                        let ghost before = self.candidates@;
                        let mut vector_ranks: Vec<usize> = Vec::new();
                        vector_ranks.push(rank);
                        self.at.insert(source.0.clone(), self.candidates.len());
                        self.candidates.push(
                            RecallCandidate {
                                id: source.copy(),
                                vector_score: hit.score,
                                fts_score: 0,
                                first_rank: rank,
                                vector_ranks,
                                fts_ranks: Vec::new(),
                            },
                        );
                        proof {
                            if sources(vector).contains(source@) {
                                let i = choose|i: int|
                                    0 <= i < sources(vector).len() && sources(vector)[i] == source@;
                                assert(before[i].id@ == source@);
                            }
                            let n = before.len();
                            assert(ranks(next, source@) =~= seq![rank]);
                            assert(self.candidates@[n as int].fts_ranks@ =~= ranks(none, source@));
                            assert forall|i: int|
                                0 <= i <= n implies (#[trigger] self.candidates@[i]).describes(
                                next,
                                none,
                                fetch_k as int,
                            ) && self.candidates@[i].id@ == sources(next)[i] by {
                                if i < n {
                                    assert(self.candidates@[i] == before[i]);
                                    assert(before[i].describes(vector, none, fetch_k as int));
                                    assert(before[i].id@ != source@) by {
                                        assert(sources(vector)[i] == before[i].id@);
                                    }
                                }
                            }
                        }
                    },
                }
            },
        }
    }

    /// Takes in the next hit of the full-text index.
    fn take_fts(
        &mut self,
        hit: &Hit,
        rank: usize,
        Ghost(vector): Ghost<Seq<Hit>>,
        Ghost(fts): Ghost<Seq<Hit>>,
        fetch_k: usize,
    )
        requires
            old(self).holds(vector, fts, fetch_k as int),
            rank == fts.len(),
            fetch_k + rank <= usize::MAX,
        ensures
            final(self).holds(vector, fts.push(*hit), fetch_k as int),
    {
        let ghost next = fts.push(*hit);
        proof {
            assert(next.drop_last() =~= fts);
            assert((vector + next).drop_last() =~= vector + fts);
        }
        match &hit.source {
            None => {},
            Some(source) => {
                proof {
                    lemma_sources(vector, source@);
                    lemma_sources(fts, source@);
                    lemma_sources_of_both(vector, fts, source@);
                }
                match self.at.get(source.as_str()) {
                    Some(p) => {
                        let at: usize = *p;
                        let ghost before = self.candidates@;
                        let c = &mut self.candidates[at];
                        if hit.score > c.fts_score {
                            c.fts_score = hit.score;
                        }
                        if fetch_k + rank < c.first_rank {
                            c.first_rank = fetch_k + rank;
                        }
                        c.fts_ranks.push(rank);
                        proof {
                            assert(sources(vector + fts).contains(source@)) by {
                                assert(sources(vector + fts)[at as int] == source@);
                            }
                            assert forall|i: int|
                                0 <= i < before.len() implies (
                            #[trigger] self.candidates@[i]).describes(
                                vector,
                                next,
                                fetch_k as int,
                            ) && self.candidates@[i].id@ == sources(vector + next)[i] by {
                                assert(before[i].describes(vector, fts, fetch_k as int));
                                if i != at {
                                    assert(before[i].id@ != source@);
                                    assert(self.candidates@[i] == before[i]);
                                }
                            }
                        }
                    },
                    None => {
                        let ghost before = self.candidates@;
                        let mut fts_ranks: Vec<usize> = Vec::new();
                        fts_ranks.push(rank);
                        self.at.insert(source.0.clone(), self.candidates.len());
                        self.candidates.push(
                            RecallCandidate {
                                id: source.copy(),
                                vector_score: 0,
                                fts_score: hit.score,
                                first_rank: fetch_k + rank,
                                vector_ranks: Vec::new(),
                                fts_ranks,
                            },
                        );
                        proof {
                            if sources(vector + fts).contains(source@) {
                                let i = choose|i: int|
                                    0 <= i < sources(vector + fts).len() && sources(vector + fts)[i]
                                        == source@;
                                assert(before[i].id@ == source@);
                            }
                            let n = before.len();
                            assert(ranks(fts, source@) =~= Seq::empty());
                            assert(ranks(vector, source@) =~= Seq::empty());
                            assert(ranks(next, source@) =~= seq![rank]);
                            assert(self.candidates@[n as int].vector_ranks@ =~= ranks(
                                vector,
                                source@,
                            ));
                            assert forall|i: int|
                                0 <= i <= n implies (#[trigger] self.candidates@[i]).describes(
                                vector,
                                next,
                                fetch_k as int,
                            ) && self.candidates@[i].id@ == sources(vector + next)[i] by {
                                if i < n {
                                    assert(self.candidates@[i] == before[i]);
                                    assert(before[i].describes(vector, fts, fetch_k as int));
                                    assert(before[i].id@ != source@) by {
                                        assert(sources(vector + fts)[i] == before[i].id@);
                                    }
                                }
                            }
                        }
                    },
                }
            },
        }
    }
}

/// How many results are asked of each engine.
pub fn fetch_count(top_k: usize) -> (r: usize)
    ensures
        r == fetch_size(top_k),
{
    let wide: usize = match top_k.checked_mul(8) {
        Some(n) => n,
        None => usize::MAX,
    };
    if wide < 40 {
        40
    } else {
        wide
    }
}

impl Axil {
    /// Gathers the hits of the two engines by record, in the order of the records'
    /// first hits.
    pub fn gather_candidates(vector: &Vec<Hit>, fts: &Vec<Hit>, top_k: usize) -> (r: Vec<
        RecallCandidate,
    >)
        requires
            fetch_size(top_k) + fts@.len() <= usize::MAX,
        ensures
            gathered(r@, vector@, fts@, fetch_size(top_k)),
    {
        let fetch_k = fetch_count(top_k);
        let mut g = Gathering { candidates: Vec::new(), at: StringHashMap::new() };
        let ghost none = Seq::<Hit>::empty();
        proof {
            assert(vector@.take(0) =~= none);
            assert(none + none =~= none);
        }
        let mut i: usize = 0;
        while i < vector.len()
            invariant
                i <= vector@.len(),
                none == Seq::<Hit>::empty(),
                g.holds(vector@.take(i as int), none, fetch_k as int),
            decreases vector@.len() - i,
        {
            g.take_vector(&vector[i], i, Ghost(vector@.take(i as int)), fetch_k);
            assert(vector@.take(i + 1) =~= vector@.take(i as int).push(vector@[i as int]));
            i += 1;
        }
        assert(vector@.take(i as int) =~= vector@);
        assert(fts@.take(0) =~= none);
        let mut j: usize = 0;
        while j < fts.len()
            invariant
                j <= fts@.len(),
                fetch_k + fts@.len() <= usize::MAX,
                g.holds(vector@, fts@.take(j as int), fetch_k as int),
            decreases fts@.len() - j,
        {
            g.take_fts(&fts[j], j, Ghost(vector@), Ghost(fts@.take(j as int)), fetch_k);
            assert(fts@.take(j + 1) =~= fts@.take(j as int).push(fts@[j as int]));
            j += 1;
        }
        assert(fts@.take(j as int) =~= fts@);
        g.candidates
    }
}

/// Which records a query may return.
#[derive(Debug)]
pub struct RecallFilter {
    /// The scopes, all of them where there are none.
    pub scopes: Vec<String>,
    /// The least confidence, by a number that orders scores.
    pub min_confidence: Option<i32>,
    /// The least importance, by a number that orders scores.
    pub min_importance: Option<i32>,
}

/// The scope of a record, which is the project's where it names none.
pub open spec fn scope_of(data: Json) -> Seq<char> {
    match data.text_member("_scope"@) {
        Some(s) => s,
        None => "project"@,
    }
}

impl RecallFilter {
    /// Whether a record with the data, of the confidence and the importance, may be
    /// returned.
    pub open spec fn admits(self, data: Json, confidence: i32, importance: i32) -> bool {
        &&& self.scopes@.len() == 0 || exists|i: int|
            0 <= i < self.scopes@.len() && (#[trigger] self.scopes@[i])@ == scope_of(data)
        &&& self.min_confidence matches Some(c) ==> confidence >= c
        &&& self.min_importance matches Some(m) ==> importance >= m
    }

    /// Whether a record with the data, of the confidence and the importance, may be
    /// returned.
    pub fn takes(&self, data: &Value, confidence: i32, importance: i32) -> (r: bool)
        ensures
            r == self.admits(data.model(), confidence, importance),
    {
        if self.scopes.len() > 0 {
            let scope = match data.get_str("_scope") {
                Some(s) => s,
                None => "project",
            };
            let mut found = false;
            let mut i: usize = 0;
            while i < self.scopes.len()
                invariant
                    i <= self.scopes@.len(),
                    found == exists|j: int|
                        0 <= j < i && (#[trigger] self.scopes@[j])@ == scope@,
                decreases self.scopes@.len() - i,
            {
                if same_text(self.scopes[i].as_str(), scope) {
                    found = true;
                }
                i += 1;
            }
            if !found {
                return false;
            }
        }
        if let Some(c) = self.min_confidence {
            if confidence < c {
                return false;
            }
        }
        if let Some(m) = self.min_importance {
            if importance < m {
                return false;
            }
        }
        true
    }
}

/// A result in the pool that a query returns the best of: the record by its id, table
/// and data, its score, confidence and importance by numbers that order them, and the
/// number of characters and the fingerprint of its text.
#[derive(Debug)]
pub struct PoolItem {
    pub id: RecordId,
    pub score: i32,
    pub table: String,
    pub data: Value,
    pub confidence: i32,
    pub importance: i32,
    pub text_len: usize,
    pub fingerprint: u64,
}

/// The place of a result in the pool, with its score.
#[derive(Clone, Copy, Debug, PartialEq, Eq, Structural)]
pub struct Placed {
    pub score: i32,
    pub index: usize,
}

impl Ranked for Placed {
    open spec fn before(self, other: Placed) -> bool {
        self.score > other.score
    }

    proof fn lemma_ranked(a: Placed, b: Placed, c: Placed) {
    }

    fn comes_before(&self, other: &Placed) -> (r: bool) {
        self.score > other.score
    }
}

/// The results of a pool with their places.
pub open spec fn placed(pool: Seq<PoolItem>) -> Seq<Placed> {
    Seq::new(pool.len(), |i: int| Placed { score: pool[i].score, index: i as usize })
}

/// The places of a pool, from the highest score down; of equal scores the one that
/// comes first stays first.
pub open spec fn by_score(pool: Seq<PoolItem>) -> Seq<usize> {
    ranked(placed(pool)).map_values(|p: Placed| p.index)
}

/// The number of ones in the binary form of a number.
pub open spec fn ones(n: nat) -> nat
    decreases n,
{
    if n == 0 {
        0
    } else {
        n % 2 + ones(n / 2)
    }
}

/// How many bits two fingerprints differ in.
pub open spec fn bit_distance(a: u64, b: u64) -> nat {
    ones((a ^ b) as nat)
}

/// How many bits two fingerprints differ in.
pub fn hamming(a: u64, b: u64) -> (r: u32)
    ensures
        r == bit_distance(a, b),
{
    let mut n: u64 = a ^ b;
    let mut r: u32 = 0;
    let mut left: u32 = 64;
    let ghost mut bound: nat = 0x1_0000_0000_0000_0000;
    proof {
        vstd::arithmetic::power2::lemma2_to64();
    }
    while n != 0
        invariant
            r + ones(n as nat) == bit_distance(a, b),
            n < bound,
            left <= 64,
            r + left <= 64,
            bound == vstd::arithmetic::power2::pow2(left as nat),
        decreases n,
    {
        proof {
            if left == 0 {
                vstd::arithmetic::power2::lemma2_to64();
            } else {
                vstd::arithmetic::power2::lemma_pow2_unfold(left as nat);
                bound = vstd::arithmetic::power2::pow2((left - 1) as nat);
            }
        }
        if n % 2 == 1 {
            r += 1;
        }
        n = n / 2;
        left -= 1;
    }
    r
}

/// When two results count as one.
#[derive(Clone, Copy, Debug, PartialEq, Eq, Structural)]
pub struct DedupConfig {
    /// How many bits the fingerprints may differ in.
    pub hamming_threshold: u32,
    /// Texts with fewer characters are left alone.
    pub min_text_len: usize,
}

impl DedupConfig {
    /// Whether `b` says again what `a` says, in the same table.
    pub open spec fn near(self, a: PoolItem, b: PoolItem) -> bool {
        &&& a.text_len >= self.min_text_len
        &&& b.text_len >= self.min_text_len
        &&& bit_distance(a.fingerprint, b.fingerprint) <= self.hamming_threshold
        &&& a.table@ == b.table@
    }

    /// Whether one of the places holds a result that `x` says again.
    pub open spec fn repeats(self, pool: Seq<PoolItem>, kept: Seq<usize>, x: PoolItem) -> bool {
        exists|j: int| 0 <= j < kept.len() && self.near(pool[(#[trigger] kept[j]) as int], x)
    }

    /// The places that are left of an order: each whose result says nothing again
    /// that one of the places kept before it says.
    pub open spec fn distinct(self, pool: Seq<PoolItem>, order: Seq<usize>) -> Seq<usize>
        decreases order.len(),
    {
        if order.len() == 0 {
            Seq::empty()
        } else {
            let kept = self.distinct(pool, order.drop_last());
            if self.repeats(pool, kept, pool[order.last() as int]) {
                kept
            } else {
                kept.push(order.last())
            }
        }
    }
}

/// Drops the results that say again what a better one says, in the same table.
pub fn collapse_near_duplicates(
    pool: &Vec<PoolItem>,
    order: &Vec<usize>,
    cfg: DedupConfig,
) -> (r: Vec<usize>)
    requires
        forall|i: int| 0 <= i < order@.len() ==> (#[trigger] order@[i]) < pool@.len(),
    ensures
        r@ == cfg.distinct(pool@, order@),
{
    let mut kept: Vec<usize> = Vec::new();
    let mut i: usize = 0;
    while i < order.len()
        invariant
            i <= order@.len(),
            forall|k: int| 0 <= k < order@.len() ==> (#[trigger] order@[k]) < pool@.len(),
            forall|k: int| 0 <= k < kept@.len() ==> (#[trigger] kept@[k]) < pool@.len(),
            kept@ == cfg.distinct(pool@, order@.take(i as int)),
        decreases order@.len() - i,
    {
        assert(order@.take(i + 1).drop_last() =~= order@.take(i as int));
        let at = order[i];
        let x = &pool[at];
        let mut again = false;
        let mut j: usize = 0;
        while j < kept.len()
            invariant
                j <= kept@.len(),
                *x == pool@[at as int],
                forall|k: int| 0 <= k < kept@.len() ==> (#[trigger] kept@[k]) < pool@.len(),
                again == exists|k: int|
                    0 <= k < j && cfg.near(pool@[(#[trigger] kept@[k]) as int], *x),
            decreases kept@.len() - j,
        {
            let k = &pool[kept[j]];
            if k.text_len >= cfg.min_text_len && x.text_len >= cfg.min_text_len && hamming(
                k.fingerprint,
                x.fingerprint,
            ) <= cfg.hamming_threshold && same_text(k.table.as_str(), x.table.as_str()) {
                again = true;
            }
            j += 1;
        }
        if !again {
            kept.push(at);
        }
        i += 1;
    }
    assert(order@.take(i as int) =~= order@);
    kept
}

/// The places of a pool, from the highest score down.
pub fn order_by_score(pool: &Vec<PoolItem>) -> (r: Vec<usize>)
    ensures
        r@ == by_score(pool@),
        r@.len() == pool@.len(),
        forall|i: int| 0 <= i < r@.len() ==> (#[trigger] r@[i]) < pool@.len(),
{
    let mut all: Vec<Placed> = Vec::new();
    let mut i: usize = 0;
    while i < pool.len()
        invariant
            i <= pool@.len(),
            all@ == placed(pool@).take(i as int),
        decreases pool@.len() - i,
    {
        all.push(Placed { score: pool[i].score, index: i });
        i += 1;
        assert(all@ =~= placed(pool@).take(i as int));
    }
    assert(all@ =~= placed(pool@));
    let sorted = sort_ranked(all);
    proof {
        sorting_orders_the_items(placed(pool@));
    }
    let mut out: Vec<usize> = Vec::new();
    let mut k: usize = 0;
    while k < sorted.len()
        invariant
            k <= sorted@.len(),
            out@ == sorted@.take(k as int).map_values(|p: Placed| p.index),
        decreases sorted@.len() - k,
    {
        out.push(sorted[k].index);
        k += 1;
        assert(out@ =~= sorted@.take(k as int).map_values(|p: Placed| p.index));
    }
    assert(sorted@.take(k as int) =~= sorted@);
    proof {
        assert forall|i: int| 0 <= i < out@.len() implies (#[trigger] out@[i]) < pool@.len() by {
            let p = sorted@[i];
            crate::order::lemma_ranked_contains(placed(pool@), p);
            assert(sorted@.contains(p));
            let j = choose|j: int| 0 <= j < placed(pool@).len() && placed(pool@)[j] == p;
            assert(p.index == j);
        }
    }
    out
}

impl RecallFilter {
    /// Whether a result may be returned.
    pub open spec fn admits_item(self, x: PoolItem) -> bool {
        self.admits(x.data.model(), x.confidence, x.importance)
    }
}

/// The places of the results that may be returned, from the highest score down,
/// without repetitions where they are collapsed.
pub open spec fn recalled(
    pool: Seq<PoolItem>,
    filter: RecallFilter,
    dedup: Option<DedupConfig>,
) -> Seq<usize> {
    let order = by_score(pool).filter(|i: usize| filter.admits_item(pool[i as int]));
    match dedup {
        Some(cfg) => cfg.distinct(pool, order),
        None => order,
    }
}

/// How many results a query returns at most: `top_k`, or as many as its cut was moved
/// to.
pub open spec fn cut_at(top_k: usize, widened: Option<usize>) -> usize {
    match widened {
        Some(w) => w,
        None => top_k,
    }
}

/// The first `n` places, or all where there are fewer.
pub open spec fn first_places(order: Seq<usize>, n: int) -> Seq<usize> {
    if n < order.len() {
        order.take(n)
    } else {
        order
    }
}

impl Axil {
    /// The places of the results that may be returned, from the highest score down,
    /// without repetitions where they are collapsed.
    pub fn recall_order(
        pool: &Vec<PoolItem>,
        filter: &RecallFilter,
        dedup: Option<DedupConfig>,
    ) -> (r: Vec<usize>)
        ensures
            r@ == recalled(pool@, *filter, dedup),
            forall|i: int| 0 <= i < r@.len() ==> (#[trigger] r@[i]) < pool@.len(),
    {
        let all = order_by_score(pool);
        let ghost keep = |i: usize| filter.admits_item(pool@[i as int]);
        let mut order: Vec<usize> = Vec::new();
        let mut i: usize = 0;
        proof {
            reveal(Seq::filter);
            assert(order@ =~= all@.take(0).filter(keep));
        }
        while i < all.len()
            invariant
                i <= all@.len(),
                keep == (|i: usize| filter.admits_item(pool@[i as int])),
                forall|k: int| 0 <= k < all@.len() ==> (#[trigger] all@[k]) < pool@.len(),
                forall|k: int| 0 <= k < order@.len() ==> (#[trigger] order@[k]) < pool@.len(),
                order@ == all@.take(i as int).filter(keep),
            decreases all@.len() - i,
        {
            proof {
                reveal(Seq::filter);
                assert(all@.take(i + 1).drop_last() =~= all@.take(i as int));
                assert(all@.take(i + 1).last() == all@[i as int]);
            }
            let x = &pool[all[i]];
            if filter.takes(&x.data, x.confidence, x.importance) {
                order.push(all[i]);
            }
            i += 1;
        }
        assert(all@.take(i as int) =~= all@);
        match dedup {
            Some(cfg) => {
                proof {
                    assert forall|i: int|
                        0 <= i < cfg.distinct(pool@, order@).len() implies (
                    #[trigger] cfg.distinct(pool@, order@)[i]) < pool@.len() by {
                        let x = cfg.distinct(pool@, order@)[i];
                        assert(cfg.distinct(pool@, order@).contains(x));
                        lemma_distinct_from(cfg, pool@, order@, x);
                    }
                }
                collapse_near_duplicates(pool, &order, cfg)
            },
            None => order,
        }
    }

    /// The places of the results that a query returns: of those that may be returned,
    /// from the highest score down, without repetitions where they are collapsed, the
    /// first `top_k`, or as many as the cut was moved to.
    pub fn recall_with_feedback(
        pool: &Vec<PoolItem>,
        filter: &RecallFilter,
        dedup: Option<DedupConfig>,
        top_k: usize,
        widened: Option<usize>,
    ) -> (r: Vec<usize>)
        ensures
            r@ == first_places(
                recalled(pool@, *filter, dedup),
                cut_at(top_k, widened) as int,
            ),
            forall|i: int| 0 <= i < r@.len() ==> (#[trigger] r@[i]) < pool@.len(),
    {
        let mut order = Self::recall_order(pool, filter, dedup);
        let cut = match widened {
            Some(w) => w,
            None => top_k,
        };
        if cut < order.len() {
            order.truncate(cut);
        }
        order
    }
}

impl Axil {
    /// Gathers the hits of the two engines by record, in the order of the best
    /// ranks.
    pub fn recall_candidates(vector: &Vec<Hit>, fts: &Vec<Hit>, top_k: usize) -> (r: Vec<
        RecallCandidate,
    >)
        requires
            fetch_size(top_k) + fts@.len() <= usize::MAX,
        ensures
            exists|g: Seq<RecallCandidate>| #[trigger]
                gathered(g, vector@, fts@, fetch_size(top_k)) && r@ == ranked(g),
            vector@.len() == 0 && fts@.len() == 0 ==> r@.len() == 0,
    {
        let g = Axil::gather_candidates(vector, fts, top_k);
        sort_ranked(g)
    }
}

/// Fewer characters than these say nothing of how alike texts are.
pub const WIDEN_MIN_KEPT_CHARS: usize = 64;

/// The bytes that compressing `bytes` in the zlib format at the fastest level
/// gives, where it succeeds.
pub uninterp spec fn zlib_fastest(bytes: Seq<u8>) -> Option<Seq<u8>>;

/// `flate2::write::ZlibEncoder` at level 1: `write_all`, then `finish`. What comes
/// out depends on the bytes alone.
#[verifier::external_body]
fn zlib_compress(bytes: &[u8]) -> (r: Option<Vec<u8>>)
    ensures
        match r {
            Some(v) => zlib_fastest(bytes@) == Some(v@),
            None => zlib_fastest(bytes@) is None,
        },
{
    let mut encoder = flate2::write::ZlibEncoder::new(Vec::new(), flate2::Compression::new(1));
    match std::io::Write::write_all(&mut encoder, bytes) {
        Ok(()) => encoder.finish().ok(),
        Err(_) => None,
    }
}

/// Texts on lines of their own, one below the other.
pub open spec fn lines(texts: Seq<String>) -> Seq<char>
    decreases texts.len(),
{
    if texts.len() == 0 {
        Seq::empty()
    } else if texts.len() == 1 {
        texts[0]@
    } else {
        lines(texts.drop_last()) + "\n"@ + texts.last()@
    }
}

/// The first `n` texts on lines of their own.
fn join_lines(texts: &Vec<String>, n: usize) -> (r: String)
    requires
        n <= texts@.len(),
    ensures
        r@ == lines(texts@.take(n as int)),
{
    let mut s = String::new();
    let mut i: usize = 0;
    assert(s@ =~= lines(texts@.take(0)));
    while i < n
        invariant
            i <= n <= texts@.len(),
            s@ == lines(texts@.take(i as int)),
        decreases n - i,
    {
        assert(texts@.take(i + 1).drop_last() =~= texts@.take(i as int));
        if i == 0 {
            s = texts[0].clone();
        } else {
            s.append("\n");
            s.append(texts[i].as_str());
        }
        i += 1;
    }
    s
}

/// How far a text can be compressed: its bytes, and those of its compressed form,
/// where there is one.
#[derive(Clone, Copy, Debug, PartialEq, Eq, Structural)]
pub struct Compressed {
    pub size: usize,
    pub packed: Option<usize>,
}

impl Compressed {
    /// Whether these are the sizes of a text.
    pub open spec fn measures(self, text: Seq<char>) -> bool {
        let bytes = vstd::utf8::encode_utf8(text);
        &&& self.size == bytes.len()
        &&& self.packed == match zlib_fastest(bytes) {
            Some(z) => Some(z.len() as usize),
            None => None,
        }
    }
}

/// Measures a text.
fn measure(text: &str) -> (r: Compressed)
    ensures
        r.measures(text@),
{
    let bytes = text.as_bytes();
    match zlib_compress(bytes) {
        Some(z) => Compressed { size: bytes.len(), packed: Some(z.len()) },
        None => Compressed { size: bytes.len(), packed: None },
    }
}

/// How far the texts that a cut keeps can be compressed, and all of them.
#[derive(Clone, Copy, Debug, PartialEq, Eq, Structural)]
pub struct Redundancy {
    pub kept: Compressed,
    pub pool: Compressed,
}

/// Whether the redundancy of a cut after `top_k` texts says anything: it cuts
/// something off, keeps something, and what it keeps is long enough.
pub open spec fn measurable(texts: Seq<String>, top_k: int) -> bool {
    0 < top_k < texts.len() && lines(texts.take(top_k)).len() >= WIDEN_MIN_KEPT_CHARS
}

/// Measures the texts that a cut after `top_k` of them keeps, and all of them, where
/// that says anything.
pub fn completeness_redundancy(texts: &Vec<String>, top_k: usize) -> (r: Option<Redundancy>)
    ensures
        r is Some <==> measurable(texts@, top_k as int),
        r matches Some(d) ==> d.kept.measures(lines(texts@.take(top_k as int)))
            && d.pool.measures(lines(texts@)),
{
    if top_k == 0 || texts.len() <= top_k {
        return None;
    }
    let kept = join_lines(texts, top_k);
    if chars_of(kept.as_str()).len() < WIDEN_MIN_KEPT_CHARS {
        return None;
    }
    let all = join_lines(texts, texts.len());
    assert(texts@.take(texts@.len() as int) =~= texts@);
    Some(Redundancy { kept: measure(kept.as_str()), pool: measure(all.as_str()) })
}

/// Where a cut after `top_k` of `n` results moves to: half as far again, but not
/// beyond the results, and one further at least.
pub open spec fn wider(top_k: int, n: int) -> int {
    let w = (3 * top_k + 1) / 2;
    let w = if w < n {
        w
    } else {
        n
    };
    if w > top_k {
        w
    } else {
        top_k + 1
    }
}

/// Where a cut after `top_k` of `n` results moves to, where `diverse` says that what
/// it keeps is far more redundant than the whole: the results that it cuts off say
/// something else.
pub fn completeness_widen_target(n: usize, top_k: usize, diverse: bool) -> (r: Option<usize>)
    requires
        n <= 0x8_0000_0000_0000,
    ensures
        r == if 0 < top_k < n && diverse {
            Some(wider(top_k as int, n as int) as usize)
        } else {
            None
        },
{
    if top_k == 0 || n <= top_k || !diverse {
        return None;
    }
    let w: u64 = (3 * (top_k as u64) + 1) / 2;
    let cut: usize = if w < n as u64 {
        w as usize
    } else {
        n
    };
    if cut > top_k {
        Some(cut)
    } else {
        Some(top_k + 1)
    }
}

/// A cut that is moved stays within the results, keeps more than before and at most
/// half as much again, rounded up.
pub proof fn widened_cuts_are_bounded(top_k: int, n: int)
    requires
        0 < top_k < n,
    ensures
        top_k < wider(top_k, n) <= n,
        2 * wider(top_k, n) <= 3 * top_k + 1,
{
}

/// Positions that are kept come from the order.
proof fn lemma_distinct_from(cfg: DedupConfig, pool: Seq<PoolItem>, order: Seq<usize>, x: usize)
    ensures
        cfg.distinct(pool, order).contains(x) ==> order.contains(x),
    decreases order.len(),
{
    if order.len() > 0 {
        let d = order.drop_last();
        lemma_distinct_from(cfg, pool, d, x);
        crate::text::lemma_push_contains(cfg.distinct(pool, d), order.last(), x);
        crate::text::lemma_push_contains(d, order.last(), x);
        assert(d.push(order.last()) =~= order);
    }
}

/// A result that is dropped has a better one in its place that says the same in the
/// same table.
pub proof fn dropped_results_have_a_representative(
    cfg: DedupConfig,
    pool: Seq<PoolItem>,
    order: Seq<usize>,
    i: int,
)
    requires
        0 <= i < order.len(),
        !cfg.distinct(pool, order).contains(order[i]),
    ensures
        exists|j: int|
            0 <= j < i && cfg.near(pool[(#[trigger] order[j]) as int], pool[order[i] as int])
                && cfg.distinct(pool, order).contains(order[j]),
    decreases order.len(),
{
    let d = order.drop_last();
    let kept = cfg.distinct(pool, d);
    let all = cfg.distinct(pool, order);
    assert forall|x: usize| kept.contains(x) implies all.contains(x) by {
        crate::text::lemma_push_contains(kept, order.last(), x);
    }
    if i < d.len() {
        assert(d[i] == order[i]);
        dropped_results_have_a_representative(cfg, pool, d, i);
        let j = choose|j: int|
            0 <= j < i && cfg.near(pool[(#[trigger] d[j]) as int], pool[d[i] as int])
                && kept.contains(d[j]);
        assert(order[j] == d[j]);
    } else {
        crate::text::lemma_push_contains(kept, order.last(), order.last());
        let k = choose|k: int|
            0 <= k < kept.len() && cfg.near(
                pool[(#[trigger] kept[k]) as int],
                pool[order.last() as int],
            );
        assert(kept.contains(kept[k]));
        lemma_distinct_from(cfg, pool, d, kept[k]);
        let j = choose|j: int| 0 <= j < d.len() && d[j] == kept[k];
        assert(order[j] == d[j]);
    }
}

/// No two results that are left say the same in the same table, and a result with
/// a short text is never dropped.
pub proof fn collapsed_results_are_distinct(
    cfg: DedupConfig,
    pool: Seq<PoolItem>,
    order: Seq<usize>,
)
    ensures
        forall|i: int, j: int|
            0 <= i < j < cfg.distinct(pool, order).len() ==> !cfg.near(
                pool[(#[trigger] cfg.distinct(pool, order)[i]) as int],
                pool[(#[trigger] cfg.distinct(pool, order)[j]) as int],
            ),
        forall|i: int|
            0 <= i < order.len() && pool[(#[trigger] order[i]) as int].text_len < cfg.min_text_len
                ==> cfg.distinct(pool, order).contains(order[i]),
    decreases order.len(),
{
    if order.len() > 0 {
        let d = order.drop_last();
        let kept = cfg.distinct(pool, d);
        let all = cfg.distinct(pool, order);
        collapsed_results_are_distinct(cfg, pool, d);
        assert forall|i: int, j: int| 0 <= i < j < all.len() implies !cfg.near(
            pool[(#[trigger] all[i]) as int],
            pool[(#[trigger] all[j]) as int],
        ) by {
            assert(all[i] == kept[i]);
            if j < kept.len() {
                assert(all[j] == kept[j]);
            }
        }
        assert forall|i: int|
            0 <= i < order.len() && pool[(#[trigger] order[i]) as int].text_len
                < cfg.min_text_len implies all.contains(order[i]) by {
            crate::text::lemma_push_contains(kept, order.last(), order[i]);
            if i < d.len() {
                assert(d[i] == order[i]);
            }
        }
    }
}

/// What a query returns comes from the highest score down.
pub proof fn results_come_by_score(pool: Seq<PoolItem>)
    requires
        pool.len() <= usize::MAX,
    ensures
        by_score(pool).len() == pool.len(),
        forall|i: int, j: int|
            0 <= i < j < pool.len() ==> pool[(#[trigger] by_score(pool)[i]) as int].score
                >= pool[(#[trigger] by_score(pool)[j]) as int].score,
{
    let p = placed(pool);
    let r = ranked(p);
    sorting_orders_the_items(p);
    assert forall|i: int| 0 <= i < r.len() implies pool[(#[trigger] r[i]).index as int].score
        == r[i].score by {
        crate::order::lemma_ranked_contains(p, r[i]);
        assert(r.contains(r[i]));
        let j = choose|j: int| 0 <= j < p.len() && p[j] == r[i];
        assert(p[j].score == pool[j].score);
    }
    assert forall|i: int, j: int| 0 <= i < j < pool.len() implies pool[(
    #[trigger] by_score(pool)[i]) as int].score >= pool[(
    #[trigger] by_score(pool)[j]) as int].score by {
        assert(!r[j].before(r[i]));
    }
}

/// Whether places of a pool come from the highest score down, each once.
pub open spec fn well_placed(pool: Seq<PoolItem>, order: Seq<usize>) -> bool {
    &&& forall|i: int| 0 <= i < order.len() ==> (#[trigger] order[i]) < pool.len()
    &&& forall|i: int, j: int|
        0 <= i < j < order.len() ==> (#[trigger] order[i]) != (#[trigger] order[j])
            && pool[order[i] as int].score >= pool[order[j] as int].score
}

/// A query returns at most as many results as its cut, from the highest score down,
/// each once, and only such as may be returned. Where no two results of the pool are
/// of one record, no two that are returned are; from an empty pool none are.
pub proof fn recalls_keep_to_their_bounds(
    pool: Seq<PoolItem>,
    filter: RecallFilter,
    dedup: Option<DedupConfig>,
    top_k: usize,
    widened: Option<usize>,
)
    requires
        pool.len() <= usize::MAX,
    ensures
        ({
            let r = first_places(recalled(pool, filter, dedup), cut_at(top_k, widened) as int);
            &&& r.len() <= cut_at(top_k, widened)
            &&& r.len() <= pool.len()
            &&& well_placed(pool, r)
            &&& forall|i: int|
                0 <= i < r.len() ==> filter.admits_item(pool[(#[trigger] r[i]) as int])
            &&& (forall|i: int, j: int|
                0 <= i < j < pool.len() ==> (#[trigger] pool[i]).id@ != (#[trigger] pool[j]).id@)
                ==> forall|i: int, j: int|
                0 <= i < j < r.len() ==> pool[(#[trigger] r[i]) as int].id@ != pool[(
                #[trigger] r[j]) as int].id@
        }),
{
    let keep = |i: usize| filter.admits_item(pool[i as int]);
    let order = by_score(pool).filter(keep);
    let all = recalled(pool, filter, dedup);
    let r = first_places(all, cut_at(top_k, widened) as int);
    lemma_by_score_placed(pool);
    lemma_filter_placed(pool, by_score(pool), keep);
    lemma_distinct_placed(pool, order, dedup);
    assert forall|i: int| 0 <= i < r.len() implies filter.admits_item(
        pool[(#[trigger] r[i]) as int],
    ) by {
        assert(r[i] == all[i]);
        assert(all.contains(all[i]));
        assert(order.contains(all[i]));
        let k = choose|k: int| 0 <= k < order.len() && order[k] == r[i];
        by_score(pool).lemma_filter_pred(keep, k);
    }
    assert forall|i: int, j: int|
        (forall|a: int, b: int|
            0 <= a < b < pool.len() ==> (#[trigger] pool[a]).id@ != (#[trigger] pool[b]).id@) && 0
            <= i < j < r.len() implies pool[(#[trigger] r[i]) as int].id@ != pool[(
    #[trigger] r[j]) as int].id@ by {
        assert(r[i] != r[j]);
    }
    by_score(pool).lemma_filter_len(keep);
    results_come_by_score(pool);
}

/// The places by score are well placed.
proof fn lemma_by_score_placed(pool: Seq<PoolItem>)
    requires
        pool.len() <= usize::MAX,
    ensures
        well_placed(pool, by_score(pool)),
{
    let p = placed(pool);
    let r = ranked(p);
    sorting_orders_the_items(p);
    results_come_by_score(pool);
    assert(p.no_duplicates()) by {
        assert forall|i: int, j: int| 0 <= i < p.len() && 0 <= j < p.len() && i != j implies p[i]
            != p[j] by {
            assert(p[i].index == i && p[j].index == j);
        }
    }
    p.lemma_multiset_has_no_duplicates();
    r.lemma_multiset_has_no_duplicates_conv();
    assert forall|i: int| 0 <= i < r.len() implies (#[trigger] r[i]).index < pool.len() && r[i]
        == p[r[i].index as int] by {
        crate::order::lemma_ranked_contains(p, r[i]);
        assert(r.contains(r[i]));
        let j = choose|j: int| 0 <= j < p.len() && p[j] == r[i];
        assert(p[j].index == j);
    }
    assert forall|i: int, j: int| 0 <= i < j < r.len() implies (#[trigger] by_score(pool)[i])
        != (#[trigger] by_score(pool)[j]) by {
        assert(r[i] != r[j]);
    }
}

/// What is left of well placed places is well placed when the last of them is added.
proof fn lemma_placed_push(pool: Seq<PoolItem>, order: Seq<usize>, kept: Seq<usize>)
    requires
        order.len() > 0,
        well_placed(pool, order),
        well_placed(pool, kept),
        forall|x: usize| kept.contains(x) ==> order.drop_last().contains(x),
    ensures
        well_placed(pool, kept.push(order.last())),
{
    let all = kept.push(order.last());
    assert forall|i: int, j: int| 0 <= i < j < all.len() implies (#[trigger] all[i])
        != (#[trigger] all[j]) && pool[all[i] as int].score >= pool[all[j] as int].score by {
        assert(all[i] == kept[i]);
        if j == kept.len() {
            assert(kept.contains(kept[i]));
            let k = choose|k: int| 0 <= k < order.len() - 1 && order.drop_last()[k] == kept[i];
            assert(order[k] == kept[i]);
            assert(order[order.len() - 1] == all[j]);
        } else {
            assert(all[j] == kept[j]);
        }
    }
}

/// Leaving out places keeps the others well placed.
proof fn lemma_filter_placed(pool: Seq<PoolItem>, order: Seq<usize>, keep: spec_fn(usize) -> bool)
    requires
        well_placed(pool, order),
    ensures
        well_placed(pool, order.filter(keep)),
    decreases order.len(),
{
    reveal(Seq::filter);
    if order.len() > 0 {
        let d = order.drop_last();
        assert forall|i: int, j: int| 0 <= i < j < d.len() implies (#[trigger] d[i])
            != (#[trigger] d[j]) && pool[d[i] as int].score >= pool[d[j] as int].score by {
            assert(d[i] == order[i] && d[j] == order[j]);
        }
        lemma_filter_placed(pool, d, keep);
        if keep(order.last()) {
            assert forall|x: usize| d.filter(keep).contains(x) implies d.contains(x) by {
                d.lemma_filter_contains_rev(keep, x);
            }
            lemma_placed_push(pool, order, d.filter(keep));
        }
    }
}

/// Collapsing repetitions keeps the others well placed.
proof fn lemma_distinct_placed(pool: Seq<PoolItem>, order: Seq<usize>, dedup: Option<DedupConfig>)
    requires
        well_placed(pool, order),
    ensures
        ({
            let all = match dedup {
                Some(cfg) => cfg.distinct(pool, order),
                None => order,
            };
            &&& well_placed(pool, all)
            &&& all.len() <= order.len()
            &&& forall|x: usize| all.contains(x) ==> order.contains(x)
        }),
    decreases order.len(),
{
    if let Some(cfg) = dedup {
        assert forall|x: usize| cfg.distinct(pool, order).contains(x) implies order.contains(x) by {
            lemma_distinct_from(cfg, pool, order, x);
        }
        if order.len() > 0 {
            let d = order.drop_last();
            assert forall|i: int, j: int| 0 <= i < j < d.len() implies (#[trigger] d[i])
                != (#[trigger] d[j]) && pool[d[i] as int].score >= pool[d[j] as int].score by {
                assert(d[i] == order[i] && d[j] == order[j]);
            }
            lemma_distinct_placed(pool, d, dedup);
            lemma_placed_push(pool, order, cfg.distinct(pool, d));
        }
    }
}

/// The candidates among the records that can be reached from one, without itself.
pub open spec fn close_candidates(
    id: Seq<char>,
    reached: Seq<RecordId>,
    candidates: Set<Seq<char>>,
) -> Set<Seq<char>> {
    ids_view(reached).to_set().intersect(candidates).remove(id)
}

/// How close a candidate is to the others: the number of those that can be reached
/// from it, of all. There is nothing to say of a single candidate, or where none is
/// reached.
pub open spec fn proximity(
    id: Seq<char>,
    reached: Seq<RecordId>,
    candidates: Set<Seq<char>>,
) -> Option<Ratio> {
    let n = close_candidates(id, reached, candidates).len();
    if candidates.len() > 1 && n > 0 {
        Some(Ratio { part: n as usize, whole: candidates.len() as usize })
    } else {
        None
    }
}

/// How many candidates can be reached from one.
fn count_close(id: &RecordId, reached: &Vec<RecordId>, candidates: &StringHashSet) -> (n: usize)
    ensures
        n == close_candidates(id@, reached@, candidates@).len(),
{
    let mut seen = StringHashSet::new();
    let mut n: usize = 0;
    let mut i: usize = 0;
    let ghost all = ids_view(reached@);
    while i < reached.len()
        invariant
            i <= reached@.len(),
            n <= i,
            all == ids_view(reached@),
            seen@.finite(),
            seen@.len() == n,
            seen@ == close_candidates(id@, reached@.take(i as int), candidates@),
        decreases reached@.len() - i,
    {
        let x = &reached[i];
        let ghost before = seen@;
        if candidates.contains(x.as_str()) && !x.same(id) {
            if seen.insert(x.0.clone()) {
                n += 1;
            }
        }
        proof {
            let prev = ids_view(reached@.take(i as int));
            let next = ids_view(reached@.take(i + 1));
            assert(next =~= prev.push(x@));
            assert forall|k: Seq<char>| next.contains(k) <==> prev.contains(k) || k == x@ by {
                crate::text::lemma_push_contains(prev, x@, k);
            }
            assert(seen@ =~= close_candidates(id@, reached@.take(i + 1), candidates@));
        }
        i += 1;
    }
    assert(reached@.take(i as int) =~= reached@);
    n
}

/// How close each candidate is to the others, from the records that can be reached
/// from each within two steps.
pub fn compute_graph_proximity(
    candidates: &Vec<RecordId>,
    reached: &Vec<Vec<RecordId>>,
) -> (r: Vec<Option<Ratio>>)
    requires
        candidates@.len() == reached@.len(),
    ensures
        r@.len() == candidates@.len(),
        forall|i: int|
            0 <= i < r@.len() ==> (#[trigger] r@[i]) == proximity(
                candidates@[i]@,
                reached@[i]@,
                ids_view(candidates@).to_set(),
            ),
{
    let ids = id_set(candidates);
    assert(ids@ =~= ids_view(candidates@).to_set());
    let whole = ids.len();
    let mut out: Vec<Option<Ratio>> = Vec::new();
    let mut i: usize = 0;
    while i < candidates.len()
        invariant
            i <= candidates@.len(),
            candidates@.len() == reached@.len(),
            ids@ == ids_view(candidates@).to_set(),
            whole == ids@.len(),
            out@.len() == i,
            forall|j: int|
                0 <= j < i ==> (#[trigger] out@[j]) == proximity(
                    candidates@[j]@,
                    reached@[j]@,
                    ids_view(candidates@).to_set(),
                ),
        decreases candidates@.len() - i,
    {
        let n = count_close(&candidates[i], &reached[i], &ids);
        if whole > 1 && n > 0 {
            out.push(Some(Ratio { part: n, whole }));
        } else {
            out.push(None);
        }
        i += 1;
    }
    out
}

/// A record is admitted where its scope is one of those asked for, whichever, and it
/// reaches the limits. One that names no scope is in that of the project. Without scopes
/// all are admitted, and none whose scope is not asked for is.
pub proof fn records_in_any_scope_are_admitted(
    filter: RecallFilter,
    data: Json,
    confidence: i32,
    importance: i32,
)
    requires
        filter.min_confidence matches Some(c) ==> confidence >= c,
        filter.min_importance matches Some(m) ==> importance >= m,
    ensures
        filter.scopes@.len() == 0 ==> filter.admits(data, confidence, importance),
        forall|i: int|
            0 <= i < filter.scopes@.len() && data.member("_scope"@) == Some(
                Json::Text((#[trigger] filter.scopes@[i])@),
            ) ==> filter.admits(data, confidence, importance),
        forall|i: int|
            0 <= i < filter.scopes@.len() && data.member("_scope"@) is None && (
            #[trigger] filter.scopes@[i])@ == "project"@ ==> filter.admits(
                data,
                confidence,
                importance,
            ),
        filter.scopes@.len() > 0 && (forall|i: int|
            0 <= i < filter.scopes@.len() ==> data.member("_scope"@) != Some(
                Json::Text((#[trigger] filter.scopes@[i])@),
            ) && filter.scopes@[i]@ != "project"@) ==> !filter.admits(data, confidence, importance),
        data.member("_scope"@) matches Some(Json::Text(s)) && filter.scopes@.len() > 0 && (forall|
            i: int,
        | 0 <= i < filter.scopes@.len() ==> (#[trigger] filter.scopes@[i])@ != s)
            ==> !filter.admits(data, confidence, importance),
{
}

/// Records below a limit are not admitted, whatever their scope.
pub proof fn limits_are_lower_bounds(
    filter: RecallFilter,
    data: Json,
    confidence: i32,
    importance: i32,
)
    ensures
        filter.min_confidence matches Some(c) && confidence < c ==> !filter.admits(
            data,
            confidence,
            importance,
        ),
        filter.min_importance matches Some(m) && importance < m ==> !filter.admits(
            data,
            confidence,
            importance,
        ),
        forall|c: i32, m: i32|
            c >= confidence && m >= importance && filter.admits(data, confidence, importance)
                ==> #[trigger] filter.admits(data, c, m),
{
}

/// The order of the scopes makes no difference, and more scopes admit no less: where one
/// filter has every scope of another and no higher limits, it admits what that admits,
/// unless the other one had no scopes at all.
pub proof fn more_scopes_admit_no_less(
    few: RecallFilter,
    many: RecallFilter,
    data: Json,
    confidence: i32,
    importance: i32,
)
    requires
        few.scopes@.len() > 0 || many.scopes@.len() == 0,
        forall|i: int|
            0 <= i < few.scopes@.len() ==> exists|j: int|
                0 <= j < many.scopes@.len() && (#[trigger] many.scopes@[j])@ == (
                #[trigger] few.scopes@[i])@,
        many.min_confidence == few.min_confidence,
        many.min_importance == few.min_importance,
        few.admits(data, confidence, importance),
    ensures
        many.admits(data, confidence, importance),
{
    if few.scopes@.len() > 0 {
        let i = choose|i: int|
            0 <= i < few.scopes@.len() && (#[trigger] few.scopes@[i])@ == scope_of(data);
        let j = choose|j: int|
            0 <= j < many.scopes@.len() && (#[trigger] many.scopes@[j])@ == few.scopes@[i]@;
        assert(many.scopes@[j]@ == scope_of(data));
    }
}

/// Where the places of a pool stand, by score: every place is there, and of equal scores
/// the one that comes first in the pool stays first.
proof fn lemma_every_place_by_score(pool: Seq<PoolItem>, k: int)
    requires
        pool.len() <= usize::MAX,
        0 <= k < pool.len(),
    ensures
        by_score(pool).contains(k as usize),
{
    let p = placed(pool);
    sorting_orders_the_items(p);
    assert(p[k].index == k);
    assert(p.contains(p[k]));
    crate::order::lemma_ranked_contains(p, p[k]);
    let i = choose|i: int| 0 <= i < ranked(p).len() && ranked(p)[i] == p[k];
    assert(by_score(pool)[i] == k as usize);
}

/// What a filter keeps of places is in what is left.
proof fn lemma_kept_places(s: Seq<usize>, keep: spec_fn(usize) -> bool, x: usize)
    requires
        s.contains(x),
        keep(x),
    ensures
        s.filter(keep).contains(x),
    decreases s.len(),
{
    reveal(Seq::filter);
    let d = s.drop_last();
    let i = choose|i: int| 0 <= i < s.len() && s[i] == x;
    crate::text::lemma_push_contains(d.filter(keep), s.last(), x);
    if i < d.len() {
        assert(d[i] == x);
        lemma_kept_places(d, keep, x);
    }
}

/// A result that may be returned is returned, unless it says again what a result that is
/// not worse says, or as many results as asked for are returned and none of them is worse.
/// The result may be returned where its scope is asked for and it reaches the limits.
pub proof fn the_best_results_are_returned(
    pool: Seq<PoolItem>,
    filter: RecallFilter,
    dedup: Option<DedupConfig>,
    top_k: usize,
    k: int,
)
    requires
        pool.len() <= usize::MAX,
        0 <= k < pool.len(),
        filter.min_confidence matches Some(c) ==> pool[k].confidence >= c,
        filter.min_importance matches Some(m) ==> pool[k].importance >= m,
        filter.scopes@.len() == 0 || exists|i: int|
            0 <= i < filter.scopes@.len() && pool[k].data.model().member("_scope"@) == Some(
                Json::Text((#[trigger] filter.scopes@[i])@),
            ),
    ensures
        ({
            let r = first_places(recalled(pool, filter, dedup), cut_at(top_k, None) as int);
            ||| r.contains(k as usize)
            ||| r.len() == top_k && forall|i: int|
                0 <= i < r.len() ==> pool[(#[trigger] r[i]) as int].score >= pool[k].score
            ||| exists|j: int|
                0 <= j < pool.len() && j != k && (#[trigger] pool[j]).score >= pool[k].score
                    && pool[j].table@ == pool[k].table@ && (dedup matches Some(d) && bit_distance(
                    pool[j].fingerprint,
                    pool[k].fingerprint,
                ) <= d.hamming_threshold && pool[j].text_len >= d.min_text_len && pool[k].text_len
                    >= d.min_text_len)
        }),
{
    let keep = |i: usize| filter.admits_item(pool[i as int]);
    let order = by_score(pool).filter(keep);
    let all = recalled(pool, filter, dedup);
    let r = first_places(all, cut_at(top_k, None) as int);
    lemma_every_place_by_score(pool, k);
    assert(keep(k as usize)) by {
        records_in_any_scope_are_admitted(
            filter,
            pool[k].data.model(),
            pool[k].confidence,
            pool[k].importance,
        );
    }
    lemma_kept_places(by_score(pool), keep, k as usize);
    lemma_by_score_placed(pool);
    lemma_filter_placed(pool, by_score(pool), keep);
    lemma_distinct_placed(pool, order, dedup);
    let at = choose|i: int| 0 <= i < order.len() && order[i] == k as usize;
    if all.contains(k as usize) {
        let n = choose|n: int| 0 <= n < all.len() && all[n] == k as usize;
        if n < r.len() {
            assert(r[n] == k as usize);
        } else {
            assert forall|i: int| 0 <= i < r.len() implies pool[(#[trigger] r[i]) as int].score
                >= pool[k].score by {
                assert(r[i] == all[i]);
            }
        }
    } else {
        let cfg = dedup->0;
        dropped_results_have_a_representative(cfg, pool, order, at);
        let j = choose|j: int|
            0 <= j < at && cfg.near(pool[(#[trigger] order[j]) as int], pool[order[at] as int])
                && cfg.distinct(pool, order).contains(order[j]);
        assert(order[j] != order[at]);
        assert(pool[order[j] as int].score >= pool[k].score);
    }
}

/// Nothing else is returned: every result is in a scope that was asked for and reaches the
/// limits, and no two results of a table with long texts are alike.
pub proof fn only_what_was_asked_for_is_returned(
    pool: Seq<PoolItem>,
    filter: RecallFilter,
    dedup: Option<DedupConfig>,
    top_k: usize,
    widened: Option<usize>,
)
    requires
        pool.len() <= usize::MAX,
    ensures
        ({
            let r = first_places(recalled(pool, filter, dedup), cut_at(top_k, widened) as int);
            &&& widened is None ==> r.len() <= top_k
            &&& widened matches Some(w) ==> r.len() <= w
            &&& forall|n: int|
                #![trigger r[n]]
                0 <= n < r.len() ==> {
                    let x = pool[r[n] as int];
                    &&& filter.min_confidence matches Some(c) ==> x.confidence >= c
                    &&& filter.min_importance matches Some(m) ==> x.importance >= m
                    &&& filter.scopes@.len() == 0 || exists|i: int|
                        0 <= i < filter.scopes@.len() && (x.data.model().member("_scope"@) == Some(
                            Json::Text((#[trigger] filter.scopes@[i])@),
                        ) || filter.scopes@[i]@ == "project"@)
                }
            &&& forall|n: int, m: int|
                0 <= n < m < r.len() ==> pool[(#[trigger] r[n]) as int].score >= pool[(
                #[trigger] r[m]) as int].score && r[n] != r[m]
            &&& dedup matches Some(d) ==> forall|n: int, m: int|
                #![trigger r[n], r[m]]
                0 <= n < m < r.len() ==> {
                    let (x, y) = (pool[r[n] as int], pool[r[m] as int]);
                    ||| x.table@ != y.table@
                    ||| x.text_len < d.min_text_len
                    ||| y.text_len < d.min_text_len
                    ||| bit_distance(x.fingerprint, y.fingerprint) > d.hamming_threshold
                }
        }),
{
    let r = first_places(recalled(pool, filter, dedup), cut_at(top_k, widened) as int);
    let all = recalled(pool, filter, dedup);
    recalls_keep_to_their_bounds(pool, filter, dedup, top_k, widened);
    assert forall|n: int| #![trigger r[n]] 0 <= n < r.len() implies {
        let x = pool[r[n] as int];
        &&& filter.min_confidence matches Some(c) ==> x.confidence >= c
        &&& filter.min_importance matches Some(m) ==> x.importance >= m
        &&& filter.scopes@.len() == 0 || exists|i: int|
            0 <= i < filter.scopes@.len() && (x.data.model().member("_scope"@) == Some(
                Json::Text((#[trigger] filter.scopes@[i])@),
            ) || filter.scopes@[i]@ == "project"@)
    } by {
        let x = pool[r[n] as int];
        assert(filter.admits_item(x));
        if filter.scopes@.len() > 0 {
            let i = choose|i: int|
                0 <= i < filter.scopes@.len() && (#[trigger] filter.scopes@[i])@ == scope_of(
                    x.data.model(),
                );
            assert(filter.scopes@[i]@ == scope_of(x.data.model()));
        }
    }
    if let Some(d) = dedup {
        let order = by_score(pool).filter(|i: usize| filter.admits_item(pool[i as int]));
        collapsed_results_are_distinct(d, pool, order);
        assert forall|n: int, m: int| #![trigger r[n], r[m]] 0 <= n < m < r.len() implies {
            let (x, y) = (pool[r[n] as int], pool[r[m] as int]);
            ||| x.table@ != y.table@
            ||| x.text_len < d.min_text_len
            ||| y.text_len < d.min_text_len
            ||| bit_distance(x.fingerprint, y.fingerprint) > d.hamming_threshold
        } by {
            assert(r[n] == all[n] && r[m] == all[m]);
            assert(!d.near(pool[all[n] as int], pool[all[m] as int]));
        }
    }
}

/// A query returns a result of the pool whose scope is any of those asked for and that
/// reaches the limits, unless a result that is not worse says the same, or the query
/// returned as many as it was asked for and none of them is worse. What it returns comes
/// from the highest score down.
pub proof fn queries_return_the_best_in_their_scopes(
    pool: &Vec<PoolItem>,
    filter: &RecallFilter,
    dedup: Option<DedupConfig>,
    top_k: usize,
    r: Vec<usize>,
    k: int,
    s: int,
)
    requires
        call_ensures(Axil::recall_with_feedback, (pool, filter, dedup, top_k, None), r),
        0 <= k < pool@.len(),
        filter.min_confidence matches Some(c) ==> pool@[k].confidence >= c,
        filter.min_importance matches Some(m) ==> pool@[k].importance >= m,
        0 <= s < filter.scopes@.len(),
        pool@[k].data.model().member("_scope"@) == Some(Json::Text(filter.scopes@[s]@)),
    ensures
        ({
            ||| r@.contains(k as usize)
            ||| r@.len() == top_k && forall|i: int|
                0 <= i < r@.len() ==> pool@[(#[trigger] r@[i]) as int].score >= pool@[k].score
            ||| exists|j: int|
                0 <= j < pool@.len() && j != k && (#[trigger] pool@[j]).score >= pool@[k].score
                    && pool@[j].table@ == pool@[k].table@ && (dedup matches Some(d) && bit_distance(
                    pool@[j].fingerprint,
                    pool@[k].fingerprint,
                ) <= d.hamming_threshold && pool@[j].text_len >= d.min_text_len && pool@[k].text_len
                    >= d.min_text_len)
        }),
        forall|i: int, j: int|
            0 <= i < j < r@.len() ==> pool@[(#[trigger] r@[i]) as int].score >= pool@[(
            #[trigger] r@[j]) as int].score,
{
    assert(pool.len() == pool@.len());
    the_best_results_are_returned(pool@, *filter, dedup, top_k, k);
    only_what_was_asked_for_is_returned(pool@, *filter, dedup, top_k, None);
}

/// A query without a limit that is asked for as many results as the pool has, and does not
/// collapse repetitions, returns exactly the results in the scopes asked for, whatever
/// order the scopes come in.
pub proof fn wide_queries_return_every_scope(
    pool: &Vec<PoolItem>,
    filter: &RecallFilter,
    top_k: usize,
    r: Vec<usize>,
    k: int,
)
    requires
        call_ensures(Axil::recall_with_feedback, (pool, filter, None, top_k, None), r),
        0 <= k < pool@.len() <= top_k,
        filter.min_confidence is None,
        filter.min_importance is None,
        filter.scopes@.len() > 0,
    ensures
        pool@[k].data.model().member("_scope"@) matches Some(Json::Text(t)) ==> (r@.contains(
            k as usize,
        ) <==> exists|s: int| 0 <= s < filter.scopes@.len() && (#[trigger] filter.scopes@[s])@ == t),
        pool@[k].data.model().member("_scope"@) is None ==> (r@.contains(k as usize)
            <==> exists|s: int|
            0 <= s < filter.scopes@.len() && (#[trigger] filter.scopes@[s])@ == "project"@),
{
    let p = pool@;
    assert(pool.len() == p.len());
    let keep = |i: usize| filter.admits_item(p[i as int]);
    let order = by_score(p).filter(keep);
    results_come_by_score(p);
    by_score(p).lemma_filter_len(keep);
    assert(r@ == order);
    lemma_every_place_by_score(p, k);
    if filter.admits_item(p[k]) {
        lemma_kept_places(by_score(p), keep, k as usize);
    }
    if order.contains(k as usize) {
        let n = choose|n: int| 0 <= n < order.len() && order[n] == k as usize;
        by_score(p).lemma_filter_pred(keep, n);
    }
    assert(r@.contains(k as usize) <==> filter.admits_item(p[k]));
}

/// Of results with one score, the one that comes first in the pool is returned first.
pub proof fn ties_keep_their_order(pool: Seq<PoolItem>, i: int, j: int)
    requires
        pool.len() <= usize::MAX,
        0 <= i < j < pool.len(),
        pool[by_score(pool)[i] as int].score == pool[by_score(pool)[j] as int].score,
    ensures
        by_score(pool)[i] < by_score(pool)[j],
{
    let p = placed(pool);
    sorting_orders_the_items(p);
    assert(placed(pool).take(pool.len() as int) =~= p);
    lemma_stable(pool, pool.len(), i, j);
}

/// Sorting the first results keeps those of one score in their order, and takes their
/// scores along.
proof fn lemma_stable(pool: Seq<PoolItem>, n: nat, i: int, j: int)
    requires
        n <= pool.len() <= usize::MAX,
        0 <= i < j < ranked(placed(pool).take(n as int)).len(),
    ensures
        ranked(placed(pool).take(n as int)).len() == n,
        ranked(placed(pool).take(n as int))[i].index < n,
        ranked(placed(pool).take(n as int))[j].index < n,
        ranked(placed(pool).take(n as int))[i].score
            == pool[ranked(placed(pool).take(n as int))[i].index as int].score,
        ranked(placed(pool).take(n as int))[j].score
            == pool[ranked(placed(pool).take(n as int))[j].index as int].score,
        ranked(placed(pool).take(n as int))[i].score == ranked(placed(pool).take(n as int))[j].score
            ==> ranked(placed(pool).take(n as int))[i].index < ranked(
            placed(pool).take(n as int),
        )[j].index,
    decreases n,
{
    let s = placed(pool).take(n as int);
    sorting_orders_the_items(s);
    let d = s.drop_last();
    assert(d =~= placed(pool).take(n - 1));
    let before = ranked(d);
    sorting_orders_the_items(d);
    let x = s.last();
    assert(x.index == n - 1 && x.score == pool[n - 1].score);
    let at = crate::order::rank_position(before, x);
    crate::order::lemma_rank_position(before, x);
    let all = ranked(s);
    assert(all == before.insert(at, x));
    let place = |k: int|
        if k < at {
            k
        } else {
            k - 1
        };
    if i != at && j != at {
        assert(all[i] == before[place(i)] && all[j] == before[place(j)]);
        lemma_stable(pool, (n - 1) as nat, place(i), place(j));
    } else {
        let k = if i == at {
            place(j)
        } else {
            place(i)
        };
        assert(before.contains(before[k]));
        crate::order::lemma_ranked_contains(d, before[k]);
        let m = choose|m: int| 0 <= m < d.len() && d[m] == before[k];
        assert(d[m].index == m && d[m].score == pool[m].score);
        if i == at {
            assert(all[j] == before[k]);
            assert(all[i] == x);
            // What stands behind the new one has a lower score.
            assert(x.before(before[at]));
            assert(k == at || !before[k].before(before[at]));
        } else {
            assert(all[i] == before[k]);
            assert(all[j] == x);
        }
    }
}

/// The hits of a record say at which ranks it was found and how well: the best score is
/// that of one of them and no worse than any.
pub proof fn best_scores_are_the_best(hits: Seq<Hit>, id: Seq<char>)
    requires
        hits.len() <= usize::MAX,
    ensures
        forall|i: int|
            0 <= i < hits.len() ==> (#[trigger] ranks(hits, id).contains(i as usize) <==> (
            hits[i].source matches Some(s) && s@ == id)),
        forall|i: int, j: int|
            0 <= i < j < ranks(hits, id).len() ==> (#[trigger] ranks(hits, id)[i]) < (
            #[trigger] ranks(hits, id)[j]),
        forall|i: int|
            0 <= i < ranks(hits, id).len() ==> (#[trigger] ranks(hits, id)[i]) < hits.len(),
        forall|i: int|
            0 <= i < hits.len() && ((#[trigger] hits[i]).source matches Some(s) && s@ == id)
                ==> best(hits, id) is Some && best(hits, id)->0 >= hits[i].score,
        best(hits, id) matches Some(b) ==> exists|i: int|
            0 <= i < hits.len() && (#[trigger] hits[i]).score == b && (hits[i].source matches Some(
                s,
            ) && s@ == id),
    decreases hits.len(),
{
    if hits.len() > 0 {
        let d = hits.drop_last();
        let n = hits.len() - 1;
        best_scores_are_the_best(d, id);
        let before = ranks(d, id);
        assert forall|i: int| 0 <= i < hits.len() implies (#[trigger] ranks(hits, id).contains(
            i as usize,
        ) <==> (hits[i].source matches Some(s) && s@ == id)) by {
            crate::text::lemma_push_contains(before, n as usize, i as usize);
            if i < n {
                assert(d[i] == hits[i]);
                assert(before.contains(i as usize) <==> (d[i].source matches Some(s) && s@ == id));
            } else if before.contains(i as usize) {
                let k = choose|k: int| 0 <= k < before.len() && before[k] == i as usize;
                assert(before[k] < d.len());
            }
        }
        assert forall|i: int|
            0 <= i < hits.len() && ((#[trigger] hits[i]).source matches Some(s) && s@
                == id) implies best(hits, id) is Some && best(hits, id)->0 >= hits[i].score by {
            if i < n {
                assert(d[i] == hits[i]);
            }
        }
        if best(hits, id) is Some {
            let b = best(hits, id)->0;
            if hits[n].leads_to(id) && b == hits[n].score {
            } else {
                let i = choose|i: int|
                    0 <= i < d.len() && (#[trigger] d[i]).score == b && (d[i].source matches Some(
                        s,
                    ) && s@ == id);
                assert(hits[i] == d[i]);
            }
        }
    }
}

/// Each record that a hit leads to is a source, once, and nothing else is.
pub proof fn every_hit_has_a_source(hits: Seq<Hit>)
    ensures
        forall|id: Seq<char>| #[trigger]
            sources(hits).contains(id) <==> exists|i: int|
                0 <= i < hits.len() && ((#[trigger] hits[i]).source matches Some(s) && s@ == id),
        forall|i: int, j: int|
            0 <= i < j < sources(hits).len() ==> (#[trigger] sources(hits)[i]) != (
            #[trigger] sources(hits)[j]),
    decreases hits.len(),
{
    if hits.len() > 0 {
        let d = hits.drop_last();
        let n = hits.len() - 1;
        every_hit_has_a_source(d);
        assert forall|id: Seq<char>| #[trigger] sources(hits).contains(id) <==> exists|i: int|
            0 <= i < hits.len() && ((#[trigger] hits[i]).source matches Some(s) && s@ == id) by {
            if let Some(s) = hits.last().source {
                crate::text::lemma_push_contains(sources(d), s@, id);
            }
            if sources(d).contains(id) {
                let i = choose|i: int|
                    0 <= i < d.len() && ((#[trigger] d[i]).source matches Some(s) && s@ == id);
                assert(hits[i] == d[i]);
            }
            if exists|i: int|
                0 <= i < hits.len() && ((#[trigger] hits[i]).source matches Some(s) && s@ == id) {
                let i = choose|i: int|
                    0 <= i < hits.len() && ((#[trigger] hits[i]).source matches Some(s) && s@
                        == id);
                if i < n {
                    assert(d[i] == hits[i]);
                } else {
                    assert(hits[n] == hits.last());
                }
            }
        }
        assert forall|i: int, j: int| 0 <= i < j < sources(hits).len() implies (
        #[trigger] sources(hits)[i]) != (#[trigger] sources(hits)[j]) by {
            assert(sources(d)[i] == sources(hits)[i]);
            if j < sources(d).len() {
                assert(sources(d)[j] == sources(hits)[j]);
            } else {
                assert(sources(d).contains(sources(d)[i]));
            }
        }
    }
}

/// Whether one of the hits leads to a record.
pub open spec fn found_by(hits: Seq<Hit>, id: Seq<char>) -> bool {
    exists|i: int| 0 <= i < hits.len() && ((#[trigger] hits[i]).source matches Some(s) && s@ == id)
}

/// Every record that either engine found is a candidate, once, with the best score that
/// each engine gave it and no worse a place than any of its hits gives it; those of the
/// vector engine count from the front, those of the words from where as many were asked
/// for. The candidates come by their places.
pub proof fn candidates_take_the_best_of_both_engines(
    vector: &Vec<Hit>,
    fts: &Vec<Hit>,
    top_k: usize,
    r: Vec<RecallCandidate>,
)
    requires
        call_ensures(Axil::recall_candidates, (vector, fts, top_k), r),
        top_k >= 5,
        8 * top_k + fts@.len() <= usize::MAX,
    ensures
        forall|i: int|
            0 <= i < vector@.len() && (#[trigger] vector@[i]).source is Some ==> exists|c: int|
                0 <= c < r@.len() && (#[trigger] r@[c]).id@ == vector@[i].source->0@
                    && r@[c].vector_score >= vector@[i].score && r@[c].first_rank <= i,
        forall|i: int|
            0 <= i < fts@.len() && (#[trigger] fts@[i]).source is Some ==> exists|c: int|
                0 <= c < r@.len() && (#[trigger] r@[c]).id@ == fts@[i].source->0@ && r@[c].fts_score
                    >= fts@[i].score && r@[c].first_rank <= 8 * top_k + i,
        forall|c: int, d: int|
            0 <= c < d < r@.len() ==> (#[trigger] r@[c]).first_rank <= (#[trigger] r@[d]).first_rank,
        forall|c: int|
            0 <= c < r@.len() ==> found_by(vector@, (#[trigger] r@[c]).id@) || found_by(
                fts@,
                r@[c].id@,
            ),
{
    let fetch = fetch_size(top_k);
    assert(fetch == 8 * top_k);
    assert(vector.len() == vector@.len());
    assert(fts.len() == fts@.len());
    let g = choose|g: Seq<RecallCandidate>| #[trigger]
        gathered(g, vector@, fts@, fetch) && r@ == ranked(g);
    let ids = sources(vector@ + fts@);
    sorting_orders_the_items(g);
    assert forall|id: Seq<char>| ids.contains(id) implies exists|c: int|
        0 <= c < r@.len() && (#[trigger] r@[c]).id@ == id && r@[c].describes(
            vector@,
            fts@,
            fetch,
        ) by {
        let k = choose|k: int| 0 <= k < ids.len() && ids[k] == id;
        assert(g[k].id@ == ids[k]);
        assert(g.contains(g[k]));
        crate::order::lemma_ranked_contains(g, g[k]);
        let c = choose|c: int| 0 <= c < r@.len() && r@[c] == g[k];
        assert(r@[c].id@ == id);
    }
    every_hit_has_a_source(vector@ + fts@);
    assert forall|i: int|
        0 <= i < vector@.len() && (#[trigger] vector@[i]).source is Some implies exists|c: int|
        0 <= c < r@.len() && (#[trigger] r@[c]).id@ == vector@[i].source->0@ && r@[c].vector_score
            >= vector@[i].score && r@[c].first_rank <= i by {
        let id = vector@[i].source->0@;
        assert((vector@ + fts@)[i] == vector@[i]);
        assert(ids.contains(id));
        let c = choose|c: int|
            0 <= c < r@.len() && (#[trigger] r@[c]).id@ == id && r@[c].describes(
                vector@,
                fts@,
                fetch,
            );
        best_scores_are_the_best(vector@, id);
        lemma_first_rank(vector@, id, i);
        assert(r@[c].first_rank <= i);
    }
    assert forall|i: int|
        0 <= i < fts@.len() && (#[trigger] fts@[i]).source is Some implies exists|c: int|
        0 <= c < r@.len() && (#[trigger] r@[c]).id@ == fts@[i].source->0@ && r@[c].fts_score
            >= fts@[i].score && r@[c].first_rank <= 8 * top_k + i by {
        let id = fts@[i].source->0@;
        assert((vector@ + fts@)[vector@.len() + i] == fts@[i]);
        assert(ids.contains(id));
        let c = choose|c: int|
            0 <= c < r@.len() && (#[trigger] r@[c]).id@ == id && r@[c].describes(
                vector@,
                fts@,
                fetch,
            );
        best_scores_are_the_best(fts@, id);
        lemma_first_rank(fts@, id, i);
        assert(r@[c].first_rank <= 8 * top_k + i);
    }
    assert forall|c: int, d: int| 0 <= c < d < r@.len() implies (#[trigger] r@[c]).first_rank <= (
    #[trigger] r@[d]).first_rank by {
        assert(!r@[d].before(r@[c]));
    }
    assert forall|c: int| 0 <= c < r@.len() implies found_by(vector@, (#[trigger] r@[c]).id@)
        || found_by(fts@, r@[c].id@) by {
        assert(r@.contains(r@[c]));
        crate::order::lemma_ranked_contains(g, r@[c]);
        let k = choose|k: int| 0 <= k < g.len() && g[k] == r@[c];
        assert(g[k].id@ == ids[k]);
        assert(ids.contains(ids[k]));
        let both = vector@ + fts@;
        let i = choose|i: int|
            0 <= i < both.len() && ((#[trigger] both[i]).source matches Some(s) && s@ == ids[k]);
        if i < vector@.len() {
            assert(vector@[i] == both[i]);
        } else {
            assert(fts@[i - vector@.len()] == both[i]);
        }
    }
}

/// The first rank of a record is no later than any of its hits.
proof fn lemma_first_rank(hits: Seq<Hit>, id: Seq<char>, i: int)
    requires
        hits.len() <= usize::MAX,
        0 <= i < hits.len(),
        hits[i].source matches Some(s) && s@ == id,
    ensures
        ranks(hits, id).len() > 0,
        ranks(hits, id)[0] <= i,
{
    best_scores_are_the_best(hits, id);
    assert(ranks(hits, id).contains(i as usize));
    let k = choose|k: int| 0 <= k < ranks(hits, id).len() && ranks(hits, id)[k] == i as usize;
    assert(k == 0 || ranks(hits, id)[0] < ranks(hits, id)[k]);
}

/// The fingerprints of two texts differ in no bit where they are equal, and otherwise in
/// one at least, and in as many one way as the other.
pub proof fn equal_fingerprints_have_no_distance(a: u64, b: u64)
    ensures
        bit_distance(a, a) == 0,
        a != b ==> bit_distance(a, b) > 0,
        bit_distance(a, b) == bit_distance(b, a),
{
    assert(a ^ a == 0u64) by (bit_vector);
    assert(a ^ b == b ^ a) by (bit_vector);
    assert(a != b ==> a ^ b != 0u64) by (bit_vector);
    if a != b {
        lemma_some_bit((a ^ b) as nat);
    }
}

/// A number other than zero has a one in its binary form.
proof fn lemma_some_bit(n: nat)
    requires
        n > 0,
    ensures
        ones(n) > 0,
    decreases n,
{
    if n % 2 == 0 {
        lemma_some_bit(n / 2);
    }
}

/// Each bit counts: twice a number has as many ones, and one more makes one more.
pub proof fn each_bit_counts(n: nat)
    ensures
        ones(2 * n) == ones(n),
        ones(2 * n + 1) == ones(n) + 1,
        ones(0) == 0,
{
    assert((2 * n) / 2 == n && (2 * n) % 2 == 0);
    assert((2 * n + 1) / 2 == n && (2 * n + 1) % 2 == 1);
}

/// Each engine is asked for eight times as many results as are wanted, as far as that can
/// be counted, and for forty at least.
pub proof fn engines_are_asked_for_more(top_k: usize, r: usize)
    requires
        call_ensures(fetch_count, (top_k,), r),
    ensures
        r >= 40,
        r >= top_k,
        top_k <= 5 ==> r == 40,
        top_k >= 5 && top_k <= usize::MAX / 8 ==> r == 8 * top_k,
        top_k > usize::MAX / 8 ==> r == usize::MAX,
{
    if top_k <= usize::MAX / 8 {
        assert(top_k * 8 <= usize::MAX);
    } else {
        assert(top_k * 8 > usize::MAX);
    }
}

/// A cut is moved only where it cuts something off and what it keeps is far more redundant
/// than the whole, and then half as far again, or to the end.
pub proof fn cuts_move_half_as_far_again(n: usize, top_k: usize, diverse: bool, r: Option<usize>)
    requires
        call_ensures(completeness_widen_target, (n, top_k, diverse), r),
        n <= 0x8_0000_0000_0000,
    ensures
        !diverse || top_k == 0 || top_k >= n ==> r is None,
        diverse && 0 < top_k < n ==> (r matches Some(w) && top_k < w <= n && (w == n || 2 * w == 3
            * top_k || 2 * w == 3 * top_k + 1)),
{
    if 0 < top_k < n {
        widened_cuts_are_bounded(top_k as int, n as int);
    }
}

/// A candidate is as close to the others as it reaches of them, without itself. Records
/// that are no candidates make no difference.
pub proof fn closeness_counts_other_candidates(
    id: Seq<char>,
    reached: Seq<RecordId>,
    candidates: Set<Seq<char>>,
    x: Seq<char>,
)
    requires
        candidates.finite(),
        candidates.contains(id),
    ensures
        close_candidates(id, reached, candidates).contains(x) <==> x != id && candidates.contains(x)
            && exists|i: int| 0 <= i < reached.len() && (#[trigger] reached[i])@ == x,
        close_candidates(id, reached, candidates).len() < candidates.len(),
        proximity(id, reached, candidates) matches Some(p) ==> p.whole as int
            == candidates.len() as usize && p.part as int == close_candidates(
            id,
            reached,
            candidates,
        ).len() as usize && close_candidates(id, reached, candidates).len() > 0,
        proximity(id, reached, candidates) is None ==> candidates.len() <= 1 || close_candidates(
            id,
            reached,
            candidates,
        ).len() == 0,
{
    let v = ids_view(reached);
    let c = close_candidates(id, reached, candidates);
    assert(v.to_set().contains(x) <==> exists|i: int|
        0 <= i < reached.len() && (#[trigger] reached[i])@ == x) by {
        if v.contains(x) {
            let i = choose|i: int| 0 <= i < v.len() && v[i] == x;
            assert(reached[i]@ == x);
        }
        if exists|i: int| 0 <= i < reached.len() && (#[trigger] reached[i])@ == x {
            let i = choose|i: int| 0 <= i < reached.len() && (#[trigger] reached[i])@ == x;
            assert(v[i] == x);
        }
    }
    assert(c.subset_of(candidates.remove(id)));
    vstd::set_lib::lemma_len_subset(c, candidates.remove(id));
}

/// The redundancy of a cut says something where it keeps 64 characters or more, and cuts
/// something off.
pub proof fn short_texts_say_nothing(texts: Seq<String>, top_k: int)
    ensures
        measurable(texts, top_k) <==> 0 < top_k < texts.len() && lines(texts.take(top_k)).len()
            >= 64,
        texts.len() == 1 ==> lines(texts) == texts[0]@,
        texts.len() == 2 ==> lines(texts) == texts[0]@ + "\n"@ + texts[1]@,
{
    if texts.len() == 2 {
        assert(texts.drop_last().len() == 1);
        assert(texts.drop_last()[0] == texts[0]);
        assert(lines(texts.drop_last()) == texts[0]@);
    }
}

/// How close each candidate is to the others is told where there are others and some can be
/// reached from it: the number of those, of all candidates.
pub proof fn closeness_is_told_of_each_candidate(
    candidates: &Vec<RecordId>,
    reached: &Vec<Vec<RecordId>>,
    r: Vec<Option<Ratio>>,
    i: int,
)
    requires
        candidates@.len() == reached@.len(),
        call_ensures(compute_graph_proximity, (candidates, reached), r),
        0 <= i < candidates@.len(),
    ensures
        r@.len() == candidates@.len(),
        candidates@.len() == 1 ==> r@[i] is None,
        (forall|k: int|
            0 <= k < reached@[i]@.len() ==> !ids_view(candidates@).contains(
                (#[trigger] reached@[i]@[k])@,
            )) ==> r@[i] is None,
{
    let v = ids_view(candidates@);
    let s = v.to_set();
    assert(r@[i] == proximity(candidates@[i]@, reached@[i]@, s));
    assert(v[i] == candidates@[i]@);
    vstd::seq_lib::seq_to_set_is_finite(v);
    let c = close_candidates(candidates@[i]@, reached@[i]@, s);
    assert(c.finite());
    if candidates@.len() == 1 {
        assert(s =~= set![v[0]]);
        assert(c =~= Set::empty());
    }
    if forall|k: int|
        0 <= k < reached@[i]@.len() ==> !ids_view(candidates@).contains(
            (#[trigger] reached@[i]@[k])@,
        ) {
        assert forall|x: Seq<char>| !c.contains(x) by {
            closeness_counts_other_candidates(candidates@[i]@, reached@[i]@, s, x);
            if c.contains(x) {
                let k = choose|k: int|
                    0 <= k < reached@[i]@.len() && (#[trigger] reached@[i]@[k])@ == x;
                assert(!v.contains(reached@[i]@[k]@));
            }
        }
        assert(c =~= Set::empty());
    }
}

/// Of results that say nearly the same in one table the first stays and the others go; a
/// result of a table of its own, and one with a short text, always stays.
pub proof fn near_repetitions_go(
    pool: &Vec<PoolItem>,
    order: &Vec<usize>,
    cfg: DedupConfig,
    r: Vec<usize>,
    i: int,
)
    requires
        forall|k: int| 0 <= k < order@.len() ==> (#[trigger] order@[k]) < pool@.len(),
        call_ensures(collapse_near_duplicates, (pool, order, cfg), r),
        0 <= i < order@.len(),
    ensures
        pool@[order@[i] as int].text_len < cfg.min_text_len ==> r@.contains(order@[i]),
        (forall|j: int|
            #![trigger order@[j]]
            0 <= j < i ==> pool@[order@[j] as int].table@ != pool@[order@[i] as int].table@)
            ==> r@.contains(order@[i]),
        forall|a: int, b: int|
            #![trigger r@[a], r@[b]]
            0 <= a < b < r@.len() && pool@[r@[a] as int].table@ == pool@[r@[b] as int].table@
                && pool@[r@[a] as int].text_len >= cfg.min_text_len && pool@[r@[b] as int].text_len
                >= cfg.min_text_len ==> bit_distance(
                pool@[r@[a] as int].fingerprint,
                pool@[r@[b] as int].fingerprint,
            ) > cfg.hamming_threshold,
{
    collapsed_results_are_distinct(cfg, pool@, order@);
    if !r@.contains(order@[i]) {
        dropped_results_have_a_representative(cfg, pool@, order@, i);
    }
}

} // verus!
