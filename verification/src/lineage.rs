//! Walking the chain of records that were derived from one another.

use crate::json::{Json, Value};
use crate::plugin::{Direction, EdgeInfo};
use crate::record::{Record, RecordId};
use crate::text::{ascii_lowercase, join3, same_text, to_ascii_lower, trim, trimmed};
use vstd::hash_set::StringHashSet;
use vstd::prelude::*;

verus! {

/// Which way the edges are followed.
#[derive(Clone, Copy, Debug, PartialEq, Eq, Structural)]
pub enum LineageDirection {
    /// What each record was derived from.
    Ancestors,
    /// What was derived from each record.
    Descendants,
    /// Both ways.
    Both,
}

impl LineageDirection {
    /// The name of the direction.
    pub open spec fn name(self) -> Seq<char> {
        match self {
            LineageDirection::Ancestors => "ancestors"@,
            LineageDirection::Descendants => "descendants"@,
            LineageDirection::Both => "both"@,
        }
    }

    /// The direction that a text names, in any case and with any white space around.
    pub open spec fn named(s: Seq<char>) -> Option<LineageDirection> {
        let t = ascii_lowercase(trimmed(s));
        if t == "ancestors"@ || t == "ancestor"@ {
            Some(LineageDirection::Ancestors)
        } else if t == "descendants"@ || t == "descendant"@ {
            Some(LineageDirection::Descendants)
        } else if t == "both"@ {
            Some(LineageDirection::Both)
        } else {
            None
        }
    }

    /// The direction that a text names.
    pub fn parse(s: &str) -> (r: core::result::Result<LineageDirection, String>)
        ensures
            match r {
                Ok(d) => LineageDirection::named(s@) == Some(d),
                Err(m) => LineageDirection::named(s@) is None && m@ == "invalid direction '"@
                    + ascii_lowercase(trimmed(s@)) + "' (ancestors | descendants | both)"@,
            },
    {
        let t = to_ascii_lower(trim(s).as_str());
        let name = t.as_str();
        if same_text(name, "ancestors") || same_text(name, "ancestor") {
            Ok(LineageDirection::Ancestors)
        } else if same_text(name, "descendants") || same_text(name, "descendant") {
            Ok(LineageDirection::Descendants)
        } else if same_text(name, "both") {
            Ok(LineageDirection::Both)
        } else {
            Err(
                join3(
                    "invalid direction '",
                    name,
                    "' (ancestors | descendants | both)",
                ),
            )
        }
    }

    /// The name of the direction.
    pub fn as_str(self) -> (r: &'static str)
        ensures
            r@ == self.name(),
    {
        match self {
            LineageDirection::Ancestors => "ancestors",
            LineageDirection::Descendants => "descendants",
            LineageDirection::Both => "both",
        }
    }

    /// Whether edges that lead away from a record are followed.
    pub open spec fn follows_out(self) -> bool {
        self != LineageDirection::Descendants
    }

    /// Whether edges that lead to a record are followed.
    pub open spec fn follows_in(self) -> bool {
        self != LineageDirection::Ancestors
    }

    /// The directions of the edges to follow, in order, each with whether the record
    /// at the end of the edge is the next one.
    pub fn edge_dirs(self) -> (r: Vec<(Direction, bool)>)
        ensures
            r@ == match self {
                LineageDirection::Ancestors => seq![(Direction::Out, true)],
                LineageDirection::Descendants => seq![(Direction::In, false)],
                LineageDirection::Both => seq![(Direction::Out, true), (Direction::In, false)],
            },
    {
        let mut v: Vec<(Direction, bool)> = Vec::new();
        match self {
            LineageDirection::Ancestors => {
                v.push((Direction::Out, true));
                assert(v@ =~= seq![(Direction::Out, true)]);
            },
            LineageDirection::Descendants => {
                v.push((Direction::In, false));
                assert(v@ =~= seq![(Direction::In, false)]);
            },
            LineageDirection::Both => {
                v.push((Direction::Out, true));
                v.push((Direction::In, false));
                assert(v@ =~= seq![(Direction::Out, true), (Direction::In, false)]);
            },
        }
        v
    }
}

/// The members of a value under the keys, of those that are there.
pub open spec fn picked(data: Json, keys: Seq<String>) -> Json
    decreases keys.len(),
{
    if keys.len() == 0 {
        Json::Object(Map::empty())
    } else {
        let before = picked(data, keys.drop_last());
        match data.member(keys.last()@) {
            Some(v) => before.with_member(keys.last()@, v),
            None => before,
        }
    }
}

/// The members of a record that are shown: those under the keys, or all of them.
pub open spec fn selected(data: Json, keys: Option<Seq<String>>) -> Json {
    match keys {
        Some(k) => picked(data, k),
        None => if data is Object {
            data
        } else {
            Json::Object(Map::empty())
        },
    }
}

/// Keys that may be given, in the model.
pub open spec fn keys_view(keys: Option<&Vec<String>>) -> Option<Seq<String>> {
    match keys {
        Some(k) => Some(k@),
        None => None,
    }
}

/// The members of a record that are shown: those under the keys, or all of them.
pub fn select_fields(data: &Value, keys: Option<&Vec<String>>) -> (r: Value)
    ensures
        r.model() == selected(data.model(), keys_view(keys)),
{
    match keys {
        Some(k) => {
            let mut out = Value::object();
            let mut i: usize = 0;
            while i < k.len()
                invariant
                    i <= k@.len(),
                    out.model() == picked(data.model(), k@.take(i as int)),
                decreases k@.len() - i,
            {
                assert(k@.take(i + 1).drop_last() =~= k@.take(i as int));
                if let Some(v) = data.get(k[i].as_str()) {
                    out.set(k[i].as_str(), v.copy());
                }
                i += 1;
            }
            assert(k@.take(i as int) =~= k@);
            out
        },
        None => match data {
            Value::Object(_) => data.copy(),
            _ => Value::object(),
        },
    }
}

/// A record that was found and is still to be looked at: how far it is from the
/// root, the place of the record that it was found from, and the edge between them.
#[derive(Debug)]
pub struct Pending {
    pub id: RecordId,
    pub depth: usize,
    pub parent: Option<usize>,
    pub edge_id: Option<RecordId>,
    pub edge_props: Value,
}

/// A record that was found, in the model.
#[verifier::ext_equal]
pub struct PendingView {
    pub id: Seq<char>,
    pub depth: int,
    pub parent: Option<usize>,
    pub edge_id: Option<Seq<char>>,
    pub edge_props: Json,
}

impl View for Pending {
    type V = PendingView;

    open spec fn view(&self) -> PendingView {
        PendingView {
            id: self.id@,
            depth: self.depth as int,
            parent: self.parent,
            edge_id: match self.edge_id {
                Some(e) => Some(e@),
                None => None,
            },
            edge_props: self.edge_props.model(),
        }
    }
}

/// What is shown of a record on the way.
#[derive(Debug)]
pub struct Hop {
    /// The table, where the record is there.
    pub table: Option<String>,
    /// The members that are shown.
    pub fields: Value,
}

/// The records that were found, in the model.
pub open spec fn pending_view(p: Seq<Pending>) -> Seq<PendingView> {
    p.map_values(|x: Pending| x@)
}

/// Whether a record was found.
pub open spec fn found(p: Seq<PendingView>, id: Seq<char>) -> bool {
    exists|i: int| 0 <= i < p.len() && (#[trigger] p[i]).id == id
}

/// The record at the other end of an edge.
pub open spec fn other_end(e: EdgeInfo, take_to: bool) -> Seq<char> {
    if take_to {
        e.to@
    } else {
        e.from@
    }
}

/// The records that are found once edges of the record at a place were followed: the
/// other end of each edge, unless it was found before.
pub open spec fn followed(
    p: Seq<PendingView>,
    edges: Seq<EdgeInfo>,
    take_to: bool,
    at: usize,
    depth: int,
) -> Seq<PendingView>
    decreases edges.len(),
{
    if edges.len() == 0 {
        p
    } else {
        let before = followed(p, edges.drop_last(), take_to, at, depth);
        let e = edges.last();
        if found(before, other_end(e, take_to)) {
            before
        } else {
            before.push(
                PendingView {
                    id: other_end(e, take_to),
                    depth: depth + 1,
                    parent: Some(at),
                    edge_id: Some(e.id@),
                    edge_props: e.properties.model(),
                },
            )
        }
    }
}

/// A walk from a root, nearest records first.
pub struct LineageWalk {
    direction: LineageDirection,
    max_depth: usize,
    queue: Vec<Pending>,
    visited: StringHashSet,
    hops: Vec<Hop>,
}

impl LineageWalk {
    /// The records that were found, in the order in which they are looked at.
    pub closed spec fn queued(self) -> Seq<PendingView> {
        pending_view(self.queue@)
    }

    /// What is shown of the records that were looked at.
    pub closed spec fn shown(self) -> Seq<Hop> {
        self.hops@
    }

    /// The way that the edges are followed.
    pub closed spec fn way(self) -> LineageDirection {
        self.direction
    }

    /// How far the walk goes.
    pub closed spec fn limit(self) -> int {
        self.max_depth as int
    }

    /// What holds of every walk: no record is found twice, none is further from the
    /// root than the walk goes, each but the root is one further than the record that
    /// it was found from, and the nearer ones come first.
    pub open spec fn sound(self) -> bool {
        let q = self.queued();
        &&& q.len() > 0
        &&& self.shown().len() <= q.len()
        &&& forall|i: int, j: int|
            0 <= i < j < q.len() ==> (#[trigger] q[i]).id != (#[trigger] q[j]).id
        &&& forall|i: int, j: int|
            0 <= i < j < q.len() ==> (#[trigger] q[i]).depth <= (#[trigger] q[j]).depth
        &&& forall|i: int| 0 <= i < q.len() ==> 0 <= (#[trigger] q[i]).depth <= self.limit()
        &&& q[0].depth == 0
        &&& forall|i: int|
            0 < i < q.len() ==> (#[trigger] q[i].parent matches Some(p) && p < i && q[i].depth
                == q[p as int].depth + 1)
        &&& self.shown().len() < q.len() ==> q.last().depth <= q[self.shown().len() as int].depth
            + 1
        &&& self.indexed()
    }

    /// Whether the set of visited records is that of the records that were found.
    pub closed spec fn indexed(self) -> bool {
        forall|id: Seq<char>| #[trigger]
            self.visited@.contains(id) <==> found(self.queued(), id)
    }

    /// A walk from a root.
    pub fn new(root: &RecordId, direction: LineageDirection, max_depth: usize) -> (r: LineageWalk)
        ensures
            r.sound(),
            r.way() == direction,
            r.limit() == max_depth,
            r.shown().len() == 0,
            r.queued() == seq![
                PendingView {
                    id: root@,
                    depth: 0,
                    parent: None,
                    edge_id: None,
                    edge_props: Json::Null,
                },
            ],
    {
        let mut queue: Vec<Pending> = Vec::new();
        queue.push(
            Pending {
                id: root.copy(),
                depth: 0,
                parent: None,
                edge_id: None,
                edge_props: Value::Null,
            },
        );
        let mut visited = StringHashSet::new();
        visited.insert(root.0.clone());
        let r = LineageWalk { direction, max_depth, queue, visited, hops: Vec::new() };
        proof {
            let q = r.queued();
            assert(q =~= seq![
                PendingView {
                    id: root@,
                    depth: 0,
                    parent: None,
                    edge_id: None,
                    edge_props: Json::Null,
                },
            ]);
            assert forall|id: Seq<char>| #[trigger]
                r.visited@.contains(id) <==> found(q, id) by {
                if id == root@ {
                    assert(q[0].id == id);
                }
            }
        }
        r
    }

    /// The record to look at next, where there is one.
    pub fn next(&self) -> (r: Option<RecordId>)
        requires
            self.sound(),
        ensures
            match r {
                Some(id) => self.shown().len() < self.queued().len() && id@
                    == self.queued()[self.shown().len() as int].id,
                None => self.shown().len() == self.queued().len(),
            },
    {
        if self.hops.len() < self.queue.len() {
            Some(self.queue[self.hops.len()].id.copy())
        } else {
            None
        }
    }

    /// Whether the edges of the next record are followed, where it is there.
    pub fn expands(&self) -> (r: bool)
        requires
            self.sound(),
            self.shown().len() < self.queued().len(),
        ensures
            r == (self.queued()[self.shown().len() as int].depth < self.limit()),
    {
        self.queue[self.hops.len()].depth < self.max_depth
    }

    /// Follows edges of the record at a place.
    fn follow(&mut self, edges: &Vec<EdgeInfo>, take_to: bool, at: usize, depth: usize)
        requires
            old(self).indexed(),
            depth < usize::MAX,
        ensures
            final(self).indexed(),
            final(self).queued() == followed(
                old(self).queued(),
                edges@,
                take_to,
                at,
                depth as int,
            ),
            final(self).shown() == old(self).shown(),
            final(self).way() == old(self).way(),
            final(self).limit() == old(self).limit(),
    {
        let ghost start = self.queued();
        let mut i: usize = 0;
        while i < edges.len()
            invariant
                i <= edges@.len(),
                depth < usize::MAX,
                self.indexed(),
                self.queued() == followed(
                    start,
                    edges@.take(i as int),
                    take_to,
                    at,
                    depth as int,
                ),
                self.shown() == old(self).shown(),
                self.way() == old(self).way(),
                self.limit() == old(self).limit(),
            decreases edges@.len() - i,
        {
            let e = &edges[i];
            proof {
                assert(edges@.take(i + 1).drop_last() =~= edges@.take(i as int));
                assert(edges@.take(i + 1).last() == *e);
            }
            let next = if take_to {
                e.to.copy()
            } else {
                e.from.copy()
            };
            if !self.visited.contains(next.as_str()) {
                let ghost before = self.queued();
                let ghost set = self.visited@;
                let ghost n = next@;
                self.visited.insert(next.0.clone());
                self.queue.push(
                    Pending {
                        id: next,
                        depth: depth + 1,
                        parent: Some(at),
                        edge_id: Some(e.id.copy()),
                        edge_props: e.properties.copy(),
                    },
                );
                proof {
                    let q = self.queued();
                    let x = PendingView {
                        id: n,
                        depth: depth + 1,
                        parent: Some(at),
                        edge_id: Some(e.id@),
                        edge_props: e.properties.model(),
                    };
                    assert(q =~= before.push(x));
                    assert forall|id: Seq<char>| #[trigger]
                        self.visited@.contains(id) <==> found(q, id) by {
                        assert(set.contains(id) <==> found(before, id));
                        if found(before, id) {
                            let k = choose|k: int|
                                0 <= k < before.len() && (#[trigger] before[k]).id == id;
                            assert(q[k].id == id);
                        }
                        if id == n {
                            assert(q[before.len() as int].id == id);
                        }
                        if found(q, id) && id != n {
                            let k = choose|k: int|
                                0 <= k < q.len() && (#[trigger] q[k]).id == id;
                            assert(before[k].id == id);
                        }
                    }
                }
            }
            i += 1;
        }
        assert(edges@.take(i as int) =~= edges@);
    }

    /// The records that are found once the next record was looked at. Nothing is
    /// followed from a record that is not there, or from one as far as the walk goes.
    pub open spec fn after(
        self,
        there: bool,
        outgoing: Seq<EdgeInfo>,
        incoming: Seq<EdgeInfo>,
    ) -> Seq<PendingView> {
        let q = self.queued();
        let at = self.shown().len() as int;
        let depth = q[at].depth;
        if !there || depth >= self.limit() {
            q
        } else {
            let q = if self.way().follows_out() {
                followed(q, outgoing, true, at as usize, depth)
            } else {
                q
            };
            if self.way().follows_in() {
                followed(q, incoming, false, at as usize, depth)
            } else {
                q
            }
        }
    }

    /// Follows the edges of the next record, where they are to be followed.
    fn expand(&mut self, there: bool, outgoing: &Vec<EdgeInfo>, incoming: &Vec<EdgeInfo>)
        requires
            old(self).sound(),
            old(self).shown().len() < old(self).queued().len(),
        ensures
            final(self).indexed(),
            final(self).queued() == old(self).after(there, outgoing@, incoming@),
            final(self).shown() == old(self).shown(),
            final(self).way() == old(self).way(),
            final(self).limit() == old(self).limit(),
    {
        let at = self.hops.len();
        let depth = self.queue[at].depth;
        assert(self.queued()[at as int].depth == depth);
        if there && depth < self.max_depth {
            match self.direction {
                LineageDirection::Ancestors => {
                    self.follow(outgoing, true, at, depth);
                },
                LineageDirection::Descendants => {
                    self.follow(incoming, false, at, depth);
                },
                LineageDirection::Both => {
                    self.follow(outgoing, true, at, depth);
                    self.follow(incoming, false, at, depth);
                },
            }
        }
    }

    /// Looks at the next record, given the record where it is there, and the edges
    /// that lead away from it and to it.
    pub fn visit(
        &mut self,
        record: Option<&Record>,
        keys: Option<&Vec<String>>,
        outgoing: &Vec<EdgeInfo>,
        incoming: &Vec<EdgeInfo>,
    )
        requires
            old(self).sound(),
            old(self).shown().len() < old(self).queued().len(),
        ensures
            final(self).sound(),
            final(self).queued() == old(self).after(record is Some, outgoing@, incoming@),
            final(self).shown().len() == old(self).shown().len() + 1,
            final(self).shown().drop_last() == old(self).shown(),
            ({
                let hop = final(self).shown().last();
                match record {
                    Some(r) => (hop.table matches Some(t) && t@ == r.table@) && hop.fields.model()
                        == selected(r.data.model(), keys_view(keys)),
                    None => hop.table is None && hop.fields.model() == Json::Object(Map::empty()),
                }
            }),
            final(self).way() == old(self).way(),
            final(self).limit() == old(self).limit(),
    {
        let hop = match record {
            Some(r) => Hop {
                table: Some(r.table.clone()),
                fields: select_fields(&r.data, keys),
            },
            None => Hop { table: None, fields: Value::object() },
        };
        let there = match record {
            Some(_) => true,
            None => false,
        };
        let at = self.hops.len();
        proof {
            assert(self.shown().len() == at);
            lemma_walk_step(*self, there, outgoing@, incoming@);
        }
        self.expand(there, outgoing, incoming);
        let ghost before = *self;
        self.hops.push(hop);
        proof {
            assert(self.shown().drop_last() =~= before.shown());
            assert(self.queued() == before.queued());
            assert(self.visited == before.visited);
            lemma_moved_on(before, *self);
        }
    }

    /// What was found at a place.
    pub fn hop(&self, i: usize) -> (r: (&Pending, &Hop))
        requires
            self.sound(),
            i < self.shown().len(),
        ensures
            r.0@ == self.queued()[i as int],
            *r.1 == self.shown()[i as int],
    {
        (&self.queue[i], &self.hops[i])
    }

    /// The number of records that were looked at.
    pub fn len(&self) -> (r: usize)
        ensures
            r == self.shown().len(),
    {
        self.hops.len()
    }
}

/// What a list of found records keeps while edges are followed.
spec fn orderly(q: Seq<PendingView>, at: int, limit: int) -> bool {
    &&& 0 <= at < q.len()
    &&& forall|i: int, j: int| 0 <= i < j < q.len() ==> (#[trigger] q[i]).id != (#[trigger] q[j]).id
    &&& forall|i: int, j: int|
        0 <= i < j < q.len() ==> (#[trigger] q[i]).depth <= (#[trigger] q[j]).depth
    &&& forall|i: int| 0 <= i < q.len() ==> 0 <= (#[trigger] q[i]).depth <= limit
    &&& q[0].depth == 0
    &&& forall|i: int|
        0 < i < q.len() ==> (#[trigger] q[i].parent matches Some(p) && p < i && q[i].depth
            == q[p as int].depth + 1)
    &&& q.last().depth <= q[at].depth + 1
}

/// Following edges keeps the list of found records orderly.
proof fn lemma_followed(
    q: Seq<PendingView>,
    edges: Seq<EdgeInfo>,
    take_to: bool,
    at: usize,
    depth: int,
    limit: int,
)
    requires
        orderly(q, at as int, limit),
        depth == q[at as int].depth,
        depth < limit,
    ensures
        orderly(followed(q, edges, take_to, at, depth), at as int, limit),
        followed(q, edges, take_to, at, depth)[at as int] == q[at as int],
        followed(q, edges, take_to, at, depth).len() >= q.len(),
    decreases edges.len(),
{
    if edges.len() > 0 {
        lemma_followed(q, edges.drop_last(), take_to, at, depth, limit);
        let p = followed(q, edges.drop_last(), take_to, at, depth);
        let r = followed(q, edges, take_to, at, depth);
        if !found(p, other_end(edges.last(), take_to)) {
            let n = p.len() as int;
            assert forall|i: int, j: int| 0 <= i < j < r.len() implies (#[trigger] r[i]).id != (
            #[trigger] r[j]).id by {
                assert(r[i] == p[i]);
                if j < n {
                    assert(r[j] == p[j]);
                }
            }
            assert forall|i: int, j: int| 0 <= i < j < r.len() implies (#[trigger] r[i]).depth <= (
            #[trigger] r[j]).depth by {
                assert(r[i] == p[i]);
                if j < n {
                    assert(r[j] == p[j]);
                } else if i < n - 1 {
                    assert(p[i].depth <= p[n - 1].depth);
                }
            }
            assert forall|i: int| 0 <= i < r.len() implies 0 <= (#[trigger] r[i]).depth <= limit by {
                if i < n {
                    assert(r[i] == p[i]);
                }
            }
            assert forall|i: int| 0 < i < r.len() implies (#[trigger] r[i].parent matches Some(x)
                && x < i && r[i].depth == r[x as int].depth + 1) by {
                if i < n {
                    assert(r[i] == p[i]);
                }
            }
        }
    }
}

/// A walk whose found records are orderly is sound once the next one was looked at.
proof fn lemma_moved_on(before: LineageWalk, w: LineageWalk)
    requires
        w.queued() == before.queued(),
        w.limit() == before.limit(),
        w.shown().len() == before.shown().len() + 1,
        w.visited == before.visited,
        before.indexed(),
        orderly(before.queued(), before.shown().len() as int, before.limit()),
        before.shown().len() + 1 < before.queued().len() ==> before.queued().last().depth
            <= before.queued()[before.shown().len() as int + 1].depth + 1,
    ensures
        w.sound(),
{
    assert forall|id: Seq<char>| #[trigger]
        w.visited@.contains(id) <==> found(w.queued(), id) by {
        assert(before.visited@.contains(id) <==> found(before.queued(), id));
    }
}

/// Looking at the next record keeps the list of found records orderly.
proof fn lemma_walk_step(
    w: LineageWalk,
    there: bool,
    outgoing: Seq<EdgeInfo>,
    incoming: Seq<EdgeInfo>,
)
    requires
        w.sound(),
        w.shown().len() < w.queued().len(),
        w.shown().len() <= usize::MAX,
    ensures
        ({
            let q = w.after(there, outgoing, incoming);
            let at = w.shown().len() as int;
            &&& orderly(q, at, w.limit())
            &&& q[at] == w.queued()[at]
            &&& q.len() >= w.queued().len()
            &&& at + 1 < q.len() ==> q.last().depth <= q[at + 1].depth + 1
        }),
{
    let q = w.queued();
    let at = w.shown().len() as int;
    let depth = q[at].depth;
    assert(orderly(q, at, w.limit()));
    if there && depth < w.limit() {
        let a = if w.way().follows_out() {
            lemma_followed(q, outgoing, true, at as usize, depth, w.limit());
            followed(q, outgoing, true, at as usize, depth)
        } else {
            q
        };
        if w.way().follows_in() {
            lemma_followed(a, incoming, false, at as usize, depth, w.limit());
        }
    }
    let r = w.after(there, outgoing, incoming);
    if at + 1 < r.len() {
        assert(r[at].depth <= r[at + 1].depth);
    }
}

/// The edge that a record was found by, as it is shown.
pub open spec fn edge_shown(p: PendingView) -> Json {
    match p.edge_id {
        Some(id) => Json::Object(Map::empty()).with_member("edge_id"@, Json::Text(id)).with_member(
            "props"@,
            p.edge_props,
        ),
        None => Json::Null,
    }
}

/// A record on the way, as it is shown. One that is missing shows neither members nor
/// how its numbers differ.
pub open spec fn hop_shown(p: PendingView, hop: Hop, delta: Json) -> Json {
    let start = Json::Object(Map::empty()).with_member("depth"@, Json::PosInt(p.depth as u64)).with_member(
        "id"@,
        Json::Text(p.id),
    );
    match hop.table {
        Some(t) => start.with_member("table"@, Json::Text(t@)).with_member(
            "fields"@,
            hop.fields.model(),
        ).with_member("edge"@, edge_shown(p)).with_member("delta"@, delta),
        None => start.with_member("missing"@, Json::Bool(true)).with_member("edge"@, edge_shown(p)),
    }
}

impl LineageWalk {
    /// The record at a place, as it is shown, given how its numbers differ from those
    /// of the record that it was found from.
    pub fn show(&self, i: usize, delta: Value) -> (r: Value)
        requires
            self.sound(),
            i < self.shown().len(),
        ensures
            r.model() == hop_shown(self.queued()[i as int], self.shown()[i as int], delta.model()),
    {
        let (p, hop) = self.hop(i);
        let mut v = Value::object();
        v.set("depth", Value::count(p.depth as u64));
        v.set("id", Value::text(p.id.as_str()));
        match &hop.table {
            Some(t) => {
                v.set("table", Value::text(t.as_str()));
                v.set("fields", hop.fields.copy());
            },
            None => {
                v.set("missing", Value::Bool(true));
            },
        }
        let edge = match &p.edge_id {
            Some(id) => {
                let mut e = Value::object();
                e.set("edge_id", Value::text(id.as_str()));
                e.set("props", p.edge_props.copy());
                e
            },
            None => Value::Null,
        };
        assert(edge.model() == edge_shown(p@));
        v.set("edge", edge);
        if hop.table.is_some() {
            v.set("delta", delta);
        }
        v
    }
}

/// A walk, as it is shown, given its hops.
pub fn walk(root: &RecordId, edge_type: &str, direction: LineageDirection, hops: Vec<Value>) -> (r:
    Value)
    ensures
        r.model() == Json::Object(Map::empty()).with_member("root"@, Json::Text(root@)).with_member(
            "direction"@,
            Json::Text(direction.name()),
        ).with_member("edge_type"@, Json::Text(edge_type@)).with_member(
            "hops"@,
            Value::Array(hops).model(),
        ),
{
    let mut v = Value::object();
    v.set("root", Value::text(root.as_str()));
    v.set("direction", Value::text(direction.as_str()));
    v.set("edge_type", Value::text(edge_type));
    v.set("hops", Value::Array(hops));
    v
}

/// Wherever a walk leads: no record is shown twice, each is as far as the walk goes at
/// most, and the root comes first.
pub proof fn records_are_met_once(w: LineageWalk, i: int, j: int)
    requires
        w.sound(),
        0 <= i < j < w.shown().len(),
    ensures
        w.queued()[i].id != w.queued()[j].id,
        w.queued()[i].depth <= w.queued()[j].depth <= w.limit(),
        w.queued()[0].depth == 0,
{
}

/// The records and edges that a walk goes through.
#[verifier::ext_equal]
pub struct Surroundings {
    /// Whether a record is there.
    pub there: spec_fn(Seq<char>) -> bool,
    /// The edges that lead away from a record.
    pub outgoing: spec_fn(Seq<char>) -> Seq<EdgeInfo>,
    /// The edges that lead to a record.
    pub incoming: spec_fn(Seq<char>) -> Seq<EdgeInfo>,
}

/// Whether an edge of a list has a record at its other end.
pub open spec fn leads_along(edges: Seq<EdgeInfo>, take_to: bool, y: Seq<char>) -> bool {
    exists|i: int| 0 <= i < edges.len() && other_end(#[trigger] edges[i], take_to) == y
}

impl Surroundings {
    /// Whether an edge that is followed leads from one record to another: the one has to
    /// be there.
    pub open spec fn leads(self, way: LineageDirection, x: Seq<char>, y: Seq<char>) -> bool {
        &&& (self.there)(x)
        &&& {
            ||| way.follows_out() && leads_along((self.outgoing)(x), true, y)
            ||| way.follows_in() && leads_along((self.incoming)(x), false, y)
        }
    }

    /// Whether records are a way from one to another, along edges that are followed. A
    /// way has one step fewer than it has records.
    pub open spec fn is_way(
        self,
        way: LineageDirection,
        path: Seq<Seq<char>>,
        x: Seq<char>,
        y: Seq<char>,
    ) -> bool {
        &&& path.len() > 0
        &&& path[0] == x
        &&& path.last() == y
        &&& forall|i: int| 0 < i < path.len() ==> self.leads(way, path[i - 1], #[trigger] path[i])
    }

    /// Whether one walk is another once the next record was looked at.
    pub open spec fn stepped(self, a: LineageWalk, b: LineageWalk) -> bool {
        let id = a.queued()[a.shown().len() as int].id;
        &&& a.shown().len() < a.queued().len()
        &&& b.sound()
        &&& b.shown().len() == a.shown().len() + 1
        &&& b.queued() == a.after((self.there)(id), (self.outgoing)(id), (self.incoming)(id))
        &&& b.way() == a.way()
        &&& b.limit() == a.limit()
    }

    /// Whether walks are those of one that began at a record, one visit after the other.
    pub open spec fn is_run(
        self,
        walks: Seq<LineageWalk>,
        root: Seq<char>,
        way: LineageDirection,
        limit: int,
    ) -> bool {
        &&& walks.len() > 0
        &&& walks[0].sound()
        &&& walks[0].way() == way
        &&& walks[0].limit() == limit
        &&& walks[0].shown().len() == 0
        &&& walks[0].queued().len() == 1
        &&& walks[0].queued()[0].id == root
        &&& forall|i: int|
            0 < i < walks.len() ==> self.stepped(walks[i - 1], #[trigger] walks[i])
    }

    /// Whether each record but the root was found along an edge from the record that it
    /// says.
    #[verifier::opaque]
    spec fn linked(self, q: Seq<PendingView>, way: LineageDirection) -> bool {
        forall|i: int|
            0 < i < q.len() ==> (#[trigger] q[i].parent matches Some(p) && p < i && self.leads(
                way,
                q[p as int].id,
                q[i].id,
            ))
    }

    /// Whether all that edges of the record at a place lead to was found, one further at
    /// most.
    #[verifier::opaque]
    spec fn explored(self, q: Seq<PendingView>, way: LineageDirection, i: int) -> bool {
        forall|y: Seq<char>| #[trigger]
            self.leads(way, q[i].id, y) ==> near(q, y, q[i].depth + 1)
    }

    /// Whether the first records that were found are explored, those as far as a walk goes
    /// left out.
    #[verifier::opaque]
    spec fn all_explored(
        self,
        q: Seq<PendingView>,
        way: LineageDirection,
        limit: int,
        n: int,
    ) -> bool {
        forall|i: int|
            0 <= i < n && (#[trigger] q[i]).depth < limit ==> self.explored(q, way, i)
    }

    /// What holds of the records that were found: they were found along edges, and the
    /// edges of those that were looked at were followed.
    spec fn holds(self, w: LineageWalk) -> bool {
        &&& self.linked(w.queued(), w.way())
        &&& self.all_explored(w.queued(), w.way(), w.limit(), w.shown().len() as int)
    }
}

/// Whether a record was found at a distance or nearer.
spec fn near(q: Seq<PendingView>, y: Seq<char>, depth: int) -> bool {
    exists|m: int| 0 <= m < q.len() && (#[trigger] q[m]).id == y && q[m].depth <= depth
}

/// What was found stays where it was while edges are followed, what is new was found
/// from the place by one of the edges, and the other ends of all edges are found.
proof fn lemma_followed_all(
    q: Seq<PendingView>,
    edges: Seq<EdgeInfo>,
    take_to: bool,
    at: usize,
    depth: int,
)
    ensures
        ({
            let r = followed(q, edges, take_to, at, depth);
            &&& r.len() >= q.len()
            &&& r.take(q.len() as int) == q
            &&& forall|i: int|
                q.len() <= i < r.len() ==> (#[trigger] r[i]).parent == Some(at) && leads_along(
                    edges,
                    take_to,
                    r[i].id,
                )
            &&& forall|y: Seq<char>| #[trigger] leads_along(edges, take_to, y) ==> found(r, y)
        }),
    decreases edges.len(),
{
    let r = followed(q, edges, take_to, at, depth);
    if edges.len() == 0 {
        assert(r.take(q.len() as int) =~= q);
    } else {
        let fewer = edges.drop_last();
        lemma_followed_all(q, fewer, take_to, at, depth);
        let p = followed(q, fewer, take_to, at, depth);
        let last = edges.len() - 1;
        assert(edges[last] == edges.last());
        assert forall|i: int| 0 <= i < p.len() implies #[trigger] r[i] == p[i] by {}
        assert(r.take(q.len() as int) =~= q) by {
            assert forall|i: int| 0 <= i < q.len() implies r[i] == q[i] by {
                assert(p.take(q.len() as int)[i] == p[i]);
            }
        }
        assert forall|y: Seq<char>| #[trigger]
            leads_along(fewer, take_to, y) implies leads_along(edges, take_to, y) by {
            let i = choose|i: int|
                0 <= i < fewer.len() && other_end(#[trigger] fewer[i], take_to) == y;
            assert(edges[i] == fewer[i]);
        }
        assert forall|i: int| q.len() <= i < r.len() implies (#[trigger] r[i]).parent == Some(at)
            && leads_along(edges, take_to, r[i].id) by {
            if i < p.len() {
                assert(r[i] == p[i]);
                assert(leads_along(fewer, take_to, p[i].id));
            } else {
                assert(other_end(edges[last], take_to) == r[i].id);
            }
        }
        assert forall|y: Seq<char>| #[trigger] leads_along(edges, take_to, y) implies found(r, y) by {
            let i = choose|i: int|
                0 <= i < edges.len() && other_end(#[trigger] edges[i], take_to) == y;
            if i < last {
                assert(fewer[i] == edges[i]);
                assert(leads_along(fewer, take_to, y));
                let k = choose|k: int| 0 <= k < p.len() && (#[trigger] p[k]).id == y;
                assert(r[k] == p[k]);
            } else if found(p, y) {
                assert(r == p);
            } else {
                assert(r[p.len() as int].id == y);
            }
        }
    }
}

/// What a visit finds: what was found stays, what is new was found from the place, and
/// where the edges are followed, all that they lead to is found.
proof fn lemma_after_finds(g: Surroundings, a: LineageWalk, id: Seq<char>, r: Seq<PendingView>)
    requires
        a.shown().len() < a.queued().len(),
        id == a.queued()[a.shown().len() as int].id,
        r == a.after((g.there)(id), (g.outgoing)(id), (g.incoming)(id)),
    ensures
        ({
            let q = a.queued();
            let at = a.shown().len() as int;
            &&& r.len() >= q.len()
            &&& r.take(q.len() as int) == q
            &&& forall|i: int|
                q.len() <= i < r.len() ==> (#[trigger] r[i].parent matches Some(p) && p == at
                    && g.leads(a.way(), q[at].id, r[i].id))
            &&& q[at].depth < a.limit() ==> forall|y: Seq<char>| #[trigger]
                g.leads(a.way(), q[at].id, y) ==> found(r, y)
        }),
{
    let q = a.queued();
    let at = a.shown().len() as int;
    let depth = q[at].depth;
    let (out, inc) = ((g.outgoing)(id), (g.incoming)(id));
    assert(a.hops.len() == a.hops@.len());
    if (g.there)(id) && depth < a.limit() {
        let m = if a.way().follows_out() {
            lemma_followed_all(q, out, true, at as usize, depth);
            followed(q, out, true, at as usize, depth)
        } else {
            q
        };
        assert(m.take(q.len() as int) =~= q);
        if a.way().follows_in() {
            lemma_followed_all(m, inc, false, at as usize, depth);
        }
        assert(r.take(m.len() as int) =~= m);
        assert(r.take(q.len() as int) =~= q) by {
            assert forall|i: int| 0 <= i < q.len() implies r[i] == q[i] by {
                assert(r.take(m.len() as int)[i] == r[i]);
                assert(m.take(q.len() as int)[i] == m[i]);
            }
        }
        assert forall|i: int| q.len() <= i < r.len() implies (#[trigger] r[i].parent matches Some(
            p,
        ) && p == at && g.leads(a.way(), id, r[i].id)) by {
            if i < m.len() {
                assert(r.take(m.len() as int)[i] == r[i]);
                assert(leads_along(out, true, m[i].id));
            }
        }
        assert forall|y: Seq<char>| #[trigger] g.leads(a.way(), id, y) implies found(r, y) by {
            if a.way().follows_out() && leads_along(out, true, y) {
                let k = choose|k: int| 0 <= k < m.len() && (#[trigger] m[k]).id == y;
                assert(r.take(m.len() as int)[k] == r[k]);
            }
        }
    } else {
        assert(r == q);
        assert(r.take(q.len() as int) =~= q);
    }
}

/// What a visit finds.
proof fn lemma_visit_finds(g: Surroundings, a: LineageWalk, b: LineageWalk)
    requires
        g.stepped(a, b),
    ensures
        ({
            let q = a.queued();
            let r = b.queued();
            let at = a.shown().len() as int;
            &&& r.len() >= q.len()
            &&& r.take(q.len() as int) == q
            &&& forall|i: int|
                q.len() <= i < r.len() ==> (#[trigger] r[i].parent matches Some(p) && p == at
                    && g.leads(a.way(), q[at].id, r[i].id))
            &&& q[at].depth < a.limit() ==> forall|y: Seq<char>| #[trigger]
                g.leads(a.way(), q[at].id, y) ==> found(r, y)
        }),
{
    lemma_after_finds(g, a, a.queued()[a.shown().len() as int].id, b.queued());
}

/// What was explored stays so while more is found.
proof fn lemma_explored_kept(
    g: Surroundings,
    q: Seq<PendingView>,
    r: Seq<PendingView>,
    way: LineageDirection,
    i: int,
)
    requires
        r.len() >= q.len(),
        r.take(q.len() as int) == q,
        0 <= i < q.len(),
        g.explored(q, way, i),
    ensures
        g.explored(r, way, i),
{
    reveal(Surroundings::explored);
    assert(r.take(q.len() as int)[i] == r[i]);
    assert forall|y: Seq<char>| #[trigger] g.leads(way, r[i].id, y) implies near(
        r,
        y,
        r[i].depth + 1,
    ) by {
        assert(g.leads(way, q[i].id, y));
        let m = choose|m: int|
            0 <= m < q.len() && (#[trigger] q[m]).id == y && q[m].depth <= q[i].depth + 1;
        assert(r.take(q.len() as int)[m] == r[m]);
    }
}

/// The record that a visit looks at is explored, unless it is as far as the walk goes.
proof fn lemma_visit_explores(g: Surroundings, a: LineageWalk, b: LineageWalk)
    requires
        a.sound(),
        g.stepped(a, b),
        a.queued()[a.shown().len() as int].depth < a.limit(),
    ensures
        g.explored(b.queued(), a.way(), a.shown().len() as int),
{
    reveal(Surroundings::explored);
    let q = a.queued();
    let r = b.queued();
    let at = a.shown().len() as int;
    let id = q[at].id;
    lemma_visit_finds(g, a, b);
    assert(a.hops.len() == a.hops@.len());
    lemma_walk_step(a, (g.there)(id), (g.outgoing)(id), (g.incoming)(id));
    assert forall|y: Seq<char>| #[trigger] g.leads(a.way(), r[at].id, y) implies near(
        r,
        y,
        r[at].depth + 1,
    ) by {
        assert(found(r, y));
        let m = choose|m: int| 0 <= m < r.len() && (#[trigger] r[m]).id == y;
        assert(m == r.len() - 1 || r[m].depth <= r[r.len() - 1].depth);
    }
}

/// A visit keeps the links of what was found.
proof fn lemma_visit_links(g: Surroundings, a: LineageWalk, b: LineageWalk)
    requires
        a.sound(),
        g.stepped(a, b),
        g.linked(a.queued(), a.way()),
    ensures
        g.linked(b.queued(), a.way()),
{
    reveal(Surroundings::linked);
    let q = a.queued();
    let r = b.queued();
    lemma_visit_finds(g, a, b);
    assert forall|i: int| 0 < i < r.len() implies (#[trigger] r[i].parent matches Some(p) && p < i
        && g.leads(a.way(), r[p as int].id, r[i].id)) by {
        if i < q.len() {
            assert(r.take(q.len() as int)[i] == r[i]);
            let p = q[i].parent->0 as int;
            assert(r.take(q.len() as int)[p] == r[p]);
        } else {
            let at = a.shown().len() as int;
            assert(r.take(q.len() as int)[at] == r[at]);
        }
    }
}

/// One record more is explored, and the others stay so.
proof fn lemma_one_more_explored(
    g: Surroundings,
    q: Seq<PendingView>,
    r: Seq<PendingView>,
    way: LineageDirection,
    limit: int,
    at: int,
)
    requires
        0 <= at < q.len() <= r.len(),
        r.take(q.len() as int) == q,
        g.all_explored(q, way, limit, at),
        q[at].depth < limit ==> g.explored(r, way, at),
    ensures
        g.all_explored(r, way, limit, at + 1),
{
    reveal(Surroundings::all_explored);
    assert forall|i: int| 0 <= i < at + 1 && (#[trigger] r[i]).depth < limit implies g.explored(
        r,
        way,
        i,
    ) by {
        assert(r.take(q.len() as int)[i] == r[i]);
        if i < at {
            assert(g.explored(q, way, i));
            lemma_explored_kept(g, q, r, way, i);
        }
    }
}

/// A visit keeps what holds of the records that were found.
proof fn lemma_visit_holds(g: Surroundings, a: LineageWalk, b: LineageWalk)
    requires
        a.sound(),
        g.stepped(a, b),
        g.holds(a),
    ensures
        g.holds(b),
{
    let at = a.shown().len() as int;
    lemma_visit_links(g, a, b);
    lemma_visit_finds(g, a, b);
    if a.queued()[at].depth < a.limit() {
        lemma_visit_explores(g, a, b);
    }
    lemma_one_more_explored(g, a.queued(), b.queued(), a.way(), a.limit(), at);
}

/// What holds of the records that were found holds all the way.
proof fn lemma_run_holds(
    g: Surroundings,
    walks: Seq<LineageWalk>,
    root: Seq<char>,
    way: LineageDirection,
    limit: int,
)
    requires
        g.is_run(walks, root, way, limit),
    ensures
        walks.last().sound(),
        walks.last().way() == way,
        walks.last().limit() == limit,
        walks.last().queued()[0].id == root,
        g.holds(walks.last()),
    decreases walks.len(),
{
    reveal(Surroundings::all_explored);
    reveal(Surroundings::linked);
    if walks.len() > 1 {
        let before = walks.drop_last();
        assert forall|i: int| 0 < i < before.len() implies g.stepped(
            before[i - 1],
            #[trigger] before[i],
        ) by {
            assert(g.stepped(walks[i - 1], walks[i]));
        }
        lemma_run_holds(g, before, root, way, limit);
        let n = walks.len() - 1;
        assert(g.stepped(walks[n - 1], walks[n]));
        lemma_visit_finds(g, walks[n - 1], walks[n]);
        lemma_visit_holds(g, walks[n - 1], walks[n]);
        assert(walks[n].queued().take(walks[n - 1].queued().len() as int)[0]
            == walks[n].queued()[0]);
    }
}

/// There is a way to each record that was found, as long as its distance.
proof fn lemma_way_there(g: Surroundings, w: LineageWalk, i: int) -> (path: Seq<Seq<char>>)
    requires
        w.sound(),
        g.holds(w),
        0 <= i < w.queued().len(),
    ensures
        g.is_way(w.way(), path, w.queued()[0].id, w.queued()[i].id),
        path.len() == w.queued()[i].depth + 1,
    decreases i,
{
    reveal(Surroundings::linked);
    let q = w.queued();
    if i == 0 {
        seq![q[0].id]
    } else {
        assert(q[i].parent is Some);
        let p = q[i].parent->0 as int;
        assert(g.leads(w.way(), q[p].id, q[i].id));
        let before = lemma_way_there(g, w, p);
        let path = before.push(q[i].id);
        assert forall|k: int| 0 < k < path.len() implies g.leads(
            w.way(),
            path[k - 1],
            #[trigger] path[k],
        ) by {
            if k < before.len() {
                assert(g.leads(w.way(), before[k - 1], before[k]));
            }
        }
        path
    }
}

/// A way that is no longer than the walk goes ends at a record that was found, no
/// further than the way is long.
proof fn lemma_ways_are_found(g: Surroundings, w: LineageWalk, path: Seq<Seq<char>>, y: Seq<char>)
    requires
        w.sound(),
        g.holds(w),
        w.shown().len() == w.queued().len(),
        g.is_way(w.way(), path, w.queued()[0].id, y),
        path.len() - 1 <= w.limit(),
    ensures
        near(w.queued(), y, path.len() - 1),
    decreases path.len(),
{
    reveal(Surroundings::all_explored);
    reveal(Surroundings::explored);
    let q = w.queued();
    if path.len() == 1 {
        assert(q[0].id == y);
    } else {
        let before = path.drop_last();
        let n = path.len() - 1;
        assert forall|k: int| 0 < k < before.len() implies g.leads(
            w.way(),
            before[k - 1],
            #[trigger] before[k],
        ) by {
            assert(g.leads(w.way(), path[k - 1], path[k]));
        }
        let x = before.last();
        lemma_ways_are_found(g, w, before, x);
        let m = choose|m: int|
            0 <= m < q.len() && (#[trigger] q[m]).id == x && q[m].depth <= before.len() - 1;
        assert(g.leads(w.way(), path[n - 1], path[n]));
        assert(g.explored(q, w.way(), m));
        let k = choose|k: int|
            0 <= k < q.len() && (#[trigger] q[k]).id == y && q[k].depth <= q[m].depth + 1;
        assert(q[k].depth <= path.len() - 1);
    }
}

/// A walk that is finished shows exactly the records to which there is a way that is no
/// longer than the walk goes, and each at the length of its shortest way.
pub proof fn walks_show_what_is_in_reach(
    g: Surroundings,
    walks: Seq<LineageWalk>,
    root: Seq<char>,
    way: LineageDirection,
    limit: int,
)
    requires
        g.is_run(walks, root, way, limit),
        walks.last().shown().len() == walks.last().queued().len(),
    ensures
        forall|id: Seq<char>| #[trigger]
            found(walks.last().queued(), id) <==> exists|path: Seq<Seq<char>>| #[trigger]
                g.is_way(way, path, root, id) && path.len() - 1 <= limit,
        forall|i: int|
            #![trigger walks.last().queued()[i]]
            0 <= i < walks.last().queued().len() ==> {
                let p = walks.last().queued()[i];
                &&& exists|path: Seq<Seq<char>>| #[trigger]
                    g.is_way(way, path, root, p.id) && path.len() - 1 == p.depth
                &&& forall|path: Seq<Seq<char>>| #[trigger]
                    g.is_way(way, path, root, p.id) ==> path.len() - 1 >= p.depth
            },
{
    lemma_run_holds(g, walks, root, way, limit);
    let w = walks.last();
    let q = w.queued();
    assert forall|id: Seq<char>| #[trigger] found(q, id) <==> exists|path: Seq<Seq<char>>| #[trigger]
        g.is_way(way, path, root, id) && path.len() - 1 <= limit by {
        if found(q, id) {
            let i = choose|i: int| 0 <= i < q.len() && (#[trigger] q[i]).id == id;
            let path = lemma_way_there(g, w, i);
            assert(g.is_way(way, path, root, id));
        }
        if exists|path: Seq<Seq<char>>| #[trigger]
            g.is_way(way, path, root, id) && path.len() - 1 <= limit {
            let path = choose|path: Seq<Seq<char>>| #[trigger]
                g.is_way(way, path, root, id) && path.len() - 1 <= limit;
            lemma_ways_are_found(g, w, path, id);
        }
    }
    assert forall|i: int| #![trigger walks.last().queued()[i]] 0 <= i < q.len() implies {
        let p = q[i];
        &&& exists|path: Seq<Seq<char>>| #[trigger]
            g.is_way(way, path, root, p.id) && path.len() - 1 == p.depth
        &&& forall|path: Seq<Seq<char>>| #[trigger]
            g.is_way(way, path, root, p.id) ==> path.len() - 1 >= p.depth
    } by {
        let path = lemma_way_there(g, w, i);
        assert(g.is_way(way, path, root, q[i].id));
        assert forall|path: Seq<Seq<char>>| #[trigger]
            g.is_way(way, path, root, q[i].id) implies path.len() - 1 >= q[i].depth by {
            if path.len() - 1 <= limit {
                lemma_ways_are_found(g, w, path, q[i].id);
                let m = choose|m: int|
                    0 <= m < q.len() && (#[trigger] q[m]).id == q[i].id && q[m].depth
                        <= path.len() - 1;
                assert(m == i);
            }
        }
    }
}

/// A small word with nothing around it is read as it stands.
proof fn lemma_small_word(s: Seq<char>)
    requires
        s.len() > 0,
        forall|i: int| 0 <= i < s.len() ==> 'a' <= #[trigger] s[i] <= 'z',
    ensures
        ascii_lowercase(trimmed(s)) == s,
{
    let (a, b) = crate::text::trimming_takes_the_ends_away(s, crate::text::CharClass::Visible);
    crate::text::words_end_at_spaces(s[0]);
    crate::text::words_end_at_spaces(s[s.len() - 1]);
    assert(crate::text::CharClass::Visible.holds(s[0]));
    assert(crate::text::CharClass::Visible.holds(s[s.len() - 1]));
    assert(a == 0 && b == s.len());
    assert(s.subrange(0, s.len() as int) =~= s);
    assert forall|i: int| 0 <= i < s.len() implies ascii_lowercase(s)[i] == s[i] by {
        crate::text::only_capitals_become_small(s, i);
    }
    crate::text::only_capitals_become_small(s, 0);
    assert(ascii_lowercase(s) =~= s);
}

/// The name of a direction is read as that direction, and so is that of one ancestor or one
/// descendant.
pub proof fn directions_are_read_by_their_names(
    d: LineageDirection,
    n: &'static str,
    s: &str,
    r: core::result::Result<LineageDirection, String>,
)
    requires
        call_ensures(LineageDirection::as_str, (d,), n),
        call_ensures(LineageDirection::parse, (s,), r),
    ensures
        s@ == n@ ==> r == Ok::<LineageDirection, String>(d),
        s@ == "ancestor"@ ==> r == Ok::<LineageDirection, String>(LineageDirection::Ancestors),
        s@ == "descendant"@ ==> r == Ok::<LineageDirection, String>(LineageDirection::Descendants),
        d == LineageDirection::Ancestors ==> n@ == "ancestors"@,
        d == LineageDirection::Descendants ==> n@ == "descendants"@,
        d == LineageDirection::Both ==> n@ == "both"@,
{
    reveal_strlit("ancestors");
    reveal_strlit("ancestor");
    reveal_strlit("descendants");
    reveal_strlit("descendant");
    reveal_strlit("both");
    assert("ancestors"@.len() == 9 && "ancestor"@.len() == 8 && "descendants"@.len() == 11
        && "descendant"@.len() == 10 && "both"@.len() == 4);
    lemma_small_word("ancestors"@);
    lemma_small_word("ancestor"@);
    lemma_small_word("descendants"@);
    lemma_small_word("descendant"@);
    lemma_small_word("both"@);
}

/// The other end of each edge that is followed is found.
proof fn lemma_followed_finds(
    p: Seq<PendingView>,
    edges: Seq<EdgeInfo>,
    take_to: bool,
    at: usize,
    depth: int,
    id: Seq<char>,
)
    ensures
        found(followed(p, edges, take_to, at, depth), id) <==> found(p, id) || leads_along(
            edges,
            take_to,
            id,
        ),
    decreases edges.len(),
{
    if edges.len() > 0 {
        let d = edges.drop_last();
        let e = edges.last();
        let before = followed(p, d, take_to, at, depth);
        lemma_followed_finds(p, d, take_to, at, depth, id);
        lemma_followed_finds(p, d, take_to, at, depth, other_end(e, take_to));
        if leads_along(d, take_to, id) {
            let i = choose|i: int| 0 <= i < d.len() && other_end(#[trigger] d[i], take_to) == id;
            assert(edges[i] == d[i]);
        }
        if leads_along(edges, take_to, id) && !leads_along(d, take_to, id) {
            let i = choose|i: int|
                0 <= i < edges.len() && other_end(#[trigger] edges[i], take_to) == id;
            if i < d.len() {
                assert(d[i] == edges[i]);
            }
            assert(other_end(e, take_to) == id);
        }
        if other_end(e, take_to) == id {
            assert(other_end(edges[edges.len() - 1], take_to) == id);
        }
        let after = followed(p, edges, take_to, at, depth);
        if after != before {
            let x = after.last();
            assert(after == before.push(x));
            if found(before, id) {
                let i = choose|i: int| 0 <= i < before.len() && (#[trigger] before[i]).id == id;
                assert(after[i] == before[i]);
            }
            if x.id == id {
                assert(after[before.len() as int].id == id);
            }
            if found(after, id) && x.id != id {
                let i = choose|i: int| 0 <= i < after.len() && (#[trigger] after[i]).id == id;
                assert(before[i] == after[i]);
            }
        }
    }
}

/// A walk to the ancestors finds where the edges of a record lead to, and nothing by the
/// edges that lead to it; one to the descendants finds where edges come from, and nothing by
/// those that lead away. A walk both ways finds both.
pub proof fn ancestors_are_where_edges_lead(
    w: LineageWalk,
    outgoing: Seq<EdgeInfo>,
    incoming: Seq<EdgeInfo>,
    id: Seq<char>,
)
    requires
        w.sound(),
        w.shown().len() < w.queued().len(),
        w.queued()[w.shown().len() as int].depth < w.limit(),
    ensures
        ({
            let after = w.after(true, outgoing, incoming);
            let to = exists|i: int| 0 <= i < outgoing.len() && (#[trigger] outgoing[i]).to@ == id;
            let from = exists|i: int|
                0 <= i < incoming.len() && (#[trigger] incoming[i]).from@ == id;
            &&& w.way() == LineageDirection::Ancestors ==> (found(after, id) <==> found(
                w.queued(),
                id,
            ) || to)
            &&& w.way() == LineageDirection::Descendants ==> (found(after, id) <==> found(
                w.queued(),
                id,
            ) || from)
            &&& w.way() == LineageDirection::Both ==> (found(after, id) <==> found(w.queued(), id)
                || to || from)
            &&& w.after(false, outgoing, incoming) == w.queued()
        }),
{
    let q = w.queued();
    let at = w.shown().len() as usize;
    let depth = q[w.shown().len() as int].depth;
    lemma_followed_finds(q, outgoing, true, at, depth, id);
    lemma_followed_finds(q, incoming, false, at, depth, id);
    let both = followed(q, outgoing, true, at, depth);
    lemma_followed_finds(both, incoming, false, at, depth, id);
    assert(leads_along(outgoing, true, id) <==> exists|i: int|
        0 <= i < outgoing.len() && (#[trigger] outgoing[i]).to@ == id) by {
        if leads_along(outgoing, true, id) {
            let i = choose|i: int|
                0 <= i < outgoing.len() && other_end(#[trigger] outgoing[i], true) == id;
            assert(outgoing[i].to@ == id);
        }
        if exists|i: int| 0 <= i < outgoing.len() && (#[trigger] outgoing[i]).to@ == id {
            let i = choose|i: int| 0 <= i < outgoing.len() && (#[trigger] outgoing[i]).to@ == id;
            assert(other_end(outgoing[i], true) == id);
        }
    }
    assert(leads_along(incoming, false, id) <==> exists|i: int|
        0 <= i < incoming.len() && (#[trigger] incoming[i]).from@ == id) by {
        if leads_along(incoming, false, id) {
            let i = choose|i: int|
                0 <= i < incoming.len() && other_end(#[trigger] incoming[i], false) == id;
            assert(incoming[i].from@ == id);
        }
        if exists|i: int| 0 <= i < incoming.len() && (#[trigger] incoming[i]).from@ == id {
            let i = choose|i: int| 0 <= i < incoming.len() && (#[trigger] incoming[i]).from@ == id;
            assert(other_end(incoming[i], false) == id);
        }
    }
}

/// The directions in which edges are followed: to the ancestors out, to where they lead, and
/// to the descendants in, to where they come from.
pub proof fn edges_are_followed_the_right_way(d: LineageDirection, r: Vec<(Direction, bool)>)
    requires
        call_ensures(LineageDirection::edge_dirs, (d,), r),
    ensures
        r@.contains((Direction::Out, true)) <==> d != LineageDirection::Descendants,
        r@.contains((Direction::In, false)) <==> d != LineageDirection::Ancestors,
        !r@.contains((Direction::Out, false)) && !r@.contains((Direction::In, true)),
{
    if d == LineageDirection::Descendants {
        assert(r@[0] == (Direction::In, false));
    } else {
        assert(r@[0] == (Direction::Out, true));
        if d == LineageDirection::Both {
            assert(r@[1] == (Direction::In, false));
        }
    }
}

/// Where keys are given, a record shows its members under them and no others; without keys
/// it shows all.
pub proof fn asked_members_are_shown(
    data: &Value,
    keys: &Vec<String>,
    some: Value,
    all: Value,
    k: Seq<char>,
)
    requires
        call_ensures(select_fields, (data, Some(keys)), some),
        call_ensures(select_fields, (data, None), all),
    ensures
        (exists|i: int| 0 <= i < keys@.len() && (#[trigger] keys@[i])@ == k) ==> some.model().member(
            k,
        ) == data.model().member(k),
        !(exists|i: int| 0 <= i < keys@.len() && (#[trigger] keys@[i])@ == k) ==> some.model().member(
            k,
        ) is None,
        all.model().member(k) == data.model().member(k),
{
    lemma_picked(data.model(), keys@, k);
}

/// What is picked are the members under the keys.
proof fn lemma_picked(data: Json, keys: Seq<String>, k: Seq<char>)
    ensures
        picked(data, keys) is Object,
        (exists|i: int| 0 <= i < keys.len() && (#[trigger] keys[i])@ == k) ==> picked(
            data,
            keys,
        ).member(k) == data.member(k),
        !(exists|i: int| 0 <= i < keys.len() && (#[trigger] keys[i])@ == k) ==> picked(
            data,
            keys,
        ).member(k) is None,
    decreases keys.len(),
{
    if keys.len() > 0 {
        let d = keys.drop_last();
        lemma_picked(data, d, k);
        if exists|i: int| 0 <= i < d.len() && (#[trigger] d[i])@ == k {
            let i = choose|i: int| 0 <= i < d.len() && (#[trigger] d[i])@ == k;
            assert(keys[i] == d[i]);
        }
        if exists|i: int| 0 <= i < keys.len() && (#[trigger] keys[i])@ == k {
            let i = choose|i: int| 0 <= i < keys.len() && (#[trigger] keys[i])@ == k;
            if i < d.len() {
                assert(d[i] == keys[i]);
            }
        }
        assert(keys.last() == keys[keys.len() - 1]);
    }
}

/// A walk is shown with its root, the way that it went, the edges that it followed and what
/// it met.
pub proof fn walks_say_where_they_began(
    root: &RecordId,
    edge_type: &str,
    d: LineageDirection,
    hops: Vec<Value>,
    r: Value,
)
    requires
        call_ensures(walk, (root, edge_type, d, hops), r),
    ensures
        r.model().member("root"@) == Some(Json::Text(root@)),
        r.model().member("edge_type"@) == Some(Json::Text(edge_type@)),
        d == LineageDirection::Ancestors ==> r.model().member("direction"@) == Some(
            Json::Text("ancestors"@),
        ),
        d == LineageDirection::Descendants ==> r.model().member("direction"@) == Some(
            Json::Text("descendants"@),
        ),
        r.model().member("hops"@) matches Some(Json::Array(a)) && a.len() == hops@.len(),
{
    reveal_strlit("root");
    reveal_strlit("direction");
    reveal_strlit("edge_type");
    reveal_strlit("hops");
    assert("root"@.len() == 4 && "direction"@.len() == 9 && "edge_type"@.len() == 9 && "hops"@.len()
        == 4);
    assert("root"@[0] == 'r' && "hops"@[0] == 'h' && "direction"@[0] == 'd' && "edge_type"@[0]
        == 'e');
}

/// A record on the way is shown with its id and how far it is; one that is not there is shown
/// as missing.
pub proof fn missing_records_are_shown_as_such(w: &LineageWalk, i: usize, delta: Value, r: Value)
    requires
        w.sound(),
        i < w.shown().len(),
        call_ensures(LineageWalk::show, (w, i, delta), r),
    ensures
        r.model().member("id"@) == Some(Json::Text(w.queued()[i as int].id)),
        r.model().member("depth"@) == Some(Json::PosInt(w.queued()[i as int].depth as u64)),
        w.shown()[i as int].table is None ==> r.model().member("missing"@) == Some(Json::Bool(true)),
        w.shown()[i as int].table matches Some(t) ==> r.model().member("table"@) == Some(
            Json::Text(t@),
        ) && r.model().member("missing"@) is None && r.model().member("fields"@) == Some(
            w.shown()[i as int].fields.model(),
        ) && r.model().member("delta"@) == Some(delta.model()),
{
    reveal_strlit("id");
    reveal_strlit("depth");
    reveal_strlit("table");
    reveal_strlit("fields");
    reveal_strlit("edge");
    reveal_strlit("delta");
    reveal_strlit("missing");
    assert("id"@.len() == 2 && "depth"@.len() == 5 && "table"@.len() == 5 && "fields"@.len() == 6
        && "edge"@.len() == 4 && "delta"@.len() == 5 && "missing"@.len() == 7);
    assert("depth"@[0] == 'd' && "table"@[0] == 't' && "delta"@[0] == 'd' && "depth"@[2] == 'p'
        && "delta"@[2] == 'l');
}

} // verus!
