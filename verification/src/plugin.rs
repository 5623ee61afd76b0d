//! Engines, and the path syntax for walking the graph.

use crate::error::{AxilError, Result};
use crate::json::Value;
use crate::record::{Record, RecordId};
use crate::text::{byte_len, chars_of, decimal, decimal_text, string_of, utf8_len};
use crate::time::{floor_div, floor_mod, month_start, month_start_us, DAY_US, FIRST_DAY, LAST_DAY};
use vstd::prelude::*;
use vstd::string::StringExecFns;

verus! {

/// What an engine can do.
#[derive(Clone, Copy, Debug, PartialEq, Eq, Structural)]
pub enum Capability {
    /// Search by vector similarity.
    VectorSearch,
    /// Walking along edges.
    GraphTraversal,
    /// Full-text search.
    FullTextSearch,
    /// Queries over time ranges.
    TimeSeries,
}

/// What every engine implements.
pub trait Engine: Send + Sync {
    /// The engine's name.
    fn name(&self) -> &str;

    /// What the engine can do.
    fn capabilities(&self) -> Vec<Capability>;

    /// Called after a record was inserted.
    fn on_record_insert(&self, record: &Record) -> Result<()>;

    /// Called after a record was updated.
    fn on_record_update(&self, record: &Record) -> (r: Result<()>)
        default_ensures
            r is Ok,
    {
        Ok(())
    }

    /// Called after a record was deleted.
    fn on_record_delete(&self, id: &RecordId) -> Result<()>;

    /// Writes buffered state to the engine's file.
    fn flush(&self) -> (r: Result<()>)
        default_ensures
            r is Ok,
    {
        Ok(())
    }
}

/// Which way edges are followed.
#[derive(Clone, Copy, Debug, PartialEq, Eq, Structural)]
pub enum Direction {
    /// Outgoing edges.
    Out,
    /// Incoming edges.
    In,
    /// Both.
    Both,
}

/// One step of a path.
#[derive(Clone, Debug)]
pub struct TraversalStep {
    /// The edge type to follow.
    pub edge_type: String,
    /// Which way to follow it.
    pub direction: Direction,
}

impl View for TraversalStep {
    type V = (Direction, Seq<char>);

    open spec fn view(&self) -> (Direction, Seq<char>) {
        (self.direction, self.edge_type@)
    }
}

/// An edge of the graph.
#[derive(Debug)]
pub struct EdgeInfo {
    pub id: RecordId,
    pub from: RecordId,
    pub to: RecordId,
    pub edge_type: String,
    pub properties: Value,
    /// When the edge was created, as text in the ISO 8601 form.
    pub created_at: String,
}

/// An engine that holds edges between records.
pub trait GraphIndex: Engine {
    /// Creates an edge and hands out its id.
    fn relate(
        &self,
        from: RecordId,
        edge_type: &str,
        to: RecordId,
        props: Value,
    ) -> Result<RecordId>;

    /// Creates edges, in order, and hands out their ids.
    fn relate_batch(&self, edges: Vec<(RecordId, String, RecordId, Value)>) -> (r: Result<
        Vec<RecordId>,
    >)
        default_ensures
            r matches Ok(ids) ==> {
                &&& ids@.len() == edges@.len()
                &&& exists|types: Seq<&str>|
                    {
                        &&& #[trigger] types.len() == edges@.len()
                        &&& forall|j: int|
                            0 <= j < types.len() ==> (#[trigger] types[j])@ == edges@[j].1@
                                && call_ensures(
                                Self::relate,
                                (self, edges@[j].0, types[j], edges@[j].2, edges@[j].3),
                                Ok(ids@[j]),
                            )
                    }
            },
            r matches Err(e) ==> exists|types: Seq<&str>, ids: Seq<RecordId>|
                {
                    &&& 0 < #[trigger] types.len() <= edges@.len()
                    &&& #[trigger] ids.len() == types.len() - 1
                    &&& forall|j: int|
                        0 <= j < types.len() ==> (#[trigger] types[j])@ == edges@[j].1@
                    &&& forall|j: int|
                        0 <= j < ids.len() ==> call_ensures(
                            Self::relate,
                            (self, edges@[j].0, #[trigger] types[j], edges@[j].2, edges@[j].3),
                            Ok(ids[j]),
                        )
                    &&& ({
                        let j = ids.len() as int;
                        call_ensures(
                            Self::relate,
                            (self, edges@[j].0, types[j], edges@[j].2, edges@[j].3),
                            Err(e),
                        )
                    })
                },
    {
        let mut ids: Vec<RecordId> = Vec::new();
        let ghost mut types: Seq<&str> = Seq::empty();
        for e in it: edges
            invariant
                ids@.len() == it.index(),
                types.len() == it.index(),
                it.seq() == edges@,
                forall|j: int|
                    0 <= j < types.len() ==> (#[trigger] types[j])@ == edges@[j].1@ && call_ensures(
                        Self::relate,
                        (self, edges@[j].0, types[j], edges@[j].2, edges@[j].3),
                        Ok(ids@[j]),
                    ),
        {
            let ghost edge = e;
            let t = e.1.as_str();
            let made = self.relate(e.0, t, e.2, e.3);
            proof {
                assert(edge == edges@[it.index()]);
                types = types.push(t);
            }
            match made {
                Ok(id) => {
                    ids.push(id);
                },
                Err(x) => {
                    assert(ids@.len() == types.len() - 1);
                    return Err(x);
                },
            }
        }
        assert(types.len() == edges@.len());
        Ok(ids)
    }

    /// Deletes an edge; whether it existed.
    fn unrelate(&self, edge_id: &RecordId) -> Result<bool>;

    /// The records reached by a path.
    fn traverse(&self, start: RecordId, path: &[TraversalStep]) -> Result<Vec<RecordId>>;

    /// The direct neighbours of a record.
    fn neighbors(
        &self,
        id: RecordId,
        edge_type: Option<&str>,
        direction: Direction,
    ) -> Result<Vec<RecordId>>;

    /// The edges of a record.
    fn edges(
        &self,
        id: RecordId,
        edge_type: Option<&str>,
        direction: Direction,
    ) -> Result<Vec<EdgeInfo>>;

    /// How many edges there are.
    fn edge_count(&self) -> (r: usize)
        default_ensures
            r == 0,
    {
        0
    }

    /// Every edge as its id, its source and its target.
    fn all_edge_ids(&self) -> (r: Result<Vec<(RecordId, RecordId, RecordId)>>)
        default_ensures
            r is Ok && r->Ok_0@.len() == 0,
    {
        Ok(Vec::new())
    }
}

/// The longest path, in steps.
pub const MAX_DEPTH: usize = 50;

/// The longest path expression, in bytes.
pub const MAX_PATH_BYTES: usize = 4096;

/// The longest edge type, in bytes.
pub const MAX_EDGE_TYPE_LEN: usize = 256;

/// Whether an arrow starts at position `i`: `<-` (also as the start of `<->`) or `->`.
pub open spec fn arrow_at(s: Seq<char>, i: int) -> bool {
    0 <= i && i + 1 < s.len() && ((s[i] == '<' && s[i + 1] == '-') || (s[i] == '-' && s[i + 1]
        == '>'))
}

/// The position of the first arrow, or the length of the text.
pub open spec fn next_arrow(s: Seq<char>) -> nat
    decreases s.len(),
{
    if s.len() == 0 || arrow_at(s, 0) {
        0
    } else {
        1 + next_arrow(s.drop_first())
    }
}

/// The first arrow is within the text.
pub proof fn lemma_next_arrow(s: Seq<char>)
    ensures
        next_arrow(s) <= s.len(),
    decreases s.len(),
{
    if s.len() > 0 && !arrow_at(s, 0) {
        lemma_next_arrow(s.drop_first());
    }
}

/// The position of the first arrow in `v` from `from` on, or the length.
fn find_next_arrow(v: &Vec<char>, from: usize) -> (r: usize)
    requires
        from <= v@.len(),
    ensures
        from <= r <= v@.len(),
        r == from + next_arrow(v@.skip(from as int)),
{
    let mut i: usize = from;
    while i < v.len()
        invariant
            from <= i <= v@.len(),
            next_arrow(v@.skip(from as int)) == (i - from) + next_arrow(v@.skip(i as int)),
        decreases v@.len() - i,
    {
        let rest = v.len() - i;
        if rest > 1 && ((v[i] == '<' && v[i + 1] == '-') || (v[i] == '-' && v[i + 1] == '>')) {
            assert(arrow_at(v@.skip(i as int), 0));
            return i;
        }
        assert(v@.skip(i as int).drop_first() =~= v@.skip(i + 1));
        i += 1;
    }
    i
}

/// The arrow that a text starts with: its direction and its length.
pub open spec fn leading_arrow(s: Seq<char>) -> Option<(Direction, int)> {
    if s.len() >= 3 && s[0] == '<' && s[1] == '-' && s[2] == '>' {
        Some((Direction::Both, 3))
    } else if s.len() >= 2 && s[0] == '-' && s[1] == '>' {
        Some((Direction::Out, 2))
    } else if s.len() >= 2 && s[0] == '<' && s[1] == '-' {
        Some((Direction::In, 2))
    } else {
        None
    }
}

/// Whether a text holds an ASCII control character.
pub open spec fn has_control(s: Seq<char>) -> bool {
    exists|i: int| 0 <= i < s.len() && ((#[trigger] s[i] as u32) < 0x20 || s[i] as u32 == 0x7F)
}

/// What is wrong with an edge type, if anything.
pub open spec fn edge_type_error(label: Seq<char>) -> Option<Seq<char>> {
    if label.len() == 0 {
        Some("empty edge type in traversal path"@)
    } else if byte_len(label) > MAX_EDGE_TYPE_LEN {
        let shown = if label.len() < 32 {
            label
        } else {
            label.take(32)
        };
        Some("edge type exceeds 256 byte limit: '"@ + shown + "'"@)
    } else if has_control(label) {
        Some("edge type must not contain control characters"@)
    } else {
        None
    }
}

/// The steps that a path spells out, or the text of its first mistake.
pub open spec fn path_steps(s: Seq<char>) -> core::result::Result<
    Seq<(Direction, Seq<char>)>,
    Seq<char>,
>
    decreases s.len(),
{
    if s.len() == 0 {
        Ok(Seq::empty())
    } else {
        match leading_arrow(s) {
            None => Err("expected '->', '<-', or '<->' at: "@ + s),
            Some((direction, n)) => {
                let rest = s.skip(n);
                let end = next_arrow(rest) as int;
                proof {
                    lemma_next_arrow(rest);
                }
                let label = rest.take(end);
                match edge_type_error(label) {
                    Some(e) => Err(e),
                    None => match path_steps(rest.skip(end)) {
                        Err(e) => Err(e),
                        Ok(tail) => Ok(seq![(direction, label)] + tail),
                    },
                }
            },
        }
    }
}

/// What parsing a path comes to: its steps, or the text of the error.
pub open spec fn path_outcome(path: Seq<char>) -> core::result::Result<
    Seq<(Direction, Seq<char>)>,
    Seq<char>,
> {
    if path.len() == 0 {
        Err("empty traversal path"@)
    } else if byte_len(path) > MAX_PATH_BYTES {
        Err(
            "traversal path exceeds 4096 byte limit ("@ + decimal(byte_len(path)) + " bytes)"@,
        )
    } else {
        match path_steps(path) {
            Err(e) => Err(e),
            Ok(steps) => if steps.len() > MAX_DEPTH {
                Err("traversal path exceeds max depth of 50"@)
            } else {
                Ok(steps)
            },
        }
    }
}

/// The steps as they are in the model.
pub open spec fn steps_view(steps: Seq<TraversalStep>) -> Seq<(Direction, Seq<char>)> {
    steps.map_values(|s: TraversalStep| s@)
}

/// What is wrong with an edge type, if anything.
fn check_edge_type(label: &str) -> (r: Option<String>)
    ensures
        match r {
            Some(e) => edge_type_error(label@) == Some(e@),
            None => edge_type_error(label@) is None,
        },
{
    let v = chars_of(label);
    if v.len() == 0 {
        return Some("empty edge type in traversal path".to_owned());
    }
    if utf8_len(label) > MAX_EDGE_TYPE_LEN {
        let n: usize = if v.len() < 32 { v.len() } else { 32 };
        let shown = string_of(&v, 0, n);
        let mut e = String::new();
        e.append("edge type exceeds 256 byte limit: '");
        e.append(shown.as_str());
        e.append("'");
        assert(v@.subrange(0, n as int) =~= if v@.len() < 32 { v@ } else { v@.take(32) });
        assert(e@ =~= "edge type exceeds 256 byte limit: '"@ + shown@ + "'"@);
        return Some(e);
    }
    let mut i: usize = 0;
    while i < v.len()
        invariant
            v@ == label@,
            i <= v@.len(),
            forall|j: int| 0 <= j < i ==> !((#[trigger] v@[j] as u32) < 0x20 || v@[j] as u32 == 0x7F),
            edge_type_error(label@) == (if has_control(label@) {
                Some("edge type must not contain control characters"@)
            } else {
                None
            }),
        decreases v@.len() - i,
    {
        let c = v[i] as u32;
        if c < 0x20 || c == 0x7F {
            assert(has_control(label@));
            return Some("edge type must not contain control characters".to_owned());
        }
        i += 1;
    }
    None
}

/// Parses a path such as `->modified<-authored<->related` into its steps.
#[verifier::spinoff_prover]
#[verifier::rlimit(60)]
pub fn parse_path(path: &str) -> (r: Result<Vec<TraversalStep>>)
    ensures
        match (r, path_outcome(path@)) {
            (Ok(steps), Ok(model)) => steps_view(steps@) == model,
            (Err(AxilError::InvalidQuery(m)), Err(text)) => m@ == text,
            _ => false,
        },
{
    let v = chars_of(path);
    if v.len() == 0 {
        return Err(AxilError::InvalidQuery("empty traversal path".to_owned()));
    }
    let total = utf8_len(path);
    if total > MAX_PATH_BYTES {
        let mut e = String::new();
        e.append("traversal path exceeds 4096 byte limit (");
        e.append(decimal_text(total as u64).as_str());
        e.append(" bytes)");
        assert(e@ =~= "traversal path exceeds 4096 byte limit ("@ + decimal(byte_len(path@))
            + " bytes)"@);
        return Err(AxilError::InvalidQuery(e));
    }
    let mut steps: Vec<TraversalStep> = Vec::new();
    let mut at: usize = 0;
    proof {
        assert(v@.skip(0) =~= v@);
        assert(steps_view(steps@) =~= Seq::<(Direction, Seq<char>)>::empty());
        if path_steps(v@) is Ok {
            assert(Seq::<(Direction, Seq<char>)>::empty() + path_steps(v@)->Ok_0 =~= path_steps(
                v@,
            )->Ok_0);
        }
    }
    while at < v.len()
        invariant
            v@ == path@,
            0 < v@.len(),
            byte_len(path@) <= MAX_PATH_BYTES,
            at <= v@.len(),
            path_steps(v@) == (match path_steps(v@.skip(at as int)) {
                Ok(tail) => Ok(steps_view(steps@) + tail),
                Err(e) => Err(e),
            }),
        decreases v@.len() - at,
    {
        let ghost s = v@.skip(at as int);
        let left = v.len() - at;
        let (direction, n): (Direction, usize) = if left >= 3 && v[at] == '<' && v[at + 1] == '-'
            && v[at + 2] == '>' {
            (Direction::Both, 3)
        } else if left >= 2 && v[at] == '-' && v[at + 1] == '>' {
            (Direction::Out, 2)
        } else if left >= 2 && v[at] == '<' && v[at + 1] == '-' {
            (Direction::In, 2)
        } else {
            let rest = string_of(&v, at, v.len());
            let mut e = String::new();
            e.append("expected '->', '<-', or '<->' at: ");
            e.append(rest.as_str());
            assert(rest@ =~= s);
            assert(e@ =~= "expected '->', '<-', or '<->' at: "@ + s);
            return Err(AxilError::InvalidQuery(e));
        };
        let start = at + n;
        let end = find_next_arrow(&v, start);
        let label = string_of(&v, start, end);
        proof {
            assert(s.skip(n as int) =~= v@.skip(start as int));
            assert(s.skip(n as int).take(end - start) =~= label@);
            assert(s.skip(n as int).skip(end - start) =~= v@.skip(end as int));
        }
        match check_edge_type(label.as_str()) {
            Some(e) => {
                return Err(AxilError::InvalidQuery(e));
            },
            None => {},
        }
        let ghost before = steps_view(steps@);
        let step = TraversalStep { edge_type: label, direction };
        steps.push(step);
        proof {
            assert(steps_view(steps@) =~= before.push(step@));
            if path_steps(v@.skip(end as int)) is Ok {
                let tail = path_steps(v@.skip(end as int))->Ok_0;
                assert(before + (seq![step@] + tail) =~= before.push(step@) + tail);
            }
        }
        at = end;
    }
    assert(steps_view(steps@) + Seq::<(Direction, Seq<char>)>::empty() =~= steps_view(steps@));
    if steps.len() > MAX_DEPTH {
        return Err(
            AxilError::InvalidQuery("traversal path exceeds max depth of 50".to_owned()),
        );
    }
    Ok(steps)
}

/// The arrow of a direction.
pub open spec fn arrow_text(direction: Direction) -> Seq<char> {
    match direction {
        Direction::Out => seq!['-', '>'],
        Direction::In => seq!['<', '-'],
        Direction::Both => seq!['<', '-', '>'],
    }
}

/// A path written out from its steps.
pub open spec fn path_text(steps: Seq<(Direction, Seq<char>)>) -> Seq<char>
    decreases steps.len(),
{
    if steps.len() == 0 {
        Seq::empty()
    } else {
        arrow_text(steps[0].0) + steps[0].1 + path_text(steps.drop_first())
    }
}

/// Parsing loses nothing: the steps of a path, written out again, are the path.
pub proof fn parse_path_is_lossless(path: Seq<char>)
    requires
        path_outcome(path) is Ok,
    ensures
        path_text(path_outcome(path)->Ok_0) == path,
{
    lemma_steps_spell_path(path);
}

proof fn lemma_steps_spell_path(s: Seq<char>)
    requires
        path_steps(s) is Ok,
    ensures
        path_text(path_steps(s)->Ok_0) == s,
    decreases s.len(),
{
    if s.len() == 0 {
        assert(path_text(path_steps(s)->Ok_0) =~= s);
    } else {
        let (direction, n) = leading_arrow(s)->0;
        let rest = s.skip(n);
        let end = next_arrow(rest) as int;
        lemma_next_arrow(rest);
        let label = rest.take(end);
        let tail = path_steps(rest.skip(end))->Ok_0;
        lemma_steps_spell_path(rest.skip(end));
        let steps = seq![(direction, label)] + tail;
        assert(steps.drop_first() =~= tail);
        assert(arrow_text(direction) =~= s.take(n));
        assert(path_text(steps) =~= s);
    }
}

/// Whether an edge type can stand in a path: nothing is wrong with it, and it
/// holds neither `<` nor `>`.
pub open spec fn plain_label(label: Seq<char>) -> bool {
    &&& edge_type_error(label) is None
    &&& forall|i: int| 0 <= i < label.len() ==> #[trigger] label[i] != '<' && label[i] != '>'
}

/// Steps with plain edge types, written out as a path, parse to the same steps,
/// within the limits on the length of a path.
pub proof fn parse_path_undoes_writing(steps: Seq<(Direction, Seq<char>)>)
    requires
        0 < steps.len() <= MAX_DEPTH,
        byte_len(path_text(steps)) <= MAX_PATH_BYTES,
        forall|i: int| 0 <= i < steps.len() ==> plain_label((#[trigger] steps[i]).1),
    ensures
        path_outcome(path_text(steps)) == Ok::<Seq<(Direction, Seq<char>)>, Seq<char>>(steps),
{
    lemma_written_steps_parse(steps);
    assert(path_text(steps).len() > 0);
}

proof fn lemma_label_ends_at_arrow(label: Seq<char>, tail: Seq<char>)
    requires
        forall|i: int| 0 <= i < label.len() ==> #[trigger] label[i] != '<' && label[i] != '>',
        tail.len() == 0 || leading_arrow(tail) is Some,
    ensures
        next_arrow(label + tail) == label.len(),
    decreases label.len(),
{
    let s = label + tail;
    if label.len() == 0 {
        assert(s =~= tail);
    } else {
        assert(s.drop_first() =~= label.drop_first() + tail);
        lemma_label_ends_at_arrow(label.drop_first(), tail);
        if s.len() > 1 && label.len() == 1 {
            assert(s[1] == tail[0]);
        }
        if label.len() > 1 {
            assert(s[1] == label[1]);
        }
        assert(s[0] == label[0]);
        assert(!arrow_at(s, 0));
    }
}

proof fn lemma_written_steps_parse(steps: Seq<(Direction, Seq<char>)>)
    requires
        forall|i: int| 0 <= i < steps.len() ==> plain_label((#[trigger] steps[i]).1),
    ensures
        path_steps(path_text(steps)) == Ok::<Seq<(Direction, Seq<char>)>, Seq<char>>(steps),
        steps.len() > 0 ==> leading_arrow(path_text(steps)) is Some,
    decreases steps.len(),
{
    let s = path_text(steps);
    if steps.len() == 0 {
        assert(Seq::<(Direction, Seq<char>)>::empty() =~= steps);
    } else {
        let tail_steps = steps.drop_first();
        let tail = path_text(tail_steps);
        let (direction, label) = steps[0];
        let arrow = arrow_text(direction);
        assert forall|i: int| 0 <= i < tail_steps.len() implies plain_label(
            (#[trigger] tail_steps[i]).1,
        ) by {
            assert(tail_steps[i] == steps[i + 1]);
        }
        lemma_written_steps_parse(tail_steps);
        assert(plain_label(steps[0].1));
        assert(s[arrow.len() as int] == label[0]);
        assert(s[0] == arrow[0] && s[1] == arrow[1]);
        if direction == Direction::Both {
            assert(s[2] == '>');
        }
        assert(leading_arrow(s) == Some((direction, arrow.len() as int)));
        let rest = s.skip(arrow.len() as int);
        assert(rest =~= label + tail);
        if tail_steps.len() == 0 {
            assert(tail =~= Seq::empty());
        }
        lemma_label_ends_at_arrow(label, tail);
        assert(rest.take(label.len() as int) =~= label);
        assert(rest.skip(label.len() as int) =~= tail);
        assert(seq![(direction, label)] + tail_steps =~= steps);
    }
}

/// The width of the buckets that time is grouped into.
#[derive(Clone, Copy, Debug, PartialEq, Eq, Structural)]
pub enum TimeBucket {
    /// An hour.
    Hour,
    /// A day.
    Day,
    /// A week that starts on Monday.
    Week,
    /// A calendar month.
    Month,
}

/// Microseconds in an hour.
pub const HOUR_US: i64 = 3_600_000_000;

/// The Monday on or before a day, with days counted from 1970-01-01, a Thursday.
pub open spec fn week_start_day(day: int) -> int {
    day - (day + 3) % 7
}

/// The day that an instant in microseconds falls on, or 1970-01-01 where that
/// day cannot be represented.
pub open spec fn civil_day(us: i64) -> int {
    let day = us as int / DAY_US as int;
    if FIRST_DAY <= day <= LAST_DAY {
        day
    } else {
        0
    }
}

impl TimeBucket {
    /// The first microsecond of the bucket that an instant falls into.
    pub open spec fn start_of(self, us: i64) -> int {
        match self {
            TimeBucket::Hour => us - us as int % HOUR_US as int,
            TimeBucket::Day => us - us as int % DAY_US as int,
            TimeBucket::Week => week_start_day(civil_day(us)) * DAY_US,
            TimeBucket::Month => month_start(us),
        }
    }

    /// Moves an instant in microseconds to the start of its bucket.
    pub fn truncate_us(&self, us: i64) -> (r: i64)
        requires
            self is Hour || self is Day ==> i64::MIN <= self.start_of(us),
            self is Week ==> FIRST_DAY <= week_start_day(civil_day(us)),
        ensures
            r == self.start_of(us),
    {
        match self {
            TimeBucket::Hour => us - floor_mod(us, HOUR_US),
            TimeBucket::Day => us - floor_mod(us, DAY_US),
            TimeBucket::Week => {
                let d = floor_div(us, DAY_US);
                let day: i64 = if FIRST_DAY <= d && d <= LAST_DAY { d } else { 0 };
                (day - floor_mod(day + 3, 7)) * DAY_US
            },
            TimeBucket::Month => month_start_us(us),
        }
    }
}

/// The start of a bucket of fixed width is at most one width before the instant,
/// and it is the start of its own bucket.
pub proof fn fixed_buckets_are_aligned(bucket: TimeBucket, us: i64)
    requires
        bucket is Hour || bucket is Day,
        i64::MIN <= bucket.start_of(us),
    ensures
        bucket.start_of(us) <= us < bucket.start_of(us) + (if bucket is Hour {
            HOUR_US
        } else {
            DAY_US
        }),
        bucket.start_of(bucket.start_of(us) as i64) == bucket.start_of(us),
{
}

/// The start of a week is a Monday at most six days before the instant's day,
/// and it is the start of its own week.
pub proof fn weeks_start_on_monday(us: i64)
    requires
        FIRST_DAY <= us as int / DAY_US as int <= LAST_DAY,
        FIRST_DAY <= week_start_day(civil_day(us)),
    ensures
        TimeBucket::Week.start_of(us) <= us < TimeBucket::Week.start_of(us) + 7 * DAY_US,
        (TimeBucket::Week.start_of(us) / DAY_US as int + 3) % 7 == 0,
        TimeBucket::Week.start_of(TimeBucket::Week.start_of(us) as i64)
            == TimeBucket::Week.start_of(us),
{
}

/// An engine that answers queries over time ranges.
pub trait TimeSeriesIndex: Engine {
    /// The records of a range of microseconds since 1970-01-01, both ends in it.
    fn range(&self, table: Option<&str>, start_us: i64, end_us: i64) -> Result<Vec<RecordId>>;

    /// The records created in the last seconds.
    fn since(&self, table: Option<&str>, duration_secs: u64) -> Result<Vec<RecordId>>;

    /// The newest records, newest first.
    fn latest(&self, table: Option<&str>, limit: usize) -> Result<Vec<RecordId>>;

    /// The records updated in the last seconds.
    fn changed_since(&self, table: Option<&str>, duration_secs: u64) -> Result<Vec<RecordId>>;

    /// The records updated at or after an instant in microseconds.
    fn changed_since_absolute(
        &self,
        table: Option<&str>,
        threshold_us: i64,
    ) -> Result<Vec<RecordId>>;

    /// The number of records per bucket, in the order of time.
    fn count_by_bucket(
        &self,
        table: Option<&str>,
        bucket: TimeBucket,
        start_us: i64,
        end_us: i64,
    ) -> Result<Vec<(i64, usize)>>;

    /// How many entries are indexed.
    fn entry_count(&self) -> usize;
}

/// A path of one step spells out which way it goes: `->` out, `<-` in, and `<->` both ways,
/// along the edge type that follows. Paths of several steps are such steps in a row.
pub proof fn arrows_say_which_way(
    path: &str,
    label: Seq<char>,
    r: Result<Vec<TraversalStep>>,
)
    requires
        call_ensures(parse_path, (path,), r),
        0 < label.len(),
        byte_len(label) <= 256,
        byte_len(path@) <= 4096,
        forall|i: int|
            0 <= i < label.len() ==> #[trigger] label[i] != '<' && label[i] != '>' && label[i]
                as u32 >= 0x20 && label[i] as u32 != 0x7F,
    ensures
        path@ == "->"@ + label ==> (r matches Ok(s) && s@.len() == 1 && s@[0].direction
            == Direction::Out && s@[0].edge_type@ == label),
        path@ == "<-"@ + label ==> (r matches Ok(s) && s@.len() == 1 && s@[0].direction
            == Direction::In && s@[0].edge_type@ == label),
        path@ == "<->"@ + label ==> (r matches Ok(s) && s@.len() == 1 && s@[0].direction
            == Direction::Both && s@[0].edge_type@ == label),
{
    reveal_strlit("->");
    reveal_strlit("<-");
    reveal_strlit("<->");
    assert("->"@ =~= seq!['-', '>'] && "<-"@ =~= seq!['<', '-'] && "<->"@ =~= seq!['<', '-', '>']);
    assert(!has_control(label));
    assert(plain_label(label));
    lemma_one_step(path, label, Direction::Out, r);
    lemma_one_step(path, label, Direction::In, r);
    lemma_one_step(path, label, Direction::Both, r);
}

/// A path of one step parses to that step.
proof fn lemma_one_step(
    path: &str,
    label: Seq<char>,
    d: Direction,
    r: Result<Vec<TraversalStep>>,
)
    requires
        call_ensures(parse_path, (path,), r),
        byte_len(path@) <= 4096,
        plain_label(label),
    ensures
        path@ == arrow_text(d) + label ==> (r matches Ok(s) && s@.len() == 1 && s@[0].direction == d
            && s@[0].edge_type@ == label),
{
    if path@ == arrow_text(d) + label {
        let one = seq![(d, label)];
        assert(one.drop_first().len() == 0);
        assert(path_text(one.drop_first()) =~= Seq::empty());
        assert(path_text(one) =~= path@);
        parse_path_undoes_writing(one);
        let s = r->Ok_0;
        assert(steps_view(s@).len() == s@.len());
        assert(steps_view(s@)[0] == s@[0]@);
    }
}

/// The steps of a path are at most fifty, each along an edge type that is not empty, takes
/// 256 bytes at most and holds no control character. No path, and one of over 4096 bytes, is
/// refused, and so is one that does not begin with an arrow.
pub proof fn paths_keep_to_the_limits(path: &str, r: Result<Vec<TraversalStep>>, i: int)
    requires
        call_ensures(parse_path, (path,), r),
    ensures
        path@.len() == 0 ==> r is Err,
        byte_len(path@) > 4096 ==> r is Err,
        path@.len() > 0 && path@[0] != '<' && path@[0] != '-' ==> r is Err,
        r matches Ok(s) ==> s@.len() <= 50,
        r matches Ok(s) ==> (0 <= i < s@.len() ==> s@[i].edge_type@.len() > 0 && byte_len(
            s@[i].edge_type@,
        ) <= 256 && forall|k: int|
            0 <= k < s@[i].edge_type@.len() ==> (#[trigger] s@[i].edge_type@[k]) as u32 >= 0x20
                && s@[i].edge_type@[k] as u32 != 0x7F),
        r matches Err(e) ==> e is InvalidQuery,
{
    if r is Ok {
        let s = r->Ok_0;
        let v = steps_view(s@);
        assert(v.len() == s@.len());
        lemma_labels_are_fine(path@);
        if 0 <= i < s@.len() {
            assert(v[i] == s@[i]@);
            assert(edge_type_error(v[i].1) is None);
            assert(!has_control(s@[i].edge_type@));
        }
    }
}

/// Nothing is wrong with the edge types of a path.
proof fn lemma_labels_are_fine(s: Seq<char>)
    requires
        path_steps(s) is Ok,
    ensures
        forall|i: int|
            0 <= i < path_steps(s)->Ok_0.len() ==> edge_type_error(
                (#[trigger] path_steps(s)->Ok_0[i]).1,
            ) is None,
    decreases s.len(),
{
    if s.len() > 0 {
        let (direction, n) = leading_arrow(s)->0;
        let rest = s.skip(n);
        let end = next_arrow(rest) as int;
        lemma_next_arrow(rest);
        let label = rest.take(end);
        let tail = path_steps(rest.skip(end))->Ok_0;
        lemma_labels_are_fine(rest.skip(end));
        let all = path_steps(s)->Ok_0;
        assert(all == seq![(direction, label)] + tail);
        assert forall|i: int| 0 <= i < all.len() implies edge_type_error(
            (#[trigger] all[i]).1,
        ) is None by {
            if i > 0 {
                assert(all[i] == tail[i - 1]);
            }
        }
    }
}

/// The start of a bucket: of an hour on the hour, of a day at midnight, of a week on a
/// Monday at midnight, of a month on its first day, and never after the instant.
pub proof fn buckets_begin_before_the_instant(bucket: &TimeBucket, us: i64, r: i64)
    requires
        FIRST_DAY + 7 <= us as int / 86_400_000_000 <= LAST_DAY,
        i64::MIN + 7 * 86_400_000_000 <= us,
        call_ensures(TimeBucket::truncate_us, (bucket, us), r),
    ensures
        r <= us,
        *bucket is Hour ==> us < r + 3_600_000_000 && r % 3_600_000_000 == 0,
        *bucket is Day ==> us < r + 86_400_000_000 && r % 86_400_000_000 == 0,
        *bucket is Week ==> us < r + 7 * 86_400_000_000 && r % 86_400_000_000 == 0 && (r as int
            / 86_400_000_000 + 3) % 7 == 0,
        *bucket is Month ==> exists|y: int, m: int|
            1 <= m <= 12 && r == #[trigger] crate::time::month_first(y, m) * 86_400_000_000 && us
                < crate::time::month_first(y, m + 1) * 86_400_000_000,
{
    assert(DAY_US == 86_400_000_000 && HOUR_US == 3_600_000_000);
    match *bucket {
        TimeBucket::Week => {
            weeks_start_on_monday(us);
        },
        TimeBucket::Month => {
            crate::time::months_begin_on_the_first(us);
            let (y, m) = choose|y: int, m: int|
                1 <= m <= 12 && #[trigger] crate::time::month_first(y, m) * DAY_US == month_start(us)
                    && month_start(us) <= us < crate::time::month_first(y, m + 1) * DAY_US;
            assert(r == crate::time::month_first(y, m) * 86_400_000_000);
        },
        _ => {},
    }
}

} // verus!
