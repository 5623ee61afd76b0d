//! Facts that follow from the edges of the graph by fixed rules.

use crate::db::link::ONE_BITS;
use crate::error::{AxilError, Result};
use crate::json::{Json, Number, Value};
use crate::plugin::{Direction, EdgeInfo, GraphIndex};
use crate::record::{Record, RecordId};
use crate::text::{collected, join2, join4, join5, join6, join9, same_text};
use vstd::prelude::*;

verus! {

/// A fact that was inferred. The confidence is held by the bits of the double that
/// the single-precision number widens to.
#[derive(Debug)]
pub struct InferredFact {
    /// The fact in words.
    pub fact: String,
    /// Always `inferred`.
    pub source: String,
    /// The steps that led to the fact.
    pub reasoning: Vec<String>,
    /// How sure the fact is, from 0 to 1.
    pub confidence: u64,
    /// The edge that the fact stands for.
    pub derived_edge: String,
    /// Where that edge begins.
    pub from: RecordId,
    /// Where that edge ends.
    pub to: RecordId,
}

/// A fact, in the model.
#[verifier::ext_equal]
pub struct FactView {
    pub fact: Seq<char>,
    pub source: Seq<char>,
    pub reasoning: Seq<Seq<char>>,
    pub confidence: u64,
    pub derived_edge: Seq<char>,
    pub from: Seq<char>,
    pub to: Seq<char>,
}

/// Texts, in the model.
pub open spec fn texts_view(t: Seq<String>) -> Seq<Seq<char>> {
    t.map_values(|x: String| x@)
}

impl View for InferredFact {
    type V = FactView;

    open spec fn view(&self) -> FactView {
        FactView {
            fact: self.fact@,
            source: self.source@,
            reasoning: texts_view(self.reasoning@),
            confidence: self.confidence,
            derived_edge: self.derived_edge@,
            from: self.from@,
            to: self.to@,
        }
    }
}

/// Facts, in the model.
pub open spec fn facts_view(f: Seq<InferredFact>) -> Seq<FactView> {
    f.map_values(|x: InferredFact| x@)
}

/// A rule: where a path of these edges leads from one record to another, an edge of
/// the derived type holds between them. Paths of one or two edges are followed.
#[derive(Clone, Debug)]
pub struct InferenceRule {
    /// The name of the rule.
    pub name: String,
    /// The edges of the path, each with the way that it is followed.
    pub pattern: Vec<(String, Direction)>,
    /// The edge that follows.
    pub derived_edge: String,
    /// How sure a fact of this rule is, as in a fact.
    pub confidence: u64,
}

/// The bits of the double that 0.8 in single precision widens to.
pub const OWNERSHIP_CONFIDENCE: u64 = 0x3fe9_9999_a000_0000;

/// The bits of the double that 0.6 in single precision widens to.
pub const IMPACT_CONFIDENCE: u64 = 0x3fe3_3333_4000_0000;

/// The bits of the double that 0.9 in single precision widens to.
pub const SUPERSEDING_CONFIDENCE: u64 = 0x3fec_cccc_c000_0000;

/// Whether a rule has this name, this path of outgoing edges and this conclusion.
pub open spec fn rule_is(
    r: InferenceRule,
    name: Seq<char>,
    path: Seq<Seq<char>>,
    derived: Seq<char>,
    confidence: u64,
) -> bool {
    &&& r.name@ == name
    &&& r.pattern@.len() == path.len()
    &&& forall|i: int|
        0 <= i < path.len() ==> (#[trigger] r.pattern@[i]).0@ == path[i] && r.pattern@[i].1
            == Direction::Out
    &&& r.derived_edge@ == derived
    &&& r.confidence == confidence
}

/// Whether rules are those that every engine has.
pub open spec fn are_builtin(r: Seq<InferenceRule>) -> bool {
    &&& r.len() == 3
    &&& rule_is(
        r[0],
        "transitive_ownership"@,
        seq!["manages"@, "part_of"@],
        "works_in"@,
        OWNERSHIP_CONFIDENCE,
    )
    &&& rule_is(
        r[1],
        "impact_propagation"@,
        seq!["depends_on"@, "has_issue"@],
        "may_be_affected"@,
        IMPACT_CONFIDENCE,
    )
    &&& rule_is(
        r[2],
        "temporal_superseding"@,
        seq!["supersedes"@],
        "outdated"@,
        SUPERSEDING_CONFIDENCE,
    )
}

/// A rule with a path of two outgoing edges.
fn path_rule(name: &str, first: &str, second: &str, derived: &str, confidence: u64) -> (r:
    InferenceRule)
    ensures
        rule_is(r, name@, seq![first@, second@], derived@, confidence),
{
    let mut pattern: Vec<(String, Direction)> = Vec::new();
    pattern.push((first.to_owned(), Direction::Out));
    pattern.push((second.to_owned(), Direction::Out));
    InferenceRule { name: name.to_owned(), pattern, derived_edge: derived.to_owned(), confidence }
}

/// The rules that every engine has.
pub fn builtin_rules() -> (r: Vec<InferenceRule>)
    ensures
        are_builtin(r@),
{
    let mut rules: Vec<InferenceRule> = Vec::new();
    rules.push(
        path_rule("transitive_ownership", "manages", "part_of", "works_in", OWNERSHIP_CONFIDENCE),
    );
    rules.push(
        path_rule(
            "impact_propagation",
            "depends_on",
            "has_issue",
            "may_be_affected",
            IMPACT_CONFIDENCE,
        ),
    );
    let mut pattern: Vec<(String, Direction)> = Vec::new();
    pattern.push(("supersedes".to_owned(), Direction::Out));
    rules.push(
        InferenceRule {
            name: "temporal_superseding".to_owned(),
            pattern,
            derived_edge: "outdated".to_owned(),
            confidence: SUPERSEDING_CONFIDENCE,
        },
    );
    rules
}

/// The end of an edge that is not this record.
pub open spec fn neighbor_of(e: EdgeInfo, id: Seq<char>) -> Seq<char> {
    if e.from@ == id {
        e.to@
    } else {
        e.from@
    }
}

/// The end of an edge that is not this record.
pub fn neighbor_from_edge(edge: &EdgeInfo, from: &RecordId) -> (r: RecordId)
    ensures
        r@ == neighbor_of(*edge, from@),
{
    if edge.from.same(from) {
        edge.to.copy()
    } else {
        edge.from.copy()
    }
}

/// A step in words.
pub open spec fn step_text(from: Seq<char>, edge: Seq<char>, to: Seq<char>) -> Seq<char> {
    from + " -["@ + edge + "]-> "@ + to
}

/// The fact that a path of two edges gives.
pub open spec fn path_fact(
    start: Seq<char>,
    rule: InferenceRule,
    mid: Seq<char>,
    end: Seq<char>,
) -> FactView {
    let derived = rule.derived_edge@;
    FactView {
        fact: start + " "@ + derived + " "@ + end + " (via "@ + rule.name@ + " through "@ + mid
            + ")"@,
        source: "inferred"@,
        reasoning: seq![
            "rule: "@ + rule.name@,
            step_text(start, rule.pattern@[0].0@, mid),
            step_text(mid, rule.pattern@[1].0@, end),
            "therefore: "@ + start + " -["@ + derived + "]-> "@ + end,
        ],
        confidence: rule.confidence,
        derived_edge: derived,
        from: start,
        to: end,
    }
}

/// The fact that one edge gives.
pub open spec fn edge_fact(start: Seq<char>, rule: InferenceRule, target: Seq<char>) -> FactView {
    let derived = rule.derived_edge@;
    FactView {
        fact: target + " is "@ + derived + " (superseded by "@ + start + ")"@,
        source: "inferred"@,
        reasoning: seq![
            "rule: "@ + rule.name@,
            step_text(start, rule.pattern@[0].0@, target),
            "therefore: "@ + target + " is "@ + derived,
        ],
        confidence: rule.confidence,
        derived_edge: derived,
        from: start,
        to: target,
    }
}

/// The fact that the last edge of a path gives, if it does not lead back to its start.
pub open spec fn end_fact(
    start: Seq<char>,
    rule: InferenceRule,
    mid: Seq<char>,
    e: EdgeInfo,
) -> Option<FactView> {
    let end = neighbor_of(e, mid);
    if end == start {
        None
    } else {
        Some(path_fact(start, rule, mid, end))
    }
}

/// The facts that the edges of a record on the way give.
pub open spec fn end_facts(
    start: Seq<char>,
    rule: InferenceRule,
    mid: Seq<char>,
    ends: Seq<EdgeInfo>,
) -> Seq<FactView> {
    collected(ends, |e: EdgeInfo| end_fact(start, rule, mid, e))
}

/// The facts that paths of two edges give: the first edges, and for each of them
/// those of the record that it leads to.
pub open spec fn path_facts(
    start: Seq<char>,
    rule: InferenceRule,
    mids: Seq<EdgeInfo>,
    ends: Seq<Vec<EdgeInfo>>,
) -> Seq<FactView>
    decreases mids.len(),
{
    if mids.len() == 0 {
        Seq::empty()
    } else {
        path_facts(start, rule, mids.drop_last(), ends) + end_facts(
            start,
            rule,
            neighbor_of(mids.last(), start),
            ends[mids.len() - 1]@,
        )
    }
}

/// The facts that a rule gives for a record: by its edges, and for a longer path by
/// those of the records that they lead to.
pub open spec fn rule_facts(
    start: Seq<char>,
    rule: InferenceRule,
    edges: Seq<EdgeInfo>,
    ends: Seq<Vec<EdgeInfo>>,
) -> Seq<FactView> {
    if rule.pattern@.len() == 0 {
        Seq::empty()
    } else if rule.pattern@.len() == 1 {
        edges.map_values(|e: EdgeInfo| edge_fact(start, rule, neighbor_of(e, start)))
    } else {
        path_facts(start, rule, edges, ends)
    }
}

/// A step in words.
fn step(from: &RecordId, edge: &str, to: &RecordId) -> (r: String)
    ensures
        r@ == step_text(from@, edge@, to@),
{
    join5(from.as_str(), " -[", edge, "]-> ", to.as_str())
}

/// The fact that a path of two edges gives.
fn fact_of_path(start: &RecordId, rule: &InferenceRule, mid: &RecordId, end: RecordId) -> (r:
    InferredFact)
    requires
        rule.pattern@.len() >= 2,
    ensures
        r@ == path_fact(start@, *rule, mid@, end@),
{
    let derived = rule.derived_edge.as_str();
    let name = rule.name.as_str();
    let mut reasoning: Vec<String> = Vec::new();
    reasoning.push(join2("rule: ", name));
    reasoning.push(step(start, rule.pattern[0].0.as_str(), mid));
    reasoning.push(step(mid, rule.pattern[1].0.as_str(), &end));
    reasoning.push(
        join6("therefore: ", start.as_str(), " -[", derived, "]-> ", end.as_str()),
    );
    let said = join9(
        start.as_str(),
        " ",
        derived,
        " ",
        end.as_str(),
        " (via ",
        name,
        " through ",
        mid.as_str(),
    );
    let r = InferredFact {
        fact: join2(said.as_str(), ")"),
        source: "inferred".to_owned(),
        reasoning,
        confidence: rule.confidence,
        derived_edge: rule.derived_edge.clone(),
        from: start.copy(),
        to: end,
    };
    assert(r@ =~= path_fact(start@, *rule, mid@, end@)) by {
        assert(r@.reasoning =~= path_fact(start@, *rule, mid@, end@).reasoning);
    }
    r
}

/// The fact that one edge gives.
fn fact_of_edge(start: &RecordId, rule: &InferenceRule, target: RecordId) -> (r: InferredFact)
    requires
        rule.pattern@.len() >= 1,
    ensures
        r@ == edge_fact(start@, *rule, target@),
{
    let derived = rule.derived_edge.as_str();
    let mut reasoning: Vec<String> = Vec::new();
    reasoning.push(join2("rule: ", rule.name.as_str()));
    reasoning.push(step(start, rule.pattern[0].0.as_str(), &target));
    reasoning.push(join4("therefore: ", target.as_str(), " is ", derived));
    let r = InferredFact {
        fact: join6(target.as_str(), " is ", derived, " (superseded by ", start.as_str(), ")"),
        source: "inferred".to_owned(),
        reasoning,
        confidence: rule.confidence,
        derived_edge: rule.derived_edge.clone(),
        from: start.copy(),
        to: target,
    };
    assert(r@ =~= edge_fact(start@, *rule, target@)) by {
        assert(r@.reasoning =~= edge_fact(start@, *rule, target@).reasoning);
    }
    r
}

/// Adds the facts that the edges of a record on the way give.
fn add_end_facts(
    out: &mut Vec<InferredFact>,
    start: &RecordId,
    rule: &InferenceRule,
    mid: &RecordId,
    ends: &Vec<EdgeInfo>,
)
    requires
        rule.pattern@.len() >= 2,
    ensures
        facts_view(final(out)@) == facts_view(old(out)@) + end_facts(start@, *rule, mid@, ends@),
{
    let ghost base = facts_view(out@);
    let ghost f = |e: EdgeInfo| end_fact(start@, *rule, mid@, e);
    let mut i: usize = 0;
    assert(facts_view(out@) =~= base + collected(ends@.take(0), f));
    while i < ends.len()
        invariant
            i <= ends@.len(),
            rule.pattern@.len() >= 2,
            f == (|e: EdgeInfo| end_fact(start@, *rule, mid@, e)),
            facts_view(out@) == base + collected(ends@.take(i as int), f),
        decreases ends@.len() - i,
    {
        proof {
            assert(ends@.take(i + 1).drop_last() =~= ends@.take(i as int));
            assert(ends@.take(i + 1).last() == ends@[i as int]);
        }
        let end = neighbor_from_edge(&ends[i], mid);
        if !end.same(start) {
            let fact = fact_of_path(start, rule, mid, end);
            let ghost before = facts_view(out@);
            let ghost x = fact@;
            out.push(fact);
            proof {
                assert(facts_view(out@) =~= before.push(x));
                assert(facts_view(out@) =~= base + collected(ends@.take(i as int), f).push(x));
            }
        }
        i += 1;
    }
    assert(ends@.take(i as int) =~= ends@);
}

/// The facts that a rule gives for a record, given its edges of the first type, and
/// for a longer path those of the second type of each record that they lead to.
pub fn apply_rule_to(
    start: &RecordId,
    rule: &InferenceRule,
    edges: &Vec<EdgeInfo>,
    ends: &Vec<Vec<EdgeInfo>>,
) -> (r: Vec<InferredFact>)
    requires
        rule.pattern@.len() >= 2 ==> ends@.len() == edges@.len(),
    ensures
        facts_view(r@) == rule_facts(start@, *rule, edges@, ends@),
{
    let mut out: Vec<InferredFact> = Vec::new();
    if rule.pattern.len() == 0 {
        assert(facts_view(out@) =~= Seq::<FactView>::empty());
        return out;
    }
    let mut i: usize = 0;
    if rule.pattern.len() == 1 {
        let ghost f = |e: EdgeInfo| edge_fact(start@, *rule, neighbor_of(e, start@));
        while i < edges.len()
            invariant
                i <= edges@.len(),
                rule.pattern@.len() == 1,
                f == (|e: EdgeInfo| edge_fact(start@, *rule, neighbor_of(e, start@))),
                out@.len() == i,
                forall|j: int| 0 <= j < i ==> (#[trigger] out@[j])@ == f(edges@[j]),
            decreases edges@.len() - i,
        {
            let target = neighbor_from_edge(&edges[i], start);
            out.push(fact_of_edge(start, rule, target));
            i += 1;
        }
        assert(facts_view(out@) =~= edges@.map_values(f));
        return out;
    }
    assert(facts_view(out@) =~= path_facts(start@, *rule, edges@.take(0), ends@));
    while i < edges.len()
        invariant
            i <= edges@.len(),
            rule.pattern@.len() >= 2,
            ends@.len() == edges@.len(),
            facts_view(out@) == path_facts(start@, *rule, edges@.take(i as int), ends@),
        decreases edges@.len() - i,
    {
        let mid = neighbor_from_edge(&edges[i], start);
        proof {
            assert(edges@.take(i + 1).drop_last() =~= edges@.take(i as int));
            assert(edges@.take(i + 1).last() == edges@[i as int]);
        }
        add_end_facts(&mut out, start, rule, &mid, &ends[i]);
        i += 1;
    }
    assert(edges@.take(i as int) =~= edges@);
    out
}

/// Whether a fact is one that a rule can give for a record.
pub open spec fn given_by(f: FactView, start: Seq<char>, rule: InferenceRule) -> bool {
    &&& f.source == "inferred"@
    &&& f.from == start
    &&& f.derived_edge == rule.derived_edge@
    &&& f.confidence == rule.confidence
    &&& f.reasoning.len() > 0
    &&& f.reasoning[0] == "rule: "@ + rule.name@
    &&& rule.pattern@.len() >= 2 ==> f.to != start
}

/// Whatever the edges are: every fact names its rule and its start, and a longer path
/// never gives a fact of a record about itself.
pub proof fn facts_name_their_rule(
    start: Seq<char>,
    rule: InferenceRule,
    edges: Seq<EdgeInfo>,
    ends: Seq<Vec<EdgeInfo>>,
)
    ensures
        forall|i: int|
            0 <= i < rule_facts(start, rule, edges, ends).len() ==> given_by(
                #[trigger] rule_facts(start, rule, edges, ends)[i],
                start,
                rule,
            ),
    decreases edges.len(),
{
    if rule.pattern@.len() >= 2 && edges.len() > 0 {
        facts_name_their_rule(start, rule, edges.drop_last(), ends);
        let before = rule_facts(start, rule, edges.drop_last(), ends);
        let mid = neighbor_of(edges.last(), start);
        let last = ends[edges.len() - 1]@;
        lemma_end_facts(start, rule, mid, last);
        let all = rule_facts(start, rule, edges, ends);
        assert(all == before + end_facts(start, rule, mid, last));
        assert forall|i: int| 0 <= i < all.len() implies given_by(#[trigger] all[i], start, rule) by {
            if i < before.len() {
                assert(all[i] == before[i]);
            } else {
                assert(all[i] == end_facts(start, rule, mid, last)[i - before.len()]);
            }
        }
    }
}

/// The facts that the edges of a record on the way give name their rule.
proof fn lemma_end_facts(
    start: Seq<char>,
    rule: InferenceRule,
    mid: Seq<char>,
    ends: Seq<EdgeInfo>,
)
    requires
        rule.pattern@.len() >= 2,
    ensures
        forall|i: int|
            0 <= i < end_facts(start, rule, mid, ends).len() ==> given_by(
                #[trigger] end_facts(start, rule, mid, ends)[i],
                start,
                rule,
            ),
    decreases ends.len(),
{
    if ends.len() > 0 {
        lemma_end_facts(start, rule, mid, ends.drop_last());
        let before = end_facts(start, rule, mid, ends.drop_last());
        let all = end_facts(start, rule, mid, ends);
        match end_fact(start, rule, mid, ends.last()) {
            Some(x) => {
                assert(all == before.push(x));
                assert forall|i: int| 0 <= i < all.len() implies given_by(
                    #[trigger] all[i],
                    start,
                    rule,
                ) by {
                    if i < before.len() {
                        assert(all[i] == before[i]);
                    }
                }
            },
            None => {
                assert(all == before);
            },
        }
    }
}

/// Whether two facts stand for the same edge.
pub open spec fn same_edge(a: FactView, b: FactView) -> bool {
    a.from == b.from && a.to == b.to && a.derived_edge == b.derived_edge
}

/// Whether some of the facts stands for the edge of another.
pub open spec fn has_edge(facts: Seq<FactView>, f: FactView) -> bool {
    exists|i: int| 0 <= i < facts.len() && same_edge(#[trigger] facts[i], f)
}

/// The facts without those that repeat the edge of one before them.
pub open spec fn without_repeats(f: Seq<FactView>) -> Seq<FactView>
    decreases f.len(),
{
    if f.len() == 0 {
        Seq::empty()
    } else {
        let before = without_repeats(f.drop_last());
        if has_edge(before, f.last()) {
            before
        } else {
            before.push(f.last())
        }
    }
}

/// Whether some of the facts stands for the edge of another.
fn stands_for_edge(facts: &Vec<InferredFact>, fact: &InferredFact) -> (r: bool)
    ensures
        r == has_edge(facts_view(facts@), fact@),
{
    let ghost all = facts_view(facts@);
    let mut i: usize = 0;
    while i < facts.len()
        invariant
            i <= facts@.len(),
            all == facts_view(facts@),
            forall|j: int| 0 <= j < i ==> !same_edge(#[trigger] all[j], fact@),
        decreases facts@.len() - i,
    {
        let f = &facts[i];
        assert(all[i as int] == f@);
        if f.from.same(&fact.from) && f.to.same(&fact.to) && same_text(
            f.derived_edge.as_str(),
            fact.derived_edge.as_str(),
        ) {
            assert(same_edge(all[i as int], fact@));
            return true;
        }
        i += 1;
    }
    false
}

/// The facts without those that repeat the edge of one before them.
pub fn drop_repeats(facts: Vec<InferredFact>) -> (r: Vec<InferredFact>)
    ensures
        facts_view(r@) == without_repeats(facts_view(facts@)),
{
    let ghost all = facts_view(facts@);
    let mut out: Vec<InferredFact> = Vec::new();
    assert(facts_view(out@) =~= without_repeats(all.take(0)));
    for fact in it: facts
        invariant
            it.seq() == facts@,
            all == facts_view(facts@),
            facts_view(out@) == without_repeats(all.take(it.index())),
    {
        proof {
            let i = it.index();
            assert(all.take(i + 1).drop_last() =~= all.take(i));
            assert(all.take(i + 1).last() == fact@);
        }
        if !stands_for_edge(&out, &fact) {
            let ghost before = facts_view(out@);
            let ghost x = fact@;
            out.push(fact);
            assert(facts_view(out@) =~= before.push(x));
        }
    }
    assert(all.take(all.len() as int) =~= all);
    out
}

/// No two facts are left that stand for the same edge, every fact that was given has
/// one left for its edge, and each that is left is one of those that were given.
pub proof fn repeats_are_dropped(f: Seq<FactView>)
    ensures
        forall|i: int, j: int|
            0 <= i < j < without_repeats(f).len() ==> !same_edge(
                #[trigger] without_repeats(f)[i],
                #[trigger] without_repeats(f)[j],
            ),
        forall|i: int| 0 <= i < f.len() ==> has_edge(without_repeats(f), #[trigger] f[i]),
        forall|i: int|
            0 <= i < without_repeats(f).len() ==> f.contains(#[trigger] without_repeats(f)[i]),
    decreases f.len(),
{
    if f.len() > 0 {
        let rest = f.drop_last();
        repeats_are_dropped(rest);
        let before = without_repeats(rest);
        let all = without_repeats(f);
        assert forall|i: int, j: int| 0 <= i < j < all.len() implies !same_edge(
            #[trigger] all[i],
            #[trigger] all[j],
        ) by {
            assert(all[i] == before[i]);
            if j < before.len() {
                assert(all[j] == before[j]);
            }
        }
        assert forall|i: int| 0 <= i < f.len() implies has_edge(all, #[trigger] f[i]) by {
            if has_edge(before, f[i]) {
                let k = choose|k: int| 0 <= k < before.len() && same_edge(#[trigger] before[k], f[i]);
                assert(same_edge(all[k], f[i]));
            } else if i < rest.len() {
                assert(f[i] == rest[i]);
            } else {
                assert(same_edge(all[before.len() as int], f[i]));
            }
        }
        assert forall|i: int| 0 <= i < all.len() implies f.contains(#[trigger] all[i]) by {
            if i < before.len() {
                assert(all[i] == before[i]);
                let k = choose|k: int| 0 <= k < rest.len() && rest[k] == all[i];
                assert(f[k] == all[i]);
            } else {
                assert(f[f.len() - 1] == all[i]);
            }
        }
    }
}

/// Whether the data of a record says that a fact was rejected.
pub open spec fn rejects(data: Json, f: FactView) -> bool {
    &&& data.flag_member("_rejected"@)
    &&& data.text_member("from"@) == Some(f.from)
    &&& data.text_member("derived_edge"@) == Some(f.derived_edge)
    &&& data.text_member("to"@) == Some(f.to)
}

/// Whether one of the records says that a fact was rejected.
pub open spec fn is_rejected(records: Seq<Record>, f: FactView) -> bool {
    exists|i: int| 0 <= i < records.len() && rejects((#[trigger] records[i]).data.model(), f)
}

/// The facts without those that were rejected.
pub open spec fn without_rejected(f: Seq<FactView>, records: Seq<Record>) -> Seq<FactView> {
    f.filter(|x: FactView| !is_rejected(records, x))
}

/// Whether one of the records says that a fact was rejected.
fn was_rejected(records: &Vec<Record>, fact: &InferredFact) -> (r: bool)
    ensures
        r == is_rejected(records@, fact@),
{
    let mut i: usize = 0;
    while i < records.len()
        invariant
            i <= records@.len(),
            forall|j: int|
                0 <= j < i ==> !rejects((#[trigger] records@[j]).data.model(), fact@),
        decreases records@.len() - i,
    {
        let data = &records[i].data;
        if data.flag("_rejected") {
            if let (Some(from), Some(edge), Some(to)) = (
                data.get_str("from"),
                data.get_str("derived_edge"),
                data.get_str("to"),
            ) {
                if same_text(from, fact.from.as_str()) && same_text(
                    edge,
                    fact.derived_edge.as_str(),
                ) && same_text(to, fact.to.as_str()) {
                    assert(rejects(records@[i as int].data.model(), fact@));
                    return true;
                }
            }
        }
        i += 1;
    }
    false
}

/// The facts without those that were rejected.
pub fn drop_rejected(facts: Vec<InferredFact>, records: &Vec<Record>) -> (r: Vec<InferredFact>)
    ensures
        facts_view(r@) == without_rejected(facts_view(facts@), records@),
{
    let ghost all = facts_view(facts@);
    let ghost keep = |x: FactView| !is_rejected(records@, x);
    let mut out: Vec<InferredFact> = Vec::new();
    proof {
        reveal(Seq::filter);
        assert(facts_view(out@) =~= all.take(0).filter(keep));
    }
    for fact in it: facts
        invariant
            it.seq() == facts@,
            all == facts_view(facts@),
            keep == (|x: FactView| !is_rejected(records@, x)),
            facts_view(out@) == all.take(it.index()).filter(keep),
    {
        proof {
            reveal(Seq::filter);
            let i = it.index();
            assert(all.take(i + 1).drop_last() =~= all.take(i));
            assert(all.take(i + 1).last() == fact@);
        }
        if !was_rejected(records, &fact) {
            let ghost before = facts_view(out@);
            let ghost x = fact@;
            out.push(fact);
            assert(facts_view(out@) =~= before.push(x));
        }
    }
    assert(all.take(all.len() as int) =~= all);
    out
}

/// A fact that was stored and then rejected is not inferred again: none that is left
/// stands for its edge.
pub proof fn rejected_facts_stay_out(
    stored: FactView,
    records: Seq<Record>,
    i: int,
    f: Seq<FactView>,
    k: int,
)
    requires
        0 <= i < records.len(),
        records[i].data.model() == rejected_json(fact_json(stored)),
        0 <= k < without_rejected(f, records).len(),
    ensures
        !same_edge(without_rejected(f, records)[k], stored),
{
    let keep = |x: FactView| !is_rejected(records, x);
    f.lemma_filter_pred(keep, k);
    let left = without_rejected(f, records)[k];
    assert(!is_rejected(records, left));
    lemma_rejection_of(stored);
    if same_edge(left, stored) {
        assert(rejects(records[i].data.model(), left));
    }
}

/// The record of a rejected fact says that the fact was rejected.
proof fn lemma_rejection_of(f: FactView)
    ensures
        rejects(rejected_json(fact_json(f)), f),
{
    reveal_strlit("_rejected");
    reveal_strlit("source");
    reveal_strlit("fact");
    reveal_strlit("derived_edge");
    reveal_strlit("from");
    reveal_strlit("to");
    reveal_strlit("confidence");
    reveal_strlit("_inferred");
    reveal_strlit("_reasoning");
    let data = rejected_json(fact_json(f));
    assert("_rejected"@.len() == 9 && "source"@.len() == 6);
    assert("derived_edge"@.len() == 12 && "from"@.len() == 4 && "to"@.len() == 2);
    assert("confidence"@.len() == 10 && "_inferred"@.len() == 9 && "_reasoning"@.len() == 10);
    assert(data.member("_rejected"@) == Some(Json::Bool(true)));
    assert(data.member("from"@) == Some(Json::Text(f.from)));
    assert(data.member("to"@) == Some(Json::Text(f.to)));
    assert(data.member("derived_edge"@) == Some(Json::Text(f.derived_edge)));
}

/// Whether a graph may answer with these edges when it is asked for those of a record
/// that a step of a path takes.
pub open spec fn edges_at<G: GraphIndex + ?Sized>(
    graph: &G,
    record: Seq<char>,
    step: (String, Direction),
    edges: Vec<EdgeInfo>,
) -> bool {
    exists|id: RecordId, t: &str|
        id@ == record && t@ == step.0@ && #[trigger] call_ensures(
            G::edges,
            (graph, id, Some(t), step.1),
            Ok(edges),
        )
}

/// Whether a graph may refuse its edges with this error.
pub open spec fn edges_refused<G: GraphIndex + ?Sized>(graph: &G, e: AxilError) -> bool {
    exists|id: RecordId, t: &str, direction: Direction| #[trigger]
        call_ensures(G::edges, (graph, id, Some(t), direction), Err(e))
}

/// Whether edges of a record, and for a longer path the edges of the records that they
/// lead to, are what a graph may answer along the path of a rule.
pub open spec fn edges_along<G: GraphIndex + ?Sized>(
    graph: &G,
    start: Seq<char>,
    rule: InferenceRule,
    edges: Vec<EdgeInfo>,
    ends: Seq<Vec<EdgeInfo>>,
) -> bool {
    &&& rule.pattern@.len() >= 1 ==> edges_at(graph, start, rule.pattern@[0], edges)
    &&& rule.pattern@.len() >= 2 ==> {
        &&& ends.len() == edges@.len()
        &&& forall|i: int|
            0 <= i < ends.len() ==> edges_at(
                graph,
                neighbor_of(edges@[i], start),
                rule.pattern@[1],
                #[trigger] ends[i],
            )
    }
}

/// Whether facts are those that a rule gives for a record by what a graph may answer.
pub open spec fn rule_gives<G: GraphIndex + ?Sized>(
    graph: &G,
    start: Seq<char>,
    rule: InferenceRule,
    facts: Seq<FactView>,
) -> bool {
    exists|edges: Vec<EdgeInfo>, ends: Seq<Vec<EdgeInfo>>|
        edges_along(graph, start, rule, edges, ends) && facts == #[trigger] rule_facts(
            start,
            rule,
            edges@,
            ends,
        )
}

/// Lists of facts, one behind the other.
pub open spec fn joined(parts: Seq<Seq<FactView>>) -> Seq<FactView>
    decreases parts.len(),
{
    if parts.len() == 0 {
        Seq::empty()
    } else {
        joined(parts.drop_last()) + parts.last()
    }
}

/// Whether lists are those that the rules give for a record, rule by rule.
pub open spec fn rules_give<G: GraphIndex + ?Sized>(
    graph: &G,
    start: Seq<char>,
    rules: Seq<InferenceRule>,
    given: Seq<Seq<FactView>>,
) -> bool {
    &&& given.len() == rules.len()
    &&& forall|k: int|
        0 <= k < rules.len() ==> rule_gives(graph, start, rules[k], #[trigger] given[k])
}

/// Whether facts are those that all the rules give for a record.
pub open spec fn record_gives<G: GraphIndex + ?Sized>(
    graph: &G,
    start: Seq<char>,
    rules: Seq<InferenceRule>,
    facts: Seq<FactView>,
) -> bool {
    exists|given: Seq<Seq<FactView>>|
        rules_give(graph, start, rules, given) && facts == #[trigger] joined(given)
}

/// Whether lists are those that the rules give for the records, record by record.
pub open spec fn records_give<G: GraphIndex + ?Sized>(
    graph: &G,
    starts: Seq<RecordId>,
    rules: Seq<InferenceRule>,
    lists: Seq<Seq<FactView>>,
) -> bool {
    &&& lists.len() == starts.len()
    &&& forall|s: int|
        0 <= s < starts.len() ==> record_gives(graph, starts[s]@, rules, #[trigger] lists[s])
}

/// Whether a fact is one that some rule can give for some of the records.
pub open spec fn explained(f: FactView, starts: Seq<RecordId>, rules: Seq<InferenceRule>) -> bool {
    exists|s: int, k: int|
        0 <= s < starts.len() && 0 <= k < rules.len() && given_by(
            f,
            (#[trigger] starts[s])@,
            #[trigger] rules[k],
        )
}

/// Whatever a graph answers: every fact that the rules give for records comes of one
/// of the rules and begins at one of the records.
pub proof fn inferred_facts_are_explained<G: GraphIndex + ?Sized>(
    graph: &G,
    starts: Seq<RecordId>,
    rules: Seq<InferenceRule>,
    lists: Seq<Seq<FactView>>,
)
    requires
        records_give(graph, starts, rules, lists),
    ensures
        forall|i: int|
            0 <= i < joined(lists).len() ==> explained(#[trigger] joined(lists)[i], starts, rules),
{
    assert forall|i: int| 0 <= i < joined(lists).len() implies explained(
        #[trigger] joined(lists)[i],
        starts,
        rules,
    ) by {
        let s = lemma_in_one_part(lists, i);
        let f = joined(lists)[i];
        assert(record_gives(graph, starts[s]@, rules, lists[s]));
        let given = choose|given: Seq<Seq<FactView>>|
            rules_give(graph, starts[s]@, rules, given) && lists[s] == #[trigger] joined(given);
        let n = choose|n: int| 0 <= n < lists[s].len() && lists[s][n] == f;
        let k = lemma_in_one_part(given, n);
        assert(rule_gives(graph, starts[s]@, rules[k], given[k]));
        let (edges, ends) = choose|edges: Vec<EdgeInfo>, ends: Seq<Vec<EdgeInfo>>|
            edges_along(graph, starts[s]@, rules[k], edges, ends) && given[k]
                == #[trigger] rule_facts(starts[s]@, rules[k], edges@, ends);
        facts_name_their_rule(starts[s]@, rules[k], edges@, ends);
        let m = choose|m: int| 0 <= m < given[k].len() && given[k][m] == f;
        assert(given_by(rule_facts(starts[s]@, rules[k], edges@, ends)[m], starts[s]@, rules[k]));
        assert(given_by(f, starts[s]@, rules[k]));
    }
}

/// What stands in a joined list stands in one of its parts.
proof fn lemma_in_one_part(parts: Seq<Seq<FactView>>, i: int) -> (s: int)
    requires
        0 <= i < joined(parts).len(),
    ensures
        0 <= s < parts.len(),
        parts[s].contains(joined(parts)[i]),
    decreases parts.len(),
{
    let before = joined(parts.drop_last());
    if i < before.len() {
        let s = lemma_in_one_part(parts.drop_last(), i);
        assert(joined(parts)[i] == before[i]);
        s
    } else {
        assert(joined(parts)[i] == parts.last()[i - before.len()]);
        parts.len() - 1
    }
}

/// Derives facts by the rules that every engine has, and more.
#[derive(Debug)]
pub struct InferenceEngine {
    pub rules: Vec<InferenceRule>,
}

impl InferenceEngine {
    /// An engine with the rules that every engine has.
    pub fn new() -> (r: Self)
        ensures
            are_builtin(r.rules@),
    {
        InferenceEngine { rules: builtin_rules() }
    }

    /// An engine with more rules behind those.
    pub fn with_rules(extra_rules: Vec<InferenceRule>) -> (r: Self)
        ensures
            are_builtin(r.rules@.take(3)),
            r.rules@.skip(3) == extra_rules@,
    {
        let mut rules = builtin_rules();
        let ghost first = rules@;
        let mut more = extra_rules;
        rules.append(&mut more);
        proof {
            assert(rules@.take(3) =~= first);
            assert(rules@.skip(3) =~= extra_rules@);
        }
        InferenceEngine { rules }
    }

    /// The facts that a rule gives for a record, by the edges that the graph has.
    pub fn apply_rule<G: GraphIndex + ?Sized>(graph: &G, start: &RecordId, rule: &InferenceRule) -> (r:
        Result<Vec<InferredFact>>)
        ensures
            rule.pattern@.len() == 0 ==> r is Ok,
            match r {
                Ok(facts) => rule_gives(graph, start@, *rule, facts_view(facts@)),
                Err(e) => edges_refused(graph, e),
            },
    {
        let mut ends: Vec<Vec<EdgeInfo>> = Vec::new();
        if rule.pattern.len() == 0 {
            let edges: Vec<EdgeInfo> = Vec::new();
            let facts = apply_rule_to(start, rule, &edges, &ends);
            assert(edges_along(graph, start@, *rule, edges, ends@));
            assert(facts_view(facts@) == rule_facts(start@, *rule, edges@, ends@));
            return Ok(facts);
        }
        let id = start.copy();
        let edges = match graph.edges(
            id,
            Some(rule.pattern[0].0.as_str()),
            rule.pattern[0].1,
        ) {
            Ok(e) => e,
            Err(e) => {
                return Err(e);
            },
        };
        assert(edges_at(graph, start@, rule.pattern@[0], edges));
        if rule.pattern.len() >= 2 {
            let mut i: usize = 0;
            while i < edges.len()
                invariant
                    i <= edges@.len(),
                    ends@.len() == i,
                    rule.pattern@.len() >= 2,
                    forall|j: int|
                        0 <= j < i ==> edges_at(
                            graph,
                            neighbor_of(edges@[j], start@),
                            rule.pattern@[1],
                            #[trigger] ends@[j],
                        ),
                decreases edges@.len() - i,
            {
                let mid = neighbor_from_edge(&edges[i], start);
                match graph.edges(mid, Some(rule.pattern[1].0.as_str()), rule.pattern[1].1) {
                    Ok(e) => {
                        assert(edges_at(
                            graph,
                            neighbor_of(edges@[i as int], start@),
                            rule.pattern@[1],
                            e,
                        ));
                        ends.push(e);
                    },
                    Err(e) => {
                        return Err(e);
                    },
                }
                i += 1;
            }
        }
        let facts = apply_rule_to(start, rule, &edges, &ends);
        assert(edges_along(graph, start@, *rule, edges, ends@));
        assert(facts_view(facts@) == rule_facts(start@, *rule, edges@, ends@));
        Ok(facts)
    }

    /// The facts that the rules give for records, each edge once, without those that
    /// the records of facts say were rejected. Without a graph there are none.
    pub fn infer<G: GraphIndex + ?Sized>(
        &self,
        graph: Option<&G>,
        starts: &Vec<RecordId>,
        records: &Vec<Record>,
    ) -> (r: Result<Vec<InferredFact>>)
        ensures
            graph is None ==> (r matches Ok(facts) && facts@.len() == 0),
            starts@.len() == 0 ==> r is Ok,
            (forall|k: int| 0 <= k < self.rules@.len() ==> (#[trigger] self.rules@[k]).pattern@.len()
                == 0) ==> r is Ok,
            match (graph, r) {
                (Some(g), Ok(facts)) => exists|lists: Seq<Seq<FactView>>|
                    {
                        &&& records_give(g, starts@, self.rules@, lists)
                        &&& facts_view(facts@) == without_rejected(
                            without_repeats(#[trigger] joined(lists)),
                            records@,
                        )
                    },
                (Some(g), Err(e)) => edges_refused(g, e),
                (None, _) => true,
            },
            r matches Ok(facts) ==> forall|i: int|
                0 <= i < facts@.len() ==> explained((#[trigger] facts@[i])@, starts@, self.rules@),
    {
        let mut all: Vec<InferredFact> = Vec::new();
        let engine = match graph {
            Some(g) => g,
            None => {
                return Ok(all);
            },
        };
        let ghost mut lists: Seq<Seq<FactView>> = Seq::empty();
        let mut s: usize = 0;
        assert(facts_view(all@) =~= joined(lists));
        while s < starts.len()
            invariant
                s <= starts@.len(),
                graph == Some(engine),
                lists.len() == s,
                facts_view(all@) == joined(lists),
                records_give(engine, starts@.take(s as int), self.rules@, lists),
            decreases starts@.len() - s,
        {
            let start = &starts[s];
            let ghost before = facts_view(all@);
            let ghost mut given: Seq<Seq<FactView>> = Seq::empty();
            let mut k: usize = 0;
            assert(facts_view(all@) =~= before + joined(given));
            while k < self.rules.len()
                invariant
                    s < starts@.len(),
                    start@ == starts@[s as int]@,
                    graph == Some(engine),
                    k <= self.rules@.len(),
                    facts_view(all@) == before + joined(given),
                    rules_give(engine, start@, self.rules@.take(k as int), given),
                decreases self.rules@.len() - k,
            {
                let mut more = match Self::apply_rule(engine, start, &self.rules[k]) {
                    Ok(f) => f,
                    Err(e) => {
                        return Err(e);
                    },
                };
                let ghost new = facts_view(more@);
                let ghost had = facts_view(all@);
                all.append(&mut more);
                proof {
                    let next = given.push(new);
                    assert(facts_view(all@) =~= had + new);
                    assert(next.drop_last() =~= given);
                    assert(facts_view(all@) =~= before + joined(next));
                    assert forall|j: int| 0 <= j < k + 1 implies rule_gives(
                        engine,
                        start@,
                        self.rules@.take(k + 1)[j],
                        #[trigger] next[j],
                    ) by {
                        if j < k {
                            assert(next[j] == given[j]);
                            assert(self.rules@.take(k + 1)[j] == self.rules@.take(k as int)[j]);
                        }
                    }
                    given = next;
                }
                k += 1;
            }
            proof {
                let next = lists.push(joined(given));
                assert(self.rules@.take(k as int) =~= self.rules@);
                assert(next.drop_last() =~= lists);
                assert(record_gives(engine, start@, self.rules@, joined(given)));
                assert forall|j: int| 0 <= j < s + 1 implies record_gives(
                    engine,
                    starts@.take(s + 1)[j]@,
                    self.rules@,
                    #[trigger] next[j],
                ) by {
                    if j < s {
                        assert(next[j] == lists[j]);
                        assert(starts@.take(s + 1)[j] == starts@.take(s as int)[j]);
                    }
                }
                lists = next;
            }
            s += 1;
        }
        assert(starts@.take(s as int) =~= starts@);
        let once = drop_repeats(all);
        let facts = drop_rejected(once, records);
        proof {
            inferred_facts_are_explained(engine, starts@, self.rules@, lists);
            let f = joined(lists);
            let kept = without_repeats(f);
            repeats_are_dropped(f);
            assert forall|i: int| 0 <= i < facts@.len() implies explained(
                (#[trigger] facts@[i])@,
                starts@,
                self.rules@,
            ) by {
                let x = facts_view(facts@)[i];
                assert(x == facts@[i]@);
                assert(facts_view(facts@).contains(x));
                kept.lemma_filter_contains_rev(|x: FactView| !is_rejected(records@, x), x);
                let m = choose|m: int| 0 <= m < kept.len() && kept[m] == x;
                let n = choose|n: int| 0 <= n < f.len() && f[n] == kept[m];
                assert(explained(f[n], starts@, self.rules@));
            }
        }
        Ok(facts)
    }

    /// Whether some of the edges leads to a record.
    pub fn edge_exists(edges: &Vec<EdgeInfo>, to: &RecordId) -> (r: bool)
        ensures
            r == exists|i: int| 0 <= i < edges@.len() && (#[trigger] edges@[i]).to@ == to@,
    {
        let mut i: usize = 0;
        while i < edges.len()
            invariant
                i <= edges@.len(),
                forall|j: int| 0 <= j < i ==> (#[trigger] edges@[j]).to@ != to@,
            decreases edges@.len() - i,
        {
            if edges[i].to.same(to) {
                return true;
            }
            i += 1;
        }
        false
    }

    /// What is stored of a fact, given the edges of the derived type that lead away
    /// from its start: nothing where the derived edge is there already.
    pub fn infer_and_store(fact: &InferredFact, edges: &Vec<EdgeInfo>) -> (r: Option<Value>)
        ensures
            match r {
                Some(data) => data.model() == fact_json(fact@) && forall|i: int|
                    0 <= i < edges@.len() ==> (#[trigger] edges@[i]).to@ != fact.to@,
                None => exists|i: int|
                    0 <= i < edges@.len() && (#[trigger] edges@[i]).to@ == fact.to@,
            },
    {
        if Self::edge_exists(edges, &fact.to) {
            return None;
        }
        let mut data = Value::object();
        data.set("source", Value::text("inferred"));
        data.set("fact", Value::text(fact.fact.as_str()));
        data.set("derived_edge", Value::text(fact.derived_edge.as_str()));
        data.set("from", Value::text(fact.from.as_str()));
        data.set("to", Value::text(fact.to.as_str()));
        data.set("confidence", Value::Number(Number::Float(fact.confidence)));
        data.set("_inferred", Value::Bool(true));
        data.set("_reasoning", text_list(&fact.reasoning));
        Some(data)
    }

    /// What the derived edge of a fact holds, given the record of the fact.
    pub fn derived_properties(fact: &InferredFact, record: &RecordId) -> (r: Value)
        ensures
            r.model() == derived_json(fact@, record@),
    {
        let rule = if fact.reasoning.len() > 0 {
            proof {
                assert(fact@.reasoning[0] == fact.reasoning@[0]@);
            }
            Value::text(fact.reasoning[0].as_str())
        } else {
            Value::Text(String::new())
        };
        assert(rule.model()->Text_0 =~= first_reason(fact@));
        let mut p = Value::object();
        p.set("source", Value::text("inferred"));
        p.set("rule", rule);
        p.set("confidence", Value::Number(Number::Float(fact.confidence)));
        p.set("fact_record", Value::text(record.as_str()));
        p
    }

    /// The steps that led to a fact, where the record is that of one.
    pub fn why(record: Option<&Record>) -> (r: Option<Vec<String>>)
        ensures
            r is Some <==> is_inferred(record),
            r matches Some(steps) ==> texts_view(steps@) == reasons(record->0.data.model()),
    {
        let record = match record {
            Some(r) => r,
            None => {
                return None;
            },
        };
        if !record.data.flag("_inferred") {
            return None;
        }
        let mut out: Vec<String> = Vec::new();
        let ghost f = |j: Json| j.text();
        match record.data.get("_reasoning") {
            Some(Value::Array(a)) => {
                let ghost all = Value::Array(*a).model()->Array_0;
                let mut i: usize = 0;
                assert(texts_view(out@) =~= collected(all.take(0), f));
                while i < a.len()
                    invariant
                        i <= a@.len(),
                        f == (|j: Json| j.text()),
                        all == Value::Array(*a).model()->Array_0,
                        all.len() == a@.len(),
                        texts_view(out@) == collected(all.take(i as int), f),
                    decreases a@.len() - i,
                {
                    proof {
                        assert(all.take(i + 1).drop_last() =~= all.take(i as int));
                        assert(all.take(i + 1).last() == a@[i as int].model());
                    }
                    if let Some(t) = a[i].as_str() {
                        let ghost before = texts_view(out@);
                        out.push(t.to_owned());
                        assert(texts_view(out@) =~= before.push(t@));
                    }
                    i += 1;
                }
                assert(all.take(i as int) =~= all);
            },
            _ => {
                assert(texts_view(out@) =~= Seq::<Seq<char>>::empty());
            },
        }
        Some(out)
    }

    /// What the record of a fact holds once it was confirmed, where it is that of one.
    pub fn confirm(record: Option<&Record>) -> (r: Option<Value>)
        ensures
            r is Some <==> is_inferred(record),
            r matches Some(data) ==> data.model() == record->0.data.model().with_member(
                "confidence"@,
                Json::Float(ONE_BITS),
            ).with_member("source"@, Json::Text("confirmed"@)),
    {
        let record = match record {
            Some(r) => r,
            None => {
                return None;
            },
        };
        if !record.data.flag("_inferred") {
            return None;
        }
        let mut data = record.data.copy();
        data.set("confidence", Value::Number(Number::Float(ONE_BITS)));
        data.set("source", Value::text("confirmed"));
        Some(data)
    }

    /// What the record of a fact holds once it was rejected, where it is that of one,
    /// and where its derived edge begins and of what type it is, where it says so.
    pub fn reject(record: Option<&Record>) -> (r: Option<(Value, Option<(RecordId, String)>)>)
        ensures
            r is Some <==> is_inferred(record),
            r matches Some(x) ==> x.0.model() == rejected_json(record->0.data.model())
                && derived_edge_view(x.1) == derived_edge_of(record->0.data.model()),
    {
        let record = match record {
            Some(r) => r,
            None => {
                return None;
            },
        };
        if !record.data.flag("_inferred") {
            return None;
        }
        let mut data = record.data.copy();
        data.set("_rejected", Value::Bool(true));
        data.set("source", Value::text("rejected"));
        let edge = match (record.data.get_str("from"), record.data.get_str("derived_edge")) {
            (Some(from), Some(t)) => match RecordId::from_string(from) {
                Ok(id) => Some((id, t.to_owned())),
                Err(_) => None,
            },
            _ => None,
        };
        Some((data, edge))
    }

    /// The edges that stand for a fact: those that name its record.
    pub fn edges_of_fact(edges: &Vec<EdgeInfo>, fact: &RecordId) -> (r: Vec<RecordId>)
        ensures
            crate::record::ids_view(r@) == collected(
                edges@,
                |e: EdgeInfo| edge_for_fact(e, fact@),
            ),
    {
        let ghost f = |e: EdgeInfo| edge_for_fact(e, fact@);
        let mut out: Vec<RecordId> = Vec::new();
        let mut i: usize = 0;
        assert(crate::record::ids_view(out@) =~= collected(edges@.take(0), f));
        while i < edges.len()
            invariant
                i <= edges@.len(),
                f == (|e: EdgeInfo| edge_for_fact(e, fact@)),
                crate::record::ids_view(out@) == collected(edges@.take(i as int), f),
            decreases edges@.len() - i,
        {
            proof {
                assert(edges@.take(i + 1).drop_last() =~= edges@.take(i as int));
                assert(edges@.take(i + 1).last() == edges@[i as int]);
            }
            let named = match edges[i].properties.get_str("fact_record") {
                Some(t) => same_text(t, fact.as_str()),
                None => false,
            };
            if named {
                let ghost before = crate::record::ids_view(out@);
                out.push(edges[i].id.copy());
                assert(crate::record::ids_view(out@) =~= before.push(edges@[i as int].id@));
            }
            i += 1;
        }
        assert(edges@.take(i as int) =~= edges@);
        out
    }
}

/// Texts as a JSON list.
pub open spec fn texts_json(t: Seq<Seq<char>>) -> Json {
    Json::Array(t.map_values(|s: Seq<char>| Json::Text(s)))
}

/// Texts as a JSON list.
fn text_list(t: &Vec<String>) -> (r: Value)
    ensures
        r.model() == texts_json(texts_view(t@)),
{
    let mut v: Vec<Value> = Vec::new();
    let mut i: usize = 0;
    while i < t.len()
        invariant
            i <= t@.len(),
            v@.len() == i,
            forall|j: int| 0 <= j < i ==> (#[trigger] v@[j]).model() == Json::Text(t@[j]@),
        decreases t@.len() - i,
    {
        v.push(Value::text(t[i].as_str()));
        i += 1;
    }
    let r = Value::Array(v);
    assert(r.model()->Array_0 =~= texts_json(texts_view(t@))->Array_0);
    r
}

/// What is stored of a fact.
pub open spec fn fact_json(f: FactView) -> Json {
    Json::Object(Map::empty()).with_member("source"@, Json::Text("inferred"@)).with_member(
        "fact"@,
        Json::Text(f.fact),
    ).with_member("derived_edge"@, Json::Text(f.derived_edge)).with_member(
        "from"@,
        Json::Text(f.from),
    ).with_member("to"@, Json::Text(f.to)).with_member(
        "confidence"@,
        Json::Float(f.confidence),
    ).with_member("_inferred"@, Json::Bool(true)).with_member(
        "_reasoning"@,
        texts_json(f.reasoning),
    )
}

/// What the record of a fact holds once it was rejected.
pub open spec fn rejected_json(data: Json) -> Json {
    data.with_member("_rejected"@, Json::Bool(true)).with_member("source"@, Json::Text("rejected"@))
}

/// The first of the steps that led to a fact.
pub open spec fn first_reason(f: FactView) -> Seq<char> {
    if f.reasoning.len() > 0 {
        f.reasoning[0]
    } else {
        Seq::empty()
    }
}

/// What the derived edge of a fact holds.
pub open spec fn derived_json(f: FactView, record: Seq<char>) -> Json {
    Json::Object(Map::empty()).with_member("source"@, Json::Text("inferred"@)).with_member(
        "rule"@,
        Json::Text(first_reason(f)),
    ).with_member("confidence"@, Json::Float(f.confidence)).with_member(
        "fact_record"@,
        Json::Text(record),
    )
}

/// Whether a record is there and is that of an inferred fact.
pub open spec fn is_inferred(record: Option<&Record>) -> bool {
    record matches Some(r) && r.data.model().flag_member("_inferred"@)
}

/// The steps that the record of a fact holds.
pub open spec fn reasons(data: Json) -> Seq<Seq<char>> {
    match data.member("_reasoning"@) {
        Some(Json::Array(a)) => collected(a, |j: Json| j.text()),
        _ => Seq::empty(),
    }
}

/// Where the derived edge of a fact begins and of what type it is, by its record.
pub open spec fn derived_edge_of(data: Json) -> Option<(Seq<char>, Seq<char>)> {
    match (data.text_member("from"@), data.text_member("derived_edge"@)) {
        (Some(from), Some(t)) => if crate::record::is_ulid(from) {
            Some((from, t))
        } else {
            None
        },
        _ => None,
    }
}

/// Where an edge begins and of what type it is, in the model.
pub open spec fn derived_edge_view(e: Option<(RecordId, String)>) -> Option<
    (Seq<char>, Seq<char>),
> {
    match e {
        Some(x) => Some((x.0@, x.1@)),
        None => None,
    }
}

/// The id of an edge that names the record of a fact.
pub open spec fn edge_for_fact(e: EdgeInfo, fact: Seq<char>) -> Option<Seq<char>> {
    if e.properties.model().text_member("fact_record"@) == Some(fact) {
        Some(e.id@)
    } else {
        None
    }
}

/// Whether a graph holds exactly these edges, by where they begin, their type and where
/// they end: asked for the edges of a type that lead away from a record, it hands out those.
pub open spec fn holds_edges<G: GraphIndex + ?Sized>(
    graph: &G,
    held: spec_fn(Seq<char>, Seq<char>, Seq<char>) -> bool,
) -> bool {
    forall|id: RecordId, t: &str, edges: Vec<EdgeInfo>| #[trigger]
        call_ensures(G::edges, (graph, id, Some(t), Direction::Out), Ok(edges)) ==> {
            &&& forall|i: int|
                0 <= i < edges@.len() ==> (#[trigger] edges@[i]).from@ == id@ && held(
                    id@,
                    t@,
                    edges@[i].to@,
                )
            &&& forall|to: Seq<char>| #[trigger]
                held(id@, t@, to) ==> exists|i: int|
                    0 <= i < edges@.len() && (#[trigger] edges@[i]).to@ == to
        }
}

/// What a graph that holds edges answers along a step of a path.
proof fn lemma_edges_at<G: GraphIndex + ?Sized>(
    graph: &G,
    held: spec_fn(Seq<char>, Seq<char>, Seq<char>) -> bool,
    record: Seq<char>,
    step: (String, Direction),
    edges: Vec<EdgeInfo>,
)
    requires
        holds_edges(graph, held),
        edges_at(graph, record, step, edges),
        step.1 == Direction::Out,
    ensures
        forall|i: int|
            0 <= i < edges@.len() ==> (#[trigger] edges@[i]).from@ == record && held(
                record,
                step.0@,
                edges@[i].to@,
            ),
        forall|to: Seq<char>| #[trigger]
            held(record, step.0@, to) ==> exists|i: int|
                0 <= i < edges@.len() && (#[trigger] edges@[i]).to@ == to,
{
    let (id, t) = choose|id: RecordId, t: &str|
        id@ == record && t@ == step.0@ && #[trigger] call_ensures(
            G::edges,
            (graph, id, Some(t), step.1),
            Ok(edges),
        );
    assert(call_ensures(G::edges, (graph, id, Some(t), Direction::Out), Ok(edges)));
    assert forall|to: Seq<char>| #[trigger] held(record, step.0@, to) implies exists|i: int|
        0 <= i < edges@.len() && (#[trigger] edges@[i]).to@ == to by {
        assert(held(id@, t@, to));
    }
}

/// The fact of an edge is among those of its rule.
proof fn lemma_path_fact_there(
    start: Seq<char>,
    rule: InferenceRule,
    mids: Seq<EdgeInfo>,
    ends: Seq<Vec<EdgeInfo>>,
    k: int,
    f: FactView,
)
    requires
        0 <= k < mids.len(),
        end_facts(start, rule, neighbor_of(mids[k], start), ends[k]@).contains(f),
    ensures
        path_facts(start, rule, mids, ends).contains(f),
    decreases mids.len(),
{
    let n = mids.len() - 1;
    let before = path_facts(start, rule, mids.drop_last(), ends);
    let last = end_facts(start, rule, neighbor_of(mids.last(), start), ends[n]@);
    if k < n {
        assert(mids.drop_last()[k] == mids[k]);
        lemma_path_fact_there(start, rule, mids.drop_last(), ends, k, f);
        let i = choose|i: int| 0 <= i < before.len() && before[i] == f;
        assert((before + last)[i] == f);
    } else {
        let i = choose|i: int| 0 <= i < last.len() && last[i] == f;
        assert((before + last)[before.len() + i] == f);
    }
}

/// A fact of a rule with a longer path comes of two of the edges.
proof fn lemma_path_fact_of(
    start: Seq<char>,
    rule: InferenceRule,
    mids: Seq<EdgeInfo>,
    ends: Seq<Vec<EdgeInfo>>,
    f: FactView,
) -> (r: (int, int))
    requires
        path_facts(start, rule, mids, ends).contains(f),
    ensures
        0 <= r.0 < mids.len(),
        0 <= r.1 < ends[r.0]@.len(),
        end_fact(start, rule, neighbor_of(mids[r.0], start), ends[r.0]@[r.1]) == Some(f),
    decreases mids.len(),
{
    let n = mids.len() - 1;
    let before = path_facts(start, rule, mids.drop_last(), ends);
    let mid = neighbor_of(mids.last(), start);
    let g = |e: EdgeInfo| end_fact(start, rule, mid, e);
    let last = end_facts(start, rule, mid, ends[n]@);
    let i = choose|i: int| 0 <= i < (before + last).len() && (before + last)[i] == f;
    if i < before.len() {
        assert(before[i] == f);
        let r = lemma_path_fact_of(start, rule, mids.drop_last(), ends, f);
        assert(mids.drop_last()[r.0] == mids[r.0]);
        r
    } else {
        assert(last[i - before.len()] == f);
        crate::text::collected_values_come_from_items(ends[n]@, g, f);
        let j = choose|j: int| 0 <= j < ends[n]@.len() && g(#[trigger] ends[n]@[j]) == Some(f);
        (n, j)
    }
}

/// What one of the parts holds is in the joined list.
proof fn lemma_part_is_joined(parts: Seq<Seq<FactView>>, s: int, f: FactView)
    requires
        0 <= s < parts.len(),
        parts[s].contains(f),
    ensures
        joined(parts).contains(f),
    decreases parts.len(),
{
    let before = joined(parts.drop_last());
    if s < parts.len() - 1 {
        assert(parts.drop_last()[s] == parts[s]);
        lemma_part_is_joined(parts.drop_last(), s, f);
        let i = choose|i: int| 0 <= i < before.len() && before[i] == f;
        assert((before + parts.last())[i] == f);
    } else {
        let i = choose|i: int| 0 <= i < parts.last().len() && parts.last()[i] == f;
        assert((before + parts.last())[before.len() + i] == f);
    }
}

/// A fact that a rule gives for one of the records is left for its edge, unless it was
/// rejected.
proof fn lemma_fact_is_left<G: GraphIndex + ?Sized>(
    graph: &G,
    starts: Seq<RecordId>,
    rules: Seq<InferenceRule>,
    lists: Seq<Seq<FactView>>,
    records: Seq<Record>,
    s: int,
    f: FactView,
)
    requires
        records_give(graph, starts, rules, lists),
        0 <= s < starts.len(),
        lists[s].contains(f),
        forall|i: int|
            0 <= i < records.len() ==> (#[trigger] records[i]).data.model().member("_rejected"@)
                != Some(Json::Bool(true)),
    ensures
        exists|x: FactView| #[trigger]
            without_rejected(without_repeats(joined(lists)), records).contains(x) && x.from
                == f.from && x.to == f.to && x.derived_edge == f.derived_edge,
{
    lemma_part_is_joined(lists, s, f);
    let all = joined(lists);
    let i = choose|i: int| 0 <= i < all.len() && all[i] == f;
    repeats_are_dropped(all);
    assert(has_edge(without_repeats(all), all[i]));
    let left = without_repeats(all);
    let k = choose|k: int| 0 <= k < left.len() && same_edge(#[trigger] left[k], f);
    let keep = |x: FactView| !is_rejected(records, x);
    assert(keep(left[k])) by {
        if is_rejected(records, left[k]) {
            let n = choose|n: int|
                0 <= n < records.len() && rejects((#[trigger] records[n]).data.model(), left[k]);
            assert(records[n].data.model().member("_rejected"@) != Some(Json::Bool(true)));
        }
    }
    assert(left.filter(keep).contains(left[k])) by {
        lemma_kept_by(left, keep, left[k]);
    }
    assert(without_rejected(left, records).contains(left[k]));
}

/// What a filter keeps of a list is in what is left.
proof fn lemma_kept_by(s: Seq<FactView>, keep: spec_fn(FactView) -> bool, x: FactView)
    requires
        s.contains(x),
        keep(x),
    ensures
        s.filter(keep).contains(x),
    decreases s.len(),
{
    reveal(Seq::filter);
    let d = s.drop_last();
    let i = choose|i: int| 0 <= i < s.len() && s[i] == x;
    crate::text::lemma_push_contains(d.filter(keep), s.last(), x);
    if i < d.len() {
        assert(d[i] == x);
        lemma_kept_by(d, keep, x);
    }
}

/// What a rule of two outgoing edges gives along two edges that a graph holds.
proof fn lemma_two_edges_give<G: GraphIndex + ?Sized>(
    graph: &G,
    held: spec_fn(Seq<char>, Seq<char>, Seq<char>) -> bool,
    starts: Seq<RecordId>,
    rules: Seq<InferenceRule>,
    lists: Seq<Seq<FactView>>,
    s: int,
    k: int,
    b: Seq<char>,
    c: Seq<char>,
) -> (f: FactView)
    requires
        holds_edges(graph, held),
        records_give(graph, starts, rules, lists),
        0 <= s < starts.len(),
        0 <= k < rules.len(),
        rules[k].pattern@.len() == 2,
        rules[k].pattern@[0].1 == Direction::Out,
        rules[k].pattern@[1].1 == Direction::Out,
        held(starts[s]@, rules[k].pattern@[0].0@, b),
        held(b, rules[k].pattern@[1].0@, c),
        c != starts[s]@,
    ensures
        lists[s].contains(f),
        f.from == starts[s]@,
        f.to == c,
        f.derived_edge == rules[k].derived_edge@,
        f.confidence == rules[k].confidence,
{
    let a = starts[s]@;
    let rule = rules[k];
    assert(record_gives(graph, a, rules, lists[s]));
    let given = choose|given: Seq<Seq<FactView>>|
        rules_give(graph, a, rules, given) && lists[s] == #[trigger] joined(given);
    assert(rule_gives(graph, a, rule, given[k]));
    let (edges, ends) = choose|edges: Vec<EdgeInfo>, ends: Seq<Vec<EdgeInfo>>|
        edges_along(graph, a, rule, edges, ends) && given[k] == #[trigger] rule_facts(
            a,
            rule,
            edges@,
            ends,
        );
    lemma_edges_at(graph, held, a, rule.pattern@[0], edges);
    let m = choose|m: int| 0 <= m < edges@.len() && (#[trigger] edges@[m]).to@ == b;
    assert(neighbor_of(edges@[m], a) == b);
    lemma_edges_at(graph, held, b, rule.pattern@[1], ends[m]);
    let n = choose|n: int| 0 <= n < ends[m]@.len() && (#[trigger] ends[m]@[n]).to@ == c;
    assert(neighbor_of(ends[m]@[n], b) == c);
    let f = path_fact(a, rule, b, c);
    let g = |e: EdgeInfo| end_fact(a, rule, b, e);
    assert(g(ends[m]@[n]) == Some(f));
    crate::text::collected_values_come_from_items(ends[m]@, g, f);
    assert(end_facts(a, rule, b, ends[m]@).contains(f));
    lemma_path_fact_there(a, rule, edges@, ends, m, f);
    lemma_part_is_joined(given, k, f);
    f
}

/// What a rule of one outgoing edge gives along an edge that a graph holds.
proof fn lemma_one_edge_gives<G: GraphIndex + ?Sized>(
    graph: &G,
    held: spec_fn(Seq<char>, Seq<char>, Seq<char>) -> bool,
    starts: Seq<RecordId>,
    rules: Seq<InferenceRule>,
    lists: Seq<Seq<FactView>>,
    s: int,
    k: int,
    b: Seq<char>,
) -> (f: FactView)
    requires
        holds_edges(graph, held),
        records_give(graph, starts, rules, lists),
        0 <= s < starts.len(),
        0 <= k < rules.len(),
        rules[k].pattern@.len() == 1,
        rules[k].pattern@[0].1 == Direction::Out,
        held(starts[s]@, rules[k].pattern@[0].0@, b),
    ensures
        lists[s].contains(f),
        f.from == starts[s]@,
        f.to == b,
        f.derived_edge == rules[k].derived_edge@,
        f.confidence == rules[k].confidence,
{
    let a = starts[s]@;
    let rule = rules[k];
    assert(record_gives(graph, a, rules, lists[s]));
    let given = choose|given: Seq<Seq<FactView>>|
        rules_give(graph, a, rules, given) && lists[s] == #[trigger] joined(given);
    assert(rule_gives(graph, a, rule, given[k]));
    let (edges, ends) = choose|edges: Vec<EdgeInfo>, ends: Seq<Vec<EdgeInfo>>|
        edges_along(graph, a, rule, edges, ends) && given[k] == #[trigger] rule_facts(
            a,
            rule,
            edges@,
            ends,
        );
    lemma_edges_at(graph, held, a, rule.pattern@[0], edges);
    let m = choose|m: int| 0 <= m < edges@.len() && (#[trigger] edges@[m]).to@ == b;
    assert(neighbor_of(edges@[m], a) == b);
    let f = edge_fact(a, rule, b);
    assert(rule_facts(a, rule, edges@, ends)[m] == f);
    assert(given[k].contains(f));
    lemma_part_is_joined(given, k, f);
    f
}

/// An issue of what a record depends on may affect the record: where a graph holds an edge
/// `depends_on` from one record to a second and an edge `has_issue` from there to a third,
/// inferring from the first by the rules that every engine has gives a fact from it to the
/// third, whatever else the graph holds.
pub proof fn issues_affect_what_depends_on_them<G: GraphIndex + ?Sized>(
    graph: &G,
    held: spec_fn(Seq<char>, Seq<char>, Seq<char>) -> bool,
    starts: Seq<RecordId>,
    rules: Seq<InferenceRule>,
    lists: Seq<Seq<FactView>>,
    records: Seq<Record>,
    s: int,
    b: Seq<char>,
    c: Seq<char>,
)
    requires
        holds_edges(graph, held),
        are_builtin(rules),
        records_give(graph, starts, rules, lists),
        0 <= s < starts.len(),
        held(starts[s]@, "depends_on"@, b),
        held(b, "has_issue"@, c),
        c != starts[s]@,
        forall|i: int|
            0 <= i < records.len() ==> (#[trigger] records[i]).data.model().member("_rejected"@)
                != Some(Json::Bool(true)),
    ensures
        exists|f: FactView| #[trigger]
            without_rejected(without_repeats(joined(lists)), records).contains(f) && f.from
                == starts[s]@ && f.to == c && f.derived_edge == "may_be_affected"@,
{
    assert(rules[1].pattern@[0].0@ == "depends_on"@);
    assert(rules[1].pattern@[1].0@ == "has_issue"@);
    let f = lemma_two_edges_give(graph, held, starts, rules, lists, s, 1, b, c);
    lemma_fact_is_left(graph, starts, rules, lists, records, s, f);
}

/// Who manages a part of something works in it: `manages` and then `part_of` give
/// `works_in`.
pub proof fn managers_work_in_the_whole<G: GraphIndex + ?Sized>(
    graph: &G,
    held: spec_fn(Seq<char>, Seq<char>, Seq<char>) -> bool,
    starts: Seq<RecordId>,
    rules: Seq<InferenceRule>,
    lists: Seq<Seq<FactView>>,
    records: Seq<Record>,
    s: int,
    b: Seq<char>,
    c: Seq<char>,
)
    requires
        holds_edges(graph, held),
        are_builtin(rules),
        records_give(graph, starts, rules, lists),
        0 <= s < starts.len(),
        held(starts[s]@, "manages"@, b),
        held(b, "part_of"@, c),
        c != starts[s]@,
        forall|i: int|
            0 <= i < records.len() ==> (#[trigger] records[i]).data.model().member("_rejected"@)
                != Some(Json::Bool(true)),
    ensures
        exists|f: FactView| #[trigger]
            without_rejected(without_repeats(joined(lists)), records).contains(f) && f.from
                == starts[s]@ && f.to == c && f.derived_edge == "works_in"@,
{
    assert(rules[0].pattern@[0].0@ == "manages"@);
    assert(rules[0].pattern@[1].0@ == "part_of"@);
    let f = lemma_two_edges_give(graph, held, starts, rules, lists, s, 0, b, c);
    lemma_fact_is_left(graph, starts, rules, lists, records, s, f);
}

/// What a record supersedes is outdated: `supersedes` gives `outdated`.
pub proof fn superseded_records_are_outdated<G: GraphIndex + ?Sized>(
    graph: &G,
    held: spec_fn(Seq<char>, Seq<char>, Seq<char>) -> bool,
    starts: Seq<RecordId>,
    rules: Seq<InferenceRule>,
    lists: Seq<Seq<FactView>>,
    records: Seq<Record>,
    s: int,
    b: Seq<char>,
)
    requires
        holds_edges(graph, held),
        are_builtin(rules),
        records_give(graph, starts, rules, lists),
        0 <= s < starts.len(),
        held(starts[s]@, "supersedes"@, b),
        forall|i: int|
            0 <= i < records.len() ==> (#[trigger] records[i]).data.model().member("_rejected"@)
                != Some(Json::Bool(true)),
    ensures
        exists|f: FactView| #[trigger]
            without_rejected(without_repeats(joined(lists)), records).contains(f) && f.from
                == starts[s]@ && f.to == b && f.derived_edge == "outdated"@,
{
    assert(rules[2].pattern@[0].0@ == "supersedes"@);
    let f = lemma_one_edge_gives(graph, held, starts, rules, lists, s, 2, b);
    lemma_fact_is_left(graph, starts, rules, lists, records, s, f);
}

/// Nothing is inferred that the edges do not give: every fact of the rules that every
/// engine has begins at one of the records, and is one of the three that follow from edges
/// that the graph holds, as sure as its rule is.
pub proof fn facts_follow_from_edges<G: GraphIndex + ?Sized>(
    graph: &G,
    held: spec_fn(Seq<char>, Seq<char>, Seq<char>) -> bool,
    starts: Seq<RecordId>,
    rules: Seq<InferenceRule>,
    lists: Seq<Seq<FactView>>,
    records: Seq<Record>,
    f: FactView,
)
    requires
        holds_edges(graph, held),
        are_builtin(rules),
        records_give(graph, starts, rules, lists),
        without_rejected(without_repeats(joined(lists)), records).contains(f),
    ensures
        exists|s: int| 0 <= s < starts.len() && (#[trigger] starts[s])@ == f.from,
        ({
            ||| f.derived_edge == "works_in"@ && f.confidence == 0x3fe9_9999_a000_0000
                && f.to != f.from && exists|b: Seq<char>| #[trigger]
                held(f.from, "manages"@, b) && held(b, "part_of"@, f.to)
            ||| f.derived_edge == "may_be_affected"@ && f.confidence == 0x3fe3_3333_4000_0000
                && f.to != f.from && exists|b: Seq<char>| #[trigger]
                held(f.from, "depends_on"@, b) && held(b, "has_issue"@, f.to)
            ||| f.derived_edge == "outdated"@ && f.confidence == 0x3fec_cccc_c000_0000 && held(
                f.from,
                "supersedes"@,
                f.to,
            )
        }),
{
    let all = joined(lists);
    let left = without_repeats(all);
    let keep = |x: FactView| !is_rejected(records, x);
    left.lemma_filter_contains_rev(keep, f);
    repeats_are_dropped(all);
    let k = choose|k: int| 0 <= k < left.len() && left[k] == f;
    assert(all.contains(left[k]));
    let i = choose|i: int| 0 <= i < all.len() && all[i] == f;
    let s = lemma_in_one_part(lists, i);
    let a = starts[s]@;
    assert(record_gives(graph, a, rules, lists[s]));
    let given = choose|given: Seq<Seq<FactView>>|
        rules_give(graph, a, rules, given) && lists[s] == #[trigger] joined(given);
    let n = choose|n: int| 0 <= n < lists[s].len() && lists[s][n] == f;
    let k = lemma_in_one_part(given, n);
    let rule = rules[k];
    assert(rule_gives(graph, a, rule, given[k]));
    let (edges, ends) = choose|edges: Vec<EdgeInfo>, ends: Seq<Vec<EdgeInfo>>|
        edges_along(graph, a, rule, edges, ends) && given[k] == #[trigger] rule_facts(
            a,
            rule,
            edges@,
            ends,
        );
    assert(rule.pattern@[0].1 == Direction::Out);
    lemma_edges_at(graph, held, a, rule.pattern@[0], edges);
    if k == 2 {
        let m = choose|m: int| 0 <= m < given[k].len() && given[k][m] == f;
        assert(f == edge_fact(a, rule, neighbor_of(edges@[m], a)));
        assert(neighbor_of(edges@[m], a) == edges@[m].to@);
        assert(rule.pattern@[0].0@ == "supersedes"@);
    } else {
        assert(rule.pattern@[1].1 == Direction::Out);
        let (m, e) = lemma_path_fact_of(a, rule, edges@, ends, f);
        let b = neighbor_of(edges@[m], a);
        assert(b == edges@[m].to@);
        assert(held(a, rule.pattern@[0].0@, b));
        lemma_edges_at(graph, held, b, rule.pattern@[1], ends[m]);
        assert(neighbor_of(ends[m]@[e], b) == ends[m]@[e].to@);
        assert(held(b, rule.pattern@[1].0@, f.to));
        if k == 0 {
            assert(rule.pattern@[0].0@ == "manages"@);
        } else {
            assert(rule.pattern@[0].0@ == "depends_on"@);
        }
    }
    assert(starts[s]@ == f.from);
}

/// Of the facts that every engine gives, that a record is outdated is the surest, and that
/// it may be affected the least sure.
pub proof fn rules_differ_in_how_sure_they_are(r: Seq<InferenceRule>)
    requires
        are_builtin(r),
    ensures
        crate::order::is_number_below(r[0].confidence, r[2].confidence),
        crate::order::is_number_below(r[1].confidence, r[0].confidence),
{
}

/// What a new engine infers from a record that depends on one with an issue: the issue may
/// affect it. Likewise who manages a part works in the whole, and what is superseded is
/// outdated. Every fact that it infers is of one of these three.
pub proof fn new_engines_infer_the_three_facts<G: GraphIndex + ?Sized>(
    engine: &InferenceEngine,
    graph: &G,
    held: spec_fn(Seq<char>, Seq<char>, Seq<char>) -> bool,
    starts: &Vec<RecordId>,
    records: &Vec<Record>,
    facts: Vec<InferredFact>,
    s: int,
    b: Seq<char>,
    c: Seq<char>,
)
    requires
        call_ensures(InferenceEngine::new, (), *engine),
        call_ensures(
            InferenceEngine::infer::<G>,
            (engine, Some(graph), starts, records),
            Ok(facts),
        ),
        holds_edges(graph, held),
        0 <= s < starts@.len(),
        c != starts@[s]@,
        forall|i: int|
            0 <= i < records@.len() ==> (#[trigger] records@[i]).data.model().member("_rejected"@)
                != Some(Json::Bool(true)),
    ensures
        held(starts@[s]@, "depends_on"@, b) && held(b, "has_issue"@, c) ==> exists|i: int|
            0 <= i < facts@.len() && (#[trigger] facts@[i]).from@ == starts@[s]@ && facts@[i].to@
                == c && facts@[i].derived_edge@ == "may_be_affected"@,
        held(starts@[s]@, "manages"@, b) && held(b, "part_of"@, c) ==> exists|i: int|
            0 <= i < facts@.len() && (#[trigger] facts@[i]).from@ == starts@[s]@ && facts@[i].to@
                == c && facts@[i].derived_edge@ == "works_in"@,
        held(starts@[s]@, "supersedes"@, c) ==> exists|i: int|
            0 <= i < facts@.len() && (#[trigger] facts@[i]).from@ == starts@[s]@ && facts@[i].to@
                == c && facts@[i].derived_edge@ == "outdated"@,
        forall|i: int|
            #![trigger facts@[i]]
            0 <= i < facts@.len() ==> {
                let f = facts@[i]@;
                ||| f.derived_edge == "works_in"@ && f.to != f.from && exists|m: Seq<char>|
                    #[trigger]
                    held(f.from, "manages"@, m) && held(m, "part_of"@, f.to)
                ||| f.derived_edge == "may_be_affected"@ && f.to != f.from && exists|m: Seq<char>|
                    #[trigger]
                    held(f.from, "depends_on"@, m) && held(m, "has_issue"@, f.to)
                ||| f.derived_edge == "outdated"@ && held(f.from, "supersedes"@, f.to)
            },
{
    let rules = engine.rules@;
    let v = facts_view(facts@);
    let lists = choose|lists: Seq<Seq<FactView>>|
        {
            &&& records_give(graph, starts@, rules, lists)
            &&& v == without_rejected(without_repeats(#[trigger] joined(lists)), records@)
        };
    assert forall|f: FactView| #[trigger] v.contains(f) implies exists|i: int|
        0 <= i < facts@.len() && (#[trigger] facts@[i]).from@ == f.from && facts@[i].to@ == f.to
            && facts@[i].derived_edge@ == f.derived_edge by {
        let i = choose|i: int| 0 <= i < v.len() && v[i] == f;
        assert(facts@[i]@ == f);
    }
    let a = starts@[s]@;
    if held(a, "depends_on"@, b) && held(b, "has_issue"@, c) {
        issues_affect_what_depends_on_them(
            graph,
            held,
            starts@,
            rules,
            lists,
            records@,
            s,
            b,
            c,
        );
        let f = choose|f: FactView| #[trigger]
            v.contains(f) && f.from == a && f.to == c && f.derived_edge == "may_be_affected"@;
        assert(v.contains(f));
    }
    if held(a, "manages"@, b) && held(b, "part_of"@, c) {
        managers_work_in_the_whole(graph, held, starts@, rules, lists, records@, s, b, c);
        let f = choose|f: FactView| #[trigger]
            v.contains(f) && f.from == a && f.to == c && f.derived_edge == "works_in"@;
        assert(v.contains(f));
    }
    if held(a, "supersedes"@, c) {
        superseded_records_are_outdated(graph, held, starts@, rules, lists, records@, s, c);
        let f = choose|f: FactView| #[trigger]
            v.contains(f) && f.from == a && f.to == c && f.derived_edge == "outdated"@;
        assert(v.contains(f));
    }
    assert forall|i: int| #![trigger facts@[i]] 0 <= i < facts@.len() implies {
        let f = facts@[i]@;
        ||| f.derived_edge == "works_in"@ && f.to != f.from && exists|m: Seq<char>| #[trigger]
            held(f.from, "manages"@, m) && held(m, "part_of"@, f.to)
        ||| f.derived_edge == "may_be_affected"@ && f.to != f.from && exists|m: Seq<char>|
            #[trigger]
            held(f.from, "depends_on"@, m) && held(m, "has_issue"@, f.to)
        ||| f.derived_edge == "outdated"@ && held(f.from, "supersedes"@, f.to)
    } by {
        assert(v[i] == facts@[i]@);
        assert(v.contains(v[i]));
        facts_follow_from_edges(graph, held, starts@, rules, lists, records@, v[i]);
    }
}

/// What is stored of a fact can be read back: where it leads, by which edge, how sure it
/// is, and the steps that led to it. It counts as inferred.
pub proof fn stored_facts_can_be_read_back(f: FactView, record: &Record)
    requires
        record.data.model() == fact_json(f),
    ensures
        record.data.model().member("from"@) == Some(Json::Text(f.from)),
        record.data.model().member("to"@) == Some(Json::Text(f.to)),
        record.data.model().member("derived_edge"@) == Some(Json::Text(f.derived_edge)),
        record.data.model().member("fact"@) == Some(Json::Text(f.fact)),
        record.data.model().member("confidence"@) == Some(Json::Float(f.confidence)),
        record.data.model().member("source"@) == Some(Json::Text("inferred"@)),
        is_inferred(Some(record)),
        reasons(record.data.model()) == f.reasoning,
{
    reveal_strlit("source");
    reveal_strlit("fact");
    reveal_strlit("derived_edge");
    reveal_strlit("from");
    reveal_strlit("to");
    reveal_strlit("confidence");
    reveal_strlit("_inferred");
    reveal_strlit("_reasoning");
    assert("source"@.len() == 6 && "fact"@.len() == 4 && "derived_edge"@.len() == 12 && "from"@.len()
        == 4 && "to"@.len() == 2 && "confidence"@.len() == 10 && "_inferred"@.len() == 9
        && "_reasoning"@.len() == 10);
    assert("fact"@[1] == 'a' && "from"@[1] == 'r');
    assert("confidence"@[0] == 'c' && "_reasoning"@[0] == '_');
    lemma_texts_collected(f.reasoning);
}

/// Texts as a list are collected again.
proof fn lemma_texts_collected(t: Seq<Seq<char>>)
    ensures
        collected(
            t.map_values(|s: Seq<char>| Json::Text(s)),
            |j: Json| j.text(),
        ) == t,
    decreases t.len(),
{
    let g = |s: Seq<char>| Json::Text(s);
    let a = t.map_values(g);
    if t.len() == 0 {
        assert(collected(a, |j: Json| j.text()) =~= t);
    } else {
        lemma_texts_collected(t.drop_last());
        assert(a.drop_last() =~= t.drop_last().map_values(g));
        assert(a.last().text() == Some(t.last()));
        assert(t.drop_last().push(t.last()) =~= t);
    }
}

/// A fact that is confirmed is certain and says so; one that is rejected says so. Neither
/// loses what it says of the edge, and both still count as inferred. A record that is no
/// fact can be neither.
pub proof fn facts_are_confirmed_or_rejected(
    record: &Record,
    confirmed: Option<Value>,
    rejected: Option<(Value, Option<(RecordId, String)>)>,
    key: Seq<char>,
)
    requires
        call_ensures(InferenceEngine::confirm, (Some(record),), confirmed),
        call_ensures(InferenceEngine::reject, (Some(record),), rejected),
    ensures
        ({
            let fact = record.data.model().member("_inferred"@) == Some(Json::Bool(true));
            &&& confirmed is Some <==> fact
            &&& rejected is Some <==> fact
            &&& confirmed matches Some(x) ==> {
                // The bits of 1.
                &&& x.model().member("confidence"@) == Some(Json::Float(0x3ff0_0000_0000_0000))
                &&& x.model().member("source"@) == Some(Json::Text("confirmed"@))
                &&& key != "confidence"@ && key != "source"@ ==> x.model().member(key)
                    == record.data.model().member(key)
            }
            &&& rejected matches Some(x) ==> {
                &&& x.0.model().member("_rejected"@) == Some(Json::Bool(true))
                &&& x.0.model().member("source"@) == Some(Json::Text("rejected"@))
                &&& key != "_rejected"@ && key != "source"@ ==> x.0.model().member(key)
                    == record.data.model().member(key)
                &&& x.1 matches Some(e) ==> record.data.model().member("from"@) == Some(
                    Json::Text(e.0@),
                ) && record.data.model().member("derived_edge"@) == Some(Json::Text(e.1@))
            }
        }),
{
    reveal_strlit("source");
    reveal_strlit("confidence");
    reveal_strlit("_rejected");
    assert("source"@.len() == 6 && "confidence"@.len() == 10 && "_rejected"@.len() == 9);
}

/// A fact is stored where no edge of its type leads to its end yet, and only there.
pub proof fn facts_are_stored_once(fact: &InferredFact, edges: &Vec<EdgeInfo>, r: Option<Value>)
    requires
        call_ensures(InferenceEngine::infer_and_store, (fact, edges), r),
    ensures
        (exists|i: int| 0 <= i < edges@.len() && (#[trigger] edges@[i]).to@ == fact.to@) <==> r is None,
        r matches Some(data) ==> data.model().member("to"@) == Some(Json::Text(fact.to@)),
{
    if r is Some {
        reveal_strlit("source");
        reveal_strlit("fact");
        reveal_strlit("derived_edge");
        reveal_strlit("from");
        reveal_strlit("to");
        reveal_strlit("confidence");
        reveal_strlit("_inferred");
        reveal_strlit("_reasoning");
        assert("to"@.len() == 2 && "confidence"@.len() == 10 && "_inferred"@.len() == 9
            && "_reasoning"@.len() == 10);
    }
}

/// The edges of a fact are those that name its record, so that one that stands for another
/// fact stays.
pub proof fn edges_name_their_fact(edges: &Vec<EdgeInfo>, fact: &RecordId, r: Vec<RecordId>, i: int)
    requires
        call_ensures(InferenceEngine::edges_of_fact, (edges, fact), r),
        0 <= i < edges@.len(),
    ensures
        edges@[i].properties.model().member("fact_record"@) == Some(Json::Text(fact@))
            ==> crate::record::ids_view(r@).contains(edges@[i].id@),
        forall|k: int|
            0 <= k < r@.len() ==> exists|j: int|
                0 <= j < edges@.len() && (#[trigger] edges@[j]).id@ == (#[trigger] r@[k])@
                    && edges@[j].properties.model().member("fact_record"@) == Some(
                    Json::Text(fact@),
                ),
{
    let f = |e: EdgeInfo| edge_for_fact(e, fact@);
    let v = crate::record::ids_view(r@);
    crate::text::collected_values_come_from_items(edges@, f, edges@[i].id@);
    if edges@[i].properties.model().member("fact_record"@) == Some(Json::Text(fact@)) {
        assert(f(edges@[i]) == Some(edges@[i].id@));
    }
    assert forall|k: int| 0 <= k < r@.len() implies exists|j: int|
        0 <= j < edges@.len() && (#[trigger] edges@[j]).id@ == (#[trigger] r@[k])@
            && edges@[j].properties.model().member("fact_record"@) == Some(Json::Text(fact@)) by {
        assert(v[k] == r@[k]@);
        assert(v.contains(v[k]));
        crate::text::collected_values_come_from_items(edges@, f, v[k]);
        let j = choose|j: int| 0 <= j < edges@.len() && f(#[trigger] edges@[j]) == Some(v[k]);
        assert(edges@[j].id@ == r@[k]@);
    }
}

/// The edge of a fact names the rule that gave it, how sure it is, and the record that tells
/// of it.
pub proof fn derived_edges_lead_to_their_record(fact: &InferredFact, record: &RecordId, r: Value)
    requires
        call_ensures(InferenceEngine::derived_properties, (fact, record), r),
    ensures
        r.model().member("source"@) == Some(Json::Text("inferred"@)),
        r.model().member("confidence"@) == Some(Json::Float(fact.confidence)),
        r.model().member("fact_record"@) == Some(Json::Text(record@)),
        fact.reasoning@.len() > 0 ==> r.model().member("rule"@) == Some(
            Json::Text(fact.reasoning@[0]@),
        ),
{
    reveal_strlit("source");
    reveal_strlit("rule");
    reveal_strlit("confidence");
    reveal_strlit("fact_record");
    assert("source"@.len() == 6 && "rule"@.len() == 4 && "confidence"@.len() == 10
        && "fact_record"@.len() == 11);
    if fact.reasoning@.len() > 0 {
        assert(fact@.reasoning[0] == fact.reasoning@[0]@);
    }
}

/// Why a fact holds is told of records of facts, and of no others.
pub proof fn reasons_are_told_of_facts(record: &Record, r: Option<Vec<String>>, s: Option<Vec<String>>)
    requires
        call_ensures(InferenceEngine::why, (Some(record),), r),
        call_ensures(InferenceEngine::why, (None,), s),
    ensures
        s is None,
        r is Some <==> record.data.model().member("_inferred"@) == Some(Json::Bool(true)),
        record.data.model().member("_reasoning"@) is None ==> (r matches Some(x) ==> x@.len() == 0),
{
    if r is Some {
        assert(texts_view(r->0@).len() == r->0@.len());
    }
}

/// Of facts for the same edge one is left, and a fact that was rejected is not; every other
/// fact stays.
pub proof fn repeated_and_rejected_facts_go(
    facts: Vec<InferredFact>,
    records: &Vec<Record>,
    once: Vec<InferredFact>,
    left: Vec<InferredFact>,
    i: int,
    j: int,
)
    requires
        call_ensures(drop_repeats, (facts,), once),
        call_ensures(drop_rejected, (facts, records), left),
        0 <= i < facts@.len(),
    ensures
        exists|k: int|
            0 <= k < once@.len() && (#[trigger] once@[k]).from@ == facts@[i].from@ && once@[k].to@
                == facts@[i].to@ && once@[k].derived_edge@ == facts@[i].derived_edge@,
        0 <= j < records@.len() && records@[j].data.model().member("_rejected"@) == Some(
            Json::Bool(true),
        ) && records@[j].data.model().member("from"@) == Some(Json::Text(facts@[i].from@))
            && records@[j].data.model().member("to"@) == Some(Json::Text(facts@[i].to@))
            && records@[j].data.model().member("derived_edge"@) == Some(
            Json::Text(facts@[i].derived_edge@),
        ) ==> !facts_view(left@).contains(facts@[i]@),
        records@.len() == 0 ==> left@.len() == facts@.len(),
{
    let f = facts_view(facts@);
    assert(f[i] == facts@[i]@);
    repeats_are_dropped(f);
    let w = facts_view(once@);
    assert(has_edge(w, f[i]));
    let k = choose|k: int| 0 <= k < w.len() && same_edge(#[trigger] w[k], f[i]);
    assert(w[k] == once@[k]@);
    assert(once@[k].from@ == facts@[i].from@);
    let p = |x: FactView| !is_rejected(records@, x);
    let l = facts_view(left@);
    assert(l.len() == left@.len());
    if l.contains(f[i]) {
        let n = choose|n: int| 0 <= n < l.len() && l[n] == f[i];
        f.lemma_filter_pred(p, n);
        assert(p(f[i]));
        if 0 <= j < records@.len() {
            assert(!rejects(records@[j].data.model(), f[i]));
        }
    }
    if records@.len() == 0 {
        lemma_none_rejected(f, p);
    }
}

/// A filter that takes every fact leaves them all.
proof fn lemma_none_rejected(f: Seq<FactView>, p: spec_fn(FactView) -> bool)
    requires
        forall|x: FactView| #[trigger] p(x),
    ensures
        f.filter(p).len() == f.len(),
    decreases f.len(),
{
    reveal(Seq::filter);
    if f.len() > 0 {
        lemma_none_rejected(f.drop_last(), p);
        assert(p(f.last()));
    }
}

} // verus!
