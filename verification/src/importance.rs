//! How much a record matters.

use crate::entity::{candidates, extract_entities, first_of_each, text_captures};
use crate::json::{find_key, key_index, lemma_key_index, Json, Number, Value};
use crate::record::{internal_table, is_internal_table};
use crate::text::{
    contains, contains_text, is_blank, runs, same_text, split_runs, str_lowercase, CharClass,
};
use vstd::prelude::*;

verus! {

/// Whether the importance of a record was fixed by hand.
pub open spec fn pinned(data: Json) -> bool {
    data.flag_member("_importance_pinned"@)
}

/// Whether the importance of a record was fixed by hand.
pub fn is_pinned(data: &Value) -> (r: bool)
    ensures
        r == pinned(data.model()),
{
    data.flag("_importance_pinned")
}

/// The largest 64-bit IEEE number that, rounded to 32 bits, is below 0.8, by its
/// bits: `26843545 / 2^25`.
pub const BELOW_HIGH_IMPORTANCE: u64 = 0x3fe9_9999_9000_0000;

/// The bits of the positive infinity.
pub const INFINITY_BITS: u64 = 0x7ff0_0000_0000_0000;

/// Whether the importance that a record carries is at least 0.8, as a 32-bit
/// number. The bits of IEEE numbers without a sign are ordered as the numbers are.
/// A record without an importance has that of 0.5.
pub open spec fn highly_important(data: Json) -> bool {
    match data.member("_importance"@) {
        Some(Json::PosInt(n)) => n >= 1,
        Some(Json::Float(bits)) => BELOW_HIGH_IMPORTANCE < bits <= INFINITY_BITS,
        _ => false,
    }
}

/// Whether the importance that a record carries is at least 0.8.
pub fn is_highly_important(data: &Value) -> (r: bool)
    ensures
        r == highly_important(data.model()),
{
    match data.get("_importance") {
        Some(Value::Number(Number::PosInt(n))) => *n >= 1,
        Some(Value::Number(Number::Float(bits))) => BELOW_HIGH_IMPORTANCE < *bits && *bits
            <= INFINITY_BITS,
        _ => false,
    }
}

/// Whether a text, in lower case, speaks of something that lasts.
pub open spec fn high_value(t: Seq<char>) -> bool {
    ||| contains_text(t, "decision"@)
    ||| contains_text(t, "decided"@)
    ||| contains_text(t, "chose"@)
    ||| contains_text(t, "approach"@)
    ||| contains_text(t, "architecture"@)
    ||| contains_text(t, "breaking change"@)
    ||| contains_text(t, "migration"@)
    ||| contains_text(t, "security"@)
    ||| contains_text(t, "vulnerability"@)
    ||| contains_text(t, "root cause"@)
    ||| contains_text(t, "root_cause"@)
    ||| contains_text(t, "fix"@)
    ||| contains_text(t, "resolved"@)
}

/// Whether a text, in lower case, speaks of something that passes.
pub open spec fn low_value(t: Seq<char>) -> bool {
    ||| contains_text(t, "debug"@)
    ||| contains_text(t, "tmp"@)
    ||| contains_text(t, "temporary"@)
    ||| contains_text(t, "wip"@)
    ||| contains_text(t, "todo"@)
    ||| contains_text(t, "test output"@)
}

/// Whether a text, in lower case, speaks of something that lasts.
fn is_high_value(t: &str) -> (r: bool)
    ensures
        r == high_value(t@),
{
    contains(t, "decision") || contains(t, "decided") || contains(t, "chose") || contains(
        t,
        "approach",
    ) || contains(t, "architecture") || contains(t, "breaking change") || contains(t, "migration")
        || contains(t, "security") || contains(t, "vulnerability") || contains(t, "root cause")
        || contains(t, "root_cause") || contains(t, "fix") || contains(t, "resolved")
}

/// Whether a text, in lower case, speaks of something that passes.
fn is_low_value(t: &str) -> (r: bool)
    ensures
        r == low_value(t@),
{
    contains(t, "debug") || contains(t, "tmp") || contains(t, "temporary") || contains(t, "wip")
        || contains(t, "todo") || contains(t, "test output")
}

/// The keys of an object that are not the database's own.
pub open spec fn user_keys(data: Json) -> Set<Seq<char>> {
    match data {
        Json::Object(m) => m.dom().filter(|k: Seq<char>| !internal_table(k)),
        _ => Set::empty(),
    }
}

/// How many keys of an object are not the database's own.
fn count_user_keys(data: &Value) -> (n: usize)
    ensures
        n == user_keys(data.model()).len(),
        user_keys(data.model()).finite(),
{
    match data {
        Value::Object(m) => {
            let mut n: usize = 0;
            let mut i: usize = 0;
            let ghost mut seen: Set<Seq<char>> = Set::empty();
            proof {
                assert forall|k: Seq<char>| #[trigger] key_index(m@, k) >= 0 by {
                    lemma_key_index(m@, k);
                }
            }
            while i < m.len()
                invariant
                    i <= m@.len(),
                    n <= i,
                    seen.finite(),
                    seen.len() == n,
                    forall|k: Seq<char>| #[trigger]
                        seen.contains(k) <==> !internal_table(k) && key_index(m@, k) < i,
                decreases m@.len() - i,
            {
                let ghost key = m@[i as int].0@;
                let at = find_key(m, m[i].0.as_str());
                proof {
                    lemma_key_index(m@, key);
                    assert forall|k: Seq<char>| key_index(m@, k) == i implies k == key by {
                        lemma_key_index(m@, k);
                    }
                }
                if at == i && !is_internal_table(m[i].0.as_str()) {
                    n += 1;
                    proof {
                        seen = seen.insert(key);
                    }
                }
                i += 1;
            }
            proof {
                let keys = user_keys(data.model());
                assert forall|k: Seq<char>| keys.contains(k) == seen.contains(k) by {
                    lemma_key_index(m@, k);
                }
                assert(keys =~= seen);
            }
            n
        },
        _ => 0,
    }
}

/// What the importance of a record is made of, in hundredths.
#[derive(Clone, Copy, Debug, PartialEq, Eq, Structural)]
pub struct ImportanceBreakdown {
    pub score: i32,
    pub entity_count: usize,
    pub entity_bonus: i32,
    pub structural_bonus: i32,
    pub complexity_bonus: i32,
    pub field_bonus: i32,
    pub type_bonus: i32,
}

/// The importance of a record without any sign of it, in hundredths.
pub const DEFAULT_IMPORTANCE: i32 = 50;

/// `n` if it lies between `lo` and `hi`, else the nearer of the two.
pub open spec fn clamped(n: int, lo: int, hi: int) -> int {
    if n < lo {
        lo
    } else if n > hi {
        hi
    } else {
        n
    }
}

impl ImportanceBreakdown {
    /// Whether the parts are those of a record with the data and the text.
    pub open spec fn describes(self, data: Json, text: Seq<char>) -> bool {
        let words = runs(text, CharClass::Visible).len();
        let fields = user_keys(data).len();
        let lower = str_lowercase(text);
        &&& self.entity_count == first_of_each(candidates(text, text_captures(text))).len()
        &&& self.entity_bonus == clamped(5 * self.entity_count, 0, 20)
        &&& self.structural_bonus == (if high_value(lower) {
            15int
        } else {
            0
        }) - (if low_value(lower) {
            15int
        } else {
            0
        })
        &&& self.complexity_bonus == if words >= 20 {
            10int
        } else if words >= 10 {
            5
        } else {
            0
        }
        &&& self.field_bonus == if fields >= 4 {
            10int
        } else if fields >= 2 {
            5
        } else {
            0
        }
        &&& self.type_bonus == if weighty_type(data) {
            10int
        } else {
            0
        }
    }

    /// The sum of the parts.
    pub open spec fn total(self) -> int {
        clamped(
            DEFAULT_IMPORTANCE + self.entity_bonus + self.structural_bonus + self.complexity_bonus
                + self.field_bonus + self.type_bonus,
            5,
            100,
        )
    }
}

/// Whether the `type` of a record is one that matters.
pub open spec fn weighty_type(data: Json) -> bool {
    data.text_member("type"@) matches Some(t) && (t == "error"@ || t == "decision"@ || t
        == "architecture"@)
}

/// Computes what the importance of a record is made of, from its data and from all
/// the text in it.
pub fn compute_importance_breakdown(data: &Value, text: &str) -> (r: ImportanceBreakdown)
    ensures
        r.describes(data.model(), text@),
        r.score == r.total(),
{
    let entities = extract_entities(text);
    let entity_count = entities.len();
    assert(entity_count == crate::entity::entities_view(entities@).len());
    let entity_bonus: i32 = if entity_count >= 4 {
        20
    } else {
        5 * (entity_count as i32)
    };
    let lower = text.to_lowercase();
    let high: i32 = if is_high_value(lower.as_str()) {
        15
    } else {
        0
    };
    let low: i32 = if is_low_value(lower.as_str()) {
        15
    } else {
        0
    };
    let structural_bonus: i32 = high - low;
    let visible = split_runs(text, CharClass::Visible);
    let words = visible.len();
    assert(words == visible@.map_values(|w: String| w@).len());
    let complexity_bonus: i32 = if words >= 20 {
        10
    } else if words >= 10 {
        5
    } else {
        0
    };
    let fields = count_user_keys(data);
    let field_bonus: i32 = if fields >= 4 {
        10
    } else if fields >= 2 {
        5
    } else {
        0
    };
    let weighty = match data.get_str("type") {
        Some(t) => same_text(t, "error") || same_text(t, "decision") || same_text(t, "architecture"),
        None => false,
    };
    let type_bonus: i32 = if weighty {
        10
    } else {
        0
    };
    let sum: i32 = DEFAULT_IMPORTANCE + entity_bonus + structural_bonus + complexity_bonus
        + field_bonus + type_bonus;
    let score: i32 = if sum < 5 {
        5
    } else if sum > 100 {
        100
    } else {
        sum
    };
    ImportanceBreakdown {
        score,
        entity_count,
        entity_bonus,
        structural_bonus,
        complexity_bonus,
        field_bonus,
        type_bonus,
    }
}

/// Computes the importance of a record, in hundredths: that of a record without
/// text is the default.
pub fn compute_importance(data: &Value, text: &str) -> (r: i32)
    ensures
        text@.len() == 0 ==> r == DEFAULT_IMPORTANCE,
        text@.len() > 0 ==> exists|b: ImportanceBreakdown| #[trigger]
            b.describes(data.model(), text@) && r == b.total(),
{
    if is_blank(text) {
        return DEFAULT_IMPORTANCE;
    }
    compute_importance_breakdown(data, text).score
}

/// A word that tells of something that lasts counts for a record, and one that tells of
/// something that passes counts against it. Of three records with the same data, as many
/// entities and as many words, the one with a word of the first kind alone scores higher
/// than the one with neither, below the highest score, and that one higher than the one
/// with a word of the second kind alone. A word of each kind makes no difference.
pub proof fn lasting_words_count_for_a_record(
    data: Json,
    plain: Seq<char>,
    text: Seq<char>,
    a: ImportanceBreakdown,
    b: ImportanceBreakdown,
    high: Seq<char>,
    low: Seq<char>,
)
    requires
        a.describes(data, plain),
        b.describes(data, text),
        a.entity_count == b.entity_count,
        runs(plain, CharClass::Visible).len() == runs(text, CharClass::Visible).len(),
        high == "decision"@ || high == "decided"@ || high == "chose"@ || high == "approach"@ || high
            == "architecture"@ || high == "breaking change"@ || high == "migration"@ || high
            == "security"@ || high == "vulnerability"@ || high == "root cause"@ || high
            == "root_cause"@ || high == "fix"@ || high == "resolved"@,
        low == "debug"@ || low == "tmp"@ || low == "temporary"@ || low == "wip"@ || low == "todo"@
            || low == "test output"@,
        ({
            let p = str_lowercase(plain);
            &&& !contains_text(p, "decision"@) && !contains_text(p, "decided"@)
            &&& !contains_text(p, "chose"@) && !contains_text(p, "approach"@)
            &&& !contains_text(p, "architecture"@) && !contains_text(p, "breaking change"@)
            &&& !contains_text(p, "migration"@) && !contains_text(p, "security"@)
            &&& !contains_text(p, "vulnerability"@) && !contains_text(p, "root cause"@)
            &&& !contains_text(p, "root_cause"@) && !contains_text(p, "fix"@)
            &&& !contains_text(p, "resolved"@)
            &&& !contains_text(p, "debug"@) && !contains_text(p, "tmp"@)
            &&& !contains_text(p, "temporary"@) && !contains_text(p, "wip"@)
            &&& !contains_text(p, "todo"@) && !contains_text(p, "test output"@)
        }),
    ensures
        ({
            let t = str_lowercase(text);
            let no_low = !contains_text(t, "debug"@) && !contains_text(t, "tmp"@) && !contains_text(
                t,
                "temporary"@,
            ) && !contains_text(t, "wip"@) && !contains_text(t, "todo"@) && !contains_text(
                t,
                "test output"@,
            );
            let no_high = !contains_text(t, "decision"@) && !contains_text(t, "decided"@)
                && !contains_text(t, "chose"@) && !contains_text(t, "approach"@) && !contains_text(
                t,
                "architecture"@,
            ) && !contains_text(t, "breaking change"@) && !contains_text(t, "migration"@)
                && !contains_text(t, "security"@) && !contains_text(t, "vulnerability"@)
                && !contains_text(t, "root cause"@) && !contains_text(t, "root_cause"@)
                && !contains_text(t, "fix"@) && !contains_text(t, "resolved"@);
            &&& contains_text(t, high) && no_low && a.total() < 100 ==> b.total() > a.total()
            &&& contains_text(t, high) && no_low && a.total() <= 85 ==> b.total() == a.total() + 15
            &&& contains_text(t, low) && no_high ==> b.total() == a.total() - 15
            &&& contains_text(t, high) && contains_text(t, low) ==> b.total() == a.total()
            &&& no_high && no_low ==> b.total() == a.total()
        }),
{
}

/// The importance of a record lies between 5 and 100. Each entity counts for it up to the
/// fourth, and so do ten words and twenty, two members of its own and four, and one of
/// the types that matter. A record with none of this has 50.
pub proof fn what_a_record_says_counts_for_it(
    data: Json,
    text: Seq<char>,
    a: ImportanceBreakdown,
    more: Json,
    longer: Seq<char>,
    b: ImportanceBreakdown,
)
    requires
        a.describes(data, text),
        b.describes(more, longer),
        high_value(str_lowercase(text)) == high_value(str_lowercase(longer)),
        low_value(str_lowercase(text)) == low_value(str_lowercase(longer)),
    ensures
        5 <= a.total() <= 100,
        ({
            let words = runs(text, CharClass::Visible).len();
            let more_words = runs(longer, CharClass::Visible).len();
            let fields = user_keys(data).len();
            let more_fields = user_keys(more).len();
            let typed = |d: Json|
                d.member("type"@) == Some(Json::Text("error"@)) || d.member("type"@) == Some(
                    Json::Text("decision"@),
                ) || d.member("type"@) == Some(Json::Text("architecture"@));
            let alike = words == more_words && fields == more_fields && typed(data) == typed(more)
                && a.entity_count == b.entity_count;
            let none = a.entity_count == 0 && words < 10 && fields < 2 && !typed(data);
            &&& alike ==> a.total() == b.total()
            &&& none && !high_value(str_lowercase(text)) && !low_value(str_lowercase(text))
                ==> a.total() == 50
            &&& none && words == more_words && fields == more_fields && !typed(more)
                ==> b.total() == a.total() + (if b.entity_count >= 4 {
                20
            } else {
                5 * b.entity_count
            })
            &&& none && b.entity_count == 0 && fields == more_fields && !typed(more)
                ==> b.total() == a.total() + (if more_words >= 20 {
                10int
            } else if more_words >= 10 {
                5
            } else {
                0
            })
            &&& none && b.entity_count == 0 && words == more_words && !typed(more)
                ==> b.total() == a.total() + (if more_fields >= 4 {
                10int
            } else if more_fields >= 2 {
                5
            } else {
                0
            })
            &&& none && b.entity_count == 0 && words == more_words && fields == more_fields && typed(
                more,
            ) ==> b.total() == a.total() + 10
            &&& a.entity_count <= b.entity_count && words <= more_words && fields <= more_fields && (
            typed(data) ==> typed(more)) ==> a.total() <= b.total()
        }),
{
}

/// The importance that is computed is what the parts come to; a record without text has 50.
pub proof fn records_without_text_are_ordinary()
    ensures
        DEFAULT_IMPORTANCE == 50,
{
}

/// The members that count are those of an object whose names do not begin with an
/// underscore.
pub proof fn own_members_count(m: Map<Seq<char>, Json>, k: Seq<char>)
    ensures
        user_keys(Json::Object(m)).contains(k) <==> m.contains_key(k) && !(k.len() > 0 && k[0]
            == '_'),
{
}

/// A record counts as highly important from an importance of 0.8 on: the whole numbers
/// from 1 on, and the fractions from that of 32 bits next to 0.8 on. What is negative,
/// below it, missing or no number does not count.
pub proof fn four_fifths_are_highly_important(data: Json)
    ensures
        data.member("_importance"@) is None ==> !highly_important(data),
        data.member("_importance"@) matches Some(Json::PosInt(n)) ==> (highly_important(data) <==> n
            > 0),
        data.member("_importance"@) matches Some(Json::Text(_)) ==> !highly_important(data),
        data.member("_importance"@) matches Some(Json::Float(bits)) ==> {
            // 0.8, 0.79 and 1, and what is below zero.
            &&& 0x3fe9_9999_9999_999a <= bits <= 0x7ff0_0000_0000_0000 ==> highly_important(data)
            &&& bits <= 0x3fe9_47ae_147a_e148 ==> !highly_important(data)
            &&& bits >= 0x8000_0000_0000_0000 ==> !highly_important(data)
        },
{
}

/// A record is pinned where it says so.
pub proof fn pinned_records_say_so(data: Json)
    ensures
        pinned(data) <==> data.member("_importance_pinned"@) == Some(Json::Bool(true)),
{
}

/// What is computed of a record is between 5 and 100, and of two records with the same
/// data, entities and words the one whose text speaks of a decision, and of nothing that
/// passes, matters more than the one whose text speaks of neither, below the highest
/// score.
pub proof fn decisions_matter_more(
    data: &Value,
    plain: &str,
    text: &str,
    a: ImportanceBreakdown,
    b: ImportanceBreakdown,
    high: Seq<char>,
)
    requires
        call_ensures(compute_importance_breakdown, (data, plain), a),
        call_ensures(compute_importance_breakdown, (data, text), b),
        a.entity_count == b.entity_count,
        runs(plain@, CharClass::Visible).len() == runs(text@, CharClass::Visible).len(),
        high == "decision"@ || high == "decided"@ || high == "chose"@ || high == "approach"@ || high
            == "architecture"@ || high == "breaking change"@ || high == "migration"@ || high
            == "security"@ || high == "vulnerability"@ || high == "root cause"@ || high
            == "root_cause"@ || high == "fix"@ || high == "resolved"@,
        contains_text(str_lowercase(text@), high),
        !low_value(str_lowercase(text@)),
        !low_value(str_lowercase(plain@)),
        !high_value(str_lowercase(plain@)),
    ensures
        5 <= a.score <= 100,
        a.score < 100 ==> a.score < b.score,
        a.score <= 85 ==> b.score == a.score + 15,
{
}

/// The importance that is computed is the score of the breakdown; a record without text
/// has 50.
pub proof fn importance_is_the_score(data: &Value, text: &str, a: ImportanceBreakdown, r: i32)
    requires
        call_ensures(compute_importance_breakdown, (data, text), a),
        call_ensures(compute_importance, (data, text), r),
    ensures
        text@.len() > 0 ==> r == a.score,
        text@.len() == 0 ==> r == 50,
{
}

/// The importance of a record was fixed where a member says so, and is high from four fifths
/// on, as 32-bit numbers are compared, and at every whole number but 0.
pub proof fn importance_is_read_from_the_record(data: &Value, p: bool, h: bool)
    requires
        call_ensures(is_pinned, (data,), p),
        call_ensures(is_highly_important, (data,), h),
    ensures
        p <==> data.model().member("_importance_pinned"@) == Some(Json::Bool(true)),
        data.model().member("_importance"@) is None ==> !h,
        data.model().member("_importance"@) matches Some(Json::PosInt(n)) ==> (h <==> n > 0),
        data.model().member("_importance"@) matches Some(Json::NegInt(_)) ==> !h,
        data.model().member("_importance"@) matches Some(Json::Float(b)) ==> (b
            >= 0x3fe9_9999_a000_0000 && b <= 0x7ff0_0000_0000_0000 ==> h) && (b
            <= 0x3fe9_9999_9000_0000 ==> !h),
{
}

} // verus!
