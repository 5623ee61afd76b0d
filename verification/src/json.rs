//! JSON values as the database reads and writes them.

use crate::text::same_text;
use vstd::prelude::*;

verus! {

/// A JSON number: an unsigned integer, a negative integer, or the bits of a
/// 64-bit IEEE number.
#[derive(Clone, Copy, Debug)]
pub enum Number {
    PosInt(u64),
    NegInt(i64),
    Float(u64),
}

/// A JSON value. The members of an object are kept in a list; the first member
/// with a key is the one that counts.
#[derive(Debug)]
pub enum Value {
    Null,
    Bool(bool),
    Number(Number),
    Text(String),
    Array(Vec<Value>),
    Object(Vec<(String, Value)>),
}

/// What a JSON value means: objects are maps, so the order of members is gone.
#[verifier::ext_equal]
pub enum Json {
    Null,
    Bool(bool),
    PosInt(u64),
    NegInt(i64),
    Float(u64),
    Text(Seq<char>),
    Array(Seq<Json>),
    Object(Map<Seq<char>, Json>),
}

/// How a JSON value is laid out: objects are member lists, in order.
#[verifier::ext_equal]
pub enum Layout {
    Null,
    Bool(bool),
    PosInt(u64),
    NegInt(i64),
    Float(u64),
    Text(Seq<char>),
    Array(Seq<Layout>),
    Object(Seq<(Seq<char>, Layout)>),
}

/// The bits of `-0.0`.
pub const NEGATIVE_ZERO: u64 = 0x8000_0000_0000_0000;

/// Whether two numbers that are given by their bits are equal as numbers.
pub open spec fn float_same(a: u64, b: u64) -> bool {
    a == b || ((a == 0 || a == NEGATIVE_ZERO) && (b == 0 || b == NEGATIVE_ZERO))
}

/// Equality of JSON values: objects member by member, and the two zeros alike.
pub open spec fn json_same(a: Json, b: Json) -> bool
    decreases a,
{
    match (a, b) {
        (Json::Null, Json::Null) => true,
        (Json::Bool(x), Json::Bool(y)) => x == y,
        (Json::PosInt(x), Json::PosInt(y)) => x == y,
        (Json::NegInt(x), Json::NegInt(y)) => x == y,
        (Json::Float(x), Json::Float(y)) => float_same(x, y),
        (Json::Text(x), Json::Text(y)) => x == y,
        (Json::Array(x), Json::Array(y)) => {
            &&& x.len() == y.len()
            &&& forall|i: int| 0 <= i < x.len() ==> json_same(#[trigger] x[i], y[i])
        },
        (Json::Object(x), Json::Object(y)) => {
            &&& forall|k: Seq<char>| #[trigger] x.dom().contains(k) <==> y.dom().contains(k)
            &&& forall|k: Seq<char>| #[trigger]
                x.dom().contains(k) ==> json_same(x[k], y[k])
        },
        _ => false,
    }
}

/// The position of the first member with the key `k`, or the length of the list.
pub open spec fn key_index<V>(m: Seq<(String, V)>, k: Seq<char>) -> int
    decreases m.len(),
{
    if m.len() == 0 {
        0
    } else if m[0].0@ == k {
        0
    } else {
        1 + key_index(m.drop_first(), k)
    }
}

/// Where the first member with a key stands.
pub proof fn lemma_key_index<V>(m: Seq<(String, V)>, k: Seq<char>)
    ensures
        0 <= key_index(m, k) <= m.len(),
        key_index(m, k) < m.len() ==> m[key_index(m, k)].0@ == k,
        forall|j: int| 0 <= j < key_index(m, k) ==> (#[trigger] m[j]).0@ != k,
    decreases m.len(),
{
    if m.len() > 0 && m[0].0@ != k {
        lemma_key_index(m.drop_first(), k);
        assert forall|j: int| 0 <= j < key_index(m, k) implies (#[trigger] m[j]).0@ != k by {
            if j > 0 {
                assert(m.drop_first()[j - 1] == m[j]);
            }
        }
    }
}

/// The first position is the only one with the key and none like it before.
pub proof fn lemma_key_index_is<V>(m: Seq<(String, V)>, k: Seq<char>, i: int)
    requires
        0 <= i <= m.len(),
        i < m.len() ==> m[i].0@ == k,
        forall|j: int| 0 <= j < i ==> (#[trigger] m[j]).0@ != k,
    ensures
        key_index(m, k) == i,
{
    lemma_key_index(m, k);
    let n = key_index(m, k);
    if n < i {
        assert(m[n].0@ != k);
    }
    if i < n {
        assert(m[i].0@ != k);
    }
}

/// Whether some member has the key `k`.
pub open spec fn has_key<V>(m: Seq<(String, V)>, k: Seq<char>) -> bool {
    key_index(m, k) < m.len()
}

impl Value {
    /// What the value means.
    pub open spec fn model(self) -> Json
        decreases self,
    {
        match self {
            Value::Null => Json::Null,
            Value::Bool(b) => Json::Bool(b),
            Value::Number(Number::PosInt(n)) => Json::PosInt(n),
            Value::Number(Number::NegInt(n)) => Json::NegInt(n),
            Value::Number(Number::Float(n)) => Json::Float(n),
            Value::Text(s) => Json::Text(s@),
            Value::Array(v) => Json::Array(
                Seq::new(
                    v@.len(),
                    |i: int|
                        if 0 <= i < v@.len() {
                            v@[i].model()
                        } else {
                            Json::Null
                        },
                ),
            ),
            Value::Object(m) => Json::Object(
                Map::new(
                    |k: Seq<char>| has_key(m@, k),
                    |k: Seq<char>|
                        if 0 <= key_index(m@, k) < m@.len() {
                            m@[key_index(m@, k)].1.model()
                        } else {
                            Json::Null
                        },
                ),
            ),
        }
    }

    /// How the value is laid out.
    pub open spec fn layout(self) -> Layout
        decreases self,
    {
        match self {
            Value::Null => Layout::Null,
            Value::Bool(b) => Layout::Bool(b),
            Value::Number(Number::PosInt(n)) => Layout::PosInt(n),
            Value::Number(Number::NegInt(n)) => Layout::NegInt(n),
            Value::Number(Number::Float(n)) => Layout::Float(n),
            Value::Text(s) => Layout::Text(s@),
            Value::Array(v) => Layout::Array(
                Seq::new(
                    v@.len(),
                    |i: int|
                        if 0 <= i < v@.len() {
                            v@[i].layout()
                        } else {
                            Layout::Null
                        },
                ),
            ),
            Value::Object(m) => Layout::Object(
                Seq::new(
                    m@.len(),
                    |i: int|
                        if 0 <= i < m@.len() {
                            (m@[i].0@, m@[i].1.layout())
                        } else {
                            (Seq::empty(), Layout::Null)
                        },
                ),
            ),
        }
    }

    /// The value of the member `k`, where the value is an object that has one.
    pub open spec fn member(self, k: Seq<char>) -> Option<Json> {
        self.model().member(k)
    }

    /// A copy with the same meaning and the same layout.
    pub fn copy(&self) -> (r: Value)
        ensures
            r.model() == self.model(),
            r.layout() == self.layout(),
        decreases self,
    {
        match self {
            Value::Null => Value::Null,
            Value::Bool(b) => Value::Bool(*b),
            Value::Number(n) => Value::Number(*n),
            Value::Text(s) => Value::Text(s.clone()),
            Value::Array(v) => {
                let mut out: Vec<Value> = Vec::new();
                let mut i: usize = 0;
                while i < v.len()
                    invariant
                        i <= v@.len(),
                        out@.len() == i,
                        *self == Value::Array(*v),
                        forall|j: int| 0 <= j < i ==> (#[trigger] out@[j]).model() == v@[j].model(),
                        forall|j: int|
                            0 <= j < i ==> (#[trigger] out@[j]).layout() == v@[j].layout(),
                    decreases v@.len() - i,
                {
                    assert(decreases_to!(*self => self->Array_0@[i as int]));
                    out.push(v[i].copy());
                    i += 1;
                }
                let r = Value::Array(out);
                assert(r.model()->Array_0 =~= self.model()->Array_0);
                assert(r.layout()->Array_0 =~= self.layout()->Array_0);
                r
            },
            Value::Object(m) => {
                let mut out: Vec<(String, Value)> = Vec::new();
                let mut i: usize = 0;
                while i < m.len()
                    invariant
                        i <= m@.len(),
                        out@.len() == i,
                        *self == Value::Object(*m),
                        forall|j: int| 0 <= j < i ==> (#[trigger] out@[j]).0@ == m@[j].0@,
                        forall|j: int|
                            0 <= j < i ==> (#[trigger] out@[j]).1.model() == m@[j].1.model(),
                        forall|j: int|
                            0 <= j < i ==> (#[trigger] out@[j]).1.layout() == m@[j].1.layout(),
                    decreases m@.len() - i,
                {
                    let k = m[i].0.clone();
                    assert(decreases_to!(*self => self->Object_0@[i as int].1));
                    let v = m[i].1.copy();
                    out.push((k, v));
                    i += 1;
                }
                proof {
                    lemma_same_members(out@, m@);
                }
                let r = Value::Object(out);
                assert(r.model()->Object_0 =~= self.model()->Object_0);
                assert(r.layout()->Object_0 =~= self.layout()->Object_0);
                r
            },
        }
    }
}

impl Json {
    /// The value of the member `k`, where the value is an object that has one.
    pub open spec fn member(self, k: Seq<char>) -> Option<Json> {
        if self is Object && self->Object_0.dom().contains(k) {
            Some(self->Object_0[k])
        } else {
            None
        }
    }

    /// The text, where the value is one.
    pub open spec fn text(self) -> Option<Seq<char>> {
        if self is Text {
            Some(self->Text_0)
        } else {
            None
        }
    }

    /// The text of the member `k`, where there is one.
    pub open spec fn text_member(self, k: Seq<char>) -> Option<Seq<char>> {
        match self.member(k) {
            Some(v) => v.text(),
            None => None,
        }
    }

    /// Whether the member `k` is the value `true`.
    pub open spec fn flag_member(self, k: Seq<char>) -> bool {
        self.member(k) == Some(Json::Bool(true))
    }

    /// The unsigned integer of the member `k`, where there is one.
    pub open spec fn count_member(self, k: Seq<char>) -> Option<u64> {
        match self.member(k) {
            Some(Json::PosInt(n)) => Some(n),
            _ => None,
        }
    }

    /// The value with its member `k` set, where it is an object.
    pub open spec fn with_member(self, k: Seq<char>, v: Json) -> Json {
        match self {
            Json::Object(m) => Json::Object(m.insert(k, v)),
            _ => self,
        }
    }

    /// The value without its member `k`, where it is an object.
    pub open spec fn without_member(self, k: Seq<char>) -> Json {
        match self {
            Json::Object(m) => Json::Object(m.remove(k)),
            _ => self,
        }
    }
}

/// Lists with the same keys have the same first positions.
pub proof fn lemma_same_members<V>(a: Seq<(String, V)>, b: Seq<(String, V)>)
    requires
        a.len() == b.len(),
        forall|j: int| 0 <= j < a.len() ==> (#[trigger] a[j]).0@ == b[j].0@,
    ensures
        forall|k: Seq<char>| #[trigger] key_index(a, k) == key_index(b, k),
        forall|k: Seq<char>| 0 <= #[trigger] key_index(a, k) <= a.len(),
{
    assert forall|k: Seq<char>| #[trigger] key_index(a, k) == key_index(b, k) by {
        lemma_key_index(b, k);
        let i = key_index(b, k);
        assert forall|j: int| 0 <= j < i implies (#[trigger] a[j]).0@ != k by {
            assert(b[j].0@ != k);
        }
        lemma_key_index_is(a, k, i);
    }
    assert forall|k: Seq<char>| 0 <= #[trigger] key_index(a, k) <= a.len() by {
        lemma_key_index(a, k);
    }
}

/// The position of the first member with the key `k`, or the length of the list.
pub(crate) fn find_key<V>(m: &Vec<(String, V)>, k: &str) -> (r: usize)
    ensures
        r == key_index(m@, k@),
{
    let mut i: usize = 0;
    while i < m.len()
        invariant
            i <= m@.len(),
            forall|j: int| 0 <= j < i ==> (#[trigger] m@[j]).0@ != k@,
        decreases m@.len() - i,
    {
        if same_text(m[i].0.as_str(), k) {
            proof {
                lemma_key_index_is(m@, k@, i as int);
            }
            return i;
        }
        i += 1;
    }
    proof {
        lemma_key_index_is(m@, k@, i as int);
    }
    i
}

impl Value {
    /// An object without members.
    pub fn object() -> (r: Value)
        ensures
            r.model() == Json::Object(Map::empty()),
    {
        let r = Value::Object(Vec::new());
        assert(r.model()->Object_0 =~= Map::empty());
        r
    }

    /// Whether the value is an object without members.
    pub fn is_empty_object(&self) -> (r: bool)
        ensures
            r == (self.model() == Json::Object(Map::empty())),
    {
        match self {
            Value::Object(m) => {
                proof {
                    if m@.len() == 0 {
                        assert(self.model()->Object_0 =~= Map::empty());
                    } else {
                        let k = m@[0].0@;
                        assert(has_key(m@, k));
                        assert(self.model()->Object_0.dom().contains(k));
                    }
                }
                m.len() == 0
            },
            _ => false,
        }
    }

    /// A text.
    pub fn text(s: &str) -> (r: Value)
        ensures
            r.model() == Json::Text(s@),
    {
        Value::Text(s.to_owned())
    }

    /// A count.
    pub fn count(n: u64) -> (r: Value)
        ensures
            r.model() == Json::PosInt(n),
    {
        Value::Number(Number::PosInt(n))
    }

    /// The member `k`, where the value is an object that has one.
    pub fn get(&self, k: &str) -> (r: Option<&Value>)
        ensures
            match r {
                Some(v) => self.member(k@) == Some(v.model()),
                None => self.member(k@) is None,
            },
    {
        match self {
            Value::Object(m) => {
                let i = find_key(m, k);
                proof {
                    lemma_key_index(m@, k@);
                }
                if i < m.len() {
                    Some(&m[i].1)
                } else {
                    None
                }
            },
            _ => None,
        }
    }

    /// The text, where the value is one.
    pub fn as_str(&self) -> (r: Option<&str>)
        ensures
            match r {
                Some(t) => self.model().text() == Some(t@),
                None => self.model().text() is None,
            },
    {
        match self {
            Value::Text(s) => Some(s.as_str()),
            _ => None,
        }
    }

    /// The text of the member `k`, where there is one.
    pub fn get_str(&self, k: &str) -> (r: Option<&str>)
        ensures
            match r {
                Some(t) => self.model().text_member(k@) == Some(t@),
                None => self.model().text_member(k@) is None,
            },
    {
        match self.get(k) {
            Some(v) => v.as_str(),
            None => None,
        }
    }

    /// Whether the member `k` is the value `true`.
    pub fn flag(&self, k: &str) -> (r: bool)
        ensures
            r == self.model().flag_member(k@),
    {
        match self.get(k) {
            Some(Value::Bool(b)) => *b,
            _ => false,
        }
    }

    /// The unsigned integer of the member `k`, where there is one.
    pub fn get_u64(&self, k: &str) -> (r: Option<u64>)
        ensures
            r == self.model().count_member(k@),
    {
        match self.get(k) {
            Some(Value::Number(Number::PosInt(n))) => Some(*n),
            _ => None,
        }
    }

    /// Sets the member `k`, where the value is an object.
    pub fn set(&mut self, k: &str, v: Value)
        ensures
            final(self).model() == old(self).model().with_member(k@, v.model()),
    {
        let ghost before = *self;
        if let Value::Object(m) = self {
            set_key(m, k, v);
        }
        proof {
            if before is Object {
                let a = self.model()->Object_0;
                let b = before.model()->Object_0.insert(k@, v.model());
                assert forall|j: Seq<char>| #[trigger] a.dom().contains(j) == b.dom().contains(j) by {
                    assert(has_key(self->Object_0@, j) == a.dom().contains(j));
                }
                assert forall|j: Seq<char>| a.dom().contains(j) implies #[trigger] a[j] == b[j] by {
                    assert(has_key(self->Object_0@, j));
                    assert(a[j] == first_value(self->Object_0@, j).model());
                }
                assert(a =~= b);
            }
        }
    }

    /// Removes the member `k`, where the value is an object.
    pub fn unset(&mut self, k: &str)
        ensures
            final(self).model() == old(self).model().without_member(k@),
    {
        let ghost before = *self;
        if let Value::Object(m) = self {
            unset_key(m, k);
        }
        proof {
            if before is Object {
                let a = self.model()->Object_0;
                let b = before.model()->Object_0.remove(k@);
                assert forall|j: Seq<char>| #[trigger] a.dom().contains(j) == b.dom().contains(j) by {
                    assert(has_key(self->Object_0@, j) == a.dom().contains(j));
                }
                assert forall|j: Seq<char>| a.dom().contains(j) implies #[trigger] a[j] == b[j] by {
                    assert(has_key(self->Object_0@, j));
                    assert(a[j] == first_value(self->Object_0@, j).model());
                }
                assert(a =~= b);
            }
        }
    }
}

/// The member that counts for the key `k`.
pub open spec fn first_value<V>(m: Seq<(String, V)>, k: Seq<char>) -> V {
    m[key_index(m, k)].1
}

/// Every first position is a position of the list or its length.
pub proof fn lemma_key_bounds<V>(m: Seq<(String, V)>)
    ensures
        forall|k: Seq<char>| 0 <= #[trigger] key_index(m, k) <= m.len(),
{
    assert forall|k: Seq<char>| 0 <= #[trigger] key_index(m, k) <= m.len() by {
        lemma_key_index(m, k);
    }
}

/// Sets the member `k` of a member list.
fn set_key(m: &mut Vec<(String, Value)>, k: &str, v: Value)
    ensures
        forall|j: Seq<char>| 0 <= #[trigger] key_index(old(m)@, j) <= old(m)@.len(),
        forall|j: Seq<char>| 0 <= #[trigger] key_index(final(m)@, j) <= final(m)@.len(),
        forall|j: Seq<char>|
            #[trigger] has_key(final(m)@, j) <==> has_key(old(m)@, j) || j == k@,
        first_value(final(m)@, k@) == v,
        forall|j: Seq<char>|
            j != k@ && has_key(old(m)@, j) ==> #[trigger] first_value(final(m)@, j)
                == first_value(old(m)@, j),
{
    let ghost m0 = m@;
    let i = find_key(m, k);
    proof {
        lemma_key_bounds(m@);
        lemma_key_index(m@, k@);
    }
    if i < m.len() {
        m[i] = (k.to_owned(), v);
    } else {
        m.push((k.to_owned(), v));
    }
    proof {
        let m1 = m@;
        lemma_key_bounds(m1);
        assert forall|j: Seq<char>| #[trigger] key_index(m1, j) == (if j == k@ {
            i as int
        } else if has_key(m0, j) {
            key_index(m0, j)
        } else {
            m1.len() as int
        }) by {
            lemma_key_index(m0, j);
            if j == k@ {
                lemma_key_index_is(m1, j, i as int);
            } else if has_key(m0, j) {
                lemma_key_index_is(m1, j, key_index(m0, j));
            } else {
                lemma_key_index_is(m1, j, m1.len() as int);
            }
        }
        assert forall|j: Seq<char>| j != k@ && has_key(m0, j) implies #[trigger] first_value(m1, j)
            == first_value(m0, j) by {
            lemma_key_index(m0, j);
            assert(key_index(m1, j) == key_index(m0, j));
        }
    }
}

/// Taking out a member changes nothing for the other keys.
proof fn lemma_remove_other(m: Seq<(String, Value)>, i: int, j: Seq<char>)
    requires
        0 <= i < m.len(),
        m[i].0@ != j,
    ensures
        has_key(m.remove(i), j) == has_key(m, j),
        has_key(m, j) ==> first_value(m.remove(i), j) == first_value(m, j),
{
    lemma_key_index(m, j);
    let p = key_index(m, j);
    if p < i {
        lemma_key_index_is(m.remove(i), j, p);
    } else {
        lemma_key_index_is(m.remove(i), j, p - 1);
    }
}

/// Removes the member `k` of a member list.
fn unset_key(m: &mut Vec<(String, Value)>, k: &str)
    ensures
        forall|j: Seq<char>| 0 <= #[trigger] key_index(old(m)@, j) <= old(m)@.len(),
        forall|j: Seq<char>| 0 <= #[trigger] key_index(final(m)@, j) <= final(m)@.len(),
        forall|j: Seq<char>|
            #[trigger] has_key(final(m)@, j) <==> has_key(old(m)@, j) && j != k@,
        forall|j: Seq<char>|
            j != k@ && has_key(old(m)@, j) ==> #[trigger] first_value(final(m)@, j)
                == first_value(old(m)@, j),
{
    let ghost m0 = m@;
    let mut i: usize = 0;
    while i < m.len()
        invariant
            i <= m@.len(),
            forall|q: int| 0 <= q < i ==> (#[trigger] m@[q]).0@ != k@,
            forall|j: Seq<char>|
                j != k@ ==> #[trigger] has_key(m@, j) == has_key(m0, j),
            forall|j: Seq<char>|
                j != k@ && has_key(m0, j) ==> #[trigger] first_value(m@, j) == first_value(m0, j),
        decreases m@.len() - i,
    {
        if same_text(m[i].0.as_str(), k) {
            let ghost m1 = m@;
            m.remove(i);
            proof {
                assert forall|j: Seq<char>| j != k@ implies #[trigger] has_key(m@, j) == has_key(
                    m0,
                    j,
                ) by {
                    assert(has_key(m1, j) == has_key(m0, j));
                    lemma_remove_other(m1, i as int, j);
                }
                assert forall|j: Seq<char>| j != k@ && has_key(m0, j) implies #[trigger] first_value(
                    m@,
                    j,
                ) == first_value(m0, j) by {
                    assert(has_key(m1, j) == has_key(m0, j));
                    assert(first_value(m1, j) == first_value(m0, j));
                    lemma_remove_other(m1, i as int, j);
                }
            }
        } else {
            i += 1;
        }
    }
    proof {
        lemma_key_bounds(m0);
        lemma_key_bounds(m@);
        lemma_key_index(m@, k@);
    }
}

impl Value {
    /// Whether two values are equal.
    pub fn same(&self, other: &Value) -> (r: bool)
        ensures
            r == json_same(self.model(), other.model()),
        decreases self,
    {
        match (self, other) {
            (Value::Null, Value::Null) => true,
            (Value::Bool(x), Value::Bool(y)) => *x == *y,
            (Value::Number(Number::PosInt(x)), Value::Number(Number::PosInt(y))) => *x == *y,
            (Value::Number(Number::NegInt(x)), Value::Number(Number::NegInt(y))) => *x == *y,
            (Value::Number(Number::Float(x)), Value::Number(Number::Float(y))) => {
                *x == *y || ((*x == 0 || *x == NEGATIVE_ZERO) && (*y == 0 || *y == NEGATIVE_ZERO))
            },
            (Value::Text(x), Value::Text(y)) => same_text(x.as_str(), y.as_str()),
            (Value::Array(x), Value::Array(y)) => {
                let ghost a = self.model()->Array_0;
                let ghost b = other.model()->Array_0;
                if x.len() != y.len() {
                    return false;
                }
                let mut i: usize = 0;
                while i < x.len()
                    invariant
                        *self == Value::Array(*x),
                        *other == Value::Array(*y),
                        a == self.model()->Array_0,
                        b == other.model()->Array_0,
                        x@.len() == y@.len(),
                        i <= x@.len(),
                        forall|j: int| 0 <= j < i ==> json_same(#[trigger] a[j], b[j]),
                    decreases x@.len() - i,
                {
                    assert(decreases_to!(*self => self->Array_0@[i as int]));
                    assert(a[i as int] == x@[i as int].model());
                    assert(b[i as int] == y@[i as int].model());
                    if !x[i].same(&y[i]) {
                        assert(!json_same(a[i as int], b[i as int]));
                        return false;
                    }
                    i += 1;
                }
                true
            },
            (Value::Object(x), Value::Object(y)) => {
                let ghost a = self.model()->Object_0;
                let ghost b = other.model()->Object_0;
                proof {
                    lemma_key_bounds(x@);
                    lemma_key_bounds(y@);
                }
                let mut i: usize = 0;
                while i < x.len()
                    invariant
                        *self == Value::Object(*x),
                        *other == Value::Object(*y),
                        a == self.model()->Object_0,
                        b == other.model()->Object_0,
                        i <= x@.len(),
                        forall|j: int|
                            0 <= j < i ==> b.dom().contains((#[trigger] x@[j]).0@) && json_same(
                                a[x@[j].0@],
                                b[x@[j].0@],
                            ),
                    decreases x@.len() - i,
                {
                    let k = x[i].0.as_str();
                    let p = find_key(x, k);
                    let q = find_key(y, k);
                    proof {
                        lemma_key_index(x@, k@);
                        lemma_key_index(y@, k@);
                        assert(x@[i as int].0@ == k@);
                        assert(has_key(x@, k@));
                        assert(a.dom().contains(k@));
                        assert(b.dom().contains(k@) == has_key(y@, k@));
                    }
                    if q >= y.len() {
                        return false;
                    }
                    assert(decreases_to!(*self => self->Object_0@[p as int].1));
                    assert(a[k@] == x@[p as int].1.model());
                    assert(b[k@] == y@[q as int].1.model());
                    if !x[p].1.same(&y[q].1) {
                        assert(!json_same(a[k@], b[k@]));
                        return false;
                    }
                    i += 1;
                }
                i = 0;
                while i < y.len()
                    invariant
                        *self == Value::Object(*x),
                        *other == Value::Object(*y),
                        a == self.model()->Object_0,
                        b == other.model()->Object_0,
                        i <= y@.len(),
                        forall|j: int| 0 <= j < i ==> a.dom().contains((#[trigger] y@[j]).0@),
                    decreases y@.len() - i,
                {
                    let k = y[i].0.as_str();
                    let p = find_key(x, k);
                    proof {
                        lemma_key_index(x@, k@);
                        lemma_key_index(y@, k@);
                        assert(y@[i as int].0@ == k@);
                        assert(b.dom().contains(k@));
                        assert(a.dom().contains(k@) == has_key(x@, k@));
                    }
                    if p >= x.len() {
                        return false;
                    }
                    i += 1;
                }
                proof {
                    assert forall|k: Seq<char>| #[trigger] a.dom().contains(k) <==> b.dom().contains(
                        k,
                    ) by {
                        lemma_key_index(x@, k);
                        lemma_key_index(y@, k);
                        if a.dom().contains(k) {
                            assert(x@[key_index(x@, k)].0@ == k);
                        }
                        if b.dom().contains(k) {
                            assert(y@[key_index(y@, k)].0@ == k);
                        }
                    }
                    assert forall|k: Seq<char>| #[trigger] a.dom().contains(k) implies json_same(
                        a[k],
                        b[k],
                    ) by {
                        lemma_key_index(x@, k);
                        assert(x@[key_index(x@, k)].0@ == k);
                    }
                }
                true
            },
            _ => false,
        }
    }
}

impl Clone for Value {
    fn clone(&self) -> (r: Value)
        ensures
            r.model() == self.model(),
            r.layout() == self.layout(),
    {
        self.copy()
    }
}

impl PartialEq for Value {
    fn eq(&self, other: &Value) -> (r: bool) {
        self.same(other)
    }
}

impl vstd::std_specs::cmp::PartialEqSpecImpl for Value {
    open spec fn obeys_eq_spec() -> bool {
        true
    }

    open spec fn eq_spec(&self, other: &Value) -> bool {
        json_same(self.model(), other.model())
    }
}

/// A member list is changed for one key only by a new member with that key.
pub proof fn lemma_insert_member<V>(m: Seq<(String, V)>, p: int, e: (String, V), j: Seq<char>)
    requires
        0 <= p <= m.len(),
        !has_key(m, e.0@),
    ensures
        has_key(m.insert(p, e), j) <==> has_key(m, j) || j == e.0@,
        j == e.0@ ==> first_value(m.insert(p, e), j) == e.1,
        j != e.0@ && has_key(m, j) ==> first_value(m.insert(p, e), j) == first_value(m, j),
{
    let n = m.insert(p, e);
    lemma_key_index(m, j);
    lemma_key_index(m, e.0@);
    if j == e.0@ {
        assert forall|q: int| 0 <= q < p implies (#[trigger] n[q]).0@ != j by {
            assert(m[q].0@ != j);
        }
        lemma_key_index_is(n, j, p);
    } else {
        let i = key_index(m, j);
        if i < p {
            lemma_key_index_is(n, j, i);
        } else {
            assert forall|q: int| 0 <= q < i + 1 implies (#[trigger] n[q]).0@ != j by {
                if q < p {
                    assert(m[q].0@ != j);
                } else if q > p {
                    assert(n[q] == m[q - 1]);
                }
            }
            lemma_key_index_is(n, j, i + 1);
        }
    }
}

/// The member of an object is the value of its first entry with the key, and there is none
/// where no entry has it.
pub proof fn first_entries_are_the_members(v: &Value, k: &str, r: Option<&Value>, i: int)
    requires
        call_ensures(Value::get, (v, k), r),
        v matches Value::Object(m) && 0 <= i <= m@.len() && (i < m@.len() ==> m@[i].0@ == k@) && (
        forall|j: int| 0 <= j < i ==> (#[trigger] m@[j]).0@ != k@),
    ensures
        v matches Value::Object(m) ==> (i < m@.len() ==> (r matches Some(x) && x.model()
            == m@[i].1.model())) && (i == m@.len() ==> r is None),
{
    let m = v->Object_0;
    lemma_key_index_is(m@, k@, i);
    if i < m@.len() {
        assert(has_key(m@, k@));
    }
}

/// What is set can be read back, and no other member changes; what is unset is gone, and no
/// other member goes. Only objects have members.
pub proof fn members_are_read_back(a: Json, k: Seq<char>, v: Json, j: Seq<char>)
    ensures
        a is Object ==> a.with_member(k, v).member(k) == Some(v),
        j != k ==> a.with_member(k, v).member(j) == a.member(j),
        a.without_member(k).member(k) is None,
        j != k ==> a.without_member(k).member(j) == a.member(j),
        !(a is Object) ==> a.member(k) is None && a.with_member(k, v) == a,
{
}

/// The text, the flag and the count of a member are what a look at the member shows.
pub proof fn looks_at_members_agree(
    v: &Value,
    k: &str,
    g: Option<&Value>,
    t: Option<&str>,
    f: bool,
    n: Option<u64>,
)
    requires
        call_ensures(Value::get, (v, k), g),
        call_ensures(Value::get_str, (v, k), t),
        call_ensures(Value::flag, (v, k), f),
        call_ensures(Value::get_u64, (v, k), n),
    ensures
        g is None ==> t is None && !f && n is None,
        g matches Some(x) ==> (x.model() matches Json::Text(s) ==> (t matches Some(y) && y@ == s)
            && !f && n is None),
        g matches Some(x) ==> (f <==> x.model() == Json::Bool(true)),
        g matches Some(x) ==> (x.model() matches Json::PosInt(c) ==> n == Some(c) && t is None),
        g matches Some(x) ==> (!(x.model() is Text) ==> t is None) && (!(x.model() is PosInt)
            ==> n is None),
{
}

/// Equality of values goes both ways.
pub proof fn equality_goes_both_ways(a: Json, b: Json)
    ensures
        json_same(a, b) ==> json_same(b, a),
    decreases a,
{
    if json_same(a, b) {
        match (a, b) {
            (Json::Array(x), Json::Array(y)) => {
                assert forall|i: int| 0 <= i < y.len() implies json_same(#[trigger] y[i], x[i]) by {
                    assert(json_same(x[i], y[i]));
                    equality_goes_both_ways(x[i], y[i]);
                }
            },
            (Json::Object(x), Json::Object(y)) => {
                assert forall|k: Seq<char>| #[trigger] y.dom().contains(k) implies json_same(
                    y[k],
                    x[k],
                ) by {
                    assert(x.dom().contains(k));
                    assert(json_same(x[k], y[k]));
                    equality_goes_both_ways(x[k], y[k]);
                }
            },
            _ => {},
        }
    }
}

/// Values of different kinds are never equal, and texts, flags and counts only where they
/// are the same.
pub proof fn only_like_values_are_equal(a: Json, b: Json)
    requires
        json_same(a, b),
    ensures
        a is Text <==> b is Text,
        a is Bool <==> b is Bool,
        a is PosInt <==> b is PosInt,
        a is NegInt <==> b is NegInt,
        a is Float <==> b is Float,
        a is Array <==> b is Array,
        a is Object <==> b is Object,
        a is Text || a is Bool || a is PosInt || a is NegInt ==> a == b,
        a matches Json::Array(x) ==> (b matches Json::Array(y) && x.len() == y.len()),
        a is Object ==> forall|k: Seq<char>|
            a.member(k) is Some <==> #[trigger] b.member(k) is Some,
{
}

} // verus!
