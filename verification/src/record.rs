//! Records, as they are stored and handed to engines.

use crate::error::{AxilError, Result};
use crate::json::{Json, Value};
use crate::text::{bytes_less, same_text, text_less};
use crate::time::Timestamp;
use vstd::hash_set::StringHashSet;
use vstd::prelude::*;
use vstd::string::StringExecFns;
use vstd::utf8::{encode_utf8, is_ascii_chars_encode_utf8};

verus! {

/// Whether a character is a digit of ULIDs: a decimal one, or a letter other than
/// I, L, O and U.
pub open spec fn ulid_digit(c: char) -> bool {
    ||| '0' <= c <= '9'
    ||| 'A' <= c <= 'Z' && c != 'I' && c != 'L' && c != 'O' && c != 'U'
    ||| 'a' <= c <= 'z' && c != 'i' && c != 'l' && c != 'o' && c != 'u'
}

/// Whether a text is a ULID in its text form: 26 digits.
pub open spec fn is_ulid(s: Seq<char>) -> bool {
    s.len() == 26 && forall|i: int| 0 <= i < 26 ==> ulid_digit(#[trigger] s[i])
}

/// A number in base 32, with the given number of digits.
pub open spec fn base32(n: nat, digits: nat) -> Seq<char>
    decreases digits,
{
    if digits == 0 {
        Seq::empty()
    } else {
        base32(n / 32, (digits - 1) as nat).push(
            "0123456789ABCDEFGHJKMNPQRSTVWXYZ"@[(n % 32) as int],
        )
    }
}

/// A ULID in its text form.
pub open spec fn ulid_text(n: u128) -> Seq<char> {
    base32(n as nat, 26)
}

/// `ulid::Ulid::from_string`: it accepts the texts of 26 digits in base 32.
#[verifier::external_body]
fn ulid_from_string(s: &str) -> (r: bool)
    ensures
        r == is_ulid(s@),
{
    ulid::Ulid::from_string(s).is_ok()
}

/// `ulid::Ulid::new`: a number that depends on the clock and on chance.
#[verifier::external_body]
pub(crate) fn ulid_fresh() -> u128 {
    ulid::Ulid::new().0
}

/// `ulid::Ulid::to_string`: the text form.
#[verifier::external_body]
pub(crate) fn ulid_to_string(n: u128) -> (r: String)
    ensures
        r@ == ulid_text(n),
{
    ulid::Ulid(n).to_string()
}

/// The digits of a number in base 32 are digits of ULIDs.
proof fn lemma_base32(n: nat, digits: nat)
    ensures
        base32(n, digits).len() == digits,
        forall|i: int| 0 <= i < digits ==> ulid_digit(#[trigger] base32(n, digits)[i]),
    decreases digits,
{
    if digits > 0 {
        lemma_base32(n / 32, (digits - 1) as nat);
        reveal_strlit("0123456789ABCDEFGHJKMNPQRSTVWXYZ");
        let c = "0123456789ABCDEFGHJKMNPQRSTVWXYZ"@[(n % 32) as int];
        assert(ulid_digit(c));
        assert forall|i: int| 0 <= i < digits implies ulid_digit(
            #[trigger] base32(n, digits)[i],
        ) by {
            if i < digits - 1 {
                assert(base32(n, digits)[i] == base32(n / 32, (digits - 1) as nat)[i]);
            }
        }
    }
}

/// The text form of a ULID is one that is accepted.
pub proof fn ulids_are_accepted(n: u128)
    ensures
        is_ulid(ulid_text(n)),
{
    lemma_base32(n as nat, 26);
}

/// How many numbers there are with the given number of digits in base 32.
spec fn span32(digits: nat) -> nat
    decreases digits,
{
    if digits == 0 {
        1
    } else {
        32 * span32((digits - 1) as nat)
    }
}

/// Where the digits of two numbers differ first, the smaller number has the smaller
/// digit.
proof fn lemma_base32_order(m: nat, n: nat, digits: nat) -> (at: int)
    requires
        m < n < span32(digits),
    ensures
        0 <= at < digits,
        base32(m, digits)[at] < base32(n, digits)[at],
        forall|i: int| 0 <= i < at ==> base32(m, digits)[i] == base32(n, digits)[i],
    decreases digits,
{
    lemma_base32(m, digits);
    lemma_base32(n, digits);
    let fewer = (digits - 1) as nat;
    lemma_base32(m / 32, fewer);
    lemma_base32(n / 32, fewer);
    if m / 32 < n / 32 {
        let at = lemma_base32_order(m / 32, n / 32, fewer);
        assert forall|i: int| 0 <= i < at implies base32(m, digits)[i] == base32(n, digits)[i] by {
            assert(base32(m / 32, fewer)[i] == base32(n / 32, fewer)[i]);
        }
        at
    } else {
        reveal_strlit("0123456789ABCDEFGHJKMNPQRSTVWXYZ");
        assert(m % 32 < n % 32);
        fewer as int
    }
}

/// The order of bytes is decided where they differ first.
proof fn lemma_first_difference(a: Seq<u8>, b: Seq<u8>, at: int)
    requires
        0 <= at < a.len(),
        at < b.len(),
        a[at] < b[at],
        forall|i: int| 0 <= i < at ==> a[i] == b[i],
    ensures
        bytes_less(a, b),
    decreases at,
{
    if at > 0 {
        assert forall|i: int| 0 <= i < at - 1 implies a.drop_first()[i] == b.drop_first()[i] by {
            assert(a[i + 1] == b[i + 1]);
        }
        lemma_first_difference(a.drop_first(), b.drop_first(), at - 1);
    }
}

/// The text forms of ULIDs are ordered as the numbers are.
pub proof fn ulids_sort_as_numbers(m: u128, n: u128)
    requires
        m < n,
    ensures
        text_less(ulid_text(m), ulid_text(n)),
{
    reveal_with_fuel(span32, 27);
    let at = lemma_base32_order(m as nat, n as nat, 26);
    let (a, b) = (ulid_text(m), ulid_text(n));
    lemma_base32(m as nat, 26);
    lemma_base32(n as nat, 26);
    is_ascii_chars_encode_utf8(a);
    is_ascii_chars_encode_utf8(b);
    assert forall|i: int| 0 <= i < at implies encode_utf8(a)[i] == encode_utf8(b)[i] by {
        assert(a[i] == b[i]);
    }
    assert(ulid_digit(a[at]) && ulid_digit(b[at]));
    lemma_first_difference(encode_utf8(a), encode_utf8(b), at);
}

/// The id of a record or an edge.
#[derive(Clone, Debug)]
pub struct RecordId(pub String);

impl RecordId {
    /// A fresh id.
    pub fn new() -> (r: RecordId)
        ensures
            exists|n: u128| r@ == #[trigger] ulid_text(n),
            is_ulid(r@),
    {
        let n = ulid_fresh();
        proof {
            ulids_are_accepted(n);
        }
        RecordId(ulid_to_string(n))
    }

    /// The id with the given text, which must be a ULID.
    pub fn from_string(s: &str) -> (r: Result<RecordId>)
        ensures
            match r {
                Ok(id) => is_ulid(s@) && id@ == s@,
                Err(e) => !is_ulid(s@) && e is InvalidQuery && e->InvalidQuery_0@
                    == "invalid record id: "@ + s@,
            },
    {
        if ulid_from_string(s) {
            Ok(RecordId(s.to_owned()))
        } else {
            let mut m = String::new();
            m.append("invalid record id: ");
            m.append(s);
            assert(m@ =~= "invalid record id: "@ + s@);
            Err(AxilError::InvalidQuery(m))
        }
    }

    /// The text of the id.
    pub fn as_str(&self) -> (r: &str)
        ensures
            r@ == self@,
    {
        self.0.as_str()
    }

    /// Whether two ids are the same.
    pub fn same(&self, other: &RecordId) -> (r: bool)
        ensures
            r == (self@ == other@),
    {
        same_text(self.0.as_str(), other.0.as_str())
    }

    /// A copy of the id.
    pub fn copy(&self) -> (r: RecordId)
        ensures
            r@ == self@,
    {
        RecordId(self.0.clone())
    }
}

impl View for RecordId {
    type V = Seq<char>;

    open spec fn view(&self) -> Seq<char> {
        self.0@
    }
}

impl PartialEq for RecordId {
    fn eq(&self, other: &RecordId) -> (r: bool) {
        self.same(other)
    }
}

impl vstd::std_specs::cmp::PartialEqSpecImpl for RecordId {
    open spec fn obeys_eq_spec() -> bool {
        true
    }

    open spec fn eq_spec(&self, other: &RecordId) -> bool {
        self@ == other@
    }
}

/// A record of a table.
#[derive(Debug)]
pub struct Record {
    pub id: RecordId,
    pub table: String,
    pub data: Value,
    pub created_at: Timestamp,
    pub updated_at: Timestamp,
    pub metadata: Option<Value>,
}

/// What a record means.
#[verifier::ext_equal]
pub struct RecordView {
    pub id: Seq<char>,
    pub table: Seq<char>,
    pub data: Json,
    pub created_at: Timestamp,
    pub updated_at: Timestamp,
    pub metadata: Option<Json>,
}

impl View for Record {
    type V = RecordView;

    open spec fn view(&self) -> RecordView {
        RecordView {
            id: self.id@,
            table: self.table@,
            data: self.data.model(),
            created_at: self.created_at,
            updated_at: self.updated_at,
            metadata: match self.metadata {
                Some(m) => Some(m.model()),
                None => None,
            },
        }
    }
}

impl Record {
    /// A record of a table, made now, with a fresh id.
    pub fn new(table: &str, data: Value, now: Timestamp) -> (r: Record)
        ensures
            is_ulid(r.id@),
            r@ == (RecordView {
                id: r.id@,
                table: table@,
                data: data.model(),
                created_at: now,
                updated_at: now,
                metadata: None,
            }),
    {
        Record {
            id: RecordId::new(),
            table: table.to_owned(),
            data,
            created_at: now,
            updated_at: now,
            metadata: None,
        }
    }

    /// A copy of the record.
    pub fn copy(&self) -> (r: Record)
        ensures
            r@ == self@,
    {
        Record {
            id: self.id.copy(),
            table: self.table.clone(),
            data: self.data.copy(),
            created_at: self.created_at,
            updated_at: self.updated_at,
            metadata: match &self.metadata {
                Some(m) => Some(m.copy()),
                None => None,
            },
        }
    }

    /// Whether the record belongs to the database itself: its table starts with `_`.
    pub fn is_internal(&self) -> (r: bool)
        ensures
            r == internal_table(self.table@),
    {
        is_internal_table(self.table.as_str())
    }
}

/// Whether a table belongs to the database itself: its name starts with `_`.
pub open spec fn internal_table(table: Seq<char>) -> bool {
    table.len() > 0 && table[0] == '_'
}

/// Whether a table belongs to the database itself: its name starts with `_`.
pub fn is_internal_table(table: &str) -> (r: bool)
    ensures
        r == internal_table(table@),
{
    let v = crate::text::chars_of(table);
    v.len() > 0 && v[0] == '_'
}

/// The ids of a list, in the model.
pub open spec fn ids_view(ids: Seq<RecordId>) -> Seq<Seq<char>> {
    ids.map_values(|id: RecordId| id@)
}

/// The ids of a list, as a set.
pub fn id_set(ids: &Vec<RecordId>) -> (r: StringHashSet)
    ensures
        forall|k: Seq<char>| #[trigger] r@.contains(k) <==> ids_view(ids@).contains(k),
{
    let mut set = StringHashSet::new();
    let mut i: usize = 0;
    let ghost all = ids_view(ids@);
    while i < ids.len()
        invariant
            i <= ids@.len(),
            all == ids_view(ids@),
            forall|k: Seq<char>| #[trigger] set@.contains(k) <==> all.take(i as int).contains(k),
        decreases ids@.len() - i,
    {
        let ghost before = set@;
        set.insert(ids[i].0.clone());
        proof {
            let prev = all.take(i as int);
            let next = all.take(i + 1);
            assert(next =~= prev.push(all[i as int]));
            assert forall|k: Seq<char>| #[trigger] set@.contains(k) <==> next.contains(k) by {
                if prev.contains(k) {
                    let j = choose|j: int| 0 <= j < prev.len() && prev[j] == k;
                    assert(next[j] == k);
                }
                if k == all[i as int] {
                    assert(next[i as int] == k);
                }
                if next.contains(k) && k != all[i as int] {
                    let j = choose|j: int| 0 <= j < next.len() && next[j] == k;
                    assert(prev[j] == k);
                }
            }
        }
        i += 1;
    }
    assert(all.take(i as int) =~= all);
    set
}

} // verus!
