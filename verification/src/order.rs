//! Stable sorting of the library's own types, and the order of numbers that are held by
//! their bits.

use crate::importance::INFINITY_BITS;
use crate::json::NEGATIVE_ZERO;
use crate::text::{lemma_text_order, text_before, text_less};
use vstd::prelude::*;

verus! {

/// A type whose values are sorted. `before` is a strict weak order: values with
/// neither before the other rank alike.
pub trait Ranked: Sized {
    /// Whether this value comes before `other`.
    spec fn before(self, other: Self) -> bool;

    /// `before` is a strict weak order.
    proof fn lemma_ranked(a: Self, b: Self, c: Self)
        ensures
            !a.before(a),
            a.before(b) ==> !b.before(a),
            a.before(c) ==> a.before(b) || b.before(c),
    ;

    /// Whether this value comes before `other`.
    fn comes_before(&self, other: &Self) -> (r: bool)
        ensures
            r == self.before(*other),
    ;
}

/// The position of the first item of `s` that `x` comes before, or the length.
pub open spec fn rank_position<T: Ranked>(s: Seq<T>, x: T) -> int
    decreases s.len(),
{
    if s.len() == 0 || x.before(s[0]) {
        0
    } else {
        1 + rank_position(s.drop_first(), x)
    }
}

/// The items of `s` sorted, items of one rank in the order that they had.
pub open spec fn ranked<T: Ranked>(s: Seq<T>) -> Seq<T>
    decreases s.len(),
{
    if s.len() == 0 {
        Seq::empty()
    } else {
        let before = ranked(s.drop_last());
        before.insert(rank_position(before, s.last()), s.last())
    }
}

/// Where an item goes.
pub proof fn lemma_rank_position<T: Ranked>(s: Seq<T>, x: T)
    ensures
        0 <= rank_position(s, x) <= s.len(),
        rank_position(s, x) < s.len() ==> x.before(s[rank_position(s, x)]),
        forall|i: int| 0 <= i < rank_position(s, x) ==> !x.before(#[trigger] s[i]),
    decreases s.len(),
{
    if s.len() > 0 && !x.before(s[0]) {
        lemma_rank_position(s.drop_first(), x);
        assert forall|i: int| 0 <= i < rank_position(s, x) implies !x.before(#[trigger] s[i]) by {
            if i > 0 {
                assert(s.drop_first()[i - 1] == s[i]);
            }
        }
    }
}

/// Whether the items are in order.
pub open spec fn in_order<T: Ranked>(s: Seq<T>) -> bool {
    forall|i: int, j: int| 0 <= i < j < s.len() ==> !(#[trigger] s[j]).before(#[trigger] s[i])
}

/// Sorting puts the items in order and neither adds nor drops any.
pub proof fn sorting_orders_the_items<T: Ranked>(s: Seq<T>)
    ensures
        in_order(ranked(s)),
        ranked(s).to_multiset() == s.to_multiset(),
        ranked(s).len() == s.len(),
    decreases s.len(),
{
    if s.len() > 0 {
        let t = ranked(s.drop_last());
        let x = s.last();
        let p = rank_position(t, x);
        let r = ranked(s);
        sorting_orders_the_items(s.drop_last());
        lemma_rank_position(t, x);
        assert forall|i: int, j: int| 0 <= i < j < r.len() implies !(#[trigger] r[j]).before(
            #[trigger] r[i],
        ) by {
            if j < p {
                assert(r[i] == t[i] && r[j] == t[j]);
            } else if j == p {
                assert(r[i] == t[i]);
            } else if i < p {
                assert(r[i] == t[i] && r[j] == t[j - 1]);
            } else if i == p {
                assert(r[j] == t[j - 1]);
                T::lemma_ranked(t[j - 1], t[p], x);
                T::lemma_ranked(x, t[p], t[j - 1]);
                T::lemma_ranked(t[j - 1], x, t[p]);
            } else {
                assert(r[i] == t[i - 1] && r[j] == t[j - 1]);
            }
        }
        assert(s =~= s.drop_last().push(x));
        vstd::seq_lib::to_multiset_build(s.drop_last(), x);
        vstd::seq_lib::to_multiset_remove(r, p);
        assert(r.remove(p) =~= t);
        assert(r.contains(x)) by {
            assert(r[p] == x);
        }
        r.to_multiset_ensures();
        assert(r.to_multiset() =~= t.to_multiset().insert(x));
    } else {
        assert(ranked(s) =~= s);
    }
}

/// Whether any two items at different places are ordered one way or the other.
pub open spec fn all_differ<T: Ranked>(s: Seq<T>) -> bool {
    forall|i: int, j: int|
        0 <= i < s.len() && 0 <= j < s.len() && i != j ==> (#[trigger] s[i]).before(
            #[trigger] s[j],
        ) || s[j].before(s[i])
}

/// Two sequences in order with the same items, no two of one rank, are the same.
proof fn lemma_in_order_unique<T: Ranked>(a: Seq<T>, b: Seq<T>)
    requires
        in_order(a),
        in_order(b),
        all_differ(a),
        a.to_multiset() == b.to_multiset(),
    ensures
        a == b,
    decreases a.len(),
{
    a.to_multiset_ensures();
    b.to_multiset_ensures();
    if a.len() == 0 {
        assert(a =~= b);
    } else {
        let n = a.len() - 1;
        let x = a[n];
        let y = b[n];
        assert(b.contains(x)) by {
            assert(a.contains(x));
            assert(a.to_multiset().count(x) > 0);
            assert(b.to_multiset().count(x) > 0);
        }
        assert(a.contains(y)) by {
            assert(b.contains(y));
            assert(b.to_multiset().count(y) > 0);
            assert(a.to_multiset().count(y) > 0);
        }
        let i = choose|i: int| 0 <= i < b.len() && b[i] == x;
        let j = choose|j: int| 0 <= j < a.len() && a[j] == y;
        if j != n {
            assert(a[j].before(a[n]) || a[n].before(a[j]));
            assert(!a[n].before(a[j]));
            if i != n {
                assert(!b[n].before(b[i]));
            } else {
                T::lemma_ranked(x, y, x);
            }
        }
        assert(x == y);
        let c = a.drop_last();
        let d = b.drop_last();
        vstd::seq_lib::to_multiset_remove(a, n);
        vstd::seq_lib::to_multiset_remove(b, n);
        assert(a.remove(n) =~= c);
        assert(b.remove(n) =~= d);
        assert forall|p: int, q: int| 0 <= p < q < c.len() implies !(#[trigger] c[q]).before(
            #[trigger] c[p],
        ) by {
            assert(c[p] == a[p] && c[q] == a[q]);
        }
        assert forall|p: int, q: int| 0 <= p < q < d.len() implies !(#[trigger] d[q]).before(
            #[trigger] d[p],
        ) by {
            assert(d[p] == b[p] && d[q] == b[q]);
        }
        assert forall|p: int, q: int|
            0 <= p < c.len() && 0 <= q < c.len() && p != q implies (#[trigger] c[p]).before(
            #[trigger] c[q],
        ) || c[q].before(c[p]) by {
            assert(c[p] == a[p] && c[q] == a[q]);
        }
        lemma_in_order_unique(c, d);
        assert(a =~= c.push(x));
        assert(b =~= d.push(y));
    }
}

/// Sorting does not depend on the order that the items come in, where no two of
/// them have one rank.
pub proof fn sorting_forgets_the_order<T: Ranked>(a: Seq<T>, b: Seq<T>)
    requires
        a.to_multiset() == b.to_multiset(),
        all_differ(ranked(a)),
    ensures
        ranked(a) == ranked(b),
{
    sorting_orders_the_items(a);
    sorting_orders_the_items(b);
    lemma_in_order_unique(ranked(a), ranked(b));
}

/// Sorting keeps exactly the items.
pub proof fn lemma_ranked_contains<T: Ranked>(s: Seq<T>, x: T)
    ensures
        ranked(s).contains(x) == s.contains(x),
{
    sorting_orders_the_items(s);
    s.to_multiset_ensures();
    ranked(s).to_multiset_ensures();
    assert(s.contains(x) <==> s.to_multiset().count(x) > 0);
    assert(ranked(s).contains(x) <==> ranked(s).to_multiset().count(x) > 0);
}

/// Sorts items; items of one rank keep their order.
pub fn sort_ranked<T: Ranked>(items: Vec<T>) -> (r: Vec<T>)
    ensures
        r@ == ranked(items@),
{
    let mut rest = items;
    let ghost all = rest@;
    let mut out: Vec<T> = Vec::new();
    let n = rest.len();
    let mut i: usize = 0;
    let mut queue: Vec<T> = Vec::new();
    while rest.len() > 0
        invariant
            rest@ == all.take(rest@.len() as int),
            rest@.len() + queue@.len() == all.len(),
            forall|j: int| 0 <= j < queue@.len() ==> #[trigger] queue@[j] == all[all.len() - 1 - j],
        decreases rest@.len(),
    {
        let ghost k = rest@.len() - 1;
        match rest.pop() {
            Some(x) => {
                assert(rest@ =~= all.take(k));
                queue.push(x);
            },
            None => {},
        }
    }
    while queue.len() > 0
        invariant
            i + queue@.len() == all.len(),
            n == all.len(),
            forall|j: int| 0 <= j < queue@.len() ==> #[trigger] queue@[j] == all[all.len() - 1 - j],
            out@ == ranked(all.take(i as int)),
        decreases queue@.len(),
    {
        match queue.pop() {
            Some(x) => {
                assert(x == all[i as int]);
                let mut p: usize = 0;
                assert(out@.skip(0) =~= out@);
                while p < out.len() && !x.comes_before(&out[p])
                    invariant
                        p <= out@.len(),
                        rank_position(out@, x) == p + rank_position(out@.skip(p as int), x),
                    decreases out@.len() - p,
                {
                    assert(out@.skip(p as int).drop_first() =~= out@.skip(p + 1));
                    p += 1;
                }
                out.insert(p, x);
                assert(all.take(i + 1).drop_last() =~= all.take(i as int));
                i += 1;
            },
            None => {},
        }
    }
    assert(all.take(i as int) =~= all);
    out
}

impl Ranked for String {
    open spec fn before(self, other: String) -> bool {
        text_less(self@, other@)
    }

    proof fn lemma_ranked(a: String, b: String, c: String) {
        lemma_text_order(a@, b@, c@);
        lemma_text_order(b@, c@, a@);
        lemma_text_order(a@, c@, b@);
        lemma_text_order(c@, b@, a@);
    }

    fn comes_before(&self, other: &String) -> (r: bool) {
        text_before(self.as_str(), other.as_str())
    }
}

/// The bits of negative infinity.
pub const NEGATIVE_INFINITY_BITS: u64 = 0xfff0_0000_0000_0000;

/// Whether bits stand for a number.
pub open spec fn is_number(bits: u64) -> bool {
    bits <= INFINITY_BITS || NEGATIVE_ZERO <= bits <= NEGATIVE_INFINITY_BITS
}

/// Where the number that bits stand for is among all of them. Both zeros are at 0.
pub open spec fn number_rank(bits: u64) -> int {
    if bits < NEGATIVE_ZERO {
        bits as int
    } else {
        NEGATIVE_ZERO - bits
    }
}

/// Whether the number that bits stand for is below that of others. What is no
/// number is not below anything, and nothing is below it.
pub open spec fn is_number_below(a: u64, b: u64) -> bool {
    is_number(a) && is_number(b) && number_rank(a) < number_rank(b)
}

/// Whether the number that bits stand for is below that of others.
pub fn number_below(a: u64, b: u64) -> (r: bool)
    ensures
        r == is_number_below(a, b),
{
    if INFINITY_BITS < a && a < NEGATIVE_ZERO || NEGATIVE_INFINITY_BITS < a {
        return false;
    }
    if INFINITY_BITS < b && b < NEGATIVE_ZERO || NEGATIVE_INFINITY_BITS < b {
        return false;
    }
    if a < NEGATIVE_ZERO {
        b < NEGATIVE_ZERO && a < b
    } else if b < NEGATIVE_ZERO {
        NEGATIVE_ZERO < a || 0 < b
    } else {
        b < a
    }
}

/// Where bits are among all bits, as IEEE numbers are ordered: -0.0 is just before 0,
/// and what is no number is outside all that are.
pub open spec fn number_place(bits: u64) -> int {
    if bits < NEGATIVE_ZERO {
        bits as int
    } else {
        NEGATIVE_ZERO - 1 - bits
    }
}

/// A number that is below another comes before it.
pub proof fn lower_numbers_come_first(a: u64, b: u64)
    requires
        is_number_below(a, b),
    ensures
        number_place(a) < number_place(b),
{
}

/// The bits of IEEE numbers, in the order of the numbers.
impl Ranked for u64 {
    open spec fn before(self, other: u64) -> bool {
        number_place(self) < number_place(other)
    }

    proof fn lemma_ranked(a: u64, b: u64, c: u64) {
    }

    fn comes_before(&self, other: &u64) -> (r: bool) {
        if *self < NEGATIVE_ZERO {
            *other < NEGATIVE_ZERO && *self < *other
        } else {
            *other < NEGATIVE_ZERO || *other < *self
        }
    }
}

/// Numbers that are not negative are ordered as their bits are, and negative ones the other
/// way round; every negative number is below every other. What is no number is below none.
pub proof fn bits_are_ordered_as_numbers(a: u64, b: u64, r: bool)
    requires
        call_ensures(number_below, (a, b), r),
    ensures
        a <= 0x7ff0_0000_0000_0000 && b <= 0x7ff0_0000_0000_0000 ==> (r <==> a < b),
        0x8000_0000_0000_0000 < a <= 0xfff0_0000_0000_0000 && b <= 0x7ff0_0000_0000_0000 ==> r,
        a <= 0x7ff0_0000_0000_0000 && 0x8000_0000_0000_0000 <= b ==> !r,
        0x8000_0000_0000_0000 <= a <= 0xfff0_0000_0000_0000 && 0x8000_0000_0000_0000 <= b
            <= 0xfff0_0000_0000_0000 ==> (r <==> a > b),
        0x7ff0_0000_0000_0000 < a < 0x8000_0000_0000_0000 || a > 0xfff0_0000_0000_0000 ==> !r,
        a == b ==> !r,
{
}

} // verus!
