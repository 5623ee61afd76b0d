//! Ratios of counts, compared as 64-bit IEEE numbers compare, in integers.

use vstd::prelude::*;

verus! {

/// The distance of neighbouring 64-bit IEEE numbers at a count.
pub open spec fn spacing(n: u64) -> nat {
    if n < 0x20000000000000 {
        1nat
    } else if n < 0x40000000000000 {
        2nat
    } else if n < 0x80000000000000 {
        4nat
    } else if n < 0x100000000000000 {
        8nat
    } else if n < 0x200000000000000 {
        16nat
    } else if n < 0x400000000000000 {
        32nat
    } else if n < 0x800000000000000 {
        64nat
    } else if n < 0x1000000000000000 {
        128nat
    } else if n < 0x2000000000000000 {
        256nat
    } else if n < 0x4000000000000000 {
        512nat
    } else if n < 0x8000000000000000 {
        1024nat
    } else {
        2048nat
    }
}

/// `n` rounded to a multiple of `unit`, halves to the even multiple.
pub open spec fn round_even(n: nat, unit: nat) -> nat {
    let q = n / unit;
    let r = n % unit;
    if 2 * r > unit || (2 * r == unit && q % 2 == 1) {
        (q + 1) * unit
    } else {
        q * unit
    }
}

/// The 64-bit IEEE number nearest to a count, which is a whole number.
pub open spec fn nearest(n: u64) -> nat {
    round_even(n as nat, spacing(n))
}

/// `x` rounded to a multiple of `unit`, halves to the even multiple.
pub fn round_half_even(x: u128, unit: u128) -> (r: u128)
    requires
        0 < unit,
        x + unit <= u128::MAX,
        2 * unit <= u128::MAX,
    ensures
        r == round_even(x as nat, unit as nat),
        r <= x + unit,
        r % unit == 0,
{
    let q = x / unit;
    let r = x % unit;
    assert(q * unit <= x && q * unit + r == x) by (nonlinear_arith)
        requires
            q == x / unit,
            r == x % unit,
            unit > 0,
    ;
    assert((q + 1) * unit == q * unit + unit) by (nonlinear_arith);
    assert((q * unit) % (unit as int) == 0 && ((q + 1) * unit) % (unit as int) == 0) by (
        nonlinear_arith)
        requires
            unit > 0,
    ;
    assert(q + 1 <= (q + 1) * unit) by (nonlinear_arith)
        requires
            unit > 0,
            q >= 0,
    ;
    if 2 * r > unit || (2 * r == unit && q % 2 == 1) {
        (q + 1) * unit
    } else {
        q * unit
    }
}

/// The 64-bit IEEE number nearest to a count.
pub fn nearest_double(n: u64) -> (r: u128)
    ensures
        r == nearest(n),
        r <= 0x1_0000_0000_0000_0800,
{
    let unit: u128 = if n < 0x20000000000000 {
        1u128
    } else if n < 0x40000000000000 {
        2u128
    } else if n < 0x80000000000000 {
        4u128
    } else if n < 0x100000000000000 {
        8u128
    } else if n < 0x200000000000000 {
        16u128
    } else if n < 0x400000000000000 {
        32u128
    } else if n < 0x800000000000000 {
        64u128
    } else if n < 0x1000000000000000 {
        128u128
    } else if n < 0x2000000000000000 {
        256u128
    } else if n < 0x4000000000000000 {
        512u128
    } else if n < 0x8000000000000000 {
        1024u128
    } else {
        2048u128
    };
    round_half_even(n as u128, unit)
}

/// Whether the 64-bit IEEE number nearest to `a / b`, itself computed from the
/// numbers nearest to `a` and `b`, is above the IEEE number `m / 2^e`. Between
/// `m` and its neighbour the number nearest to a ratio changes halfway, and
/// exactly halfway it is the even one.
pub open spec fn ratio_above(a: u64, b: u64, m: nat, two_e: nat) -> bool {
    let x = nearest(a) * (2 * two_e);
    let y = nearest(b) * (2 * m + 1);
    if m % 2 == 1 {
        x >= y
    } else {
        x > y
    }
}

/// Whether the 64-bit IEEE number nearest to `a / b`, itself computed from the
/// numbers nearest to `a` and `b`, is below the IEEE number `m / 2^e`.
pub open spec fn ratio_below(a: u64, b: u64, m: nat, two_e: nat) -> bool {
    let x = nearest(a) * (2 * two_e);
    let y = nearest(b) * (2 * m - 1);
    if m % 2 == 1 {
        x <= y
    } else {
        x < y
    }
}

/// An upper bound on the products that are compared.
proof fn lemma_product_bound(a: nat, k: nat)
    requires
        a <= 0x1_0000_0000_0000_0800,
        k <= 0x100_0000_0000_0000,
    ensures
        a * k <= u128::MAX,
{
    assert(a * k <= 0x1_0000_0000_0000_0800 * 0x100_0000_0000_0000) by (nonlinear_arith)
        requires
            a <= 0x1_0000_0000_0000_0800,
            k <= 0x100_0000_0000_0000,
    ;
}

/// Whether `a / b` is above `m / two_e`, as IEEE numbers.
pub fn is_ratio_above(a: u64, b: u64, m: u64, two_e: u64) -> (r: bool)
    requires
        m < 0x20_0000_0000_0000,
        two_e <= 0x80_0000_0000_0000,
    ensures
        r == ratio_above(a, b, m as nat, two_e as nat),
{
    let p = nearest_double(a);
    let q = nearest_double(b);
    let k = 2 * (two_e as u128);
    let l = 2 * (m as u128) + 1;
    proof {
        lemma_product_bound(p as nat, k as nat);
        lemma_product_bound(q as nat, l as nat);
    }
    if m % 2 == 1 {
        p * k >= q * l
    } else {
        p * k > q * l
    }
}

/// Whether `a / b` is below `m / two_e`, as IEEE numbers.
pub fn is_ratio_below(a: u64, b: u64, m: u64, two_e: u64) -> (r: bool)
    requires
        0 < m <= 0x20_0000_0000_0000,
        two_e <= 0x80_0000_0000_0000,
    ensures
        r == ratio_below(a, b, m as nat, two_e as nat),
{
    let p = nearest_double(a);
    let q = nearest_double(b);
    let k = 2 * (two_e as u128);
    let l = 2 * (m as u128) - 1;
    proof {
        lemma_product_bound(p as nat, k as nat);
        lemma_product_bound(q as nat, l as nat);
    }
    if m % 2 == 1 {
        p * k <= q * l
    } else {
        p * k < q * l
    }
}

/// Counts below `2^53` are IEEE numbers themselves, so ratios of them compare as fractions
/// do: what is not above a number is not found to be, and what is not below it neither.
pub proof fn ratios_compare_as_fractions(
    a: u64,
    b: u64,
    m: u64,
    two_e: u64,
    above: bool,
    below: bool,
)
    requires
        a < 0x20_0000_0000_0000,
        0 < b < 0x20_0000_0000_0000,
        0 < m < 0x20_0000_0000_0000,
        0 < two_e <= 0x80_0000_0000_0000,
        call_ensures(is_ratio_above, (a, b, m, two_e), above),
        call_ensures(is_ratio_below, (a, b, m, two_e), below),
    ensures
        above ==> a * two_e > b * m,
        below ==> a * two_e < b * m,
        a * two_e >= b * (m + 1) ==> above,
        a * two_e <= b * (m - 1) ==> below,
{
    small_counts_are_exact(a);
    small_counts_are_exact(b);
    let x = a * two_e;
    let y = b * m;
    assert(nearest(a) * (2 * two_e as nat) == 2 * x) by (nonlinear_arith)
        requires
            nearest(a) == a,
            x == a * two_e,
    ;
    assert(nearest(b) * (2 * (m as nat) + 1) == 2 * y + b) by (nonlinear_arith)
        requires
            nearest(b) == b,
            y == b * m,
    ;
    assert(nearest(b) * (2 * (m as nat) - 1) == 2 * y - b) by (nonlinear_arith)
        requires
            nearest(b) == b,
            y == b * m,
    ;
    assert(b * (m + 1) == y + b) by (nonlinear_arith)
        requires
            y == b * m,
    ;
    assert(b * (m - 1) == y - b) by (nonlinear_arith)
        requires
            y == b * m,
    ;
}

/// Counts below `2^53` are IEEE numbers themselves.
pub proof fn small_counts_are_exact(n: u64)
    requires
        n < 0x20_0000_0000_0000,
    ensures
        nearest(n) == n,
{
    assert((n as nat) / 1nat == n && (n as nat) % 1nat == 0);
}

/// The IEEE number nearest to a count is as far from it as half the distance of its
/// neighbours at most, and a multiple of that distance.
pub proof fn rounding_goes_to_the_nearest(x: u128, unit: u128, r: u128)
    requires
        0 < unit,
        x + unit <= u128::MAX,
        2 * unit <= u128::MAX,
        call_ensures(round_half_even, (x, unit), r),
    ensures
        r % unit == 0,
        2 * (r - x) <= unit,
        2 * (x - r) <= unit,
        2 * (r - x) == unit || 2 * (x - r) == unit ==> (r / unit) % 2 == 0,
{
    let q = x as nat / unit as nat;
    let p = x as nat % unit as nat;
    assert(q * unit + p == x && 0 <= p < unit) by (nonlinear_arith)
        requires
            q == x as nat / unit as nat,
            p == x as nat % unit as nat,
            unit > 0,
    ;
    assert((q + 1) * unit == q * unit + unit) by (nonlinear_arith);
    assert((q * unit) as nat / unit as nat == q && ((q + 1) * unit) as nat / unit as nat == q + 1)
        by (nonlinear_arith)
        requires
            unit > 0,
    ;
}

} // verus!
