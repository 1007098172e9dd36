//! Fixed-point multiplication and summation facts shared by the matrix and
//! propagation code.
use vstd::arithmetic::div_mod::lemma_div_is_ordered;
use vstd::arithmetic::div_mod::lemma_fundamental_div_mod;
use vstd::arithmetic::mul::lemma_mul_inequality;
use vstd::prelude::*;

use crate::SCALE;

verus! {

/// Fixed-point product of `a` and `b`: the integer `a * b / SCALE`, rounded
/// toward zero. If `a` and `b` stand for fractions `a / SCALE` and
/// `b / SCALE`, the result stands for their product.
pub open spec fn mul_fp(a: int, b: int) -> int {
    (a * b) / (SCALE as int)
}

/// Sum of a sequence of fixed-point values, as an unbounded integer.
pub open spec fn sum(s: Seq<u64>) -> int
    decreases s.len(),
{
    if s.len() == 0 {
        0
    } else {
        sum(s.drop_last()) + s.last()
    }
}

/// Fixed-point multiplication never underflows zero and, for factors at most
/// one (`SCALE`), never exceeds either factor.
pub proof fn lemma_mul_fp_bounds(a: int, b: int)
    requires
        0 <= a,
        0 <= b,
        a <= SCALE,
    ensures
        0 <= mul_fp(a, b) <= b,
{
    lemma_mul_inequality(a, SCALE as int, b);
    lemma_div_is_ordered(a * b, (SCALE as int) * b, SCALE as int);
    assert((SCALE as int) * b / (SCALE as int) == b) by (nonlinear_arith);
    assert(a * b >= 0) by (nonlinear_arith)
        requires
            0 <= a,
            0 <= b,
    ;
}

/// Truncating division is superadditive: summing two quotients undershoots
/// the quotient of the sum.
pub proof fn lemma_div_superadd(a: int, b: int, d: int)
    requires
        0 <= a,
        0 <= b,
        0 < d,
    ensures
        a / d + b / d <= (a + b) / d,
{
    lemma_fundamental_div_mod(a, d);
    lemma_fundamental_div_mod(b, d);
    assert(a + b == d * (a / d + b / d) + (a % d + b % d)) by (nonlinear_arith)
        requires
            a == d * (a / d) + a % d,
            b == d * (b / d) + b % d,
    ;
    assert((d * (a / d + b / d) + (a % d + b % d)) / d >= a / d + b / d) by (nonlinear_arith)
        requires
            0 < d,
            0 <= a % d,
            0 <= b % d,
    ;
}

/// Truncating division is subadditive up to one: the quotient of a sum
/// overshoots the summed quotients by less than one.
pub proof fn lemma_div_subadd(a: int, b: int, d: int)
    requires
        0 <= a,
        0 <= b,
        0 < d,
    ensures
        (a + b) / d <= a / d + b / d + 1,
{
    lemma_fundamental_div_mod(a, d);
    lemma_fundamental_div_mod(b, d);
    assert(a + b == d * (a / d + b / d) + (a % d + b % d)) by (nonlinear_arith)
        requires
            a == d * (a / d) + a % d,
            b == d * (b / d) + b % d,
    ;
    assert((d * (a / d + b / d) + (a % d + b % d)) / d <= a / d + b / d + 1) by (nonlinear_arith)
        requires
            0 < d,
            a % d < d,
            b % d < d,
            0 <= a % d,
            0 <= b % d,
    ;
}

/// A sum of fixed-point values is never negative.
pub proof fn lemma_sum_nonneg(s: Seq<u64>)
    ensures
        0 <= sum(s),
    decreases s.len(),
{
    if s.len() > 0 {
        lemma_sum_nonneg(s.drop_last());
    }
}

/// Extending a prefix by one element adds exactly that element to its sum.
pub proof fn lemma_sum_take_step(s: Seq<u64>, j: int)
    requires
        0 <= j < s.len(),
    ensures
        sum(s.take(j + 1)) == sum(s.take(j)) + s[j],
{
    assert(s.take(j + 1).drop_last() =~= s.take(j));
    assert(s.take(j + 1).last() == s[j]);
}

/// A prefix sum never exceeds the sum of the whole sequence.
pub proof fn lemma_sum_take_le(s: Seq<u64>, j: int)
    requires
        0 <= j <= s.len(),
    ensures
        sum(s.take(j)) <= sum(s),
    decreases s.len() - j,
{
    if j == s.len() {
        assert(s.take(j) =~= s);
    } else {
        lemma_sum_take_step(s, j);
        lemma_sum_take_le(s, j + 1);
    }
}

/// Every element of a sequence is bounded by the sequence's sum.
pub proof fn lemma_sum_entry_le(s: Seq<u64>, i: int)
    requires
        0 <= i < s.len(),
    ensures
        s[i] <= sum(s),
    decreases s.len(),
{
    if i == s.len() - 1 {
        lemma_sum_nonneg(s.drop_last());
    } else {
        lemma_sum_entry_le(s.drop_last(), i);
    }
}

/// Replacing one element changes the sum by the difference of the elements.
pub proof fn lemma_sum_update(s: Seq<u64>, i: int, v: u64)
    requires
        0 <= i < s.len(),
    ensures
        sum(s.update(i, v)) == sum(s) - s[i] + v,
    decreases s.len(),
{
    if i == s.len() - 1 {
        assert(s.update(i, v).drop_last() =~= s.drop_last());
        assert(s.update(i, v).last() == v);
    } else {
        assert(s.update(i, v).drop_last() =~= s.drop_last().update(i, v));
        assert(s.update(i, v).last() == s.last());
        lemma_sum_update(s.drop_last(), i, v);
    }
}

/// Addition capped at the largest machine word.
pub open spec fn sat_add(a: int, b: int) -> int {
    if a + b > u64::MAX {
        u64::MAX as int
    } else {
        a + b
    }
}

/// Fixed-point product capped at the largest machine word.
pub open spec fn sat_mul_fp(a: int, b: int) -> int {
    if mul_fp(a, b) > u64::MAX {
        u64::MAX as int
    } else {
        mul_fp(a, b)
    }
}

/// Saturating addition on machine words.
pub fn sat_add_u64(a: u64, b: u64) -> (r: u64)
    ensures
        r == sat_add(a as int, b as int),
{
    if a > u64::MAX - b {
        u64::MAX
    } else {
        a + b
    }
}

/// Saturating fixed-point multiply on machine words; the `u128`
/// intermediate cannot overflow.
pub fn sat_fp_mul(a: u64, b: u64) -> (r: u64)
    ensures
        r == sat_mul_fp(a as int, b as int),
{
    proof {
        assert((a as int) * (b as int) <= (u64::MAX as int) * (u64::MAX as int)) by (nonlinear_arith)
            requires
                0 <= a as int <= u64::MAX as int,
                0 <= b as int <= u64::MAX as int,
        ;
        assert((a as u128) * (b as u128) == (a as int) * (b as int)) by (nonlinear_arith);
        assert((a as int) * (b as int) >= 0) by (nonlinear_arith)
            requires
                a as int >= 0,
                b as int >= 0,
        ;
        lemma_div_is_ordered(0, (a as int) * (b as int), SCALE as int);
        vstd::arithmetic::div_mod::lemma_div_of0(SCALE as int);
    }
    let wide: u128 = (a as u128) * (b as u128) / (SCALE as u128);
    if wide > u64::MAX as u128 {
        u64::MAX
    } else {
        wide as u64
    }
}

/// Fixed-point multiply on machine words. The `u128` intermediate cannot
/// overflow, and the requirement `a <= SCALE` keeps the result within `u64`.
pub fn fp_mul(a: u64, b: u64) -> (r: u64)
    requires
        a <= SCALE,
    ensures
        r == mul_fp(a as int, b as int),
        r <= b,
{
    proof {
        lemma_mul_fp_bounds(a as int, b as int);
        assert((a as u128) * (b as u128) == (a as int) * (b as int)) by (nonlinear_arith);
    }
    let wide: u128 = (a as u128) * (b as u128) / (SCALE as u128);
    wide as u64
}

} // verus!
