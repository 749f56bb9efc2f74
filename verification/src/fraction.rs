//! Exact comparison of non-negative fractions.
use vstd::prelude::*;

use crate::text::Precedence;

verus! {

proof fn lemma_quotient_order(n1: int, d1: int, n2: int, d2: int)
    requires
        n1 >= 0,
        n2 >= 0,
        d1 > 0,
        d2 > 0,
        n1 / d1 < n2 / d2,
    ensures
        n1 * d2 < n2 * d1,
{
    let q1 = n1 / d1;
    let q2 = n2 / d2;
    let r1 = n1 % d1;
    let r2 = n2 % d2;
    assert(n1 == q1 * d1 + r1 && 0 <= r1 < d1) by (nonlinear_arith)
        requires
            d1 > 0,
            q1 == n1 / d1,
            r1 == n1 % d1,
    ;
    assert(n2 == q2 * d2 + r2 && 0 <= r2 < d2) by (nonlinear_arith)
        requires
            d2 > 0,
            q2 == n2 / d2,
            r2 == n2 % d2,
    ;
    assert(n1 * d2 < (q1 + 1) * d1 * d2) by (nonlinear_arith)
        requires
            n1 == q1 * d1 + r1,
            r1 < d1,
            d2 > 0,
    ;
    assert((q1 + 1) * d1 * d2 <= q2 * d2 * d1) by (nonlinear_arith)
        requires
            q1 + 1 <= q2,
            d1 > 0,
            d2 > 0,
    ;
    assert(q2 * d2 * d1 <= n2 * d1) by (nonlinear_arith)
        requires
            n2 == q2 * d2 + r2,
            r2 >= 0,
            d1 > 0,
    ;
}

proof fn lemma_same_quotient(n1: int, d1: int, n2: int, d2: int)
    requires
        n1 >= 0,
        n2 >= 0,
        d1 > 0,
        d2 > 0,
        n1 / d1 == n2 / d2,
    ensures
        n1 * d2 - n2 * d1 == (n1 % d1) * d2 - (n2 % d2) * d1,
{
    let q = n1 / d1;
    assert(n1 == q * d1 + n1 % d1) by (nonlinear_arith)
        requires
            d1 > 0,
            q == n1 / d1,
    ;
    assert(n2 == q * d2 + n2 % d2) by (nonlinear_arith)
        requires
            d2 > 0,
            q == n2 / d2,
    ;
    assert(n1 * d2 - n2 * d1 == (n1 % d1) * d2 - (n2 % d2) * d1) by (nonlinear_arith)
        requires
            n1 == q * d1 + n1 % d1,
            n2 == q * d2 + n2 % d2,
    ;
}

/// The exact product of two machine words.
pub fn wide_product(a: u64, b: u64) -> (r: u128)
    ensures
        r == a * b,
{
    assert(a * b <= u64::MAX * u64::MAX) by (nonlinear_arith)
        requires
            a <= u64::MAX,
            b <= u64::MAX,
    ;
    (a as u128) * (b as u128)
}

/// Compares `n1 / d1` with `n2 / d2` exactly.
pub fn compare_fractions(n1: u128, d1: u128, n2: u128, d2: u128) -> (r: Precedence)
    requires
        d1 > 0,
        d2 > 0,
    ensures
        (r == Precedence::Before) == (n1 * d2 < n2 * d1),
        (r == Precedence::Same) == (n1 * d2 == n2 * d1),
        (r == Precedence::After) == (n1 * d2 > n2 * d1),
    decreases d1 + d2,
{
    let q1 = n1 / d1;
    let q2 = n2 / d2;
    if q1 < q2 {
        proof {
            lemma_quotient_order(n1 as int, d1 as int, n2 as int, d2 as int);
        }
        return Precedence::Before;
    }
    if q2 < q1 {
        proof {
            lemma_quotient_order(n2 as int, d2 as int, n1 as int, d1 as int);
        }
        return Precedence::After;
    }
    let r1 = n1 % d1;
    let r2 = n2 % d2;
    proof {
        lemma_same_quotient(n1 as int, d1 as int, n2 as int, d2 as int);
        assert(r1 as int == (n1 as int) % (d1 as int));
        assert(r2 as int == (n2 as int) % (d2 as int));
        assert(n1 * d2 - n2 * d1 == r1 * d2 - r2 * d1);
    }
    if r1 == 0 && r2 == 0 {
        assert(r1 * d2 == 0 && r2 * d1 == 0) by (nonlinear_arith)
            requires
                r1 == 0,
                r2 == 0,
        ;
        return Precedence::Same;
    }
    if r1 == 0 {
        assert(r1 * d2 == 0) by (nonlinear_arith)
            requires
                r1 == 0,
        ;
        assert(r2 * d1 > 0) by (nonlinear_arith)
            requires
                r2 > 0,
                d1 > 0,
        ;
        return Precedence::Before;
    }
    if r2 == 0 {
        assert(r2 * d1 == 0) by (nonlinear_arith)
            requires
                r2 == 0,
        ;
        assert(r1 * d2 > 0) by (nonlinear_arith)
            requires
                r1 > 0,
                d2 > 0,
        ;
        return Precedence::After;
    }
    // r1 / d1 against r2 / d2 is d2 / r2 against d1 / r1
    let inner = compare_fractions(d2, r2, d1, r1);
    assert(d2 * r1 == r1 * d2 && d1 * r2 == r2 * d1) by (nonlinear_arith);
    inner
}

pub proof fn lemma_fraction_equal_transitive(n1: int, d1: int, n2: int, d2: int, n3: int, d3: int)
    requires
        d1 > 0,
        d2 > 0,
        d3 > 0,
        n1 * d2 == n2 * d1,
        n2 * d3 == n3 * d2,
    ensures
        n1 * d3 == n3 * d1,
{
    assert(n1 * d3 * d2 == n3 * d1 * d2) by (nonlinear_arith)
        requires
            n1 * d2 == n2 * d1,
            n2 * d3 == n3 * d2,
    ;
    assert(n1 * d3 == n3 * d1) by (nonlinear_arith)
        requires
            n1 * d3 * d2 == n3 * d1 * d2,
            d2 > 0,
    ;
}

pub proof fn lemma_fraction_mixed_transitive(n1: int, d1: int, n2: int, d2: int, n3: int, d3: int)
    requires
        d1 > 0,
        d2 > 0,
        d3 > 0,
        n1 * d2 <= n2 * d1,
        n2 * d3 <= n3 * d2,
    ensures
        n1 * d3 <= n3 * d1,
        (n1 * d2 < n2 * d1 || n2 * d3 < n3 * d2) ==> n1 * d3 < n3 * d1,
{
    assert(n1 * d2 * d3 <= n2 * d1 * d3) by (nonlinear_arith)
        requires
            n1 * d2 <= n2 * d1,
            d3 > 0,
    ;
    assert(n2 * d3 * d1 <= n3 * d2 * d1) by (nonlinear_arith)
        requires
            n2 * d3 <= n3 * d2,
            d1 > 0,
    ;
    if n1 * d2 < n2 * d1 {
        lemma_fraction_transitive_le(n1, d1, n2, d2, n3, d3);
    } else if n2 * d3 < n3 * d2 {
        lemma_fraction_transitive_le2(n1, d1, n2, d2, n3, d3);
    } else {
        lemma_fraction_equal_transitive(n1, d1, n2, d2, n3, d3);
    }
    assert(n1 * d3 * d2 <= n3 * d1 * d2) by (nonlinear_arith)
        requires
            n1 * d2 * d3 <= n2 * d1 * d3,
            n2 * d3 * d1 <= n3 * d2 * d1,
    ;
    assert(n1 * d3 <= n3 * d1) by (nonlinear_arith)
        requires
            n1 * d3 * d2 <= n3 * d1 * d2,
            d2 > 0,
    ;
}

proof fn lemma_fraction_transitive_le(n1: int, d1: int, n2: int, d2: int, n3: int, d3: int)
    requires
        d1 > 0,
        d2 > 0,
        d3 > 0,
        n1 * d2 < n2 * d1,
        n2 * d3 <= n3 * d2,
    ensures
        n1 * d3 < n3 * d1,
{
    assert(n1 * d2 * d3 < n2 * d1 * d3) by (nonlinear_arith)
        requires
            n1 * d2 < n2 * d1,
            d3 > 0,
    ;
    assert(n2 * d3 * d1 <= n3 * d2 * d1) by (nonlinear_arith)
        requires
            n2 * d3 <= n3 * d2,
            d1 > 0,
    ;
    assert(n1 * d3 * d2 < n3 * d1 * d2) by (nonlinear_arith)
        requires
            n1 * d2 * d3 < n2 * d1 * d3,
            n2 * d3 * d1 <= n3 * d2 * d1,
    ;
    assert(n1 * d3 < n3 * d1) by (nonlinear_arith)
        requires
            n1 * d3 * d2 < n3 * d1 * d2,
            d2 > 0,
    ;
}

proof fn lemma_fraction_transitive_le2(n1: int, d1: int, n2: int, d2: int, n3: int, d3: int)
    requires
        d1 > 0,
        d2 > 0,
        d3 > 0,
        n1 * d2 <= n2 * d1,
        n2 * d3 < n3 * d2,
    ensures
        n1 * d3 < n3 * d1,
{
    assert(n1 * d2 * d3 <= n2 * d1 * d3) by (nonlinear_arith)
        requires
            n1 * d2 <= n2 * d1,
            d3 > 0,
    ;
    assert(n2 * d3 * d1 < n3 * d2 * d1) by (nonlinear_arith)
        requires
            n2 * d3 < n3 * d2,
            d1 > 0,
    ;
    assert(n1 * d3 * d2 < n3 * d1 * d2) by (nonlinear_arith)
        requires
            n1 * d2 * d3 <= n2 * d1 * d3,
            n2 * d3 * d1 < n3 * d2 * d1,
    ;
    assert(n1 * d3 < n3 * d1) by (nonlinear_arith)
        requires
            n1 * d3 * d2 < n3 * d1 * d2,
            d2 > 0,
    ;
}

} // verus!

verus! {

/// Compares `(p1 - m1) / d1` with `(p2 - m2) / d2` exactly.
pub fn compare_signed_fractions(p1: u128, m1: u128, d1: u128, p2: u128, m2: u128, d2: u128) -> (r: Precedence)
    requires
        d1 > 0,
        d2 > 0,
    ensures
        (r == Precedence::Before) == ((p1 - m1) * d2 < (p2 - m2) * d1),
        (r == Precedence::Same) == ((p1 - m1) * d2 == (p2 - m2) * d1),
        (r == Precedence::After) == ((p1 - m1) * d2 > (p2 - m2) * d1),
{
    if p1 >= m1 {
        if p2 >= m2 {
            compare_fractions(p1 - m1, d1, p2 - m2, d2)
        } else {
            assert((p1 - m1) * d2 >= 0 && (p2 - m2) * d1 < 0) by (nonlinear_arith)
                requires
                    p1 >= m1,
                    p2 < m2,
                    d1 > 0,
                    d2 > 0,
            ;
            Precedence::After
        }
    } else {
        if p2 >= m2 {
            assert((p1 - m1) * d2 < 0 && (p2 - m2) * d1 >= 0) by (nonlinear_arith)
                requires
                    p1 < m1,
                    p2 >= m2,
                    d1 > 0,
                    d2 > 0,
            ;
            Precedence::Before
        } else {
            let r = compare_fractions(m2 - p2, d2, m1 - p1, d1);
            assert((m2 - p2) * d1 == -((p2 - m2) * d1) && (m1 - p1) * d2 == -((p1 - m1) * d2)) by (nonlinear_arith);
            r
        }
    }
}

} // verus!
