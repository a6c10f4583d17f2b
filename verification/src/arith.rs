//! Divisibility and the greatest common divisor, over the mathematical integers.

use vstd::arithmetic::div_mod::{
    lemma_fundamental_div_mod, lemma_fundamental_div_mod_converse, lemma_mod_multiples_basic,
    lemma_small_mod,
};
use vstd::prelude::*;

verus! {

/// `d` is a positive integer that divides `n` evenly.
pub open spec fn divides(d: int, n: int) -> bool {
    d >= 1 && n % d == 0
}

/// `d` divides both `a` and `b`.
pub open spec fn common_divisor(d: int, a: int, b: int) -> bool {
    divides(d, a) && divides(d, b)
}

/// `g` is a common divisor of `a` and `b`, and no common divisor is greater.
pub open spec fn is_gcd(g: int, a: int, b: int) -> bool {
    &&& common_divisor(g, a, b)
    &&& forall|d: int| #[trigger] common_divisor(d, a, b) ==> d <= g
}

/// The greatest common divisor of `a` and `b`. It is meaningful where both are
/// positive; [`lemma_gcd_exists`] shows that it then satisfies [`is_gcd`].
pub open spec fn gcd(a: int, b: int) -> int {
    choose|g: int| is_gcd(g, a, b)
}

/// A divisor of a positive integer is no greater than that integer.
pub proof fn lemma_divisor_at_most(d: int, n: int)
    requires
        divides(d, n),
        n >= 1,
    ensures
        d <= n,
{
    if d > n {
        lemma_small_mod(n as nat, d as nat);
    }
}

/// One divides every integer.
pub proof fn lemma_one_divides(n: int)
    ensures
        divides(1, n),
{
}

/// Whatever satisfies [`is_gcd`] is the value of [`gcd`].
pub proof fn lemma_gcd_unique(g: int, a: int, b: int)
    requires
        is_gcd(g, a, b),
    ensures
        gcd(a, b) == g,
{
    let h = gcd(a, b);
    assert(is_gcd(h, a, b));
    assert(common_divisor(h, a, b));
    assert(common_divisor(g, a, b));
}

/// Among the common divisors of `a` and `b` that do not exceed `k`, there is
/// a greatest one.
proof fn lemma_greatest_up_to(a: int, b: int, k: int) -> (g: int)
    requires
        k >= 1,
    ensures
        common_divisor(g, a, b),
        g <= k,
        forall|d: int| #[trigger] common_divisor(d, a, b) && d <= k ==> d <= g,
    decreases k,
{
    if common_divisor(k, a, b) {
        k
    } else if k == 1 {
        lemma_one_divides(a);
        lemma_one_divides(b);
        1
    } else {
        lemma_greatest_up_to(a, b, k - 1)
    }
}

/// Two positive integers have a greatest common divisor, and it lies between
/// one and the smaller of the two.
pub proof fn lemma_gcd_exists(a: int, b: int)
    requires
        a >= 1,
        b >= 1,
    ensures
        is_gcd(gcd(a, b), a, b),
        1 <= gcd(a, b) <= a,
        gcd(a, b) <= b,
{
    let g = lemma_greatest_up_to(a, b, a);
    assert forall|d: int| #[trigger] common_divisor(d, a, b) implies d <= g by {
        lemma_divisor_at_most(d, a);
    }
    assert(is_gcd(g, a, b));
    lemma_gcd_unique(g, a, b);
    lemma_divisor_at_most(g, b);
}

/// Dividing by a divisor is exact, and the quotient of the negated integer is
/// the negated quotient.
pub proof fn lemma_exact_quotient(n: int, d: int)
    requires
        divides(d, n),
    ensures
        n == d * (n / d),
        (-n) / d == -(n / d),
        (-n) % d == 0,
{
    lemma_fundamental_div_mod(n, d);
    let q = n / d;
    assert(-n == (-q) * d + 0) by (nonlinear_arith)
        requires
            n == d * q,
    ;
    lemma_fundamental_div_mod_converse(-n, d, -q, 0);
}

/// A divisor of the quotient `n / g`, multiplied by `g`, divides `n`.
proof fn lemma_divisor_of_quotient(n: int, g: int, d: int)
    requires
        divides(g, n),
        divides(d, n / g),
    ensures
        divides(g * d, n),
{
    lemma_exact_quotient(n, g);
    lemma_exact_quotient(n / g, d);
    let k = (n / g) / d;
    assert(g * d >= 1) by (nonlinear_arith)
        requires
            g >= 1,
            d >= 1,
    ;
    assert(n == k * (g * d)) by (nonlinear_arith)
        requires
            n == g * (n / g),
            n / g == d * k,
    ;
    lemma_mod_multiples_basic(k, g * d);
}

/// Two positive integers divided by their greatest common divisor are
/// positive and have no common divisor but one.
pub proof fn lemma_lowest_terms(a: int, b: int)
    requires
        a >= 1,
        b >= 1,
    ensures
        a / gcd(a, b) >= 1,
        b / gcd(a, b) >= 1,
        a / gcd(a, b) <= a,
        b / gcd(a, b) <= b,
        gcd(a / gcd(a, b), b / gcd(a, b)) == 1,
{
    lemma_gcd_exists(a, b);
    let g = gcd(a, b);
    lemma_exact_quotient(a, g);
    lemma_exact_quotient(b, g);
    let p = a / g;
    let q = b / g;
    assert(1 <= p <= a) by (nonlinear_arith)
        requires
            a == g * p,
            a >= 1,
            g >= 1,
    ;
    assert(1 <= q <= b) by (nonlinear_arith)
        requires
            b == g * q,
            b >= 1,
            g >= 1,
    ;
    lemma_one_divides(p);
    lemma_one_divides(q);
    assert forall|d: int| #[trigger] common_divisor(d, p, q) implies d <= 1 by {
        lemma_divisor_of_quotient(a, g, d);
        lemma_divisor_of_quotient(b, g, d);
        assert(common_divisor(g * d, a, b));
        assert(d <= 1) by (nonlinear_arith)
            requires
                g * d <= g,
                g >= 1,
                d >= 1,
        ;
    }
    assert(is_gcd(1, p, q));
    lemma_gcd_unique(1, p, q);
}

} // verus!
