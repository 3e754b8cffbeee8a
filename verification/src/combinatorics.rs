//! Counting combinations.
use vstd::prelude::*;

verus! {

use vstd::arithmetic::power2::{lemma_pow2_strictly_increases, lemma_pow2_unfold, pow2};

/// The number of ways to choose `r` of `n` things.
pub open spec fn binomial(n: nat, r: nat) -> nat
    decreases n,
{
    if r == 0 {
        1
    } else if n == 0 {
        0
    } else {
        binomial((n - 1) as nat, (r - 1) as nat) + binomial((n - 1) as nat, r)
    }
}

/// No more things can be chosen than there are, and all of them in one way.
pub proof fn law_binomial_edges(n: nat, r: nat)
    ensures
        r > n ==> binomial(n, r) == 0,
        binomial(n, n) == 1,
        r <= n ==> binomial(n, r) >= 1,
    decreases n,
{
    if n > 0 {
        law_binomial_edges((n - 1) as nat, n);
        law_binomial_edges((n - 1) as nat, r);
        if r > 0 {
            law_binomial_edges((n - 1) as nat, (r - 1) as nat);
        }
    }
}

/// Choosing `r` things is choosing the `n - r` that stay.
pub proof fn law_binomial_is_symmetric(n: nat, r: nat)
    requires
        r <= n,
    ensures
        binomial(n, r) == binomial(n, (n - r) as nat),
    decreases n,
{
    law_binomial_edges(n, r);
    if 0 < r < n {
        law_binomial_is_symmetric((n - 1) as nat, r);
        law_binomial_is_symmetric((n - 1) as nat, (r - 1) as nat);
    }
}

/// Choosing `r` of `n` and one of those is choosing one of `n` and `r - 1` of
/// the others.
proof fn lemma_absorption(n: nat, r: nat)
    requires
        n > 0,
        r > 0,
    ensures
        r * binomial(n, r) == n * binomial((n - 1) as nat, (r - 1) as nat),
    decreases n,
{
    let n1 = (n - 1) as nat;
    let r1 = (r - 1) as nat;
    let a = binomial(n1, r1);
    let b = binomial(n1, r);
    if n1 == 0 {
        law_binomial_edges(0, r);
        if r1 == 0 {
            assert(binomial(n, r) == 1);
        } else {
            law_binomial_edges(1, r);
            law_binomial_edges(0, r1);
            let c = binomial(n, r);
            assert(r * c == n * a) by (nonlinear_arith)
                requires
                    c == 0,
                    a == 0,
            ;
        }
    } else if r1 == 0 {
        lemma_absorption(n1, r);
        let c = binomial((n1 - 1) as nat, 0);
        assert(r * (a + b) == n * a) by (nonlinear_arith)
            requires
                r == 1,
                a == 1,
                c == 1,
                r * b == n1 * c,
                n == n1 + 1,
        ;
    } else {
        let n2 = (n - 2) as nat;
        let x = binomial(n2, (r1 - 1) as nat);
        let y = binomial(n2, r1);
        lemma_absorption(n1, r1);
        lemma_absorption(n1, r);
        assert(a == x + y);
        assert(r1 * a == n1 * x);
        assert(r * b == n1 * y);
        assert(r * (a + b) == n * a) by (nonlinear_arith)
            requires
                a == x + y,
                r1 * a == n1 * x,
                r * b == n1 * y,
                r == r1 + 1,
                n == n1 + 1,
        ;
    }
}

proof fn lemma_binomial_at_most_power(n: nat, r: nat)
    ensures
        binomial(n, r) <= pow2(n),
    decreases n,
{
    if n == 0 || r == 0 {
        vstd::arithmetic::power2::lemma_pow2_pos(n);
    } else {
        lemma_binomial_at_most_power((n - 1) as nat, (r - 1) as nat);
        lemma_binomial_at_most_power((n - 1) as nat, r);
        lemma_pow2_unfold(n);
    }
}

/// Fewer things of as many fewer can be chosen in fewer ways.
proof fn lemma_binomial_grows(m: nat, i: nat, r: nat)
    requires
        i <= r,
    ensures
        binomial(m + i, i) <= binomial(m + r, r),
    decreases r,
{
    if i < r {
        lemma_binomial_grows(m, i, (r - 1) as nat);
        assert(((m + r) - 1) as nat == m + (r - 1) as nat);
    }
}

/// Exact binomial coefficient C(n, r).
pub fn comb(n: u64, r: u64) -> (ways: u64)
    requires
        n < 64 || binomial(n as nat, r as nat) <= u64::MAX,
    ensures
        ways == binomial(n as nat, r as nat),
{
    proof {
        law_binomial_edges(n as nat, r as nat);
        lemma_binomial_at_most_power(n as nat, r as nat);
        vstd::arithmetic::power2::lemma2_to64_rest();
        if n < 63 {
            lemma_pow2_strictly_increases(n as nat, 63);
        }
    }
    if r > n {
        return 0;
    }
    let ghost m: nat = (n - r) as nat;
    let mut x: u64 = 1;
    let mut i: u64 = 0;
    while i < r
        invariant
            i <= r <= n,
            m == n - r,
            x == binomial(m + i as nat, i as nat),
            binomial(n as nat, r as nat) <= u64::MAX,
        decreases r - i,
    {
        i += 1;
        proof {
            let top = m + i as nat;
            lemma_absorption(top, i as nat);
            lemma_binomial_grows(m, i as nat, r as nat);
            assert((top - 1) as nat == m + (i - 1) as nat);
            let c = binomial(top, i as nat);
            assert(x * top <= u64::MAX * u64::MAX) by (nonlinear_arith)
                requires
                    x <= u64::MAX,
                    top <= u64::MAX,
            ;
            assert((i * c) / (i as int) == c) by (nonlinear_arith)
                requires
                    i > 0,
            ;
            assert(i * c == x * top) by (nonlinear_arith)
                requires
                    i * c == top * x,
            ;
        }
        x = (x as u128 * (n - r + i) as u128 / i as u128) as u64;
    }
    assert(m + r as nat == n as nat);
    x
}

/// Choosing `r` of `n` things and one of those is choosing one of `n` and `r - 1` of
/// the others: so the ways are those of one thing less, times `n`, divided by `r`.
pub proof fn law_one_thing_more(n: nat, r: nat)
    requires
        n > 0,
        r > 0,
    ensures
        r * binomial(n, r) == n * binomial((n - 1) as nat, (r - 1) as nat),
        binomial(n, 1) == n,
{
    lemma_absorption(n, r);
    lemma_absorption(n, 1);
    assert(binomial((n - 1) as nat, 0) == 1);
    assert(1 * binomial(n, 1) == n * 1);
}

} // verus!
