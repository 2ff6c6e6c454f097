//! The binomial coefficient as a mathematical function, the identities that
//! move it by one step, and its computation from scratch.
use vstd::prelude::*;
use vstd::arithmetic::div_mod::*;
use vstd::arithmetic::mul::lemma_mul_is_commutative;
use crate::arith::mul_div_gcd;

verus! {

/// `C(n, k)`, the number of `k`-element subsets of an `n`-element set, by
/// Pascal's rule.
pub open spec fn binomial(n: nat, k: nat) -> nat
    decreases n,
{
    if k == 0 {
        1
    } else if n == 0 {
        0
    } else {
        binomial((n - 1) as nat, (k - 1) as nat) + binomial((n - 1) as nat, k)
    }
}

/// There is no subset larger than the set.
pub proof fn lemma_binomial_above(n: nat, k: nat)
    requires
        k > n,
    ensures
        binomial(n, k) == 0,
    decreases n,
{
    if n > 0 {
        lemma_binomial_above((n - 1) as nat, (k - 1) as nat);
        lemma_binomial_above((n - 1) as nat, k);
    }
}

/// `C(n, 0) == C(n, n) == 1` for every `n`.
pub proof fn lemma_boundary(n: nat)
    ensures
        binomial(n, 0) == 1,
        binomial(n, n) == 1,
    decreases n,
{
    if n > 0 {
        lemma_boundary((n - 1) as nat);
        lemma_binomial_above((n - 1) as nat, n);
    }
}

/// Pascal symmetry: `C(n, k) == C(n, n - k)` for every `k <= n`.
pub proof fn lemma_symmetry(n: nat, k: nat)
    requires
        k <= n,
    ensures
        binomial(n, k) == binomial(n, (n - k) as nat),
    decreases n,
{
    lemma_boundary(n);
    if 0 < k < n {
        lemma_symmetry((n - 1) as nat, (k - 1) as nat);
        lemma_symmetry((n - 1) as nat, k);
    }
}

/// Absorption: `k * C(n, k) == n * C(n - 1, k - 1)`.
proof fn lemma_absorb(n: nat, k: nat)
    requires
        n >= 1,
        k >= 1,
    ensures
        k * binomial(n, k) == n * binomial((n - 1) as nat, (k - 1) as nat),
    decreases n,
{
    let m = (n - 1) as nat;
    if m == 0 {
        if k > 1 {
            lemma_binomial_above(0, (k - 1) as nat);
            lemma_binomial_above(0, k);
        } else {
            assert(binomial(0, 0) == 1);
            assert(binomial(0, 1) == 0);
            assert(binomial(1, 1) == binomial(0, 0) + binomial(0, 1));
        }
        assert(k * binomial(n, k) == n * binomial(m, (k - 1) as nat)) by (nonlinear_arith)
            requires
                n == 1,
                k >= 1,
                k == 1 ==> binomial(n, k) == 1 && binomial(m, (k - 1) as nat) == 1,
                k > 1 ==> binomial(n, k) == 0 && binomial(m, (k - 1) as nat) == 0,
        ;
    } else {
        lemma_absorb(m, k);
        let a = binomial(m, (k - 1) as nat);
        let b = binomial(m, k);
        if k == 1 {
            assert(k * binomial(n, k) == n * a) by (nonlinear_arith)
                requires
                    k == 1,
                    binomial(n, k) == a + b,
                    a == 1,
                    k * b == m * 1,
                    n == m + 1,
            ;
        } else {
            lemma_absorb(m, (k - 1) as nat);
            let x = binomial((m - 1) as nat, (k - 2) as nat);
            let y = binomial((m - 1) as nat, (k - 1) as nat);
            assert(a == x + y);
            assert(k * binomial(n, k) == n * a) by (nonlinear_arith)
                requires
                    binomial(n, k) == a + b,
                    (k - 1) * a == m * x,
                    k * b == m * y,
                    a == x + y,
                    n == m + 1,
            ;
        }
    }
}

/// `(n - k) * C(n, k) == n * C(n - 1, k)`.
proof fn lemma_drop(n: nat, k: nat)
    requires
        n >= 1,
    ensures
        (n - k) * binomial(n, k) == n * binomial((n - 1) as nat, k),
{
    if k > 0 {
        lemma_absorb(n, k);
        let c = binomial(n, k);
        let a = binomial((n - 1) as nat, (k - 1) as nat);
        let b = binomial((n - 1) as nat, k);
        assert((n - k) * c == n * b) by (nonlinear_arith)
            requires
                c == a + b,
                k * c == n * a,
        ;
    }
}

/// Moving `n` up: `C(n + 1, k) * (n + 1 - k) == C(n, k) * (n + 1)`.
pub proof fn lemma_step_n(n: nat, k: nat)
    ensures
        binomial(n + 1, k) * (n + 1 - k) == binomial(n, k) * (n + 1),
        k <= n ==> binomial(n, k) <= binomial(n + 1, k),
{
    lemma_drop(n + 1, k);
    lemma_mul_is_commutative(binomial(n + 1, k) as int, n + 1 - k);
    lemma_mul_is_commutative(binomial(n, k) as int, (n + 1) as int);
    if k <= n {
        assert(binomial(n, k) <= binomial(n + 1, k)) by (nonlinear_arith)
            requires
                binomial(n + 1, k) * (n + 1 - k) == binomial(n, k) * (n + 1),
                k <= n,
        ;
    }
}

/// Moving `k` up: `C(n, k + 1) * (k + 1) == C(n, k) * (n - k)`.
pub proof fn lemma_step_k(n: nat, k: nat)
    ensures
        binomial(n, k + 1) * (k + 1) == binomial(n, k) * (n - k),
{
    if n == 0 {
        lemma_binomial_above(0, k + 1);
        if k > 0 {
            lemma_binomial_above(0, k);
        }
        assert(binomial(n, k + 1) * (k + 1) == binomial(n, k) * (n - k)) by (nonlinear_arith)
            requires
                binomial(n, k + 1) == 0,
                k > 0 ==> binomial(n, k) == 0,
                n == 0,
        ;
    } else {
        lemma_absorb(n, k + 1);
        lemma_drop(n, k);
        lemma_mul_is_commutative(binomial(n, k + 1) as int, (k + 1) as int);
        lemma_mul_is_commutative(binomial(n, k) as int, n - k);
    }
}

/// `x / c == q` and `c` divides `x` exactly, when `x == q * c`.
pub(crate) proof fn lemma_exact_quotient(x: int, c: int, q: int)
    requires
        c > 0,
        x == q * c,
    ensures
        x % c == 0,
        x / c == q,
{
    lemma_fundamental_div_mod_converse(x, c, q, 0);
    lemma_mul_is_commutative(q, c);
}

/// `C(n, k)` computed by `C(n, k) = C(n - 1, k - 1) * n / k`, or `None` when
/// it does not fit in a `u32`.
pub fn checked_binom(n: u32, k: u32) -> (r: Option<u32>)
    ensures
        r == if binomial(n as nat, k as nat) <= u32::MAX {
            Some(binomial(n as nat, k as nat) as u32)
        } else {
            None
        },
    decreases k,
{
    proof {
        lemma_boundary(n as nat);
    }
    if k == 0 || k == n {
        Some(1)
    } else if n < k {
        proof {
            lemma_binomial_above(n as nat, k as nat);
        }
        Some(0)
    } else {
        let prev = checked_binom(n - 1, k - 1);
        proof {
            let m = (n - 1) as nat;
            let j = (k - 1) as nat;
            lemma_absorb(n as nat, k as nat);
            lemma_mul_is_commutative(k as int, binomial(n as nat, k as nat) as int);
            lemma_exact_quotient(binomial(m, j) * n, k as int, binomial(n as nat, k as nat) as int);
            assert(binomial(m, j) <= binomial(n as nat, k as nat));
        }
        match prev {
            Some(c) => mul_div_gcd(c, n, k),
            None => None,
        }
    }
}

/// `C(n, k)` computed by `C(n, k) = C(n - 1, k - 1) * n / k`; 0 when `k > n`.
pub fn binom(n: u32, k: u32) -> (r: u32)
    requires
        binomial(n as nat, k as nat) <= u32::MAX,
    ensures
        r == binomial(n as nat, k as nat),
{
    checked_binom(n, k).unwrap()
}

} // verus!
