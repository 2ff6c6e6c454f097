//! The arithmetic kernel: Euclid's gcd and a multiply-then-divide that cancels
//! common factors first, so that the intermediate product stays as small as
//! the exact quotient.
use vstd::prelude::*;
use vstd::arithmetic::div_mod::*;
use vstd::arithmetic::mul::*;

verus! {

/// Greatest common divisor, by Euclid's recurrence.
pub open spec fn gcd_spec(u: nat, v: nat) -> nat
    decreases v,
{
    if v == 0 {
        u
    } else {
        gcd_spec(v, u % v)
    }
}

/// `d` is a positive divisor of `x`.
pub open spec fn divides(d: nat, x: nat) -> bool {
    d > 0 && x % d == 0
}

proof fn lemma_divides_intro(d: nat, x: nat, q: nat)
    requires
        d > 0,
        x == q * d,
    ensures
        divides(d, x),
        x / d == q,
{
    lemma_mod_multiples_basic(q as int, d as int);
    lemma_fundamental_div_mod_converse(x as int, d as int, q as int, 0);
}

proof fn lemma_divides_elim(d: nat, x: nat)
    requires
        divides(d, x),
    ensures
        x == (x / d) * d,
{
    lemma_fundamental_div_mod(x as int, d as int);
    lemma_mul_is_commutative(d as int, (x / d) as int);
}

/// A positive divisor of 1 is 1.
proof fn lemma_divides_one(d: nat)
    requires
        divides(d, 1),
    ensures
        d == 1,
{
    if d > 1 {
        lemma_small_mod(1, d);
    }
}

/// The gcd of a positive number and another divides both and is positive.
proof fn lemma_gcd_divides(u: nat, v: nat)
    requires
        u > 0,
    ensures
        divides(gcd_spec(u, v), u),
        divides(gcd_spec(u, v), v),
    decreases v,
{
    if v == 0 {
        lemma_mod_self_0(u as int);
        lemma_small_mod(0, u);
    } else {
        let r = u % v;
        lemma_gcd_divides(v, r);
        let g = gcd_spec(u, v);
        lemma_divides_elim(g, v);
        lemma_divides_elim(g, r);
        let p = v / g;
        let q = r / g;
        lemma_fundamental_div_mod(u as int, v as int);
        let m = u / v;
        assert(u == (p * m + q) * g) by (nonlinear_arith)
            requires
                u == v * m + r,
                v == p * g,
                r == q * g,
        ;
        lemma_divides_intro(g, u, p * m + q);
    }
}

/// Every common divisor of `u` and `v` divides their gcd.
proof fn lemma_common_divisor_divides_gcd(u: nat, v: nat, d: nat)
    requires
        divides(d, u),
        divides(d, v),
    ensures
        divides(d, gcd_spec(u, v)),
    decreases v,
{
    if v > 0 {
        let r = u % v;
        lemma_divides_elim(d, u);
        lemma_divides_elim(d, v);
        lemma_fundamental_div_mod(u as int, v as int);
        let m = u / v;
        let a = u / d;
        let b = v / d;
        assert(r == (a - b * m) * d) by (nonlinear_arith)
            requires
                u == v * m + r,
                u == a * d,
                v == b * d,
        ;
        assert(a - b * m >= 0) by (nonlinear_arith)
            requires
                r == (a - b * m) * d,
                r >= 0,
                d > 0,
        ;
        lemma_divides_intro(d, r, (a - b * m) as nat);
        lemma_common_divisor_divides_gcd(v, r, d);
    }
}

/// A common factor comes out of the gcd: `gcd(m*u, m*v) == m * gcd(u, v)`.
proof fn lemma_gcd_scale(u: nat, v: nat, m: nat)
    requires
        m > 0,
    ensures
        gcd_spec(m * u, m * v) == m * gcd_spec(u, v),
    decreases v,
{
    if v == 0 {
        assert(m * v == 0) by (nonlinear_arith)
            requires
                v == 0,
        ;
    } else {
        assert(m * v > 0) by (nonlinear_arith)
            requires
                m > 0,
                v > 0,
        ;
        lemma_truncate_middle(u as int, m as int, v as int);
        lemma_gcd_scale(v, u % v, m);
    }
}

/// After dividing both by their gcd, two numbers have gcd 1.
proof fn lemma_reduced_coprime(u: nat, v: nat)
    requires
        u > 0,
    ensures
        gcd_spec(u / gcd_spec(u, v), v / gcd_spec(u, v)) == 1,
{
    let g = gcd_spec(u, v);
    lemma_gcd_divides(u, v);
    lemma_divides_elim(g, u);
    lemma_divides_elim(g, v);
    let u1 = u / g;
    let v1 = v / g;
    lemma_gcd_scale(u1, v1, g);
    lemma_mul_is_commutative(g as int, u1 as int);
    lemma_mul_is_commutative(g as int, v1 as int);
    let h = gcd_spec(u1, v1);
    assert(h == 1) by (nonlinear_arith)
        requires
            g == g * h,
            g > 0,
    ;
}

/// A number coprime to `c` is coprime to every divisor of `c`.
proof fn lemma_coprime_to_divisor(a: nat, c: nat, d: nat)
    requires
        a > 0,
        gcd_spec(a, c) == 1,
        divides(d, c),
    ensures
        gcd_spec(a, d) == 1,
{
    let h = gcd_spec(a, d);
    lemma_gcd_divides(a, d);
    lemma_divides_elim(h, d);
    lemma_divides_elim(d, c);
    let x = d / h;
    let y = c / d;
    lemma_mul_is_associative(x as int, h as int, y as int);
    lemma_mul_is_commutative(h as int, y as int);
    lemma_mul_is_associative(x as int, y as int, h as int);
    lemma_divides_intro(h, c, x * y);
    lemma_common_divisor_divides_gcd(a, c, h);
    lemma_divides_one(h);
}

/// Euclid's lemma: a divisor of `a * b` that is coprime to `a` divides `b`.
proof fn lemma_euclid(a: nat, b: nat, d: nat)
    requires
        divides(d, a * b),
        gcd_spec(a, d) == 1,
        a > 0,
        b > 0,
    ensures
        divides(d, b),
{
    lemma_gcd_scale(a, d, b);
    lemma_mul_is_commutative(a as int, b as int);
    lemma_mul_is_commutative(d as int, b as int);
    lemma_divides_intro(d, b * d, b);
    lemma_common_divisor_divides_gcd(b * a, b * d, d);
}

/// Once `a` and `c`, then `b` and what is left of `c`, are divided by their
/// gcd, nothing is left of `c` when `c` divides `a * b`.
proof fn lemma_reduced_divisor(a: nat, b: nat, c: nat)
    requires
        a > 0,
        b > 0,
        divides(c, a * b),
    ensures
        ({
            let g1 = gcd_spec(a, c);
            let c1 = c / g1;
            let g2 = gcd_spec(b, c1);
            &&& divides(g1, a) && divides(g1, c)
            &&& divides(g2, b) && divides(g2, c1)
            &&& c1 / g2 == 1
            &&& (a / g1) * (b / g2) == a * b / c
        }),
{
    let g1 = gcd_spec(a, c);
    lemma_gcd_divides(a, c);
    lemma_divides_elim(g1, a);
    lemma_divides_elim(g1, c);
    let a1 = a / g1;
    let c1 = c / g1;
    assert(a1 > 0 && c1 > 0) by (nonlinear_arith)
        requires
            a == a1 * g1,
            c == c1 * g1,
            a > 0,
            c > 0,
    ;
    let g2 = gcd_spec(b, c1);
    lemma_gcd_divides(b, c1);
    lemma_divides_elim(g2, b);
    lemma_divides_elim(g2, c1);
    let b1 = b / g2;
    let c2 = c1 / g2;
    assert(b1 > 0 && c2 > 0) by (nonlinear_arith)
        requires
            b == b1 * g2,
            c1 == c2 * g2,
            b > 0,
            c1 > 0,
    ;
    lemma_divides_elim(c, a * b);
    let q = a * b / c;
    assert(a1 * b1 == q * c2) by (nonlinear_arith)
        requires
            a * b == q * c,
            a == a1 * g1,
            c == c1 * g1,
            b == b1 * g2,
            c1 == c2 * g2,
            g1 > 0,
            g2 > 0,
    ;
    lemma_divides_intro(c2, a1 * b1, q);
    lemma_reduced_coprime(a, c);
    lemma_divides_intro(c2, c1, g2);
    lemma_coprime_to_divisor(a1, c1, c2);
    lemma_euclid(a1, b1, c2);
    lemma_reduced_coprime(b, c1);
    lemma_mod_self_0(c2 as int);
    lemma_common_divisor_divides_gcd(b1, c2, c2);
    lemma_divides_one(c2);
}

/// Greatest common divisor of `u` and `v`, except that 1 comes back when
/// either is 0: the result only ever serves as a divisor.
pub fn gcd(u: u32, v: u32) -> (r: u32)
    ensures
        r == if u == 0 || v == 0 {
            1
        } else {
            gcd_spec(u as nat, v as nat)
        },
{
    if u == 0 || v == 0 {
        return 1;
    }
    let mut a: u32 = u;
    let mut b: u32 = v;
    while b > 0
        invariant
            gcd_spec(a as nat, b as nat) == gcd_spec(u as nat, v as nat),
        decreases b,
    {
        let t: u32 = a;
        a = b;
        b = t % b;
    }
    a
}

/// `a * b / c`, for a `c` that divides `a * b` exactly, or `None` when that
/// quotient does not fit in a `u32` or `c` is 0. The factors that `c` shares
/// with `a`, then with `b`, are cancelled before multiplying.
pub fn mul_div_gcd(a: u32, b: u32, c: u32) -> (r: Option<u32>)
    requires
        c > 0 ==> (a * b) % (c as int) == 0,
    ensures
        r == if c > 0 && a * b / (c as int) <= u32::MAX {
            Some((a * b / (c as int)) as u32)
        } else {
            None
        },
{
    let g1 = gcd(a, c);
    proof {
        if a > 0 && c > 0 {
            lemma_gcd_divides(a as nat, c as nat);
        }
    }
    let a1 = a / g1;
    let c1 = c / g1;
    let g2 = gcd(b, c1);
    proof {
        if b > 0 && c1 > 0 {
            lemma_gcd_divides(b as nat, c1 as nat);
        }
    }
    let b1 = b / g2;
    let c2 = c1 / g2;
    proof {
        if c > 0 {
            if a > 0 && b > 0 {
                lemma_reduced_divisor(a as nat, b as nat, c as nat);
            } else {
                assert(a * b == 0) by (nonlinear_arith)
                    requires
                        a == 0 || b == 0,
                ;
                assert(a1 * b1 == 0) by (nonlinear_arith)
                    requires
                        a1 == 0 || b1 == 0,
                ;
                assert(c1 > 0) by {
                    if a > 0 {
                        lemma_divides_elim(g1 as nat, c as nat);
                        lemma_mul_by_zero_is_zero(g1 as int);
                    }
                }
                assert(c2 > 0) by {
                    if b > 0 {
                        lemma_divides_elim(g2 as nat, c1 as nat);
                        lemma_mul_by_zero_is_zero(g2 as int);
                    }
                }
            }
        }
    }
    match a1.checked_mul(b1) {
        Some(ab) => ab.checked_div(c2),
        None => None,
    }
}

} // verus!
