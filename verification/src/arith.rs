//! Core modular-arithmetic helpers shared by the LWE, polynomial-ring and
//! RNS modules: Euclidean remainder on `i128`, the gcd, and the
//! extended-Euclidean modular inverse.

use vstd::prelude::*;

verus! {

/// Euclidean remainder: the canonical residue of `x` modulo `q`, in `[0, q)`.
///
/// Spec-level `%` in Verus is already Euclidean, so the contract is direct.
pub fn emod(x: i128, q: i128) -> (r: i128)
    requires
        q > 0,
    ensures
        r == x as int % q as int,
        0 <= r < q,
{
    match x.checked_rem_euclid(q) {
        Some(r) => r,
        None => {
            proof {
                assert(false);
            }
            0
        },
    }
}

/// Euclidean quotient of a non-negative `x` by a positive `q`.
pub fn ediv(x: i128, q: i128) -> (r: i128)
    requires
        q > 0,
        x >= 0,
    ensures
        r == x as int / q as int,
        0 <= r <= x,
{
    proof {
        vstd::arithmetic::div_mod::lemma_div_pos_is_pos(x as int, q as int);
        vstd::arithmetic::div_mod::lemma_div_nonincreasing(x as int, q as int);
    }
    match x.checked_div_euclid(q) {
        Some(r) => r,
        None => {
            proof {
                assert(false);
            }
            0
        },
    }
}

/// `d` divides `x`.
pub open spec fn divides(d: int, x: int) -> bool {
    exists|k: int| x == #[trigger] (d * k)
}

/// Greatest common divisor, by the Euclidean recursion.
pub open spec fn gcd(a: nat, b: nat) -> nat
    decreases b,
{
    if b == 0 {
        a
    } else {
        gcd(b, a % b)
    }
}

/// The gcd divides both of its arguments.
pub proof fn lemma_gcd_divides(a: nat, b: nat)
    ensures
        divides(gcd(a, b) as int, a as int),
        divides(gcd(a, b) as int, b as int),
    decreases b,
{
    if b == 0 {
        assert(a as int == gcd(a, b) as int * 1);
        assert(b as int == gcd(a, b) as int * 0);
    } else {
        lemma_gcd_divides(b, a % b);
        let g = gcd(b, a % b) as int;
        let k1 = choose|k: int| b as int == #[trigger] (g * k);
        let k2 = choose|k: int| (a % b) as int == #[trigger] (g * k);
        vstd::arithmetic::div_mod::lemma_fundamental_div_mod(a as int, b as int);
        assert(a as int == g * (k1 * (a as int / b as int) + k2)) by (nonlinear_arith)
            requires
                a as int == (b as int) * (a as int / b as int) + (a % b) as int,
                b as int == g * k1,
                (a % b) as int == g * k2,
        ;
    }
}

/// Bezout coefficients: returns `(s, t)` with `gcd(a, b) == a*s + b*t`.
pub proof fn lemma_bezout(a: nat, b: nat) -> (r: (int, int))
    ensures
        gcd(a, b) == a * r.0 + b * r.1,
    decreases b,
{
    if b == 0 {
        assert(gcd(a, b) == a * 1 + b * 0);
        (1, 0)
    } else {
        let (s2, t2) = lemma_bezout(b, a % b);
        vstd::arithmetic::div_mod::lemma_fundamental_div_mod(a as int, b as int);
        let s = t2;
        let t = s2 - (a as int / b as int) * t2;
        assert(gcd(a, b) == a * s + b * t) by (nonlinear_arith)
            requires
                gcd(a, b) == (b as int) * s2 + ((a % b) as int) * t2,
                a as int == (b as int) * (a as int / b as int) + (a % b) as int,
                s == t2,
                t == s2 - (a as int / b as int) * t2,
        ;
        (s, t)
    }
}

/// A non-negative divisor of 1 is 1.
pub proof fn lemma_divides_one(d: nat)
    requires
        divides(d as int, 1),
    ensures
        d == 1,
{
    let k = choose|k: int| 1int == #[trigger] (d as int * k);
    assert(d == 1) by (nonlinear_arith)
        requires
            1int == d as int * k,
            d as int >= 0,
    ;
}

/// A common divisor divides every integer linear combination.
pub proof fn lemma_divides_linear(d: int, u: int, v: int, x: int, y: int)
    requires
        divides(d, u),
        divides(d, v),
    ensures
        divides(d, u * x + v * y),
{
    let k1 = choose|k: int| u == #[trigger] (d * k);
    let k2 = choose|k: int| v == #[trigger] (d * k);
    assert(u * x + v * y == d * (k1 * x + k2 * y)) by (nonlinear_arith)
        requires
            u == d * k1,
            v == d * k2,
    ;
}

/// Two factors each coprime to `c` have a product coprime to `c`.
pub proof fn lemma_coprime_mul(a: nat, b: nat, c: nat)
    requires
        gcd(a, c) == 1,
        gcd(b, c) == 1,
    ensures
        gcd(a * b, c) == 1,
{
    if c == 0 {
        assert(gcd(a, 0) == a && gcd(b, 0) == b);
        assert(a * b == 1);
    } else {
        let (s1, t1) = lemma_bezout(a, c);
        let (s2, t2) = lemma_bezout(b, c);
        let ai = a as int;
        let bi = b as int;
        let ci = c as int;
        vstd::arithmetic::div_mod::lemma_mod_multiples_vanish(t1, ai * s1, ci);
        assert((ai * s1) % ci == 1int % ci);
        vstd::arithmetic::div_mod::lemma_mod_multiples_vanish(t2, bi * s2, ci);
        assert((bi * s2) % ci == 1int % ci);
        vstd::arithmetic::div_mod::lemma_mul_mod_noop(ai * s1, bi * s2, ci);
        vstd::arithmetic::div_mod::lemma_mul_mod_noop(1, 1, ci);
        assert(((ai * s1) * (bi * s2)) % ci == 1int % ci);
        assert((ai * s1) * (bi * s2) == (ai * bi) * (s1 * s2)) by (nonlinear_arith);
        vstd::arithmetic::div_mod::lemma_mod_equivalence((ai * bi) * (s1 * s2), 1, ci);
        lemma_mod_zero_divides(ci, (ai * bi) * (s1 * s2) - 1);
        let k = choose|k: int| (ai * bi) * (s1 * s2) - 1 == #[trigger] (ci * k);
        lemma_gcd_divides(a * b, c);
        lemma_divides_linear(gcd(a * b, c) as int, (a * b) as int, ci, s1 * s2, -k);
        assert((a * b) as int * (s1 * s2) + ci * (-k) == 1) by (nonlinear_arith)
            requires
                (a * b) as int == ai * bi,
                (ai * bi) * (s1 * s2) - 1 == ci * k,
        ;
        lemma_divides_one(gcd(a * b, c));
    }
}

/// Coprime divisors combine: if `p | d`, `q | d` and `gcd(p, q) == 1`,
/// then `p*q | d`.
pub proof fn lemma_coprime_divides_product(p: nat, q: nat, d: int)
    requires
        divides(p as int, d),
        divides(q as int, d),
        gcd(p, q) == 1,
    ensures
        divides((p * q) as int, d),
{
    let (s, t) = lemma_bezout(p, q);
    let k1 = choose|k: int| d == #[trigger] (p as int * k);
    let k2 = choose|k: int| d == #[trigger] (q as int * k);
    assert(d == (p * q) as int * (s * k2 + t * k1)) by (nonlinear_arith)
        requires
            1 == p as int * s + q as int * t,
            d == p as int * k1,
            d == q as int * k2,
    ;
}

/// A positive `d` with `x % d == 0` divides `x`.
pub proof fn lemma_mod_zero_divides(d: int, x: int)
    requires
        d > 0,
        x % d == 0,
    ensures
        divides(d, x),
{
    vstd::arithmetic::div_mod::lemma_fundamental_div_mod(x, d);
    assert(x == d * (x / d));
}

/// Conversely, a multiple of a positive `d` has remainder 0.
pub proof fn lemma_divides_mod_zero(d: int, x: int)
    requires
        d > 0,
        divides(d, x),
    ensures
        x % d == 0,
{
    let k = choose|k: int| x == #[trigger] (d * k);
    vstd::arithmetic::div_mod::lemma_mod_multiples_basic(k, d);
    assert(x == k * d) by (nonlinear_arith)
        requires
            x == d * k,
    ;
}

} // verus!
