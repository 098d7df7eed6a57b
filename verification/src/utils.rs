//! Vector and matrix helpers over `Z_q`: modular vector addition, inner
//! products, matrix-vector products, transposition, uniform random
//! generation, and a trial-division prime stream for building RNS modulus
//! sets.

use vstd::prelude::*;
use vstd::arithmetic::div_mod::lemma_add_mod_noop;
use crate::arith::{ediv, emod, gcd};
use rand::Rng;

verus! {

/// Largest modulus the library accepts: keeps every product of two
/// canonical residues, plus one more residue, inside `i128`.
pub const MAX_MODULUS: i128 = 0x4000_0000_0000_0000;

/// Mathematical inner product of two integer sequences (over the shorter
/// length if they differ).
pub open spec fn dot(v1: Seq<i128>, v2: Seq<i128>) -> int
    decreases v1.len(),
{
    if v1.len() == 0 || v2.len() == 0 {
        0
    } else {
        dot(v1.drop_last(), v2.drop_last()) + v1.last() * v2.last()
    }
}

/// Every element of `s` is a canonical residue modulo `q`.
pub open spec fn all_canonical(s: Seq<i128>, q: int) -> bool {
    forall|i: int| 0 <= i < s.len() ==> 0 <= #[trigger] s[i] < q
}

/// Elementwise modular addition: `r[i] = (vec_1[i] + vec_2[i]) mod q`.
pub fn add_vec(vec_1: &Vec<i128>, vec_2: &Vec<i128>, q: i128) -> (r: Vec<i128>)
    requires
        q >= 1,
        vec_1.len() == vec_2.len(),
        forall|i: int| 0 <= i < vec_1.len()
            ==> i128::MIN <= #[trigger] (vec_1@[i] + vec_2@[i]) <= i128::MAX,
    ensures
        r.len() == vec_1.len(),
        forall|i: int| 0 <= i < r.len()
            ==> #[trigger] r@[i] == (vec_1@[i] + vec_2@[i]) % (q as int),
        all_canonical(r@, q as int),
{
    let mut resulting_vec: Vec<i128> = Vec::new();
    let mut j: usize = 0;
    while j < vec_1.len()
        invariant
            j <= vec_1.len(),
            vec_1.len() == vec_2.len(),
            q >= 1,
            forall|i: int| 0 <= i < vec_1.len()
                ==> i128::MIN <= #[trigger] (vec_1@[i] + vec_2@[i]) <= i128::MAX,
            resulting_vec.len() == j,
            forall|i: int| 0 <= i < j
                ==> #[trigger] resulting_vec@[i] == (vec_1@[i] + vec_2@[i]) % (q as int),
        decreases vec_1.len() - j,
    {
        let sum = emod(vec_1[j] + vec_2[j], q);
        resulting_vec.push(sum);
        j += 1;
    }
    resulting_vec
}

/// Inner product accumulated modulo `q`, with `s` folded into every term:
/// returns `(dot(vec_1, vec_2) + len * s) mod q`.
pub fn inner_product_and_add(vec_1: &Vec<i128>, vec_2: &Vec<i128>, s: i128, q: i128) -> (r: i128)
    requires
        1 <= q <= MAX_MODULUS,
        vec_1.len() == vec_2.len(),
        all_canonical(vec_1@, q as int),
        all_canonical(vec_2@, q as int),
        0 <= s < q,
    ensures
        r == (dot(vec_1@, vec_2@) + vec_1.len() * s) % (q as int),
        0 <= r < q,
{
    let mut result: i128 = 0;
    let mut j: usize = 0;
    proof {
        assert(vec_1@.take(0) =~= Seq::<i128>::empty());
        assert(vec_2@.take(0) =~= Seq::<i128>::empty());
        assert(dot(vec_1@.take(0), vec_2@.take(0)) == 0);
        vstd::arithmetic::div_mod::lemma_small_mod(0nat, q as nat);
        assert((0 + 0 * s) % (q as int) == 0);
    }
    while j < vec_1.len()
        invariant
            j <= vec_1.len(),
            vec_1.len() == vec_2.len(),
            1 <= q <= MAX_MODULUS,
            0 <= s < q,
            all_canonical(vec_1@, q as int),
            all_canonical(vec_2@, q as int),
            0 <= result < q,
            result == (dot(vec_1@.take(j as int), vec_2@.take(j as int)) + j * s) % (q as int),
        decreases vec_1.len() - j,
    {
        let ghost d_prev = dot(vec_1@.take(j as int), vec_2@.take(j as int));
        let ghost x = vec_1@[j as int] * vec_2@[j as int];
        assert(vec_1@[j as int] * vec_2@[j as int] <= (q - 1) * (q - 1)
            && 0 <= vec_1@[j as int] * vec_2@[j as int]) by (nonlinear_arith)
            requires
                0 <= vec_1@[j as int] < q,
                0 <= vec_2@[j as int] < q,
        ;
        assert((q - 1) * (q - 1) + q <= i128::MAX) by (nonlinear_arith)
            requires
                1 <= q <= MAX_MODULUS,
        ;
        let term = emod(vec_1[j] * vec_2[j] + s, q);
        let acc = emod(result + term, q);
        proof {
            lemma_add_mod_noop(d_prev + (j as int) * s, x + s, q as int);
            assert((j + 1) * s == j * s + s) by (nonlinear_arith);
            assert(vec_1@.take(j + 1).drop_last() =~= vec_1@.take(j as int));
            assert(vec_2@.take(j + 1).drop_last() =~= vec_2@.take(j as int));
            assert(dot(vec_1@.take(j + 1), vec_2@.take(j + 1)) == d_prev + x);
            assert(acc == (dot(vec_1@.take(j + 1), vec_2@.take(j + 1)) + (j + 1) * s) % (
            q as int));
        }
        result = acc;
        j += 1;
    }
    proof {
        assert(vec_1@.take(vec_1.len() as int) =~= vec_1@);
        assert(vec_2@.take(vec_2.len() as int) =~= vec_2@);
    }
    result
}

/// `a` is a rectangular matrix with `m` rows of length `n`.
pub open spec fn is_matrix(a: Seq<Vec<i128>>, m: int, n: int) -> bool {
    a.len() == m && forall|i: int| 0 <= i < m ==> #[trigger] a[i]@.len() == n
}

/// Every entry of the matrix `a` is a canonical residue modulo `q`.
pub open spec fn matrix_canonical(a: Seq<Vec<i128>>, q: int) -> bool {
    forall|i: int| 0 <= i < a.len() ==> all_canonical(#[trigger] a[i]@, q)
}

/// Matrix-vector product over `Z_q`: `r[i] = dot(a[i], v) mod q`.
pub fn matrix_mul_vector(a: &Vec<Vec<i128>>, v: &Vec<i128>, q: i128) -> (r: Vec<i128>)
    requires
        1 <= q <= MAX_MODULUS,
        is_matrix(a@, a.len() as int, v.len() as int),
        matrix_canonical(a@, q as int),
        all_canonical(v@, q as int),
    ensures
        r.len() == a.len(),
        forall|i: int| 0 <= i < r.len() ==> #[trigger] r@[i] == dot(a@[i]@, v@) % (q as int),
        all_canonical(r@, q as int),
{
    let mut r: Vec<i128> = Vec::new();
    let mut i: usize = 0;
    while i < a.len()
        invariant
            i <= a.len(),
            1 <= q <= MAX_MODULUS,
            is_matrix(a@, a.len() as int, v.len() as int),
            matrix_canonical(a@, q as int),
            all_canonical(v@, q as int),
            r.len() == i,
            forall|k: int| 0 <= k < i ==> #[trigger] r@[k] == dot(a@[k]@, v@) % (q as int),
            all_canonical(r@, q as int),
        decreases a.len() - i,
    {
        let e = inner_product_and_add(&a[i], v, 0, q);
        proof {
            assert(a@[i as int]@.len() * 0 == 0);
        }
        r.push(e);
        i += 1;
    }
    r
}

/// Transpose of a non-empty rectangular matrix.
pub fn transpose_matrix(a: &Vec<Vec<i128>>) -> (r: Vec<Vec<i128>>)
    requires
        a.len() >= 1,
        is_matrix(a@, a.len() as int, a@[0]@.len() as int),
    ensures
        is_matrix(r@, a@[0]@.len() as int, a.len() as int),
        forall|i: int, j: int| 0 <= i < a.len() && 0 <= j < a@[0]@.len()
            ==> #[trigger] r@[j]@[i] == a@[i]@[j],
{
    let n = a[0].len();
    let m = a.len();
    let mut r: Vec<Vec<i128>> = Vec::new();
    let mut j: usize = 0;
    while j < n
        invariant
            j <= n,
            m == a.len() >= 1,
            is_matrix(a@, m as int, n as int),
            r.len() == j,
            forall|jj: int| 0 <= jj < j ==> #[trigger] r@[jj]@.len() == m,
            forall|i: int, jj: int| 0 <= i < m && 0 <= jj < j ==> #[trigger] r@[jj]@[i] == a@[i]@[jj],
        decreases n - j,
    {
        let mut col: Vec<i128> = Vec::new();
        let mut i: usize = 0;
        while i < m
            invariant
                i <= m,
                j < n,
                m == a.len(),
                is_matrix(a@, m as int, n as int),
                col.len() == i,
                forall|ii: int| 0 <= ii < i ==> #[trigger] col@[ii] == a@[ii]@[j as int],
            decreases m - i,
        {
            let e = a[i][j];
            col.push(e);
            i += 1;
        }
        r.push(col);
        j += 1;
    }
    r
}

/// Modular inverse by the extended Euclidean algorithm: returns `Some(x)`
/// with `(a * x) % m == 1` exactly when `gcd(a, m) == 1`, and `None`
/// exactly when `gcd(a, m) != 1`.
pub fn mod_inv(a: i128, m: i128) -> (r: Option<i128>)
    requires
        0 <= a,
        2 <= m <= MAX_MODULUS,
    ensures
        (r is Some) <==> gcd(a as nat, m as nat) == 1,
        r matches Some(x) ==> 0 <= x < m && (a as int * x) % (m as int) == 1,
{
    let a0 = emod(a, m);
    proof {
        vstd::arithmetic::div_mod::lemma_small_mod(a0 as nat, m as nat);
        assert(gcd(a as nat, m as nat) == gcd(m as nat, a0 as nat));
        vstd::arithmetic::div_mod::lemma_small_mod(1nat, m as nat);
        vstd::arithmetic::div_mod::lemma_small_mod(0nat, m as nat);
    }
    let mut old_r = a0;
    let mut r = m;
    let mut old_sm: i128 = 1;
    let mut sm: i128 = 0;
    let ghost mut s_old: int = 1;
    let ghost mut s_cur: int = 0;
    let ghost mut t_old: int = 0;
    let ghost mut t_cur: int = 1;
    proof {
        assert(gcd(a0 as nat, m as nat) == gcd(m as nat, a0 as nat));
    }
    while r != 0
        invariant
            2 <= m <= MAX_MODULUS,
            0 <= r <= m,
            0 <= old_r <= m,
            gcd(old_r as nat, r as nat) == gcd(a as nat, m as nat),
            old_r == a0 * s_old + m * t_old,
            r == a0 * s_cur + m * t_cur,
            old_sm == s_old % (m as int),
            sm == s_cur % (m as int),
            0 <= old_sm < m,
            0 <= sm < m,
        decreases r,
    {
        let q = ediv(old_r, r);
        let new_r = emod(old_r, r);
        proof {
            assert(0 <= q * sm <= m * m && m * m + m < i128::MAX) by (nonlinear_arith)
                requires
                    0 <= q <= m,
                    0 <= sm < m,
                    2 <= m <= MAX_MODULUS,
            ;
        }
        let new_sm = emod(old_sm - q * sm, m);
        let ghost s_new = s_old - q * s_cur;
        let ghost t_new = t_old - q * t_cur;
        proof {
            let mi = m as int;
            vstd::arithmetic::div_mod::lemma_fundamental_div_mod(old_r as int, r as int);
            assert(new_r == old_r - q * r);
            assert(new_r == a0 * s_new + m * t_new) by (nonlinear_arith)
                requires
                    old_r == a0 * s_old + m * t_old,
                    r == a0 * s_cur + m * t_cur,
                    new_r == old_r - q * r,
                    s_new == s_old - q * s_cur,
                    t_new == t_old - q * t_cur,
            ;
            vstd::arithmetic::div_mod::lemma_mul_mod_noop_right(q as int, s_cur, mi);
            assert((q * sm) % mi == (q * s_cur) % mi);
            vstd::arithmetic::div_mod::lemma_sub_mod_noop_right(old_sm as int, q * sm, mi);
            vstd::arithmetic::div_mod::lemma_sub_mod_noop_right(old_sm as int, q * s_cur, mi);
            assert((old_sm - q * sm) % mi == (old_sm - q * s_cur) % mi);
            vstd::arithmetic::div_mod::lemma_sub_mod_noop(s_old, q * s_cur, mi);
            vstd::arithmetic::div_mod::lemma_mod_twice(q * s_cur, mi);
            assert((old_sm - (q * s_cur) % mi) % mi == (s_old - q * s_cur) % mi);
            assert(new_sm == s_new % mi);
        }
        old_r = r;
        r = new_r;
        old_sm = sm;
        sm = new_sm;
        proof {
            s_old = s_cur;
            s_cur = s_new;
            t_old = t_cur;
            t_cur = t_new;
        }
    }
    if old_r == 1 {
        proof {
            let mi = m as int;
            vstd::arithmetic::div_mod::lemma_mod_multiples_vanish(t_old, a0 * s_old, mi);
            assert((a0 * s_old) % mi == 1int % mi);
            vstd::arithmetic::div_mod::lemma_mul_mod_noop_right(a0 as int, s_old, mi);
            assert((a0 * old_sm) % mi == (a0 * s_old) % mi);
            vstd::arithmetic::div_mod::lemma_mul_mod_noop_left(a as int, old_sm as int, mi);
            assert((a as int * old_sm) % mi == 1);
        }
        Some(old_sm)
    } else {
        None
    }
}

/// `n` is prime: at least 2, with no divisor strictly between 1 and `n`.
pub open spec fn is_prime(n: int) -> bool {
    n >= 2 && forall|d: int| 2 <= d < n ==> #[trigger] (n % d) != 0
}

/// No prime lies in `[lo, hi)`.
pub open spec fn no_primes_between(lo: int, hi: int) -> bool {
    forall|p: int| lo <= p < hi ==> !#[trigger] is_prime(p)
}

/// Candidates above this bound are never tried by the prime stream.
pub const PRIME_SEARCH_LIMIT: i128 = 0x8000_0000;

/// Trial division primality test.
fn is_prime_exec(n: i128) -> (r: bool)
    requires
        n >= 2,
    ensures
        r == is_prime(n as int),
{
    let mut d: i128 = 2;
    while d < n
        invariant
            2 <= d,
            n >= 2,
            forall|t: int| 2 <= t < d ==> #[trigger] ((n as int) % t) != 0,
        decreases n - d,
    {
        if emod(n, d) == 0 {
            return false;
        }
        d += 1;
    }
    true
}

/// The first `k` primes, in increasing order, by trial division. The
/// search stops at `PRIME_SEARCH_LIMIT`, so for any `k` beyond the count
/// of primes below that bound the stream comes back short.
pub fn generate_primes(k: usize) -> (r: Vec<i128>)
    ensures
        r.len() <= k,
        forall|i: int| 0 <= i < r.len() ==> is_prime(#[trigger] r@[i] as int),
        forall|i: int| 0 <= i < r.len() ==> 2 <= #[trigger] r@[i] < PRIME_SEARCH_LIMIT,
        forall|i: int| 0 <= i < r.len() - 1 ==> #[trigger] r@[i] < r@[i + 1],
        forall|i: int, p: int| #![trigger r@[i], is_prime(p)] 0 <= i < r.len() - 1 && r@[i] < p
            < r@[i + 1] ==> !is_prime(p),
        r.len() > 0 ==> no_primes_between(0, r@[0] as int),
        r.len() < k ==> no_primes_between(
            if r.len() == 0 { 0int } else { r@[r.len() - 1] as int + 1 },
            PRIME_SEARCH_LIMIT as int,
        ),
{
    let mut primes: Vec<i128> = Vec::new();
    let mut c: i128 = 2;
    while primes.len() < k && c < PRIME_SEARCH_LIMIT
        invariant
            primes.len() <= k,
            2 <= c <= PRIME_SEARCH_LIMIT,
            forall|i: int| 0 <= i < primes.len() ==> is_prime(#[trigger] primes@[i] as int),
            forall|i: int| 0 <= i < primes.len() ==> 2 <= #[trigger] primes@[i] < c,
            forall|i: int| 0 <= i < primes.len() - 1 ==> #[trigger] primes@[i] < primes@[i + 1],
            forall|i: int, p: int| #![trigger primes@[i], is_prime(p)] 0 <= i < primes.len() - 1
                && primes@[i] < p < primes@[i + 1] ==> !is_prime(p),
            primes.len() > 0 ==> no_primes_between(0, primes@[0] as int),
            no_primes_between(
                if primes.len() == 0 { 0int } else { primes@[primes.len() - 1] as int + 1 },
                c as int,
            ),
        decreases PRIME_SEARCH_LIMIT - c,
    {
        if is_prime_exec(c) {
            primes.push(c);
        } else {
            proof {
                assert(!is_prime(c as int));
            }
        }
        c += 1;
    }
    primes
}

/// Relies on rand's `Rng::random_range` on `rand::rng()`: returns a value
/// uniformly distributed in the given non-empty range.
#[verifier::external_body]
pub(crate) fn random_below(bound: i128) -> (r: i128)
    requires
        bound >= 1,
    ensures
        0 <= r < bound,
{
    rand::rng().random_range(0..bound)
}

/// A vector of `n` independent uniform residues in `[0, q)`.
pub fn generate_random_vector(n: usize, q: i128) -> (r: Vec<i128>)
    requires
        q >= 1,
    ensures
        r.len() == n,
        all_canonical(r@, q as int),
{
    let mut secret_key: Vec<i128> = Vec::new();
    let mut i: usize = 0;
    while i < n
        invariant
            i <= n,
            q >= 1,
            secret_key.len() == i,
            all_canonical(secret_key@, q as int),
        decreases n - i,
    {
        secret_key.push(random_below(q));
        i += 1;
    }
    secret_key
}

/// An `m x n` matrix of independent uniform residues in `[0, q)`.
pub fn generate_random_matrix(m: usize, n: usize, q: i128) -> (r: Vec<Vec<i128>>)
    requires
        q >= 1,
    ensures
        is_matrix(r@, m as int, n as int),
        matrix_canonical(r@, q as int),
{
    let mut matrix: Vec<Vec<i128>> = Vec::new();
    let mut i: usize = 0;
    while i < m
        invariant
            i <= m,
            q >= 1,
            matrix.len() == i,
            forall|k: int| 0 <= k < i ==> #[trigger] matrix@[k]@.len() == n,
            matrix_canonical(matrix@, q as int),
        decreases m - i,
    {
        let row = generate_random_vector(n, q);
        matrix.push(row);
        i += 1;
    }
    matrix
}

/// A vector of `n` independent uniform bits, each `0` or `1`.
pub fn generate_random_bit_vector(n: usize) -> (r: Vec<i128>)
    ensures
        r.len() == n,
        forall|i: int| 0 <= i < n ==> #[trigger] r@[i] == 0 || r@[i] == 1,
{
    let mut bits: Vec<i128> = Vec::new();
    let mut i: usize = 0;
    while i < n
        invariant
            i <= n,
            bits.len() == i,
            forall|k: int| 0 <= k < i ==> #[trigger] bits@[k] == 0 || bits@[k] == 1,
        decreases n - i,
    {
        bits.push(random_below(2));
        i += 1;
    }
    bits
}

} // verus!
