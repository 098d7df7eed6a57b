//! Elements of the quotient rings `Z_q[x]/(x^n - 1)` and `Z_q[x]/(x^n + 1)`,
//! represented as length-`n` coefficient vectors, with modular addition,
//! subtraction, cyclic and negacyclic multiplication, negation, reduction,
//! infinity norm and randomized constructors.

use vstd::prelude::*;
use vstd::arithmetic::div_mod::{lemma_add_mod_noop_right, lemma_fundamental_div_mod_converse};
use crate::utils::random_below;

verus! {

/// A ring element: `degree` coefficients, constant term first.
#[derive(Debug, Clone, PartialEq)]
pub struct Polynomial {
    pub coefficients: Vec<u64>,
    pub degree: usize,
}

/// Every element of `s` is strictly below `q`.
pub open spec fn coeffs_below(s: Seq<u64>, q: int) -> bool {
    forall|i: int| 0 <= i < s.len() ==> (#[trigger] s[i]) < q
}

/// Sum of the coefficient products `a[i] * b[j]` over the first `p` index
/// pairs `(i, j)` (in row-major order) whose cyclic target `(i + j) % n`
/// is the slot `k`.
pub open spec fn conv_partial(a: Seq<u64>, b: Seq<u64>, k: int, p: nat) -> int
    decreases p,
{
    if p == 0 {
        0
    } else {
        let n = a.len() as int;
        let i = (p - 1) as int / n;
        let j = (p - 1) as int % n;
        conv_partial(a, b, k, (p - 1) as nat) + if (i + j) % n == k {
            a[i] * b[j]
        } else {
            0
        }
    }
}

/// Coefficient `k` of the full cyclic convolution of `a` and `b`:
/// the sum of `a[i] * b[j]` over all pairs with `(i + j) % n == k`.
pub open spec fn cyclic_conv(a: Seq<u64>, b: Seq<u64>, k: int) -> int {
    conv_partial(a, b, k, (a.len() * a.len()) as nat)
}

/// The accumulator state of the negacyclic convolution after the first `p`
/// index pairs `(i, j)` (row-major): a zero product is skipped; otherwise
/// the product is folded into slot `(i + j) % n` modulo `q`, and whenever
/// the unreduced exponent `i + j` wraps past `n - 1` the whole accumulated
/// slot is negated (reduction by `x^n + 1`, since `x^n == -1`).
pub open spec fn nega_state(a: Seq<u64>, b: Seq<u64>, q: int, p: nat) -> Seq<int>
    decreases p,
{
    if p == 0 {
        Seq::new(a.len() as nat, |k: int| 0)
    } else {
        let n = a.len() as int;
        let prev = nega_state(a, b, q, (p - 1) as nat);
        let i = (p - 1) as int / n;
        let j = (p - 1) as int % n;
        if a[i] != 0 && b[j] != 0 {
            let k = (i + j) % n;
            let added = prev.update(k, (prev[k] + a[i] * b[j]) % q);
            if i + j >= n {
                added.update(k, (q - added[k]) % q)
            } else {
                added
            }
        } else {
            prev
        }
    }
}

impl Polynomial {
    /// The coefficient vector has exactly `degree` entries.
    pub open spec fn wf(self) -> bool {
        self.coefficients.len() == self.degree
    }

    /// The zero polynomial of the given degree.
    pub fn new(degree: usize) -> (r: Self)
        ensures
            r.wf(),
            r.degree == degree,
            forall|i: int| 0 <= i < degree ==> #[trigger] r.coefficients@[i] == 0,
    {
        let mut coefficients: Vec<u64> = Vec::new();
        let mut i: usize = 0;
        while i < degree
            invariant
                i <= degree,
                coefficients.len() == i,
                forall|k: int| 0 <= k < i ==> #[trigger] coefficients@[k] == 0,
            decreases degree - i,
        {
            coefficients.push(0u64);
            i += 1;
        }
        Self { coefficients, degree }
    }

    /// Ingests an externally supplied coefficient vector, canonicalizing
    /// every coefficient into `[0, modulus)`.
    pub fn from_coeffs(coeffs: Vec<u64>, modulus: u64) -> (r: Self)
        requires
            modulus >= 1,
        ensures
            r.wf(),
            r.degree == coeffs.len(),
            forall|i: int| 0 <= i < coeffs.len()
                ==> #[trigger] r.coefficients@[i] == (coeffs@[i] as int) % (modulus as int),
            coeffs_below(r.coefficients@, modulus as int),
    {
        let degree = coeffs.len();
        let mut reduced_coeffs = coeffs;
        let mut i: usize = 0;
        while i < reduced_coeffs.len()
            invariant
                i <= reduced_coeffs.len(),
                modulus >= 1,
                reduced_coeffs.len() == coeffs.len(),
                forall|k: int| i <= k < coeffs.len()
                    ==> #[trigger] reduced_coeffs@[k] == coeffs@[k],
                forall|k: int| 0 <= k < i
                    ==> #[trigger] reduced_coeffs@[k] == (coeffs@[k] as int) % (modulus as int),
            decreases reduced_coeffs.len() - i,
        {
            let c = reduced_coeffs[i] % modulus;
            reduced_coeffs.set(i, c);
            i += 1;
        }
        Self { coefficients: reduced_coeffs, degree }
    }

    /// The constant polynomial `value` of the given (positive) degree.
    pub fn constant(value: u64, degree: usize) -> (r: Self)
        requires
            degree >= 1,
        ensures
            r.wf(),
            r.degree == degree,
            r.coefficients@[0] == value,
            forall|i: int| 1 <= i < degree ==> #[trigger] r.coefficients@[i] == 0,
    {
        let mut p = Self::new(degree);
        p.coefficients.set(0, value);
        p
    }

    /// A polynomial whose coefficients are independent uniform residues in
    /// `[0, modulus)`.
    pub fn random_uniform(degree: usize, modulus: u64) -> (r: Self)
        requires
            modulus >= 1,
        ensures
            r.wf(),
            r.degree == degree,
            coeffs_below(r.coefficients@, modulus as int),
    {
        let mut coeffs: Vec<u64> = Vec::new();
        let mut i: usize = 0;
        while i < degree
            invariant
                i <= degree,
                modulus >= 1,
                coeffs.len() == i,
                coeffs_below(coeffs@, modulus as int),
            decreases degree - i,
        {
            let c = random_below(modulus as i128) as u64;
            coeffs.push(c);
            i += 1;
        }
        Self { coefficients: coeffs, degree }
    }

    /// A polynomial whose coefficients are independent uniform bits.
    pub fn random_binary(degree: usize) -> (r: Self)
        ensures
            r.wf(),
            r.degree == degree,
            forall|i: int| 0 <= i < degree
                ==> #[trigger] r.coefficients@[i] == 0 || r.coefficients@[i] == 1,
    {
        let mut coeffs: Vec<u64> = Vec::new();
        let mut i: usize = 0;
        while i < degree
            invariant
                i <= degree,
                coeffs.len() == i,
                forall|k: int| 0 <= k < i
                    ==> #[trigger] coeffs@[k] == 0 || coeffs@[k] == 1,
            decreases degree - i,
        {
            let c = random_below(2) as u64;
            coeffs.push(c);
            i += 1;
        }
        Self { coefficients: coeffs, degree }
    }

    /// Elementwise modular addition of two polynomials of equal degree.
    pub fn add(&self, other: &Polynomial, modulus: u64) -> (r: Polynomial)
        requires
            self.wf(),
            other.wf(),
            self.degree == other.degree,
            modulus >= 1,
        ensures
            r.wf(),
            r.degree == self.degree,
            forall|i: int| 0 <= i < self.degree
                ==> #[trigger] r.coefficients@[i] == (self.coefficients@[i]
                    + other.coefficients@[i]) % (modulus as int),
            coeffs_below(r.coefficients@, modulus as int),
    {
        let mut result: Vec<u64> = Vec::new();
        let mut i: usize = 0;
        while i < self.coefficients.len()
            invariant
                i <= self.coefficients.len(),
                self.wf(),
                other.wf(),
                self.degree == other.degree,
                modulus >= 1,
                result.len() == i,
                forall|k: int| 0 <= k < i
                    ==> #[trigger] result@[k] == (self.coefficients@[k] + other.coefficients@[k])
                        % (modulus as int),
                coeffs_below(result@, modulus as int),
            decreases self.coefficients.len() - i,
        {
            let wide = self.coefficients[i] as u128 + other.coefficients[i] as u128;
            let c = (wide % (modulus as u128)) as u64;
            result.push(c);
            i += 1;
        }
        Polynomial { coefficients: result, degree: self.degree }
    }

    /// Elementwise modular subtraction; `other` must be canonical so the
    /// borrowed form `self[i] + modulus - other[i]` cannot underflow.
    pub fn subtract(&self, other: &Polynomial, modulus: u64) -> (r: Polynomial)
        requires
            self.wf(),
            other.wf(),
            self.degree == other.degree,
            modulus >= 1,
            coeffs_below(other.coefficients@, modulus as int),
        ensures
            r.wf(),
            r.degree == self.degree,
            forall|i: int| 0 <= i < self.degree
                ==> #[trigger] r.coefficients@[i] == (self.coefficients@[i]
                    - other.coefficients@[i]) % (modulus as int),
            coeffs_below(r.coefficients@, modulus as int),
    {
        let mut result: Vec<u64> = Vec::new();
        let mut i: usize = 0;
        while i < self.coefficients.len()
            invariant
                i <= self.coefficients.len(),
                self.wf(),
                other.wf(),
                self.degree == other.degree,
                modulus >= 1,
                coeffs_below(other.coefficients@, modulus as int),
                result.len() == i,
                forall|k: int| 0 <= k < i
                    ==> #[trigger] result@[k] == (self.coefficients@[k] - other.coefficients@[k])
                        % (modulus as int),
                coeffs_below(result@, modulus as int),
            decreases self.coefficients.len() - i,
        {
            let wide = self.coefficients[i] as u128 + modulus as u128 - other.coefficients[i] as u128;
            let c = (wide % (modulus as u128)) as u64;
            proof {
                vstd::arithmetic::div_mod::lemma_mod_add_multiples_vanish(
                    self.coefficients@[i as int] - other.coefficients@[i as int],
                    modulus as int,
                );
            }
            result.push(c);
            i += 1;
        }
        Polynomial { coefficients: result, degree: self.degree }
    }

    /// Cyclic convolution modulo `x^n - 1`: coefficient `k` of the result
    /// is the sum of `a[i] * b[j]` over `(i + j) % n == k`, reduced mod `q`.
    pub fn multiply(&self, other: &Polynomial, modulus: u64) -> (r: Polynomial)
        requires
            self.wf(),
            other.wf(),
            self.degree == other.degree,
            modulus >= 1,
            self.degree <= usize::MAX / 2,
        ensures
            r.wf(),
            r.degree == self.degree,
            forall|k: int| 0 <= k < self.degree
                ==> #[trigger] r.coefficients@[k] == cyclic_conv(self.coefficients@,
                    other.coefficients@, k) % (modulus as int),
            coeffs_below(r.coefficients@, modulus as int),
    {
        let n = self.degree;
        let ghost a = self.coefficients@;
        let ghost b = other.coefficients@;
        let ghost q = modulus as int;
        let mut result = Self::new(n).coefficients;
        proof {
            vstd::arithmetic::div_mod::lemma_small_mod(0nat, modulus as nat);
            assert(forall|k: int| #[trigger] conv_partial(a, b, k, 0nat) % q == 0);
        }
        let mut i: usize = 0;
        while i < n
            invariant
                i <= n,
                self.wf(),
                other.wf(),
                n == self.degree == other.degree <= usize::MAX / 2,
                a == self.coefficients@,
                b == other.coefficients@,
                q == modulus as int >= 1,
                result.len() == n,
                forall|k: int| 0 <= k < n
                    ==> #[trigger] result@[k] == conv_partial(a, b, k, (i * n) as nat) % q,
                coeffs_below(result@, q),
            decreases n - i,
        {
            let mut j: usize = 0;
            while j < n
                invariant
                    j <= n,
                    i < n,
                    self.wf(),
                    other.wf(),
                    n == self.degree == other.degree <= usize::MAX / 2,
                    a == self.coefficients@,
                    b == other.coefficients@,
                    q == modulus as int >= 1,
                    result.len() == n,
                    forall|k: int| 0 <= k < n
                        ==> #[trigger] result@[k] == conv_partial(a, b, k, (i * n + j) as nat) % q,
                    coeffs_below(result@, q),
                decreases n - j,
            {
                let ghost p = i * n + j;
                proof {
                    assert(0 <= p && p + 1 <= n * n) by (nonlinear_arith)
                        requires 0 <= i < n && 0 <= j < n && p == i * n + j,
                    ;
                    lemma_fundamental_div_mod_converse(p as int, n as int, i as int, j as int);
                    assert(p as int / (n as int) == i && p as int % (n as int) == j);
                }
                if self.coefficients[i] != 0 && other.coefficients[j] != 0 {
                    let k = (i + j) % n;
                    proof {
                        assert(a[i as int] * b[j as int] <= (u64::MAX as int) * (u64::MAX as int)
                            && 0 <= a[i as int] * b[j as int])
                            by (nonlinear_arith)
                            requires
                                0 <= a[i as int] <= u64::MAX,
                                0 <= b[j as int] <= u64::MAX,
                        ;
                        assert((u64::MAX as int) * (u64::MAX as int) + (u64::MAX as int)
                            < u128::MAX as int) by (nonlinear_arith);
                    }
                    let product = self.coefficients[i] as u128 * other.coefficients[j] as u128;
                    let current = result[k] as u128 + product;
                    let c = (current % (modulus as u128)) as u64;
                    proof {
                        lemma_add_mod_noop_right(
                            a[i as int] * b[j as int],
                            conv_partial(a, b, k as int, p as nat),
                            q,
                        );
                    }
                    result.set(k, c);
                } else {
                    proof {
                        assert(a[i as int] * b[j as int] == 0);
                    }
                }
                proof {
                    assert(forall|k: int| 0 <= k < n
                        ==> #[trigger] conv_partial(a, b, k, (p + 1) as nat) == conv_partial(
                        a, b, k, p as nat) + if (i + j) % (n as int) == k {
                            a[i as int] * b[j as int]
                        } else {
                            0
                        });
                }
                j += 1;
            }
            proof {
                assert(i * n + n == (i + 1) * n) by (nonlinear_arith);
            }
            i += 1;
        }
        Polynomial { coefficients: result, degree: n }
    }

    /// Negacyclic convolution modulo `x^n + 1`, computed exactly as
    /// `nega_state` describes: products accumulate mod `q` into slot
    /// `(i + j) % n`, and a wrapped pair negates the accumulated slot.
    pub fn negacyclic_multiply(&self, other: &Polynomial, modulus: u64) -> (r: Polynomial)
        requires
            self.wf(),
            other.wf(),
            self.degree == other.degree,
            modulus >= 1,
            self.degree <= usize::MAX / 2,
        ensures
            r.wf(),
            r.degree == self.degree,
            forall|k: int| 0 <= k < self.degree
                ==> #[trigger] r.coefficients@[k] == nega_state(self.coefficients@,
                    other.coefficients@, modulus as int, (self.degree * self.degree) as nat)[k],
            coeffs_below(r.coefficients@, modulus as int),
    {
        let n = self.degree;
        let ghost a = self.coefficients@;
        let ghost b = other.coefficients@;
        let ghost q = modulus as int;
        let mut result = Self::new(n).coefficients;
        proof {
            assert(forall|k: int| 0 <= k < n ==> #[trigger] nega_state(a, b, q, 0)[k] == 0);
        }
        let mut i: usize = 0;
        while i < n
            invariant
                i <= n,
                self.wf(),
                other.wf(),
                n == self.degree == other.degree <= usize::MAX / 2,
                a == self.coefficients@,
                b == other.coefficients@,
                q == modulus as int >= 1,
                result.len() == n,
                nega_state(a, b, q, (i * n) as nat).len() == n,
                forall|k: int| 0 <= k < n
                    ==> #[trigger] result@[k] == nega_state(a, b, q, (i * n) as nat)[k],
                coeffs_below(result@, q),
            decreases n - i,
        {
            let mut j: usize = 0;
            while j < n
                invariant
                    j <= n,
                    i < n,
                    self.wf(),
                    other.wf(),
                    n == self.degree == other.degree <= usize::MAX / 2,
                    a == self.coefficients@,
                    b == other.coefficients@,
                    q == modulus as int >= 1,
                    result.len() == n,
                    nega_state(a, b, q, (i * n + j) as nat).len() == n,
                    forall|k: int| 0 <= k < n
                        ==> #[trigger] result@[k] == nega_state(a, b, q, (i * n + j) as nat)[k],
                    coeffs_below(result@, q),
                decreases n - j,
            {
                let ghost p = i * n + j;
                let ghost prev = nega_state(a, b, q, p as nat);
                proof {
                    assert(0 <= p && p + 1 <= n * n) by (nonlinear_arith)
                        requires 0 <= i < n && 0 <= j < n && p == i * n + j,
                    ;
                    lemma_fundamental_div_mod_converse(p as int, n as int, i as int, j as int);
                    assert(p as int / (n as int) == i && p as int % (n as int) == j);
                }
                if self.coefficients[i] != 0 && other.coefficients[j] != 0 {
                    let k = (i + j) % n;
                    proof {
                        assert(a[i as int] * b[j as int] <= (u64::MAX as int) * (u64::MAX as int)
                            && 0 <= a[i as int] * b[j as int])
                            by (nonlinear_arith)
                            requires
                                0 <= a[i as int] <= u64::MAX,
                                0 <= b[j as int] <= u64::MAX,
                        ;
                        assert((u64::MAX as int) * (u64::MAX as int) + (u64::MAX as int)
                            < u128::MAX as int) by (nonlinear_arith);
                    }
                    let product = self.coefficients[i] as u128 * other.coefficients[j] as u128;
                    let current = result[k] as u128 + product;
                    let c = (current % (modulus as u128)) as u64;
                    result.set(k, c);
                    if i + j >= n {
                        let c2 = (modulus - result[k]) % modulus;
                        result.set(k, c2);
                    }
                    proof {
                        let st = nega_state(a, b, q, (p + 1) as nat);
                        let kt = (i + j) as int % (n as int);
                        assert(kt == k);
                        assert forall|kk: int| 0 <= kk < n implies result@[kk] == st[kk] by {
                            if kk != kt {
                                assert(st[kk] == prev[kk]);
                            }
                        }
                        assert(st.len() == n);
                    }
                } else {
                    proof {
                        assert(nega_state(a, b, q, (p + 1) as nat) == prev);
                    }
                }
                j += 1;
            }
            proof {
                assert(i * n + n == (i + 1) * n) by (nonlinear_arith);
            }
            i += 1;
        }
        Polynomial { coefficients: result, degree: n }
    }

    /// Elementwise additive inverse modulo `q`.
    pub fn negate(&self, modulus: u64) -> (r: Polynomial)
        requires
            self.wf(),
            modulus >= 1,
            coeffs_below(self.coefficients@, modulus as int),
        ensures
            r.wf(),
            r.degree == self.degree,
            forall|i: int| 0 <= i < self.degree
                ==> #[trigger] r.coefficients@[i] == (modulus - self.coefficients@[i]) % (
                modulus as int),
            coeffs_below(r.coefficients@, modulus as int),
    {
        let mut result: Vec<u64> = Vec::new();
        let mut i: usize = 0;
        while i < self.coefficients.len()
            invariant
                i <= self.coefficients.len(),
                self.wf(),
                modulus >= 1,
                coeffs_below(self.coefficients@, modulus as int),
                result.len() == i,
                forall|k: int| 0 <= k < i
                    ==> #[trigger] result@[k] == (modulus - self.coefficients@[k]) % (
                    modulus as int),
                coeffs_below(result@, modulus as int),
            decreases self.coefficients.len() - i,
        {
            let c = (modulus - self.coefficients[i]) % modulus;
            result.push(c);
            i += 1;
        }
        Polynomial { coefficients: result, degree: self.degree }
    }

    /// Re-canonicalizes every coefficient into `[0, modulus)`.
    pub fn mod_reduce(&mut self, modulus: u64)
        requires
            modulus >= 1,
        ensures
            final(self).degree == old(self).degree,
            final(self).coefficients.len() == old(self).coefficients.len(),
            forall|i: int| 0 <= i < old(self).coefficients.len()
                ==> #[trigger] final(self).coefficients@[i] == (old(self).coefficients@[i] as int)
                    % (modulus as int),
            coeffs_below(final(self).coefficients@, modulus as int),
    {
        let mut i: usize = 0;
        while i < self.coefficients.len()
            invariant
                i <= self.coefficients.len(),
                modulus >= 1,
                self.degree == old(self).degree,
                self.coefficients.len() == old(self).coefficients.len(),
                forall|k: int| i <= k < self.coefficients.len()
                    ==> #[trigger] self.coefficients@[k] == old(self).coefficients@[k],
                forall|k: int| 0 <= k < i
                    ==> #[trigger] self.coefficients@[k] == (old(self).coefficients@[k] as int)
                        % (modulus as int),
            decreases self.coefficients.len() - i,
        {
            let c = self.coefficients[i] % modulus;
            self.coefficients.set(i, c);
            i += 1;
        }
    }

    /// Infinity norm: the largest (uncentered) coefficient, `0` if empty.
    pub fn norm(&self) -> (r: u64)
        ensures
            forall|i: int| 0 <= i < self.coefficients.len() ==> #[trigger] self.coefficients@[i]
                <= r,
            r == 0 || exists|i: int| 0 <= i < self.coefficients.len()
                && #[trigger] self.coefficients@[i] == r,
    {
        let mut m: u64 = 0;
        let mut i: usize = 0;
        while i < self.coefficients.len()
            invariant
                i <= self.coefficients.len(),
                forall|k: int| 0 <= k < i ==> #[trigger] self.coefficients@[k] <= m,
                m == 0 || exists|k: int| 0 <= k < i && #[trigger] self.coefficients@[k] == m,
            decreases self.coefficients.len() - i,
        {
            if self.coefficients[i] > m {
                m = self.coefficients[i];
            }
            i += 1;
        }
        m
    }
}

} // verus!
