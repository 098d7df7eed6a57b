//! Public-key encryption from the Learning-With-Errors problem: key
//! generation (`b = A s + e mod q`), probabilistic encryption of a single
//! bit, and threshold decryption by centered reduction.

use vstd::prelude::*;
use vstd::arithmetic::div_mod::{lemma_add_mod_noop, lemma_add_mod_noop_right, lemma_mod_add_multiples_vanish,
    lemma_small_mod};
use crate::arith::{ediv, emod};
use crate::utils::{MAX_MODULUS, add_vec, all_canonical, dot, inner_product_and_add, is_matrix,
    matrix_canonical, matrix_mul_vector, transpose_matrix};

verus! {

/// An LWE secret key: a length-`n` vector of residues mod `q`.
#[derive(Debug, Clone, PartialEq)]
pub struct SecretKey {
    pub s: Vec<i128>,
}

/// An LWE public key: the pair `(A, b)` with `b = A s + e (mod q)`.
#[derive(Debug, Clone, PartialEq)]
pub struct PublicKey {
    pub a: Vec<Vec<i128>>,
    pub b: Vec<i128>,
}

/// A ciphertext for one bit: the pair `(u, v)`, both mod `q`.
#[derive(Debug, Clone, PartialEq)]
pub struct Ciphertext {
    pub u: Vec<i128>,
    pub v: i128,
}

/// Column `j` of the matrix `a`, as a sequence.
pub open spec fn column(a: Seq<Vec<i128>>, j: int) -> Seq<i128> {
    Seq::new(a.len(), |i: int| a[i]@[j])
}

/// The centered representative of a canonical residue: the element of
/// `(-q/2, q/2]` congruent to `val` mod `q`.
pub open spec fn center_spec(val: int, q: int) -> int {
    if val > q / 2 {
        val - q
    } else {
        val
    }
}

/// The public key `(A, b)` is well formed for dimensions `m x n`: `A` is a
/// rectangular `m x n` matrix and `b` a length-`m` vector, all entries
/// canonical residues mod `q`.
pub open spec fn pk_wf(pk: PublicKey, m: int, n: int, q: int) -> bool {
    &&& is_matrix(pk.a@, m, n)
    &&& matrix_canonical(pk.a@, q)
    &&& pk.b@.len() == m
    &&& all_canonical(pk.b@, q)
}

/// Key generation: `b[i] = (A[i] . s + e[i]) mod q`, and `A` is passed
/// through unchanged.
pub fn generate_public_key(a: &Vec<Vec<i128>>, secret_key: &SecretKey, sampled_error: &Vec<i128>,
    q: i128) -> (pk: PublicKey)
    requires
        1 <= q <= MAX_MODULUS,
        is_matrix(a@, a.len() as int, secret_key.s.len() as int),
        matrix_canonical(a@, q as int),
        all_canonical(secret_key.s@, q as int),
        sampled_error.len() == a.len(),
        forall|i: int| 0 <= i < sampled_error.len()
            ==> #[trigger] sampled_error@[i] <= i128::MAX - q,
    ensures
        pk.a.len() == a.len(),
        forall|k: int| 0 <= k < a.len() ==> #[trigger] pk.a@[k]@ == a@[k]@,
        pk.b.len() == a.len(),
        forall|i: int| 0 <= i < a.len()
            ==> #[trigger] pk.b@[i] == (dot(a@[i]@, secret_key.s@) + sampled_error@[i]) % (
            q as int),
        pk_wf(pk, a.len() as int, secret_key.s.len() as int, q as int),
{
    let a_s = matrix_mul_vector(a, &secret_key.s, q);
    let b = add_vec(&a_s, sampled_error, q);
    proof {
        assert forall|i: int| 0 <= i < a.len() implies #[trigger] b@[i] == (dot(a@[i]@,
            secret_key.s@) + sampled_error@[i]) % (q as int) by {
            lemma_add_mod_noop_right(sampled_error@[i] as int, dot(a@[i]@, secret_key.s@), q as int);
        }
    }
    let mut a_copy: Vec<Vec<i128>> = Vec::new();
    let mut i: usize = 0;
    while i < a.len()
        invariant
            i <= a.len(),
            a_copy.len() == i,
            forall|k: int| 0 <= k < i ==> #[trigger] a_copy@[k]@ =~= a@[k]@,
        decreases a.len() - i,
    {
        let mut row: Vec<i128> = Vec::new();
        let mut j: usize = 0;
        while j < a[i].len()
            invariant
                i < a.len(),
                j <= a@[i as int]@.len(),
                row.len() == j,
                forall|k: int| 0 <= k < j ==> #[trigger] row@[k] == a@[i as int]@[k],
            decreases a@[i as int]@.len() - j,
        {
            row.push(a[i][j]);
            j += 1;
        }
        proof {
            assert(row@ =~= a@[i as int]@);
        }
        a_copy.push(row);
        i += 1;
    }
    PublicKey { a: a_copy, b }
}

/// Encryption of one bit with the binary selector `r`:
/// `u = A^T r (mod q)` and `v = (b . r + message * (q/2)) mod q`.
pub fn encrypt(public_key: &PublicKey, r: &Vec<i128>, message: u8, q: i128) -> (c: Ciphertext)
    requires
        2 <= q <= MAX_MODULUS,
        public_key.a.len() >= 1,
        pk_wf(*public_key, public_key.a.len() as int, public_key.a@[0]@.len() as int, q as int),
        r.len() == public_key.a.len(),
        forall|i: int| 0 <= i < r.len() ==> #[trigger] r@[i] == 0 || r@[i] == 1,
        message == 0 || message == 1,
    ensures
        c.u.len() == public_key.a@[0]@.len(),
        forall|j: int| 0 <= j < c.u.len()
            ==> #[trigger] c.u@[j] == dot(column(public_key.a@, j), r@) % (q as int),
        all_canonical(c.u@, q as int),
        c.v == (dot(public_key.b@, r@) + message * ((q as int) / 2)) % (q as int),
        0 <= c.v < q,
{
    let ghost m = public_key.a.len() as int;
    let ghost n = public_key.a@[0]@.len() as int;
    let a_t = transpose_matrix(&public_key.a);
    let u = matrix_mul_vector(&a_t, r, q);
    proof {
        assert forall|j: int| 0 <= j < n implies #[trigger] u@[j] == dot(column(public_key.a@, j),
            r@) % (q as int) by {
            assert(a_t@[j]@ =~= column(public_key.a@, j));
        }
    }
    let b_r = inner_product_and_add(&public_key.b, r, 0, q);
    let half = ediv(q, 2);
    let encoded = (message as i128) * half;
    let v = emod(b_r + encoded, q);
    proof {
        assert(public_key.b@.len() * 0 == 0);
        lemma_add_mod_noop_right(encoded as int, dot(public_key.b@, r@), q as int);
        assert(message * ((q as int) / 2) == encoded as int);
    }
    Ciphertext { u, v }
}

/// The centered representative of a canonical residue `val` mod `q`: maps
/// residues above `q/2` to their negative congruent form, so the result
/// lies in `(-q/2, q/2]` and is congruent to `val` mod `q`.
pub fn center_mod(val: i128, q: i128) -> (r: i128)
    requires
        q >= 1,
        0 <= val < q,
    ensures
        r == center_spec(val as int, q as int),
        (q as int) / 2 - q < r <= (q as int) / 2,
        (r as int) % (q as int) == val as int,
{
    let mid = ediv(q, 2);
    proof {
        lemma_small_mod(val as nat, q as nat);
        if val > mid {
            lemma_mod_add_multiples_vanish(val - q, q as int);
        }
    }
    if val > mid {
        val - q
    } else {
        val
    }
}

/// Column-major double sum: the sum over `j` of
/// `dot(column(a, j), r) * s[j]`, over the first `s.len()` columns.
spec fn colsum(a: Seq<Vec<i128>>, r: Seq<i128>, s: Seq<i128>) -> int
    decreases s.len(),
{
    if s.len() == 0 {
        0
    } else {
        colsum(a, r, s.drop_last()) + dot(column(a, s.len() - 1), r) * s.last()
    }
}

/// Row-major double sum: the sum over `i` of `r[i] * dot(a[i], s)`.
spec fn rowsum(a: Seq<Vec<i128>>, s: Seq<i128>, r: Seq<i128>) -> int
    decreases r.len(),
{
    if r.len() == 0 {
        0
    } else {
        rowsum(a.drop_last(), s, r.drop_last()) + r.last() * dot(a.last()@, s)
    }
}

/// With no rows selected, the column-major sum vanishes.
proof fn lemma_colsum_empty(a: Seq<Vec<i128>>, r: Seq<i128>, s: Seq<i128>)
    requires
        r.len() == 0,
    ensures
        colsum(a, r, s) == 0,
    decreases s.len(),
{
    if s.len() > 0 {
        lemma_colsum_empty(a, r, s.drop_last());
    }
}

/// Peeling the last row out of the column-major sum.
proof fn lemma_colsum_peel(a: Seq<Vec<i128>>, r: Seq<i128>, s: Seq<i128>, n: int)
    requires
        a.len() == r.len() >= 1,
        forall|i: int| 0 <= i < a.len() ==> #[trigger] a[i]@.len() == n,
        s.len() <= n,
    ensures
        colsum(a, r, s) == colsum(a.drop_last(), r.drop_last(), s) + r.last() * dot(
            a.last()@.take(s.len() as int), s),
    decreases s.len(),
{
    let rl = r.last();
    let row = a.last()@;
    if s.len() == 0 {
        assert(dot(row.take(0), s) == 0);
    } else {
        let k = s.len() - 1;
        let sl = s.last();
        lemma_colsum_peel(a, r, s.drop_last(), n);
        assert(column(a, k as int).drop_last() =~= column(a.drop_last(), k as int));
        assert(dot(column(a, k as int), r) == dot(column(a.drop_last(), k as int), r.drop_last())
            + row[k as int] * rl);
        assert(row.take(k + 1).drop_last() =~= row.take(k as int));
        assert(s.drop_last().take(k as int) =~= s.drop_last());
        assert(dot(row.take(k + 1), s) == dot(row.take(k as int), s.drop_last()) + row[k as int]
            * sl);
        let dc = dot(column(a.drop_last(), k as int), r.drop_last());
        assert((dc + row[k as int] * rl) * sl == dc * sl + rl * (row[k as int] * sl))
            by (nonlinear_arith);
        assert(rl * (dot(row.take(k as int), s.drop_last()) + row[k as int] * sl) == rl * dot(
            row.take(k as int), s.drop_last()) + rl * (row[k as int] * sl)) by (nonlinear_arith);
    }
}

/// Exchanging the order of summation: the column-major and row-major
/// double sums agree on a rectangular matrix.
proof fn lemma_colsum_rowsum(a: Seq<Vec<i128>>, r: Seq<i128>, s: Seq<i128>)
    requires
        a.len() == r.len(),
        forall|i: int| 0 <= i < a.len() ==> #[trigger] a[i]@.len() == s.len(),
    ensures
        colsum(a, r, s) == rowsum(a, s, r),
    decreases r.len(),
{
    if r.len() == 0 {
        lemma_colsum_empty(a, r, s);
    } else {
        lemma_colsum_peel(a, r, s, s.len() as int);
        assert(a.last()@.take(s.len() as int) =~= a.last()@);
        lemma_colsum_rowsum(a.drop_last(), r.drop_last(), s);
    }
}

/// The inner product of `b = (A s + e) mod q` with `r` is congruent to
/// `rowsum(a, s, r) + dot(e, r)` mod `q`.
proof fn lemma_dot_b(a: Seq<Vec<i128>>, s: Seq<i128>, e: Seq<i128>, b: Seq<i128>, r: Seq<i128>,
    q: int)
    requires
        q >= 1,
        b.len() == a.len(),
        e.len() == a.len(),
        r.len() == a.len(),
        forall|i: int| 0 <= i < a.len() ==> #[trigger] b[i] == (dot(a[i]@, s) + e[i]) % q,
    ensures
        dot(b, r) % q == (rowsum(a, s, r) + dot(e, r)) % q,
    decreases r.len(),
{
    if r.len() == 0 {
    } else {
        lemma_dot_b(a.drop_last(), s, e.drop_last(), b.drop_last(), r.drop_last(), q);
        let rl = r.last();
        let m = a.len() - 1;
        let x = dot(a.last()@, s) + e.last();
        let w = rowsum(a.drop_last(), s, r.drop_last()) + dot(e.drop_last(), r.drop_last());
        lemma_add_mod_noop(dot(b.drop_last(), r.drop_last()), b.last() * rl, q);
        vstd::arithmetic::div_mod::lemma_mul_mod_noop_left(x, rl as int, q);
        assert((b.last() * rl) % q == (x * rl) % q);
        lemma_add_mod_noop(w, x * rl, q);
        assert(x * rl == dot(a.last()@, s) * rl + e.last() * rl) by (nonlinear_arith)
            requires
                x == dot(a.last()@, s) + e.last(),
        ;
        assert(rl * dot(a.last()@, s) == dot(a.last()@, s) * rl) by (nonlinear_arith);
        assert(w + x * rl == rowsum(a, s, r) + dot(e, r));
        lemma_add_mod_noop(dot(b.drop_last(), r.drop_last()) % q, (b.last() * rl) % q, q);
        vstd::arithmetic::div_mod::lemma_mod_twice(dot(b.drop_last(), r.drop_last()), q);
        vstd::arithmetic::div_mod::lemma_mod_twice(b.last() * rl, q);
    }
}

/// The inner product of `u = (A^T r) mod q` with `s` is congruent to the
/// column-major double sum mod `q`.
proof fn lemma_dot_u(u: Seq<i128>, a: Seq<Vec<i128>>, r: Seq<i128>, s: Seq<i128>, q: int)
    requires
        q >= 1,
        u.len() == s.len(),
        forall|j: int| 0 <= j < u.len() ==> #[trigger] u[j] == dot(column(a, j), r) % q,
    ensures
        dot(u, s) % q == colsum(a, r, s) % q,
    decreases s.len(),
{
    if s.len() == 0 {
    } else {
        lemma_dot_u(u.drop_last(), a, r, s.drop_last(), q);
        let sl = s.last();
        let k = s.len() - 1;
        let y = dot(column(a, k as int), r);
        lemma_add_mod_noop(dot(u.drop_last(), s.drop_last()), u.last() * sl, q);
        vstd::arithmetic::div_mod::lemma_mul_mod_noop_left(y, sl as int, q);
        assert((u.last() * sl) % q == (y * sl) % q);
        lemma_add_mod_noop(colsum(a, r, s.drop_last()), y * sl, q);
        lemma_add_mod_noop(dot(u.drop_last(), s.drop_last()) % q, (u.last() * sl) % q, q);
        vstd::arithmetic::div_mod::lemma_mod_twice(dot(u.drop_last(), s.drop_last()), q);
        vstd::arithmetic::div_mod::lemma_mod_twice(u.last() * sl, q);
    }
}

/// Decoding correctness in the bounded-noise regime. After one
/// encrypt/decrypt round the recovered residue is
/// `(message * (q/2) + noise) mod q`, where `noise` is the inner product
/// of the randomizer and the error vector; whenever the noise magnitude
/// is at most `(q-2)/4`, the threshold classification that `decrypt`
/// applies recovers the encrypted bit.
pub proof fn lemma_threshold_decodes(q: int, noise: int, message: int)
    requires
        q >= 2,
        message == 0 || message == 1,
        -((q - 2) / 4) <= noise <= (q - 2) / 4,
    ensures
        (if -(q / 4) <= center_spec((message * (q / 2) + noise) % q, q) <= q / 4 {
            0int
        } else {
            1int
        }) == message,
{
    let h = q / 2;
    let f = q / 4;
    let g = (q - 2) / 4;
    vstd::arithmetic::div_mod::lemma_fundamental_div_mod(q, 2);
    vstd::arithmetic::div_mod::lemma_mod_bound(q, 2);
    vstd::arithmetic::div_mod::lemma_fundamental_div_mod(q, 4);
    vstd::arithmetic::div_mod::lemma_mod_bound(q, 4);
    vstd::arithmetic::div_mod::lemma_fundamental_div_mod(q - 2, 4);
    vstd::arithmetic::div_mod::lemma_mod_bound(q - 2, 4);
    assert(h - g > f);
    assert(h + g + f < q);
    let t = message * h + noise;
    if message == 0 {
        if noise >= 0 {
            lemma_small_mod(noise as nat, q as nat);
            assert(t % q == noise);
        } else {
            lemma_mod_add_multiples_vanish(noise, q);
            lemma_small_mod((q + noise) as nat, q as nat);
            assert(t % q == q + noise);
            assert(center_spec(t % q, q) == noise);
        }
    } else {
        assert(t == h + noise);
        assert(0 <= t < q);
        lemma_small_mod(t as nat, q as nat);
        assert(t % q == t);
        if t > h {
            assert(center_spec(t % q, q) == t - q);
            assert(t - q < -f);
        } else {
            assert(center_spec(t % q, q) == t);
            assert(t > f);
        }
    }
}

/// LWE round trip in the bounded-noise regime. With `b`, `u` and `v`
/// formed exactly as `generate_public_key` and `encrypt` form them from
/// the matrix `a`, secret `s`, error `e`, binary randomizer `r` and bit
/// `message`, the residue that `decrypt` recovers is congruent to
/// `message * (q/2) + dot(e, r)` mod `q`; when that accumulated noise
/// `dot(e, r)` has magnitude at most `(q-2)/4`, the threshold
/// classification that `decrypt` applies returns `message`.
pub proof fn lemma_lwe_round_trip(a: Seq<Vec<i128>>, s: Seq<i128>, e: Seq<i128>, r: Seq<i128>,
    b: Seq<i128>, u: Seq<i128>, v: i128, q: i128, message: int)
    requires
        q >= 2,
        e.len() == a.len(),
        r.len() == a.len(),
        b.len() == a.len(),
        forall|i: int| 0 <= i < a.len() ==> #[trigger] a[i]@.len() == s.len(),
        u.len() == s.len(),
        message == 0 || message == 1,
        forall|i: int| 0 <= i < a.len() ==> #[trigger] b[i] == (dot(a[i]@, s) + e[i]) % (q as int),
        forall|j: int| 0 <= j < u.len() ==> #[trigger] u[j] == dot(column(a, j), r) % (q as int),
        v == (dot(b, r) + message * ((q as int) / 2)) % (q as int),
        -(((q as int) - 2) / 4) <= dot(e, r) <= ((q as int) - 2) / 4,
    ensures
        (if -((q as int) / 4) <= center_spec((v - dot(u, s)) % (q as int), q as int)
            <= (q as int) / 4 {
            0int
        } else {
            1int
        }) == message,
{
    let qi = q as int;
    let h = qi / 2;
    let db = dot(b, r);
    let du = dot(u, s);
    let de = dot(e, r);
    let rs = rowsum(a, s, r);
    lemma_dot_b(a, s, e, b, r, qi);
    lemma_dot_u(u, a, r, s, qi);
    lemma_colsum_rowsum(a, r, s);
    assert(du % qi == rs % qi);
    assert(db % qi == (rs + de) % qi);
    vstd::arithmetic::div_mod::lemma_sub_mod_noop(db + message * h, du, qi);
    vstd::arithmetic::div_mod::lemma_sub_mod_noop_right(v as int, du, qi);
    assert((v - du) % qi == (v - du % qi) % qi);
    vstd::arithmetic::div_mod::lemma_mod_twice(db + message * h, qi);
    lemma_add_mod_noop(db, message * h, qi);
    lemma_add_mod_noop(rs + de, message * h, qi);
    vstd::arithmetic::div_mod::lemma_mod_twice(db, qi);
    vstd::arithmetic::div_mod::lemma_mod_twice(rs + de, qi);
    assert((db + message * h) % qi == (rs + de + message * h) % qi);
    vstd::arithmetic::div_mod::lemma_sub_mod_noop(rs + de + message * h, rs, qi);
    vstd::arithmetic::div_mod::lemma_mod_twice(rs, qi);
    assert((v - du) % qi == ((rs + de + message * h) - rs) % qi);
    assert((v - du) % qi == (message * h + de) % qi);
    lemma_threshold_decodes(qi, de, message);
}

/// Threshold decryption: recover `t = (v - u . s) mod q`, center it, and
/// decode `0` exactly when the centered value has magnitude at most `q/4`.
pub fn decrypt(ciphertext: &Ciphertext, secret_key: &SecretKey, q: i128) -> (bit: i128)
    requires
        1 <= q <= MAX_MODULUS,
        ciphertext.u.len() == secret_key.s.len(),
        all_canonical(ciphertext.u@, q as int),
        all_canonical(secret_key.s@, q as int),
        0 <= ciphertext.v < q,
    ensures
        bit == 0 || bit == 1,
        bit == (if -((q as int) / 4) <= center_spec((ciphertext.v - dot(ciphertext.u@,
            secret_key.s@)) % (q as int), q as int) <= (q as int) / 4 {
            0int
        } else {
            1int
        }),
{
    let u_s = inner_product_and_add(&ciphertext.u, &secret_key.s, 0, q);
    proof {
        assert(ciphertext.u@.len() * 0 == 0);
        vstd::arithmetic::div_mod::lemma_sub_mod_noop_right(ciphertext.v as int,
            dot(ciphertext.u@, secret_key.s@), q as int);
    }
    let result = emod(ciphertext.v - u_s, q);
    let encoded_message = center_mod(result, q);
    let quarter = ediv(q, 4);
    if -quarter <= encoded_message && encoded_message <= quarter {
        0
    } else {
        1
    }
}

} // verus!
