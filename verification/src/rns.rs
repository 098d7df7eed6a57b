//! Residue number system: an integer `x` in `[0, Q)`, `Q` the product of
//! pairwise-coprime moduli, carried as its vector of residues; forward
//! decomposition, componentwise arithmetic, and Chinese-remainder
//! reconstruction.

use vstd::prelude::*;
use vstd::arithmetic::div_mod::{lemma_add_mod_noop, lemma_mod_bound, lemma_mod_mod,
    lemma_mod_twice, lemma_mul_mod_noop, lemma_mul_mod_noop_right, lemma_small_mod,
    lemma_sub_mod_noop};
use crate::arith::{divides, ediv, emod, gcd, lemma_coprime_divides_product, lemma_coprime_mul,
    lemma_divides_mod_zero};
use crate::utils::{MAX_MODULUS, mod_inv};

verus! {

/// An integer held as residues: `residues[i] == x mod moduli[i]`.
#[derive(Debug, Clone, PartialEq)]
pub struct RnsValue {
    pub residues: Vec<i128>,
    pub moduli: Vec<i128>,
}

/// Product of the elements of `s`.
pub open spec fn prod(s: Seq<i128>) -> int
    decreases s.len(),
{
    if s.len() == 0 {
        1
    } else {
        s[0] * prod(s.drop_first())
    }
}

/// Every element is at least 1.
pub open spec fn all_positive(s: Seq<i128>) -> bool {
    forall|i: int| 0 <= i < s.len() ==> #[trigger] s[i] >= 1
}

/// The elements are pairwise coprime.
pub open spec fn pairwise_coprime(s: Seq<i128>) -> bool {
    forall|i: int, j: int| 0 <= i < s.len() && 0 <= j < s.len() && i != j
        ==> gcd(#[trigger] s[i] as nat, #[trigger] s[j] as nat) == 1
}

/// The residues are componentwise canonical for their moduli.
pub open spec fn residues_canonical(r: Seq<i128>, m: Seq<i128>) -> bool {
    forall|i: int| 0 <= i < r.len() ==> 0 <= #[trigger] r[i] < m[i]
}

/// A product of elements at least 1 is at least 1.
pub proof fn lemma_prod_pos(s: Seq<i128>)
    requires
        all_positive(s),
    ensures
        prod(s) >= 1,
    decreases s.len(),
{
    if s.len() > 0 {
        lemma_prod_pos(s.drop_first());
        assert(s[0] * prod(s.drop_first()) >= 1) by (nonlinear_arith)
            requires
                s[0] >= 1,
                prod(s.drop_first()) >= 1,
        ;
    }
}

/// The product distributes over concatenation.
pub proof fn lemma_prod_add(s1: Seq<i128>, s2: Seq<i128>)
    ensures
        prod(s1 + s2) == prod(s1) * prod(s2),
    decreases s1.len(),
{
    if s1.len() == 0 {
        assert(s1 + s2 =~= s2);
    } else {
        assert((s1 + s2).drop_first() =~= s1.drop_first() + s2);
        lemma_prod_add(s1.drop_first(), s2);
        assert(s1[0] * (prod(s1.drop_first()) * prod(s2)) == (s1[0] * prod(s1.drop_first()))
            * prod(s2)) by (nonlinear_arith);
    }
}

/// Removing element `i` divides the product by it:
/// `prod(s) == s[i] * prod(s.remove(i))`.
pub proof fn lemma_prod_remove(s: Seq<i128>, i: int)
    requires
        0 <= i < s.len(),
    ensures
        prod(s) == s[i] * prod(s.remove(i)),
{
    assert(s =~= s.take(i) + s.skip(i));
    lemma_prod_add(s.take(i), s.skip(i));
    assert(s.skip(i).drop_first() =~= s.skip(i + 1));
    assert(s.skip(i)[0] == s[i]);
    assert(prod(s.skip(i)) == s[i] * prod(s.skip(i + 1)));
    assert(s.remove(i) =~= s.take(i) + s.skip(i + 1));
    lemma_prod_add(s.take(i), s.skip(i + 1));
    assert(prod(s) == prod(s.take(i)) * (s[i] * prod(s.skip(i + 1))));
    assert(prod(s.take(i)) * (s[i] * prod(s.skip(i + 1))) == s[i] * (prod(s.take(i)) * prod(
    s.skip(i + 1)))) by (nonlinear_arith);
}

/// Each element divides the product.
pub proof fn lemma_elem_divides_prod(s: Seq<i128>, j: int)
    requires
        0 <= j < s.len(),
    ensures
        divides(s[j] as int, prod(s)),
{
    lemma_prod_remove(s, j);
    assert(prod(s) == s[j] * prod(s.remove(j)));
}

/// `gcd(1, c) == 1`.
pub proof fn lemma_gcd_one(c: nat)
    ensures
        gcd(1, c) == 1,
{
    assert(gcd(1, 0) == 1);
    if c == 1 {
        assert(1nat % 1nat == 0);
        assert(gcd(1, 1) == gcd(1, 0));
    } else if c >= 2 {
        lemma_small_mod(1nat, c);
        assert(gcd(1, c) == gcd(c, 1));
        vstd::arithmetic::div_mod::lemma_mod_multiples_basic(c as int, 1);
        assert(c as nat % 1nat == 0);
        assert(gcd(c, 1) == gcd(1, 0));
    }
}

/// A product of elements each coprime to `c` is coprime to `c`.
pub proof fn lemma_prod_coprime(s: Seq<i128>, c: i128)
    requires
        all_positive(s),
        c >= 0,
        forall|i: int| 0 <= i < s.len() ==> gcd(#[trigger] s[i] as nat, c as nat) == 1,
    ensures
        gcd(prod(s) as nat, c as nat) == 1,
    decreases s.len(),
{
    if s.len() == 0 {
        lemma_gcd_one(c as nat);
    } else {
        lemma_prod_pos(s.drop_first());
        lemma_prod_coprime(s.drop_first(), c);
        lemma_coprime_mul(s[0] as nat, prod(s.drop_first()) as nat, c as nat);
        assert((s[0] as nat * prod(s.drop_first()) as nat) as int == s[0] * prod(s.drop_first()))
            by (nonlinear_arith)
            requires
                s[0] >= 1,
                prod(s.drop_first()) >= 1,
        ;
    }
}

/// Forward decomposition: residue `i` is `x mod q[i]`.
pub fn construct(x: i128, q: &Vec<i128>) -> (r: RnsValue)
    requires
        all_positive(q@),
    ensures
        r.moduli@ == q@,
        r.residues.len() == q.len(),
        forall|i: int| 0 <= i < q.len()
            ==> #[trigger] r.residues@[i] == (x as int) % (q@[i] as int),
        residues_canonical(r.residues@, r.moduli@),
{
    let mut residues: Vec<i128> = Vec::new();
    let mut i: usize = 0;
    while i < q.len()
        invariant
            i <= q.len(),
            all_positive(q@),
            residues.len() == i,
            forall|k: int| 0 <= k < i ==> #[trigger] residues@[k] == (x as int) % (q@[k] as int),
            forall|k: int| 0 <= k < i ==> 0 <= #[trigger] residues@[k] < q@[k],
        decreases q.len() - i,
    {
        let e = emod(x, q[i]);
        residues.push(e);
        i += 1;
    }
    RnsValue { residues, moduli: q.clone() }
}

/// `x` and `y` are over the same moduli, with residue vectors of the
/// matching length.
pub open spec fn rns_compatible(x: RnsValue, y: RnsValue) -> bool {
    &&& x.moduli@ == y.moduli@
    &&& x.residues.len() == x.moduli.len()
    &&& y.residues.len() == y.moduli.len()
}

/// Componentwise addition: `r[i] = (x[i] + y[i]) mod m[i]`.
pub fn add_res(x: &RnsValue, y: &RnsValue) -> (r: RnsValue)
    requires
        rns_compatible(*x, *y),
        all_positive(x.moduli@),
        residues_canonical(x.residues@, x.moduli@),
        residues_canonical(y.residues@, y.moduli@),
        forall|i: int| 0 <= i < x.moduli.len() ==> #[trigger] x.moduli@[i] <= MAX_MODULUS,
    ensures
        r.moduli@ == x.moduli@,
        r.residues.len() == x.residues.len(),
        forall|i: int| 0 <= i < r.residues.len()
            ==> #[trigger] r.residues@[i] == (x.residues@[i] + y.residues@[i]) % (
            x.moduli@[i] as int),
        residues_canonical(r.residues@, r.moduli@),
{
    let mut residues: Vec<i128> = Vec::new();
    let mut i: usize = 0;
    while i < x.residues.len()
        invariant
            i <= x.residues.len(),
            rns_compatible(*x, *y),
            all_positive(x.moduli@),
            residues_canonical(x.residues@, x.moduli@),
            residues_canonical(y.residues@, y.moduli@),
            forall|k: int| 0 <= k < x.moduli.len() ==> #[trigger] x.moduli@[k] <= MAX_MODULUS,
            residues.len() == i,
            forall|k: int| 0 <= k < i
                ==> #[trigger] residues@[k] == (x.residues@[k] + y.residues@[k]) % (
                x.moduli@[k] as int),
            forall|k: int| 0 <= k < i ==> 0 <= #[trigger] residues@[k] < x.moduli@[k],
        decreases x.residues.len() - i,
    {
        let e = emod(x.residues[i] + y.residues[i], x.moduli[i]);
        residues.push(e);
        i += 1;
    }
    RnsValue { residues, moduli: x.moduli.clone() }
}

/// Componentwise subtraction: `r[i] = (x[i] - y[i]) mod m[i]`.
pub fn sub_res(x: &RnsValue, y: &RnsValue) -> (r: RnsValue)
    requires
        rns_compatible(*x, *y),
        all_positive(x.moduli@),
        residues_canonical(x.residues@, x.moduli@),
        residues_canonical(y.residues@, y.moduli@),
    ensures
        r.moduli@ == x.moduli@,
        r.residues.len() == x.residues.len(),
        forall|i: int| 0 <= i < r.residues.len()
            ==> #[trigger] r.residues@[i] == (x.residues@[i] - y.residues@[i]) % (
            x.moduli@[i] as int),
        residues_canonical(r.residues@, r.moduli@),
{
    let mut residues: Vec<i128> = Vec::new();
    let mut i: usize = 0;
    while i < x.residues.len()
        invariant
            i <= x.residues.len(),
            rns_compatible(*x, *y),
            all_positive(x.moduli@),
            residues_canonical(x.residues@, x.moduli@),
            residues_canonical(y.residues@, y.moduli@),
            residues.len() == i,
            forall|k: int| 0 <= k < i
                ==> #[trigger] residues@[k] == (x.residues@[k] - y.residues@[k]) % (
                x.moduli@[k] as int),
            forall|k: int| 0 <= k < i ==> 0 <= #[trigger] residues@[k] < x.moduli@[k],
        decreases x.residues.len() - i,
    {
        let e = emod(x.residues[i] - y.residues[i], x.moduli[i]);
        residues.push(e);
        i += 1;
    }
    RnsValue { residues, moduli: x.moduli.clone() }
}

/// Componentwise multiplication: `r[i] = (x[i] * y[i]) mod m[i]`.
pub fn mul_res(x: &RnsValue, y: &RnsValue) -> (r: RnsValue)
    requires
        rns_compatible(*x, *y),
        all_positive(x.moduli@),
        residues_canonical(x.residues@, x.moduli@),
        residues_canonical(y.residues@, y.moduli@),
        forall|i: int| 0 <= i < x.moduli.len() ==> #[trigger] x.moduli@[i] <= MAX_MODULUS,
    ensures
        r.moduli@ == x.moduli@,
        r.residues.len() == x.residues.len(),
        forall|i: int| 0 <= i < r.residues.len()
            ==> #[trigger] r.residues@[i] == (x.residues@[i] * y.residues@[i]) % (
            x.moduli@[i] as int),
        residues_canonical(r.residues@, r.moduli@),
{
    let mut residues: Vec<i128> = Vec::new();
    let mut i: usize = 0;
    while i < x.residues.len()
        invariant
            i <= x.residues.len(),
            rns_compatible(*x, *y),
            all_positive(x.moduli@),
            residues_canonical(x.residues@, x.moduli@),
            residues_canonical(y.residues@, y.moduli@),
            forall|k: int| 0 <= k < x.moduli.len() ==> #[trigger] x.moduli@[k] <= MAX_MODULUS,
            residues.len() == i,
            forall|k: int| 0 <= k < i
                ==> #[trigger] residues@[k] == (x.residues@[k] * y.residues@[k]) % (
                x.moduli@[k] as int),
            forall|k: int| 0 <= k < i ==> 0 <= #[trigger] residues@[k] < x.moduli@[k],
        decreases x.residues.len() - i,
    {
        proof {
            assert(0 <= x.residues@[i as int] * y.residues@[i as int]
                <= MAX_MODULUS * MAX_MODULUS && MAX_MODULUS * MAX_MODULUS < i128::MAX)
                by (nonlinear_arith)
                requires
                    0 <= x.residues@[i as int] < x.moduli@[i as int] <= MAX_MODULUS,
                    0 <= y.residues@[i as int] < x.moduli@[i as int] <= MAX_MODULUS,
            ;
        }
        let e = emod(x.residues[i] * y.residues[i], x.moduli[i]);
        residues.push(e);
        i += 1;
    }
    RnsValue { residues, moduli: x.moduli.clone() }
}

/// Chinese-remainder reconstruction: returns the unique `x` in `[0, Q)`,
/// `Q` the product of the pairwise-coprime moduli, whose residue at every
/// modulus matches the stored one. For each `i` it computes
/// `Q_i = Q / m[i]`, `M_i = Q_i^{-1} mod m[i]` by the extended Euclidean
/// algorithm, and folds `residues[i] * Q_i * M_i` into the sum mod `Q`.
pub fn deconstruct(res: RnsValue) -> (x: i128)
    requires
        res.residues.len() == res.moduli.len(),
        res.moduli.len() >= 1,
        forall|i: int| 0 <= i < res.moduli.len() ==> 2 <= #[trigger] res.moduli@[i] <= MAX_MODULUS,
        pairwise_coprime(res.moduli@),
        residues_canonical(res.residues@, res.moduli@),
        forall|i: int| 0 <= i < res.moduli.len()
            ==> prod(res.moduli@) * #[trigger] res.moduli@[i] <= i128::MAX,
    ensures
        0 <= x < prod(res.moduli@),
        forall|j: int| 0 <= j < res.moduli.len()
            ==> (x as int) % (res.moduli@[j] as int) == res.residues@[j],
{
    let ghost m = res.moduli@;
    let k = res.moduli.len();
    proof {
        assert(all_positive(m));
        lemma_prod_pos(m);
        assert(m.take(0int) =~= Seq::<i128>::empty());
        assert(prod(m) * m[0] <= i128::MAX);
        assert(prod(m) <= i128::MAX) by (nonlinear_arith)
            requires
                prod(m) * m[0] <= i128::MAX,
                prod(m) >= 1,
                m[0] >= 2,
        ;
    }
    let mut q_prod: i128 = 1;
    let mut i: usize = 0;
    while i < k
        invariant
            i <= k,
            k == res.moduli.len(),
            m == res.moduli@,
            forall|t: int| 0 <= t < k ==> 2 <= #[trigger] m[t] <= MAX_MODULUS,
            prod(m) <= i128::MAX,
            q_prod == prod(m.take(i as int)),
            1 <= q_prod,
        decreases k - i,
    {
        proof {
            assert(m.take(i + 1) =~= m.take(i as int) + seq![m[i as int]]);
            lemma_prod_add(m.take(i as int), seq![m[i as int]]);
            assert(seq![m[i as int]].drop_first() =~= Seq::<i128>::empty());
            assert(prod(Seq::<i128>::empty()) == 1);
            assert(prod(seq![m[i as int]]) == m[i as int] * 1);
            assert(m =~= m.take(i + 1) + m.skip(i + 1));
            lemma_prod_add(m.take(i + 1), m.skip(i + 1));
            assert(all_positive(m.skip(i + 1)));
            lemma_prod_pos(m.skip(i + 1));
            assert(1 <= q_prod * m[i as int] && q_prod * m[i as int] <= prod(m))
                by (nonlinear_arith)
                requires
                    prod(m) == (q_prod * m[i as int]) * prod(m.skip(i + 1)),
                    prod(m.take(i + 1)) == q_prod * m[i as int],
                    prod(m.skip(i + 1)) >= 1,
                    q_prod >= 1,
                    m[i as int] >= 2,
            ;
        }
        q_prod = q_prod * res.moduli[i];
        i += 1;
    }
    proof {
        assert(m.take(k as int) =~= m);
    }
    let mut x: i128 = 0;
    let mut i: usize = 0;
    proof {
        assert forall|jj: int| 0 <= jj < k implies (0int) % (m[jj] as int) == 0int by {
            lemma_small_mod(0nat, m[jj] as nat);
        }
    }
    while i < k
        invariant
            i <= k,
            k == res.moduli.len() == res.residues.len(),
            m == res.moduli@,
            forall|t: int| 0 <= t < k ==> 2 <= #[trigger] m[t] <= MAX_MODULUS,
            pairwise_coprime(m),
            residues_canonical(res.residues@, m),
            forall|t: int| 0 <= t < k ==> prod(m) * #[trigger] m[t] <= i128::MAX,
            q_prod == prod(m),
            1 <= q_prod,
            0 <= x < q_prod,
            forall|jj: int| 0 <= jj < k ==> (x as int) % (#[trigger] m[jj] as int) == (if jj < i {
                res.residues@[jj] as int
            } else {
                0int
            }),
        decreases k - i,
    {
        let ghost removed = m.remove(i as int);
        let qi = res.moduli[i];
        proof {
            lemma_prod_remove(m, i as int);
            assert(all_positive(removed));
            lemma_prod_pos(removed);
            assert(forall|t: int| 0 <= t < removed.len()
                ==> gcd(#[trigger] removed[t] as nat, qi as nat) == 1);
            lemma_prod_coprime(removed, qi);
            vstd::arithmetic::div_mod::lemma_div_multiples_vanish(prod(removed), qi as int);
            assert((q_prod as int) / (qi as int) == prod(removed));
        }
        let big_qi = ediv(q_prod, qi);
        let mi = match mod_inv(big_qi, qi) {
            Some(v) => v,
            None => {
                proof {
                    assert(false);
                }
                0
            },
        };
        proof {
            assert(0 <= res.residues@[i as int] * big_qi && res.residues@[i as int] * big_qi
                < q_prod) by (nonlinear_arith)
                requires
                    0 <= res.residues@[i as int] < qi,
                    big_qi == prod(removed),
                    big_qi >= 1,
                    q_prod == qi * big_qi,
            ;
        }
        let v1 = res.residues[i] * big_qi;
        proof {
            assert(0 <= v1 * mi && v1 * mi <= i128::MAX) by (nonlinear_arith)
                requires
                    0 <= v1 < q_prod,
                    0 <= mi < qi,
                    q_prod * qi <= i128::MAX,
                    q_prod >= 1,
                    qi >= 2,
            ;
        }
        let v2 = emod(v1 * mi, q_prod);
        proof {
            assert(x + v2 <= i128::MAX) by (nonlinear_arith)
                requires
                    0 <= x < q_prod,
                    0 <= v2 < q_prod,
                    q_prod * qi <= i128::MAX,
                    qi >= 2,
                    q_prod >= 1,
            ;
        }
        let x_new = emod(x + v2, q_prod);
        proof {
            let ri = res.residues@[i as int] as int;
            assert forall|jj: int| 0 <= jj < k implies (x_new as int) % (#[trigger] m[jj] as int)
                == (if jj < i + 1 {
                res.residues@[jj] as int
            } else {
                0int
            }) by {
                let mj = m[jj] as int;
                let rem_j = m.remove(jj);
                lemma_prod_remove(m, jj);
                assert(all_positive(rem_j));
                lemma_prod_pos(rem_j);
                assert(q_prod == mj * prod(rem_j));
                lemma_mod_mod(x + v2, mj, prod(rem_j));
                assert((x_new as int) % mj == (x + v2) % mj);
                lemma_mod_mod(v1 * mi, mj, prod(rem_j));
                assert((v2 as int) % mj == (v1 * mi) % mj);
                lemma_add_mod_noop(x as int, v2 as int, mj);
                if jj == i {
                    assert((x as int) % mj == 0);
                    assert(v1 * mi == ri * (big_qi * mi)) by (nonlinear_arith)
                        requires
                            v1 == ri * big_qi,
                    ;
                    lemma_mul_mod_noop_right(ri, big_qi * mi, mj);
                    assert((big_qi as int * mi) % mj == 1);
                    assert((v1 * mi) % mj == (ri * 1) % mj);
                    lemma_small_mod(ri as nat, mj as nat);
                    assert((v1 * mi) % mj == ri);
                    assert(((x as int) % mj + (v2 as int) % mj) % mj == (0 + ri) % mj);
                    assert((x_new as int) % mj == ri);
                } else {
                    let jj2 = if jj < i { jj } else { jj - 1 };
                    assert(removed[jj2] == m[jj]);
                    lemma_elem_divides_prod(removed, jj2);
                    let kk = choose|c: int| prod(removed) == #[trigger] (mj * c);
                    assert(v1 * mi == mj * (kk * ri * mi)) by (nonlinear_arith)
                        requires
                            v1 == ri * big_qi,
                            big_qi == prod(removed),
                            prod(removed) == mj * kk,
                    ;
                    assert(divides(mj, v1 * mi));
                    lemma_divides_mod_zero(mj, v1 * mi);
                    assert((v2 as int) % mj == 0);
                    lemma_mod_twice(x as int, mj);
                    assert(((x as int) % mj + 0) % mj == (x as int) % mj);
                    assert((x_new as int) % mj == (x as int) % mj);
                }
            }
        }
        x = x_new;
        i += 1;
    }
    x
}

/// The product of a prefix of pairwise-coprime common divisors of `d`
/// divides `d`.
proof fn lemma_prefix_divides(s: Seq<i128>, d: int, i: int)
    requires
        0 <= i <= s.len(),
        all_positive(s),
        pairwise_coprime(s),
        forall|j: int| 0 <= j < s.len() ==> divides(#[trigger] s[j] as int, d),
    ensures
        divides(prod(s.take(i)), d),
    decreases i,
{
    if i == 0 {
        assert(s.take(0) =~= Seq::<i128>::empty());
        assert(prod(Seq::<i128>::empty()) == 1);
        assert(d == 1int * d);
        assert(divides(1int, d));
    } else {
        lemma_prefix_divides(s, d, i - 1);
        let p = prod(s.take(i - 1));
        assert(all_positive(s.take(i - 1)));
        lemma_prod_pos(s.take(i - 1));
        assert(forall|j: int| 0 <= j < s.take(i - 1).len()
            ==> gcd(#[trigger] s.take(i - 1)[j] as nat, s[i - 1] as nat) == 1);
        lemma_prod_coprime(s.take(i - 1), s[i - 1]);
        lemma_coprime_divides_product(p as nat, s[i - 1] as nat, d);
        assert((p as nat * s[i - 1] as nat) as int == p * s[i - 1]) by (nonlinear_arith)
            requires
                p >= 1,
                s[i - 1] >= 1,
        ;
        assert(s.take(i) =~= s.take(i - 1) + seq![s[i - 1]]);
        lemma_prod_add(s.take(i - 1), seq![s[i - 1]]);
        assert(seq![s[i - 1]].drop_first() =~= Seq::<i128>::empty());
        assert(prod(Seq::<i128>::empty()) == 1);
        assert(prod(seq![s[i - 1]]) == s[i - 1] * 1);
        assert(prod(s.take(i)) == p * s[i - 1]);
        assert(divides(prod(s.take(i)), d));
    }
}

/// Chinese-remainder uniqueness: two integers in `[0, Q)` that agree
/// modulo every one of the pairwise-coprime moduli are equal. Together
/// with the contracts of `construct` and `deconstruct` this is the CRT
/// round trip: for `x` in `[0, Q)`, reconstructing the residues of `x`
/// yields `x` itself.
pub proof fn lemma_crt_unique(m: Seq<i128>, x: int, y: int)
    requires
        all_positive(m),
        pairwise_coprime(m),
        0 <= x < prod(m),
        0 <= y < prod(m),
        forall|j: int| 0 <= j < m.len() ==> x % (#[trigger] m[j] as int) == y % (m[j] as int),
    ensures
        x == y,
{
    let d = x - y;
    assert forall|j: int| 0 <= j < m.len() implies divides(#[trigger] m[j] as int, d) by {
        vstd::arithmetic::div_mod::lemma_mod_equivalence(x, y, m[j] as int);
        crate::arith::lemma_mod_zero_divides(m[j] as int, d);
    }
    lemma_prefix_divides(m, d, m.len() as int);
    assert(m.take(m.len() as int) =~= m);
    let c = choose|c: int| d == #[trigger] (prod(m) * c);
    lemma_prod_pos(m);
    assert(d == 0) by (nonlinear_arith)
        requires
            d == prod(m) * c,
            -prod(m) < d < prod(m),
            prod(m) >= 1,
    ;
}

/// CRT addition homomorphism: an integer in `[0, Q)` whose residues are
/// the componentwise mod-sums of the residues of `x` and `y` is exactly
/// `(x + y) mod Q`.
pub proof fn lemma_crt_add_hom(m: Seq<i128>, x: int, y: int, d: int)
    requires
        all_positive(m),
        pairwise_coprime(m),
        0 <= d < prod(m),
        forall|j: int| 0 <= j < m.len() ==> d % (#[trigger] m[j] as int) == ((x % (m[j] as int))
            + (y % (m[j] as int))) % (m[j] as int),
    ensures
        d == (x + y) % prod(m),
{
    let qq = prod(m);
    lemma_prod_pos(m);
    let w = (x + y) % qq;
    lemma_mod_bound(x + y, qq);
    assert forall|j: int| 0 <= j < m.len() implies w % (#[trigger] m[j] as int) == d % (
        m[j] as int) by {
        let mj = m[j] as int;
        lemma_prod_remove(m, j);
        assert(all_positive(m.remove(j)));
        lemma_prod_pos(m.remove(j));
        lemma_mod_mod(x + y, mj, prod(m.remove(j)));
        lemma_add_mod_noop(x, y, mj);
        lemma_mod_twice(d, mj);
    }
    lemma_crt_unique(m, w, d);
}

/// CRT subtraction homomorphism: componentwise mod-differences of the
/// residues reconstruct to `(x - y) mod Q`.
pub proof fn lemma_crt_sub_hom(m: Seq<i128>, x: int, y: int, d: int)
    requires
        all_positive(m),
        pairwise_coprime(m),
        0 <= d < prod(m),
        forall|j: int| 0 <= j < m.len() ==> d % (#[trigger] m[j] as int) == ((x % (m[j] as int))
            - (y % (m[j] as int))) % (m[j] as int),
    ensures
        d == (x - y) % prod(m),
{
    let qq = prod(m);
    lemma_prod_pos(m);
    let w = (x - y) % qq;
    lemma_mod_bound(x - y, qq);
    assert forall|j: int| 0 <= j < m.len() implies w % (#[trigger] m[j] as int) == d % (
        m[j] as int) by {
        let mj = m[j] as int;
        lemma_prod_remove(m, j);
        assert(all_positive(m.remove(j)));
        lemma_prod_pos(m.remove(j));
        lemma_mod_mod(x - y, mj, prod(m.remove(j)));
        lemma_sub_mod_noop(x, y, mj);
        lemma_mod_twice(d, mj);
    }
    lemma_crt_unique(m, w, d);
}

/// CRT multiplication homomorphism: componentwise mod-products of the
/// residues reconstruct to `(x * y) mod Q`.
pub proof fn lemma_crt_mul_hom(m: Seq<i128>, x: int, y: int, d: int)
    requires
        all_positive(m),
        pairwise_coprime(m),
        0 <= d < prod(m),
        forall|j: int| 0 <= j < m.len() ==> d % (#[trigger] m[j] as int) == ((x % (m[j] as int))
            * (y % (m[j] as int))) % (m[j] as int),
    ensures
        d == (x * y) % prod(m),
{
    let qq = prod(m);
    lemma_prod_pos(m);
    let w = (x * y) % qq;
    lemma_mod_bound(x * y, qq);
    assert forall|j: int| 0 <= j < m.len() implies w % (#[trigger] m[j] as int) == d % (
        m[j] as int) by {
        let mj = m[j] as int;
        lemma_prod_remove(m, j);
        assert(all_positive(m.remove(j)));
        lemma_prod_pos(m.remove(j));
        lemma_mod_mod(x * y, mj, prod(m.remove(j)));
        lemma_mul_mod_noop(x, y, mj);
        lemma_mod_twice(d, mj);
    }
    lemma_crt_unique(m, w, d);
}

} // verus!
