//! The multilinear extension as a mathematical object: the Lagrange basis of
//! the hypercube and the sum `f~(x) = sum_w f(w) * chi_w(x)`, over the
//! integers. Field values are these integers reduced modulo the modulus.
use crate::hypercube::{index_of, lemma_index_of, lemma_point_injective, lemma_point_len, point_of};
use vstd::arithmetic::div_mod::*;
use vstd::arithmetic::power2::*;
use vstd::prelude::*;

verus! {

/// The factor that coordinate `b` of a vertex contributes to its basis
/// polynomial at coordinate value `x`: `x` for `true`, `1 - x` for `false`.
pub open spec fn factor(b: bool, x: int) -> int {
    if b {
        x
    } else {
        1 - x
    }
}

/// The product of the first `n` factors of `chi_w(x)`.
pub open spec fn chi_prefix(w: Seq<bool>, x: Seq<int>, n: nat) -> int
    decreases n,
{
    if n == 0 {
        1
    } else {
        chi_prefix(w, x, (n - 1) as nat) * factor(w[n - 1], x[n - 1])
    }
}

/// The Lagrange basis polynomial of the vertex `w`, at `x`:
/// `prod_i (x_i if w_i else 1 - x_i)`.
pub open spec fn chi(w: Seq<bool>, x: Seq<int>) -> int {
    chi_prefix(w, x, w.len())
}

/// `sum_{k < count} evals[k] * chi_{point k}(x)` over the vertices of
/// `{0,1}^n` in enumeration order.
pub open spec fn mle_prefix(evals: Seq<u64>, n: nat, x: Seq<int>, count: nat) -> int
    decreases count,
{
    if count == 0 {
        0
    } else {
        let k = (count - 1) as nat;
        mle_prefix(evals, n, x, k) + evals[k as int] * chi(point_of(k, n), x)
    }
}

/// The multilinear extension of the table `evals` (one value per vertex of
/// `{0,1}^n`, in enumeration order) at `x`, over the integers.
pub open spec fn mle(evals: Seq<u64>, n: nat, x: Seq<int>) -> int {
    mle_prefix(evals, n, x, evals.len())
}

/// The basis values `chi_w(x) mod m` of every vertex, in enumeration order.
pub open spec fn chi_table(n: nat, x: Seq<int>, m: nat) -> Seq<int> {
    Seq::new(pow2(n), |k: int| chi(point_of(k as nat, n), x) % (m as int))
}

/// `sum_{k < count} a[k] * b[k]`.
pub open spec fn dot_prefix(a: Seq<u64>, b: Seq<int>, count: nat) -> int
    decreases count,
{
    if count == 0 {
        0
    } else {
        let k = (count - 1) as int;
        dot_prefix(a, b, (count - 1) as nat) + a[k] * b[k]
    }
}

/// Field elements seen as integers.
pub open spec fn lift(x: Seq<u64>) -> Seq<int> {
    x.map_values(|e: u64| e as int)
}

/// A vertex as a point of the field: `1` for `true`, `0` for `false`.
pub open spec fn bool_point(w: Seq<bool>) -> Seq<u64> {
    w.map_values(
        |b: bool|
            if b {
                1u64
            } else {
                0u64
            },
    )
}

/// `chi_prefix` reads only the first `n` coordinates of `w` and `x`.
pub proof fn lemma_chi_prefix_local(w1: Seq<bool>, w2: Seq<bool>, x1: Seq<int>, x2: Seq<int>, n: nat)
    requires
        forall|j: int| 0 <= j < n ==> w1[j] == w2[j] && x1[j] == x2[j],
    ensures
        chi_prefix(w1, x1, n) == chi_prefix(w2, x2, n),
    decreases n,
{
    if n > 0 {
        lemma_chi_prefix_local(w1, w2, x1, x2, (n - 1) as nat);
    }
}

/// `chi_prefix` of a vertex at another vertex is `1` where their first `n`
/// coordinates agree and `0` elsewhere.
proof fn lemma_chi_prefix_indicator(w: Seq<bool>, v: Seq<bool>, n: nat)
    requires
        n <= w.len(),
        n <= v.len(),
    ensures
        chi_prefix(w, lift(bool_point(v)), n) == (if forall|j: int| 0 <= j < n ==> w[j] == v[j] {
            1int
        } else {
            0int
        }),
    decreases n,
{
    let x = lift(bool_point(v));
    if n > 0 {
        let i = n - 1;
        lemma_chi_prefix_indicator(w, v, (n - 1) as nat);
        assert(x[i] == if v[i] {
            1int
        } else {
            0int
        });
        if forall|j: int| 0 <= j < n ==> w[j] == v[j] {
            assert(forall|j: int| 0 <= j < n - 1 ==> w[j] == v[j]);
        } else {
            let j0 = choose|j: int| 0 <= j < n && w[j] != v[j];
            if j0 < n - 1 {
                assert(!(forall|j: int| 0 <= j < n - 1 ==> w[j] == v[j]));
            }
        }
    }
}

/// The basis polynomial of a vertex is the indicator of that vertex on the
/// hypercube: `chi_w(v) = 1` if `v == w` and `0` at every other vertex `v`
/// of the same length.
pub proof fn lemma_chi_indicator(w: Seq<bool>, v: Seq<bool>)
    requires
        w.len() == v.len(),
    ensures
        chi(w, lift(bool_point(v))) == (if w == v {
            1int
        } else {
            0int
        }),
{
    lemma_chi_prefix_indicator(w, v, w.len());
    if forall|j: int| 0 <= j < w.len() ==> w[j] == v[j] {
        assert(w =~= v);
    }
}

/// Over the first `count` vertices, the sum at a vertex `v` keeps only the
/// term of `v` itself.
proof fn lemma_mle_prefix_at_vertex(evals: Seq<u64>, n: nat, v: Seq<bool>, count: nat)
    requires
        v.len() == n,
        count <= pow2(n),
        count <= evals.len(),
    ensures
        mle_prefix(evals, n, lift(bool_point(v)), count) == (if index_of(v) < count {
            evals[index_of(v) as int] as int
        } else {
            0int
        }),
    decreases count,
{
    if count > 0 {
        let k = (count - 1) as nat;
        lemma_mle_prefix_at_vertex(evals, n, v, k);
        lemma_point_len(k, n);
        lemma_chi_indicator(point_of(k, n), v);
        lemma_index_of(v);
        if point_of(k, n) == v {
            lemma_point_injective(k, index_of(v), n);
        }
    }
}

/// The extension agrees with the table on the hypercube: at the vertex `v`,
/// the sum is the value that the table holds for `v`.
pub proof fn lemma_mle_at_vertex(evals: Seq<u64>, v: Seq<bool>)
    requires
        evals.len() == pow2(v.len()),
    ensures
        mle(evals, v.len(), lift(bool_point(v))) == evals[index_of(v) as int],
{
    lemma_index_of(v);
    lemma_mle_prefix_at_vertex(evals, v.len(), v, evals.len());
}

/// With no variables the extension is the constant `evals[0]`.
pub proof fn lemma_mle_no_vars(evals: Seq<u64>, x: Seq<int>)
    requires
        evals.len() == pow2(0),
    ensures
        mle(evals, 0, x) == evals[0],
{
    lemma2_to64();
    assert(mle_prefix(evals, 0, x, 0) == 0);
    assert(chi(point_of(0, 0), x) == 1);
}

/// Fixing every coordinate but `i`, `chi_prefix` is affine in coordinate `i`.
proof fn lemma_chi_prefix_affine(w: Seq<bool>, x: Seq<int>, i: int, a: int, k: nat)
    requires
        0 <= i < x.len(),
        k <= x.len(),
    ensures
        k <= i ==> chi_prefix(w, x.update(i, a), k) == chi_prefix(w, x.update(i, 0), k),
        k <= i ==> chi_prefix(w, x.update(i, 1), k) == chi_prefix(w, x.update(i, 0), k),
        k > i ==> chi_prefix(w, x.update(i, a), k) == chi_prefix(w, x.update(i, 0), k) + a * (
        chi_prefix(w, x.update(i, 1), k) - chi_prefix(w, x.update(i, 0), k)),
    decreases k,
{
    let xa = x.update(i, a);
    let x0 = x.update(i, 0);
    let x1 = x.update(i, 1);
    if k <= i {
        lemma_chi_prefix_local(w, w, xa, x0, k);
        lemma_chi_prefix_local(w, w, x1, x0, k);
    } else {
        let j = k - 1;
        lemma_chi_prefix_affine(w, x, i, a, (k - 1) as nat);
        let ata = chi_prefix(w, xa, (k - 1) as nat);
        let at0 = chi_prefix(w, x0, (k - 1) as nat);
        let at1 = chi_prefix(w, x1, (k - 1) as nat);
        if j == i {
            let b = w[i];
            assert(ata == at0 && at1 == at0);
            if b {
                assert(at0 * a == at0 * 0 + a * (at0 * 1 - at0 * 0)) by (nonlinear_arith);
            } else {
                assert(at0 * (1 - a) == at0 * (1 - 0) + a * (at0 * (1 - 1) - at0 * (1 - 0)))
                    by (nonlinear_arith);
            }
        } else {
            let g = factor(w[j], x[j]);
            assert(xa[j] == x[j] && x0[j] == x[j] && x1[j] == x[j]);
            assert(ata == at0 + a * (at1 - at0));
            assert((at0 + a * (at1 - at0)) * g == at0 * g + a * (at1 * g - at0 * g))
                by (nonlinear_arith);
        }
    }
}

/// The sum over the first `count` vertices is affine in coordinate `i`.
proof fn lemma_mle_prefix_affine(evals: Seq<u64>, x: Seq<int>, i: int, a: int, count: nat)
    requires
        0 <= i < x.len(),
        count <= evals.len(),
    ensures
        mle_prefix(evals, x.len(), x.update(i, a), count) == mle_prefix(
            evals,
            x.len(),
            x.update(i, 0),
            count,
        ) + a * (mle_prefix(evals, x.len(), x.update(i, 1), count) - mle_prefix(
            evals,
            x.len(),
            x.update(i, 0),
            count,
        )),
    decreases count,
{
    if count > 0 {
        let n = x.len();
        let k = (count - 1) as nat;
        lemma_mle_prefix_affine(evals, x, i, a, k);
        let w = point_of(k, n);
        lemma_point_len(k, n);
        lemma_chi_prefix_affine(w, x, i, a, n);
        let sa = mle_prefix(evals, n, x.update(i, a), k);
        let s0 = mle_prefix(evals, n, x.update(i, 0), k);
        let s1 = mle_prefix(evals, n, x.update(i, 1), k);
        let c0 = chi(w, x.update(i, 0));
        let c1 = chi(w, x.update(i, 1));
        let e = evals[k as int] as int;
        assert(chi(w, x.update(i, a)) == c0 + a * (c1 - c0));
        assert(mle_prefix(evals, n, x.update(i, a), count) == sa + e * chi(w, x.update(i, a)));
        assert(mle_prefix(evals, n, x.update(i, 0), count) == s0 + e * c0);
        assert(mle_prefix(evals, n, x.update(i, 1), count) == s1 + e * c1);
        assert(sa == s0 + a * (s1 - s0));
        assert(s0 + a * (s1 - s0) + e * (c0 + a * (c1 - c0)) == (s0 + e * c0) + a * ((s1 + e
            * c1) - (s0 + e * c0))) by (nonlinear_arith);
    } else {
        assert(a * (0int - 0int) == 0) by (nonlinear_arith);
    }
}

/// Multilinearity: with every other coordinate fixed, the extension is an
/// affine function of coordinate `i`:
/// `f~(x[i := a]) = f~(x[i := 0]) + a * (f~(x[i := 1]) - f~(x[i := 0]))`.
pub proof fn lemma_mle_affine(evals: Seq<u64>, x: Seq<int>, i: int, a: int)
    requires
        0 <= i < x.len(),
    ensures
        mle(evals, x.len(), x.update(i, a)) == mle(evals, x.len(), x.update(i, 0)) + a * (mle(
            evals,
            x.len(),
            x.update(i, 1),
        ) - mle(evals, x.len(), x.update(i, 0))),
{
    lemma_mle_prefix_affine(evals, x, i, a, evals.len());
}

/// Tabulating the basis values first and then taking the dot product with
/// the table gives, modulo `m`, the direct sum `f~(x)`.
pub proof fn lemma_tabulated_sum(evals: Seq<u64>, n: nat, x: Seq<int>, m: nat, count: nat)
    requires
        m > 0,
        count <= evals.len(),
        count <= pow2(n),
    ensures
        dot_prefix(evals, chi_table(n, x, m), count) % (m as int) == mle_prefix(evals, n, x, count)
            % (m as int),
    decreases count,
{
    if count > 0 {
        let k = (count - 1) as nat;
        let mi = m as int;
        lemma_tabulated_sum(evals, n, x, m, k);
        let d = dot_prefix(evals, chi_table(n, x, m), k);
        let s = mle_prefix(evals, n, x, k);
        let e = evals[k as int] as int;
        let c = chi(point_of(k, n), x);
        assert(chi_table(n, x, m)[k as int] == c % mi);
        lemma_add_mod_noop(d, e * (c % mi), mi);
        lemma_add_mod_noop(s, e * c, mi);
        lemma_mul_mod_noop_right(e, c, mi);
    }
}

/// The vertex at position `2k + b` of `{0,1}^(i+1)` extends the vertex at
/// position `k` of `{0,1}^i` by `b`, and its first `i + 1` basis factors are
/// those of the shorter vertex times the factor of `b`.
pub proof fn lemma_chi_prefix_extend(k: nat, b: bool, i: nat, x: Seq<int>)
    ensures
        chi_prefix(point_of(2 * k + (if b { 1nat } else { 0nat }), i + 1), x, i + 1) == chi_prefix(
            point_of(k, i),
            x,
            i,
        ) * factor(b, x[i as int]),
{
    let c: nat = 2 * k + (if b {
        1nat
    } else {
        0nat
    });
    let p = point_of(k, i);
    assert(c / 2 == k && (c % 2 == 1) == b);
    lemma_point_len(k, i);
    let q = point_of(c, i + 1);
    assert(q == p.push(b));
    lemma_chi_prefix_local(q, p, x, x, i);
}

} // verus!
