//! The table of a function on the hypercube and the evaluation of its
//! multilinear extension.
use crate::field::PrimeField;
use crate::hypercube::{hypercube_points, index_of, lemma_index_of, lemma_point_len, point_of};
use crate::mle::{
    bool_point, chi, chi_prefix, chi_table, dot_prefix, factor, lemma_chi_prefix_extend, lemma_tabulated_sum,
    lemma_mle_affine, lemma_mle_at_vertex, lemma_mle_no_vars, lift, mle, mle_prefix,
};
use vstd::arithmetic::div_mod::*;
use vstd::arithmetic::power2::*;
use vstd::prelude::*;

verus! {

/// Why a table could not be built or a point could not be evaluated.
#[derive(Debug, Clone, Copy, PartialEq, Eq, Structural)]
pub enum MleError {
    /// A boolean point or a query point has `found` coordinates where
    /// `expected` were needed.
    DomainLengthMismatch { expected: usize, found: usize },
    /// The function is not defined on some vertex of the hypercube.
    UnmappedInput,
}

/// `func` may return `Ok(raw)` on `w` with `raw mod m == e`: `e` is a value
/// of `func` at `w`, taken into the field.
pub open spec fn yields<F: Fn(&Vec<bool>) -> Result<u64, MleError>>(func: F, w: Vec<bool>, e: u64, m: u64) -> bool {
    exists|raw: u64| #[trigger] func.ensures((&w,), Ok(raw)) && e == raw % m
}

/// A function on `{0,1}^v`, tabulated once, whose multilinear extension can
/// be evaluated at any number of points.
pub struct Lagrange {
    field: PrimeField,
    domain: usize,
    w_vals: Vec<Vec<bool>>,
    f_evals: Vec<u64>,
}

impl Lagrange {
    /// The number of variables `v`.
    pub closed spec fn num_vars(&self) -> nat {
        self.domain as nat
    }

    /// The modulus of the field.
    pub closed spec fn modulus(&self) -> nat {
        self.field.modulus as nat
    }

    /// The function's value at each vertex, in enumeration order.
    pub closed spec fn evals(&self) -> Seq<u64> {
        self.f_evals@
    }

    /// The stored vertices, in enumeration order.
    pub closed spec fn points(&self) -> Seq<Vec<bool>> {
        self.w_vals@
    }

    /// One value of the field per vertex of `{0,1}^v`.
    pub open spec fn wf(&self) -> bool {
        &&& self.modulus() >= 2
        &&& self.evals().len() == pow2(self.num_vars())
        &&& forall|k: int| 0 <= k < self.evals().len() ==> #[trigger] self.evals()[k] < self.modulus()
        &&& self.points().len() == self.evals().len()
        &&& forall|k: int| 0 <= k < self.points().len() ==> (#[trigger] self.points()[k])@ == point_of(k as nat, self.num_vars())
    }

    /// Every coordinate of `x` is an element of the field.
    pub open spec fn in_field(&self, x: Seq<u64>) -> bool {
        forall|i: int| 0 <= i < x.len() ==> #[trigger] x[i] < self.modulus()
    }

    /// The value of the multilinear extension at `x`:
    /// `sum_w f(w) * chi_w(x) mod p`.
    pub open spec fn value(&self, x: Seq<u64>) -> int {
        mle(self.evals(), self.num_vars(), lift(x)) % (self.modulus() as int)
    }

    /// Tabulates `func` on every vertex of `{0,1}^domain`, in enumeration
    /// order, each value taken into the field. The first error that `func`
    /// returns is handed back unchanged.
    pub fn new<F: Fn(&Vec<bool>) -> Result<u64, MleError>>(func: F, domain: usize, field: PrimeField) -> (r: Result<Lagrange, MleError>)
        requires
            field.wf(),
            pow2(domain as nat) <= usize::MAX,
            forall|w: Vec<bool>| w@.len() == domain ==> #[trigger] func.requires((&w,)),
        ensures
            r matches Ok(l) ==> {
                &&& l.wf()
                &&& l.num_vars() == domain
                &&& l.modulus() == field.modulus
                &&& forall|k: int|
                    0 <= k < pow2(domain as nat) ==> #[trigger] yields(func, l.points()[k], l.evals()[k], field.modulus)
            },
            r matches Err(e) ==> exists|w: Vec<bool>|
                #[trigger] func.ensures((&w,), Err(e)) && w@.len() == domain,
    {
        match Self::get_inputs_and_evaluations(&func, domain, &field) {
            Ok((w_vals, f_evals)) => {
                let l = Lagrange { field, domain, w_vals, f_evals };
                assert forall|k: int| 0 <= k < pow2(domain as nat) implies #[trigger] yields(func, l.points()[k], l.evals()[k], field.modulus) by {
                    assert(yields(func, l.w_vals[k], l.f_evals[k], field.modulus));
                }
                Ok(l)
            },
            Err(e) => Err(e),
        }
    }

    /// The vertices of `{0,1}^domain` in enumeration order, and the value of
    /// `func` at each, taken into the field.
    fn get_inputs_and_evaluations<F: Fn(&Vec<bool>) -> Result<u64, MleError>>(func: &F, domain: usize, field: &PrimeField) -> (r: Result<(Vec<Vec<bool>>, Vec<u64>), MleError>)
        requires
            field.wf(),
            pow2(domain as nat) <= usize::MAX,
            forall|w: Vec<bool>| w@.len() == domain ==> #[trigger] func.requires((&w,)),
        ensures
            r matches Ok((ws, fs)) ==> {
                &&& ws@.len() == pow2(domain as nat)
                &&& fs@.len() == ws@.len()
                &&& forall|k: int| 0 <= k < ws.len() ==> (#[trigger] ws[k])@ == point_of(k as nat, domain as nat)
                &&& forall|k: int| 0 <= k < fs.len() ==> #[trigger] fs[k] < field.modulus
                &&& forall|k: int| 0 <= k < fs.len() ==> #[trigger] yields(*func, ws[k], fs[k], field.modulus)
            },
            r matches Err(e) ==> exists|w: Vec<bool>|
                #[trigger] func.ensures((&w,), Err(e)) && w@.len() == domain,
    {
        let w_vals = hypercube_points(domain);
        let mut f_evals: Vec<u64> = Vec::new();
        let ghost mut raws: Seq<u64> = Seq::empty();
        let mut k: usize = 0;
        while k < w_vals.len()
            invariant
                field.wf(),
                forall|w: Vec<bool>| w@.len() == domain ==> #[trigger] func.requires((&w,)),
                w_vals@.len() == pow2(domain as nat),
                forall|j: int| 0 <= j < w_vals.len() ==> (#[trigger] w_vals[j])@ == point_of(j as nat, domain as nat),
                k <= w_vals.len(),
                f_evals.len() == k,
                raws.len() == k,
                forall|j: int| 0 <= j < f_evals.len() ==> #[trigger] f_evals[j] < field.modulus,
                forall|j: int|
                    0 <= j < k ==> #[trigger] func.ensures((&w_vals[j],), Ok(raws[j]))
                        && f_evals[j] == raws[j] % field.modulus,
            decreases w_vals.len() - k,
        {
            proof {
                lemma_point_len(k as nat, domain as nat);
            }
            match func(&w_vals[k]) {
                Ok(raw) => {
                    let v = field.from_u64(raw);
                    f_evals.push(v);
                    proof {
                        raws = raws.push(raw);
                    }
                },
                Err(e) => {
                    assert(func.ensures((&w_vals[k as int],), Err(e)));
                    return Err(e);
                },
            }
            k = k + 1;
        }
        assert forall|j: int| 0 <= j < f_evals.len() implies #[trigger] yields(*func, w_vals[j], f_evals[j], field.modulus) by {
            assert(func.ensures((&w_vals[j],), Ok(raws[j])));
        }
        Ok((w_vals, f_evals))
    }

    /// `sum_k f(w_k) * c[k] mod p`, over the table in enumeration order.
    fn dot_with_evals(&self, c: &Vec<u64>) -> (r: u64)
        requires
            self.wf(),
            c.len() == self.f_evals.len(),
            forall|j: int| 0 <= j < c.len() ==> #[trigger] c[j] < self.modulus(),
        ensures
            r == dot_prefix(self.evals(), lift(c@), c.len() as nat) % (self.modulus() as int),
            r < self.modulus(),
    {
        let fld = &self.field;
        let ghost m = fld.modulus as int;
        let mut acc = fld.zero();
        let mut k: usize = 0;
        while k < c.len()
            invariant
                self.wf(),
                fld == &self.field,
                m == self.modulus(),
                c.len() == self.f_evals.len(),
                forall|j: int| 0 <= j < c.len() ==> #[trigger] c[j] < self.modulus(),
                k <= c.len(),
                acc < m,
                acc == dot_prefix(self.evals(), lift(c@), k as nat) % m,
            decreases c.len() - k,
        {
            let e = self.f_evals[k];
            let t = fld.mul(e, c[k]);
            let ghost d = dot_prefix(self.evals(), lift(c@), k as nat);
            acc = fld.add(acc, t);
            proof {
                assert(lift(c@)[k as int] == c[k as int]);
                lemma_add_mod_noop(d, (e as int) * (c[k as int] as int), m);
                lemma_small_mod(t as nat, m as nat);
            }
            k = k + 1;
        }
        acc
    }

    /// The basis values `chi_{w_k}(x) mod p` of every vertex, each computed
    /// as its own product of `v` factors.
    fn basis_values(&self, x: &Vec<u64>) -> (r: Vec<u64>)
        requires
            self.wf(),
            self.in_field(x@),
            x@.len() == self.num_vars(),
        ensures
            lift(r@) == chi_table(self.num_vars(), lift(x@), self.modulus()),
            r.len() == self.f_evals.len(),
            forall|j: int| 0 <= j < r.len() ==> #[trigger] r[j] < self.modulus(),
    {
        let ghost n = self.num_vars();
        let ghost m = self.modulus();
        let mut chis: Vec<u64> = Vec::new();
        let mut k: usize = 0;
        while k < self.w_vals.len()
            invariant
                self.wf(),
                self.in_field(x@),
                x@.len() == n,
                n == self.num_vars(),
                m == self.modulus(),
                k <= self.w_vals.len(),
                chis.len() == k,
                forall|j: int| 0 <= j < k ==> #[trigger] chis[j] < m,
                forall|j: int|
                    0 <= j < k ==> #[trigger] chis[j] == chi(point_of(j as nat, n), lift(x@)) % (m as int),
            decreases self.w_vals.len() - k,
        {
            proof {
                lemma_point_len(k as nat, n);
            }
            let c = eval_chi(&self.field, &self.w_vals[k], x);
            chis.push(c);
            k = k + 1;
        }
        assert(lift(chis@) =~= chi_table(n, lift(x@), m));
        chis
    }

    /// The multilinear extension at `x`, summing `f(w) * chi_w(x)` term by
    /// term in table order without keeping the basis values.
    pub fn slow_interpolate(&self, x: &Vec<u64>) -> (r: Result<u64, MleError>)
        requires
            self.wf(),
            self.in_field(x@),
        ensures
            x@.len() != self.num_vars() ==> r == Err::<u64, MleError>(
                MleError::DomainLengthMismatch { expected: self.num_vars() as usize, found: x.len() },
            ),
            x@.len() == self.num_vars() ==> (r matches Ok(v) && v == self.value(x@)),
    {
        if x.len() != self.domain {
            return Err(MleError::DomainLengthMismatch { expected: self.domain, found: x.len() });
        }
        let fld = &self.field;
        let ghost n = self.num_vars();
        let ghost m = fld.modulus as int;
        let mut acc = fld.zero();
        let mut k: usize = 0;
        while k < self.w_vals.len()
            invariant
                self.wf(),
                fld == &self.field,
                self.in_field(x@),
                x@.len() == n,
                n == self.num_vars(),
                m == self.modulus(),
                k <= self.w_vals.len(),
                acc < m,
                acc == mle_prefix(self.evals(), n, lift(x@), k as nat) % m,
            decreases self.w_vals.len() - k,
        {
            proof {
                lemma_point_len(k as nat, n);
            }
            let c = eval_chi(fld, &self.w_vals[k], x);
            let e = self.f_evals[k];
            let t = fld.mul(e, c);
            let ghost s = mle_prefix(self.evals(), n, lift(x@), k as nat);
            let ghost ch = chi(point_of(k as nat, n), lift(x@));
            acc = fld.add(acc, t);
            proof {
                lemma_mul_mod_noop_right(e as int, ch, m);
                lemma_add_mod_noop(s, (e as int) * ch, m);
            }
            k = k + 1;
        }
        Ok(acc)
    }

    /// The multilinear extension at `x`, computing the basis value of every
    /// vertex first and then summing `f(w) * chi_w(x)` in table order.
    pub fn interpolate(&self, x: &Vec<u64>) -> (r: Result<u64, MleError>)
        requires
            self.wf(),
            self.in_field(x@),
        ensures
            x@.len() != self.num_vars() ==> r == Err::<u64, MleError>(
                MleError::DomainLengthMismatch { expected: self.num_vars() as usize, found: x.len() },
            ),
            x@.len() == self.num_vars() ==> (r matches Ok(v) && v == self.value(x@)),
    {
        if x.len() != self.domain {
            return Err(MleError::DomainLengthMismatch { expected: self.domain, found: x.len() });
        }
        let chis = self.basis_values(x);
        let r = self.dot_with_evals(&chis);
        proof {
            lemma_strategies_agree(self, x@);
        }
        Ok(r)
    }
}

/// `chi_w(x) mod p`, the product over the coordinates of `x_i` where `w_i`
/// holds and `1 - x_i` where it does not.
fn eval_chi(fld: &PrimeField, w: &Vec<bool>, x: &Vec<u64>) -> (r: u64)
    requires
        fld.wf(),
        w.len() == x.len(),
        forall|i: int| 0 <= i < x.len() ==> #[trigger] x[i] < fld.modulus,
    ensures
        r == chi(w@, lift(x@)) % (fld.modulus as int),
        r < fld.modulus,
{
    let ghost m = fld.modulus as int;
    let one = fld.one();
    let mut acc = one;
    let mut i: usize = 0;
    proof {
        lemma_small_mod(1, m as nat);
    }
    while i < w.len()
        invariant
            fld.wf(),
            m == fld.modulus,
            one == 1,
            w.len() == x.len(),
            forall|i: int| 0 <= i < x.len() ==> #[trigger] x[i] < fld.modulus,
            i <= w.len(),
            acc < m,
            acc == chi_prefix(w@, lift(x@), i as nat) % m,
        decreases w.len() - i,
    {
        let xi = x[i];
        let val = if w[i] {
            xi
        } else {
            fld.sub(one, xi)
        };
        let ghost c = chi_prefix(w@, lift(x@), i as nat);
        let ghost f = factor(w@[i as int], xi as int);
        proof {
            assert(lift(x@)[i as int] == xi as int);
            lemma_small_mod(xi as nat, m as nat);
            assert(val == f % m);
        }
        acc = fld.mul(acc, val);
        proof {
            lemma_mul_mod_noop(c, f, m);
        }
        i = i + 1;
    }
    acc
}

/// The multilinear extension of `lagrange`'s table at `x`, with the basis
/// values of all `2^v` vertices built by doubling: starting from `[1]`,
/// stage `i` replaces each entry `c` by `c * (1 - x_i)` and `c * x_i`, so the
/// table costs `O(2^v)` multiplications in all.
pub fn lagrange_efficient(lagrange: &Lagrange, x: &Vec<u64>) -> (r: Result<u64, MleError>)
    requires
        lagrange.wf(),
        lagrange.in_field(x@),
    ensures
        x@.len() != lagrange.num_vars() ==> r == Err::<u64, MleError>(
            MleError::DomainLengthMismatch { expected: lagrange.num_vars() as usize, found: x.len() },
        ),
        x@.len() == lagrange.num_vars() ==> (r matches Ok(v) && v == lagrange.value(x@)),
{
    if x.len() != lagrange.domain {
        return Err(MleError::DomainLengthMismatch { expected: lagrange.domain, found: x.len() });
    }
    let chis = lagrange.doubling_basis_values(x);
    let r = lagrange.dot_with_evals(&chis);
    proof {
        lemma_strategies_agree(lagrange, x@);
    }
    Ok(r)
}

impl Lagrange {
    /// The basis values `chi_{w_k}(x) mod p` of every vertex, built by
    /// doubling one coordinate at a time.
    fn doubling_basis_values(&self, x: &Vec<u64>) -> (r: Vec<u64>)
        requires
            self.wf(),
            self.in_field(x@),
            x@.len() == self.num_vars(),
        ensures
            lift(r@) == chi_table(self.num_vars(), lift(x@), self.modulus()),
            r.len() == self.f_evals.len(),
            forall|j: int| 0 <= j < r.len() ==> #[trigger] r[j] < self.modulus(),
    {
        let fld = &self.field;
        let ghost n = self.num_vars();
        let ghost m = fld.modulus as int;
        let ghost xs = lift(x@);
        let one = fld.one();
        let mut table: Vec<u64> = vec![one];
        proof {
            lemma2_to64();
            lemma_small_mod(1, m as nat);
        }
        let mut i: usize = 0;
        while i < self.domain
            invariant
                self.wf(),
                fld == &self.field,
                self.in_field(x@),
                x@.len() == n,
                n == self.num_vars(),
                m == self.modulus(),
                xs == lift(x@),
                one == 1,
                i <= n,
                table@.len() == pow2(i as nat),
                forall|k: int| 0 <= k < table.len() ==> #[trigger] table[k] < m,
                forall|k: int|
                    0 <= k < table.len() ==> #[trigger] table[k] == chi_prefix(point_of(k as nat, i as nat), xs, i as nat) % m,
            decreases n - i,
        {
            let xi = x[i];
            let not_xi = fld.sub(one, xi);
            proof {
                lemma_pow2_unfold((i + 1) as nat);
                if i + 1 < n {
                    lemma_pow2_strictly_increases((i + 1) as nat, n);
                }
                assert(self.evals().len() == self.f_evals.len());
                assert(2 * pow2(i as nat) <= usize::MAX);
                assert(xs[i as int] == xi as int);
                lemma_small_mod(xi as nat, m as nat);
            }
            let mut next: Vec<u64> = Vec::new();
            let mut k: usize = 0;
            while k < table.len()
                invariant
                    fld.wf(),
                    m == fld.modulus,
                    table@.len() == pow2(i as nat),
                    2 * pow2(i as nat) <= usize::MAX,
                    i < x@.len(),
                    xs[i as int] == xi as int,
                    xi < m,
                    not_xi == (1 - xi) % m,
                    forall|j: int| 0 <= j < table.len() ==> #[trigger] table[j] < m,
                    forall|j: int|
                        0 <= j < table.len() ==> #[trigger] table[j] == chi_prefix(point_of(j as nat, i as nat), xs, i as nat) % m,
                    k <= table.len(),
                    next.len() == 2 * k,
                    forall|j: int| 0 <= j < next.len() ==> #[trigger] next[j] < m,
                    forall|j: int|
                        0 <= j < next.len() ==> #[trigger] next[j] == chi_prefix(
                            point_of(j as nat, (i + 1) as nat),
                            xs,
                            (i + 1) as nat,
                        ) % m,
                decreases table.len() - k,
            {
                let c = table[k];
                let lo = fld.mul(c, not_xi);
                let hi = fld.mul(c, xi);
                let ghost p = chi_prefix(point_of(k as nat, i as nat), xs, i as nat);
                proof {
                    lemma_chi_prefix_extend(k as nat, false, i as nat, xs);
                    lemma_chi_prefix_extend(k as nat, true, i as nat, xs);
                    lemma_mul_mod_noop(p, 1 - xi, m);
                    lemma_mul_mod_noop(p, xi as int, m);
                    lemma_small_mod(xi as nat, m as nat);
                }
                next.push(lo);
                next.push(hi);
                proof {
                    assert(next[2 * k as int] == lo);
                    assert(next[2 * k + 1] == hi);
                }
                k = k + 1;
            }
            table = next;
            i = i + 1;
        }
        proof {
            assert forall|k: int| 0 <= k < table.len() implies #[trigger] table[k] == chi(point_of(k as nat, n), xs) % m by {
                lemma_point_len(k as nat, n);
            }
        }
        assert(lift(table@) =~= chi_table(n, xs, m as nat));
        table
    }
}

/// The evaluation strategies agree: tabulating the basis value of every
/// vertex first and then taking the dot product with the table (as
/// `interpolate` and `lagrange_efficient` do) gives the same field element
/// as summing `f(w) * chi_w(x)` term by term (as `slow_interpolate` does).
pub proof fn lemma_strategies_agree(l: &Lagrange, x: Seq<u64>)
    requires
        l.wf(),
    ensures
        dot_prefix(l.evals(), chi_table(l.num_vars(), lift(x), l.modulus()), l.evals().len()) % (
        l.modulus() as int) == l.value(x),
{
    lemma_tabulated_sum(l.evals(), l.num_vars(), lift(x), l.modulus(), l.evals().len());
}

/// The extension agrees with the function on the hypercube: at every vertex
/// `w` of `{0,1}^v`, given as a point of `0`s and `1`s, its value is the
/// table's value for `w`, which stands at position `index_of(w)`.
pub proof fn lemma_agrees_on_hypercube(l: &Lagrange, w: Seq<bool>)
    requires
        l.wf(),
        w.len() == l.num_vars(),
    ensures
        index_of(w) < l.evals().len(),
        l.points()[index_of(w) as int]@ == w,
        l.value(bool_point(w)) == l.evals()[index_of(w) as int],
{
    lemma_index_of(w);
    lemma_mle_at_vertex(l.evals(), w);
    let e = l.evals()[index_of(w) as int];
    lemma_small_mod(e as nat, l.modulus());
}

/// Multilinearity: with every coordinate but `i` fixed, the extension is an
/// affine function of coordinate `i`:
/// `f~(x[i := a]) = f~(x[i := 0]) + a * (f~(x[i := 1]) - f~(x[i := 0]))` in
/// the field.
pub proof fn lemma_multilinear(l: &Lagrange, x: Seq<u64>, i: int, a: u64)
    requires
        l.wf(),
        x.len() == l.num_vars(),
        0 <= i < x.len(),
    ensures
        l.value(x.update(i, a)) == (l.value(x.update(i, 0)) + a * (l.value(x.update(i, 1)) - l.value(
            x.update(i, 0),
        ))) % (l.modulus() as int),
{
    let m = l.modulus() as int;
    let n = l.num_vars();
    let xs = lift(x);
    assert(lift(x.update(i, a)) =~= xs.update(i, a as int));
    assert(lift(x.update(i, 0)) =~= xs.update(i, 0));
    assert(lift(x.update(i, 1)) =~= xs.update(i, 1));
    lemma_mle_affine(l.evals(), xs, i, a as int);
    let m0 = mle(l.evals(), n, xs.update(i, 0));
    let m1 = mle(l.evals(), n, xs.update(i, 1));
    let d = m1 - m0;
    let dm = m1 % m - m0 % m;
    // f~(x[i := a]) = m0 + a * d over the integers; reduce both sides.
    lemma_add_mod_noop(m0, a * d, m);
    lemma_add_mod_noop(m0 % m, a * dm, m);
    lemma_mod_twice(m0, m);
    lemma_mul_mod_noop_right(a as int, d, m);
    lemma_mul_mod_noop_right(a as int, dm, m);
    lemma_sub_mod_noop(m1, m0, m);
}

/// With no variables the extension is the constant `f(())`: its value at
/// the one point of length zero is the table's only entry.
pub proof fn lemma_no_vars_constant(l: &Lagrange, x: Seq<u64>)
    requires
        l.wf(),
        l.num_vars() == 0,
        x.len() == 0,
    ensures
        l.evals().len() == 1,
        l.value(x) == l.evals()[0],
{
    lemma2_to64();
    lemma_mle_no_vars(l.evals(), lift(x));
    lemma_small_mod(l.evals()[0] as nat, l.modulus());
}

} // verus!
