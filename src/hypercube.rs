//! The boolean hypercube `{0,1}^n` and its fixed enumeration order.
use itertools::Itertools;
use vstd::arithmetic::power2::*;
use vstd::prelude::*;

verus! {

/// The `k`-th vertex of `{0,1}^n` in lexicographic order over
/// `(false, true)`, most significant coordinate first: coordinate `i` is bit
/// `n - 1 - i` of `k`.
pub open spec fn point_of(k: nat, n: nat) -> Seq<bool>
    decreases n,
{
    if n == 0 {
        Seq::empty()
    } else {
        point_of(k / 2, (n - 1) as nat).push(k % 2 == 1)
    }
}

/// The position of the vertex `w` in the enumeration: `w` read as a binary
/// number, most significant coordinate first.
pub open spec fn index_of(w: Seq<bool>) -> nat
    decreases w.len(),
{
    if w.len() == 0 {
        0
    } else {
        2 * index_of(w.drop_last()) + (if w.last() {
            1nat
        } else {
            0nat
        })
    }
}

/// The vertices of `{0,1}^n`, in enumeration order.
pub open spec fn hypercube(n: nat) -> Seq<Seq<bool>> {
    Seq::new(pow2(n), |k: int| point_of(k as nat, n))
}

/// Every vertex has `n` coordinates.
pub proof fn lemma_point_len(k: nat, n: nat)
    ensures
        #[trigger] point_of(k, n).len() == n,
    decreases n,
{
    if n > 0 {
        lemma_point_len(k / 2, (n - 1) as nat);
    }
}

/// Distinct positions give distinct vertices.
pub proof fn lemma_point_injective(j: nat, k: nat, n: nat)
    requires
        j < pow2(n),
        k < pow2(n),
        point_of(j, n) == point_of(k, n),
    ensures
        j == k,
    decreases n,
{
    if n == 0 {
        assert(pow2(0) == 1) by {
            lemma_pow2_unfold(1);
            lemma2_to64();
        }
    } else {
        let m = (n - 1) as nat;
        lemma_pow2_unfold(n);
        lemma_point_len(j / 2, m);
        lemma_point_len(k / 2, m);
        assert(point_of(j, n).last() == (j % 2 == 1));
        assert(point_of(k, n).last() == (k % 2 == 1));
        assert(point_of(j / 2, m) == point_of(j, n).drop_last());
        assert(point_of(k / 2, m) == point_of(k, n).drop_last());
        lemma_point_injective(j / 2, k / 2, m);
    }
}

/// Every boolean vector of length `n` is a vertex, at position `index_of(w)`.
pub proof fn lemma_index_of(w: Seq<bool>)
    ensures
        index_of(w) < pow2(w.len()),
        point_of(index_of(w), w.len()) == w,
    decreases w.len(),
{
    if w.len() == 0 {
        lemma2_to64();
    } else {
        let p = w.drop_last();
        lemma_index_of(p);
        lemma_pow2_unfold(w.len());
        let b: nat = if w.last() {
            1
        } else {
            0
        };
        let k = 2 * index_of(p) + b;
        assert(k / 2 == index_of(p));
        assert(k % 2 == b);
        assert(point_of(k, w.len()) =~= w);
    }
}

/// Relies on `itertools::Itertools::multi_cartesian_product`: the product of
/// the axes in lexicographic order, the last axis varying fastest, and a
/// single empty vector when there are no axes. With every axis
/// `[false, true]` that is the enumeration of `point_of`.
#[verifier::external_body]
fn cartesian_product(axes: Vec<Vec<bool>>) -> (r: Vec<Vec<bool>>)
    requires
        pow2(axes.len() as nat) <= usize::MAX,
        forall|i: int| 0 <= i < axes.len() ==> (#[trigger] axes[i])@ == seq![false, true],
    ensures
        r@.len() == pow2(axes.len() as nat),
        forall|k: int| 0 <= k < r.len() ==> (#[trigger] r[k])@ == point_of(k as nat, axes.len() as nat),
{
    axes.into_iter().multi_cartesian_product().collect()
}

/// The vertices of `{0,1}^n`, in enumeration order.
pub fn hypercube_points(n: usize) -> (r: Vec<Vec<bool>>)
    requires
        pow2(n as nat) <= usize::MAX,
    ensures
        r@.len() == pow2(n as nat),
        forall|k: int| 0 <= k < r.len() ==> (#[trigger] r[k])@ == point_of(k as nat, n as nat),
{
    let mut axes: Vec<Vec<bool>> = Vec::new();
    let mut i: usize = 0;
    while i < n
        invariant
            i <= n,
            axes.len() == i,
            forall|j: int| 0 <= j < axes.len() ==> (#[trigger] axes[j])@ == seq![false, true],
        decreases n - i,
    {
        let axis: Vec<bool> = vec![false, true];
        axes.push(axis);
        i = i + 1;
    }
    cartesian_product(axes)
}

} // verus!
