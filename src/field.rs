//! Arithmetic in the integers modulo a fixed modulus, with elements held as
//! their canonical residues.
use vstd::arithmetic::div_mod::*;
use vstd::prelude::*;

verus! {

/// A prime field `F_p`, given by its modulus `p`.
///
/// Elements are `u64` values in `0..p`. The operations are those of the
/// integers modulo `p`; every property proved in this crate holds for any
/// modulus of at least two, prime or not.
#[derive(Clone, Copy, Debug)]
pub struct PrimeField {
    pub modulus: u64,
}

/// The field of five elements.
pub struct FqConfig;

impl FqConfig {
    /// The modulus of this field.
    pub const MODULUS: u64 = 5;

    /// The field `F_5`.
    pub fn field() -> (r: PrimeField)
        ensures
            r.wf(),
            r.modulus == 5,
    {
        PrimeField { modulus: Self::MODULUS }
    }
}

impl PrimeField {
    /// A modulus of at least two, so that `0 != 1`.
    pub open spec fn wf(&self) -> bool {
        self.modulus >= 2
    }

    /// `a` is a canonical element of this field.
    pub open spec fn contains(&self, a: u64) -> bool {
        a < self.modulus
    }

    /// Every entry of `xs` is a canonical element of this field.
    pub open spec fn contains_all(&self, xs: Seq<u64>) -> bool {
        forall|i: int| 0 <= i < xs.len() ==> #[trigger] self.contains(xs[i])
    }

    /// The field modulo `modulus`; `None` for a modulus below two.
    pub fn new(modulus: u64) -> (r: Option<PrimeField>)
        ensures
            r is Some <==> modulus >= 2,
            r matches Some(fld) ==> fld.wf() && fld.modulus == modulus,
    {
        if modulus >= 2 {
            Some(PrimeField { modulus })
        } else {
            None
        }
    }

    /// The additive identity.
    pub fn zero(&self) -> (r: u64)
        requires
            self.wf(),
        ensures
            r == 0,
            self.contains(r),
    {
        0
    }

    /// The multiplicative identity.
    pub fn one(&self) -> (r: u64)
        requires
            self.wf(),
        ensures
            r == 1,
            self.contains(r),
    {
        1
    }

    /// The element that the integer `n` stands for: `n mod p`.
    pub fn from_u64(&self, n: u64) -> (r: u64)
        requires
            self.wf(),
        ensures
            r == n % self.modulus,
            self.contains(r),
    {
        n % self.modulus
    }

    /// `a + b` in the field.
    pub fn add(&self, a: u64, b: u64) -> (r: u64)
        requires
            self.wf(),
            self.contains(a),
            self.contains(b),
        ensures
            r == (a + b) % (self.modulus as int),
            self.contains(r),
    {
        let m = self.modulus;
        if a >= m - b {
            let r = a - (m - b);
            proof {
                lemma_small_mod(r as nat, m as nat);
                lemma_mod_multiples_vanish(1, r as int, m as int);
            }
            r
        } else {
            let r = a + b;
            proof {
                lemma_small_mod(r as nat, m as nat);
            }
            r
        }
    }

    /// `a - b` in the field.
    pub fn sub(&self, a: u64, b: u64) -> (r: u64)
        requires
            self.wf(),
            self.contains(a),
            self.contains(b),
        ensures
            r == (a - b) % (self.modulus as int),
            self.contains(r),
    {
        let m = self.modulus;
        if a >= b {
            let r = a - b;
            proof {
                lemma_small_mod(r as nat, m as nat);
            }
            r
        } else {
            let r = m - (b - a);
            proof {
                lemma_small_mod(r as nat, m as nat);
                lemma_mod_multiples_vanish(1, a - b, m as int);
            }
            r
        }
    }

    /// `a * b` in the field.
    pub fn mul(&self, a: u64, b: u64) -> (r: u64)
        requires
            self.wf(),
            self.contains(a),
            self.contains(b),
        ensures
            r == (a * b) % (self.modulus as int),
            self.contains(r),
    {
        let m = self.modulus as u128;
        proof {
            assert((a as int) * (b as int) <= (u64::MAX as int) * (u64::MAX as int)) by (nonlinear_arith)
                requires
                    0 <= a <= u64::MAX,
                    0 <= b <= u64::MAX,
            ;
        }
        let p = (a as u128) * (b as u128);
        let r = p % m;
        r as u64
    }
}

} // verus!
