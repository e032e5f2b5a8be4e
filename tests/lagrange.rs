use itertools::Itertools;
use mle_eval::example::f;
use mle_eval::field::{FqConfig, PrimeField};
use mle_eval::hypercube::hypercube_points;
use mle_eval::lagrange::{lagrange_efficient, Lagrange, MleError};

/// The values of the extension of `f` on all of `F_5 x F_5`.
fn expected(x: &[u64]) -> u64 {
    let fld = FqConfig::field();
    fld.from_u64(match (x[0], x[1]) {
        (0, 0) => 1,
        (0, 1) => 2,
        (0, 2) => 3,
        (0, 3) => 4,
        (0, 4) => 5,

        (1, 0) => 1,
        (1, 1) => 4,
        (1, 2) => 2,
        (1, 3) => 0,
        (1, 4) => 3,

        (2, 0) => 1,
        (2, 1) => 1,
        (2, 2) => 1,
        (2, 3) => 1,
        (2, 4) => 1,

        (3, 0) => 1,
        (3, 1) => 3,
        (3, 2) => 0,
        (3, 3) => 2,
        (3, 4) => 4,

        (4, 0) => 1,
        (4, 1) => 0,
        (4, 2) => 4,
        (4, 3) => 3,
        (4, 4) => 2,
        _ => panic!(),
    })
}

#[test]
fn test_slow() {
    let fld = FqConfig::field();
    for x in (0..2).map(|_| 0..5u64).multi_cartesian_product() {
        let a = expected(&x);
        let lagrange = Lagrange::new(f, 2, FqConfig::field()).unwrap();
        let b = lagrange
            .slow_interpolate(&vec![fld.from_u64(x[0]), fld.from_u64(x[1])])
            .unwrap();
        println!("{x:?}{a:?} {b:?}");
        assert_eq!(a, b, "incorrect evaluation of multilinear extension f_tilde");
    }
}

#[test]
fn test_fast() {
    let fld = FqConfig::field();
    for x in (0..2).map(|_| 0..5u64).multi_cartesian_product() {
        let a = expected(&x);
        let lagrange = Lagrange::new(f, 2, FqConfig::field()).unwrap();
        let b = lagrange
            .interpolate(&vec![fld.from_u64(x[0]), fld.from_u64(x[1])])
            .unwrap();
        println!("{x:?}{a:?} {b:?}");
        assert_eq!(a, b, "incorrect evaluation of multilinear extension f_tilde");
    }
}

#[test]
fn efficient_matches_reference_table() {
    let lagrange = Lagrange::new(f, 2, FqConfig::field()).unwrap();
    for x0 in 0..5u64 {
        for x1 in 0..5u64 {
            let b = lagrange_efficient(&lagrange, &vec![x0, x1]).unwrap();
            assert_eq!(b, expected(&[x0, x1]));
        }
    }
}

#[test]
fn sample_at_two_three() {
    let lagrange = Lagrange::new(f, 2, FqConfig::field()).unwrap();
    assert_eq!(lagrange.interpolate(&vec![2, 3]), Ok(1));
    assert_eq!(lagrange.slow_interpolate(&vec![2, 3]), Ok(1));
    assert_eq!(lagrange_efficient(&lagrange, &vec![2, 3]), Ok(1));
}

#[test]
fn sample_reproduces_vertices() {
    let lagrange = Lagrange::new(f, 2, FqConfig::field()).unwrap();
    assert_eq!(lagrange.interpolate(&vec![0, 0]), Ok(1));
    assert_eq!(lagrange.interpolate(&vec![0, 1]), Ok(2));
    assert_eq!(lagrange.interpolate(&vec![1, 0]), Ok(1));
    assert_eq!(lagrange.interpolate(&vec![1, 1]), Ok(4));
}

/// A function on `{0,1}^3` with values in `F_7`.
fn g(w: &Vec<bool>) -> Result<u64, MleError> {
    if w.len() != 3 {
        return Err(MleError::DomainLengthMismatch { expected: 3, found: w.len() });
    }
    let k = (w[0] as u64) * 4 + (w[1] as u64) * 2 + (w[2] as u64);
    Ok([3, 0, 6, 1, 5, 2, 4, 6][k as usize])
}

fn all_strategies(l: &Lagrange, x: &Vec<u64>) -> Result<u64, MleError> {
    let a = l.slow_interpolate(x);
    let b = l.interpolate(x);
    let c = lagrange_efficient(l, x);
    assert_eq!(a, b);
    assert_eq!(a, c);
    a
}

#[test]
fn agrees_on_every_vertex() {
    let fld = PrimeField::new(7).unwrap();
    let l = Lagrange::new(g, 3, fld).unwrap();
    for w in hypercube_points(3) {
        let x: Vec<u64> = w.iter().map(|b| *b as u64).collect();
        assert_eq!(all_strategies(&l, &x), g(&w));
    }
}

#[test]
fn strategies_agree_everywhere() {
    let fld = PrimeField::new(7).unwrap();
    let l = Lagrange::new(g, 3, fld).unwrap();
    for x in (0..3).map(|_| 0..7u64).multi_cartesian_product() {
        assert!(all_strategies(&l, &x).is_ok());
    }
}

#[test]
fn affine_in_each_coordinate() {
    let fld = PrimeField::new(7).unwrap();
    let l = Lagrange::new(g, 3, PrimeField::new(7).unwrap()).unwrap();
    for x in (0..3).map(|_| 0..7u64).multi_cartesian_product() {
        for i in 0..3 {
            let at = |a: u64| {
                let mut y = x.clone();
                y[i] = a;
                l.interpolate(&y).unwrap()
            };
            let v0 = at(0);
            let v1 = at(1);
            let slope = fld.sub(v1, v0);
            for a in 0..7u64 {
                assert_eq!(at(a), fld.add(v0, fld.mul(a, slope)));
            }
        }
    }
}

#[test]
fn basis_indicator() {
    let fld = PrimeField::new(5).unwrap();
    for target in hypercube_points(2) {
        let t = target.clone();
        let ind = move |w: &Vec<bool>| -> Result<u64, MleError> { Ok(if *w == t { 1 } else { 0 }) };
        let l = Lagrange::new(ind, 2, fld).unwrap();
        for w in hypercube_points(2) {
            let x: Vec<u64> = w.iter().map(|b| *b as u64).collect();
            let want = if w == target { 1 } else { 0 };
            assert_eq!(all_strategies(&l, &x), Ok(want));
        }
    }
}

#[test]
fn no_variables_is_constant() {
    let c = |w: &Vec<bool>| -> Result<u64, MleError> {
        assert!(w.is_empty());
        Ok(3)
    };
    let l = Lagrange::new(c, 0, FqConfig::field()).unwrap();
    assert_eq!(all_strategies(&l, &vec![]), Ok(3));
    assert_eq!(
        all_strategies(&l, &vec![1]),
        Err(MleError::DomainLengthMismatch { expected: 0, found: 1 })
    );
}

#[test]
fn length_mismatch_is_refused() {
    let l = Lagrange::new(f, 2, FqConfig::field()).unwrap();
    for n in [0usize, 1, 3, 4] {
        let x = vec![1u64; n];
        assert_eq!(
            all_strategies(&l, &x),
            Err(MleError::DomainLengthMismatch { expected: 2, found: n })
        );
    }
}

#[test]
fn function_error_is_propagated() {
    assert_eq!(
        Lagrange::new(f, 3, FqConfig::field()).err(),
        Some(MleError::DomainLengthMismatch { expected: 2, found: 3 })
    );
    let partial = |w: &Vec<bool>| -> Result<u64, MleError> {
        if w[0] && w[1] {
            Err(MleError::UnmappedInput)
        } else {
            Ok(1)
        }
    };
    assert_eq!(Lagrange::new(partial, 2, FqConfig::field()).err(), Some(MleError::UnmappedInput));
}

#[test]
fn values_are_taken_into_the_field() {
    let big = |_w: &Vec<bool>| -> Result<u64, MleError> { Ok(12) };
    let l = Lagrange::new(big, 1, FqConfig::field()).unwrap();
    assert_eq!(all_strategies(&l, &vec![0]), Ok(2));
    assert_eq!(all_strategies(&l, &vec![1]), Ok(2));
    assert_eq!(all_strategies(&l, &vec![3]), Ok(2));
}

#[test]
fn hypercube_order() {
    assert_eq!(hypercube_points(0), vec![Vec::<bool>::new()]);
    assert_eq!(
        hypercube_points(2),
        vec![vec![false, false], vec![false, true], vec![true, false], vec![true, true]]
    );
    assert_eq!(hypercube_points(4).len(), 16);
    assert_eq!(hypercube_points(3)[5], vec![true, false, true]);
}

#[test]
fn field_arithmetic() {
    assert!(PrimeField::new(0).is_none());
    assert!(PrimeField::new(1).is_none());
    let fld = PrimeField::new(5).unwrap();
    assert_eq!(fld.zero(), 0);
    assert_eq!(fld.one(), 1);
    assert_eq!(fld.from_u64(26), 1);
    assert_eq!(fld.add(3, 4), 2);
    assert_eq!(fld.sub(1, 3), 3);
    assert_eq!(fld.mul(4, 4), 1);
    assert_eq!(FqConfig::MODULUS, 5);
}

#[test]
fn field_arithmetic_near_the_word_size() {
    let p: u64 = 18446744073709551557;
    let fld = PrimeField::new(p).unwrap();
    assert_eq!(fld.add(p - 1, p - 1), p - 2);
    assert_eq!(fld.sub(0, 1), p - 1);
    assert_eq!(fld.mul(p - 1, p - 1), 1);
    assert_eq!(fld.from_u64(u64::MAX), u64::MAX - p);
}

#[test]
fn extension_over_a_large_field() {
    let p: u64 = 18446744073709551557;
    let big = |w: &Vec<bool>| -> Result<u64, MleError> { Ok(if w[0] { p - 1 } else { 2 }) };
    let l = Lagrange::new(big, 1, PrimeField::new(p).unwrap()).unwrap();
    assert_eq!(all_strategies(&l, &vec![0]), Ok(2));
    assert_eq!(all_strategies(&l, &vec![1]), Ok(p - 1));
    // f~(x) = 2 + x * (-1 - 2) = 2 - 3x; at x = 2 that is -4.
    assert_eq!(all_strategies(&l, &vec![2]), Ok(p - 4));
}
