use piopkit::field::PrimeField;
use piopkit::hypercube::{coeffs_to_evals_inplace, evals_to_coeffs_inplace, evalscalars_to_coeffscalars};
use piopkit::multilinear::{
    evaluate_at_fromcoeff, evaluate_at_fromevals, evaluate_at_fromevals_inplace, sum_over_hypercube_fromcoeff,
    sum_over_hypercube_withscalars, MultilinearBasis, MultilinearBasisEvals,
};
use piopkit::rng::gen_random;
use piopkit::util::bits_from_int;
use rand_seeder::{Seeder, SipRng};

const Q: u64 = 65537;

fn rng(seed: &str) -> SipRng {
    Seeder::from(seed).into_rng()
}

fn field() -> PrimeField {
    PrimeField::new(Q).unwrap()
}

fn mulm(a: u64, b: u64) -> u64 {
    ((a as u128 * b as u128) % Q as u128) as u64
}

fn addm(a: u64, b: u64) -> u64 {
    ((a as u128 + b as u128) % Q as u128) as u64
}

/// The value of the multilinear polynomial with coefficients `coeffs`
/// (coefficient `i` belongs to the monomial of the variables set in `i`) at `x`.
fn naive_value(coeffs: &[u64], x: &[u64]) -> u64 {
    let mut acc = 0;
    for (i, &c) in coeffs.iter().enumerate() {
        let mut term = c;
        for (n, &xn) in x.iter().enumerate() {
            if (i >> n) & 1 == 1 {
                term = mulm(term, xn);
            }
        }
        acc = addm(acc, term);
    }
    acc
}

/// The hypercube point `j` as field elements.
fn point(j: usize, n: usize) -> Vec<u64> {
    (0..n).map(|k| ((j >> k) & 1) as u64).collect()
}

/// eq(z, x) = prod (z_k x_k + (1 - z_k)(1 - x_k)).
fn naive_eq(z: &[u64], x: &[u64]) -> u64 {
    let mut acc = 1;
    for k in 0..z.len() {
        let a = mulm(z[k], x[k]);
        let b = mulm((1 + Q - z[k]) % Q, (1 + Q - x[k]) % Q);
        acc = mulm(acc, addm(a, b));
    }
    acc
}

#[test]
fn test_hypercube_coeffs() {
    let field = field();
    let mut rng = rng("test_hypercube_coeffs");

    let n = 5;
    let randomcoeffs = gen_random(&field, &mut rng, 1 << n);
    let mut coeffs = randomcoeffs.clone();

    assert!(randomcoeffs.iter().zip(coeffs.iter()).all(|(l, r)| l == r));

    coeffs_to_evals_inplace(&field, n, &mut coeffs);
    let evals: Vec<u64> = (0..(1 << n)).map(|j| naive_value(&randomcoeffs, &point(j, n))).collect();

    assert!(evals.iter().zip(coeffs.iter()).all(|(l, r)| l == r));

    evals_to_coeffs_inplace(&field, n, &mut coeffs);

    assert!(randomcoeffs.iter().zip(coeffs.iter()).all(|(l, r)| l == r));
}

#[test]
fn test_hypercube_folding() {
    let field = field();
    let mut rng = rng("test_hypercube_folding");

    let n = 7;
    let randomcoeffs = gen_random(&field, &mut rng, 1 << n);
    let evals: Vec<u64> = (0..(1 << n)).map(|j| naive_value(&randomcoeffs, &point(j, n))).collect();

    let rs = gen_random(&field, &mut rng, n);

    assert!((0..n).rev().all(|i| {
        // the polynomial with variables i.. set to rs[i..]
        let foldedpolyevals: Vec<u64> = (0..(1 << i))
            .map(|j| {
                let mut x = point(j, i);
                x.extend_from_slice(&rs[i..]);
                naive_value(&randomcoeffs, &x)
            })
            .collect();

        let foldedcoeffs = evaluate_at_fromcoeff(&field, n, &rs[i..], &randomcoeffs);
        let mut foldedevals = evals.clone();
        evaluate_at_fromevals_inplace(&field, n, &rs[i..], &mut foldedevals);

        let res1 = foldedevals.iter().zip(foldedpolyevals.iter()).all(|(l, r)| l == r);

        // the coefficients of the folded polynomial give its values
        let res2 = (0..(1 << i)).all(|j| naive_value(&foldedcoeffs, &point(j, i)) == foldedpolyevals[j]);
        assert!(foldedcoeffs.len() == 1 << i);
        res1 && res2
    }));
}

#[test]
fn test_multilinear_basis() {
    let field = field();

    let n = 5;
    let randint = 19;
    let z: Vec<u64> = bits_from_int(randint, n).iter().map(|&b| b as u64).collect();

    let mb = MultilinearBasis::new(&field, &z);

    assert!((0..(1 << n)).all(|i| {
        let eval = mb.evaluate(&point(i, n));
        if i == randint { eval == 1 } else { eval == 0 }
    }));

    let mut rng = rng("test_multilinear_basis");
    let randpoint = gen_random(&field, &mut rng, n);
    assert_eq!(naive_eq(&z, &randpoint), mb.evaluate(&randpoint));
}

#[test]
fn test_multilinear_basis_evals() {
    let field = field();
    let mut rng = rng("test_multilinear_basis_evals");

    let n = 5;
    let z = gen_random(&field, &mut rng, n);

    let mb = MultilinearBasis::new(&field, &z);
    let evals_slow = mb.evals_slow();
    let mut mbe = MultilinearBasisEvals::new(&field, &z);
    let mut fast = Vec::new();
    while let Some(e) = mbe.next() {
        fast.push(e);
    }
    assert_eq!(fast.len(), 1 << n);

    assert!((0..(1 << n)).all(|i| {
        let eval = naive_eq(&z, &point(i, n));
        evals_slow[i] == eval && fast[i] == eval
    }));
}

#[test]
fn test_sumoverhypercube() {
    let field = field();
    let mut rng = rng("test_sumoverhypercube");

    let n = 5;
    let zvec = gen_random(&field, &mut rng, n);
    let randomcoeffs = gen_random(&field, &mut rng, 1 << n);

    let hsum = |f: &dyn Fn(&[u64]) -> u64| -> u64 {
        (0..(1 << n)).fold(0, |acc, j| addm(acc, f(&point(j, n))))
    };

    // the polynomial with the highest variable set to zero
    let sum0 = hsum(&|x: &[u64]| {
        let mut x0 = x.to_vec();
        x0[n - 1] = 0;
        naive_value(&randomcoeffs, &x0)
    });
    let half: Vec<u64> = randomcoeffs[..1 << (n - 1)].to_vec();
    assert_eq!(sum0, sum_over_hypercube_fromcoeff(&field, 1 << n, &half));

    // its difference at one and zero
    let sum10 = hsum(&|x: &[u64]| {
        let mut x0 = x.to_vec();
        x0[n - 1] = 0;
        let mut x1 = x.to_vec();
        x1[n - 1] = 1;
        (naive_value(&randomcoeffs, &x1) + Q - naive_value(&randomcoeffs, &x0)) % Q
    });
    let upper: Vec<u64> = randomcoeffs[1 << (n - 1)..].to_vec();
    assert_eq!(sum10, sum_over_hypercube_fromcoeff(&field, 1 << n, &upper));

    let sumall = hsum(&|x: &[u64]| naive_value(&randomcoeffs, x));
    assert_eq!(sumall, sum_over_hypercube_fromcoeff(&field, 1 << n, &randomcoeffs));

    let mut scalars = vec![1u64; 1 << n];
    evalscalars_to_coeffscalars(&field, n, &mut scalars);
    assert_eq!(sumall, sum_over_hypercube_withscalars(&field, &scalars, &randomcoeffs));

    let y = naive_value(&randomcoeffs, &zvec);
    let scsum = hsum(&|x: &[u64]| mulm(naive_value(&randomcoeffs, x), naive_eq(&zvec, x)));
    assert_eq!(scsum, y);
    assert_eq!(evaluate_at_fromcoeff(&field, n, &zvec, &randomcoeffs)[0], y);
}

#[test]
fn evaluate_at_fromevals_matches_coefficients() {
    let field = field();
    let mut rng = rng("fromevals");
    let n = 4;
    let coeffs = gen_random(&field, &mut rng, 1 << n);
    let mut evals = coeffs.clone();
    coeffs_to_evals_inplace(&field, n, &mut evals);
    let at = gen_random(&field, &mut rng, n);
    assert_eq!(evaluate_at_fromevals(&field, &at, &evals), naive_value(&coeffs, &at));
}

#[test]
fn hypercube_transforms_exact_values() {
    let field = field();
    // f = 1 + 2 x0 + 3 x1 + 4 x0 x1 has values 1, 3, 4, 10 at 00, 10, 01, 11
    let mut c = vec![1, 2, 3, 4];
    coeffs_to_evals_inplace(&field, 2, &mut c);
    assert_eq!(c, vec![1, 3, 4, 10]);
    evals_to_coeffs_inplace(&field, 2, &mut c);
    assert_eq!(c, vec![1, 2, 3, 4]);
    // the sum of the values over the hypercube
    assert_eq!(sum_over_hypercube_fromcoeff(&field, 4, &[1, 2, 3, 4]), 18);
}

#[test]
fn multilinear_basis_point_exact_value() {
    let field = field();
    // eq((2, 3), (5, 7)) = (10 + 4) * (21 + 12)
    let mb = MultilinearBasis::new(&field, &[2, 3]);
    assert_eq!(mb.evaluate(&[5, 7]), 14 * 33);
    assert_eq!(mb.evaluate_athc(vec![1, 0]), mulm(2, (1 + Q - 3) % Q));
}

#[test]
fn transposed_transform_of_eq_gives_monomials() {
    let field = field();
    let mut rng = rng("transposed_eq");
    let n = 4;
    let z = gen_random(&field, &mut rng, n);
    let mut scal = MultilinearBasis::new(&field, &z).evals_slow();
    evalscalars_to_coeffscalars(&field, n, &mut scal);
    for k in 0..(1 << n) {
        let mut mono = 1;
        for i in 0..n {
            if (k >> i) & 1 == 1 {
                mono = mulm(mono, z[i]);
            }
        }
        assert_eq!(scal[k], mono);
    }
}

#[test]
fn fixing_one_more_variable_folds_the_coefficients() {
    let field = field();
    let mut rng = rng("restrict_step");
    let n = 5;
    let coeff = gen_random(&field, &mut rng, 1 << n);
    let r = gen_random(&field, &mut rng, 2);
    let x = field.random_element(&mut rng);
    let g = evaluate_at_fromcoeff(&field, n, &r, &coeff);
    let mut xr = vec![x];
    xr.extend_from_slice(&r);
    let g2 = evaluate_at_fromcoeff(&field, n, &xr, &coeff);
    let h = g.len() / 2;
    for l in 0..h {
        assert_eq!(g2[l], addm(g[l], mulm(x, g[l + h])));
    }
}

#[test]
fn multilinear_basis_evals_clone_continues() {
    let field = field();
    let mut rng = rng("mbe_clone");
    let z = gen_random(&field, &mut rng, 3);
    let mut a = MultilinearBasisEvals::new(&field, &z);
    a.next();
    a.next();
    let mut b = a.clone();
    for _ in 0..6 {
        assert_eq!(a.next(), b.next());
    }
    assert_eq!(a.next(), None);
    a.reset();
    assert_eq!(a.next(), Some(naive_eq(&z, &point(0, 3))));
}
