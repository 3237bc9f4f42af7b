use piopkit::basefold::{basefold_evalscalars, interpdeg1, poly_eval, sumcheck_sum_basefold, BaseFoldPCS};
use piopkit::codes::FoldableCode;
use piopkit::field::PrimeField;
use piopkit::multilinear::evaluate_at_fromcoeff;
use piopkit::rng::{gen_random, FiatShamirSim};
use rand_seeder::{Seeder, SipRng};

const VREP: usize = 100;

fn rng(seed: &str) -> SipRng {
    Seeder::from(seed).into_rng()
}

fn field() -> PrimeField {
    PrimeField::new(65537).unwrap()
}

/// The value of the polynomial with coefficients `coeff` at `z`.
fn value_at(field: &PrimeField, coeff: &[u64], z: &[u64]) -> u64 {
    evaluate_at_fromcoeff(field, z.len(), z, coeff)[0]
}

#[test]
fn test_basefolding() {
    let field = field();
    let mut rng = rng("test_basefolding");

    let n_vars = 7;
    let k0 = 1;
    let c = 2;
    let bf = BaseFoldPCS::new(&field, n_vars, k0, c, VREP);

    let randomcoeffs = gen_random(&field, &mut rng, 1 << n_vars);
    let topcode = bf.commit(&randomcoeffs).code_el;

    let chall = field.random_element(&mut rng);

    let code = bf.code();
    let d = code.d();
    let n = code.n(d - 1);
    let t = code.t(d - 1);
    let foldedcode: Vec<u64> = (0..n)
        .map(|i| interpdeg1(&field, t[i], topcode[i], topcode[i + n], chall))
        .collect();

    // the coefficients after setting the highest variable to `chall`
    let foldedevals = evaluate_at_fromcoeff(&field, n_vars, &[chall], &randomcoeffs);

    assert!(foldedcode.len() == code.n(d - 1));
    assert!(foldedevals.len() == code.k(d - 1));

    let foldedcode2 = code.encode(&foldedevals);
    assert!(foldedcode2.len() == code.n(d - 1));

    assert!((0..code.n(d - 1)).all(|i| foldedcode[i] == foldedcode2[i]));
}

#[test]
fn test_basefoldpcs() {
    let field = field();
    let mut rng = rng("test_basefoldpcs");

    let n_vars = 5;
    let k0 = 2;
    let c = 2;
    let mut bf = BaseFoldPCS::new(&field, n_vars, k0, c, VREP);

    let randomcoeffs = gen_random(&field, &mut rng, 1 << n_vars);
    let z = gen_random(&field, &mut rng, n_vars);
    let y = value_at(&field, &randomcoeffs, &z);

    let com = bf.commit(&randomcoeffs);
    let proof = bf.eval(&com, &z, y, &randomcoeffs);

    assert!(bf.verify(com, &z, y, &randomcoeffs, proof));
}

#[test]
fn test_basefoldsumchecksum() {
    let field = field();
    let mut rng = rng("test_basefoldsumchecksum");

    let n_vars = 5;
    let randomcoeffs = gen_random(&field, &mut rng, 1 << n_vars);
    let zvec = gen_random(&field, &mut rng, n_vars);

    // the sum over the hypercube of poly * eq(z, .) is poly(z)
    let sum = value_at(&field, &randomcoeffs, &zvec);

    let mut hdfast = sumcheck_sum_basefold(&field, &randomcoeffs, &zvec, &[], Some(sum));
    let hdslow = sumcheck_sum_basefold(&field, &randomcoeffs, &zvec, &[], None);
    assert_eq!(
        field.add(poly_eval(&field, &hdfast, 0), poly_eval(&field, &hdfast, 1)),
        sum
    );
    assert_eq!(hdfast, hdslow);

    let mut rvec: Vec<u64> = vec![];
    for _ind in 1..=n_vars - 1 {
        let r = field.random_element(&mut rng);
        let sum = poly_eval(&field, &hdfast, r);
        rvec.insert(0, r);
        hdfast = sumcheck_sum_basefold(&field, &randomcoeffs, &zvec, &rvec, Some(sum));
        let hdslow = sumcheck_sum_basefold(&field, &randomcoeffs, &zvec, &rvec, None);
        assert_eq!(
            field.add(poly_eval(&field, &hdfast, 0), poly_eval(&field, &hdfast, 1)),
            sum
        );
        assert_eq!(hdfast, hdslow);
    }
}

#[test]
fn test_basefoldpcs_fast() {
    let field = field();
    let mut rng = rng("test_basefoldpcs_fast");

    let n_vars = 10;
    let k0 = 2;
    let c = 2;
    let mut bf = BaseFoldPCS::new(&field, n_vars, k0, c, VREP);

    let randomcoeffs = gen_random(&field, &mut rng, 1 << n_vars);
    let z = gen_random(&field, &mut rng, n_vars);
    let y = value_at(&field, &randomcoeffs, &z);

    let com = bf.commit(&randomcoeffs);
    let proof = bf.eval_fast(&com, &z, y, &randomcoeffs);

    assert!(bf.verify(com, &z, y, &randomcoeffs, proof));
}

#[test]
fn basefold_k0_one_accepts_and_wrong_value_rejected() {
    let field = field();
    let mut rng = rng("basefold_k0_one");

    let n_vars = 6;
    let mut bf = BaseFoldPCS::new(&field, n_vars, 1, 2, 20);

    let coeffs = gen_random(&field, &mut rng, 1 << n_vars);
    let z = gen_random(&field, &mut rng, n_vars);
    let y = value_at(&field, &coeffs, &z);

    let com = bf.commit(&coeffs);
    let proof = bf.eval_fast(&com, &z, y, &coeffs);
    let proof2 = proof.clone();
    assert!(bf.verify(com, &z, y, &coeffs, proof));

    // a claimed value that is not the polynomial's value is rejected
    let com = bf.commit(&coeffs);
    let wrong = field.add(y, 1);
    let proof = bf.eval_fast(&com, &z, wrong, &coeffs);
    assert!(!bf.verify(com, &z, wrong, &coeffs, proof));

    // a proof with a tampered codeword is rejected
    let com = bf.commit(&coeffs);
    let mut tampered = proof2;
    let last = tampered.code_els.len() - 1;
    for x in tampered.code_els[last].iter_mut() {
        *x = field.add(*x, 1);
    }
    assert!(!bf.verify(com, &z, y, &coeffs, tampered));
}

#[test]
fn basefold_proof_shape_is_checked() {
    let field = field();
    let mut rng = rng("basefold_shape");

    let n_vars = 4;
    let mut bf = BaseFoldPCS::new(&field, n_vars, 2, 2, 10);
    let coeffs = gen_random(&field, &mut rng, 1 << n_vars);
    let z = gen_random(&field, &mut rng, n_vars);
    let y = value_at(&field, &coeffs, &z);
    let com = bf.commit(&coeffs);
    let mut proof = bf.eval(&com, &z, y, &coeffs);
    assert_eq!(proof.code_els.len(), bf.code().d());
    assert_eq!(proof.sumcheck_els.len(), bf.code().d());
    assert_eq!(proof.sumcheck_last.len(), 2);
    // dropping the last coefficients makes the proof malformed
    proof.sumcheck_last.clear();
    assert!(!bf.verify(com, &z, y, &coeffs, proof));
}

#[test]
fn eval_and_eval_fast_agree_on_true_values() {
    let field = field();
    let mut rng = rng("eval_agree");

    let n_vars = 6;
    let mut bf = BaseFoldPCS::new(&field, n_vars, 4, 2, 10);
    let coeffs = gen_random(&field, &mut rng, 1 << n_vars);
    let z = gen_random(&field, &mut rng, n_vars);
    let y = value_at(&field, &coeffs, &z);
    let com = bf.commit(&coeffs);
    let p1 = bf.eval(&com, &z, y, &coeffs);
    let p2 = bf.eval_fast(&com, &z, y, &coeffs);
    assert_eq!(p1.code_els, p2.code_els);
    assert_eq!(p1.sumcheck_els, p2.sumcheck_els);
    assert_eq!(p1.sumcheck_last, p2.sumcheck_last);
}

#[test]
fn interpdeg1_exact_values() {
    let field = field();
    // the line through (3, 10) and (-3, 4) is 7 + X
    assert_eq!(interpdeg1(&field, 3, 10, 4, 0), 7);
    assert_eq!(interpdeg1(&field, 3, 10, 4, 3), 10);
    assert_eq!(interpdeg1(&field, 3, 10, 4, 65537 - 3), 4);
    assert_eq!(interpdeg1(&field, 3, 10, 4, 5), 12);
}

#[test]
fn poly_eval_exact_values() {
    let field = field();
    // 1 + 2X + 3X^2 at 2 is 17
    assert_eq!(poly_eval(&field, &[1, 2, 3], 2), 17);
    assert_eq!(poly_eval(&field, &[], 5), 0);
    assert_eq!(poly_eval(&field, &[65536, 1], 1), 0);
}

#[test]
fn proofsize_formula() {
    let field = field();
    let bf = BaseFoldPCS::new(&field, 5, 2, 2, 100);
    // d = 4, k0 = 2: (4*2*100 + 3*4 + 1) * (17 + log2(4 * 16) * 256)
    let d = 4;
    let expected = (d * 2 * 100 + 3 * d + 1) * (17 + 6 * 256);
    assert_eq!(bf.proofsize(), expected);
}

/// The value of the multilinear polynomial with coefficients `coeffs` at `x`.
fn naive_value(coeffs: &[u64], x: &[u64]) -> u64 {
    let q = 65537u128;
    let mut acc = 0u128;
    for (i, &c) in coeffs.iter().enumerate() {
        let mut term = c as u128;
        for (n, &xn) in x.iter().enumerate() {
            if (i >> n) & 1 == 1 {
                term = term * xn as u128 % q;
            }
        }
        acc = (acc + term) % q;
    }
    acc as u64
}

/// eq(z, x) modulo 65537.
fn naive_eq(z: &[u64], x: &[u64]) -> u64 {
    let q = 65537u128;
    let mut acc = 1u128;
    for k in 0..z.len() {
        let a = z[k] as u128 * x[k] as u128 % q;
        let b = (1 + q - z[k] as u128) % q * ((1 + q - x[k] as u128) % q) % q;
        acc = acc * ((a + b) % q) % q;
    }
    acc as u64
}

#[test]
fn round_polynomial_is_the_hypercube_sum() {
    let field = field();
    let mut rng = rng("round_sum");
    let n = 4;
    let coeffs = gen_random(&field, &mut rng, 1 << n);
    let z = gen_random(&field, &mut rng, n);
    // two challenges for the two highest variables, the last drawn first
    let r = gen_random(&field, &mut rng, 2);
    let h = sumcheck_sum_basefold(&field, &coeffs, &z, &r, None);
    let m = n - r.len();
    for c in [0u64, 1, 7, 40000] {
        let mut s = 0u64;
        for x in 0..(1usize << (m - 1)) {
            let mut pt: Vec<u64> = (0..m - 1).map(|k| ((x >> k) & 1) as u64).collect();
            pt.push(c);
            pt.extend_from_slice(&r);
            s = field.add(s, field.mul(naive_value(&coeffs, &pt), naive_eq(&z, &pt)));
        }
        assert_eq!(poly_eval(&field, &h, c), s);
    }
}

#[test]
fn basefold_without_folding_levels() {
    let field = field();
    let mut rng = rng("no_levels");
    // two variables and base messages of four entries: no folding level
    let mut bf = BaseFoldPCS::new(&field, 2, 4, 2, 10);
    assert_eq!(bf.code().d(), 0);
    let coeffs = gen_random(&field, &mut rng, 4);
    let z = gen_random(&field, &mut rng, 2);
    let y = value_at(&field, &coeffs, &z);
    let com = bf.commit(&coeffs);
    let proof = bf.eval_fast(&com, &z, y, &coeffs);
    assert_eq!(proof.code_els.len(), 0);
    assert_eq!(proof.sumcheck_els.len(), 1);
    assert_eq!(proof.sumcheck_last, coeffs);
    assert!(!bf.verify(com, &z, y, &coeffs, proof));
}

#[test]
fn verify_with_the_prover_challenges_accepts() {
    let field = field();
    let mut rng = rng("verify_with");
    let n_vars = 6;
    let mut bf = BaseFoldPCS::new(&field, n_vars, 4, 2, 8);
    let coeffs = gen_random(&field, &mut rng, 1 << n_vars);
    let z = gen_random(&field, &mut rng, n_vars);
    let y = value_at(&field, &coeffs, &z);
    let com = bf.commit(&coeffs);
    let proof = bf.eval_fast(&com, &z, y, &coeffs);
    // the prover drew its challenges from a fresh challenge generator
    let d = bf.code().d();
    let mut fs = FiatShamirSim::new(&field);
    let ch: Vec<u64> = (0..d).map(|_| fs.challenge()).collect();
    let nmu = bf.code().n(d - 1);
    let mus: Vec<usize> = (0..8).map(|j| (j * 7) % nmu).collect();
    assert!(bf.verify_with(&com, &z, y, &proof, &ch, &mus));
    // other challenges do not fit the proof
    let other: Vec<u64> = ch.iter().map(|&c| field.add(c, 1)).collect();
    assert!(!bf.verify_with(&com, &z, y, &proof, &other, &mus));
}

#[test]
fn reset_fs_restarts_the_challenges() {
    let field = field();
    let mut bf = BaseFoldPCS::new(&field, 4, 2, 2, 8);
    let a = bf.get_challenge();
    let b = bf.get_challenge();
    bf.reset_fs();
    assert_eq!(bf.get_challenge(), a);
    assert_eq!(bf.get_challenge(), b);
}

#[test]
fn basefold_evalscalars_values() {
    let field = field();
    let mut rng = rng("evalscalars");
    let z = gen_random(&field, &mut rng, 4);
    let ch = gen_random(&field, &mut rng, 2);
    let dmini = 2;
    let s = basefold_evalscalars(&field, &z, &ch, dmini);
    assert_eq!(s.len(), 8);
    // entry c * 2 + l is eq(z_hi, ch) * eq(ch, c) * eq(z_lo, l)
    let point = |k: usize, n: usize| -> Vec<u64> { (0..n).map(|i| ((k >> i) & 1) as u64).collect() };
    let ehi = naive_eq(&z[dmini..], &ch);
    for c in 0..4 {
        for l in 0..2 {
            let expected = field.mul(field.mul(ehi, naive_eq(&ch, &point(c, 2))), naive_eq(&z[..dmini - 1], &point(l, 1)));
            assert_eq!(s[c * 2 + l], expected);
        }
    }
}

#[test]
fn verify_rejects_a_wrong_value_at_a_point_with_zero_and_one() {
    let field = field();
    let mut rng = rng("zero_one_point");
    let n_vars = 5;
    let mut bf = BaseFoldPCS::new(&field, n_vars, 2, 2, 20);
    let coeffs = gen_random(&field, &mut rng, 1 << n_vars);
    let mut z = gen_random(&field, &mut rng, n_vars);
    z[0] = 1;
    z[1] = 0;
    let y = value_at(&field, &coeffs, &z);
    let wrong = field.add(y, 1);
    let com = bf.commit(&coeffs);
    let proof = bf.eval(&com, &z, wrong, &coeffs);
    assert!(!bf.verify(com, &z, wrong, &coeffs, proof));
}

#[test]
fn eval_leaves_the_next_challenge_unchanged() {
    let field = field();
    let mut rng = rng("eval_state");
    let n_vars = 4;
    let mut bf = BaseFoldPCS::new(&field, n_vars, 2, 2, 10);
    let coeffs = gen_random(&field, &mut rng, 1 << n_vars);
    let z = gen_random(&field, &mut rng, n_vars);
    let y = value_at(&field, &coeffs, &z);
    let com = bf.commit(&coeffs);
    let mut probe = FiatShamirSim::new(&field);
    let expected = probe.challenge();
    let _ = bf.eval(&com, &z, y, &coeffs);
    assert_eq!(bf.get_challenge(), expected);
}
