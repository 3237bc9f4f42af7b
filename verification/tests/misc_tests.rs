use piopkit::field::PrimeField;
use piopkit::lattice::{gen_vector_infbnd, inner_prod, infbnd_element, rejsampl_candidate, RejSamplModes};
use piopkit::linsolve::solvable_system;
use piopkit::matmul::{MatrixMul, SparseMatrixMul};
use piopkit::multilinear::MultilinearBasis;
use piopkit::r1cs::{R1CSMatrix, R1CS};
use piopkit::rng::gen_random;
use piopkit::sumcheck::PolyEvals;
use rand_seeder::{Seeder, SipRng};

fn rng(seed: &str) -> SipRng {
    Seeder::from(seed).into_rng()
}

#[test]
fn polyevals_quadratic() {
    let f = PrimeField::new(101).unwrap();
    // p(X) = X^2 + 1: values 1, 2 at 0, 1 and 5 at 2
    let p = PolyEvals::new([1, 2], vec![2], vec![5]);
    assert_eq!(p.get_points(), vec![0, 1, 2]);
    assert_eq!(p.get_evals(), vec![1, 2, 5]);
    assert_eq!(p.at(&f, 0), 1);
    assert_eq!(p.at(&f, 2), 5);
    assert_eq!(p.at(&f, 3), 10);
    assert_eq!(p.at(&f, -1), 2);
    assert_eq!(p.interp(&f, 4), 17);
    // interpolation gives back the stored values at the points
    assert_eq!(p.interp(&f, 0), 1);
    assert_eq!(p.interp(&f, 1), 2);
    assert_eq!(p.interp(&f, 2), 5);
    let c = p.clone(&f);
    assert!(p.eq(&f, &c));
    // the comparison is at the integers below the number of extra points
    let other = PolyEvals::new([1, 2], vec![2], vec![6]);
    assert!(p.eq(&f, &other));
    let other = PolyEvals::new([3, 2], vec![2], vec![5]);
    assert!(!p.eq(&f, &other));
}

#[test]
fn polyevals_lines() {
    let f = PrimeField::new(101).unwrap();
    // the line 3 + 4X
    let p = PolyEvals::new([3, 7], vec![], vec![]);
    assert_eq!(p.degone_at(&f, -1), 100);
    assert_eq!(p.degone_at(&f, 2), 11);
    assert_eq!(p.degone_at(&f, 5), 23);
    assert_eq!(p.interp(&f, 10), 43);
    let l = PolyEvals::get_lagrange_polys_at(&f, 5, &[0, 1]);
    // the Lagrange basis of {0, 1} at 5 is (1 - 5, 5)
    assert_eq!(l, vec![97, 5]);
}

#[test]
fn r1cs_random_is_satisfied() {
    let field = PrimeField::new(65537).unwrap();
    let mut rng = rng("r1cs_random");
    let z = gen_random(&field, &mut rng, 8);
    let (cs, za, zb, zc) = R1CS::random_from(&field, &mut rng, &z, 16);
    let az = cs.A.mul(&z);
    let bz = cs.B.mul(&z);
    let cz = cs.C.mul(&z);
    assert_eq!(az, za);
    assert_eq!(bz, zb);
    assert_eq!(cz, zc);
    for i in 0..16 {
        assert_eq!(cz[i], field.mul(az[i], bz[i]));
    }
    assert_eq!(cs.A.rowlogsize(), 4);
}

#[test]
fn r1cs_matrix_row_evaluation() {
    let field = PrimeField::new(101).unwrap();
    // rows (1, 0), (0, 2), (3, 0), (0, 4)
    let sm = SparseMatrixMul::new(&field, 2, vec![vec![(0, 1)], vec![(1, 2)], vec![(0, 3)], vec![(1, 4)]], "m");
    let m = R1CSMatrix::new(sm);
    assert_eq!(m.rowlogsize(), 2);
    // setting the high row variable to 0 keeps the first two rows
    let r0 = m.evaluate_rowvars_slow(&[0]);
    assert_eq!(r0, vec![vec![1, 0], vec![0, 2]]);
    // at 5: (1 - 5) * row l + 5 * row (l + 2)
    let r5 = m.evaluate_rowvars_slow(&[5]);
    assert_eq!(r5, vec![vec![(101 - 4 + 15) % 101, 0], vec![0, (101 - 8 + 20) % 101]]);
    assert_eq!(m.evaluate_rowvars(&[5]), r5);
    assert_eq!(m.mul(&[1, 1]), vec![1, 2, 3, 4]);
    let eq = MultilinearBasis::new(&field, &[5]);
    assert_eq!(eq.evaluate(&[1]), 5);
}

#[test]
fn lattice_helpers() {
    let field = PrimeField::new(17).unwrap();
    // lifts (1, -1, 8) and (2, 3, -8)
    assert_eq!(inner_prod(&field, &[1, 16, 8], &[2, 3, 9]), 2 - 3 - 64);
    assert_eq!(infbnd_element(&field, 2, 5), 2);
    assert_eq!(infbnd_element(&field, 4, 5), 16);
    let (z, v) = rejsampl_candidate(&field, 3, &[1, 2], &[5, 6]);
    assert_eq!(v, vec![15, 1]);
    assert_eq!(z, vec![16, 3]);
    let mut rng = rng("lattice");
    let s = gen_vector_infbnd(&field, &mut rng, 5, 20);
    assert!(s.iter().all(|&x| x <= 2 || x >= 15));
    assert!(RejSamplModes::Mode1 != RejSamplModes::Mode2);
}

#[test]
fn linear_systems() {
    let field = PrimeField::new(7).unwrap();
    // x + y = 3, x - y = 1 has the solution (2, 1)
    assert!(solvable_system(&field, vec![vec![1, 1, 3], vec![1, 6, 1]], 2));
    // x + y = 3, 2x + 2y = 5 has none
    assert!(!solvable_system(&field, vec![vec![1, 1, 3], vec![2, 2, 5]], 2));
    // 0 = 0 always holds
    assert!(solvable_system(&field, vec![vec![0, 0, 0]], 2));
}

#[test]
fn random_draws_stay_in_range() {
    let field = PrimeField::new(65537).unwrap();
    let mut rng = rng("draws");
    for _ in 0..100 {
        assert!(field.random_element(&mut rng) < 65537);
        let x = field.random_nonzero_element(&mut rng);
        assert!(0 < x && x < 65537);
    }
    // one attempt of rejection sampling keeps the 17 low bits, below q
    assert_eq!(field.accept_draw(0, 5), Some(5));
    assert_eq!(field.accept_draw(0, 70000), None);
    assert_eq!(field.accept_draw(1, 3), Some(3));
    assert_eq!(field.accept_draw(0, (1 << 17) + 9), Some(9));
    assert_eq!(field.element_from_u128_parts(0, 65538), 1);
    assert_eq!(field.element_from_u128_parts(1, 0), ((1u128 << 64) % 65537) as u64);
}

#[test]
fn seeded_draws_repeat() {
    let field = PrimeField::new(65537).unwrap();
    let mut r1 = rng("repeat");
    let mut r2 = rng("repeat");
    let a = gen_random(&field, &mut r1, 10);
    let b = gen_random(&field, &mut r2, 10);
    assert_eq!(a, b);
    let s1 = gen_vector_infbnd(&field, &mut r1, 9, 10);
    let s2 = gen_vector_infbnd(&field, &mut r2, 9, 10);
    assert_eq!(s1, s2);
}
