use piopkit::field::PrimeField;
use piopkit::matmul::{DenseMatrixMul, DiagMatrixMul, HadamardMatrixMul, MatrixMul, RepeatMatrixMul, SparseMatrixMul};
use piopkit::rng::gen_random;
use piopkit::util::test_rot;
use rand_seeder::{Seeder, SipRng};

fn rng(seed: &str) -> SipRng {
    Seeder::from(seed).into_rng()
}

fn field() -> PrimeField {
    PrimeField::new(65537).unwrap()
}

#[test]
fn test_matmul_repeat() {
    let field = field();
    let mut rng = rng("test_matmul_repeat");

    let rowcount = 11;
    let columncount = 23;

    let seed = format!("test_plainmatmul_{}{}", rowcount, columncount);
    let data = gen_random(&field, &mut rng, rowcount * columncount);
    let mm = DenseMatrixMul::new(&field, columncount, data, &seed);

    let rowrep = 2;
    let columnrep = 4;

    let mut repdata = vec![0u64; rowcount * rowrep * columncount * columnrep];
    for bi in 0..rowrep {
        for bj in 0..columnrep {
            for i in 0..rowcount {
                for j in 0..columncount {
                    repdata[(bi * rowcount + i) * columncount * columnrep + bj * columncount + j] = mm.get(i, j);
                }
            }
        }
    }
    let mmrepdense = DenseMatrixMul::new(&field, columnrep * columncount, repdata, "_");

    let mmrep = RepeatMatrixMul::new(&mm, rowrep, columnrep);

    let testin = gen_random(&field, &mut rng, columncount * columnrep);

    assert!(test_rot(&mmrep.mul(&testin), &mmrepdense.mul(&testin), 0));
}

#[test]
fn test_submatmul() {
    let field = field();
    let mut rng = rng("test_submatmul");

    let r = 10;
    let c = 12;

    let mm = DenseMatrixMul::random(&field, &mut rng, r, c, "test_submatmul");

    let mut rhs1 = gen_random(&field, &mut rng, c - 4);
    let rhs2 = gen_random(&field, &mut rng, 4);

    let res11 = mm.submatmul(0..5, 0..(c - 4), &rhs1);
    let res12 = mm.submatmul(0..5, (c - 4)..c, &rhs2);

    rhs1.extend(rhs2);
    let res2 = mm.submatmul(5..r, 0..c, &rhs1);

    let rest = mm.mul(&rhs1);

    assert!(res11
        .iter()
        .zip(res12)
        .map(|(l, r)| field.add(*l, r))
        .chain(res2)
        .zip(rest)
        .all(|(l, r)| l == r));
}

#[test]
fn test_matmulit() {
    let field = field();
    let mut rng = rng("test_matmulit");

    let r = 10;
    let c = 12;

    let mm = DenseMatrixMul::random(&field, &mut rng, r, c, "test_matmulit");

    let rhs1 = gen_random(&field, &mut rng, c);
    let rhs2 = gen_random(&field, &mut rng, c);

    let c = gen_random(&field, &mut rng, 1).pop().unwrap();

    let rhs3: Vec<u64> = rhs1.iter().zip(rhs2.iter()).map(|(l, r)| field.add(*l, field.mul(c, *r))).collect();

    assert!(mm
        .mul(&rhs1)
        .into_iter()
        .zip(mm.mul(&rhs2))
        .map(|(l, r)| field.add(l, field.mul(r, c)))
        .zip(mm.mul(&rhs3))
        .all(|(l, r)| l == r))
}

#[test]
fn dense_matrix_exact_product() {
    let field = PrimeField::new(101).unwrap();
    // [[1, 2], [3, 4]] * (5, 6) = (17, 39)
    let mm = DenseMatrixMul::new(&field, 2, vec![1, 2, 3, 4], "m");
    assert_eq!(mm.rows(), 2);
    assert_eq!(mm.columns(), 2);
    assert_eq!(mm.mul(&[5, 6]), vec![17, 39]);
    assert_eq!(mm.get(1, 0), 3);
    assert_eq!(mm.desc(), "m");
}

#[test]
fn diag_and_sparse_exact_products() {
    let field = PrimeField::new(101).unwrap();
    let dm = DiagMatrixMul::new(&field, 3, vec![2, 3, 4], "d");
    assert_eq!(dm.mul(&[1, 1, 1]), vec![2, 3, 4]);
    assert_eq!(dm.get(0, 1), 0);

    let sm = SparseMatrixMul::new(&field, 4, vec![vec![(0, 1), (3, 2)], vec![], vec![(1, 5)]], "s");
    assert_eq!(sm.rows(), 3);
    assert_eq!(sm.mul(&[1, 2, 3, 4]), vec![9, 0, 10]);
    assert_eq!(sm.get(0, 3), 2);
    assert_eq!(sm.get(0, 2), 0);
    assert_eq!(sm.iter(), vec![(0, 0, 1), (0, 3, 2), (2, 1, 5)]);
    assert_eq!(sm.iter_rows().len(), 3);
    assert_eq!(sm.get_data()[2], vec![(1, 5)]);

    // a sparse copy of a dense matrix lists every entry
    let dense = DenseMatrixMul::new(&field, 2, vec![0, 7, 8, 0], "x");
    let sp = SparseMatrixMul::from(&dense);
    assert_eq!(sp.get_data().clone(), vec![vec![(0, 0), (1, 7)], vec![(0, 8), (1, 0)]]);
    assert_eq!(sp.mul(&[1, 2]), vec![14, 8]);
}

#[test]
fn sparse_random_has_row_weight() {
    let field = field();
    let mut rng = rng("sparse_random");
    let sm = SparseMatrixMul::random(&field, &mut rng, 8, 16, 3, "r");
    for row in sm.get_data() {
        assert_eq!(row.len(), 3);
        assert!(row.windows(2).all(|w| w[0].0 < w[1].0));
        assert!(row.iter().all(|(c, v)| *c < 16 && *v < 65537));
    }
}

#[test]
fn hadamard_exact_product() {
    let field = PrimeField::new(101).unwrap();
    let h = HadamardMatrixMul::new(&field, 2);
    // H4 * (1, 0, 0, 0) is the first column, all ones
    assert_eq!(h.mul(&[1, 0, 0, 0]), vec![1, 1, 1, 1]);
    // H4 * (1, 1, 1, 1) = (4, 0, 0, 0)
    assert_eq!(h.mul(&[1, 1, 1, 1]), vec![4, 0, 0, 0]);
    assert_eq!(h.get(1, 1), 100);
}

#[test]
fn repeat_with_weights_exact_product() {
    let field = PrimeField::new(101).unwrap();
    let base = DenseMatrixMul::new(&field, 1, vec![1, 2], "b");
    let weights = DenseMatrixMul::new(&field, 2, vec![1, 3, 0, 2], "w");
    let rm = RepeatMatrixMul::new_extra(&base, weights);
    // the Kronecker product [[1, 3], [0, 2]] (x) [[1], [2]]
    assert_eq!(rm.rows(), 4);
    assert_eq!(rm.columns(), 2);
    assert_eq!(rm.mul(&[1, 1]), vec![4, 8, 2, 4]);
}

#[test]
fn matrix_descriptions() {
    let field = PrimeField::new(101).unwrap();
    let base = DenseMatrixMul::new(&field, 1, vec![1, 2], "b");
    let rm = RepeatMatrixMul::new(&base, 2, 3);
    assert_eq!(rm.desc(), "b_repeatmm_onesrep_23");
    let weights = DenseMatrixMul::new(&field, 2, vec![1, 3, 0, 2], "w");
    let rx = RepeatMatrixMul::new_extra(&base, weights);
    assert_eq!(rx.desc(), "b_repeat_w");
    assert_eq!(HadamardMatrixMul::new(&field, 1).desc(), "hadamard0_repeat_hadamard1");
    assert_eq!(HadamardMatrixMul::new(&field, 3).desc(), "hadamard2_repeat_hadamard1");
    let sp = SparseMatrixMul::from(&base);
    assert_eq!(sp.desc(), "b");
}
