use piopkit::codes::{FoldableCode, LinearCode, RSFoldableCode, RScode};
use piopkit::field::PrimeField;
use piopkit::matmul::MatrixMul;
use piopkit::rng::{gen_random, gen_random_thread};
use rand_seeder::{Seeder, SipRng};

fn rng(seed: &str) -> SipRng {
    Seeder::from(seed).into_rng()
}

fn field() -> PrimeField {
    PrimeField::new(65537).unwrap()
}

#[test]
fn test_myfoldablecode_basics() {
    let field = field();

    let k0 = 5;
    let c = 2;
    let d = 1;
    let mfc = RSFoldableCode::new(&field, k0, c, Some(d));

    let mut input = gen_random_thread(&field, mfc.k(0));
    let input1 = gen_random_thread(&field, mfc.k(0));

    input.extend(input1);

    let t = mfc.t(0).clone();
    let gl = mfc.G0code().encode(&input[..mfc.k(0)]);
    let gr = mfc.G0code().encode(&input[mfc.k(0)..]);

    let code = mfc.encode(&input);

    assert!((0..mfc.n(0)).all(|i| {
        let grt = field.mul(t[i], gr[i]);
        code[i] == field.add(gl[i], grt) && code[i + mfc.n(0)] == field.sub(gl[i], grt)
    }));
}

#[test]
fn test_myfoldablecode_linearity() {
    let field = field();

    let k0 = 5;
    let c = 2;
    let d = 2;
    let mfc = RSFoldableCode::new(&field, k0, c, Some(d));
    let t = mfc.t(d - 1).clone();

    let mut inp1 = gen_random_thread(&field, mfc.k(d - 1));
    let code1 = mfc.encode(&inp1);

    let inp2 = gen_random_thread(&field, mfc.k(d - 1));
    let code2 = mfc.encode(&inp2);

    inp1.extend(inp2);
    let code = mfc.encode(&inp1);

    assert!((0..mfc.n(d - 1)).all(|i| {
        let tmp = field.mul(code2[i], t[i]);
        code[i] == field.add(code1[i], tmp) && code[i + mfc.n(d - 1)] == field.sub(code1[i], tmp)
    }));
}

#[test]
fn test_myfoldablecode_foldability() {
    let field = field();

    let k0 = 5;
    let c = 2;
    let d = 2;
    let mfc = RSFoldableCode::new(&field, k0, c, Some(d));

    let inp = gen_random_thread(&field, mfc.k(d));

    let code = mfc.encode(&inp);

    let chall = field.random_element_thread();

    let d = mfc.d();

    let foldedinp: Vec<u64> = (0..mfc.k(d - 1))
        .map(|i| field.add(inp[i], field.mul(inp[i + mfc.k(d - 1)], chall)))
        .collect();

    let t = mfc.t(d - 1);
    let foldedcode: Vec<u64> = (0..mfc.n(d - 1))
        .map(|i| {
            let ti = t[i];
            let tmpleft = field.mul(field.add(chall, ti), code[i]);
            let tmpright = field.mul(field.sub(ti, chall), code[i + mfc.n(d - 1)]);
            field.div(field.add(tmpleft, tmpright), field.mul_int(ti, 2))
        })
        .collect();

    let foldedcode2 = mfc.encode(&foldedinp);

    assert!((0..mfc.n(d - 1)).all(|i| foldedcode[i] == foldedcode2[i]));
}

#[test]
fn test_rscode_basics() {
    let field = field();

    let k0 = 5;
    let c = 2;

    let rscode = RScode::new(&field, k0, k0 * c);

    let input = gen_random_thread(&field, k0);

    let code = rscode.encode(&input);

    assert!(rscode.is_code_element(&code));
}

#[test]
fn rscode_rejects_a_changed_codeword() {
    let field = field();
    let mut rng = rng("rscode_rejects");
    let rscode = RScode::new(&field, 4, 8);
    let input = gen_random(&field, &mut rng, 4);
    let mut code = rscode.encode(&input);
    code[3] = field.add(code[3], 1);
    assert!(!rscode.is_code_element(&code));
}

#[test]
fn rscode_generator_is_vandermonde() {
    let field = field();
    let rscode = RScode::new(&field, 3, 5);
    let g = rscode.generator();
    assert_eq!(g.rows(), 5);
    assert_eq!(g.columns(), 3);
    // row i holds the powers of the point i + 1
    for i in 0..5 {
        let x = (i + 1) as u64;
        assert_eq!(g.get(i, 0), 1);
        assert_eq!(g.get(i, 1), x);
        assert_eq!(g.get(i, 2), x * x);
    }
    // the encoding of (1, 2, 3) at the point 2 is 1 + 4 + 12
    let code = rscode.encode(&[1, 2, 3]);
    assert_eq!(code[1], 17);
}

#[test]
fn foldable_code_dimensions() {
    let field = field();
    let mfc = RSFoldableCode::new(&field, 4, 3, Some(3));
    assert_eq!(mfc.d(), 3);
    assert_eq!(mfc.k0(), 4);
    assert_eq!(mfc.c(), 3);
    assert_eq!(mfc.k(2), 16);
    assert_eq!(mfc.n(2), 48);
    for dind in 0..3 {
        assert_eq!(mfc.t(dind).len(), 12 << dind);
        assert!(mfc.t(dind).iter().all(|&x| x != 0 && x < 65537));
    }
    assert!(mfc.check_invariants());
}

#[test]
fn foldable_code_encodes_base_messages_with_base_code() {
    let field = field();
    let mut rng = rng("base_messages");
    let mfc = RSFoldableCode::new(&field, 4, 2, Some(2));
    let msg = gen_random(&field, &mut rng, 4);
    assert_eq!(mfc.encode(&msg), mfc.G0code().encode(&msg));
}

#[test]
fn rscode_generator_description() {
    let field = field();
    let rscode = RScode::new(&field, 3, 12);
    assert_eq!(rscode.generator().desc(), "RS_Generator_3_12");
}
