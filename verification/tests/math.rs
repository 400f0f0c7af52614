use matrix_calc::math;
use matrix_calc::math::Compatibility;
use matrix_calc::matrix::Matrix;
use matrix_calc::rat::Rat;

fn mat_from_ints(rows: usize, cols: usize, vals: &[&[i64]]) -> Matrix {
    let mut data: Vec<Vec<Rat>> = Vec::new();
    for row in vals {
        let mut r: Vec<Rat> = Vec::new();
        for v in *row {
            r.push(Rat::from_int(*v));
        }
        data.push(r);
    }
    Matrix::new_from(rows, cols, &data).unwrap()
}

fn create2by2() -> Matrix {
    mat_from_ints(2, 2, &[&[1, 2], &[3, 4]])
}

#[test]
fn multiplication_by_scalar() {
    let m = create2by2();
    let m2 = math::mul_scalar(&m, Rat::from_int(2)).unwrap();

    assert!(m2.get(0, 0).eq_val(&Rat::from_int(2)));
    assert!(m2.get(0, 1).eq_val(&Rat::from_int(4)));
    assert!(m2.get(1, 0).eq_val(&Rat::from_int(6)));
    assert!(m2.get(1, 1).eq_val(&Rat::from_int(8)));
}

#[test]
fn matrix_multiplication() {
    let m1 = mat_from_ints(2, 3, &[&[1, 2, 3], &[4, 5, 6]]);
    let m2 = mat_from_ints(2, 3, &[&[1, 2, 3], &[4, 5, 6]]);
    math::mul(&m1, &m2).unwrap_err(); // should fail (so, not fail because of unwrap_err)

    let m3 = mat_from_ints(3, 1, &[&[1], &[2], &[3]]);
    math::mul(&m3, &m1).unwrap_err(); // should fail
    let res = math::mul(&m1, &m3).unwrap(); // should be ok
    assert_eq!(res.m, 2);
    assert_eq!(res.n, 1);
    assert!(res.get(0, 0).eq_val(&Rat::from_int(14)));
    assert!(res.get(1, 0).eq_val(&Rat::from_int(32)));
}

#[test]
fn matrix_sum() {
    let m1 = mat_from_ints(2, 3, &[&[1, 2, 3], &[3, 4, 3]]);
    let m2 = create2by2();
    let _err = math::sum(&m1, &m2).unwrap_err(); // This should be an error. Otherwise it will panic

    // Let's test an actual sum
    let m1 = create2by2();
    let m2 = create2by2();
    let res = math::sum(&m1, &m2).unwrap();

    assert!(res.get(0, 0).eq_val(&Rat::from_int(2)));
    assert!(res.get(0, 1).eq_val(&Rat::from_int(4)));
    assert!(res.get(1, 0).eq_val(&Rat::from_int(6)));
    assert!(res.get(1, 1).eq_val(&Rat::from_int(8)));
}

#[test]
fn matrix_sub() {
    let m1 = create2by2();
    let m2 = create2by2();
    let res = math::sub(&m1, &m2).unwrap();

    assert!(res.get(0, 0).eq_val(&Rat::zero()));
    assert!(res.get(0, 1).eq_val(&Rat::zero()));
    assert!(res.get(1, 0).eq_val(&Rat::zero()));
    assert!(res.get(1, 1).eq_val(&Rat::zero()));
}

#[test]
fn determinant() {
    let m = mat_from_ints(2, 2, &[&[6, 7], &[-2, 8]]);
    assert!(math::det(&m).unwrap().eq_val(&Rat::from_int(62)));
    let m: Matrix = mat_from_ints(3, 3, &[&[2, -1, 3], &[3, 6, 7], &[4, -2, 8]]);
    assert!(math::det(&m).unwrap().eq_val(&Rat::from_int(30)));
    let m = create2by2();
    assert!(math::det(&m).unwrap().eq_val(&Rat::from_int(-2)));
}

#[test]
fn identity_matrix() {
    let n: usize = 3;
    let res: Matrix = math::id_matrix(n);
    assert!(res.get(0, 0).eq_val(&Rat::one()));
    assert!(res.get(1, 1).eq_val(&Rat::one()));
    assert!(res.get(2, 2).eq_val(&Rat::one()));
}

#[test]
fn transposed() {
    let matrix: Matrix = mat_from_ints(3, 3, &[&[1, 2, 3], &[4, 5, 6], &[7, 8, 9]]);
    let result: Matrix = math::transpose(&matrix).unwrap();
    let expected: Matrix = mat_from_ints(3, 3, &[&[1, 4, 7], &[2, 5, 8], &[3, 6, 9]]);
    assert!(expected.equals(&result));

    // The transpose is square-only in this core.
    let rect: Matrix = mat_from_ints(3, 2, &[&[1, 2], &[3, 4], &[5, 6]]);
    math::transpose(&rect).unwrap_err();
}

#[test]
fn mat_pow() {
    let mat = create2by2();
    assert!(math::pow(&mat, 0).unwrap().equals(&math::id_matrix(2)));
    assert!(math::pow(&mat, 1).unwrap().equals(&mat));
    assert!(math::pow(&mat, 2).unwrap().equals(&mat_from_ints(2, 2, &[&[7, 10], &[15, 22]])));
}

#[test]
fn test_adj() {
    let m: Matrix = mat_from_ints(3, 3, &[&[2, -1, 3], &[3, 6, 7], &[4, -2, 8]]);
    let res: Matrix = math::adj(&m).unwrap();

    assert!(res.get(0, 0).eq_val(&Rat::from_int(62)));
    assert!(res.get(0, 1).eq_val(&Rat::from_int(4)));
    assert!(res.get(0, 2).eq_val(&Rat::from_int(-30)));
    assert!(res.get(1, 0).eq_val(&Rat::from_int(2)));
    assert!(res.get(1, 1).eq_val(&Rat::from_int(4)));
    assert!(res.get(1, 2).eq_val(&Rat::from_int(0)));
    assert!(res.get(2, 0).eq_val(&Rat::from_int(-25)));
    assert!(res.get(2, 1).eq_val(&Rat::from_int(-5)));
    assert!(res.get(2, 2).eq_val(&Rat::from_int(15)));

    let m = mat_from_ints(2, 2, &[&[7, 10], &[15, 20]]);
    let res = math::adj(&m).unwrap();
    let expected = mat_from_ints(2, 2, &[&[20, -15], &[-10, 7]]);
    assert!(res.equals(&expected));
}

#[test]
fn inverse_test() {
    let m: Matrix = mat_from_ints(3, 3, &[&[2, -1, 3], &[3, 6, 7], &[4, -2, 8]]);
    let res: Matrix = math::inv(&m).unwrap();

    assert!(res.get(0, 0).eq_val(&Rat::new(31, 15)));
    assert!(res.get(0, 1).eq_val(&Rat::new(1, 15)));
    assert!(res.get(0, 2).eq_val(&Rat::new(-5, 6)));
    assert!(res.get(1, 0).eq_val(&Rat::new(2, 15)));
    assert!(res.get(1, 1).eq_val(&Rat::new(2, 15)));
    assert!(res.get(1, 2).eq_val(&Rat::new(-1, 6)));
    assert!(res.get(2, 0).eq_val(&Rat::from_int(-1)));
    assert!(res.get(2, 1).eq_val(&Rat::zero()));
    assert!(res.get(2, 2).eq_val(&Rat::new(1, 2)));

    let m = mat_from_ints(2, 2, &[&[7, 10], &[15, 22]]);
    let res = math::inv(&m).unwrap();
    let expected_data = vec![
        vec![Rat::new(11, 2), Rat::new(-5, 2)],
        vec![Rat::new(-15, 4), Rat::new(7, 4)],
    ];
    let expected = Matrix::new_from(2, 2, &expected_data).unwrap();
    assert!(res.equals(&expected));
}

#[test]
fn compatible_determinado() {
    let m: Matrix = mat_from_ints(3, 3, &[&[2, -1, 3], &[3, 6, 7], &[4, -2, 8]]);
    let result: Matrix = mat_from_ints(3, 1, &[&[1], &[2], &[3]]);
    let res: Matrix = math::data_loading(&m, &result);
    let c = math::solve_system(&res).unwrap();
    assert!(c == math::Compatibility::CompatibleDeterminado);
}

#[test]
fn incompatible_equation() {
    let new: Matrix = mat_from_ints(2, 2, &[&[-2, -2], &[2, 2]]);
    let res: Matrix = mat_from_ints(2, 1, &[&[-6], &[2]]);
    let total: Matrix = math::data_loading(&new, &res);
    let result = math::solve_system(&total).unwrap();
    assert!(result == math::Compatibility::Incompatible);
}

#[test]
fn very_incompatible() {
    let m: Matrix = mat_from_ints(3, 4, &[&[1, 1, 1, 4], &[2, 2, 2, 8], &[3, 3, 3, 45]]);
    let result = math::solve_system(&m).unwrap();

    assert!(result == math::Compatibility::Incompatible);
}

#[test]
fn undetermined() {
    let m: Matrix = mat_from_ints(2, 3, &[&[2, 1, 4], &[4, 2, 8]]);
    let result = math::solve_system(&m).unwrap();
    assert!(result.is_compatible_indeterminado());
}

#[test]
fn compatibility_queries() {
    assert!(Compatibility::CompatibleDeterminado.is_compatible_determinado());
    assert!(!Compatibility::CompatibleDeterminado.is_compatible_indeterminado());
    assert!(!Compatibility::CompatibleDeterminado.is_incompatible());
    assert!(Compatibility::CompatibleIndeterminado.is_compatible_indeterminado());
    assert!(Compatibility::Incompatible.is_incompatible());
}
