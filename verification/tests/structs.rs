use matrix_calc::matrix::Matrix;
use matrix_calc::rat::Rat;

fn mat_from_ints(rows: usize, cols: usize, vals: &[&[i64]]) -> Matrix {
    let mut data: Vec<Vec<Rat>> = Vec::new();
    for row in vals {
        let mut r: Vec<Rat> = Vec::new();
        for v in *row {
            r.push(Rat::from_int(*v));
        }
        data.push(r);
    }
    Matrix::new_from(rows, cols, &data).unwrap()
}

fn create2by2() -> Matrix {
    mat_from_ints(2, 2, &[&[1, 2], &[3, 4]])
}

#[test]
fn create_empty_matrix() {
    let rows: usize = 4;
    let cols: usize = 3;
    let matrix_a = Matrix::new_empty(rows, cols);
    for i in 0..rows {
        for j in 0..cols {
            assert!(matrix_a.get(i, j).eq_val(&Rat::zero()));
        }
    }
    assert_eq!(matrix_a.m, rows);
    assert_eq!(matrix_a.n, cols);
}

#[test]
fn create_matrix_from_data() {
    let m = create2by2();
    assert!(m.get(0, 0).eq_val(&Rat::from_int(1)));
    assert!(m.get(0, 1).eq_val(&Rat::from_int(2)));
    assert!(m.get(1, 0).eq_val(&Rat::from_int(3)));
    assert!(m.get(1, 1).eq_val(&Rat::from_int(4)));
}

#[test]
fn is_squared() {
    assert!(create2by2().is_squared());
    assert!(!mat_from_ints(1, 2, &[&[1, 2]]).is_squared());
}

#[test]
fn equals() {
    let m1 = create2by2();
    let m2 = create2by2();
    assert!(m1.equals(&m2));
    let m3 = mat_from_ints(2, 3, &[&[1, 2, 3], &[3, 4, 3]]);
    assert!(!m1.equals(&m3));
}

#[test]
fn bad_shape_rejected() {
    let data = vec![vec![Rat::from_int(1), Rat::from_int(2)], vec![Rat::from_int(3)]];
    assert!(Matrix::new_from(2, 2, &data).is_err());
    let data2 = vec![vec![Rat::from_int(1), Rat::from_int(2)]];
    assert!(Matrix::new_from(2, 2, &data2).is_err());
}

#[test]
fn fill_overwrites_every_cell() {
    let mut m = Matrix::new_empty(2, 3);
    m.fill(Rat::from_int(7));
    for i in 0..2 {
        for j in 0..3 {
            assert!(m.get(i, j).eq_val(&Rat::from_int(7)));
        }
    }
    assert_eq!(m.m, 2);
    assert_eq!(m.n, 3);
}

#[test]
fn set_writes_one_cell() {
    let mut m = Matrix::new_empty(2, 2);
    m.set(0, 1, Rat::new(1, 2));
    assert!(m.get(0, 1).eq_val(&Rat::new(1, 2)));
    assert!(m.get(0, 0).eq_val(&Rat::zero()));
    assert!(m.get(1, 0).eq_val(&Rat::zero()));
    assert!(m.get(1, 1).eq_val(&Rat::zero()));
}
