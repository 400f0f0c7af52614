use matrix_calc::errors::CalcError;
use matrix_calc::exp_interpreter::{calculate, is_operator, parse_lit, Definitions, Value};
use matrix_calc::math;
use matrix_calc::matrix::Matrix;
use matrix_calc::rat::Rat;

fn mat_from_ints(rows: usize, cols: usize, vals: &[&[i64]]) -> Matrix {
    let mut data: Vec<Vec<Rat>> = Vec::new();
    for row in vals {
        let mut r: Vec<Rat> = Vec::new();
        for v in *row {
            r.push(Rat::from_int(*v));
        }
        data.push(r);
    }
    Matrix::new_from(rows, cols, &data).unwrap()
}

fn store_with_matrices() -> Definitions {
    Definitions(vec![
        (
            String::from("A"),
            Value::Matrix(mat_from_ints(2, 2, &[&[1, 2], &[3, 4]])),
        ),
        (
            String::from("B"),
            Value::Matrix(mat_from_ints(2, 3, &[&[1, 2, 3], &[4, 5, 6]])),
        ),
    ])
}

#[test]
fn transpose_twice_restores() {
    let m = mat_from_ints(2, 2, &[&[1, 2], &[3, 4]]);
    let once = math::transpose(&m).unwrap();
    let twice = math::transpose(&once).unwrap();
    assert!(twice.equals(&m));
}

#[test]
fn transpose_rejects_non_square() {
    let m = mat_from_ints(2, 3, &[&[1, 2, 3], &[4, 5, 6]]);
    assert!(matches!(math::transpose(&m), Err(CalcError::DimensionMismatch)));
}

#[test]
fn product_with_inverse_is_identity() {
    let m = mat_from_ints(2, 2, &[&[1, 2], &[3, 4]]);
    let inv = math::inv(&m).unwrap();
    let prod = math::mul(&m, &inv).unwrap();
    assert!(prod.equals(&math::id_matrix(2)));

    let m3 = mat_from_ints(3, 3, &[&[2, -1, 3], &[3, 6, 7], &[4, -2, 8]]);
    let inv3 = math::inv(&m3).unwrap();
    let prod3 = math::mul(&m3, &inv3).unwrap();
    assert!(prod3.equals(&math::id_matrix(3)));
}

#[test]
fn mismatched_shapes_report_dimension_error() {
    let a = mat_from_ints(2, 2, &[&[1, 2], &[3, 4]]);
    let b = mat_from_ints(2, 3, &[&[1, 2, 3], &[4, 5, 6]]);
    assert!(matches!(math::sum(&a, &b), Err(CalcError::DimensionMismatch)));
    assert!(matches!(math::sub(&a, &b), Err(CalcError::DimensionMismatch)));
    assert!(matches!(math::mul(&b, &a), Err(CalcError::DimensionMismatch)));
}

#[test]
fn division_is_unsupported() {
    let defs = Definitions(vec![]);
    assert!(matches!(
        calculate("4 / 2", &defs),
        Err(CalcError::UnsupportedOperation)
    ));
}

#[test]
fn negative_matrix_power_is_unsupported() {
    let m = mat_from_ints(2, 2, &[&[1, 2], &[3, 4]]);
    assert!(matches!(math::pow(&m, -1), Err(CalcError::UnsupportedOperation)));
}

#[test]
fn singular_matrix_has_no_inverse() {
    let m = mat_from_ints(2, 2, &[&[1, 1], &[1, 1]]);
    assert!(matches!(math::inv(&m), Err(CalcError::SingularMatrix)));
}

#[test]
fn unknown_name_is_malformed() {
    let defs = Definitions(vec![]);
    assert!(matches!(
        calculate("2 + X", &defs),
        Err(CalcError::MalformedToken)
    ));
}

#[test]
fn missing_operand_underflows() {
    let defs = Definitions(vec![]);
    assert!(matches!(calculate("2 +", &defs), Err(CalcError::StackUnderflow)));
}

#[test]
fn leftover_operand_is_structural() {
    let defs = Definitions(vec![]);
    assert!(matches!(calculate("2 3", &defs), Err(CalcError::StructuralError)));
}

#[test]
fn unary_operator_on_scalar_mismatches() {
    let defs = Definitions(vec![]);
    assert!(matches!(calculate("5 T", &defs), Err(CalcError::TypeMismatch)));
}

#[test]
fn scalar_plus_matrix_mismatches() {
    let defs = store_with_matrices();
    assert!(matches!(calculate("2 + A", &defs), Err(CalcError::TypeMismatch)));
}

#[test]
fn matrix_sum_mismatch_through_calculate() {
    let defs = store_with_matrices();
    assert!(matches!(
        calculate("A + B", &defs),
        Err(CalcError::DimensionMismatch)
    ));
}

#[test]
fn scalar_overflow_is_reported() {
    let defs = Definitions(vec![]);
    assert!(matches!(
        calculate("9223372036854775807 + 1", &defs),
        Err(CalcError::Overflow)
    ));
}

#[test]
fn negative_scalar_exponent_inverts() {
    let defs = Definitions(vec![]);
    let v = calculate("2 ^ -1", &defs).unwrap();
    assert!(v.as_scalar().unwrap().eq_val(&Rat::new(1, 2)));
}

#[test]
fn fractional_literal_is_exact() {
    let defs = Definitions(vec![]);
    let v = calculate("1.25 * 4", &defs).unwrap();
    assert!(v.as_scalar().unwrap().eq_val(&Rat::from_int(5)));
}

#[test]
fn subtraction_associates_left() {
    let defs = Definitions(vec![]);
    let v = calculate("2 - 3 - 4", &defs).unwrap();
    assert!(v.as_scalar().unwrap().eq_val(&Rat::from_int(-5)));
}

#[test]
fn empty_matrix_has_no_determinant() {
    let m = Matrix::new_empty(0, 0);
    assert!(matches!(math::det(&m), Err(CalcError::DimensionMismatch)));
}

#[test]
fn operator_tokens_recognized() {
    assert!(is_operator("+"));
    assert!(is_operator("-"));
    assert!(is_operator("*"));
    assert!(is_operator("/"));
    assert!(is_operator("^"));
    assert!(is_operator("T"));
    assert!(is_operator("DET"));
    assert!(is_operator("INV"));
    assert!(!is_operator("X"));
    assert!(!is_operator("("));
}

#[test]
fn literal_grammar() {
    assert!(parse_lit("42").unwrap().eq_val(&Rat::from_int(42)));
    assert!(parse_lit("-6").unwrap().eq_val(&Rat::from_int(-6)));
    assert!(parse_lit("+3.5").unwrap().eq_val(&Rat::new(7, 2)));
    assert!(parse_lit("0.1").unwrap().eq_val(&Rat::new(1, 10)));
    assert!(parse_lit(".5").unwrap().eq_val(&Rat::new(1, 2)));
    assert!(parse_lit("5.").unwrap().eq_val(&Rat::from_int(5)));
    assert!(parse_lit("").is_none());
    assert!(parse_lit(".").is_none());
    assert!(parse_lit("1.2.3").is_none());
    assert!(parse_lit("abc").is_none());
    assert!(parse_lit("inf").is_none());
}

#[test]
fn literal_exponents() {
    assert!(parse_lit("1e5").unwrap().eq_val(&Rat::from_int(100000)));
    assert!(parse_lit("2E2").unwrap().eq_val(&Rat::from_int(200)));
    assert!(parse_lit("1.5e-3").unwrap().eq_val(&Rat::new(3, 2000)));
    assert!(parse_lit("1e+3").unwrap().eq_val(&Rat::from_int(1000)));
    assert!(parse_lit("1.e2").unwrap().eq_val(&Rat::from_int(100)));
    assert!(parse_lit(".25e2").unwrap().eq_val(&Rat::from_int(25)));
    assert!(parse_lit("-2e3").unwrap().eq_val(&Rat::from_int(-2000)));
    assert!(parse_lit("0e999999999").unwrap().eq_val(&Rat::zero()));
    assert!(parse_lit("1e").is_none());
    assert!(parse_lit("1e-").is_none());
    assert!(parse_lit("e5").is_none());
    assert!(parse_lit("1e99").is_none()); // beyond the exact range
    assert!(parse_lit("1e2e3").is_none());
}

#[test]
fn exponent_literal_in_expression() {
    let defs = Definitions(vec![]);
    let v = calculate("1.5e1 + 1", &defs).unwrap();
    assert!(v.as_scalar().unwrap().eq_val(&Rat::from_int(16)));
}

#[test]
fn shadowed_binding_wins() {
    let defs = Definitions(vec![
        (String::from("K"), Value::Scalar(Rat::from_int(1))),
        (String::from("K"), Value::Scalar(Rat::from_int(9))),
    ]);
    let v = calculate("K + 1", &defs).unwrap();
    assert!(v.as_scalar().unwrap().eq_val(&Rat::from_int(10)));
}
