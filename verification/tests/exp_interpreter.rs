use matrix_calc::exp_interpreter::{
    calculate, infix_to_postfix, postfix_to_tree, Definitions, Operators, Value,
};
use matrix_calc::matrix::Matrix;
use matrix_calc::rat::Rat;

fn do_vecs_match<T: PartialEq>(a: &Vec<T>, b: &Vec<T>) -> bool {
    let matching = a.iter().zip(b.iter()).filter(|&(a, b)| a == b).count();
    matching == a.len() && matching == b.len()
}

fn words(s: &str) -> Vec<String> {
    s.split(' ').map(|w| w.to_string()).collect()
}

fn mat_from_rats(rows: usize, cols: usize, vals: Vec<Vec<Rat>>) -> Matrix {
    Matrix::new_from(rows, cols, &vals).unwrap()
}

fn placeholder_defs() -> Definitions {
    Definitions(vec![
        (String::from("A"), Value::Matrix(Matrix::new_empty(1, 1))),
        (String::from("B"), Value::Matrix(Matrix::new_empty(1, 1))),
        (String::from("C"), Value::Matrix(Matrix::new_empty(1, 1))),
        (String::from("D"), Value::Scalar(Rat::from_int(2))),
    ])
}

#[test]
fn test_infix_to_postfix() {
    let infix: Vec<String> = words("2 + ( ( A + B ) * ( C ^ D ) T )");
    let postfix: Vec<String> = words("2 A B + C D ^ T * +");

    let definitions = placeholder_defs();

    assert!(do_vecs_match(&infix_to_postfix(&infix, &definitions), &postfix));
}

#[test]
fn test_postfix_to_tree() {
    let postfix: Vec<String> = words("2 A B + C D ^ T * +");

    let definitions = placeholder_defs();

    let tree = postfix_to_tree(&postfix, &definitions).unwrap();
    assert_eq!(tree.op().as_operation(), Some(&Operators::Sum));
    assert!(
        tree.left_op().as_ref().unwrap().op().as_scalar().unwrap().eq_val(&Rat::from_int(2))
    );
    assert_eq!(
        tree.right_op().as_ref().unwrap().op().as_operation(),
        Some(&Operators::Mul)
    );
    assert_eq!(
        tree.right_op()
            .as_ref()
            .unwrap()
            .left_op()
            .as_ref()
            .unwrap()
            .op()
            .as_operation(),
        Some(&Operators::Sum)
    );
}

#[test]
fn test_solve() {
    let expected = mat_from_rats(
        2,
        2,
        vec![
            vec![Rat::new(25, 2), Rat::new(13, 2)],
            vec![Rat::new(93, 4), Rat::from_int(12)],
        ],
    );

    let definitions = Definitions(vec![
        (
            String::from("A"),
            Value::Matrix(mat_from_rats(
                2,
                2,
                vec![
                    vec![Rat::from_int(1), Rat::from_int(2)],
                    vec![Rat::from_int(3), Rat::from_int(4)],
                ],
            )),
        ),
        (
            String::from("B"),
            Value::Matrix(mat_from_rats(
                2,
                2,
                vec![
                    vec![Rat::from_int(3), Rat::from_int(4)],
                    vec![Rat::from_int(5), Rat::from_int(6)],
                ],
            )),
        ),
        (
            String::from("C"),
            Value::Matrix(mat_from_rats(
                2,
                2,
                vec![
                    vec![Rat::new(5, 4), Rat::new(1, 2)],
                    vec![Rat::new(1, 2), Rat::new(1, 2)],
                ],
            )),
        ),
        (String::from("D"), Value::Scalar(Rat::from_int(2))),
    ]);

    // Power
    assert!(
        calculate("4 ^ 3", &definitions)
            .unwrap()
            .as_scalar()
            .unwrap()
            .eq_val(&Rat::from_int(64))
    );

    // A complex expression
    let infix_exp = "( A + B ) * ( C ^ D ) T";
    let result = calculate(infix_exp, &definitions).unwrap();
    let matrix = result.as_matrix().unwrap();
    assert!(matrix.equals(&expected));

    // With determinant
    let infix_exp = "( C ^ D ) T DET";
    let expected = Rat::new(9, 64);
    let result = calculate(infix_exp, &definitions).unwrap();
    assert!(result.as_scalar().unwrap().eq_val(&expected));

    // Even more complex
    let infix_exp = "( ( A + B ) * ( C ^ D ) T ) DET";
    let expected = Rat::new(-9, 8);
    let result = calculate(infix_exp, &definitions).unwrap();
    assert!(result.as_scalar().unwrap().eq_val(&expected));

    // With inverse
    let infix_exp = "( A ^ D ) INV";
    let expected = mat_from_rats(
        2,
        2,
        vec![
            vec![Rat::new(11, 2), Rat::new(-5, 2)],
            vec![Rat::new(-15, 4), Rat::new(7, 4)],
        ],
    );
    let result = calculate(infix_exp, &definitions).unwrap();
    let result = result.as_matrix().unwrap();
    assert!(result.equals(&expected));
}
