use expr_eval::{EvalError, Evaluator, Expr, Operator, Token};

fn leaf(s: &str) -> Expr {
    Expr::Leaf(s.to_string())
}

fn node(op: Operator, l: Expr, r: Expr) -> Expr {
    Expr::Node(op, Box::new(l), Box::new(r))
}

fn tree(text: &str) -> Result<Expr, EvalError> {
    Evaluator::new(text.to_string()).build_expr()
}

fn value(e: &Expr) -> f64 {
    match e {
        Expr::Leaf(s) => s.parse().unwrap(),
        Expr::Node(op, l, r) => {
            let (a, b) = (value(l), value(r));
            match op {
                Operator::Add => a + b,
                Operator::Subtract => a - b,
                Operator::Mult => a * b,
                Operator::Divide => a / b,
            }
        }
    }
}

#[test]
fn multiplication_binds_tighter() {
    let e = tree("1 + 2 * 3").unwrap();
    assert_eq!(
        node(Operator::Add, leaf("1"), node(Operator::Mult, leaf("2"), leaf("3"))),
        e
    );
    assert_eq!(7.0, value(&e));
}

#[test]
fn subtraction_groups_from_the_left() {
    let e = tree("10 - 3 - 2").unwrap();
    assert_eq!(
        node(Operator::Subtract, node(Operator::Subtract, leaf("10"), leaf("3")), leaf("2")),
        e
    );
    assert_eq!(5.0, value(&e));
}

#[test]
fn single_value_is_a_leaf() {
    let e = tree("42").unwrap();
    assert_eq!(leaf("42"), e);
    assert_eq!(42.0, value(&e));
}

#[test]
fn decimals_are_read_exactly() {
    let e = tree("12.12 + 232 - 2.1").unwrap();
    assert_eq!(
        node(Operator::Subtract, node(Operator::Add, leaf("12.12"), leaf("232")), leaf("2.1")),
        e
    );
    assert!((value(&e) - 242.02).abs() < 1e-9);
}

#[test]
fn division_by_zero_is_no_error() {
    let e = tree("5 / 0").unwrap();
    assert_eq!(node(Operator::Divide, leaf("5"), leaf("0")), e);
    assert_eq!(f64::INFINITY, value(&e));
}

#[test]
fn doubled_operator_is_unexpected_token() {
    assert_eq!(Err(EvalError::UnexpectedToken(2)), tree("1 + + 2"));
    assert_eq!(Err(EvalError::UnexpectedToken(0)), tree("* 2"));
}

#[test]
fn empty_text_is_empty_expression() {
    assert_eq!(Err(EvalError::EmptyExpression), tree(""));
    assert_eq!(Err(EvalError::EmptyExpression), tree(" \t "));
}

#[test]
fn trailing_operator_is_unexpected_end() {
    assert_eq!(Err(EvalError::UnexpectedEnd), tree("1 +"));
    assert_eq!(Err(EvalError::UnexpectedEnd), tree("1 * 2 -"));
}

#[test]
fn spaced_digits_form_one_literal() {
    assert_eq!(Ok(leaf("12")), tree("1 2"));
}

#[test]
fn adjacent_literals_are_trailing_tokens() {
    let tokens = vec![
        Token::Value("1".to_string()),
        Token::Op(Operator::Add),
        Token::Value("2".to_string()),
        Token::Value("3".to_string()),
    ];
    assert_eq!(Err(EvalError::TrailingTokens(3)), Evaluator::build_tree(&tokens));
}

#[test]
fn malformed_number_stops_before_the_tree() {
    assert_eq!(Err(EvalError::MalformedNumber("2..".to_string(), 2)), tree("1 + 2.. +"));
}

#[test]
fn same_text_gives_same_tree_twice() {
    let eval = Evaluator::new("3 * 4 - 10 / 4 + 1".to_string());
    let a = eval.build_expr();
    let b = eval.build_expr();
    assert_eq!(a, b);
    assert_eq!(value(&a.unwrap()), value(&b.unwrap()));
}

#[test]
fn uniform_multiplication_leans_left() {
    let e = tree("2 * 3 / 4 * 5").unwrap();
    assert_eq!(
        node(
            Operator::Mult,
            node(Operator::Divide, node(Operator::Mult, leaf("2"), leaf("3")), leaf("4")),
            leaf("5")
        ),
        e
    );
    assert_eq!(7.5, value(&e));
}

#[test]
fn mixed_precedence_nests_products_below_sums() {
    let e = tree("1 * 2 + 3 * 4 - 5 / 5").unwrap();
    assert_eq!(
        node(
            Operator::Subtract,
            node(
                Operator::Add,
                node(Operator::Mult, leaf("1"), leaf("2")),
                node(Operator::Mult, leaf("3"), leaf("4"))
            ),
            node(Operator::Divide, leaf("5"), leaf("5"))
        ),
        e
    );
    assert_eq!(13.0, value(&e));
}

#[test]
fn nested_products_and_sums() {
    assert_eq!(120.0, value(&tree("2 * 3 * 4 * 5").unwrap()));
    assert_eq!(11.0, value(&tree("1 + 2 * 3 + 4").unwrap()));
    assert_eq!(10.0, value(&tree("1 + 2 + 3 + 4").unwrap()));
}

#[test]
fn polish_form_of_a_tree() {
    let e = tree("1 + 2 * 3").unwrap();
    let p = Evaluator::into_polish(&e);
    assert_eq!(
        vec![
            Token::Op(Operator::Add),
            Token::Value("1".to_string()),
            Token::Op(Operator::Mult),
            Token::Value("2".to_string()),
            Token::Value("3".to_string()),
        ],
        p
    );
}

#[test]
fn polish_form_reads_back() {
    let e = tree("8 / 2 - 3 * 1.5 + 7").unwrap();
    let p = Evaluator::into_polish(&e);
    assert_eq!(Some(e), Evaluator::polish_to_expr(&p));
}

#[test]
fn malformed_polish_reads_as_nothing() {
    let incomplete = vec![Token::Op(Operator::Add), Token::Value("1".to_string())];
    assert_eq!(None, Evaluator::polish_to_expr(&incomplete));
    let too_long = vec![Token::Value("1".to_string()), Token::Value("2".to_string())];
    assert_eq!(None, Evaluator::polish_to_expr(&too_long));
    assert_eq!(None, Evaluator::polish_to_expr(&Vec::new()));
}
