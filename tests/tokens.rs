use expr_eval::{EvalError, Evaluator, Operator, Token};

fn strings(v: &[&str]) -> Vec<String> {
    v.iter().map(|s| s.to_string()).collect()
}

#[test]
fn symbols_read_as_tokens() {
    let tokens = Evaluator::tokenize(&strings(&["12.5", "*", ".5", "/", "3.", "-", "7", "+", "0"]));
    assert_eq!(
        Ok(vec![
            Token::Value("12.5".to_string()),
            Token::Op(Operator::Mult),
            Token::Value(".5".to_string()),
            Token::Op(Operator::Divide),
            Token::Value("3.".to_string()),
            Token::Op(Operator::Subtract),
            Token::Value("7".to_string()),
            Token::Op(Operator::Add),
            Token::Value("0".to_string()),
        ]),
        tokens
    );
}

#[test]
fn two_points_is_malformed() {
    let r = Evaluator::tokenize(&strings(&["1", "+", "12.3.4"]));
    assert_eq!(Err(EvalError::MalformedNumber("12.3.4".to_string(), 2)), r);
}

#[test]
fn empty_symbol_is_malformed() {
    let r = Evaluator::tokenize(&strings(&[""]));
    assert_eq!(Err(EvalError::MalformedNumber(String::new(), 0)), r);
}

#[test]
fn lone_point_and_letters_are_malformed() {
    assert_eq!(
        Err(EvalError::MalformedNumber(".".to_string(), 0)),
        Evaluator::tokenize(&strings(&[".", "+", "x"]))
    );
    assert_eq!(
        Err(EvalError::MalformedNumber("1e5".to_string(), 0)),
        Evaluator::tokenize(&strings(&["1e5"]))
    );
}

#[test]
fn first_malformed_symbol_is_reported() {
    let r = Evaluator::tokenize(&strings(&["1", "+", "a", "-", "b"]));
    assert_eq!(Err(EvalError::MalformedNumber("a".to_string(), 2)), r);
}

#[test]
fn extract_tokens_of_text() {
    let eval = Evaluator::new("12 + 232".to_string());
    assert_eq!(
        Ok(vec![
            Token::Value("12".to_string()),
            Token::Op(Operator::Add),
            Token::Value("232".to_string()),
        ]),
        eval.extract_tokens()
    );
}

#[test]
fn unknown_character_is_malformed_number() {
    let eval = Evaluator::new("1 + (2)".to_string());
    assert_eq!(Err(EvalError::MalformedNumber("(2)".to_string(), 2)), eval.extract_tokens());
}

#[test]
fn select_operator_of_each_character() {
    assert_eq!(Some(Token::Op(Operator::Add)), Evaluator::select_operator(&'+'));
    assert_eq!(Some(Token::Op(Operator::Subtract)), Evaluator::select_operator(&'-'));
    assert_eq!(Some(Token::Op(Operator::Mult)), Evaluator::select_operator(&'*'));
    assert_eq!(Some(Token::Op(Operator::Divide)), Evaluator::select_operator(&'/'));
    assert_eq!(None, Evaluator::select_operator(&'7'));
}

#[test]
fn rejoined_tokens_give_back_the_literals() {
    let text = " 12.12 +232- 2.1 * .5 ";
    let eval = Evaluator::new(text.to_string());
    let tokens = eval.extract_tokens().unwrap();
    let mut joined = String::new();
    for t in &tokens {
        match t {
            Token::Value(s) => joined.push_str(s),
            Token::Op(Operator::Add) => joined.push('+'),
            Token::Op(Operator::Subtract) => joined.push('-'),
            Token::Op(Operator::Mult) => joined.push('*'),
            Token::Op(Operator::Divide) => joined.push('/'),
        }
    }
    let stripped: String = text.chars().filter(|c| !c.is_ascii_whitespace()).collect();
    assert_eq!(stripped, joined);
    let values: Vec<f64> = tokens
        .iter()
        .filter_map(|t| match t {
            Token::Value(s) => Some(s.parse::<f64>().unwrap()),
            Token::Op(_) => None,
        })
        .collect();
    assert_eq!(vec![12.12, 232.0, 2.1, 0.5], values);
}
