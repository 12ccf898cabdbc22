use expr_eval::Evaluator;

#[test]
fn extract_char_with_spaces() {
    let expr = "12 + 2";
    let eval = Evaluator::new(expr.to_string());

    assert_eq!(4usize, eval.extract_chars().len());
}

#[test]
fn extract_char_without_spaces() {
    let expr = "1+2";
    let eval = Evaluator::new(expr.to_string());

    assert_eq!(3usize, eval.extract_chars().len());
}

#[test]
fn tokenize_string_to_vector_of_chars() {
    let expression = "12 + 232".to_string();
    let result = vec!['1', '2', '+', '2', '3', '2'];

    let eval = Evaluator::new(expression.clone());

    assert_eq!(result, eval.extract_chars());
}

#[test]
fn tokenize_string_to_vector_of_string() {
    let expression = "12 + 232".to_string();
    let result = vec!["12".to_string(), "+".to_string(), "232".to_string()];

    let eval = Evaluator::new(expression.clone());

    assert_eq!(result, eval.extract_chars_grouped());
}

#[test]
fn all_whitespace_kinds_are_dropped() {
    let eval = Evaluator::new(" 1\t+\n2\r*\x0C3 ".to_string());
    assert_eq!(vec!['1', '+', '2', '*', '3'], eval.extract_chars());
}

#[test]
fn whitespace_does_not_separate_digits() {
    let eval = Evaluator::new("1 2".to_string());
    assert_eq!(vec!["12".to_string()], eval.extract_chars_grouped());
}

#[test]
fn grouping_keeps_decimals_and_adjacent_operators() {
    let eval = Evaluator::new("12.12 + 232 - 2.1".to_string());
    let expected: Vec<String> = vec!["12.12", "+", "232", "-", "2.1"]
        .into_iter()
        .map(|s| s.to_string())
        .collect();
    assert_eq!(expected, eval.extract_chars_grouped());

    let eval = Evaluator::new("+*1-".to_string());
    let expected: Vec<String> = vec!["+", "*", "1", "-"].into_iter().map(|s| s.to_string()).collect();
    assert_eq!(expected, eval.extract_chars_grouped());
}

#[test]
fn empty_text_has_no_symbols() {
    let eval = Evaluator::new("   ".to_string());
    assert!(eval.extract_chars().is_empty());
    assert!(eval.extract_chars_grouped().is_empty());
}

#[test]
fn operator_characters() {
    for c in ['+', '-', '*', '/'] {
        assert!(Evaluator::is_operator(&c));
    }
    for c in ['1', '.', 'x', ' ', '('] {
        assert!(!Evaluator::is_operator(&c));
    }
}
