use zen_engine::filter::{compare_with_text, comparison_text, parse_filter, tokenize, Expr, FilterError, Op, Token, Value};

#[test]
fn tokens_of_a_full_expression() {
    let t = tokenize("$3 >= -1.5 AND ($0 == \"x y\" || $12 != 'z')").unwrap();
    assert_eq!(
        t,
        vec![
            Token::ColRef(3),
            Token::Gte,
            Token::Number("-1.5".to_string()),
            Token::And,
            Token::LParen,
            Token::ColRef(0),
            Token::Eq,
            Token::String("x y".to_string()),
            Token::Or,
            Token::ColRef(12),
            Token::Neq,
            Token::String("z".to_string()),
            Token::RParen,
        ]
    );
}

#[test]
fn keywords_ignore_case_and_unicode_spaces_separate() {
    let t = tokenize("$1=2\u{3000}or\t$2<3 aNd $4>5 <= =").unwrap();
    assert_eq!(
        t,
        vec![
            Token::ColRef(1),
            Token::Eq,
            Token::Number("2".to_string()),
            Token::Or,
            Token::ColRef(2),
            Token::Lt,
            Token::Number("3".to_string()),
            Token::And,
            Token::ColRef(4),
            Token::Gt,
            Token::Number("5".to_string()),
            Token::Lte,
            Token::Eq,
        ]
    );
}

#[test]
fn tokenizer_errors() {
    assert_eq!(tokenize("$").unwrap_err(), FilterError::ExpectedColumnIndex);
    assert_eq!(tokenize("$99999999999999999999999").unwrap_err(), FilterError::ColumnIndexTooLarge);
    assert_eq!(tokenize("\"abc").unwrap_err(), FilterError::UnterminatedString);
    assert_eq!(tokenize("1.2.3").unwrap_err(), FilterError::InvalidNumber);
    assert_eq!(tokenize("!x").unwrap_err(), FilterError::UnexpectedBang);
    assert_eq!(tokenize("& $1").unwrap_err(), FilterError::ExpectedAnd);
    assert_eq!(tokenize("|").unwrap_err(), FilterError::ExpectedOr);
    assert_eq!(tokenize("$1 == 2 XOR").unwrap_err(), FilterError::UnexpectedKeyword("XOR".to_string()));
    assert_eq!(tokenize("é").unwrap_err(), FilterError::UnexpectedKeyword("é".to_string()));
    assert_eq!(tokenize("#").unwrap_err(), FilterError::UnexpectedChar('#'));
    assert_eq!(tokenize("- 1").unwrap_err(), FilterError::UnexpectedChar('-'));
}

fn cmp(c: usize, op: Op, v: Value) -> Expr {
    Expr::Compare(c, op, v)
}

#[test]
fn and_binds_tighter_than_or() {
    let e = parse_filter("$1 == 1 OR $2 == 2 AND $3 == 3").unwrap();
    let expected = Expr::Or(
        Box::new(cmp(1, Op::Eq, Value::Number("1".to_string()))),
        Box::new(Expr::And(
            Box::new(cmp(2, Op::Eq, Value::Number("2".to_string()))),
            Box::new(cmp(3, Op::Eq, Value::Number("3".to_string()))),
        )),
    );
    assert_eq!(e, expected);
}

#[test]
fn parentheses_and_left_association() {
    let e = parse_filter("($1 > 1 OR $2 < 2) AND $3 <= 'a' AND $4 != 4").unwrap();
    let expected = Expr::And(
        Box::new(Expr::And(
            Box::new(Expr::Or(
                Box::new(cmp(1, Op::Gt, Value::Number("1".to_string()))),
                Box::new(cmp(2, Op::Lt, Value::Number("2".to_string()))),
            )),
            Box::new(cmp(3, Op::Lte, Value::String("a".to_string()))),
        )),
        Box::new(cmp(4, Op::Neq, Value::Number("4".to_string()))),
    );
    assert_eq!(e, expected);
}

#[test]
fn parser_errors() {
    assert_eq!(parse_filter("").unwrap_err(), FilterError::ExpectedColumnRef);
    assert_eq!(parse_filter("($1 == 1").unwrap_err(), FilterError::ExpectedClosingParen);
    assert_eq!(parse_filter("$1 1").unwrap_err(), FilterError::ExpectedOperator);
    assert_eq!(parse_filter("$1 ==").unwrap_err(), FilterError::ExpectedValue);
    assert_eq!(parse_filter("$1 == $2").unwrap_err(), FilterError::ExpectedValue);
    assert_eq!(parse_filter("$1 == 1 )").unwrap_err(), FilterError::TrailingTokens);
    assert_eq!(parse_filter("== 1").unwrap_err(), FilterError::ExpectedColumnRef);
}

#[test]
fn text_comparisons_ignore_ascii_case_and_quotes() {
    assert!(compare_with_text("  \"Madrid\" ", &Op::Eq, "madrid"));
    assert!(compare_with_text("MADRID", &Op::Eq, "Madrid"));
    assert!(!compare_with_text("Madrid", &Op::Neq, "madrid"));
    assert!(compare_with_text("Paris", &Op::Neq, "madrid"));
    assert!(!compare_with_text("b", &Op::Gt, "a"));
    assert!(!compare_with_text("É", &Op::Eq, "é"));
    assert_eq!(comparison_text(" \"x\" ").into_iter().collect::<String>(), "x");
    assert_eq!(comparison_text("\"").into_iter().collect::<String>(), "\"");
}
