use rc::tokenizer;
use rc::tokenizer::tokenize;
use rc::tokens::InfixOp;
use rc::tokens::Operand;
use rc::tokens::Operator;
use rc::tokens::Token;

#[test]
fn digit_string_is_one_num_operand() {
    assert_eq!(
        tokenize("12345"),
        Ok(vec![Token::Operand(Operand::Num(12345))])
    );
}

#[test]
fn empty_input_has_no_tokens() {
    assert_eq!(tokenize(""), Ok(vec![]));
}

#[test]
fn arithmetic_line_tokenizes() {
    assert_eq!(
        tokenize("foo+ 2 *(3 - bar)"),
        Ok(vec![
            Token::Operand(Operand::Var(String::from("foo"))),
            Token::Operator(Operator::Infix(InfixOp::Add)),
            Token::Operand(Operand::Num(2)),
            Token::Operator(Operator::Infix(InfixOp::Mul)),
            Token::Operator(Operator::LParen),
            Token::Operand(Operand::Num(3)),
            Token::Operator(Operator::Infix(InfixOp::Sub)),
            Token::Operand(Operand::Var(String::from("bar"))),
            Token::Operator(Operator::RParen),
        ])
    );
}

#[test]
fn assignment_line_tokenizes() {
    assert_eq!(
        tokenize("a = 3"),
        Ok(vec![
            Token::Operand(Operand::Var(String::from("a"))),
            Token::Assign,
            Token::Operand(Operand::Num(3)),
        ])
    );
}

#[test]
fn minus_before_digit_folds_into_literal() {
    assert_eq!(
        tokenize("-42"),
        Ok(vec![Token::Operand(Operand::Num(-42))])
    );
}

#[test]
fn minus_before_space_is_subtraction() {
    assert_eq!(
        tokenize("1 - 2"),
        Ok(vec![
            Token::Operand(Operand::Num(1)),
            Token::Operator(Operator::Infix(InfixOp::Sub)),
            Token::Operand(Operand::Num(2)),
        ])
    );
}

#[test]
fn minus_at_end_is_subtraction() {
    assert_eq!(
        tokenize("1 -"),
        Ok(vec![
            Token::Operand(Operand::Num(1)),
            Token::Operator(Operator::Infix(InfixOp::Sub)),
        ])
    );
}

#[test]
fn minus_before_letter_is_rejected() {
    assert_eq!(
        tokenize("-x"),
        Err(tokenizer::Error::UnexpectedChar('x', 1))
    );
}

#[test]
fn unexpected_character_is_reported_with_position() {
    assert_eq!(
        tokenize("1 + #"),
        Err(tokenizer::Error::UnexpectedChar('#', 4))
    );
}

#[test]
fn bad_character_inside_identifier_is_rejected() {
    assert_eq!(
        tokenize("ab#c"),
        Err(tokenizer::Error::UnexpectedChar('#', 2))
    );
}

#[test]
fn number_with_trailing_letters_is_a_parse_error() {
    assert_eq!(
        tokenize("2x"),
        Err(tokenizer::Error::NumParseError(String::from("2x")))
    );
}

#[test]
fn fractional_literal_is_a_parse_error() {
    assert_eq!(
        tokenize("2.5"),
        Err(tokenizer::Error::NumParseError(String::from("2.5")))
    );
}

#[test]
fn identifier_with_digits_and_underscores() {
    assert_eq!(
        tokenize("foo_bar_932"),
        Ok(vec![Token::Operand(Operand::Var(String::from(
            "foo_bar_932"
        )))])
    );
}

#[test]
fn identifier_may_be_unicode_alphabetic() {
    assert_eq!(
        tokenize("αβ9"),
        Ok(vec![Token::Operand(Operand::Var(String::from("αβ9")))])
    );
}

#[test]
fn digits_are_not_identifier_starts() {
    assert!(!tokenizer::is_ident_start('9'));
    assert!(tokenizer::is_ident_start('_'));
    assert!(tokenizer::is_ident_start('x'));
    assert!(tokenizer::is_ident_continue('9'));
    assert!(!tokenizer::is_ident_continue('+'));
}

#[test]
fn separators_end_literals_and_identifiers() {
    for c in [' ', ')', '=', '+', '-', '*', '/'] {
        assert!(tokenizer::is_separator(c));
    }
    assert!(!tokenizer::is_separator('('));
    assert!(!tokenizer::is_separator('a'));
    assert!(!tokenizer::is_separator('3'));
}

#[test]
fn infix_ops_from_chars() {
    assert_eq!(InfixOp::from_char('+'), Some(InfixOp::Add));
    assert_eq!(InfixOp::from_char('-'), Some(InfixOp::Sub));
    assert_eq!(InfixOp::from_char('/'), Some(InfixOp::Div));
    assert_eq!(InfixOp::from_char('*'), Some(InfixOp::Mul));
    assert_eq!(InfixOp::from_char('^'), None);
}

#[test]
fn infix_op_chars_round_trip() {
    for op in [InfixOp::Add, InfixOp::Sub, InfixOp::Div, InfixOp::Mul] {
        assert_eq!(InfixOp::from_char(op.to_char()), Some(op));
    }
}

#[test]
fn precedence_ranks_mul_div_above_add_sub() {
    assert_eq!(InfixOp::Add.precedence(), 1);
    assert_eq!(InfixOp::Sub.precedence(), 1);
    assert_eq!(InfixOp::Mul.precedence(), 2);
    assert_eq!(InfixOp::Div.precedence(), 2);
}

#[test]
fn max_literal_parses_and_overflow_fails() {
    assert_eq!(
        tokenize("9223372036854775807"),
        Ok(vec![Token::Operand(Operand::Num(i64::MAX))])
    );
    assert_eq!(
        tokenize("9223372036854775808"),
        Err(tokenizer::Error::NumParseError(String::from(
            "9223372036854775808"
        )))
    );
}
