use rc::calc::Calc;
use rc::calc::Error;
use rc::tokenizer;
use rc::tokens::InfixOp;
use rc::tokens::Operator;
use rc::tokens::Token;

#[test]
fn test_self_yield() {
    let mut calc = Calc::new();
    assert_eq!(calc.eval("2"), Ok(2));
}

#[test]
fn test_self_yield_parens() {
    let mut calc = Calc::new();
    assert_eq!(calc.eval("(2)"), Ok(2));
}

#[test]
fn test_assignment() {
    let mut calc = Calc::new();
    assert_eq!(calc.eval("over_9000 = 9000 + 1"), Ok(9001));
    assert_eq!(calc.eval("over_9000"), Ok(9001));
}

#[test]
fn test_simple_arith_2() {
    let mut calc = Calc::new();
    assert_eq!(calc.eval("2 + 2"), Ok(4));
}

#[test]
fn test_simple_arith_n() {
    let mut calc = Calc::new();
    assert_eq!(calc.eval("9 - 6 - 1"), Ok(2));
}

#[test]
fn test_simple_arith_sub_mul_add() {
    let mut calc = Calc::new();
    assert_eq!(calc.eval("24 - 2 * 70 + 2"), Ok(-114));
}

#[test]
fn test_precedence() {
    let mut calc = Calc::new();
    assert_eq!(calc.eval("9 + 4 * 2"), Ok(17));
}

#[test]
fn test_simple_parens() {
    let mut calc = Calc::new();
    assert_eq!(calc.eval("3 * (2 + 4)"), Ok(18));
}

#[test]
fn test_nested_parens() {
    let mut calc = Calc::new();
    assert_eq!(calc.eval("3 + 4 + 2 * 7 * (3 + (2 + 4) * 2)"), Ok(217));
}

#[test]
fn ultimate_challenge() {
    let mut calc = Calc::new();
    assert_eq!(
        calc.eval(
            "3250 * (245 + 6) - (24 - 3 + 4 - 24 * 3 + -24 \
             - 2 * (64 + (5 + (3 + 4 * 7 - (24 - 4 - 2 + 1 \
             * 3) + 2 + 4) - 3 * 6) + 6) + 2) + 4 * 2"
        ),
        Ok(815973)
    );
}

#[test]
fn assign_no_space() {
    let mut calc = Calc::new();
    assert_eq!(calc.eval("foo=2"), Ok(2));
}

#[test]
fn assignment_rebinds_ans() {
    let mut calc = Calc::new();
    assert_eq!(calc.eval("x = 9000 + 1"), Ok(9001));
    assert_eq!(calc.eval("x"), Ok(9001));
    assert_eq!(calc.eval("ans"), Ok(9001));
}

#[test]
fn plain_expression_rebinds_ans() {
    let mut calc = Calc::new();
    assert_eq!(calc.eval("20 + 1"), Ok(21));
    assert_eq!(calc.eval("ans + 1"), Ok(22));
}

#[test]
fn undefined_variable_is_an_error() {
    let mut calc = Calc::new();
    assert_eq!(
        calc.eval("undefined_var"),
        Err(Error::UndefinedVariable(String::from("undefined_var")))
    );
}

#[test]
fn unmatched_open_paren_is_an_error() {
    let mut calc = Calc::new();
    assert_eq!(
        calc.eval("(2"),
        Err(Error::UnexpectedToken(Token::Operator(Operator::LParen)))
    );
}

#[test]
fn stray_close_paren_is_an_error() {
    let mut calc = Calc::new();
    assert_eq!(
        calc.eval("2)"),
        Err(Error::UnexpectedToken(Token::Operator(Operator::RParen)))
    );
}

#[test]
fn reevaluation_yields_identical_results() {
    let mut calc = Calc::new();
    assert_eq!(calc.eval("seed = 5"), Ok(5));
    assert_eq!(calc.eval("seed * 2 + 1"), Ok(11));
    assert_eq!(calc.eval("seed * 2 + 1"), Ok(11));
    // The environment is untouched but for `ans`.
    assert_eq!(calc.eval("seed"), Ok(5));
    assert_eq!(calc.lookup_var(String::from("ans")), Ok(5));
    assert_eq!(
        calc.lookup_var(String::from("other")),
        Err(Error::UndefinedVariable(String::from("other")))
    );
}

#[test]
fn missing_left_operand() {
    let mut calc = Calc::new();
    assert_eq!(calc.eval("2 +"), Err(Error::MissingLeftOperand(InfixOp::Add)));
}

#[test]
fn missing_right_operand() {
    let mut calc = Calc::new();
    assert_eq!(calc.eval("+"), Err(Error::MissingRightOperand(InfixOp::Add)));
}

#[test]
fn assign_to_literal_is_an_error() {
    let mut calc = Calc::new();
    assert_eq!(calc.eval("2 = 3"), Err(Error::AssignToLiteral));
}

#[test]
fn assign_to_nothing_is_an_error() {
    let mut calc = Calc::new();
    assert_eq!(calc.eval("= 2"), Err(Error::AssignToNothing));
}

#[test]
fn empty_input_has_no_result() {
    let mut calc = Calc::new();
    assert_eq!(calc.eval(""), Err(Error::EmptyResult));
}

#[test]
fn division_by_zero_is_an_error() {
    let mut calc = Calc::new();
    assert_eq!(calc.eval("1 / 0"), Err(Error::DivisionByZero));
}

#[test]
fn division_truncates_toward_zero() {
    let mut calc = Calc::new();
    assert_eq!(calc.eval("7 / 2"), Ok(3));
    assert_eq!(calc.eval("-7 / 2"), Ok(-3));
    assert_eq!(calc.eval("(0 - 7) / 2"), Ok(-3));
}

#[test]
fn addition_overflow_is_an_error() {
    let mut calc = Calc::new();
    assert_eq!(calc.eval("9223372036854775807 + 1"), Err(Error::Overflow));
}

#[test]
fn multiplication_overflow_is_an_error() {
    let mut calc = Calc::new();
    assert_eq!(
        calc.eval("3037000500 * 3037000500"),
        Err(Error::Overflow)
    );
}

#[test]
fn lexical_error_is_wrapped_as_syntax_error() {
    let mut calc = Calc::new();
    assert_eq!(
        calc.eval("2 $ 2"),
        Err(Error::SyntaxError(tokenizer::Error::UnexpectedChar('$', 2)))
    );
}

#[test]
fn unparsable_number_is_a_syntax_error() {
    let mut calc = Calc::new();
    assert_eq!(
        calc.eval("9999999999999999999999"),
        Err(Error::SyntaxError(tokenizer::Error::NumParseError(
            String::from("9999999999999999999999")
        )))
    );
}

#[test]
fn negative_literal_folds_its_sign() {
    let mut calc = Calc::new();
    assert_eq!(calc.eval("-5 + 2"), Ok(-3));
    assert_eq!(calc.eval("5 - 2"), Ok(3));
}

#[test]
fn eval_tokens_consumes_a_token_sequence() {
    let mut calc = Calc::new();
    let tokens = tokenizer::tokenize("2 + 3").unwrap();
    assert_eq!(calc.eval_tokens(tokens), Ok(5));
    assert_eq!(calc.lookup_var(String::from("ans")), Ok(5));
}

#[test]
fn assignment_failure_leaves_environment_untouched() {
    let mut calc = Calc::new();
    assert_eq!(calc.eval("a = 1"), Ok(1));
    assert!(calc.eval("a = nonsuch").is_err());
    assert_eq!(calc.eval("a"), Ok(1));
}
