//! The tokenizer: a single left-to-right pass with one character of lookahead
//! that turns a line of text into a sequence of [`Token`]s.
//!
//! Whitespace (`' '`) separates tokens and produces none. A `'-'` immediately
//! followed by a digit is folded into a negative numeric literal; a `'-'`
//! followed by a space or end of input is the subtraction operator. Numeric
//! literals are strings of decimal digits read up to the next separator and
//! parsed as `i64`; a literal that contains a non-digit or does not fit is a
//! [`Error::NumParseError`]. Identifiers start with an alphabetic character or
//! `'_'` and continue with alphanumeric characters or `'_'`. Any other
//! character is an [`Error::UnexpectedChar`], reported with its position.
//!
//! The whole input must tokenize: on the first lexical error the tokenizer
//! aborts and returns that error, never a partial token sequence.

use vstd::prelude::*;

use crate::tokens::InfixOp;
use crate::tokens::Operand;
use crate::tokens::Operator;
use crate::tokens::OperandModel;
use crate::tokens::Token;
use crate::tokens::TokenModel;
use crate::tokens::tokens_view;

verus! {

/// A lexical error: the whole input is rejected.
#[derive(Debug, PartialEq)]
pub enum Error {
    /// A character that no rule matches, with its position in the input.
    UnexpectedChar(char, usize),
    /// A numeric literal that is not a digit string fitting in `i64`;
    /// the offending literal text is carried along.
    NumParseError(String),
}

/// The ghost model of a lexical error.
pub enum ErrorModel {
    UnexpectedChar(char, int),
    NumParseError(Seq<char>),
}

impl View for Error {
    type V = ErrorModel;

    open spec fn view(&self) -> ErrorModel {
        match self {
            Error::UnexpectedChar(c, i) => ErrorModel::UnexpectedChar(*c, *i as int),
            Error::NumParseError(s) => ErrorModel::NumParseError(s@),
        }
    }
}

/// Whether `c` is in the Unicode `Alphabetic` class.
pub uninterp spec fn alphabetic(c: char) -> bool;

/// Whether `c` is Unicode alphanumeric (alphabetic or numeric).
pub uninterp spec fn alphanumeric(c: char) -> bool;

/// Relies on char::is_alphabetic, which decides membership in the Unicode
/// `Alphabetic` class; the result depends on the character alone.
#[verifier::external_body]
fn char_is_alphabetic(c: char) -> (r: bool)
    ensures
        r == alphabetic(c),
{
    c.is_alphabetic()
}

/// Relies on char::is_alphanumeric, which decides whether the character is
/// Unicode alphabetic or numeric; the result depends on the character alone.
#[verifier::external_body]
fn char_is_alphanumeric(c: char) -> (r: bool)
    ensures
        r == alphanumeric(c),
{
    c.is_alphanumeric()
}

/// Whether `c` is a decimal digit.
pub open spec fn spec_is_digit(c: char) -> bool {
    '0' <= c && c <= '9'
}

#[verifier::when_used_as_spec(spec_is_digit)]
pub fn is_digit(c: char) -> (r: bool)
    ensures
        r == spec_is_digit(c),
{
    '0' <= c && c <= '9'
}

/// Whether `c` ends the numeric literal or identifier that precedes it:
/// a space, a close parenthesis, the assignment marker, or an infix
/// operator character.
pub open spec fn spec_is_separator(c: char) -> bool {
    c == ' ' || c == ')' || c == '=' || InfixOp::spec_from_char(c) is Some
}

#[verifier::when_used_as_spec(spec_is_separator)]
pub fn is_separator(c: char) -> (r: bool)
    ensures
        r == spec_is_separator(c),
{
    match c {
        ' ' | ')' | '=' => true,
        _ => InfixOp::from_char(c).is_some(),
    }
}

/// Whether `c` may start an identifier.
pub open spec fn spec_is_ident_start(c: char) -> bool {
    alphabetic(c) || c == '_'
}

#[verifier::when_used_as_spec(spec_is_ident_start)]
pub fn is_ident_start(c: char) -> (r: bool)
    ensures
        r == spec_is_ident_start(c),
{
    c == '_' || char_is_alphabetic(c)
}

/// Whether `c` may continue an identifier.
pub open spec fn spec_is_ident_continue(c: char) -> bool {
    alphanumeric(c) || c == '_'
}

#[verifier::when_used_as_spec(spec_is_ident_continue)]
pub fn is_ident_continue(c: char) -> (r: bool)
    ensures
        r == spec_is_ident_continue(c),
{
    c == '_' || char_is_alphanumeric(c)
}

/// The value of the decimal digit `c`.
pub open spec fn digit_val(c: char) -> int {
    c as int - '0' as int
}

/// The value of the digit string `text` read in base 10.
pub open spec fn digits_val(text: Seq<char>) -> int
    decreases text.len(),
{
    if text.len() == 0 {
        0
    } else {
        10 * digits_val(text.drop_last()) + digit_val(text.last())
    }
}

/// Whether every character of `text` is a decimal digit.
pub open spec fn all_digits(text: Seq<char>) -> bool {
    forall|k: int| 0 <= k < text.len() ==> spec_is_digit(text[k])
}

pub proof fn lemma_digits_val_nonneg(text: Seq<char>)
    requires
        all_digits(text),
    ensures
        digits_val(text) >= 0,
    decreases text.len(),
{
    if text.len() > 0 {
        assert(all_digits(text.drop_last()));
        lemma_digits_val_nonneg(text.drop_last());
    }
}

/// Reading more digits never makes the value smaller: the value of any prefix
/// of a digit string is at most the value of the whole string.
pub proof fn lemma_digits_val_prefix_le(text: Seq<char>, k: int)
    requires
        all_digits(text),
        0 <= k <= text.len(),
    ensures
        digits_val(text.take(k)) <= digits_val(text),
    decreases text.len(),
{
    if k == text.len() {
        assert(text.take(k) =~= text);
    } else {
        let head = text.drop_last();
        assert(all_digits(head));
        assert(text.take(k) =~= head.take(k));
        lemma_digits_val_prefix_le(head, k);
        lemma_digits_val_nonneg(head);
    }
}

/// The first position at or after `i` holding a separator (or the end of the
/// input): a numeric literal or identifier starting at `i` runs up to here.
pub open spec fn token_end(s: Seq<char>, i: int) -> int
    decreases s.len() - i when 0 <= i <= s.len()
{
    if i >= s.len() {
        i
    } else if spec_is_separator(s[i]) {
        i
    } else {
        token_end(s, i + 1)
    }
}

pub proof fn lemma_token_end(s: Seq<char>, i: int)
    requires
        0 <= i <= s.len(),
    ensures
        i <= token_end(s, i) <= s.len(),
        forall|k: int| i <= k < token_end(s, i) ==> !spec_is_separator(s[k]),
        token_end(s, i) < s.len() ==> spec_is_separator(s[token_end(s, i)]),
    decreases s.len() - i,
{
    if i < s.len() && !spec_is_separator(s[i]) {
        lemma_token_end(s, i + 1);
    }
}

/// Where the identifier starting at `i` stops: at the first separator, at the
/// first character that may not continue an identifier, or at the end.
pub open spec fn ident_end(s: Seq<char>, i: int) -> int
    decreases s.len() - i when 0 <= i <= s.len()
{
    if i >= s.len() {
        i
    } else if spec_is_separator(s[i]) {
        i
    } else if spec_is_ident_continue(s[i]) {
        ident_end(s, i + 1)
    } else {
        i
    }
}

pub proof fn lemma_ident_end(s: Seq<char>, i: int)
    requires
        0 <= i <= s.len(),
    ensures
        i <= ident_end(s, i) <= s.len(),
    decreases s.len() - i,
{
    if i < s.len() && !spec_is_separator(s[i]) && spec_is_ident_continue(s[i]) {
        lemma_ident_end(s, i + 1);
    }
}

/// What reading a numeric literal at position `i` yields: the literal text
/// runs to the next separator; it parses when it is a nonempty digit string
/// whose value fits in `i64`, and is a `NumParseError` otherwise.
pub open spec fn spec_get_num(s: Seq<char>, i: int) -> Result<(i64, int), ErrorModel>
    recommends
        0 <= i <= s.len(),
{
    let e = token_end(s, i);
    let text = s.subrange(i, e);
    if text.len() > 0 && all_digits(text) && digits_val(text) <= i64::MAX {
        Ok((digits_val(text) as i64, e))
    } else {
        Err(ErrorModel::NumParseError(text))
    }
}

/// What reading an identifier at position `i` yields: its name runs to the
/// first separator; a character that is neither a separator nor may continue
/// an identifier is an `UnexpectedChar` at its position.
pub open spec fn spec_get_ident(s: Seq<char>, i: int) -> Result<(Seq<char>, int), ErrorModel>
    recommends
        0 <= i <= s.len(),
{
    let e = ident_end(s, i);
    if e == s.len() || spec_is_separator(s[e]) {
        Ok((s.subrange(i, e), e))
    } else {
        Err(ErrorModel::UnexpectedChar(s[e], e))
    }
}

/// Prefixes a token to a tokenization result, passing errors through.
pub open spec fn cons_token(
    t: TokenModel,
    r: Result<Seq<TokenModel>, ErrorModel>,
) -> Result<Seq<TokenModel>, ErrorModel> {
    match r {
        Ok(ts) => Ok(seq![t] + ts),
        Err(e) => Err(e),
    }
}

/// The tokens of `s` from position `i` on.
pub open spec fn spec_tokenize_from(s: Seq<char>, i: int) -> Result<Seq<TokenModel>, ErrorModel>
    decreases s.len() - i when 0 <= i <= s.len() via spec_tokenize_from_decreases
{
    if i >= s.len() {
        Ok(Seq::empty())
    } else {
        let c = s[i];
        if c == '+' {
            cons_token(TokenModel::Operator(Operator::Infix(InfixOp::Add)), spec_tokenize_from(s, i + 1))
        } else if c == '-' {
            if i + 1 >= s.len() {
                cons_token(TokenModel::Operator(Operator::Infix(InfixOp::Sub)), spec_tokenize_from(s, i + 1))
            } else if spec_is_digit(s[i + 1]) {
                match spec_get_num(s, i + 1) {
                    Ok((v, e)) => cons_token(
                        TokenModel::Operand(OperandModel::Num((-(v as int)) as i64)),
                        spec_tokenize_from(s, e),
                    ),
                    Err(em) => Err(em),
                }
            } else if s[i + 1] == ' ' {
                cons_token(TokenModel::Operator(Operator::Infix(InfixOp::Sub)), spec_tokenize_from(s, i + 1))
            } else {
                Err(ErrorModel::UnexpectedChar(s[i + 1], i + 1))
            }
        } else if c == '/' {
            cons_token(TokenModel::Operator(Operator::Infix(InfixOp::Div)), spec_tokenize_from(s, i + 1))
        } else if c == '*' {
            cons_token(TokenModel::Operator(Operator::Infix(InfixOp::Mul)), spec_tokenize_from(s, i + 1))
        } else if c == '(' {
            cons_token(TokenModel::Operator(Operator::LParen), spec_tokenize_from(s, i + 1))
        } else if c == ')' {
            cons_token(TokenModel::Operator(Operator::RParen), spec_tokenize_from(s, i + 1))
        } else if c == '=' {
            cons_token(TokenModel::Assign, spec_tokenize_from(s, i + 1))
        } else if spec_is_digit(c) {
            match spec_get_num(s, i) {
                Ok((v, e)) => cons_token(
                    TokenModel::Operand(OperandModel::Num(v)),
                    spec_tokenize_from(s, e),
                ),
                Err(em) => Err(em),
            }
        } else if c == ' ' {
            spec_tokenize_from(s, i + 1)
        } else if spec_is_ident_start(c) {
            match spec_get_ident(s, i) {
                Ok((name, e)) => cons_token(
                    TokenModel::Operand(OperandModel::Var(name)),
                    spec_tokenize_from(s, e),
                ),
                Err(em) => Err(em),
            }
        } else {
            Err(ErrorModel::UnexpectedChar(c, i))
        }
    }
}

#[via_fn]
proof fn spec_tokenize_from_decreases(s: Seq<char>, i: int) {
    if 0 <= i && i < s.len() {
        lemma_token_end(s, i);
        lemma_ident_end(s, i);
        if i + 1 < s.len() {
            lemma_token_end(s, i + 1);
        }
    }
}

/// The tokens of the whole input, or the first lexical error.
pub open spec fn spec_tokenize(s: Seq<char>) -> Result<Seq<TokenModel>, ErrorModel> {
    spec_tokenize_from(s, 0)
}

/// Law: a nonempty decimal-digit string whose value fits the numeric type
/// tokenizes to exactly one numeric operand, spanning the whole input and
/// holding the base-10 value of the string.
pub proof fn lemma_tokenize_digit_string(s: Seq<char>)
    requires
        s.len() > 0,
        all_digits(s),
        digits_val(s) <= i64::MAX,
    ensures
        spec_tokenize(s) == Ok::<_, ErrorModel>(
            seq![TokenModel::Operand(OperandModel::Num(digits_val(s) as i64))],
        ),
{
    lemma_token_end(s, 0);
    assert(token_end(s, 0) == s.len());
    assert(s.subrange(0, s.len() as int) =~= s);
    lemma_digits_val_nonneg(s);
    let t = TokenModel::Operand(OperandModel::Num(digits_val(s) as i64));
    assert(spec_get_num(s, 0) == Ok::<_, ErrorModel>((digits_val(s) as i64, s.len() as int)));
    assert(spec_tokenize_from(s, s.len() as int) == Ok::<Seq<TokenModel>, ErrorModel>(
        Seq::empty(),
    ));
    assert(spec_is_digit(s[0]));
    assert(spec_tokenize_from(s, 0) == cons_token(t, spec_tokenize_from(s, s.len() as int)));
    assert(seq![t] + Seq::<TokenModel>::empty() =~= seq![t]);
}

/// Reads the numeric literal starting at `start`: scans to the next
/// separator and parses the scanned text as a base-10 `i64`.
pub fn get_num(input: &str, start: usize) -> (r: Result<(i64, usize), Error>)
    requires
        start <= input@.len(),
    ensures
        spec_get_num(input@, start as int) matches Ok(p) ==> (r matches Ok(q) && q.0 == p.0
            && q.1 as int == p.1),
        spec_get_num(input@, start as int) matches Err(em) ==> (r matches Err(er) && er@ == em),
{
    let ghost s = input@;
    let n = input.unicode_len();
    let mut e = start;
    while e < n && !is_separator(input.get_char(e))
        invariant
            start <= e <= n,
            n == s.len(),
            s == input@,
            token_end(s, start as int) == token_end(s, e as int),
        decreases n - e,
    {
        e = e + 1;
    }
    proof {
        assert(token_end(s, e as int) == e);
    }
    let ghost text = s.subrange(start as int, e as int);
    if e == start {
        proof {
            assert(text =~= Seq::<char>::empty());
        }
        return Err(Error::NumParseError(String::new()));
    }
    let mut val: i64 = 0;
    let mut j = start;
    while j < e
        invariant
            start <= j <= e <= n,
            start < e,
            n == s.len(),
            s == input@,
            token_end(s, start as int) == e,
            text == s.subrange(start as int, e as int),
            all_digits(s.subrange(start as int, j as int)),
            val == digits_val(s.subrange(start as int, j as int)),
            val >= 0,
        decreases e - j,
    {
        let c = input.get_char(j);
        let ghost seen = s.subrange(start as int, j as int);
        let ghost seen1 = s.subrange(start as int, j + 1 as int);
        proof {
            assert(seen1.drop_last() =~= seen);
            assert(seen1.last() == s[j as int]);
        }
        if !is_digit(c) {
            proof {
                assert(text[j - start] == s[j as int]);
                assert(!all_digits(text));
            }
            return Err(Error::NumParseError(input.substring_char(start, e).to_owned()));
        }
        let d = (c as u32 - '0' as u32) as i64;
        assert(d == digit_val(c));
        let step = match val.checked_mul(10) {
            Some(v10) => v10.checked_add(d),
            None => None,
        };
        match step {
            Some(v) => {
                val = v;
                proof {
                    assert(digits_val(seen1) == 10 * digits_val(seen) + digit_val(s[j as int]));
                }
            }
            None => {
                proof {
                    assert(all_digits(seen1));
                    assert(digits_val(seen1) == 10 * digits_val(seen) + digit_val(s[j as int]));
                    assert(digits_val(seen1) > i64::MAX);
                    if all_digits(text) {
                        lemma_digits_val_prefix_le(text, j + 1 - start);
                        assert(text.take(j + 1 - start) =~= seen1);
                        assert(digits_val(text) > i64::MAX);
                    }
                }
                return Err(Error::NumParseError(input.substring_char(start, e).to_owned()));
            }
        }
        j = j + 1;
    }
    proof {
        assert(s.subrange(start as int, e as int) =~= text);
    }
    Ok((val, e))
}

/// Reads the identifier starting at `start`: scans to the next separator,
/// rejecting any character on the way that may not continue an identifier.
pub fn get_ident(input: &str, start: usize) -> (r: Result<(String, usize), Error>)
    requires
        start <= input@.len(),
    ensures
        spec_get_ident(input@, start as int) matches Ok(p) ==> (r matches Ok(q) && q.0@ == p.0
            && q.1 as int == p.1),
        spec_get_ident(input@, start as int) matches Err(em) ==> (r matches Err(er) && er@ == em),
{
    let ghost s = input@;
    let n = input.unicode_len();
    let mut e = start;
    while e < n && !is_separator(input.get_char(e)) && is_ident_continue(input.get_char(e))
        invariant
            start <= e <= n,
            n == s.len(),
            s == input@,
            ident_end(s, start as int) == ident_end(s, e as int),
        decreases n - e,
    {
        e = e + 1;
    }
    proof {
        assert(ident_end(s, e as int) == e);
    }
    if e < n {
        let c = input.get_char(e);
        if !is_separator(c) {
            return Err(Error::UnexpectedChar(c, e));
        }
    }
    let name = input.substring_char(start, e).to_owned();
    Ok((name, e))
}

/// Prefixes an already-read sequence of tokens to a tokenization result,
/// passing errors through.
pub open spec fn prepend_tokens(
    acc: Seq<TokenModel>,
    r: Result<Seq<TokenModel>, ErrorModel>,
) -> Result<Seq<TokenModel>, ErrorModel> {
    match r {
        Ok(ts) => Ok(acc + ts),
        Err(e) => Err(e),
    }
}

proof fn lemma_prepend_cons(
    acc: Seq<TokenModel>,
    t: TokenModel,
    r: Result<Seq<TokenModel>, ErrorModel>,
)
    ensures
        prepend_tokens(acc, cons_token(t, r)) == prepend_tokens(acc.push(t), r),
{
    match r {
        Ok(ts) => {
            assert(acc + (seq![t] + ts) =~= acc.push(t) + ts);
        },
        Err(_) => {},
    }
}

proof fn lemma_tokens_view_push(ts: Seq<Token>, t: Token)
    ensures
        tokens_view(ts.push(t)) == tokens_view(ts).push(t@),
{
    assert(tokens_view(ts.push(t)) =~= tokens_view(ts).push(t@));
}

/// Turns the input into its token sequence, or reports the first lexical
/// error. The whole input must tokenize; there is no partial result.
pub fn tokenize(input: &str) -> (r: Result<Vec<Token>, Error>)
    ensures
        spec_tokenize(input@) matches Ok(ts) ==> (r matches Ok(v) && tokens_view(v@) == ts),
        spec_tokenize(input@) matches Err(em) ==> (r matches Err(er) && er@ == em),
{
    let ghost s = input@;
    let n = input.unicode_len();
    let mut tokens: Vec<Token> = Vec::new();
    let mut i: usize = 0;
    while i < n
        invariant
            i <= n,
            n == s.len(),
            s == input@,
            spec_tokenize_from(s, 0) == prepend_tokens(
                tokens_view(tokens@),
                spec_tokenize_from(s, i as int),
            ),
        decreases n - i,
    {
        let ghost acc = tokens_view(tokens@);
        let c = input.get_char(i);
        if c == '+' {
            let tok = Token::Operator(Operator::Infix(InfixOp::Add));
            proof {
                lemma_tokens_view_push(tokens@, tok);
                lemma_prepend_cons(acc, tok@, spec_tokenize_from(s, i + 1));
            }
            tokens.push(tok);
            i = i + 1;
        } else if c == '-' {
            if i + 1 >= n {
                let tok = Token::Operator(Operator::Infix(InfixOp::Sub));
                proof {
                    lemma_tokens_view_push(tokens@, tok);
                    lemma_prepend_cons(acc, tok@, spec_tokenize_from(s, i + 1));
                }
                tokens.push(tok);
                i = i + 1;
            } else {
                let c2 = input.get_char(i + 1);
                if is_digit(c2) {
                    match get_num(input, i + 1) {
                        Ok((v, e)) => {
                            proof {
                                lemma_token_end(s, i + 1);
                                let text = s.subrange(i + 1, token_end(s, i + 1));
                                lemma_digits_val_nonneg(text);
                            }
                            let tok = Token::Operand(Operand::Num(-v));
                            proof {
                                lemma_tokens_view_push(tokens@, tok);
                                lemma_prepend_cons(acc, tok@, spec_tokenize_from(s, e as int));
                            }
                            tokens.push(tok);
                            i = e;
                        },
                        Err(er) => {
                            return Err(er);
                        },
                    }
                } else if c2 == ' ' {
                    let tok = Token::Operator(Operator::Infix(InfixOp::Sub));
                    proof {
                        lemma_tokens_view_push(tokens@, tok);
                        lemma_prepend_cons(acc, tok@, spec_tokenize_from(s, i + 1));
                    }
                    tokens.push(tok);
                    i = i + 1;
                } else {
                    return Err(Error::UnexpectedChar(c2, i + 1));
                }
            }
        } else if c == '/' {
            let tok = Token::Operator(Operator::Infix(InfixOp::Div));
            proof {
                lemma_tokens_view_push(tokens@, tok);
                lemma_prepend_cons(acc, tok@, spec_tokenize_from(s, i + 1));
            }
            tokens.push(tok);
            i = i + 1;
        } else if c == '*' {
            let tok = Token::Operator(Operator::Infix(InfixOp::Mul));
            proof {
                lemma_tokens_view_push(tokens@, tok);
                lemma_prepend_cons(acc, tok@, spec_tokenize_from(s, i + 1));
            }
            tokens.push(tok);
            i = i + 1;
        } else if c == '(' {
            let tok = Token::Operator(Operator::LParen);
            proof {
                lemma_tokens_view_push(tokens@, tok);
                lemma_prepend_cons(acc, tok@, spec_tokenize_from(s, i + 1));
            }
            tokens.push(tok);
            i = i + 1;
        } else if c == ')' {
            let tok = Token::Operator(Operator::RParen);
            proof {
                lemma_tokens_view_push(tokens@, tok);
                lemma_prepend_cons(acc, tok@, spec_tokenize_from(s, i + 1));
            }
            tokens.push(tok);
            i = i + 1;
        } else if c == '=' {
            let tok = Token::Assign;
            proof {
                lemma_tokens_view_push(tokens@, tok);
                lemma_prepend_cons(acc, tok@, spec_tokenize_from(s, i + 1));
            }
            tokens.push(tok);
            i = i + 1;
        } else if is_digit(c) {
            match get_num(input, i) {
                Ok((v, e)) => {
                    let tok = Token::Operand(Operand::Num(v));
                    proof {
                        lemma_token_end(s, i as int);
                        lemma_tokens_view_push(tokens@, tok);
                        lemma_prepend_cons(acc, tok@, spec_tokenize_from(s, e as int));
                    }
                    tokens.push(tok);
                    i = e;
                },
                Err(er) => {
                    return Err(er);
                },
            }
        } else if c == ' ' {
            i = i + 1;
        } else if is_ident_start(c) {
            match get_ident(input, i) {
                Ok((name, e)) => {
                    let tok = Token::Operand(Operand::Var(name));
                    proof {
                        lemma_ident_end(s, i as int);
                        lemma_tokens_view_push(tokens@, tok);
                        lemma_prepend_cons(acc, tok@, spec_tokenize_from(s, e as int));
                    }
                    tokens.push(tok);
                    i = e;
                },
                Err(er) => {
                    return Err(er);
                },
            }
        } else {
            return Err(Error::UnexpectedChar(c, i));
        }
    }
    proof {
        assert(spec_tokenize_from(s, n as int) == Ok::<Seq<TokenModel>, ErrorModel>(Seq::empty()));
        assert(tokens_view(tokens@) + Seq::<TokenModel>::empty() =~= tokens_view(tokens@));
    }
    Ok(tokens)
}

} // verus!
