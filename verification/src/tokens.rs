//! The shared token data model: operands, operators and the assignment marker,
//! together with the ghost-level models that contracts are stated over.

use vstd::prelude::*;

verus! {

/// A binary infix operator. `Add` and `Sub` bind with precedence 1,
/// `Div` and `Mul` with precedence 2 (higher binds tighter).
#[derive(Debug, PartialEq, Eq, Structural, Clone, Copy)]
pub enum InfixOp {
    Add,
    Sub,
    Div,
    Mul,
}

impl InfixOp {
    /// The operator denoted by a single character, if any.
    pub open spec fn spec_from_char(c: char) -> Option<InfixOp> {
        if c == '+' {
            Some(InfixOp::Add)
        } else if c == '-' {
            Some(InfixOp::Sub)
        } else if c == '/' {
            Some(InfixOp::Div)
        } else if c == '*' {
            Some(InfixOp::Mul)
        } else {
            None
        }
    }

    #[verifier::when_used_as_spec(spec_from_char)]
    pub fn from_char(c: char) -> (r: Option<InfixOp>)
        ensures
            r == Self::spec_from_char(c),
    {
        match c {
            '+' => Some(InfixOp::Add),
            '-' => Some(InfixOp::Sub),
            '/' => Some(InfixOp::Div),
            '*' => Some(InfixOp::Mul),
            _ => None,
        }
    }

    /// The character denoting this operator; the inverse of `from_char`.
    pub open spec fn spec_to_char(self) -> char {
        match self {
            InfixOp::Add => '+',
            InfixOp::Sub => '-',
            InfixOp::Div => '/',
            InfixOp::Mul => '*',
        }
    }

    #[verifier::when_used_as_spec(spec_to_char)]
    pub fn to_char(self) -> (c: char)
        ensures
            c == self.spec_to_char(),
            Self::spec_from_char(c) == Some(self),
    {
        match self {
            InfixOp::Add => '+',
            InfixOp::Sub => '-',
            InfixOp::Div => '/',
            InfixOp::Mul => '*',
        }
    }

    /// The numeric rank governing which of two adjacent operators binds first;
    /// a higher value binds tighter.
    pub open spec fn spec_precedence(&self) -> u8 {
        match *self {
            InfixOp::Add | InfixOp::Sub => 1,
            InfixOp::Div | InfixOp::Mul => 2,
        }
    }

    #[verifier::when_used_as_spec(spec_precedence)]
    pub fn precedence(&self) -> (p: u8)
        ensures
            p == self.spec_precedence(),
    {
        match *self {
            InfixOp::Add | InfixOp::Sub => 1,
            InfixOp::Div | InfixOp::Mul => 2,
        }
    }
}

/// An operator token: an infix operator or one of the two parentheses.
#[derive(Debug, PartialEq, Eq, Structural, Clone, Copy)]
pub enum Operator {
    Infix(InfixOp),
    LParen,
    RParen,
}

/// An operand: a numeric literal (possibly with a folded-in leading minus) or
/// an as-yet unresolved variable reference.
#[derive(Debug, PartialEq)]
pub enum Operand {
    Num(i64),
    Var(String),
}

/// A single token of the input language.
#[derive(Debug, PartialEq)]
pub enum Token {
    Operator(Operator),
    Operand(Operand),
    Assign,
}

/// The ghost model of an operand: variable names are abstracted to character
/// sequences.
pub enum OperandModel {
    Num(i64),
    Var(Seq<char>),
}

/// The ghost model of a token.
pub enum TokenModel {
    Operator(Operator),
    Operand(OperandModel),
    Assign,
}

impl View for Operand {
    type V = OperandModel;

    open spec fn view(&self) -> OperandModel {
        match self {
            Operand::Num(n) => OperandModel::Num(*n),
            Operand::Var(s) => OperandModel::Var(s@),
        }
    }
}

impl View for Token {
    type V = TokenModel;

    open spec fn view(&self) -> TokenModel {
        match self {
            Token::Operator(op) => TokenModel::Operator(*op),
            Token::Operand(o) => TokenModel::Operand(o@),
            Token::Assign => TokenModel::Assign,
        }
    }
}

/// The ghost models of a sequence of tokens.
pub open spec fn tokens_view(ts: Seq<Token>) -> Seq<TokenModel> {
    ts.map_values(|t: Token| t@)
}

} // verus!
