//! An interactive arithmetic expression evaluator: a tokenizer turns a line of
//! text into a token sequence, and a two-stack operator-precedence evaluator
//! reduces that sequence to a single number, maintaining a persistent variable
//! environment across evaluations.

pub mod calc;
pub mod tokenizer;
pub mod tokens;

pub use calc::Calc;
pub use tokens::InfixOp;
pub use tokens::Operand;
pub use tokens::Operator;
pub use tokens::Token;
