//! The evaluator: a two-stack operator-precedence (shunting-yard) machine
//! over the token sequence, plus the persistent variable environment.
//!
//! Operands are pushed unresolved; a variable reference is looked up only
//! when an operator consumes it or when it is the final result. An incoming
//! infix operator first reduces every pending infix operator of equal or
//! higher precedence (so operators of equal precedence associate to the
//! left), then is pushed. A close parenthesis reduces until the matching
//! open parenthesis, which is discarded. After the input is exhausted the
//! operator stack is drained; an open parenthesis still on the stack at that
//! point is an error. The single remaining operand, resolved through the
//! environment, is the result.
//!
//! Arithmetic is exact signed 64-bit integer arithmetic: a result outside
//! the representable range is reported as [`Error::Overflow`], division
//! truncates toward zero, and division by zero is reported as
//! [`Error::DivisionByZero`] rather than producing a value.
//!
//! On success the environment is updated: the pending assignment target, if
//! any, and always the identifier `ans`, are bound to the result. On any
//! error the environment is left untouched.

use vstd::prelude::*;

use crate::tokenizer;
use crate::tokenizer::spec_tokenize;
use crate::tokens::InfixOp;
use crate::tokens::Operand;
use crate::tokens::OperandModel;
use crate::tokens::Operator;
use crate::tokens::Token;
use crate::tokens::TokenModel;
use crate::tokens::tokens_view;

verus! {

/// An evaluation error: the input line produces no result and the
/// environment is not changed.
#[derive(Debug, PartialEq)]
pub enum Error {
    /// The input did not tokenize.
    SyntaxError(tokenizer::Error),
    /// An identifier was consumed as an operand but is not bound.
    UndefinedVariable(String),
    /// A structurally misplaced token, such as a stray parenthesis.
    UnexpectedToken(Token),
    /// An infix operator found no left-hand operand.
    MissingLeftOperand(InfixOp),
    /// An infix operator found no right-hand operand.
    MissingRightOperand(InfixOp),
    /// The assignment target is a numeric literal.
    AssignToLiteral,
    /// The assignment marker found no operand to name a target.
    AssignToNothing,
    /// No operand remained to be the result.
    EmptyResult,
    /// The right-hand side of a division is zero.
    DivisionByZero,
    /// An arithmetic result does not fit the numeric type.
    Overflow,
}

/// The ghost model of an evaluation error.
pub enum ErrorModel {
    SyntaxError(tokenizer::ErrorModel),
    UndefinedVariable(Seq<char>),
    UnexpectedToken(TokenModel),
    MissingLeftOperand(InfixOp),
    MissingRightOperand(InfixOp),
    AssignToLiteral,
    AssignToNothing,
    EmptyResult,
    DivisionByZero,
    Overflow,
}

impl View for Error {
    type V = ErrorModel;

    open spec fn view(&self) -> ErrorModel {
        match self {
            Error::SyntaxError(e) => ErrorModel::SyntaxError(e@),
            Error::UndefinedVariable(s) => ErrorModel::UndefinedVariable(s@),
            Error::UnexpectedToken(t) => ErrorModel::UnexpectedToken(t@),
            Error::MissingLeftOperand(op) => ErrorModel::MissingLeftOperand(*op),
            Error::MissingRightOperand(op) => ErrorModel::MissingRightOperand(*op),
            Error::AssignToLiteral => ErrorModel::AssignToLiteral,
            Error::AssignToNothing => ErrorModel::AssignToNothing,
            Error::EmptyResult => ErrorModel::EmptyResult,
            Error::DivisionByZero => ErrorModel::DivisionByZero,
            Error::Overflow => ErrorModel::Overflow,
        }
    }
}

/// The variable environment: a mapping from identifier to the last value
/// assigned to it.
pub type Env = Map<Seq<char>, i64>;

/// The ghost models of a sequence of operands.
pub open spec fn operands_view(s: Seq<Operand>) -> Seq<OperandModel> {
    s.map_values(|o: Operand| o@)
}

/// The two work stacks of the machine.
#[verifier::ext_equal]
pub struct Stacks {
    pub operands: Seq<OperandModel>,
    pub operators: Seq<Operator>,
}

/// Both stacks empty: the state the machine starts in.
pub open spec fn init_stacks() -> Stacks {
    Stacks { operands: Seq::empty(), operators: Seq::empty() }
}

/// The value of an operand: a literal is its own value, a variable reference
/// resolves through the environment or is an undefined-variable error.
pub open spec fn resolve(env: Env, o: OperandModel) -> Result<i64, ErrorModel> {
    match o {
        OperandModel::Num(n) => Ok(n),
        OperandModel::Var(id) => if env.contains_key(id) {
            Ok(env[id])
        } else {
            Err(ErrorModel::UndefinedVariable(id))
        },
    }
}

/// Truncating (toward-zero) integer division of `x` by `d`.
pub open spec fn trunc_div(x: int, d: int) -> int
    recommends
        d != 0,
{
    if x == 0 {
        0
    } else if x > 0 && d > 0 {
        x / d
    } else if x < 0 && d < 0 {
        (x * -1) / (d * -1)
    } else if x < 0 {
        ((x * -1) / d) * -1
    } else {
        (x / (d * -1)) * -1
    }
}

/// The value of `lhs <op> rhs` in exact signed 64-bit arithmetic: a result
/// outside the representable range is an overflow error, division truncates
/// toward zero, and division by zero is an error of its own.
pub open spec fn apply_infix(op: InfixOp, lhs: i64, rhs: i64) -> Result<i64, ErrorModel> {
    match op {
        InfixOp::Add => if i64::MIN <= lhs + rhs <= i64::MAX {
            Ok((lhs + rhs) as i64)
        } else {
            Err(ErrorModel::Overflow)
        },
        InfixOp::Sub => if i64::MIN <= lhs - rhs <= i64::MAX {
            Ok((lhs - rhs) as i64)
        } else {
            Err(ErrorModel::Overflow)
        },
        InfixOp::Mul => if i64::MIN <= lhs * rhs <= i64::MAX {
            Ok((lhs * rhs) as i64)
        } else {
            Err(ErrorModel::Overflow)
        },
        InfixOp::Div => if rhs == 0 {
            Err(ErrorModel::DivisionByZero)
        } else if i64::MIN <= trunc_div(lhs as int, rhs as int) <= i64::MAX {
            Ok(trunc_div(lhs as int, rhs as int) as i64)
        } else {
            Err(ErrorModel::Overflow)
        },
    }
}

/// One binary reduction: pop an operator, pop the right then the left
/// operand (resolving each), compute, and push the numeric result. A
/// parenthesis on top of the operator stack is a structural error.
pub open spec fn spec_apply(env: Env, st: Stacks) -> Result<Stacks, ErrorModel>
    recommends
        st.operators.len() > 0,
{
    match st.operators.last() {
        Operator::Infix(ifx) => if st.operands.len() == 0 {
            Err(ErrorModel::MissingRightOperand(ifx))
        } else {
            match resolve(env, st.operands.last()) {
                Err(e) => Err(e),
                Ok(rhs) => if st.operands.len() == 1 {
                    Err(ErrorModel::MissingLeftOperand(ifx))
                } else {
                    match resolve(env, st.operands[st.operands.len() - 2]) {
                        Err(e) => Err(e),
                        Ok(lhs) => match apply_infix(ifx, lhs, rhs) {
                            Err(e) => Err(e),
                            Ok(v) => Ok(
                                Stacks {
                                    operands: st.operands.take(st.operands.len() - 2).push(
                                        OperandModel::Num(v),
                                    ),
                                    operators: st.operators.drop_last(),
                                },
                            ),
                        },
                    }
                },
            }
        },
        op => Err(ErrorModel::UnexpectedToken(TokenModel::Operator(op))),
    }
}

/// Reduces every pending infix operator whose precedence is at least `p`;
/// stops at an open parenthesis or an empty stack. Equal precedence reduces,
/// which is what makes operators left-associative.
pub open spec fn spec_reduce(env: Env, st: Stacks, p: u8) -> Result<Stacks, ErrorModel>
    decreases st.operators.len() via spec_reduce_decreases
{
    if st.operators.len() == 0 {
        Ok(st)
    } else {
        match st.operators.last() {
            Operator::Infix(prev) => if prev.spec_precedence() >= p {
                match spec_apply(env, st) {
                    Ok(st2) => spec_reduce(env, st2, p),
                    Err(e) => Err(e),
                }
            } else {
                Ok(st)
            },
            _ => Ok(st),
        }
    }
}

#[via_fn]
proof fn spec_reduce_decreases(env: Env, st: Stacks, p: u8) {
}

/// Reduces until the matching open parenthesis, which is discarded; an
/// exhausted operator stack means the close parenthesis was unmatched.
pub open spec fn spec_close(env: Env, st: Stacks) -> Result<Stacks, ErrorModel>
    decreases st.operators.len() via spec_close_decreases
{
    if st.operators.len() == 0 {
        Err(ErrorModel::UnexpectedToken(TokenModel::Operator(Operator::RParen)))
    } else if st.operators.last() is LParen {
        Ok(Stacks { operands: st.operands, operators: st.operators.drop_last() })
    } else {
        match spec_apply(env, st) {
            Ok(st2) => spec_close(env, st2),
            Err(e) => Err(e),
        }
    }
}

#[via_fn]
proof fn spec_close_decreases(env: Env, st: Stacks) {
}

/// Drains the operator stack after the input is exhausted; an open
/// parenthesis still pending at this point was never matched and is an
/// error, not silently dropped.
pub open spec fn spec_drain(env: Env, st: Stacks) -> Result<Stacks, ErrorModel>
    decreases st.operators.len() via spec_drain_decreases
{
    if st.operators.len() == 0 {
        Ok(st)
    } else if st.operators.last() is LParen {
        Err(ErrorModel::UnexpectedToken(TokenModel::Operator(Operator::LParen)))
    } else {
        match spec_apply(env, st) {
            Ok(st2) => spec_drain(env, st2),
            Err(e) => Err(e),
        }
    }
}

#[via_fn]
proof fn spec_drain_decreases(env: Env, st: Stacks) {
}

/// One step of the machine: how a single token transforms the stacks and
/// the pending assignment target.
pub open spec fn spec_step(env: Env, st: Stacks, at: Option<Seq<char>>, t: TokenModel) -> Result<
    (Stacks, Option<Seq<char>>),
    ErrorModel,
> {
    match t {
        TokenModel::Operand(o) => Ok(
            (Stacks { operands: st.operands.push(o), operators: st.operators }, at),
        ),
        TokenModel::Operator(Operator::Infix(ifx)) => match spec_reduce(
            env,
            st,
            ifx.spec_precedence(),
        ) {
            Ok(st2) => Ok(
                (
                    Stacks {
                        operands: st2.operands,
                        operators: st2.operators.push(Operator::Infix(ifx)),
                    },
                    at,
                ),
            ),
            Err(e) => Err(e),
        },
        TokenModel::Operator(Operator::LParen) => Ok(
            (
                Stacks { operands: st.operands, operators: st.operators.push(Operator::LParen) },
                at,
            ),
        ),
        TokenModel::Operator(Operator::RParen) => match spec_close(env, st) {
            Ok(st2) => Ok((st2, at)),
            Err(e) => Err(e),
        },
        TokenModel::Assign => if st.operands.len() == 0 {
            Err(ErrorModel::AssignToNothing)
        } else {
            match st.operands.last() {
                OperandModel::Var(id) => Ok(
                    (
                        Stacks { operands: st.operands.drop_last(), operators: st.operators },
                        Some(id),
                    ),
                ),
                OperandModel::Num(_) => Err(ErrorModel::AssignToLiteral),
            }
        },
    }
}

/// Runs the machine over a token sequence, one step per token.
pub open spec fn spec_run(env: Env, st: Stacks, at: Option<Seq<char>>, ts: Seq<TokenModel>) -> Result<
    (Stacks, Option<Seq<char>>),
    ErrorModel,
>
    decreases ts.len(),
{
    if ts.len() == 0 {
        Ok((st, at))
    } else {
        match spec_step(env, st, at, ts[0]) {
            Ok(p) => spec_run(env, p.0, p.1, ts.skip(1)),
            Err(e) => Err(e),
        }
    }
}

/// The final result: the single remaining operand, resolved through the
/// environment; an empty operand stack means there is nothing to return.
pub open spec fn spec_finish(env: Env, st: Stacks) -> Result<i64, ErrorModel> {
    if st.operands.len() == 0 {
        Err(ErrorModel::EmptyResult)
    } else {
        resolve(env, st.operands.last())
    }
}

/// The environment after a successful evaluation: the assignment target, if
/// any, and always `ans`, are bound to the result.
pub open spec fn updated_env(env: Env, at: Option<Seq<char>>, v: i64) -> Env {
    (match at {
        Some(id) => env.insert(id, v),
        None => env,
    }).insert("ans"@, v)
}

/// What evaluating a token sequence yields, and the environment it leaves
/// behind: the environment changes only when a result is produced.
pub open spec fn spec_eval_tokens(env: Env, ts: Seq<TokenModel>) -> (Result<i64, ErrorModel>, Env) {
    match spec_run(env, init_stacks(), None, ts) {
        Err(e) => (Err(e), env),
        Ok((st, at)) => match spec_drain(env, st) {
            Err(e) => (Err(e), env),
            Ok(st2) => match spec_finish(env, st2) {
                Err(e) => (Err(e), env),
                Ok(v) => (Ok(v), updated_env(env, at, v)),
            },
        },
    }
}

/// What evaluating a line of text yields: tokenization followed by the
/// machine; a lexical error is wrapped as a syntax error.
pub open spec fn spec_eval(env: Env, s: Seq<char>) -> (Result<i64, ErrorModel>, Env) {
    match spec_tokenize(s) {
        Err(le) => (Err(ErrorModel::SyntaxError(le)), env),
        Ok(ts) => spec_eval_tokens(env, ts),
    }
}

/// The environment that a list of bindings denotes; a later entry for the
/// same identifier would win, though well-formed lists bind each identifier
/// at most once.
pub open spec fn env_of(entries: Seq<(String, i64)>) -> Env
    decreases entries.len(),
{
    if entries.len() == 0 {
        Map::empty()
    } else {
        env_of(entries.drop_last()).insert(entries.last().0@, entries.last().1)
    }
}

/// Whether no identifier occurs twice among the bindings.
pub open spec fn distinct_keys(entries: Seq<(String, i64)>) -> bool {
    forall|a: int, b: int|
        0 <= a < b < entries.len() ==> entries[a].0@ != entries[b].0@
}

proof fn lemma_env_of_index(entries: Seq<(String, i64)>, i: int)
    requires
        distinct_keys(entries),
        0 <= i < entries.len(),
    ensures
        env_of(entries).contains_key(entries[i].0@),
        env_of(entries)[entries[i].0@] == entries[i].1,
    decreases entries.len(),
{
    if i < entries.len() - 1 {
        let head = entries.drop_last();
        assert(distinct_keys(head)) by {
            assert(forall|a: int, b: int|
                0 <= a < b < head.len() ==> head[a] == entries[a] && head[b] == entries[b]);
        }
        lemma_env_of_index(head, i);
        assert(entries[i].0@ != entries.last().0@);
    }
}

proof fn lemma_env_of_absent(entries: Seq<(String, i64)>, k: Seq<char>)
    requires
        forall|i: int| 0 <= i < entries.len() ==> entries[i].0@ != k,
    ensures
        !env_of(entries).contains_key(k),
    decreases entries.len(),
{
    if entries.len() > 0 {
        let head = entries.drop_last();
        assert(forall|i: int| 0 <= i < head.len() ==> head[i] == entries[i]);
        lemma_env_of_absent(head, k);
    }
}

proof fn lemma_env_of_update(entries: Seq<(String, i64)>, i: int, x: (String, i64))
    requires
        distinct_keys(entries),
        0 <= i < entries.len(),
        x.0@ == entries[i].0@,
    ensures
        distinct_keys(entries.update(i, x)),
        env_of(entries.update(i, x)) == env_of(entries).insert(x.0@, x.1),
    decreases entries.len(),
{
    let upd = entries.update(i, x);
    assert(distinct_keys(upd)) by {
        assert(forall|j: int| 0 <= j < entries.len() ==> #[trigger] upd[j].0@ == entries[j].0@);
    }
    let head = entries.drop_last();
    assert(distinct_keys(head)) by {
        assert(forall|a: int, b: int|
            0 <= a < b < head.len() ==> head[a] == entries[a] && head[b] == entries[b]);
    }
    if i == entries.len() - 1 {
        assert(upd.drop_last() =~= head);
        assert(env_of(upd) == env_of(head).insert(x.0@, x.1));
        assert(env_of(entries).insert(x.0@, x.1) =~= env_of(head).insert(x.0@, x.1));
    } else {
        assert(upd.drop_last() =~= head.update(i, x));
        lemma_env_of_update(head, i, x);
        assert(env_of(upd) == env_of(head).insert(x.0@, x.1).insert(
            entries.last().0@,
            entries.last().1,
        ));
        assert(x.0@ != entries.last().0@);
        assert(env_of(head).insert(x.0@, x.1).insert(entries.last().0@, entries.last().1)
            =~= env_of(head).insert(entries.last().0@, entries.last().1).insert(x.0@, x.1));
    }
}

/// The evaluator: the variable environment persisted across evaluations
/// within one session. Created empty; entries are written only by a
/// successful evaluation.
pub struct Calc {
    vars: Vec<(String, i64)>,
}

impl View for Calc {
    type V = Env;

    closed spec fn view(&self) -> Env {
        env_of(self.vars@)
    }
}

impl Calc {
    /// Well-formedness: each identifier is bound at most once.
    pub closed spec fn wf(&self) -> bool {
        distinct_keys(self.vars@)
    }

    /// A fresh evaluator with an empty environment.
    pub fn new() -> (c: Calc)
        ensures
            c.wf(),
            c@ == Map::<Seq<char>, i64>::empty(),
    {
        Calc { vars: Vec::new() }
    }

    /// The value bound to `ident`, or an undefined-variable error.
    pub fn lookup_var(&self, ident: String) -> (r: Result<i64, Error>)
        requires
            self.wf(),
        ensures
            self@.contains_key(ident@) ==> r == Ok::<i64, Error>(self@[ident@]),
            !self@.contains_key(ident@) ==> (r matches Err(e) && e@
                == ErrorModel::UndefinedVariable(ident@)),
    {
        let n = self.vars.len();
        let mut i: usize = 0;
        while i < n
            invariant
                i <= n,
                n == self.vars@.len(),
                self.wf(),
                forall|j: int| 0 <= j < i ==> self.vars@[j].0@ != ident@,
            decreases n - i,
        {
            if self.vars[i].0 == ident {
                proof {
                    lemma_env_of_index(self.vars@, i as int);
                }
                return Ok(self.vars[i].1);
            }
            i = i + 1;
        }
        proof {
            lemma_env_of_absent(self.vars@, ident@);
        }
        Err(Error::UndefinedVariable(ident))
    }

    /// Binds `ident` to `num`, overwriting any previous binding.
    fn set_var(&mut self, ident: String, num: i64)
        requires
            old(self).wf(),
        ensures
            final(self).wf(),
            final(self)@ == old(self)@.insert(ident@, num),
    {
        let ghost entries0 = self.vars@;
        let n = self.vars.len();
        let mut i: usize = 0;
        while i < n
            invariant
                i <= n,
                n == self.vars@.len(),
                self.vars@ == entries0,
                old(self).vars@ == entries0,
                distinct_keys(entries0),
                forall|j: int| 0 <= j < i ==> self.vars@[j].0@ != ident@,
            decreases n - i,
        {
            if self.vars[i].0 == ident {
                let ghost gid = ident@;
                let pair = (ident, num);
                let ghost x = pair;
                self.vars[i] = pair;
                proof {
                    assert(x.0@ == gid);
                    lemma_env_of_update(entries0, i as int, x);
                    assert(self.vars@ =~= entries0.update(i as int, x));
                    assert(env_of(self.vars@) == env_of(entries0).insert(gid, num));
                }
                return ;
            }
            i = i + 1;
        }
        proof {
            let pushed = entries0.push((ident, num));
            assert(pushed.drop_last() =~= entries0);
            assert(distinct_keys(pushed)) by {
                assert(forall|j: int| 0 <= j < entries0.len() ==> pushed[j] == entries0[j]);
            }
        }
        self.vars.push((ident, num));
    }

    /// One binary reduction on the two stacks, as [`spec_apply`] describes
    /// it: pop the operator, pop and resolve the right then the left
    /// operand, compute, push the numeric result.
    #[verifier::rlimit(60)]
    fn do_op(&self, operands: &mut Vec<Operand>, operators: &mut Vec<Operator>) -> (r: Result<
        (),
        Error,
    >)
        requires
            self.wf(),
            old(operators)@.len() > 0,
        ensures
            ({
                let st = Stacks {
                    operands: operands_view(old(operands)@),
                    operators: old(operators)@,
                };
                match spec_apply(self@, st) {
                    Ok(st2) => r is Ok && operands_view(final(operands)@) == st2.operands
                        && final(operators)@ == st2.operators,
                    Err(em) => r matches Err(e) && e@ == em,
                }
            }),
    {
        let ghost st = Stacks { operands: operands_view(operands@), operators: operators@ };
        let idx = operators.len() - 1;
        let op = operators.remove(idx);
        proof {
            assert(operators@ =~= st.operators.drop_last());
        }
        let ifx = match op {
            Operator::Infix(ifx) => ifx,
            Operator::LParen => {
                return Err(Error::UnexpectedToken(Token::Operator(Operator::LParen)));
            },
            Operator::RParen => {
                return Err(Error::UnexpectedToken(Token::Operator(Operator::RParen)));
            },
        };
        let rhs = match operands.pop() {
            Some(operand) => {
                proof {
                    assert(operand@ == st.operands.last());
                    assert(operands_view(operands@) =~= st.operands.drop_last());
                }
                match operand {
                    Operand::Num(n) => n,
                    Operand::Var(v) => match self.lookup_var(v) {
                        Ok(n) => n,
                        Err(e) => {
                            return Err(e);
                        },
                    },
                }
            },
            None => {
                return Err(Error::MissingRightOperand(ifx));
            },
        };
        let lhs = match operands.pop() {
            Some(operand) => {
                proof {
                    assert(operand@ == st.operands[st.operands.len() - 2]);
                    assert(operands_view(operands@) =~= st.operands.drop_last().drop_last());
                }
                match operand {
                    Operand::Num(n) => n,
                    Operand::Var(v) => match self.lookup_var(v) {
                        Ok(n) => n,
                        Err(e) => {
                            return Err(e);
                        },
                    },
                }
            },
            None => {
                return Err(Error::MissingLeftOperand(ifx));
            },
        };
        let result = match ifx {
            InfixOp::Add => match lhs.checked_add(rhs) {
                Some(v) => v,
                None => {
                    return Err(Error::Overflow);
                },
            },
            InfixOp::Sub => match lhs.checked_sub(rhs) {
                Some(v) => v,
                None => {
                    return Err(Error::Overflow);
                },
            },
            InfixOp::Mul => match lhs.checked_mul(rhs) {
                Some(v) => v,
                None => {
                    return Err(Error::Overflow);
                },
            },
            InfixOp::Div => match lhs.checked_div(rhs) {
                Some(v) => v,
                None => {
                    if rhs == 0 {
                        return Err(Error::DivisionByZero);
                    } else {
                        return Err(Error::Overflow);
                    }
                },
            },
        };
        operands.push(Operand::Num(result));
        proof {
            assert(operands_view(operands@) =~= st.operands.take(st.operands.len() - 2).push(
                OperandModel::Num(result),
            ));
        }
        Ok(())
    }

    /// Handles a close parenthesis: reduces until the matching open
    /// parenthesis is found and discarded, as [`spec_close`] describes it.
    fn close_paren(&self, operands: &mut Vec<Operand>, operators: &mut Vec<Operator>) -> (r:
        Result<(), Error>)
        requires
            self.wf(),
        ensures
            ({
                let st = Stacks {
                    operands: operands_view(old(operands)@),
                    operators: old(operators)@,
                };
                match spec_close(self@, st) {
                    Ok(st2) => r is Ok && operands_view(final(operands)@) == st2.operands
                        && final(operators)@ == st2.operators,
                    Err(em) => r matches Err(e) && e@ == em,
                }
            }),
    {
        let ghost env = self@;
        let ghost st0 = Stacks { operands: operands_view(operands@), operators: operators@ };
        while operators.len() > 0 && !top_is_lparen(operators)
            invariant
                self.wf(),
                self@ == env,
                operands_view(old(operands)@) == st0.operands,
                old(operators)@ == st0.operators,
                spec_close(env, st0) == spec_close(
                    env,
                    Stacks { operands: operands_view(operands@), operators: operators@ },
                ),
            decreases operators@.len(),
        {
            match self.do_op(operands, operators) {
                Ok(()) => {},
                Err(e) => {
                    return Err(e);
                },
            }
        }
        if operators.len() == 0 {
            return Err(Error::UnexpectedToken(Token::Operator(Operator::RParen)));
        }
        let ghost cur = Stacks { operands: operands_view(operands@), operators: operators@ };
        let idx = operators.len() - 1;
        operators.remove(idx);
        proof {
            assert(operators@ =~= cur.operators.drop_last());
        }
        Ok(())
    }

    /// Consumes a token sequence with the two-stack machine and produces the
    /// single resulting value; on success the assignment target, if any, and
    /// always `ans` are bound to it, and on any error the environment is
    /// left untouched.
    #[verifier::loop_isolation(false)]
    pub fn eval_tokens(&mut self, tokens: Vec<Token>) -> (r: Result<i64, Error>)
        requires
            old(self).wf(),
        ensures
            final(self).wf(),
            ({
                let (sr, senv) = spec_eval_tokens(old(self)@, tokens_view(tokens@));
                final(self)@ == senv && (match sr {
                    Ok(v) => r == Ok::<i64, Error>(v),
                    Err(em) => r matches Err(e) && e@ == em,
                })
            }),
    {
        let ghost env = old(self)@;
        let ghost ts = tokens_view(tokens@);
        let mut toks = tokens;
        let mut operands: Vec<Operand> = Vec::new();
        let mut operators: Vec<Operator> = Vec::new();
        let mut assign_to: Option<String> = None;
        proof {
            assert(operands_view(operands@) =~= init_stacks().operands);
        }
        while toks.len() > 0
            invariant
                self.wf(),
                self@ == env,
                old(self)@ == env,
                old(self).wf(),
                spec_run(env, init_stacks(), None, ts) == spec_run(
                    env,
                    Stacks { operands: operands_view(operands@), operators: operators@ },
                    at_view(assign_to),
                    tokens_view(toks@),
                ),
            decreases toks@.len(),
        {
            let ghost st_entry = Stacks {
                operands: operands_view(operands@),
                operators: operators@,
            };
            let ghost at_entry = at_view(assign_to);
            let ghost rem0 = tokens_view(toks@);
            let t = toks.remove(0);
            proof {
                assert(t@ == rem0[0]);
                assert(tokens_view(toks@) =~= rem0.skip(1));
            }
            match t {
                Token::Operand(o) => {
                    operands.push(o);
                    proof {
                        assert(operands_view(operands@) =~= st_entry.operands.push(o@));
                    }
                },
                Token::Operator(op) => match op {
                    Operator::Infix(infix) => {
                        let p = infix.precedence();
                        while should_reduce(&operators, p)
                            invariant
                                self.wf(),
                                self@ == env,
                                old(self)@ == env,
                                old(self).wf(),
                                p == infix.spec_precedence(),
                                at_view(assign_to) == at_entry,
                                rem0.len() > 0,
                                rem0[0] == TokenModel::Operator(Operator::Infix(infix)),
                                tokens_view(toks@) == rem0.skip(1),
                                spec_run(env, init_stacks(), None, ts) == spec_run(
                                    env,
                                    st_entry,
                                    at_entry,
                                    rem0,
                                ),
                                spec_reduce(env, st_entry, p) == spec_reduce(
                                    env,
                                    Stacks {
                                        operands: operands_view(operands@),
                                        operators: operators@,
                                    },
                                    p,
                                ),
                            decreases operators@.len(),
                        {
                            let ghost cur = Stacks {
                                operands: operands_view(operands@),
                                operators: operators@,
                            };
                            match self.do_op(&mut operands, &mut operators) {
                                Ok(()) => {},
                                Err(e) => {
                                    proof {
                                        assert(spec_reduce(env, cur, p) == Err::<
                                            Stacks,
                                            ErrorModel,
                                        >(e@));
                                        assert(spec_step(env, st_entry, at_entry, rem0[0])
                                            == Err::<
                                            (Stacks, Option<Seq<char>>),
                                            ErrorModel,
                                        >(e@));
                                        assert(spec_run(env, st_entry, at_entry, rem0) == Err::<
                                            (Stacks, Option<Seq<char>>),
                                            ErrorModel,
                                        >(e@));
                                    }
                                    return Err(e);
                                },
                            }
                        }
                        let ghost cur = Stacks {
                            operands: operands_view(operands@),
                            operators: operators@,
                        };
                        proof {
                            assert(spec_reduce(env, cur, p) == Ok::<Stacks, ErrorModel>(cur));
                        }
                        operators.push(Operator::Infix(infix));
                    },
                    Operator::LParen => {
                        operators.push(Operator::LParen);
                    },
                    Operator::RParen => {
                        match self.close_paren(&mut operands, &mut operators) {
                            Ok(()) => {},
                            Err(e) => {
                                proof {
                                    assert(spec_step(env, st_entry, at_entry, rem0[0]) == Err::<
                                        (Stacks, Option<Seq<char>>),
                                        ErrorModel,
                                    >(e@));
                                    assert(spec_run(env, st_entry, at_entry, rem0) == Err::<
                                        (Stacks, Option<Seq<char>>),
                                        ErrorModel,
                                    >(e@));
                                }
                                return Err(e);
                            },
                        }
                    },
                },
                Token::Assign => {
                    match operands.pop() {
                        Some(op2) => {
                            proof {
                                assert(op2@ == st_entry.operands.last());
                                assert(operands_view(operands@)
                                    =~= st_entry.operands.drop_last());
                            }
                            match op2 {
                                Operand::Var(v) => {
                                    assign_to = Some(v);
                                },
                                Operand::Num(_) => {
                                    proof {
                                        assert(spec_run(env, st_entry, at_entry, rem0) == Err::<
                                            (Stacks, Option<Seq<char>>),
                                            ErrorModel,
                                        >(ErrorModel::AssignToLiteral));
                                    }
                                    return Err(Error::AssignToLiteral);
                                },
                            }
                        },
                        None => {
                            proof {
                                assert(spec_run(env, st_entry, at_entry, rem0) == Err::<
                                    (Stacks, Option<Seq<char>>),
                                    ErrorModel,
                                >(ErrorModel::AssignToNothing));
                            }
                            return Err(Error::AssignToNothing);
                        },
                    }
                },
            }
        }
        let ghost st_run = Stacks { operands: operands_view(operands@), operators: operators@ };
        let ghost at_run = at_view(assign_to);
        proof {
            assert(tokens_view(toks@) =~= Seq::<TokenModel>::empty());
            assert(spec_run(env, init_stacks(), None, ts) == Ok::<_, ErrorModel>(
                (st_run, at_run),
            ));
        }
        while operators.len() > 0
            invariant
                self.wf(),
                self@ == env,
                old(self)@ == env,
                old(self).wf(),
                at_view(assign_to) == at_run,
                spec_run(env, init_stacks(), None, ts) == Ok::<_, ErrorModel>((st_run, at_run)),
                spec_drain(env, st_run) == spec_drain(
                    env,
                    Stacks { operands: operands_view(operands@), operators: operators@ },
                ),
            decreases operators@.len(),
        {
            let ghost cur = Stacks { operands: operands_view(operands@), operators: operators@ };
            if top_is_lparen(&operators) {
                proof {
                    assert(spec_drain(env, cur) == Err::<Stacks, ErrorModel>(
                        ErrorModel::UnexpectedToken(TokenModel::Operator(Operator::LParen)),
                    ));
                }
                return Err(Error::UnexpectedToken(Token::Operator(Operator::LParen)));
            }
            match self.do_op(&mut operands, &mut operators) {
                Ok(()) => {},
                Err(e) => {
                    proof {
                        assert(spec_drain(env, cur) == Err::<Stacks, ErrorModel>(e@));
                    }
                    return Err(e);
                },
            }
        }
        let ghost st_done = Stacks { operands: operands_view(operands@), operators: operators@ };
        proof {
            assert(spec_drain(env, st_run) == Ok::<Stacks, ErrorModel>(st_done));
        }
        let result = match operands.pop() {
            Some(tok2) => {
                proof {
                    assert(tok2@ == st_done.operands.last());
                }
                match tok2 {
                    Operand::Num(n) => Ok(n),
                    Operand::Var(id) => self.lookup_var(id),
                }
            },
            None => Err(Error::EmptyResult),
        };
        match result {
            Ok(num) => {
                let at = assign_to;
                if let Some(ident) = at {
                    self.set_var(ident, num);
                }
                self.set_var(String::from_str("ans"), num);
                Ok(num)
            },
            Err(e) => Err(e),
        }
    }

    /// Evaluates one line of text: tokenization followed by the two-stack
    /// machine over the resulting token sequence.
    pub fn eval(&mut self, input: &str) -> (r: Result<i64, Error>)
        requires
            old(self).wf(),
        ensures
            final(self).wf(),
            ({
                let (sr, senv) = spec_eval(old(self)@, input@);
                final(self)@ == senv && (match sr {
                    Ok(v) => r == Ok::<i64, Error>(v),
                    Err(em) => r matches Err(e) && e@ == em,
                })
            }),
    {
        match crate::tokenizer::tokenize(input) {
            Ok(toks) => self.eval_tokens(toks),
            Err(e) => Err(Error::SyntaxError(e)),
        }
    }
}

/// The ghost model of a pending assignment target.
pub open spec fn at_view(a: Option<String>) -> Option<Seq<char>> {
    match a {
        Some(s) => Some(s@),
        None => None,
    }
}

/// Whether a token sequence contains no assignment marker.
pub open spec fn no_assign(ts: Seq<TokenModel>) -> bool {
    forall|i: int| 0 <= i < ts.len() ==> !(ts[i] is Assign)
}

/// Whether an operand is a reference to the variable `id`.
pub open spec fn operand_mentions(o: OperandModel, id: Seq<char>) -> bool {
    o matches OperandModel::Var(v) && v == id
}

/// Whether no operand on the stack refers to the variable `id`.
pub open spec fn stack_clean(ops: Seq<OperandModel>, id: Seq<char>) -> bool {
    forall|i: int| 0 <= i < ops.len() ==> !operand_mentions(ops[i], id)
}

/// Whether a token is a reference to the variable `id`.
pub open spec fn token_mentions(t: TokenModel, id: Seq<char>) -> bool {
    t matches TokenModel::Operand(o) && operand_mentions(o, id)
}

/// Whether no token of the sequence refers to the variable `id`.
pub open spec fn tokens_clean(ts: Seq<TokenModel>, id: Seq<char>) -> bool {
    forall|i: int| 0 <= i < ts.len() ==> !token_mentions(ts[i], id)
}

/// Whether the two environments agree on every variable but `id`.
pub open spec fn agree_except(e1: Env, e2: Env, id: Seq<char>) -> bool {
    forall|k: Seq<char>|
        k != id ==> (#[trigger] e1.contains_key(k) == e2.contains_key(k) && (e1.contains_key(k)
            ==> e1[k] == e2[k]))
}

proof fn lemma_resolve_agree(e1: Env, e2: Env, id: Seq<char>, o: OperandModel)
    requires
        agree_except(e1, e2, id),
        !operand_mentions(o, id),
    ensures
        resolve(e1, o) == resolve(e2, o),
{
}

proof fn lemma_apply_agree(e1: Env, e2: Env, id: Seq<char>, st: Stacks)
    requires
        agree_except(e1, e2, id),
        stack_clean(st.operands, id),
        st.operators.len() > 0,
    ensures
        spec_apply(e1, st) == spec_apply(e2, st),
        spec_apply(e1, st) matches Ok(st2) ==> stack_clean(st2.operands, id),
{
    if st.operators.last() matches Operator::Infix(ifx) {
        if st.operands.len() > 0 {
            lemma_resolve_agree(e1, e2, id, st.operands.last());
            if st.operands.len() > 1 {
                lemma_resolve_agree(e1, e2, id, st.operands[st.operands.len() - 2]);
            }
        }
    }
}

proof fn lemma_reduce_agree(e1: Env, e2: Env, id: Seq<char>, st: Stacks, p: u8)
    requires
        agree_except(e1, e2, id),
        stack_clean(st.operands, id),
    ensures
        spec_reduce(e1, st, p) == spec_reduce(e2, st, p),
        spec_reduce(e1, st, p) matches Ok(st2) ==> stack_clean(st2.operands, id),
    decreases st.operators.len(),
{
    if st.operators.len() > 0 {
        if st.operators.last() matches Operator::Infix(prev) && prev.spec_precedence() >= p {
            lemma_apply_agree(e1, e2, id, st);
            if let Ok(st2) = spec_apply(e1, st) {
                lemma_reduce_agree(e1, e2, id, st2, p);
            }
        }
    }
}

proof fn lemma_close_agree(e1: Env, e2: Env, id: Seq<char>, st: Stacks)
    requires
        agree_except(e1, e2, id),
        stack_clean(st.operands, id),
    ensures
        spec_close(e1, st) == spec_close(e2, st),
        spec_close(e1, st) matches Ok(st2) ==> stack_clean(st2.operands, id),
    decreases st.operators.len(),
{
    if st.operators.len() > 0 && !(st.operators.last() is LParen) {
        lemma_apply_agree(e1, e2, id, st);
        if let Ok(st2) = spec_apply(e1, st) {
            lemma_close_agree(e1, e2, id, st2);
        }
    }
}

proof fn lemma_drain_agree(e1: Env, e2: Env, id: Seq<char>, st: Stacks)
    requires
        agree_except(e1, e2, id),
        stack_clean(st.operands, id),
    ensures
        spec_drain(e1, st) == spec_drain(e2, st),
        spec_drain(e1, st) matches Ok(st2) ==> stack_clean(st2.operands, id),
    decreases st.operators.len(),
{
    if st.operators.len() > 0 && !(st.operators.last() is LParen) {
        lemma_apply_agree(e1, e2, id, st);
        if let Ok(st2) = spec_apply(e1, st) {
            lemma_drain_agree(e1, e2, id, st2);
        }
    }
}

proof fn lemma_step_agree(
    e1: Env,
    e2: Env,
    id: Seq<char>,
    st: Stacks,
    at: Option<Seq<char>>,
    t: TokenModel,
)
    requires
        agree_except(e1, e2, id),
        stack_clean(st.operands, id),
        !token_mentions(t, id),
    ensures
        spec_step(e1, st, at, t) == spec_step(e2, st, at, t),
        spec_step(e1, st, at, t) matches Ok(p) ==> stack_clean(p.0.operands, id),
{
    match t {
        TokenModel::Operand(o) => {
            assert(st.operands.push(o)[st.operands.len() as int] == o);
        },
        TokenModel::Operator(Operator::Infix(ifx)) => {
            lemma_reduce_agree(e1, e2, id, st, ifx.spec_precedence());
        },
        TokenModel::Operator(Operator::LParen) => {},
        TokenModel::Operator(Operator::RParen) => {
            lemma_close_agree(e1, e2, id, st);
        },
        TokenModel::Assign => {},
    }
}

proof fn lemma_run_agree(
    e1: Env,
    e2: Env,
    id: Seq<char>,
    st: Stacks,
    at: Option<Seq<char>>,
    ts: Seq<TokenModel>,
)
    requires
        agree_except(e1, e2, id),
        stack_clean(st.operands, id),
        tokens_clean(ts, id),
    ensures
        spec_run(e1, st, at, ts) == spec_run(e2, st, at, ts),
        spec_run(e1, st, at, ts) matches Ok(p) ==> stack_clean(p.0.operands, id),
    decreases ts.len(),
{
    if ts.len() > 0 {
        lemma_step_agree(e1, e2, id, st, at, ts[0]);
        if let Ok(p) = spec_step(e1, st, at, ts[0]) {
            assert(tokens_clean(ts.skip(1), id)) by {
                assert(forall|i: int| 0 <= i < ts.skip(1).len() ==> ts.skip(1)[i] == ts[i + 1]);
            }
            lemma_run_agree(e1, e2, id, p.0, p.1, ts.skip(1));
        }
    }
}

/// If the machine runs a token sequence with no assignment marker, the
/// pending assignment target stays as it was.
proof fn lemma_run_no_assign(env: Env, st: Stacks, at: Option<Seq<char>>, ts: Seq<TokenModel>)
    requires
        no_assign(ts),
    ensures
        spec_run(env, st, at, ts) matches Ok(p) ==> p.1 == at,
    decreases ts.len(),
{
    if ts.len() > 0 {
        if let Ok(p) = spec_step(env, st, at, ts[0]) {
            assert(no_assign(ts.skip(1))) by {
                assert(forall|i: int| 0 <= i < ts.skip(1).len() ==> ts.skip(1)[i] == ts[i + 1]);
            }
            lemma_run_no_assign(env, p.0, p.1, ts.skip(1));
            assert(p.1 == at);
        }
    }
}

/// Law: evaluating a token sequence that contains no assignment marker
/// changes the environment only at `ans`, which is bound to the result;
/// when evaluation fails, the environment is unchanged.
pub proof fn lemma_no_assign_env(env: Env, ts: Seq<TokenModel>)
    requires
        no_assign(ts),
    ensures
        ({
            let (r, env2) = spec_eval_tokens(env, ts);
            &&& (r matches Ok(v) ==> env2 == env.insert("ans"@, v))
            &&& (r is Err ==> env2 == env)
        }),
{
    lemma_run_no_assign(env, init_stacks(), None, ts);
}

/// Law: a line that is one plain decimal-digit literal evaluates to the
/// value of that literal, and rebinds only `ans`.
pub proof fn lemma_eval_digit_string(env: Env, s: Seq<char>)
    requires
        s.len() > 0,
        crate::tokenizer::all_digits(s),
        crate::tokenizer::digits_val(s) <= i64::MAX,
    ensures
        ({
            let v = crate::tokenizer::digits_val(s) as i64;
            spec_eval(env, s) == (Ok::<i64, ErrorModel>(v), env.insert("ans"@, v))
        }),
{
    crate::tokenizer::lemma_tokenize_digit_string(s);
    let v = crate::tokenizer::digits_val(s) as i64;
    let ts = seq![TokenModel::Operand(OperandModel::Num(v))];
    assert(spec_tokenize(s) == Ok::<Seq<TokenModel>, crate::tokenizer::ErrorModel>(ts));
    let st1 = Stacks { operands: seq![OperandModel::Num(v)], operators: Seq::empty() };
    assert(spec_step(env, init_stacks(), None, ts[0]) == Ok::<_, ErrorModel>((st1, None::<
        Seq<char>,
    >))) by {
        assert(init_stacks().operands.push(OperandModel::Num(v)) =~= st1.operands);
    }
    assert(ts.skip(1) =~= Seq::<TokenModel>::empty());
    assert(spec_run(env, st1, None, ts.skip(1)) == Ok::<_, ErrorModel>((st1, None::<Seq<char>>)));
    assert(spec_run(env, init_stacks(), None, ts) == Ok::<_, ErrorModel>((st1, None::<Seq<char>>)));
    assert(spec_drain(env, st1) == Ok::<Stacks, ErrorModel>(st1));
    assert(spec_finish(env, st1) == Ok::<i64, ErrorModel>(v));
}

/// Law: an evaluation that fails leaves the environment untouched; there
/// are no partial writes.
pub proof fn lemma_error_leaves_env(env: Env, s: Seq<char>)
    ensures
        ({
            let (r, env2) = spec_eval(env, s);
            r is Err ==> env2 == env
        }),
{
}

/// Law: re-evaluating the same non-assigning line, with no intervening
/// assignment, yields the identical result and leaves the environment
/// exactly as the first evaluation left it. A line referring to `ans`
/// is excluded: its meaning may change because evaluation itself rebinds
/// `ans`.
pub proof fn lemma_eval_idempotent(env: Env, s: Seq<char>)
    requires
        spec_tokenize(s) matches Ok(ts) && no_assign(ts) && tokens_clean(ts, "ans"@),
    ensures
        ({
            let (r1, env1) = spec_eval(env, s);
            r1 matches Ok(v) ==> spec_eval(env1, s) == (Ok::<i64, ErrorModel>(v), env1)
        }),
{
    if let Ok(ts) = spec_tokenize(s) {
        lemma_reeval_same(env, ts);
    }
}

/// Law: re-evaluating a non-assigning token sequence that does not itself
/// refer to `ans`, with no intervening assignment, yields the same result,
/// and leaves the environment exactly as the first evaluation left it.
pub proof fn lemma_reeval_same(env: Env, ts: Seq<TokenModel>)
    requires
        no_assign(ts),
        tokens_clean(ts, "ans"@),
    ensures
        ({
            let (r1, env1) = spec_eval_tokens(env, ts);
            r1 matches Ok(v) ==> spec_eval_tokens(env1, ts) == (Ok::<i64, ErrorModel>(v), env1)
        }),
{
    let (r1, env1) = spec_eval_tokens(env, ts);
    if let Ok(v) = r1 {
        lemma_no_assign_env(env, ts);
        lemma_run_no_assign(env, init_stacks(), None, ts);
        assert(env1 == env.insert("ans"@, v));
        assert(agree_except(env, env1, "ans"@));
        lemma_run_agree(env, env1, "ans"@, init_stacks(), None, ts);
        let p = spec_run(env, init_stacks(), None, ts)->Ok_0;
        lemma_drain_agree(env, env1, "ans"@, p.0);
        let st2 = spec_drain(env, p.0)->Ok_0;
        lemma_resolve_agree(env, env1, "ans"@, st2.operands.last());
        assert(spec_eval_tokens(env1, ts).0 == Ok::<i64, ErrorModel>(v));
        assert(spec_eval_tokens(env1, ts).1 =~= env1);
    }
}

/// Whether the top of the operator stack is an open parenthesis.
fn top_is_lparen(operators: &Vec<Operator>) -> (b: bool)
    ensures
        b == (operators@.len() > 0 && operators@.last() is LParen),
{
    if operators.len() == 0 {
        false
    } else {
        matches!(operators[operators.len() - 1], Operator::LParen)
    }
}

/// Whether the top of the operator stack is an infix operator of precedence
/// at least `p`, so that it must be reduced before an incoming operator of
/// precedence `p` is pushed.
fn should_reduce(operators: &Vec<Operator>, p: u8) -> (b: bool)
    ensures
        b == (operators@.len() > 0 && (operators@.last() matches Operator::Infix(prev)
            && prev.spec_precedence() >= p)),
{
    if operators.len() == 0 {
        false
    } else {
        match operators[operators.len() - 1] {
            Operator::Infix(prev) => prev.precedence() >= p,
            _ => false,
        }
    }
}

} // verus!
