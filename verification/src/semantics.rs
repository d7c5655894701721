//! The mathematical model of the language: abstract expression and statement
//! trees, and a big-step interpreter over them. Loop execution is bounded by
//! an explicit fuel so that the model is a total function; one unit of fuel
//! buys one `while` iteration.

use vstd::prelude::*;
use crate::numerals::dec_i64;

verus! {

/// A unary operator.
pub enum UnOp {
    LogicalNot,
    BitwiseNot,
    UnaryMinus,
}

/// A binary operator.
pub enum BinOp {
    LogicalOr,
    LogicalAnd,
    BitwiseOr,
    BitwiseXor,
    BitwiseAnd,
    Equal,
    NotEqual,
    Lesser,
    LesserEqual,
    Greater,
    GreaterEqual,
    Plus,
    Minus,
    Multiply,
    Divide,
    Remainder,
}

/// The abstract form of an expression.
pub enum ExprV {
    Integer(i64),
    Variable(Seq<char>),
    Parentheses(Box<ExprV>),
    Unary(UnOp, Box<ExprV>),
    Binary(BinOp, Box<ExprV>, Box<ExprV>),
}

/// The abstract form of a statement.
pub enum StmtV {
    Print(Option<ExprV>, u64),
    Println(Option<ExprV>, u64),
    Define(Seq<char>, ExprV, u64),
    Assign(Seq<char>, ExprV, u64),
    If(ExprV, Seq<StmtV>, Seq<StmtV>, u64),
    While(ExprV, Seq<StmtV>, u64),
}

/// A failure raised while evaluating one expression, before the enclosing
/// statement attaches its source line.
pub enum EvalStop {
    Undefined(Seq<char>),
    DivisionByZero,
}

/// The outcome of evaluating one expression. `Trap` marks the one operation
/// the language leaves to the host: a remainder whose divisor is zero, or the
/// overflowing remainder of the smallest value by minus one. The interpreter
/// is never asked to evaluate such an expression.
pub enum EvalOut {
    Val(i64),
    Fail(EvalStop),
    Trap,
}

/// A failure raised by statement execution, carrying the statement's line.
pub enum RunError {
    Undefined(Seq<char>, u64),
    Redefined(Seq<char>, u64),
    DivisionByZero(u64),
}

/// Why a run stopped before the end of the program.
pub enum StopV {
    Failed(RunError),
    OutOfFuel,
}

/// The outcome of executing statements: the new environment and output, or
/// the state at which the run stopped, or a host trap.
pub enum StepOut {
    Done(Map<Seq<char>, i64>, Seq<char>),
    Stopped(Map<Seq<char>, i64>, Seq<char>, StopV),
    Trap,
}

/// An expression failure lifted to the enclosing statement's line.
pub open spec fn lift_stop(e: EvalStop, line: u64) -> RunError {
    match e {
        EvalStop::Undefined(n) => RunError::Undefined(n, line),
        EvalStop::DivisionByZero => RunError::DivisionByZero(line),
    }
}

/// Truncating division as the host machine computes it.
pub open spec fn trunc_div(x: int, d: int) -> int {
    if x == 0 {
        0
    } else if x > 0 && d > 0 {
        x / d
    } else if x < 0 && d < 0 {
        (x * -1) / (d * -1)
    } else if x < 0 {
        ((x * -1) / d) * -1
    } else {
        (x / (d * -1)) * -1
    }
}

/// Truncating remainder as the host machine computes it: the sign follows the
/// dividend.
pub open spec fn trunc_rem(x: int, d: int) -> int {
    if x == 0 {
        0
    } else if x > 0 && d > 0 {
        x % d
    } else if x < 0 && d < 0 {
        ((x * -1) % (d * -1)) * -1
    } else if x < 0 {
        ((x * -1) % d) * -1
    } else {
        x % (d * -1)
    }
}

/// Negation that wraps at the smallest value, like the other arithmetic.
pub open spec fn wrap_neg(v: i64) -> i64 {
    if v == i64::MIN {
        i64::MIN
    } else {
        (-v) as i64
    }
}

/// Division with the divisor already known nonzero: truncating, and wrapping
/// at the one overflowing case.
pub open spec fn wrap_div(a: i64, b: i64) -> i64 {
    if a == i64::MIN && b == -1 {
        i64::MIN
    } else {
        trunc_div(a as int, b as int) as i64
    }
}

/// 1 for true and 0 for false, the only boolean values of the language.
pub open spec fn bool_value(b: bool) -> i64 {
    if b {
        1
    } else {
        0
    }
}

/// The result of a unary operator.
pub open spec fn apply_unary(op: UnOp, v: i64) -> i64 {
    match op {
        UnOp::LogicalNot => bool_value(v == 0),
        UnOp::BitwiseNot => !v,
        UnOp::UnaryMinus => wrap_neg(v),
    }
}

/// The result of a binary operator on two already-evaluated operands.
/// Addition, subtraction and multiplication wrap; division rejects a zero
/// divisor; the remainder is left to the host on a zero divisor or on the one
/// overflowing pair, so those two cases trap.
pub open spec fn apply_binary(op: BinOp, a: i64, b: i64) -> EvalOut {
    match op {
        BinOp::LogicalOr => EvalOut::Val(bool_value(a != 0 || b != 0)),
        BinOp::LogicalAnd => EvalOut::Val(bool_value(a != 0 && b != 0)),
        BinOp::BitwiseOr => EvalOut::Val(a | b),
        BinOp::BitwiseXor => EvalOut::Val(a ^ b),
        BinOp::BitwiseAnd => EvalOut::Val(a & b),
        BinOp::Equal => EvalOut::Val(bool_value(a == b)),
        BinOp::NotEqual => EvalOut::Val(bool_value(a != b)),
        BinOp::Lesser => EvalOut::Val(bool_value(a < b)),
        BinOp::LesserEqual => EvalOut::Val(bool_value(a <= b)),
        BinOp::Greater => EvalOut::Val(bool_value(a > b)),
        BinOp::GreaterEqual => EvalOut::Val(bool_value(a >= b)),
        BinOp::Plus => EvalOut::Val(vstd::wrapping::i64_specs::wrapping_add(a, b)),
        BinOp::Minus => EvalOut::Val(vstd::wrapping::i64_specs::wrapping_sub(a, b)),
        BinOp::Multiply => EvalOut::Val(vstd::wrapping::i64_specs::wrapping_mul(a, b)),
        BinOp::Divide => if b == 0 {
            EvalOut::Fail(EvalStop::DivisionByZero)
        } else {
            EvalOut::Val(wrap_div(a, b))
        },
        BinOp::Remainder => if b == 0 || (a == i64::MIN && b == -1) {
            EvalOut::Trap
        } else {
            EvalOut::Val(trunc_rem(a as int, b as int) as i64)
        },
    }
}

/// Evaluates one expression against an environment. Both operands of a binary
/// operator are always evaluated, in left-to-right order, before the operator
/// is applied: there is no short-circuiting, not even for the logical
/// operators.
pub open spec fn eval_expr(e: ExprV, env: Map<Seq<char>, i64>) -> EvalOut
    decreases e,
{
    match e {
        ExprV::Integer(i) => EvalOut::Val(i),
        ExprV::Variable(n) => if env.contains_key(n) {
            EvalOut::Val(env[n])
        } else {
            EvalOut::Fail(EvalStop::Undefined(n))
        },
        ExprV::Parentheses(inner) => eval_expr(*inner, env),
        ExprV::Unary(op, operand) => match eval_expr(*operand, env) {
            EvalOut::Val(v) => EvalOut::Val(apply_unary(op, v)),
            other => other,
        },
        ExprV::Binary(op, left, right) => match eval_expr(*left, env) {
            EvalOut::Val(a) => match eval_expr(*right, env) {
                EvalOut::Val(b) => apply_binary(op, a, b),
                other => other,
            },
            other => other,
        },
    }
}

/// Executes one statement. One unit of fuel buys one `while` iteration; both
/// the iteration's body and the rest of the loop run on the remaining fuel.
pub open spec fn exec_stmt(
    s: StmtV,
    env: Map<Seq<char>, i64>,
    out: Seq<char>,
    fuel: nat,
) -> StepOut
    decreases fuel, s, 0nat,
{
    match s {
        StmtV::Print(oe, line) => match oe {
            Some(e) => match eval_expr(e, env) {
                EvalOut::Val(v) => StepOut::Done(env, out + dec_i64(v) + seq![' ']),
                EvalOut::Fail(er) => StepOut::Stopped(env, out, StopV::Failed(lift_stop(er, line))),
                EvalOut::Trap => StepOut::Trap,
            },
            None => StepOut::Done(env, out + seq![' ']),
        },
        StmtV::Println(oe, line) => match oe {
            Some(e) => match eval_expr(e, env) {
                EvalOut::Val(v) => StepOut::Done(env, out + dec_i64(v) + seq!['\n']),
                EvalOut::Fail(er) => StepOut::Stopped(env, out, StopV::Failed(lift_stop(er, line))),
                EvalOut::Trap => StepOut::Trap,
            },
            None => StepOut::Done(env, out + seq!['\n']),
        },
        StmtV::Define(n, e, line) => if env.contains_key(n) {
            StepOut::Stopped(env, out, StopV::Failed(RunError::Redefined(n, line)))
        } else {
            match eval_expr(e, env) {
                EvalOut::Val(v) => StepOut::Done(env.insert(n, v), out),
                EvalOut::Fail(er) => StepOut::Stopped(env, out, StopV::Failed(lift_stop(er, line))),
                EvalOut::Trap => StepOut::Trap,
            }
        },
        StmtV::Assign(n, e, line) => if !env.contains_key(n) {
            StepOut::Stopped(env, out, StopV::Failed(RunError::Undefined(n, line)))
        } else {
            match eval_expr(e, env) {
                EvalOut::Val(v) => StepOut::Done(env.insert(n, v), out),
                EvalOut::Fail(er) => StepOut::Stopped(env, out, StopV::Failed(lift_stop(er, line))),
                EvalOut::Trap => StepOut::Trap,
            }
        },
        StmtV::If(c, thens, elses, line) => match eval_expr(c, env) {
            EvalOut::Val(v) => if v != 0 {
                exec_block(thens, env, out, fuel)
            } else {
                exec_block(elses, env, out, fuel)
            },
            EvalOut::Fail(er) => StepOut::Stopped(env, out, StopV::Failed(lift_stop(er, line))),
            EvalOut::Trap => StepOut::Trap,
        },
        StmtV::While(c, body, line) => match eval_expr(c, env) {
            EvalOut::Val(v) => if v == 0 {
                StepOut::Done(env, out)
            } else if fuel == 0 {
                StepOut::Stopped(env, out, StopV::OutOfFuel)
            } else {
                match exec_block(body, env, out, (fuel - 1) as nat) {
                    StepOut::Done(env2, out2) => exec_stmt(s, env2, out2, (fuel - 1) as nat),
                    other => other,
                }
            },
            EvalOut::Fail(er) => StepOut::Stopped(env, out, StopV::Failed(lift_stop(er, line))),
            EvalOut::Trap => StepOut::Trap,
        },
    }
}

/// Executes a sequence of statements in order, stopping at the first failure.
pub open spec fn exec_block(
    ss: Seq<StmtV>,
    env: Map<Seq<char>, i64>,
    out: Seq<char>,
    fuel: nat,
) -> StepOut
    decreases fuel, ss, ss.len() + 1,
{
    if ss.len() == 0 {
        StepOut::Done(env, out)
    } else {
        match exec_stmt(ss[0], env, out, fuel) {
            StepOut::Done(env2, out2) => exec_block(ss.drop_first(), env2, out2, fuel),
            other => other,
        }
    }
}

} // verus!
