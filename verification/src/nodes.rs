//! The expression and statement nodes of the abstract syntax tree, and the
//! verified tree-walking evaluator over them.

use vstd::prelude::*;
use crate::env::Environment;
use crate::errors::{EvalError, ExecError, Stop};
use crate::numerals::push_dec_i64;
use crate::semantics::{
    apply_binary, eval_expr, exec_block, exec_stmt, lift_stop, trunc_div, BinOp, EvalOut, ExprV,
    StepOut, StmtV, StopV, UnOp,
};
use vstd::arithmetic::div_mod::{
    lemma_div_is_ordered, lemma_div_is_ordered_by_denominator, lemma_div_nonincreasing,
    lemma_div_pos_is_pos,
};

verus! {

/// The operator or leaf kind of one expression node.
#[derive(Debug)]
pub enum ExpressionType {
    LogicalOr,
    LogicalAnd,
    BitwiseOr,
    BitwiseXor,
    BitwiseAnd,
    Equal,
    NotEqual,
    Lesser,
    LesserEqual,
    Greater,
    GreaterEqual,
    Plus,
    Minus,
    Multiply,
    Divide,
    Remainder,
    LogicalNot,
    BitwiseNot,
    UnaryMinus,
    Integer(i64),
    Variable(String),
    Parentheses(Box<Expression>),
}

impl ExpressionType {
    /// Leaf kinds carry their whole content in the tag itself.
    pub open spec fn is_leaf(&self) -> bool {
        self is Integer || self is Variable || self is Parentheses
    }

    /// Kinds that take exactly one operand, stored in the right slot.
    pub open spec fn is_unary(&self) -> bool {
        self is LogicalNot || self is BitwiseNot || self is UnaryMinus
    }

    /// Kinds that take a left and a right operand.
    pub open spec fn is_binary(&self) -> bool {
        !self.is_leaf() && !self.is_unary()
    }

    /// A leaf kind is complete when any nested expression it carries is.
    pub open spec fn leaf_wf(&self) -> bool
        decreases self,
    {
        match self {
            ExpressionType::Parentheses(inner) => inner.wf(),
            _ => true,
        }
    }

    /// The abstract unary operator of a unary kind.
    pub open spec fn unary_op(&self) -> UnOp {
        match self {
            ExpressionType::BitwiseNot => UnOp::BitwiseNot,
            ExpressionType::UnaryMinus => UnOp::UnaryMinus,
            _ => UnOp::LogicalNot,
        }
    }

    /// The abstract binary operator of a binary kind.
    pub open spec fn binary_op(&self) -> BinOp {
        match self {
            ExpressionType::LogicalAnd => BinOp::LogicalAnd,
            ExpressionType::BitwiseOr => BinOp::BitwiseOr,
            ExpressionType::BitwiseXor => BinOp::BitwiseXor,
            ExpressionType::BitwiseAnd => BinOp::BitwiseAnd,
            ExpressionType::Equal => BinOp::Equal,
            ExpressionType::NotEqual => BinOp::NotEqual,
            ExpressionType::Lesser => BinOp::Lesser,
            ExpressionType::LesserEqual => BinOp::LesserEqual,
            ExpressionType::Greater => BinOp::Greater,
            ExpressionType::GreaterEqual => BinOp::GreaterEqual,
            ExpressionType::Plus => BinOp::Plus,
            ExpressionType::Minus => BinOp::Minus,
            ExpressionType::Multiply => BinOp::Multiply,
            ExpressionType::Divide => BinOp::Divide,
            ExpressionType::Remainder => BinOp::Remainder,
            _ => BinOp::LogicalOr,
        }
    }
}

/// One expression node: a kind together with operand slots populated
/// according to the kind's arity.
#[derive(Debug)]
pub struct Expression {
    expression_type: ExpressionType,
    value1: Option<Box<Expression>>,
    value2: Option<Box<Expression>>,
}

impl Expression {
    /// The operand slots are populated exactly as the kind's arity demands:
    /// none for a leaf, the right slot alone for a unary operator, both for a
    /// binary operator.
    pub closed spec fn wf(&self) -> bool
        decreases self,
    {
        if self.expression_type.is_leaf() {
            self.value1 is None && self.value2 is None && self.expression_type.leaf_wf()
        } else if self.expression_type.is_unary() {
            self.value1 is None && match self.value2 {
                Some(operand) => operand.wf(),
                None => false,
            }
        } else {
            &&& match self.value1 {
                Some(left) => left.wf(),
                None => false,
            }
            &&& match self.value2 {
                Some(right) => right.wf(),
                None => false,
            }
        }
    }
}

impl Expression {
    /// The abstract expression this node denotes.
    pub closed spec fn expr_view(&self) -> ExprV
        decreases self,
    {
        match self.expression_type {
            ExpressionType::Integer(i) => ExprV::Integer(i),
            ExpressionType::Variable(n) => ExprV::Variable(n@),
            ExpressionType::Parentheses(inner) => ExprV::Parentheses(Box::new(inner.expr_view())),
            _ => if self.expression_type.is_unary() {
                match self.value2 {
                    Some(operand) => ExprV::Unary(
                        self.expression_type.unary_op(),
                        Box::new(operand.expr_view()),
                    ),
                    None => ExprV::Integer(0),
                }
            } else {
                match (self.value1, self.value2) {
                    (Some(left), Some(right)) => ExprV::Binary(
                        self.expression_type.binary_op(),
                        Box::new(left.expr_view()),
                        Box::new(right.expr_view()),
                    ),
                    _ => ExprV::Integer(0),
                }
            },
        }
    }
}

impl View for Expression {
    type V = ExprV;

    open spec fn view(&self) -> ExprV {
        self.expr_view()
    }
}

/// The truncating quotient of two values that do not divide to an overflow
/// stays within the 64-bit signed range.
proof fn lemma_trunc_div_in_range(a: i64, b: i64)
    requires
        b != 0,
        !(a == i64::MIN && b == -1),
    ensures
        i64::MIN <= trunc_div(a as int, b as int) <= i64::MAX,
{
    let x = a as int;
    let d = b as int;
    if x == 0 {
    } else if x > 0 && d > 0 {
        lemma_div_pos_is_pos(x, d);
        lemma_div_nonincreasing(x, d);
    } else if x < 0 && d < 0 {
        lemma_div_pos_is_pos(x * -1, d * -1);
        if a == i64::MIN {
            lemma_div_is_ordered_by_denominator(x * -1, 2, d * -1);
            lemma_div_is_ordered(x * -1, 0x8000_0000_0000_0000, 2);
        } else {
            lemma_div_nonincreasing(x * -1, d * -1);
        }
    } else if x < 0 {
        lemma_div_pos_is_pos(x * -1, d);
        lemma_div_nonincreasing(x * -1, d);
    } else {
        lemma_div_pos_is_pos(x, d * -1);
        lemma_div_nonincreasing(x, d * -1);
    }
}

impl Expression {
    /// Evaluates this expression against the environment. The result is
    /// exactly what the abstract evaluator gives: either the value, or the
    /// first failure met in left-to-right evaluation order. Expressions whose
    /// evaluation would reach a host trap (a remainder with zero divisor, or
    /// the overflowing remainder) are not admitted.
    pub fn evaluate(&self, variables: &Environment) -> (r: Result<i64, EvalError>)
        requires
            self.wf(),
            variables.wf(),
            !(eval_expr(self@, variables@) is Trap),
        ensures
            match r {
                Ok(v) => eval_expr(self@, variables@) == EvalOut::Val(v),
                Err(e) => eval_expr(self@, variables@) == EvalOut::Fail(e@),
            },
        decreases self,
    {
        match &self.expression_type {
            ExpressionType::Integer(i) => Ok(*i),
            ExpressionType::Variable(n) => match variables.get(n) {
                Some(v) => Ok(v),
                None => Err(EvalError::UndefinedVariable(n.clone())),
            },
            ExpressionType::Parentheses(inner) => {
                proof {
                    assert(self.expression_type.leaf_wf());
                    assert(self@ == ExprV::Parentheses(Box::new(inner.expr_view())));
                }
                inner.evaluate(variables)
            },
            _ => {
                if matches!(
                    self.expression_type,
                    ExpressionType::LogicalNot | ExpressionType::BitwiseNot
                        | ExpressionType::UnaryMinus
                ) {
                    let operand = match &self.value2 {
                        Some(operand) => operand,
                        None => unreached(),
                    };
                    let v = match operand.evaluate(variables) {
                        Ok(v) => v,
                        Err(e) => {
                            return Err(e);
                        },
                    };
                    match self.expression_type {
                        ExpressionType::LogicalNot => Ok(if v == 0 {
                            1
                        } else {
                            0
                        }),
                        ExpressionType::BitwiseNot => Ok(!v),
                        _ => Ok(
                            if v == i64::MIN {
                                i64::MIN
                            } else {
                                -v
                            },
                        ),
                    }
                } else {
                    let left = match &self.value1 {
                        Some(left) => left,
                        None => unreached(),
                    };
                    let right = match &self.value2 {
                        Some(right) => right,
                        None => unreached(),
                    };
                    let a = match left.evaluate(variables) {
                        Ok(v) => v,
                        Err(e) => {
                            return Err(e);
                        },
                    };
                    let b = match right.evaluate(variables) {
                        Ok(v) => v,
                        Err(e) => {
                            return Err(e);
                        },
                    };
                    proof {
                        assert(eval_expr(self@, variables@) == apply_binary(
                            self.expression_type.binary_op(),
                            a,
                            b,
                        ));
                    }
                    match self.expression_type {
                        ExpressionType::LogicalOr => Ok(if a != 0 || b != 0 {
                            1
                        } else {
                            0
                        }),
                        ExpressionType::LogicalAnd => Ok(if a != 0 && b != 0 {
                            1
                        } else {
                            0
                        }),
                        ExpressionType::BitwiseOr => Ok(a | b),
                        ExpressionType::BitwiseXor => Ok(a ^ b),
                        ExpressionType::BitwiseAnd => Ok(a & b),
                        ExpressionType::Equal => Ok(if a == b {
                            1
                        } else {
                            0
                        }),
                        ExpressionType::NotEqual => Ok(if a != b {
                            1
                        } else {
                            0
                        }),
                        ExpressionType::Lesser => Ok(if a < b {
                            1
                        } else {
                            0
                        }),
                        ExpressionType::LesserEqual => Ok(if a <= b {
                            1
                        } else {
                            0
                        }),
                        ExpressionType::Greater => Ok(if a > b {
                            1
                        } else {
                            0
                        }),
                        ExpressionType::GreaterEqual => Ok(if a >= b {
                            1
                        } else {
                            0
                        }),
                        ExpressionType::Plus => Ok(a.wrapping_add(b)),
                        ExpressionType::Minus => Ok(a.wrapping_sub(b)),
                        ExpressionType::Multiply => Ok(a.wrapping_mul(b)),
                        ExpressionType::Divide => {
                            if b == 0 {
                                Err(EvalError::DivisionByZero)
                            } else if a == i64::MIN && b == -1 {
                                Ok(i64::MIN)
                            } else {
                                proof {
                                    lemma_trunc_div_in_range(a, b);
                                }
                                match a.checked_div(b) {
                                    Some(q) => Ok(q),
                                    None => unreached(),
                                }
                            }
                        },
                        _ => {
                            proof {
                                assert(self.expression_type.binary_op() == BinOp::Remainder);
                            }
                            if b == 0 || (a == i64::MIN && b == -1) {
                                unreached()
                            } else {
                                match a.checked_rem(b) {
                                    Some(q) => Ok(q),
                                    None => unreached(),
                                }
                            }
                        },
                    }
                }
            },
        }
    }

    /// A binary node: `operator` applied to `left` and `right`.
    pub fn new(left: Expression, operator: ExpressionType, right: Expression) -> (r: Expression)
        requires
            operator.is_binary(),
            left.wf(),
            right.wf(),
        ensures
            r.wf(),
            r@ == ExprV::Binary(operator.binary_op(), Box::new(left@), Box::new(right@)),
    {
        Expression {
            expression_type: operator,
            value1: Some(Box::new(left)),
            value2: Some(Box::new(right)),
        }
    }

    /// A unary node: `operator` applied to `right`, held in the right slot.
    pub fn new_unary(operator: ExpressionType, right: Expression) -> (r: Expression)
        requires
            operator.is_unary(),
            right.wf(),
        ensures
            r.wf(),
            r@ == ExprV::Unary(operator.unary_op(), Box::new(right@)),
    {
        Expression { expression_type: operator, value1: None, value2: Some(Box::new(right)) }
    }

    /// A leaf node: an integer, a variable, or a parenthesized expression.
    pub fn new_empty(operator: ExpressionType) -> (r: Expression)
        requires
            operator.is_leaf(),
            operator.leaf_wf(),
        ensures
            r.wf(),
            r@ == operator.leaf_view(),
    {
        Expression { expression_type: operator, value1: None, value2: None }
    }
}

impl ExpressionType {
    /// The abstract expression a leaf kind denotes on its own.
    pub open spec fn leaf_view(&self) -> ExprV {
        match self {
            ExpressionType::Integer(i) => ExprV::Integer(*i),
            ExpressionType::Variable(n) => ExprV::Variable(n@),
            ExpressionType::Parentheses(inner) => ExprV::Parentheses(Box::new(inner.expr_view())),
            _ => ExprV::Integer(0),
        }
    }
}

/// A `print` statement: the expression's value followed by one space, or a
/// bare space when the expression is absent.
#[derive(Debug)]
pub struct PrintStatement {
    expression: Option<Expression>,
    line: u64,
}

/// A `println` statement: the expression's value followed by a newline, or a
/// bare newline when the expression is absent.
#[derive(Debug)]
pub struct PrintlnStatement {
    expression: Option<Expression>,
    line: u64,
}

/// A `var` statement: the first binding of a name.
#[derive(Debug)]
pub struct DefineStatement {
    variable_name: String,
    expression: Expression,
    line: u64,
}

/// An assignment: the rebinding of an existing name.
#[derive(Debug)]
pub struct AssignStatement {
    variable_name: String,
    expression: Expression,
    line: u64,
}

/// An `if` statement with its two bodies; a missing `else` is an empty body.
#[derive(Debug)]
pub struct IfStatement {
    condition: Expression,
    statements: Vec<Statement>,
    else_statements: Vec<Statement>,
    line: u64,
}

/// A `while` statement with its body.
#[derive(Debug)]
pub struct WhileStatement {
    condition: Expression,
    statements: Vec<Statement>,
    line: u64,
}

/// One statement of the language, a closed sum over the six kinds.
#[derive(Debug)]
pub enum Statement {
    Print(PrintStatement),
    Println(PrintlnStatement),
    Define(DefineStatement),
    Assign(AssignStatement),
    If(IfStatement),
    While(WhileStatement),
}

/// The view of an optional expression.
pub open spec fn opt_expr_view(e: Option<Expression>) -> Option<ExprV> {
    match e {
        Some(x) => Some(x.expr_view()),
        None => None,
    }
}

/// An optional expression is well-formed when present.
pub open spec fn opt_expr_wf(e: Option<Expression>) -> bool {
    match e {
        Some(x) => x.wf(),
        None => true,
    }
}

impl Statement {
    /// The abstract statement this node denotes.
    pub closed spec fn stmt_view(&self) -> StmtV
        decreases self,
    {
        match self {
            Statement::Print(p) => StmtV::Print(opt_expr_view(p.expression), p.line),
            Statement::Println(p) => StmtV::Println(opt_expr_view(p.expression), p.line),
            Statement::Define(p) => StmtV::Define(
                p.variable_name@,
                p.expression.expr_view(),
                p.line,
            ),
            Statement::Assign(p) => StmtV::Assign(
                p.variable_name@,
                p.expression.expr_view(),
                p.line,
            ),
            Statement::If(p) => StmtV::If(
                p.condition.expr_view(),
                stmts_view(p.statements@),
                stmts_view(p.else_statements@),
                p.line,
            ),
            Statement::While(p) => StmtV::While(
                p.condition.expr_view(),
                stmts_view(p.statements@),
                p.line,
            ),
        }
    }

    /// Every expression of the statement is well-formed.
    pub closed spec fn wf(&self) -> bool
        decreases self,
    {
        match self {
            Statement::Print(p) => opt_expr_wf(p.expression),
            Statement::Println(p) => opt_expr_wf(p.expression),
            Statement::Define(p) => p.expression.wf(),
            Statement::Assign(p) => p.expression.wf(),
            Statement::If(p) => p.condition.wf() && stmts_wf(p.statements@) && stmts_wf(
                p.else_statements@,
            ),
            Statement::While(p) => p.condition.wf() && stmts_wf(p.statements@),
        }
    }
}

impl View for Statement {
    type V = StmtV;

    open spec fn view(&self) -> StmtV {
        self.stmt_view()
    }
}

/// The abstract form of a statement sequence.
pub open spec fn stmts_view(ss: Seq<Statement>) -> Seq<StmtV>
    decreases ss,
{
    if ss.len() == 0 {
        Seq::empty()
    } else {
        seq![ss[0].stmt_view()] + stmts_view(ss.drop_first())
    }
}

/// Every statement of the sequence is well-formed.
pub open spec fn stmts_wf(ss: Seq<Statement>) -> bool
    decreases ss,
{
    if ss.len() == 0 {
        true
    } else {
        ss[0].wf() && stmts_wf(ss.drop_first())
    }
}

pub proof fn lemma_stmts_view_index(ss: Seq<Statement>, i: int)
    requires
        0 <= i < ss.len(),
    ensures
        stmts_view(ss).len() == ss.len(),
        stmts_view(ss)[i] == ss[i].stmt_view(),
    decreases ss.len(),
{
    lemma_stmts_view_len(ss);
    if i > 0 {
        lemma_stmts_view_index(ss.drop_first(), i - 1);
    }
}

pub proof fn lemma_stmts_view_len(ss: Seq<Statement>)
    ensures
        stmts_view(ss).len() == ss.len(),
    decreases ss.len(),
{
    if ss.len() > 0 {
        lemma_stmts_view_len(ss.drop_first());
    }
}

pub proof fn lemma_stmts_cons(st: Statement, rest: Seq<Statement>)
    ensures
        stmts_view(seq![st] + rest) == seq![st.stmt_view()] + stmts_view(rest),
        stmts_wf(seq![st] + rest) == (st.wf() && stmts_wf(rest)),
{
    let s = seq![st] + rest;
    assert(s[0] == st);
    assert(s.drop_first() =~= rest);
}

pub proof fn lemma_stmts_wf_index(ss: Seq<Statement>, i: int)
    requires
        stmts_wf(ss),
        0 <= i < ss.len(),
    ensures
        ss[i].wf(),
    decreases ss.len(),
{
    if i > 0 {
        lemma_stmts_wf_index(ss.drop_first(), i - 1);
    }
}

/// How an execution result and the final state must relate to the abstract
/// interpreter's outcome.
pub open spec fn outcome_matches(
    so: StepOut,
    r: Result<(), Stop>,
    env2: Map<Seq<char>, i64>,
    out2: Seq<char>,
) -> bool {
    match so {
        StepOut::Done(e, o) => r is Ok && env2 == e && out2 == o,
        StepOut::Stopped(e, o, stop) => (match r {
            Result::Ok(_) => false,
            Result::Err(s) => s@ == stop,
        }) && env2 == e && out2 == o,
        StepOut::Trap => false,
    }
}

/// Attaches the failing statement's line to an expression failure.
fn lift_eval_error(e: EvalError, line: u64) -> (r: ExecError)
    ensures
        r@ == lift_stop(e@, line),
{
    match e {
        EvalError::UndefinedVariable(n) => ExecError::UndefinedVariable(n, line),
        EvalError::DivisionByZero => ExecError::DivisionByZero(line),
    }
}

impl PrintStatement {
    pub fn new(e: Option<Expression>, l: u64) -> (r: Statement)
        requires
            opt_expr_wf(e),
        ensures
            r.wf(),
            r@ == StmtV::Print(opt_expr_view(e), l),
    {
        Statement::Print(PrintStatement { expression: e, line: l })
    }

    /// Evaluates the optional expression and appends its value and a space to
    /// the output, or a bare space when the expression is absent.
    fn execute(&self, variables: &mut Environment, out: &mut Vec<char>, fuel: u64) -> (r: Result<
        (),
        Stop,
    >)
        requires
            opt_expr_wf(self.expression),
            old(variables).wf(),
            !(exec_stmt(
                StmtV::Print(opt_expr_view(self.expression), self.line),
                old(variables)@,
                old(out)@,
                fuel as nat,
            ) is Trap),
        ensures
            final(variables).wf(),
            outcome_matches(
                exec_stmt(
                    StmtV::Print(opt_expr_view(self.expression), self.line),
                    old(variables)@,
                    old(out)@,
                    fuel as nat,
                ),
                r,
                final(variables)@,
                final(out)@,
            ),
    {
        match &self.expression {
            Some(e) => match e.evaluate(variables) {
                Ok(v) => {
                    push_dec_i64(out, v);
                    out.push(' ');
                    proof {
                        assert(out@ =~= old(out)@ + crate::numerals::dec_i64(v) + seq![' ']);
                    }
                    Ok(())
                },
                Err(er) => Err(Stop::Failed(lift_eval_error(er, self.line))),
            },
            None => {
                out.push(' ');
                proof {
                    assert(out@ =~= old(out)@ + seq![' ']);
                }
                Ok(())
            },
        }
    }
}

impl PrintlnStatement {
    pub fn new(e: Option<Expression>, l: u64) -> (r: Statement)
        requires
            opt_expr_wf(e),
        ensures
            r.wf(),
            r@ == StmtV::Println(opt_expr_view(e), l),
    {
        Statement::Println(PrintlnStatement { expression: e, line: l })
    }

    /// Evaluates the optional expression and appends its value and a newline
    /// to the output, or a bare newline when the expression is absent.
    fn execute(&self, variables: &mut Environment, out: &mut Vec<char>, fuel: u64) -> (r: Result<
        (),
        Stop,
    >)
        requires
            opt_expr_wf(self.expression),
            old(variables).wf(),
            !(exec_stmt(
                StmtV::Println(opt_expr_view(self.expression), self.line),
                old(variables)@,
                old(out)@,
                fuel as nat,
            ) is Trap),
        ensures
            final(variables).wf(),
            outcome_matches(
                exec_stmt(
                    StmtV::Println(opt_expr_view(self.expression), self.line),
                    old(variables)@,
                    old(out)@,
                    fuel as nat,
                ),
                r,
                final(variables)@,
                final(out)@,
            ),
    {
        match &self.expression {
            Some(e) => match e.evaluate(variables) {
                Ok(v) => {
                    push_dec_i64(out, v);
                    out.push('\n');
                    proof {
                        assert(out@ =~= old(out)@ + crate::numerals::dec_i64(v) + seq!['\n']);
                    }
                    Ok(())
                },
                Err(er) => Err(Stop::Failed(lift_eval_error(er, self.line))),
            },
            None => {
                out.push('\n');
                proof {
                    assert(out@ =~= old(out)@ + seq!['\n']);
                }
                Ok(())
            },
        }
    }
}

impl DefineStatement {
    pub fn new(v: String, e: Expression, l: u64) -> (r: Statement)
        requires
            e.wf(),
        ensures
            r.wf(),
            r@ == StmtV::Define(v@, e@, l),
    {
        Statement::Define(DefineStatement { variable_name: v, expression: e, line: l })
    }

    /// Binds a fresh name, or fails with a redefinition error when the name
    /// is already bound.
    fn execute(&self, variables: &mut Environment, out: &mut Vec<char>, fuel: u64) -> (r: Result<
        (),
        Stop,
    >)
        requires
            self.expression.wf(),
            old(variables).wf(),
            !(exec_stmt(
                StmtV::Define(self.variable_name@, self.expression.expr_view(), self.line),
                old(variables)@,
                old(out)@,
                fuel as nat,
            ) is Trap),
        ensures
            final(variables).wf(),
            outcome_matches(
                exec_stmt(
                    StmtV::Define(self.variable_name@, self.expression.expr_view(), self.line),
                    old(variables)@,
                    old(out)@,
                    fuel as nat,
                ),
                r,
                final(variables)@,
                final(out)@,
            ),
    {
        match variables.get(&self.variable_name) {
            Some(_) => Err(
                Stop::Failed(ExecError::RedefinedVariable(self.variable_name.clone(), self.line)),
            ),
            None => match self.expression.evaluate(variables) {
                Ok(v) => {
                    variables.set(&self.variable_name, v);
                    Ok(())
                },
                Err(er) => Err(Stop::Failed(lift_eval_error(er, self.line))),
            },
        }
    }
}

impl AssignStatement {
    pub fn new(v: String, e: Expression, l: u64) -> (r: Statement)
        requires
            e.wf(),
        ensures
            r.wf(),
            r@ == StmtV::Assign(v@, e@, l),
    {
        Statement::Assign(AssignStatement { variable_name: v, expression: e, line: l })
    }

    /// Rebinds an existing name, or fails with an undefined-variable error
    /// when the name was never bound.
    fn execute(&self, variables: &mut Environment, out: &mut Vec<char>, fuel: u64) -> (r: Result<
        (),
        Stop,
    >)
        requires
            self.expression.wf(),
            old(variables).wf(),
            !(exec_stmt(
                StmtV::Assign(self.variable_name@, self.expression.expr_view(), self.line),
                old(variables)@,
                old(out)@,
                fuel as nat,
            ) is Trap),
        ensures
            final(variables).wf(),
            outcome_matches(
                exec_stmt(
                    StmtV::Assign(self.variable_name@, self.expression.expr_view(), self.line),
                    old(variables)@,
                    old(out)@,
                    fuel as nat,
                ),
                r,
                final(variables)@,
                final(out)@,
            ),
    {
        match variables.get(&self.variable_name) {
            None => Err(
                Stop::Failed(ExecError::UndefinedVariable(self.variable_name.clone(), self.line)),
            ),
            Some(_) => match self.expression.evaluate(variables) {
                Ok(v) => {
                    variables.set(&self.variable_name, v);
                    Ok(())
                },
                Err(er) => Err(Stop::Failed(lift_eval_error(er, self.line))),
            },
        }
    }
}

impl IfStatement {
    pub fn new(c: Expression, i: Vec<Statement>, e: Vec<Statement>, l: u64) -> (r: Statement)
        requires
            c.wf(),
            stmts_wf(i@),
            stmts_wf(e@),
        ensures
            r.wf(),
            r@ == StmtV::If(c@, stmts_view(i@), stmts_view(e@), l),
    {
        Statement::If(IfStatement { condition: c, statements: i, else_statements: e, line: l })
    }

    /// Evaluates the condition once and runs the then-body on a nonzero
    /// value, the else-body on zero.
    fn execute(&self, variables: &mut Environment, out: &mut Vec<char>, fuel: u64) -> (r: Result<
        (),
        Stop,
    >)
        requires
            self.condition.wf(),
            stmts_wf(self.statements@),
            stmts_wf(self.else_statements@),
            old(variables).wf(),
            !(exec_stmt(
                StmtV::If(
                    self.condition.expr_view(),
                    stmts_view(self.statements@),
                    stmts_view(self.else_statements@),
                    self.line,
                ),
                old(variables)@,
                old(out)@,
                fuel as nat,
            ) is Trap),
        ensures
            final(variables).wf(),
            outcome_matches(
                exec_stmt(
                    StmtV::If(
                        self.condition.expr_view(),
                        stmts_view(self.statements@),
                        stmts_view(self.else_statements@),
                        self.line,
                    ),
                    old(variables)@,
                    old(out)@,
                    fuel as nat,
                ),
                r,
                final(variables)@,
                final(out)@,
            ),
        decreases fuel, self,
    {
        match self.condition.evaluate(variables) {
            Ok(v) => if v != 0 {
                execute_block(&self.statements, variables, out, fuel)
            } else {
                execute_block(&self.else_statements, variables, out, fuel)
            },
            Err(er) => Err(Stop::Failed(lift_eval_error(er, self.line))),
        }
    }
}

impl WhileStatement {
    pub fn new(c: Expression, s: Vec<Statement>, l: u64) -> (r: Statement)
        requires
            c.wf(),
            stmts_wf(s@),
        ensures
            r.wf(),
            r@ == StmtV::While(c@, stmts_view(s@), l),
    {
        Statement::While(WhileStatement { condition: c, statements: s, line: l })
    }

    /// Re-evaluates the condition before every iteration and runs the body
    /// while it is nonzero. Each iteration costs one unit of fuel.
    fn execute(&self, variables: &mut Environment, out: &mut Vec<char>, fuel: u64) -> (r: Result<
        (),
        Stop,
    >)
        requires
            self.condition.wf(),
            stmts_wf(self.statements@),
            old(variables).wf(),
            !(exec_stmt(
                StmtV::While(
                    self.condition.expr_view(),
                    stmts_view(self.statements@),
                    self.line,
                ),
                old(variables)@,
                old(out)@,
                fuel as nat,
            ) is Trap),
        ensures
            final(variables).wf(),
            outcome_matches(
                exec_stmt(
                    StmtV::While(
                        self.condition.expr_view(),
                        stmts_view(self.statements@),
                        self.line,
                    ),
                    old(variables)@,
                    old(out)@,
                    fuel as nat,
                ),
                r,
                final(variables)@,
                final(out)@,
            ),
        decreases fuel, self,
    {
        let ghost w = StmtV::While(
            self.condition.expr_view(),
            stmts_view(self.statements@),
            self.line,
        );
        let ghost env0 = old(variables)@;
        let ghost out0 = old(out)@;
        let mut left: u64 = fuel;
        loop
            invariant
                left <= fuel,
                self.condition.wf(),
                stmts_wf(self.statements@),
                variables.wf(),
                w == StmtV::While(
                    self.condition.expr_view(),
                    stmts_view(self.statements@),
                    self.line,
                ),
                env0 == old(variables)@,
                out0 == old(out)@,
                exec_stmt(w, env0, out0, fuel as nat) == exec_stmt(
                    w,
                    variables@,
                    out@,
                    left as nat,
                ),
                !(exec_stmt(w, env0, out0, fuel as nat) is Trap),
            decreases left,
        {
            proof {
                if eval_expr(self.condition.expr_view(), variables@) is Trap {
                    assert(exec_stmt(w, variables@, out@, left as nat) is Trap);
                }
            }
            match self.condition.evaluate(variables) {
                Ok(v) => {
                    if v == 0 {
                        proof {
                            assert(exec_stmt(w, variables@, out@, left as nat) == StepOut::Done(
                                variables@,
                                out@,
                            ));
                        }
                        return Ok(());
                    }
                    if left == 0 {
                        proof {
                            assert(exec_stmt(w, variables@, out@, left as nat) == StepOut::Stopped(
                                variables@,
                                out@,
                                StopV::OutOfFuel,
                            ));
                        }
                        return Err(Stop::OutOfFuel);
                    }
                    let ghost env_pre = variables@;
                    let ghost out_pre = out@;
                    left = left - 1;
                    proof {
                        assert(exec_stmt(w, env_pre, out_pre, (left + 1) as nat) == (match exec_block(
                            stmts_view(self.statements@),
                            env_pre,
                            out_pre,
                            left as nat,
                        ) {
                            StepOut::Done(env2, out2) => exec_stmt(w, env2, out2, left as nat),
                            other => other,
                        }));
                        if exec_block(
                            stmts_view(self.statements@),
                            env_pre,
                            out_pre,
                            left as nat,
                        ) is Trap {
                            assert(exec_stmt(w, env_pre, out_pre, (left + 1) as nat) is Trap);
                        }
                    }
                    match execute_block(&self.statements, variables, out, left) {
                        Ok(()) => (),
                        Err(s) => {
                            return Err(s);
                        },
                    }
                },
                Err(er) => {
                    return Err(Stop::Failed(lift_eval_error(er, self.line)));
                },
            }
        }
    }
}

impl Statement {
    /// Executes one statement against the environment and output buffer,
    /// with `fuel` bounding the number of loop iterations. The outcome and
    /// the new environment and output are exactly the abstract interpreter's.
    pub fn execute(&self, variables: &mut Environment, out: &mut Vec<char>, fuel: u64) -> (r:
        Result<(), Stop>)
        requires
            self.wf(),
            old(variables).wf(),
            !(exec_stmt(self@, old(variables)@, old(out)@, fuel as nat) is Trap),
        ensures
            final(variables).wf(),
            outcome_matches(
                exec_stmt(self@, old(variables)@, old(out)@, fuel as nat),
                r,
                final(variables)@,
                final(out)@,
            ),
        decreases fuel, self,
    {
        match self {
            Statement::Print(p) => p.execute(variables, out, fuel),
            Statement::Println(p) => p.execute(variables, out, fuel),
            Statement::Define(p) => p.execute(variables, out, fuel),
            Statement::Assign(p) => p.execute(variables, out, fuel),
            Statement::If(p) => p.execute(variables, out, fuel),
            Statement::While(p) => p.execute(variables, out, fuel),
        }
    }
}

/// Executes a sequence of statements in order, stopping at the first
/// failure.
pub fn execute_block(
    stmts: &Vec<Statement>,
    variables: &mut Environment,
    out: &mut Vec<char>,
    fuel: u64,
) -> (r: Result<(), Stop>)
    requires
        stmts_wf(stmts@),
        old(variables).wf(),
        !(exec_block(stmts_view(stmts@), old(variables)@, old(out)@, fuel as nat) is Trap),
    ensures
        final(variables).wf(),
        outcome_matches(
            exec_block(stmts_view(stmts@), old(variables)@, old(out)@, fuel as nat),
            r,
            final(variables)@,
            final(out)@,
        ),
    decreases fuel, stmts@,
{
    let ghost w = stmts_view(stmts@);
    let ghost env0 = old(variables)@;
    let ghost out0 = old(out)@;
    proof {
        lemma_stmts_view_len(stmts@);
    }
    let n = stmts.len();
    proof {
        assert(w.subrange(0, n as int) =~= w);
    }
    let mut i: usize = 0;
    while i < n
        invariant
            n == stmts.len(),
            i <= n,
            w == stmts_view(stmts@),
            w.len() == n,
            env0 == old(variables)@,
            out0 == old(out)@,
            stmts_wf(stmts@),
            variables.wf(),
            exec_block(w, env0, out0, fuel as nat) == exec_block(
                w.subrange(i as int, n as int),
                variables@,
                out@,
                fuel as nat,
            ),
            !(exec_block(w, env0, out0, fuel as nat) is Trap),
        decreases n - i,
    {
        let ghost env_pre = variables@;
        let ghost out_pre = out@;
        proof {
            lemma_stmts_view_index(stmts@, i as int);
            lemma_stmts_wf_index(stmts@, i as int);
            assert(w.subrange(i as int, n as int).len() > 0);
            assert(w.subrange(i as int, n as int)[0] == w[i as int]);
            assert(exec_block(w.subrange(i as int, n as int), env_pre, out_pre, fuel as nat)
                == (match exec_stmt(w[i as int], env_pre, out_pre, fuel as nat) {
                StepOut::Done(env2, out2) => exec_block(
                    w.subrange(i as int, n as int).drop_first(),
                    env2,
                    out2,
                    fuel as nat,
                ),
                other => other,
            }));
            if exec_stmt(w[i as int], env_pre, out_pre, fuel as nat) is Trap {
                assert(exec_block(w.subrange(i as int, n as int), env_pre, out_pre, fuel as nat)
                    is Trap);
            }
        }
        match stmts[i].execute(variables, out, fuel) {
            Ok(()) => (),
            Err(s) => {
                return Err(s);
            },
        }
        proof {
            assert(w.subrange(i as int, n as int).drop_first() =~= w.subrange(
                i as int + 1,
                n as int,
            ));
        }
        i = i + 1;
    }
    proof {
        assert(w.subrange(n as int, n as int).len() == 0);
    }
    Ok(())
}

} // verus!
