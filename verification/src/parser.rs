//! The parser: recursive descent over the token sequence with explicit
//! operator-precedence levels. The specification is a family of recursive
//! functions over token views, one per grammar construct, with a fuel
//! parameter that bounds recursion depth; one unit of fuel buys one call.

use vstd::prelude::*;
use crate::nodes::{
    stmts_view, stmts_wf, AssignStatement, DefineStatement, Expression, ExpressionType,
    IfStatement, PrintStatement, PrintlnStatement, Statement, WhileStatement,
};
use crate::semantics::{BinOp, ExprV, StmtV, UnOp};
use crate::tokens::{lemma_tokens_view_index, token_at_view, tokens_view, TokenAt, TokenView, Tokens};

verus! {

/// The result of one parsing step: a value together with the index of the
/// next unconsumed token, a parse failure at a position, or exhausted fuel.
pub enum Parsed<T> {
    Got(T, nat),
    Fail((u64, u64)),
    Short,
}

/// The binary operator a token denotes at one precedence level, if any.
/// Level 1 is logical-or, the loosest; level 9 is multiplicative, the
/// tightest of the binary levels.
pub open spec fn level_op(level: nat, t: TokenView) -> Option<BinOp> {
    if level == 1 && t is LogicalOr {
        Some(BinOp::LogicalOr)
    } else if level == 2 && t is LogicalAnd {
        Some(BinOp::LogicalAnd)
    } else if level == 3 && t is BitwiseOr {
        Some(BinOp::BitwiseOr)
    } else if level == 4 && t is BitwiseXor {
        Some(BinOp::BitwiseXor)
    } else if level == 5 && t is BitwiseAnd {
        Some(BinOp::BitwiseAnd)
    } else if level == 6 && t is Equal {
        Some(BinOp::Equal)
    } else if level == 6 && t is NotEqual {
        Some(BinOp::NotEqual)
    } else if level == 7 && t is Greater {
        Some(BinOp::Greater)
    } else if level == 7 && t is GreaterEqual {
        Some(BinOp::GreaterEqual)
    } else if level == 7 && t is Lesser {
        Some(BinOp::Lesser)
    } else if level == 7 && t is LesserEqual {
        Some(BinOp::LesserEqual)
    } else if level == 8 && t is Plus {
        Some(BinOp::Plus)
    } else if level == 8 && t is Minus {
        Some(BinOp::Minus)
    } else if level == 9 && t is Star {
        Some(BinOp::Multiply)
    } else if level == 9 && t is Slash {
        Some(BinOp::Divide)
    } else if level == 9 && t is Percent {
        Some(BinOp::Remainder)
    } else {
        None
    }
}

/// The position of the token at `i`.
pub open spec fn tok_pos(toks: Seq<(TokenView, u64, u64)>, i: nat) -> (u64, u64) {
    (toks[i as int].1, toks[i as int].2)
}

/// A primary expression: an integer literal, an identifier, or a
/// parenthesized expression.
pub open spec fn p_primary(
    toks: Seq<(TokenView, u64, u64)>,
    end: (u64, u64),
    i: nat,
    fuel: nat,
) -> Parsed<ExprV>
    decreases fuel,
{
    if fuel == 0 {
        Parsed::Short
    } else if i >= toks.len() {
        Parsed::Fail(end)
    } else {
        match toks[i as int].0 {
            TokenView::Integer(v) => Parsed::Got(ExprV::Integer(v), i + 1),
            TokenView::Identifier(n) => Parsed::Got(ExprV::Variable(n), i + 1),
            TokenView::LeftParen => if i + 1 >= toks.len() {
                Parsed::Fail(end)
            } else {
                match p_binary(toks, end, i + 1, 1, (fuel - 1) as nat) {
                    Parsed::Got(e, j) => if j >= toks.len() {
                        Parsed::Fail(end)
                    } else if toks[j as int].0 is RightParen {
                        Parsed::Got(ExprV::Parentheses(Box::new(e)), j + 1)
                    } else {
                        Parsed::Fail(tok_pos(toks, j))
                    },
                    Parsed::Fail(p) => Parsed::Fail(p),
                    Parsed::Short => Parsed::Short,
                }
            },
            _ => Parsed::Fail(tok_pos(toks, i)),
        }
    }
}

/// A unary expression: a chain of prefix `!`, `~`, `-` operators applied to
/// a primary expression, right-recursive.
pub open spec fn p_unary(
    toks: Seq<(TokenView, u64, u64)>,
    end: (u64, u64),
    i: nat,
    fuel: nat,
) -> Parsed<ExprV>
    decreases fuel,
{
    if fuel == 0 {
        Parsed::Short
    } else if i >= toks.len() {
        Parsed::Fail(end)
    } else {
        let t = toks[i as int].0;
        if t is LogicalNot || t is BitwiseNot || t is Minus {
            let op = if t is LogicalNot {
                UnOp::LogicalNot
            } else if t is BitwiseNot {
                UnOp::BitwiseNot
            } else {
                UnOp::UnaryMinus
            };
            if i + 1 >= toks.len() {
                Parsed::Fail(end)
            } else {
                match p_unary(toks, end, i + 1, (fuel - 1) as nat) {
                    Parsed::Got(e, j) => Parsed::Got(ExprV::Unary(op, Box::new(e)), j),
                    Parsed::Fail(p) => Parsed::Fail(p),
                    Parsed::Short => Parsed::Short,
                }
            }
        } else {
            p_primary(toks, end, i, (fuel - 1) as nat)
        }
    }
}

/// The expression directly below one binary precedence level: the next
/// binary level, or a unary expression below the tightest one.
pub open spec fn p_below(
    toks: Seq<(TokenView, u64, u64)>,
    end: (u64, u64),
    i: nat,
    level: nat,
    fuel: nat,
) -> Parsed<ExprV>
    decreases fuel,
{
    if fuel == 0 {
        Parsed::Short
    } else if level >= 9 {
        p_unary(toks, end, i, (fuel - 1) as nat)
    } else {
        p_binary(toks, end, i, level + 1, (fuel - 1) as nat)
    }
}

/// A left-associative chain at one binary precedence level.
pub open spec fn p_binary(
    toks: Seq<(TokenView, u64, u64)>,
    end: (u64, u64),
    i: nat,
    level: nat,
    fuel: nat,
) -> Parsed<ExprV>
    decreases fuel,
{
    if fuel == 0 {
        Parsed::Short
    } else {
        match p_below(toks, end, i, level, (fuel - 1) as nat) {
            Parsed::Got(e, j) => p_more(toks, end, j, level, e, (fuel - 1) as nat),
            Parsed::Fail(p) => Parsed::Fail(p),
            Parsed::Short => Parsed::Short,
        }
    }
}

/// The left fold that extends `acc` while the current token is an operator
/// of this level. A cursor resting past the last token is a failure at the
/// end-of-input position.
pub open spec fn p_more(
    toks: Seq<(TokenView, u64, u64)>,
    end: (u64, u64),
    i: nat,
    level: nat,
    acc: ExprV,
    fuel: nat,
) -> Parsed<ExprV>
    decreases fuel,
{
    if fuel == 0 {
        Parsed::Short
    } else if i >= toks.len() {
        Parsed::Fail(end)
    } else {
        match level_op(level, toks[i as int].0) {
            Some(op) => if i + 1 >= toks.len() {
                Parsed::Fail(end)
            } else {
                match p_below(toks, end, i + 1, level, (fuel - 1) as nat) {
                    Parsed::Got(rhs, j) => p_more(
                        toks,
                        end,
                        j,
                        level,
                        ExprV::Binary(op, Box::new(acc), Box::new(rhs)),
                        (fuel - 1) as nat,
                    ),
                    Parsed::Fail(p) => Parsed::Fail(p),
                    Parsed::Short => Parsed::Short,
                }
            },
            None => Parsed::Got(acc, i),
        }
    }
}

/// A whole expression: the loosest binary level.
pub open spec fn p_expr(
    toks: Seq<(TokenView, u64, u64)>,
    end: (u64, u64),
    i: nat,
    fuel: nat,
) -> Parsed<ExprV>
    decreases fuel,
{
    if fuel == 0 {
        Parsed::Short
    } else {
        p_binary(toks, end, i, 1, (fuel - 1) as nat)
    }
}

/// A `print` or `println` statement: the keyword, an optional expression,
/// and a mandatory semicolon.
pub open spec fn p_print(
    toks: Seq<(TokenView, u64, u64)>,
    end: (u64, u64),
    i: nat,
    ln: bool,
    fuel: nat,
) -> Parsed<StmtV>
    decreases fuel,
{
    if fuel == 0 {
        Parsed::Short
    } else {
        let line = toks[i as int].1;
        if i + 1 >= toks.len() {
            Parsed::Fail(end)
        } else if toks[i + 1 as int].0 is SemiColon {
            Parsed::Got(
                if ln {
                    StmtV::Println(None, line)
                } else {
                    StmtV::Print(None, line)
                },
                i + 2,
            )
        } else {
            match p_expr(toks, end, i + 1, (fuel - 1) as nat) {
                Parsed::Got(e, j) => if j >= toks.len() {
                    Parsed::Fail(end)
                } else if toks[j as int].0 is SemiColon {
                    Parsed::Got(
                        if ln {
                            StmtV::Println(Some(e), line)
                        } else {
                            StmtV::Print(Some(e), line)
                        },
                        j + 1,
                    )
                } else {
                    Parsed::Fail(tok_pos(toks, j))
                },
                Parsed::Fail(p) => Parsed::Fail(p),
                Parsed::Short => Parsed::Short,
            }
        }
    }
}

/// A `var` statement: `var` IDENT `=` expression `;`.
pub open spec fn p_define(
    toks: Seq<(TokenView, u64, u64)>,
    end: (u64, u64),
    i: nat,
    fuel: nat,
) -> Parsed<StmtV>
    decreases fuel,
{
    if fuel == 0 {
        Parsed::Short
    } else {
        let line = toks[i as int].1;
        if i + 1 >= toks.len() {
            Parsed::Fail(end)
        } else {
            match toks[i + 1 as int].0 {
                TokenView::Identifier(name) => if i + 2 >= toks.len() {
                    Parsed::Fail(end)
                } else if !(toks[i + 2 as int].0 is Assign) {
                    Parsed::Fail(tok_pos(toks, i + 2))
                } else if i + 3 >= toks.len() {
                    Parsed::Fail(end)
                } else {
                    match p_expr(toks, end, i + 3, (fuel - 1) as nat) {
                        Parsed::Got(e, j) => if j >= toks.len() {
                            Parsed::Fail(end)
                        } else if toks[j as int].0 is SemiColon {
                            Parsed::Got(StmtV::Define(name, e, line), j + 1)
                        } else {
                            Parsed::Fail(tok_pos(toks, j))
                        },
                        Parsed::Fail(p) => Parsed::Fail(p),
                        Parsed::Short => Parsed::Short,
                    }
                },
                _ => Parsed::Fail(tok_pos(toks, i + 1)),
            }
        }
    }
}

/// An assignment statement: IDENT `=` expression `;`.
pub open spec fn p_assign(
    toks: Seq<(TokenView, u64, u64)>,
    end: (u64, u64),
    i: nat,
    fuel: nat,
) -> Parsed<StmtV>
    decreases fuel,
{
    if fuel == 0 {
        Parsed::Short
    } else {
        let line = toks[i as int].1;
        match toks[i as int].0 {
            TokenView::Identifier(name) => if i + 1 >= toks.len() {
                Parsed::Fail(end)
            } else if !(toks[i + 1 as int].0 is Assign) {
                Parsed::Fail(tok_pos(toks, i + 1))
            } else if i + 2 >= toks.len() {
                Parsed::Fail(end)
            } else {
                match p_expr(toks, end, i + 2, (fuel - 1) as nat) {
                    Parsed::Got(e, j) => if j >= toks.len() {
                        Parsed::Fail(end)
                    } else if toks[j as int].0 is SemiColon {
                        Parsed::Got(StmtV::Assign(name, e, line), j + 1)
                    } else {
                        Parsed::Fail(tok_pos(toks, j))
                    },
                    Parsed::Fail(p) => Parsed::Fail(p),
                    Parsed::Short => Parsed::Short,
                }
            },
            _ => Parsed::Fail(tok_pos(toks, i)),
        }
    }
}

/// An `if` statement: condition, braced then-body, and an optional `else`
/// with a braced else-body. A missing `else`, including one missing because
/// the input ended, leaves the else-body empty.
pub open spec fn p_if(
    toks: Seq<(TokenView, u64, u64)>,
    end: (u64, u64),
    i: nat,
    fuel: nat,
) -> Parsed<StmtV>
    decreases fuel,
{
    if fuel == 0 {
        Parsed::Short
    } else {
        let line = toks[i as int].1;
        if i + 1 >= toks.len() {
            Parsed::Fail(end)
        } else {
            match p_expr(toks, end, i + 1, (fuel - 1) as nat) {
                Parsed::Got(cond, j) => if j >= toks.len() {
                    Parsed::Fail(end)
                } else if !(toks[j as int].0 is LeftBrace) {
                    Parsed::Fail(tok_pos(toks, j))
                } else if j + 1 >= toks.len() {
                    Parsed::Fail(end)
                } else {
                    match p_block(toks, end, j + 1, (fuel - 1) as nat) {
                        Parsed::Got(thens, k) => if k + 1 >= toks.len() {
                            Parsed::Got(StmtV::If(cond, thens, Seq::empty(), line), k + 1)
                        } else if toks[k + 1 as int].0 is Else {
                            if k + 2 >= toks.len() {
                                Parsed::Fail(end)
                            } else if !(toks[k + 2 as int].0 is LeftBrace) {
                                Parsed::Fail(tok_pos(toks, k + 2))
                            } else if k + 3 >= toks.len() {
                                Parsed::Fail(end)
                            } else {
                                match p_block(toks, end, k + 3, (fuel - 1) as nat) {
                                    Parsed::Got(elses, m) => Parsed::Got(
                                        StmtV::If(cond, thens, elses, line),
                                        m + 1,
                                    ),
                                    Parsed::Fail(p) => Parsed::Fail(p),
                                    Parsed::Short => Parsed::Short,
                                }
                            }
                        } else {
                            Parsed::Got(StmtV::If(cond, thens, Seq::empty(), line), k + 1)
                        },
                        Parsed::Fail(p) => Parsed::Fail(p),
                        Parsed::Short => Parsed::Short,
                    }
                },
                Parsed::Fail(p) => Parsed::Fail(p),
                Parsed::Short => Parsed::Short,
            }
        }
    }
}

/// A `while` statement: condition and braced body.
pub open spec fn p_while(
    toks: Seq<(TokenView, u64, u64)>,
    end: (u64, u64),
    i: nat,
    fuel: nat,
) -> Parsed<StmtV>
    decreases fuel,
{
    if fuel == 0 {
        Parsed::Short
    } else {
        let line = toks[i as int].1;
        if i + 1 >= toks.len() {
            Parsed::Fail(end)
        } else {
            match p_expr(toks, end, i + 1, (fuel - 1) as nat) {
                Parsed::Got(cond, j) => if j >= toks.len() {
                    Parsed::Fail(end)
                } else if !(toks[j as int].0 is LeftBrace) {
                    Parsed::Fail(tok_pos(toks, j))
                } else if j + 1 >= toks.len() {
                    Parsed::Fail(end)
                } else {
                    match p_block(toks, end, j + 1, (fuel - 1) as nat) {
                        Parsed::Got(body, k) => Parsed::Got(StmtV::While(cond, body, line), k + 1),
                        Parsed::Fail(p) => Parsed::Fail(p),
                        Parsed::Short => Parsed::Short,
                    }
                },
                Parsed::Fail(p) => Parsed::Fail(p),
                Parsed::Short => Parsed::Short,
            }
        }
    }
}

/// One statement, dispatched on its first token.
pub open spec fn p_statement(
    toks: Seq<(TokenView, u64, u64)>,
    end: (u64, u64),
    i: nat,
    fuel: nat,
) -> Parsed<StmtV>
    decreases fuel,
{
    if fuel == 0 {
        Parsed::Short
    } else if i >= toks.len() {
        Parsed::Fail(end)
    } else {
        match toks[i as int].0 {
            TokenView::Print => p_print(toks, end, i, false, (fuel - 1) as nat),
            TokenView::Println => p_print(toks, end, i, true, (fuel - 1) as nat),
            TokenView::Var => p_define(toks, end, i, (fuel - 1) as nat),
            TokenView::Identifier(_) => p_assign(toks, end, i, (fuel - 1) as nat),
            TokenView::If => p_if(toks, end, i, (fuel - 1) as nat),
            TokenView::While => p_while(toks, end, i, (fuel - 1) as nat),
            _ => Parsed::Fail(tok_pos(toks, i)),
        }
    }
}

/// The statements of a braced body, up to but not consuming the closing
/// brace. A cursor that runs past the last token without meeting the brace
/// is a failure at the end-of-input position.
pub open spec fn p_block(
    toks: Seq<(TokenView, u64, u64)>,
    end: (u64, u64),
    i: nat,
    fuel: nat,
) -> Parsed<Seq<StmtV>>
    decreases fuel,
{
    if fuel == 0 {
        Parsed::Short
    } else if i >= toks.len() {
        Parsed::Fail(end)
    } else if toks[i as int].0 is RightBrace {
        Parsed::Got(Seq::empty(), i)
    } else {
        match p_statement(toks, end, i, (fuel - 1) as nat) {
            Parsed::Got(st, j) => match p_block(toks, end, j, (fuel - 1) as nat) {
                Parsed::Got(rest, k) => Parsed::Got(seq![st] + rest, k),
                Parsed::Fail(p) => Parsed::Fail(p),
                Parsed::Short => Parsed::Short,
            },
            Parsed::Fail(p) => Parsed::Fail(p),
            Parsed::Short => Parsed::Short,
        }
    }
}

/// Giving the parser more fuel never changes a result it already reached:
/// fuel only bounds recursion depth, it does not steer the grammar.
#[verifier::rlimit(100)]
pub proof fn lemma_parse_mono(toks: Seq<(TokenView, u64, u64)>, end: (u64, u64), f1: nat, f2: nat)
    requires
        f1 <= f2,
    ensures
        forall|i: nat|
            !(#[trigger] p_primary(toks, end, i, f1) is Short) ==> p_primary(toks, end, i, f2)
                == p_primary(toks, end, i, f1),
        forall|i: nat|
            !(#[trigger] p_unary(toks, end, i, f1) is Short) ==> p_unary(toks, end, i, f2)
                == p_unary(toks, end, i, f1),
        forall|i: nat, level: nat|
            !(#[trigger] p_below(toks, end, i, level, f1) is Short) ==> p_below(
                toks,
                end,
                i,
                level,
                f2,
            ) == p_below(toks, end, i, level, f1),
        forall|i: nat, level: nat|
            !(#[trigger] p_binary(toks, end, i, level, f1) is Short) ==> p_binary(
                toks,
                end,
                i,
                level,
                f2,
            ) == p_binary(toks, end, i, level, f1),
        forall|i: nat, level: nat, acc: ExprV|
            !(#[trigger] p_more(toks, end, i, level, acc, f1) is Short) ==> p_more(
                toks,
                end,
                i,
                level,
                acc,
                f2,
            ) == p_more(toks, end, i, level, acc, f1),
        forall|i: nat|
            !(#[trigger] p_expr(toks, end, i, f1) is Short) ==> p_expr(toks, end, i, f2) == p_expr(
                toks,
                end,
                i,
                f1,
            ),
        forall|i: nat, ln: bool|
            !(#[trigger] p_print(toks, end, i, ln, f1) is Short) ==> p_print(toks, end, i, ln, f2)
                == p_print(toks, end, i, ln, f1),
        forall|i: nat|
            !(#[trigger] p_define(toks, end, i, f1) is Short) ==> p_define(toks, end, i, f2)
                == p_define(toks, end, i, f1),
        forall|i: nat|
            !(#[trigger] p_assign(toks, end, i, f1) is Short) ==> p_assign(toks, end, i, f2)
                == p_assign(toks, end, i, f1),
        forall|i: nat|
            !(#[trigger] p_if(toks, end, i, f1) is Short) ==> p_if(toks, end, i, f2) == p_if(
                toks,
                end,
                i,
                f1,
            ),
        forall|i: nat|
            !(#[trigger] p_while(toks, end, i, f1) is Short) ==> p_while(toks, end, i, f2)
                == p_while(toks, end, i, f1),
        forall|i: nat|
            !(#[trigger] p_statement(toks, end, i, f1) is Short) ==> p_statement(toks, end, i, f2)
                == p_statement(toks, end, i, f1),
        forall|i: nat|
            !(#[trigger] p_block(toks, end, i, f1) is Short) ==> p_block(toks, end, i, f2)
                == p_block(toks, end, i, f1),
        forall|i: nat|
            !(#[trigger] p_program(toks, end, i, f1) is Short) ==> p_program(toks, end, i, f2)
                == p_program(toks, end, i, f1),
    decreases f1,
{
    if f1 > 0 {
        lemma_parse_mono(toks, end, (f1 - 1) as nat, (f2 - 1) as nat);
        let g1 = (f1 - 1) as nat;
        let g2 = (f2 - 1) as nat;
        assert forall|i: nat| !(#[trigger] p_primary(toks, end, i, f1) is Short) implies p_primary(
            toks, end, i, f2) == p_primary(toks, end, i, f1) by {
            let r1 = p_binary(toks, end, i + 1, 1, g1);
            if !(r1 is Short) {
                assert(p_binary(toks, end, i + 1, 1, g2) == r1);
            }
        }
        assert forall|i: nat| !(#[trigger] p_unary(toks, end, i, f1) is Short) implies p_unary(
            toks, end, i, f2) == p_unary(toks, end, i, f1) by {
            let r1 = p_unary(toks, end, i + 1, g1);
            if !(r1 is Short) {
                assert(p_unary(toks, end, i + 1, g2) == r1);
            }
            let r2 = p_primary(toks, end, i, g1);
            if !(r2 is Short) {
                assert(p_primary(toks, end, i, g2) == r2);
            }
        }
        assert forall|i: nat, level: nat| !(#[trigger] p_below(toks, end, i, level, f1)
            is Short) implies p_below(toks, end, i, level, f2) == p_below(
            toks, end, i, level, f1) by {
            let r1 = p_unary(toks, end, i, g1);
            if !(r1 is Short) {
                assert(p_unary(toks, end, i, g2) == r1);
            }
            let r2 = p_binary(toks, end, i, level + 1, g1);
            if !(r2 is Short) {
                assert(p_binary(toks, end, i, level + 1, g2) == r2);
            }
        }
        assert forall|i: nat, level: nat| !(#[trigger] p_binary(toks, end, i, level, f1)
            is Short) implies p_binary(toks, end, i, level, f2) == p_binary(
            toks, end, i, level, f1) by {
            let r1 = p_below(toks, end, i, level, g1);
            if !(r1 is Short) {
                assert(p_below(toks, end, i, level, g2) == r1);
                match r1 {
                    Parsed::Got(e, j) => {
                        let r2 = p_more(toks, end, j, level, e, g1);
                        if !(r2 is Short) {
                            assert(p_more(toks, end, j, level, e, g2) == r2);
                        }
                    },
                    _ => {},
                }
            }
        }
        assert forall|i: nat, level: nat, acc: ExprV| !(#[trigger] p_more(
            toks, end, i, level, acc, f1) is Short) implies p_more(toks, end, i, level, acc, f2)
            == p_more(toks, end, i, level, acc, f1) by {
            if i < toks.len() {
                match level_op(level, toks[i as int].0) {
                    Some(op) => {
                        let r1 = p_below(toks, end, i + 1, level, g1);
                        if !(r1 is Short) {
                            assert(p_below(toks, end, i + 1, level, g2) == r1);
                            match r1 {
                                Parsed::Got(rhs, j) => {
                                    let acc2 = ExprV::Binary(op, Box::new(acc), Box::new(rhs));
                                    let r2 = p_more(toks, end, j, level, acc2, g1);
                                    if !(r2 is Short) {
                                        assert(p_more(toks, end, j, level, acc2, g2) == r2);
                                    }
                                },
                                _ => {},
                            }
                        }
                    },
                    None => {},
                }
            }
        }
        assert forall|i: nat| !(#[trigger] p_expr(toks, end, i, f1) is Short) implies p_expr(
            toks, end, i, f2) == p_expr(toks, end, i, f1) by {
            let r1 = p_binary(toks, end, i, 1, g1);
            if !(r1 is Short) {
                assert(p_binary(toks, end, i, 1, g2) == r1);
            }
        }
        assert forall|i: nat, ln: bool| !(#[trigger] p_print(toks, end, i, ln, f1)
            is Short) implies p_print(toks, end, i, ln, f2) == p_print(toks, end, i, ln, f1) by {
            let r1 = p_expr(toks, end, i + 1, g1);
            if !(r1 is Short) {
                assert(p_expr(toks, end, i + 1, g2) == r1);
            }
        }
        assert forall|i: nat| !(#[trigger] p_define(toks, end, i, f1) is Short) implies p_define(
            toks, end, i, f2) == p_define(toks, end, i, f1) by {
            let r1 = p_expr(toks, end, i + 3, g1);
            if !(r1 is Short) {
                assert(p_expr(toks, end, i + 3, g2) == r1);
            }
        }
        assert forall|i: nat| !(#[trigger] p_assign(toks, end, i, f1) is Short) implies p_assign(
            toks, end, i, f2) == p_assign(toks, end, i, f1) by {
            let r1 = p_expr(toks, end, i + 2, g1);
            if !(r1 is Short) {
                assert(p_expr(toks, end, i + 2, g2) == r1);
            }
        }
        assert forall|i: nat| !(#[trigger] p_if(toks, end, i, f1) is Short) implies p_if(
            toks, end, i, f2) == p_if(toks, end, i, f1) by {
            let r1 = p_expr(toks, end, i + 1, g1);
            if !(r1 is Short) {
                assert(p_expr(toks, end, i + 1, g2) == r1);
                match r1 {
                    Parsed::Got(cond, j) => {
                        let r2 = p_block(toks, end, j + 1, g1);
                        if !(r2 is Short) {
                            assert(p_block(toks, end, j + 1, g2) == r2);
                            match r2 {
                                Parsed::Got(thens, k) => {
                                    let r3 = p_block(toks, end, k + 3, g1);
                                    if !(r3 is Short) {
                                        assert(p_block(toks, end, k + 3, g2) == r3);
                                    }
                                },
                                _ => {},
                            }
                        }
                    },
                    _ => {},
                }
            }
        }
        assert forall|i: nat| !(#[trigger] p_while(toks, end, i, f1) is Short) implies p_while(
            toks, end, i, f2) == p_while(toks, end, i, f1) by {
            let r1 = p_expr(toks, end, i + 1, g1);
            if !(r1 is Short) {
                assert(p_expr(toks, end, i + 1, g2) == r1);
                match r1 {
                    Parsed::Got(cond, j) => {
                        let r2 = p_block(toks, end, j + 1, g1);
                        if !(r2 is Short) {
                            assert(p_block(toks, end, j + 1, g2) == r2);
                        }
                    },
                    _ => {},
                }
            }
        }
        assert forall|i: nat| !(#[trigger] p_statement(toks, end, i, f1)
            is Short) implies p_statement(toks, end, i, f2) == p_statement(toks, end, i, f1) by {
            let r1 = p_print(toks, end, i, false, g1);
            if !(r1 is Short) {
                assert(p_print(toks, end, i, false, g2) == r1);
            }
            let r2 = p_print(toks, end, i, true, g1);
            if !(r2 is Short) {
                assert(p_print(toks, end, i, true, g2) == r2);
            }
            let r3 = p_define(toks, end, i, g1);
            if !(r3 is Short) {
                assert(p_define(toks, end, i, g2) == r3);
            }
            let r4 = p_assign(toks, end, i, g1);
            if !(r4 is Short) {
                assert(p_assign(toks, end, i, g2) == r4);
            }
            let r5 = p_if(toks, end, i, g1);
            if !(r5 is Short) {
                assert(p_if(toks, end, i, g2) == r5);
            }
            let r6 = p_while(toks, end, i, g1);
            if !(r6 is Short) {
                assert(p_while(toks, end, i, g2) == r6);
            }
        }
        assert forall|i: nat| !(#[trigger] p_block(toks, end, i, f1) is Short) implies p_block(
            toks, end, i, f2) == p_block(toks, end, i, f1) by {
            let r1 = p_statement(toks, end, i, g1);
            if !(r1 is Short) {
                assert(p_statement(toks, end, i, g2) == r1);
                match r1 {
                    Parsed::Got(st, j) => {
                        let r2 = p_block(toks, end, j, g1);
                        if !(r2 is Short) {
                            assert(p_block(toks, end, j, g2) == r2);
                        }
                    },
                    _ => {},
                }
            }
        }
        assert forall|i: nat| !(#[trigger] p_program(toks, end, i, f1) is Short) implies p_program(
            toks, end, i, f2) == p_program(toks, end, i, f1) by {
            let r1 = p_statement(toks, end, i, g1);
            if !(r1 is Short) {
                assert(p_statement(toks, end, i, g2) == r1);
                match r1 {
                    Parsed::Got(st, j) => {
                        let r2 = p_program(toks, end, j, g1);
                        if !(r2 is Short) {
                            assert(p_program(toks, end, j, g2) == r2);
                        }
                    },
                    _ => {},
                }
            }
        }
    }
}

/// The whole program: statements until the token sequence is exhausted.
pub open spec fn p_program(
    toks: Seq<(TokenView, u64, u64)>,
    end: (u64, u64),
    i: nat,
    fuel: nat,
) -> Parsed<Seq<StmtV>>
    decreases fuel,
{
    if fuel == 0 {
        Parsed::Short
    } else if i >= toks.len() {
        Parsed::Got(Seq::empty(), i)
    } else {
        match p_statement(toks, end, i, (fuel - 1) as nat) {
            Parsed::Got(st, j) => match p_program(toks, end, j, (fuel - 1) as nat) {
                Parsed::Got(rest, k) => Parsed::Got(seq![st] + rest, k),
                Parsed::Fail(p) => Parsed::Fail(p),
                Parsed::Short => Parsed::Short,
            },
            Parsed::Fail(p) => Parsed::Fail(p),
            Parsed::Short => Parsed::Short,
        }
    }
}

/// The token kind that is a binary operator of this precedence level, as an
/// expression node kind.
fn token_level_op(level: u8, t: &Tokens) -> (r: Option<ExpressionType>)
    requires
        1 <= level <= 9,
    ensures
        match r {
            Some(et) => et.is_binary() && level_op(level as nat, t@) == Some(et.binary_op()),
            None => level_op(level as nat, t@) is None,
        },
{
    match t {
        Tokens::LogicalOr => if level == 1 {
            Some(ExpressionType::LogicalOr)
        } else {
            None
        },
        Tokens::LogicalAnd => if level == 2 {
            Some(ExpressionType::LogicalAnd)
        } else {
            None
        },
        Tokens::BitwiseOr => if level == 3 {
            Some(ExpressionType::BitwiseOr)
        } else {
            None
        },
        Tokens::BitwiseXor => if level == 4 {
            Some(ExpressionType::BitwiseXor)
        } else {
            None
        },
        Tokens::BitwiseAnd => if level == 5 {
            Some(ExpressionType::BitwiseAnd)
        } else {
            None
        },
        Tokens::Equal => if level == 6 {
            Some(ExpressionType::Equal)
        } else {
            None
        },
        Tokens::NotEqual => if level == 6 {
            Some(ExpressionType::NotEqual)
        } else {
            None
        },
        Tokens::Greater => if level == 7 {
            Some(ExpressionType::Greater)
        } else {
            None
        },
        Tokens::GreaterEqual => if level == 7 {
            Some(ExpressionType::GreaterEqual)
        } else {
            None
        },
        Tokens::Lesser => if level == 7 {
            Some(ExpressionType::Lesser)
        } else {
            None
        },
        Tokens::LesserEqual => if level == 7 {
            Some(ExpressionType::LesserEqual)
        } else {
            None
        },
        Tokens::Plus => if level == 8 {
            Some(ExpressionType::Plus)
        } else {
            None
        },
        Tokens::Minus => if level == 8 {
            Some(ExpressionType::Minus)
        } else {
            None
        },
        Tokens::Star => if level == 9 {
            Some(ExpressionType::Multiply)
        } else {
            None
        },
        Tokens::Slash => if level == 9 {
            Some(ExpressionType::Divide)
        } else {
            None
        },
        Tokens::Percent => if level == 9 {
            Some(ExpressionType::Remainder)
        } else {
            None
        },
        _ => None,
    }
}

/// The parser: one forward cursor over the token sequence, the parsed
/// top-level statements, and the tokenizer's end-of-input position for
/// errors past the last token.
pub struct Parser {
    parsing: Vec<TokenAt>,
    parsed: Vec<Statement>,
    position: usize,
    end_pos: (u64, u64),
}

/// What a finished expression parse means: the token stream, the parsed
/// statements and the end position are untouched, and the result is exactly
/// the abstract parse: a well-formed expression ending at the new cursor, or
/// the abstract parse's failure position.
spec fn expr_result(
    pre: Parser,
    post: Parser,
    r: Result<Expression, (u64, u64)>,
    out: Parsed<ExprV>,
) -> bool {
    &&& pre.parsing == post.parsing
    &&& pre.end_pos == post.end_pos
    &&& pre.parsed == post.parsed
    &&& post.position <= post.parsing@.len()
    &&& match r {
        Result::Ok(e) => e.wf() && out == Parsed::Got(e.expr_view(), post.position as nat)
            && pre.position < post.position,
        Result::Err(p) => out == Parsed::<ExprV>::Fail(p),
    }
}

/// What a finished statement parse means, in the same way.
spec fn stmt_result(
    pre: Parser,
    post: Parser,
    r: Result<Statement, (u64, u64)>,
    out: Parsed<StmtV>,
) -> bool {
    &&& pre.parsing == post.parsing
    &&& pre.end_pos == post.end_pos
    &&& pre.parsed == post.parsed
    &&& post.position <= post.parsing@.len()
    &&& match r {
        Result::Ok(st) => st.wf() && out == Parsed::Got(st.stmt_view(), post.position as nat)
            && pre.position < post.position,
        Result::Err(p) => out == Parsed::<StmtV>::Fail(p),
    }
}

impl Parser {
    /// The views of the tokens being parsed.
    pub closed spec fn toks(&self) -> Seq<(TokenView, u64, u64)> {
        tokens_view(self.parsing@)
    }

    /// The end-of-input position reported by the tokenizer.
    pub closed spec fn endpos(&self) -> (u64, u64) {
        self.end_pos
    }

    /// The views of the parsed top-level statements.
    pub closed spec fn results(&self) -> Seq<StmtV> {
        stmts_view(self.parsed@)
    }

    /// Every parsed statement is well-formed.
    pub closed spec fn results_wf(&self) -> bool {
        stmts_wf(self.parsed@)
    }

    /// A parser that has not consumed anything yet.
    pub closed spec fn ready(&self) -> bool {
        self.position == 0 && self.parsed@ == Seq::<Statement>::empty()
    }

    pub fn new(v: Vec<TokenAt>, p: (u64, u64)) -> (r: Parser)
        ensures
            r.toks() == tokens_view(v@),
            r.endpos() == p,
            r.ready(),
    {
        Parser { parsing: v, parsed: Vec::new(), position: 0, end_pos: p }
    }

    /// Hands out the parsed statements.
    pub fn get_parsed_vec(self) -> (r: Vec<Statement>)
        ensures
            stmts_view(r@) == self.results(),
            self.results_wf() ==> stmts_wf(r@),
    {
        self.parsed
    }

    fn now(&self) -> (t: &Tokens)
        requires
            self.position < self.parsing@.len(),
        ensures
            *t == self.parsing@[self.position as int].0,
    {
        &self.parsing[self.position].0
    }

    fn now_line(&self) -> (l: u64)
        requires
            self.position < self.parsing@.len(),
        ensures
            l == self.parsing@[self.position as int].1,
            l == self.toks()[self.position as int].1,
    {
        proof {
            lemma_tokens_view_index(self.parsing@, self.position as int);
        }
        self.parsing[self.position].1
    }

    fn now_pos(&self) -> (p: (u64, u64))
        requires
            self.position < self.parsing@.len(),
        ensures
            p == tok_pos(self.toks(), self.position as nat),
    {
        proof {
            lemma_tokens_view_index(self.parsing@, self.position as int);
        }
        (self.parsing[self.position].1, self.parsing[self.position].2)
    }

    fn advance(&mut self)
        requires
            old(self).position < old(self).parsing@.len(),
        ensures
            final(self).position == old(self).position + 1,
            final(self).parsing == old(self).parsing,
            final(self).parsed == old(self).parsed,
            final(self).end_pos == old(self).end_pos,
    {
        let n = self.parsing.len();
        if self.position < n {
            self.position = self.position + 1;
        }
    }

    fn is_end(&self) -> (r: bool)
        ensures
            r == (self.position >= self.parsing@.len()),
    {
        self.position >= self.parsing.len()
    }

    /// The current token's view, for the proofs beside each step.
    proof fn lemma_here(&self)
        requires
            self.position < self.parsing@.len(),
    ensures
            self.toks().len() == self.parsing@.len(),
            self.toks()[self.position as int] == token_at_view(
                self.parsing@[self.position as int],
            ),
    {
        lemma_tokens_view_index(self.parsing@, self.position as int);
    }

    fn parse_primary(&mut self) -> (r: (Result<Expression, (u64, u64)>, Ghost<nat>))
        requires
            old(self).position <= old(self).parsing@.len(),
        ensures
            expr_result(
                *old(self),
                *final(self),
                r.0,
                p_primary(old(self).toks(), old(self).endpos(), old(self).position as nat, r.1@),
            ),
        decreases self.parsing@.len() - self.position, 1nat, 0nat,
    {
        let ghost toks = self.toks();
        let ghost end = self.end_pos;
        let ghost i0 = self.position as nat;
        if self.is_end() {
            proof {
                assert(p_primary(toks, end, i0, 1) == Parsed::<ExprV>::Fail(end));
            }
            return (Err(self.end_pos), Ghost(1));
        }
        proof {
            self.lemma_here();
        }
        if let Tokens::Integer(v) = self.now() {
            let val = *v;
            self.advance();
            let e = Expression::new_empty(ExpressionType::Integer(val));
            proof {
                assert(p_primary(toks, end, i0, 1) == Parsed::Got(ExprV::Integer(val), i0 + 1));
            }
            return (Ok(e), Ghost(1));
        }
        if let Tokens::Identifier(name) = self.now() {
            let owned = name.clone();
            self.advance();
            let ghost nv = owned@;
            let e = Expression::new_empty(ExpressionType::Variable(owned));
            proof {
                assert(p_primary(toks, end, i0, 1) == Parsed::Got(ExprV::Variable(nv), i0 + 1));
            }
            return (Ok(e), Ghost(1));
        }
        if matches!(self.now(), Tokens::LeftParen) {
            self.advance();
            if self.is_end() {
                proof {
                    assert(p_primary(toks, end, i0, 1) == Parsed::<ExprV>::Fail(end));
                }
                return (Err(self.end_pos), Ghost(1));
            }
            let (re, g) = self.parse_level(1);
            match re {
                Err(p) => {
                    proof {
                        assert(p_primary(toks, end, i0, g@ + 1) == Parsed::<ExprV>::Fail(p));
                    }
                    (Err(p), Ghost(g@ + 1))
                },
                Ok(e) => {
                    if self.is_end() {
                        proof {
                            assert(p_primary(toks, end, i0, g@ + 1) == Parsed::<ExprV>::Fail(end));
                        }
                        return (Err(self.end_pos), Ghost(g@ + 1));
                    }
                    proof {
                        self.lemma_here();
                    }
                    if matches!(self.now(), Tokens::RightParen) {
                        let ghost j = self.position as nat;
                        self.advance();
                        let ee = Expression::new_empty(
                            ExpressionType::Parentheses(Box::new(e)),
                        );
                        proof {
                            assert(p_primary(toks, end, i0, g@ + 1) == Parsed::Got(
                                ee.expr_view(),
                                j + 1,
                            ));
                        }
                        (Ok(ee), Ghost(g@ + 1))
                    } else {
                        let p = self.now_pos();
                        proof {
                            assert(p_primary(toks, end, i0, g@ + 1) == Parsed::<ExprV>::Fail(p));
                        }
                        (Err(p), Ghost(g@ + 1))
                    }
                },
            }
        } else {
            let p = self.now_pos();
            proof {
                assert(p_primary(toks, end, i0, 1) == Parsed::<ExprV>::Fail(p));
            }
            (Err(p), Ghost(1))
        }
    }

    fn parse_unary(&mut self) -> (r: (Result<Expression, (u64, u64)>, Ghost<nat>))
        requires
            old(self).position <= old(self).parsing@.len(),
        ensures
            expr_result(
                *old(self),
                *final(self),
                r.0,
                p_unary(old(self).toks(), old(self).endpos(), old(self).position as nat, r.1@),
            ),
        decreases self.parsing@.len() - self.position, 2nat, 0nat,
    {
        let ghost toks = self.toks();
        let ghost end = self.end_pos;
        let ghost i0 = self.position as nat;
        if self.is_end() {
            proof {
                assert(p_unary(toks, end, i0, 1) == Parsed::<ExprV>::Fail(end));
            }
            return (Err(self.end_pos), Ghost(1));
        }
        proof {
            self.lemma_here();
        }
        if matches!(self.now(), Tokens::LogicalNot | Tokens::BitwiseNot | Tokens::Minus) {
            let op = match self.now() {
                Tokens::LogicalNot => ExpressionType::LogicalNot,
                Tokens::BitwiseNot => ExpressionType::BitwiseNot,
                _ => ExpressionType::UnaryMinus,
            };
            let ghost opv = op.unary_op();
            self.advance();
            if self.is_end() {
                proof {
                    assert(p_unary(toks, end, i0, 1) == Parsed::<ExprV>::Fail(end));
                }
                return (Err(self.end_pos), Ghost(1));
            }
            let (ru, g) = self.parse_unary();
            match ru {
                Err(p) => {
                    proof {
                        assert(p_unary(toks, end, i0, g@ + 1) == Parsed::<ExprV>::Fail(p));
                    }
                    (Err(p), Ghost(g@ + 1))
                },
                Ok(e) => {
                    let ee = Expression::new_unary(op, e);
                    proof {
                        assert(p_unary(toks, end, i0, g@ + 1) == Parsed::Got(
                            ee.expr_view(),
                            final(self).position as nat,
                        ));
                    }
                    (Ok(ee), Ghost(g@ + 1))
                },
            }
        } else {
            let (rp, g) = self.parse_primary();
            proof {
                assert(p_unary(toks, end, i0, g@ + 1) == p_primary(toks, end, i0, g@));
            }
            (rp, Ghost(g@ + 1))
        }
    }

    /// One binary precedence level: the chain below it, then a left fold
    /// over this level's operators. Level 1 is logical-or and level 9 is
    /// multiplicative, as in the grammar's table.
    fn parse_level(&mut self, level: u8) -> (r: (Result<Expression, (u64, u64)>, Ghost<nat>))
        requires
            1 <= level <= 9,
            old(self).position <= old(self).parsing@.len(),
        ensures
            expr_result(
                *old(self),
                *final(self),
                r.0,
                p_binary(
                    old(self).toks(),
                    old(self).endpos(),
                    old(self).position as nat,
                    level as nat,
                    r.1@,
                ),
            ),
        decreases self.parsing@.len() - self.position, 4nat, 10 - level,
    {
        let ghost toks = self.toks();
        let ghost end = self.end_pos;
        let ghost i0 = self.position as nat;
        let (rb, g1) = if level == 9 {
            self.parse_unary()
        } else {
            self.parse_level(level + 1)
        };
        proof {
            assert(p_below(toks, end, i0, level as nat, g1@ + 1) == (if level == 9 {
                p_unary(toks, end, i0, g1@)
            } else {
                p_binary(toks, end, i0, (level + 1) as nat, g1@)
            }));
        }
        match rb {
            Err(p) => {
                proof {
                    assert(p_binary(toks, end, i0, level as nat, g1@ + 2)
                        == Parsed::<ExprV>::Fail(p));
                }
                (Err(p), Ghost(g1@ + 2))
            },
            Ok(e) => {
                let ghost ev = e.expr_view();
                let ghost j = self.position as nat;
                let (rm, g2) = self.parse_more(level, e);
                let ghost f = g1@ + g2@ + 2;
                proof {
                    lemma_parse_mono(toks, end, g1@ + 1, (f - 1) as nat);
                    lemma_parse_mono(toks, end, g2@, (f - 1) as nat);
                    assert(p_below(toks, end, i0, level as nat, (f - 1) as nat) == Parsed::Got(
                        ev,
                        j,
                    ));
                    assert(p_binary(toks, end, i0, level as nat, f) == p_more(
                        toks,
                        end,
                        j,
                        level as nat,
                        ev,
                        (f - 1) as nat,
                    ));
                }
                (rm, Ghost(f))
            },
        }
    }

    /// The left fold of one level: while the current token is one of the
    /// level's operators, consume it and a right operand, folding leftward.
    fn parse_more(&mut self, level: u8, acc: Expression) -> (r: (Result<Expression, (u64, u64)>,
        Ghost<nat>))
        requires
            1 <= level <= 9,
            old(self).position <= old(self).parsing@.len(),
            acc.wf(),
        ensures
            (match r.0 {
                Result::Ok(e) => e.wf() && p_more(
                    old(self).toks(),
                    old(self).endpos(),
                    old(self).position as nat,
                    level as nat,
                    acc.expr_view(),
                    r.1@,
                ) == Parsed::Got(e.expr_view(), final(self).position as nat) && old(self).position
                    <= final(self).position,
                Result::Err(p) => p_more(
                    old(self).toks(),
                    old(self).endpos(),
                    old(self).position as nat,
                    level as nat,
                    acc.expr_view(),
                    r.1@,
                ) == Parsed::<ExprV>::Fail(p),
            }),
            final(self).parsing == old(self).parsing,
            final(self).end_pos == old(self).end_pos,
            final(self).parsed == old(self).parsed,
            final(self).position <= final(self).parsing@.len(),
        decreases self.parsing@.len() - self.position, 5nat, 0nat,
    {
        let ghost toks = self.toks();
        let ghost end = self.end_pos;
        let ghost i0 = self.position as nat;
        let ghost accv = acc.expr_view();
        if self.is_end() {
            proof {
                assert(p_more(toks, end, i0, level as nat, accv, 1) == Parsed::<ExprV>::Fail(end));
            }
            return (Err(self.end_pos), Ghost(1));
        }
        proof {
            self.lemma_here();
        }
        let op_found = token_level_op(level, self.now());
        match op_found {
            None => {
                proof {
                    assert(p_more(toks, end, i0, level as nat, accv, 1) == Parsed::Got(accv, i0));
                }
                (Ok(acc), Ghost(1))
            },
            Some(op) => {
                self.advance();
                if self.is_end() {
                    proof {
                        assert(p_more(toks, end, i0, level as nat, accv, 1)
                            == Parsed::<ExprV>::Fail(end));
                    }
                    return (Err(self.end_pos), Ghost(1));
                }
                let (rb, g1) = if level == 9 {
                    self.parse_unary()
                } else {
                    self.parse_level(level + 1)
                };
                proof {
                    assert(p_below(toks, end, i0 + 1, level as nat, g1@ + 1) == (if level == 9 {
                        p_unary(toks, end, i0 + 1, g1@)
                    } else {
                        p_binary(toks, end, i0 + 1, (level + 1) as nat, g1@)
                    }));
                }
                match rb {
                    Err(p) => {
                        proof {
                            assert(p_more(toks, end, i0, level as nat, accv, g1@ + 2)
                                == Parsed::<ExprV>::Fail(p));
                        }
                        (Err(p), Ghost(g1@ + 2))
                    },
                    Ok(rhs) => {
                        let ghost rv = rhs.expr_view();
                        let ghost j = self.position as nat;
                        let folded = Expression::new(acc, op, rhs);
                        let ghost fv = folded.expr_view();
                        let (rm, g2) = self.parse_more(level, folded);
                        let ghost f = g1@ + g2@ + 2;
                        proof {
                            lemma_parse_mono(toks, end, g1@ + 1, (f - 1) as nat);
                            lemma_parse_mono(toks, end, g2@, (f - 1) as nat);
                            assert(p_below(toks, end, i0 + 1, level as nat, (f - 1) as nat)
                                == Parsed::Got(rv, j));
                            assert(fv == ExprV::Binary(
                                op.binary_op(),
                                Box::new(accv),
                                Box::new(rv),
                            ));
                            assert(p_more(toks, end, i0, level as nat, accv, f) == p_more(
                                toks,
                                end,
                                j,
                                level as nat,
                                fv,
                                (f - 1) as nat,
                            ));
                        }
                        (rm, Ghost(f))
                    },
                }
            },
        }
    }

    fn parse_print(&mut self) -> (r: (Result<Statement, (u64, u64)>, Ghost<nat>))
        requires
            old(self).position < old(self).parsing@.len(),
        ensures
            stmt_result(
                *old(self),
                *final(self),
                r.0,
                p_print(
                    old(self).toks(),
                    old(self).endpos(),
                    old(self).position as nat,
                    false,
                    r.1@,
                ),
            ),
        decreases self.parsing@.len() - self.position, 6nat, 0nat,
    {
        let ghost toks = self.toks();
        let ghost end = self.end_pos;
        let ghost i0 = self.position as nat;
        proof {
            self.lemma_here();
        }
        let l = self.now_line();
        self.advance();
        if self.is_end() {
            proof {
                assert(p_print(toks, end, i0, false, 1) == Parsed::<StmtV>::Fail(end));
            }
            return (Err(self.end_pos), Ghost(1));
        }
        proof {
            self.lemma_here();
        }
        if matches!(self.now(), Tokens::SemiColon) {
            self.advance();
            let st = PrintStatement::new(None, l);
            proof {
                assert(p_print(toks, end, i0, false, 1) == Parsed::Got(st.stmt_view(), i0 + 2));
            }
            return (Ok(st), Ghost(1));
        }
        let (re, g) = self.parse_level(1);
        proof {
            assert(p_expr(toks, end, i0 + 1, g@ + 1) == p_binary(toks, end, i0 + 1, 1, g@));
        }
        match re {
            Err(p) => {
                proof {
                    assert(p_print(toks, end, i0, false, g@ + 2) == Parsed::<StmtV>::Fail(p));
                }
                (Err(p), Ghost(g@ + 2))
            },
            Ok(e) => {
                if self.is_end() {
                    proof {
                        assert(p_print(toks, end, i0, false, g@ + 2) == Parsed::<StmtV>::Fail(end));
                    }
                    return (Err(self.end_pos), Ghost(g@ + 2));
                }
                proof {
                    self.lemma_here();
                }
                if matches!(self.now(), Tokens::SemiColon) {
                    self.advance();
                    let st = PrintStatement::new(Some(e), l);
                    proof {
                        assert(p_print(toks, end, i0, false, g@ + 2) == Parsed::Got(
                            st.stmt_view(),
                            final(self).position as nat,
                        ));
                    }
                    (Ok(st), Ghost(g@ + 2))
                } else {
                    let p = self.now_pos();
                    proof {
                        assert(p_print(toks, end, i0, false, g@ + 2) == Parsed::<StmtV>::Fail(p));
                    }
                    (Err(p), Ghost(g@ + 2))
                }
            },
        }
    }

    fn parse_println(&mut self) -> (r: (Result<Statement, (u64, u64)>, Ghost<nat>))
        requires
            old(self).position < old(self).parsing@.len(),
        ensures
            stmt_result(
                *old(self),
                *final(self),
                r.0,
                p_print(
                    old(self).toks(),
                    old(self).endpos(),
                    old(self).position as nat,
                    true,
                    r.1@,
                ),
            ),
        decreases self.parsing@.len() - self.position, 6nat, 0nat,
    {
        let ghost toks = self.toks();
        let ghost end = self.end_pos;
        let ghost i0 = self.position as nat;
        proof {
            self.lemma_here();
        }
        let l = self.now_line();
        self.advance();
        if self.is_end() {
            proof {
                assert(p_print(toks, end, i0, true, 1) == Parsed::<StmtV>::Fail(end));
            }
            return (Err(self.end_pos), Ghost(1));
        }
        proof {
            self.lemma_here();
        }
        if matches!(self.now(), Tokens::SemiColon) {
            self.advance();
            let st = PrintlnStatement::new(None, l);
            proof {
                assert(p_print(toks, end, i0, true, 1) == Parsed::Got(st.stmt_view(), i0 + 2));
            }
            return (Ok(st), Ghost(1));
        }
        let (re, g) = self.parse_level(1);
        proof {
            assert(p_expr(toks, end, i0 + 1, g@ + 1) == p_binary(toks, end, i0 + 1, 1, g@));
        }
        match re {
            Err(p) => {
                proof {
                    assert(p_print(toks, end, i0, true, g@ + 2) == Parsed::<StmtV>::Fail(p));
                }
                (Err(p), Ghost(g@ + 2))
            },
            Ok(e) => {
                if self.is_end() {
                    proof {
                        assert(p_print(toks, end, i0, true, g@ + 2) == Parsed::<StmtV>::Fail(end));
                    }
                    return (Err(self.end_pos), Ghost(g@ + 2));
                }
                proof {
                    self.lemma_here();
                }
                if matches!(self.now(), Tokens::SemiColon) {
                    self.advance();
                    let st = PrintlnStatement::new(Some(e), l);
                    proof {
                        assert(p_print(toks, end, i0, true, g@ + 2) == Parsed::Got(
                            st.stmt_view(),
                            final(self).position as nat,
                        ));
                    }
                    (Ok(st), Ghost(g@ + 2))
                } else {
                    let p = self.now_pos();
                    proof {
                        assert(p_print(toks, end, i0, true, g@ + 2) == Parsed::<StmtV>::Fail(p));
                    }
                    (Err(p), Ghost(g@ + 2))
                }
            },
        }
    }

    fn parse_define(&mut self) -> (r: (Result<Statement, (u64, u64)>, Ghost<nat>))
        requires
            old(self).position < old(self).parsing@.len(),
        ensures
            stmt_result(
                *old(self),
                *final(self),
                r.0,
                p_define(old(self).toks(), old(self).endpos(), old(self).position as nat, r.1@),
            ),
        decreases self.parsing@.len() - self.position, 6nat, 0nat,
    {
        let ghost toks = self.toks();
        let ghost end = self.end_pos;
        let ghost i0 = self.position as nat;
        proof {
            self.lemma_here();
        }
        let l = self.now_line();
        self.advance();
        if self.is_end() {
            proof {
                assert(p_define(toks, end, i0, 1) == Parsed::<StmtV>::Fail(end));
            }
            return (Err(self.end_pos), Ghost(1));
        }
        proof {
            self.lemma_here();
        }
        let iden = if let Tokens::Identifier(s) = self.now() {
            s.clone()
        } else {
            let p = self.now_pos();
            proof {
                assert(p_define(toks, end, i0, 1) == Parsed::<StmtV>::Fail(p));
            }
            return (Err(p), Ghost(1));
        };
        self.advance();
        if self.is_end() {
            proof {
                assert(p_define(toks, end, i0, 1) == Parsed::<StmtV>::Fail(end));
            }
            return (Err(self.end_pos), Ghost(1));
        }
        proof {
            self.lemma_here();
        }
        if !matches!(self.now(), Tokens::Assign) {
            let p = self.now_pos();
            proof {
                assert(p_define(toks, end, i0, 1) == Parsed::<StmtV>::Fail(p));
            }
            return (Err(p), Ghost(1));
        }
        self.advance();
        if self.is_end() {
            proof {
                assert(p_define(toks, end, i0, 1) == Parsed::<StmtV>::Fail(end));
            }
            return (Err(self.end_pos), Ghost(1));
        }
        let (re, g) = self.parse_level(1);
        proof {
            assert(p_expr(toks, end, i0 + 3, g@ + 1) == p_binary(toks, end, i0 + 3, 1, g@));
        }
        match re {
            Err(p) => {
                proof {
                    assert(p_define(toks, end, i0, g@ + 2) == Parsed::<StmtV>::Fail(p));
                }
                (Err(p), Ghost(g@ + 2))
            },
            Ok(e) => {
                if self.is_end() {
                    proof {
                        assert(p_define(toks, end, i0, g@ + 2) == Parsed::<StmtV>::Fail(end));
                    }
                    return (Err(self.end_pos), Ghost(g@ + 2));
                }
                proof {
                    self.lemma_here();
                }
                if matches!(self.now(), Tokens::SemiColon) {
                    self.advance();
                    let st = DefineStatement::new(iden, e, l);
                    proof {
                        assert(p_define(toks, end, i0, g@ + 2) == Parsed::Got(
                            st.stmt_view(),
                            final(self).position as nat,
                        ));
                    }
                    (Ok(st), Ghost(g@ + 2))
                } else {
                    let p = self.now_pos();
                    proof {
                        assert(p_define(toks, end, i0, g@ + 2) == Parsed::<StmtV>::Fail(p));
                    }
                    (Err(p), Ghost(g@ + 2))
                }
            },
        }
    }

    fn parse_assign(&mut self) -> (r: (Result<Statement, (u64, u64)>, Ghost<nat>))
        requires
            old(self).position < old(self).parsing@.len(),
        ensures
            stmt_result(
                *old(self),
                *final(self),
                r.0,
                p_assign(old(self).toks(), old(self).endpos(), old(self).position as nat, r.1@),
            ),
        decreases self.parsing@.len() - self.position, 6nat, 0nat,
    {
        let ghost toks = self.toks();
        let ghost end = self.end_pos;
        let ghost i0 = self.position as nat;
        proof {
            self.lemma_here();
        }
        let l = self.now_line();
        let iden = if let Tokens::Identifier(s) = self.now() {
            s.clone()
        } else {
            let p = self.now_pos();
            proof {
                assert(p_assign(toks, end, i0, 1) == Parsed::<StmtV>::Fail(p));
            }
            return (Err(p), Ghost(1));
        };
        self.advance();
        if self.is_end() {
            proof {
                assert(p_assign(toks, end, i0, 1) == Parsed::<StmtV>::Fail(end));
            }
            return (Err(self.end_pos), Ghost(1));
        }
        proof {
            self.lemma_here();
        }
        if !matches!(self.now(), Tokens::Assign) {
            let p = self.now_pos();
            proof {
                assert(p_assign(toks, end, i0, 1) == Parsed::<StmtV>::Fail(p));
            }
            return (Err(p), Ghost(1));
        }
        self.advance();
        if self.is_end() {
            proof {
                assert(p_assign(toks, end, i0, 1) == Parsed::<StmtV>::Fail(end));
            }
            return (Err(self.end_pos), Ghost(1));
        }
        let (re, g) = self.parse_level(1);
        proof {
            assert(p_expr(toks, end, i0 + 2, g@ + 1) == p_binary(toks, end, i0 + 2, 1, g@));
        }
        match re {
            Err(p) => {
                proof {
                    assert(p_assign(toks, end, i0, g@ + 2) == Parsed::<StmtV>::Fail(p));
                }
                (Err(p), Ghost(g@ + 2))
            },
            Ok(e) => {
                if self.is_end() {
                    proof {
                        assert(p_assign(toks, end, i0, g@ + 2) == Parsed::<StmtV>::Fail(end));
                    }
                    return (Err(self.end_pos), Ghost(g@ + 2));
                }
                proof {
                    self.lemma_here();
                }
                if matches!(self.now(), Tokens::SemiColon) {
                    self.advance();
                    let st = AssignStatement::new(iden, e, l);
                    proof {
                        assert(p_assign(toks, end, i0, g@ + 2) == Parsed::Got(
                            st.stmt_view(),
                            final(self).position as nat,
                        ));
                    }
                    (Ok(st), Ghost(g@ + 2))
                } else {
                    let p = self.now_pos();
                    proof {
                        assert(p_assign(toks, end, i0, g@ + 2) == Parsed::<StmtV>::Fail(p));
                    }
                    (Err(p), Ghost(g@ + 2))
                }
            },
        }
    }

    /// The statements of a braced body, up to the closing brace, which is
    /// left for the caller to consume.
    fn parse_block(&mut self) -> (r: (Result<Vec<Statement>, (u64, u64)>, Ghost<nat>))
        requires
            old(self).position <= old(self).parsing@.len(),
        ensures
            final(self).parsing == old(self).parsing,
            final(self).end_pos == old(self).end_pos,
            final(self).parsed == old(self).parsed,
            final(self).position <= final(self).parsing@.len(),
            (match r.0 {
                Result::Ok(v) => stmts_wf(v@) && p_block(
                    old(self).toks(),
                    old(self).endpos(),
                    old(self).position as nat,
                    r.1@,
                ) == Parsed::Got(stmts_view(v@), final(self).position as nat) && old(self).position
                    <= final(self).position && final(self).position
                    < final(self).parsing@.len(),
                Result::Err(p) => p_block(
                    old(self).toks(),
                    old(self).endpos(),
                    old(self).position as nat,
                    r.1@,
                ) == Parsed::<Seq<StmtV>>::Fail(p),
            }),
        decreases self.parsing@.len() - self.position, 8nat, 0nat,
    {
        let ghost toks = self.toks();
        let ghost end = self.end_pos;
        let ghost i0 = self.position as nat;
        if self.is_end() {
            proof {
                assert(p_block(toks, end, i0, 1) == Parsed::<Seq<StmtV>>::Fail(end));
            }
            return (Err(self.end_pos), Ghost(1));
        }
        proof {
            self.lemma_here();
        }
        if matches!(self.now(), Tokens::RightBrace) {
            let out: Vec<Statement> = Vec::new();
            proof {
                assert(stmts_view(out@) =~= Seq::<StmtV>::empty());
                assert(p_block(toks, end, i0, 1) == Parsed::Got(Seq::<StmtV>::empty(), i0));
            }
            return (Ok(out), Ghost(1));
        }
        let (rs, g1) = self.parse_statement();
        match rs {
            Err(p) => {
                proof {
                    assert(p_block(toks, end, i0, g1@ + 1) == Parsed::<Seq<StmtV>>::Fail(p));
                }
                (Err(p), Ghost(g1@ + 1))
            },
            Ok(st) => {
                let ghost sv = st.stmt_view();
                let ghost j = self.position as nat;
                let (rb, g2) = self.parse_block();
                let ghost f = g1@ + g2@ + 1;
                proof {
                    lemma_parse_mono(toks, end, g1@, (f - 1) as nat);
                    lemma_parse_mono(toks, end, g2@, (f - 1) as nat);
                    assert(p_statement(toks, end, i0, (f - 1) as nat) == Parsed::Got(sv, j));
                }
                match rb {
                    Err(p) => {
                        proof {
                            assert(p_block(toks, end, i0, f) == Parsed::<Seq<StmtV>>::Fail(p));
                        }
                        (Err(p), Ghost(f))
                    },
                    Ok(mut v) => {
                        let ghost rest = v@;
                        v.insert(0, st);
                        proof {
                            assert(v@ =~= seq![st] + rest);
                            crate::nodes::lemma_stmts_cons(st, rest);
                            assert(p_block(toks, end, i0, f) == Parsed::Got(
                                stmts_view(v@),
                                final(self).position as nat,
                            ));
                        }
                        (Ok(v), Ghost(f))
                    },
                }
            },
        }
    }

    fn parse_if(&mut self) -> (r: (Result<Statement, (u64, u64)>, Ghost<nat>))
        requires
            old(self).position < old(self).parsing@.len(),
        ensures
            stmt_result(
                *old(self),
                *final(self),
                r.0,
                p_if(old(self).toks(), old(self).endpos(), old(self).position as nat, r.1@),
            ),
        decreases self.parsing@.len() - self.position, 6nat, 0nat,
    {
        let ghost toks = self.toks();
        let ghost end = self.end_pos;
        let ghost i0 = self.position as nat;
        proof {
            self.lemma_here();
        }
        let l = self.now_line();
        self.advance();
        if self.is_end() {
            proof {
                assert(p_if(toks, end, i0, 1) == Parsed::<StmtV>::Fail(end));
            }
            return (Err(self.end_pos), Ghost(1));
        }
        let (rc, g1) = self.parse_level(1);
        proof {
            assert(p_expr(toks, end, i0 + 1, g1@ + 1) == p_binary(toks, end, i0 + 1, 1, g1@));
        }
        match rc {
            Err(p) => {
                proof {
                    assert(p_if(toks, end, i0, g1@ + 2) == Parsed::<StmtV>::Fail(p));
                }
                return (Err(p), Ghost(g1@ + 2));
            },
            Ok(cond) => {
                let ghost cv = cond.expr_view();
                let ghost j = self.position as nat;
                if self.is_end() {
                    proof {
                        assert(p_if(toks, end, i0, g1@ + 2) == Parsed::<StmtV>::Fail(end));
                    }
                    return (Err(self.end_pos), Ghost(g1@ + 2));
                }
                proof {
                    self.lemma_here();
                }
                if !matches!(self.now(), Tokens::LeftBrace) {
                    let p = self.now_pos();
                    proof {
                        assert(p_if(toks, end, i0, g1@ + 2) == Parsed::<StmtV>::Fail(p));
                    }
                    return (Err(p), Ghost(g1@ + 2));
                }
                self.advance();
                if self.is_end() {
                    proof {
                        assert(p_if(toks, end, i0, g1@ + 2) == Parsed::<StmtV>::Fail(end));
                    }
                    return (Err(self.end_pos), Ghost(g1@ + 2));
                }
                let (rb, g2) = self.parse_block();
                match rb {
                    Err(p) => {
                        let ghost f = g1@ + g2@ + 2;
                        proof {
                            lemma_parse_mono(toks, end, g1@ + 1, (f - 1) as nat);
                            lemma_parse_mono(toks, end, g2@, (f - 1) as nat);
                            assert(p_expr(toks, end, i0 + 1, (f - 1) as nat) == Parsed::Got(cv, j));
                            assert(p_if(toks, end, i0, f) == Parsed::<StmtV>::Fail(p));
                        }
                        return (Err(p), Ghost(f));
                    },
                    Ok(thens) => {
                        let ghost tv = stmts_view(thens@);
                        let ghost k = self.position as nat;
                        self.advance();
                        let ghost f0 = g1@ + g2@ + 2;
                        proof {
                            lemma_parse_mono(toks, end, g1@ + 1, (f0 - 1) as nat);
                            lemma_parse_mono(toks, end, g2@, (f0 - 1) as nat);
                            assert(p_expr(toks, end, i0 + 1, (f0 - 1) as nat) == Parsed::Got(
                                cv,
                                j,
                            ));
                            assert(p_block(toks, end, j + 1, (f0 - 1) as nat) == Parsed::Got(
                                tv,
                                k,
                            ));
                        }
                        if self.is_end() {
                            let st = IfStatement::new(cond, thens, Vec::new(), l);
                            proof {
                                assert(stmts_view(Seq::<Statement>::empty()) =~= Seq::<
                                    StmtV,
                                >::empty());
                                assert(p_if(toks, end, i0, f0) == Parsed::Got(
                                    st.stmt_view(),
                                    final(self).position as nat,
                                ));
                            }
                            return (Ok(st), Ghost(f0));
                        }
                        proof {
                            self.lemma_here();
                        }
                        if matches!(self.now(), Tokens::Else) {
                            self.advance();
                            if self.is_end() {
                                proof {
                                    assert(p_if(toks, end, i0, f0) == Parsed::<StmtV>::Fail(end));
                                }
                                return (Err(self.end_pos), Ghost(f0));
                            }
                            proof {
                                self.lemma_here();
                            }
                            if !matches!(self.now(), Tokens::LeftBrace) {
                                let p = self.now_pos();
                                proof {
                                    assert(p_if(toks, end, i0, f0) == Parsed::<StmtV>::Fail(p));
                                }
                                return (Err(p), Ghost(f0));
                            }
                            self.advance();
                            if self.is_end() {
                                proof {
                                    assert(p_if(toks, end, i0, f0) == Parsed::<StmtV>::Fail(end));
                                }
                                return (Err(self.end_pos), Ghost(f0));
                            }
                            let (re2, g3) = self.parse_block();
                            let ghost f = g1@ + g2@ + g3@ + 2;
                            proof {
                                lemma_parse_mono(toks, end, g1@ + 1, (f - 1) as nat);
                                lemma_parse_mono(toks, end, g2@, (f - 1) as nat);
                                lemma_parse_mono(toks, end, g3@, (f - 1) as nat);
                                assert(p_expr(toks, end, i0 + 1, (f - 1) as nat) == Parsed::Got(
                                    cv,
                                    j,
                                ));
                                assert(p_block(toks, end, j + 1, (f - 1) as nat) == Parsed::Got(
                                    tv,
                                    k,
                                ));
                            }
                            match re2 {
                                Err(p) => {
                                    proof {
                                        assert(p_if(toks, end, i0, f) == Parsed::<StmtV>::Fail(p));
                                    }
                                    (Err(p), Ghost(f))
                                },
                                Ok(elses) => {
                                    self.advance();
                                    let st = IfStatement::new(cond, thens, elses, l);
                                    proof {
                                        assert(p_if(toks, end, i0, f) == Parsed::Got(
                                            st.stmt_view(),
                                            final(self).position as nat,
                                        ));
                                    }
                                    (Ok(st), Ghost(f))
                                },
                            }
                        } else {
                            let st = IfStatement::new(cond, thens, Vec::new(), l);
                            proof {
                                assert(stmts_view(Seq::<Statement>::empty()) =~= Seq::<
                                    StmtV,
                                >::empty());
                                assert(p_if(toks, end, i0, f0) == Parsed::Got(
                                    st.stmt_view(),
                                    final(self).position as nat,
                                ));
                            }
                            (Ok(st), Ghost(f0))
                        }
                    },
                }
            },
        }
    }

    fn parse_while(&mut self) -> (r: (Result<Statement, (u64, u64)>, Ghost<nat>))
        requires
            old(self).position < old(self).parsing@.len(),
        ensures
            stmt_result(
                *old(self),
                *final(self),
                r.0,
                p_while(old(self).toks(), old(self).endpos(), old(self).position as nat, r.1@),
            ),
        decreases self.parsing@.len() - self.position, 6nat, 0nat,
    {
        let ghost toks = self.toks();
        let ghost end = self.end_pos;
        let ghost i0 = self.position as nat;
        proof {
            self.lemma_here();
        }
        let l = self.now_line();
        self.advance();
        if self.is_end() {
            proof {
                assert(p_while(toks, end, i0, 1) == Parsed::<StmtV>::Fail(end));
            }
            return (Err(self.end_pos), Ghost(1));
        }
        let (rc, g1) = self.parse_level(1);
        proof {
            assert(p_expr(toks, end, i0 + 1, g1@ + 1) == p_binary(toks, end, i0 + 1, 1, g1@));
        }
        match rc {
            Err(p) => {
                proof {
                    assert(p_while(toks, end, i0, g1@ + 2) == Parsed::<StmtV>::Fail(p));
                }
                return (Err(p), Ghost(g1@ + 2));
            },
            Ok(cond) => {
                let ghost cv = cond.expr_view();
                let ghost j = self.position as nat;
                if self.is_end() {
                    proof {
                        assert(p_while(toks, end, i0, g1@ + 2) == Parsed::<StmtV>::Fail(end));
                    }
                    return (Err(self.end_pos), Ghost(g1@ + 2));
                }
                proof {
                    self.lemma_here();
                }
                if !matches!(self.now(), Tokens::LeftBrace) {
                    let p = self.now_pos();
                    proof {
                        assert(p_while(toks, end, i0, g1@ + 2) == Parsed::<StmtV>::Fail(p));
                    }
                    return (Err(p), Ghost(g1@ + 2));
                }
                self.advance();
                if self.is_end() {
                    proof {
                        assert(p_while(toks, end, i0, g1@ + 2) == Parsed::<StmtV>::Fail(end));
                    }
                    return (Err(self.end_pos), Ghost(g1@ + 2));
                }
                let (rb, g2) = self.parse_block();
                let ghost f = g1@ + g2@ + 2;
                proof {
                    lemma_parse_mono(toks, end, g1@ + 1, (f - 1) as nat);
                    lemma_parse_mono(toks, end, g2@, (f - 1) as nat);
                    assert(p_expr(toks, end, i0 + 1, (f - 1) as nat) == Parsed::Got(cv, j));
                }
                match rb {
                    Err(p) => {
                        proof {
                            assert(p_while(toks, end, i0, f) == Parsed::<StmtV>::Fail(p));
                        }
                        (Err(p), Ghost(f))
                    },
                    Ok(body) => {
                        self.advance();
                        let st = WhileStatement::new(cond, body, l);
                        proof {
                            assert(p_while(toks, end, i0, f) == Parsed::Got(
                                st.stmt_view(),
                                final(self).position as nat,
                            ));
                        }
                        (Ok(st), Ghost(f))
                    },
                }
            },
        }
    }

    /// One statement, dispatched on the first token.
    fn parse_statement(&mut self) -> (r: (Result<Statement, (u64, u64)>, Ghost<nat>))
        requires
            old(self).position <= old(self).parsing@.len(),
        ensures
            stmt_result(
                *old(self),
                *final(self),
                r.0,
                p_statement(old(self).toks(), old(self).endpos(), old(self).position as nat, r.1@),
            ),
        decreases self.parsing@.len() - self.position, 7nat, 0nat,
    {
        let ghost toks = self.toks();
        let ghost end = self.end_pos;
        let ghost i0 = self.position as nat;
        if self.is_end() {
            proof {
                assert(p_statement(toks, end, i0, 1) == Parsed::<StmtV>::Fail(end));
            }
            return (Err(self.end_pos), Ghost(1));
        }
        proof {
            self.lemma_here();
        }
        if matches!(self.now(), Tokens::Print) {
            let (r0, g) = self.parse_print();
            proof {
                assert(p_statement(toks, end, i0, g@ + 1) == p_print(toks, end, i0, false, g@));
            }
            (r0, Ghost(g@ + 1))
        } else if matches!(self.now(), Tokens::Println) {
            let (r0, g) = self.parse_println();
            proof {
                assert(p_statement(toks, end, i0, g@ + 1) == p_print(toks, end, i0, true, g@));
            }
            (r0, Ghost(g@ + 1))
        } else if matches!(self.now(), Tokens::Var) {
            let (r0, g) = self.parse_define();
            proof {
                assert(p_statement(toks, end, i0, g@ + 1) == p_define(toks, end, i0, g@));
            }
            (r0, Ghost(g@ + 1))
        } else if matches!(self.now(), Tokens::Identifier(_)) {
            let (r0, g) = self.parse_assign();
            proof {
                assert(p_statement(toks, end, i0, g@ + 1) == p_assign(toks, end, i0, g@));
            }
            (r0, Ghost(g@ + 1))
        } else if matches!(self.now(), Tokens::If) {
            let (r0, g) = self.parse_if();
            proof {
                assert(p_statement(toks, end, i0, g@ + 1) == p_if(toks, end, i0, g@));
            }
            (r0, Ghost(g@ + 1))
        } else if matches!(self.now(), Tokens::While) {
            let (r0, g) = self.parse_while();
            proof {
                assert(p_statement(toks, end, i0, g@ + 1) == p_while(toks, end, i0, g@));
            }
            (r0, Ghost(g@ + 1))
        } else {
            let p = self.now_pos();
            proof {
                assert(p_statement(toks, end, i0, 1) == Parsed::<StmtV>::Fail(p));
            }
            (Err(p), Ghost(1))
        }
    }

    /// The top-level statements, until the token sequence is exhausted.
    fn parse_go(&mut self) -> (r: (Result<Vec<Statement>, (u64, u64)>, Ghost<nat>))
        requires
            old(self).position <= old(self).parsing@.len(),
        ensures
            final(self).parsing == old(self).parsing,
            final(self).end_pos == old(self).end_pos,
            final(self).parsed == old(self).parsed,
            final(self).position <= final(self).parsing@.len(),
            (match r.0 {
                Result::Ok(v) => stmts_wf(v@) && p_program(
                    old(self).toks(),
                    old(self).endpos(),
                    old(self).position as nat,
                    r.1@,
                ) == Parsed::Got(stmts_view(v@), final(self).position as nat) && final(self).position == final(self).parsing@.len(),
                Result::Err(p) => p_program(
                    old(self).toks(),
                    old(self).endpos(),
                    old(self).position as nat,
                    r.1@,
                ) == Parsed::<Seq<StmtV>>::Fail(p),
            }),
        decreases self.parsing@.len() - self.position, 8nat, 0nat,
    {
        let ghost toks = self.toks();
        let ghost end = self.end_pos;
        let ghost i0 = self.position as nat;
        if self.is_end() {
            let out: Vec<Statement> = Vec::new();
            proof {
                assert(stmts_view(out@) =~= Seq::<StmtV>::empty());
                assert(p_program(toks, end, i0, 1) == Parsed::Got(Seq::<StmtV>::empty(), i0));
            }
            return (Ok(out), Ghost(1));
        }
        let (rs, g1) = self.parse_statement();
        match rs {
            Err(p) => {
                proof {
                    assert(p_program(toks, end, i0, g1@ + 1) == Parsed::<Seq<StmtV>>::Fail(p));
                }
                (Err(p), Ghost(g1@ + 1))
            },
            Ok(st) => {
                let ghost sv = st.stmt_view();
                let ghost j = self.position as nat;
                let (rb, g2) = self.parse_go();
                let ghost f = g1@ + g2@ + 1;
                proof {
                    lemma_parse_mono(toks, end, g1@, (f - 1) as nat);
                    lemma_parse_mono(toks, end, g2@, (f - 1) as nat);
                    assert(p_statement(toks, end, i0, (f - 1) as nat) == Parsed::Got(sv, j));
                }
                match rb {
                    Err(p) => {
                        proof {
                            assert(p_program(toks, end, i0, f) == Parsed::<Seq<StmtV>>::Fail(p));
                        }
                        (Err(p), Ghost(f))
                    },
                    Ok(mut v) => {
                        let ghost rest = v@;
                        v.insert(0, st);
                        proof {
                            assert(v@ =~= seq![st] + rest);
                            crate::nodes::lemma_stmts_cons(st, rest);
                            assert(p_program(toks, end, i0, f) == Parsed::Got(
                                stmts_view(v@),
                                final(self).position as nat,
                            ));
                        }
                        (Ok(v), Ghost(f))
                    },
                }
            },
        }
    }

    /// Parses the whole token sequence into the program's statements, or
    /// fails at the position of the offending token, or at the end-of-input
    /// position when the tokens ran out. On success the parsed statements
    /// are exactly the abstract parse of the token views, and well-formed.
    pub fn parse(&mut self) -> (r: Result<(), (u64, u64)>)
        requires
            old(self).ready(),
        ensures
            final(self).toks() == old(self).toks(),
            final(self).endpos() == old(self).endpos(),
            match r {
                Ok(()) => final(self).results_wf() && exists|f: nat|
                    #[trigger] p_program(old(self).toks(), old(self).endpos(), 0, f)
                        == Parsed::Got(final(self).results(), old(self).toks().len()),
                Err(p) => exists|f: nat|
                    #[trigger] p_program(old(self).toks(), old(self).endpos(), 0, f)
                        == Parsed::<Seq<StmtV>>::Fail(p),
            },
    {
        let (r0, g) = self.parse_go();
        match r0 {
            Ok(v) => {
                self.parsed = v;
                proof {
                    assert(p_program(old(self).toks(), old(self).endpos(), 0, g@) == Parsed::Got(
                        final(self).results(),
                        old(self).toks().len(),
                    ));
                }
                Ok(())
            },
            Err(p) => {
                proof {
                    assert(p_program(old(self).toks(), old(self).endpos(), 0, g@)
                        == Parsed::<Seq<StmtV>>::Fail(p));
                }
                Err(p)
            },
        }
    }
}

} // verus!
