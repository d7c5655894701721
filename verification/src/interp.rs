//! The run driver: executing a parsed program against a fresh environment,
//! and the whole pipeline from source text to output.

use vstd::prelude::*;
use crate::env::Environment;
use crate::errors::{ExecError, Stop};
use crate::lexer::{lex_text, LexOut, Lexer};
use crate::nodes::{execute_block, stmts_view, stmts_wf, Statement};
use crate::parser::{p_program, lemma_parse_mono, Parsed, Parser};
use crate::semantics::{exec_block, RunError, StepOut, StmtV, StopV};
use crate::tokens::TokenView;

verus! {

/// The result of parsing a token sequence, with the recursion depth
/// abstracted away: some depth is enough for every input the parser accepts
/// or rejects, and by fuel monotonicity the result does not depend on which
/// sufficient depth is chosen.
pub open spec fn parse_outcome(toks: Seq<(TokenView, u64, u64)>, end: (u64, u64)) -> Parsed<
    Seq<StmtV>,
> {
    if exists|f: nat| !(#[trigger] p_program(toks, end, 0, f) is Short) {
        p_program(toks, end, 0, choose|f: nat| !(#[trigger] p_program(toks, end, 0, f) is Short))
    } else {
        Parsed::Short
    }
}

/// Any sufficient recursion depth gives the parse outcome.
pub proof fn lemma_parse_outcome(toks: Seq<(TokenView, u64, u64)>, end: (u64, u64), f: nat)
    requires
        !(p_program(toks, end, 0, f) is Short),
    ensures
        parse_outcome(toks, end) == p_program(toks, end, 0, f),
{
    let f2 = choose|g: nat| !(#[trigger] p_program(toks, end, 0, g) is Short);
    if f <= f2 {
        lemma_parse_mono(toks, end, f, f2);
    } else {
        lemma_parse_mono(toks, end, f2, f);
    }
}

/// The round trip through the pipeline's front half, for every 64-bit
/// signed value: tokenizing the decimal text of `n` succeeds, parsing the
/// tokens as a single prefixed primary expression succeeds, and evaluating
/// the parsed expression yields `n` exactly, in every environment. The one
/// literal whose magnitude exceeds the signed range, that of the smallest
/// value, wraps during accumulation exactly so that the round trip still
/// holds.
pub proof fn lemma_value_text_round_trip(n: i64, env: Map<Seq<char>, i64>)
    ensures
        lex_text(crate::numerals::dec_i64(n)) is Toks,
        n >= 0 ==> {
            let ts = lex_text(crate::numerals::dec_i64(n))->Toks_0;
            let end = lex_text(crate::numerals::dec_i64(n))->Toks_1;
            &&& crate::parser::p_primary(ts, end, 0, 1) == Parsed::Got(
                crate::semantics::ExprV::Integer(n),
                1,
            )
            &&& crate::semantics::eval_expr(crate::semantics::ExprV::Integer(n), env)
                == crate::semantics::EvalOut::Val(n)
        },
        n < 0 ==> {
            let ts = lex_text(crate::numerals::dec_i64(n))->Toks_0;
            let end = lex_text(crate::numerals::dec_i64(n))->Toks_1;
            let parsed = crate::semantics::ExprV::Unary(
                crate::semantics::UnOp::UnaryMinus,
                Box::new(crate::semantics::ExprV::Integer(crate::semantics::wrap_neg(n))),
            );
            &&& crate::parser::p_unary(ts, end, 0, 3) == Parsed::Got(parsed, 2)
            &&& crate::semantics::eval_expr(parsed, env) == crate::semantics::EvalOut::Val(n)
        },
{
    if n >= 0 {
        crate::lexer::lemma_literal_round_trip(n, env);
    } else {
        crate::lexer::lemma_negative_literal_round_trip(n, env);
        let ts = lex_text(crate::numerals::dec_i64(n))->Toks_0;
        let end = lex_text(crate::numerals::dec_i64(n))->Toks_1;
        let v = crate::semantics::wrap_neg(n);
        assert(ts[0].0 is Minus);
        assert(ts[1].0 == TokenView::Integer(v));
        assert(crate::parser::p_primary(ts, end, 1, 1) == Parsed::Got(
            crate::semantics::ExprV::Integer(v),
            2,
        ));
        assert(crate::parser::p_unary(ts, end, 1, 2) == Parsed::Got(
            crate::semantics::ExprV::Integer(v),
            2,
        ));
    }
}

/// Why a run of the whole pipeline stopped early.
pub enum FailureV {
    Lex((u64, u64)),
    Parse((u64, u64)),
    Run(RunError),
    OutOfFuel,
}

/// Why a run of the whole pipeline stopped early: an unrecognized character,
/// a token sequence outside the grammar, a failure while executing, or an
/// exhausted loop-iteration budget.
#[derive(Debug)]
pub enum Failure {
    Lex(u64, u64),
    Parse(u64, u64),
    Run(ExecError),
    OutOfFuel,
}

impl View for Failure {
    type V = FailureV;

    open spec fn view(&self) -> FailureV {
        match self {
            Failure::Lex(l, c) => FailureV::Lex((*l, *c)),
            Failure::Parse(l, c) => FailureV::Parse((*l, *c)),
            Failure::Run(e) => FailureV::Run(e@),
            Failure::OutOfFuel => FailureV::OutOfFuel,
        }
    }
}

/// Runs a parsed program against a fresh, empty environment, appending what
/// it prints to `out`. `fuel` bounds loop iterations as in the abstract
/// interpreter.
pub fn run_program(program: &Vec<Statement>, out: &mut Vec<char>, fuel: u64) -> (r: Result<
    (),
    Stop,
>)
    requires
        stmts_wf(program@),
        !(exec_block(
            stmts_view(program@),
            Map::<Seq<char>, i64>::empty(),
            old(out)@,
            fuel as nat,
        ) is Trap),
    ensures
        match exec_block(
            stmts_view(program@),
            Map::<Seq<char>, i64>::empty(),
            old(out)@,
            fuel as nat,
        ) {
            StepOut::Done(env2, o2) => r is Ok && final(out)@ == o2,
            StepOut::Stopped(env2, o2, stop) => (match r {
                Result::Ok(_) => false,
                Result::Err(s) => s@ == stop,
            }) && final(out)@ == o2,
            StepOut::Trap => false,
        },
{
    let mut variables = Environment::new();
    execute_block(program, &mut variables, out, fuel)
}

/// The whole pipeline on one source text: tokenize, parse, then execute
/// against a fresh environment. The text's output is returned beside the
/// first failure, if any; output already produced when a run fails is kept.
pub fn interpret(text: Vec<char>, fuel: u64) -> (r: (Vec<char>, Option<Failure>))
    requires
        text@.len() + 4 < u64::MAX,
        (match lex_text(text@) {
            LexOut::Toks(ts, end) => match parse_outcome(ts, end) {
                Parsed::Got(prog, n) => !(exec_block(
                    prog,
                    Map::<Seq<char>, i64>::empty(),
                    Seq::empty(),
                    fuel as nat,
                ) is Trap),
                _ => true,
            },
            LexOut::Fail(p) => true,
        }),
    ensures
        match lex_text(text@) {
            LexOut::Fail(p) => r.0@ == Seq::<char>::empty() && (match r.1 {
                Some(f) => f@ == FailureV::Lex(p),
                None => false,
            }),
            LexOut::Toks(ts, end) => match parse_outcome(ts, end) {
                Parsed::Fail(p) => r.0@ == Seq::<char>::empty() && (match r.1 {
                    Some(f) => f@ == FailureV::Parse(p),
                    None => false,
                }),
                Parsed::Short => false,
                Parsed::Got(prog, n) => match exec_block(
                    prog,
                    Map::<Seq<char>, i64>::empty(),
                    Seq::empty(),
                    fuel as nat,
                ) {
                    StepOut::Done(env2, o2) => r.0@ == o2 && r.1 is None,
                    StepOut::Stopped(env2, o2, stop) => r.0@ == o2 && (match r.1 {
                        Some(f) => match stop {
                            StopV::Failed(re) => f@ == FailureV::Run(re),
                            StopV::OutOfFuel => f@ == FailureV::OutOfFuel,
                        },
                        None => false,
                    }),
                    StepOut::Trap => false,
                },
            },
        },
{
    let mut lexer = Lexer::new(text);
    match lexer.scan() {
        Err((l, c)) => (Vec::new(), Some(Failure::Lex(l, c))),
        Ok(()) => {
            let end = lexer.get_final_pos();
            let tokens = lexer.get_scanned_vec();
            let mut parser = Parser::new(tokens, end);
            match parser.parse() {
                Err((l, c)) => {
                    proof {
                        let f = choose|f: nat|
                            p_program(parser.toks(), parser.endpos(), 0, f) == Parsed::<
                                Seq<StmtV>,
                            >::Fail((l, c));
                        lemma_parse_outcome(parser.toks(), parser.endpos(), f);
                    }
                    (Vec::new(), Some(Failure::Parse(l, c)))
                },
                Ok(()) => {
                    proof {
                        let f = choose|f: nat|
                            p_program(parser.toks(), parser.endpos(), 0, f) == Parsed::Got(
                                parser.results(),
                                parser.toks().len(),
                            );
                        lemma_parse_outcome(parser.toks(), parser.endpos(), f);
                    }
                    let program = parser.get_parsed_vec();
                    let mut out: Vec<char> = Vec::new();
                    let run = run_program(&program, &mut out, fuel);
                    match run {
                        Ok(()) => (out, None),
                        Err(Stop::Failed(e)) => (out, Some(Failure::Run(e))),
                        Err(Stop::OutOfFuel) => (out, Some(Failure::OutOfFuel)),
                    }
                },
            }
        },
    }
}

} // verus!
