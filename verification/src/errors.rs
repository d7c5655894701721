//! The failure values the interpreter reports, and the exact message text the
//! driver renders for each of them.

use vstd::prelude::*;
use crate::semantics::{EvalStop, RunError, StopV};
use crate::numerals::{dec_nat, push_dec_u64};
use crate::text::{chars_to_string, push_str_chars};

verus! {

/// A failure raised while evaluating one expression, before the enclosing
/// statement attaches its source line.
#[derive(Debug, PartialEq)]
pub enum EvalError {
    UndefinedVariable(String),
    DivisionByZero,
}

impl View for EvalError {
    type V = EvalStop;

    open spec fn view(&self) -> EvalStop {
        match self {
            EvalError::UndefinedVariable(n) => EvalStop::Undefined(n@),
            EvalError::DivisionByZero => EvalStop::DivisionByZero,
        }
    }
}

/// A failure raised by statement execution, carrying the 1-based source line
/// of the statement that failed.
#[derive(Debug, PartialEq)]
pub enum ExecError {
    UndefinedVariable(String, u64),
    RedefinedVariable(String, u64),
    DivisionByZero(u64),
}

impl View for ExecError {
    type V = RunError;

    open spec fn view(&self) -> RunError {
        match self {
            ExecError::UndefinedVariable(n, line) => RunError::Undefined(n@, *line),
            ExecError::RedefinedVariable(n, line) => RunError::Redefined(n@, *line),
            ExecError::DivisionByZero(line) => RunError::DivisionByZero(*line),
        }
    }
}

/// Why a run stopped before the end of the program: a reported failure, or an
/// exhausted loop-iteration budget.
#[derive(Debug, PartialEq)]
pub enum Stop {
    Failed(ExecError),
    OutOfFuel,
}

impl View for Stop {
    type V = StopV;

    open spec fn view(&self) -> StopV {
        match self {
            Stop::Failed(e) => StopV::Failed(e@),
            Stop::OutOfFuel => StopV::OutOfFuel,
        }
    }
}

/// The message text reported for a failure: a description followed by
/// " at line " and the 1-based line number.
pub open spec fn run_error_message(e: RunError) -> Seq<char> {
    match e {
        RunError::Undefined(n, line) => seq!['\''] + n + ("' Undefined variable error at line ")@
            + dec_nat(line as nat),
        RunError::Redefined(n, line) => seq!['\''] + n + ("' Redefining variable error at line ")@
            + dec_nat(line as nat),
        RunError::DivisionByZero(line) => ("Zero division error at line ")@ + dec_nat(line as nat),
    }
}

impl ExecError {
    /// The exact message the driver prints for this failure.
    pub fn message(&self) -> (s: String)
        ensures
            s@ == run_error_message(self@),
    {
        let mut text: Vec<char> = Vec::new();
        match self {
            ExecError::UndefinedVariable(n, line) => {
                text.push('\'');
                push_str_chars(&mut text, n.as_str());
                push_str_chars(&mut text, "' Undefined variable error at line ");
                push_dec_u64(&mut text, *line);
            },
            ExecError::RedefinedVariable(n, line) => {
                text.push('\'');
                push_str_chars(&mut text, n.as_str());
                push_str_chars(&mut text, "' Redefining variable error at line ");
                push_dec_u64(&mut text, *line);
            },
            ExecError::DivisionByZero(line) => {
                push_str_chars(&mut text, "Zero division error at line ");
                push_dec_u64(&mut text, *line);
            },
        }
        proof {
            assert(text@ =~= run_error_message(self@));
        }
        chars_to_string(&text)
    }
}

} // verus!
