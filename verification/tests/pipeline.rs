use tinyscript::errors::ExecError;
use tinyscript::interp::{interpret, Failure};

fn run(src: &str) -> (String, Option<Failure>) {
    let (out, failure) = interpret(src.chars().collect(), u64::MAX);
    (out.iter().collect(), failure)
}

#[test]
fn precedence_multiplication_binds_tighter() {
    let (out, failure) = run("print 1 + 2 * 3;");
    assert!(failure.is_none());
    assert_eq!(out, "7 ");
}

#[test]
fn precedence_other_order() {
    let (out, failure) = run("print 2 * 3 + 1;");
    assert!(failure.is_none());
    assert_eq!(out, "7 ");
}

#[test]
fn parentheses_override_precedence() {
    let (out, failure) = run("print (1 + 2) * 3;");
    assert!(failure.is_none());
    assert_eq!(out, "9 ");
}

#[test]
fn no_short_circuit_for_logical_or() {
    let (out, failure) = run("var x = 0; if x == 1 || y { println 1; }");
    assert_eq!(out, "");
    match failure {
        Some(Failure::Run(ExecError::UndefinedVariable(name, line))) => {
            assert_eq!(name, "y");
            assert_eq!(line, 1);
        },
        other => panic!("expected an undefined-variable failure, got {:?}", other),
    }
}

#[test]
fn division_by_zero_fails() {
    let (out, failure) = run("print 1 / 0;");
    assert_eq!(out, "");
    match failure {
        Some(Failure::Run(ExecError::DivisionByZero(line))) => assert_eq!(line, 1),
        other => panic!("expected a divide-by-zero failure, got {:?}", other),
    }
}

#[test]
fn remainder_with_nonzero_divisor() {
    let (out, failure) = run("print 7 % 3; print -7 % 3; print 7 % -3;");
    assert!(failure.is_none());
    assert_eq!(out, "1 -1 1 ");
}

#[test]
fn redefinition_fails() {
    let (out, failure) = run("var x = 1; var x = 2;");
    assert_eq!(out, "");
    match failure {
        Some(Failure::Run(ExecError::RedefinedVariable(name, line))) => {
            assert_eq!(name, "x");
            assert_eq!(line, 1);
        },
        other => panic!("expected a redefinition failure, got {:?}", other),
    }
}

#[test]
fn assignment_to_unbound_name_fails() {
    let (out, failure) = run("x = 1;");
    assert_eq!(out, "");
    match failure {
        Some(Failure::Run(ExecError::UndefinedVariable(name, line))) => {
            assert_eq!(name, "x");
            assert_eq!(line, 1);
        },
        other => panic!("expected an undefined-variable failure, got {:?}", other),
    }
}

#[test]
fn while_loop_counts_to_three() {
    let (out, failure) = run("var i = 0; while i < 3 { println i; i = i + 1; }");
    assert!(failure.is_none());
    assert_eq!(out, "0\n1\n2\n");
}

#[test]
fn unterminated_if_reports_end_of_input() {
    let src = "if 1 { println 1;";
    let mut lexer = tinyscript::lexer::Lexer::new(src.chars().collect());
    assert!(lexer.scan().is_ok());
    let expected = lexer.get_final_pos();
    let (out, failure) = run(src);
    assert_eq!(out, "");
    match failure {
        Some(Failure::Parse(line, column)) => {
            assert_eq!((line, column), expected);
            assert_eq!((line, column), (1, 19));
        },
        other => panic!("expected a parse failure, got {:?}", other),
    }
}

#[test]
fn literal_round_trip_at_the_extremes() {
    let (out, failure) = run("print 9223372036854775807; print 0;");
    assert!(failure.is_none());
    assert_eq!(out, "9223372036854775807 0 ");
}

#[test]
fn long_literal_wraps() {
    let (out, failure) = run("print 9223372036854775808;");
    assert!(failure.is_none());
    assert_eq!(out, "-9223372036854775808 ");
}

#[test]
fn addition_wraps() {
    let (out, failure) = run("print 9223372036854775807 + 1;");
    assert!(failure.is_none());
    assert_eq!(out, "-9223372036854775808 ");
}

#[test]
fn division_wraps_at_the_smallest_value() {
    let (out, failure) = run("print -9223372036854775808 / -1;");
    assert!(failure.is_none());
    assert_eq!(out, "-9223372036854775808 ");
}

#[test]
fn bare_print_and_println() {
    let (out, failure) = run("print; println;");
    assert!(failure.is_none());
    assert_eq!(out, " \n");
}

#[test]
fn else_branch_runs_on_zero() {
    let (out, failure) = run("var x = 0; if x { println 1; } else { println 2; }");
    assert!(failure.is_none());
    assert_eq!(out, "2\n");
}

#[test]
fn logical_operators_produce_zero_or_one() {
    let (out, failure) = run("print 2 && 3; print 0 || 5; print !7; print !0;");
    assert!(failure.is_none());
    assert_eq!(out, "1 1 0 1 ");
}

#[test]
fn word_forms_of_logical_operators() {
    let (out, failure) = run("print 1 or 0; print 1 and 0;");
    assert!(failure.is_none());
    assert_eq!(out, "1 0 ");
}

#[test]
fn bitwise_operators() {
    let (out, failure) = run("print 6 & 3; print 6 | 3; print 6 ^ 3; print ~0;");
    assert!(failure.is_none());
    assert_eq!(out, "2 7 5 -1 ");
}

#[test]
fn comparisons() {
    let (out, failure) = run("print 1 < 2; print 2 <= 1; print 2 > 1; print 1 >= 2; print 1 == 1; print 1 != 1;");
    assert!(failure.is_none());
    assert_eq!(out, "1 0 1 0 1 0 ");
}

#[test]
fn unary_minus_and_truncating_division() {
    let (out, failure) = run("print -5; print 7 / 2; print -7 / 2;");
    assert!(failure.is_none());
    assert_eq!(out, "-5 3 -3 ");
}

#[test]
fn lex_error_position() {
    let (out, failure) = run("var a = 1;\n@");
    assert_eq!(out, "");
    match failure {
        Some(Failure::Lex(line, column)) => assert_eq!((line, column), (2, 1)),
        other => panic!("expected a lex failure, got {:?}", other),
    }
}

#[test]
fn parse_error_at_offending_token() {
    let (out, failure) = run("var 1 = 2;");
    assert_eq!(out, "");
    match failure {
        Some(Failure::Parse(line, column)) => assert_eq!((line, column), (1, 5)),
        other => panic!("expected a parse failure, got {:?}", other),
    }
}

#[test]
fn loop_budget_exhaustion_is_reported() {
    let (out, failure) = interpret("while 1 { }".chars().collect(), 5);
    let text: String = out.iter().collect();
    assert_eq!(text, "");
    assert!(matches!(failure, Some(Failure::OutOfFuel)));
}

#[test]
fn output_before_a_failure_is_kept() {
    let (out, failure) = run("println 1; println y;");
    assert_eq!(out, "1\n");
    assert!(matches!(failure, Some(Failure::Run(ExecError::UndefinedVariable(_, 1)))));
}

#[test]
fn statement_line_is_reported_not_expression_line() {
    let (out, failure) = run("var ok = 1;\nvar bad = 1 /\n0;");
    assert_eq!(out, "");
    match failure {
        Some(Failure::Run(ExecError::DivisionByZero(line))) => assert_eq!(line, 2),
        other => panic!("expected a divide-by-zero failure, got {:?}", other),
    }
}

#[test]
fn empty_source_runs_to_completion() {
    let (out, failure) = run("");
    assert!(failure.is_none());
    assert_eq!(out, "");
}

#[test]
fn nested_control_flow() {
    let (out, failure) =
        run("var i = 0; while i < 2 { if i == 0 { print 10; } else { print 20; } i = i + 1; }");
    assert!(failure.is_none());
    assert_eq!(out, "10 20 ");
}

#[test]
fn keyword_prefix_is_an_identifier() {
    let (out, failure) = run("var printx = 1; print printx;");
    assert!(failure.is_none());
    assert_eq!(out, "1 ");
}

#[test]
fn unmatched_parenthesis_is_reported_at_the_offending_token() {
    let (out, failure) = run("print (1;");
    assert_eq!(out, "");
    match failure {
        Some(Failure::Parse(line, column)) => assert_eq!((line, column), (1, 9)),
        other => panic!("expected a parse failure, got {:?}", other),
    }
}

#[test]
fn assignment_overwrites_a_binding() {
    let (out, failure) = run("var x = 1; x = x + 41; print x;");
    assert!(failure.is_none());
    assert_eq!(out, "42 ");
}
