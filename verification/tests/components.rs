use tinyscript::env::Environment;
use tinyscript::errors::{EvalError, ExecError};
use tinyscript::lexer::Lexer;
use tinyscript::nodes::{Expression, ExpressionType};
use tinyscript::numerals::{push_dec_i64, push_dec_u64};
use tinyscript::tokens::Tokens;

#[test]
fn scanner_classifies_tokens() {
    let mut lexer = Lexer::new("a_1x >= 10 while or".chars().collect());
    assert!("a_1x".chars().all(|c| c.is_ascii_alphanumeric() || c == '_'));
    assert!(lexer.scan().is_ok());
    let scanned = lexer.get_scanned_vec();
    let kinds: Vec<Tokens> = scanned.iter().map(|t| t.0.clone()).collect();
    // note: digits do not continue an identifier run, so `a_1x` splits
    assert_eq!(
        kinds,
        vec![
            Tokens::Identifier("a_".to_string()),
            Tokens::Integer(1),
            Tokens::Identifier("x".to_string()),
            Tokens::GreaterEqual,
            Tokens::Integer(10),
            Tokens::While,
            Tokens::LogicalOr,
        ]
    );
}

#[test]
fn scanner_tags_token_positions() {
    let mut lexer = Lexer::new("ab cd\n 12".chars().collect());
    assert!(lexer.scan().is_ok());
    assert_eq!(lexer.get_final_pos(), (2, 5));
    let scanned = lexer.get_scanned_vec();
    let positions: Vec<(u64, u64)> = scanned.iter().map(|t| (t.1, t.2)).collect();
    assert_eq!(positions, vec![(1, 1), (1, 4), (2, 2)]);
}

#[test]
fn scanner_prefers_two_character_operators() {
    let mut lexer = Lexer::new("<= < == = != ! && & || |".chars().collect());
    assert!(lexer.scan().is_ok());
    let kinds: Vec<Tokens> = lexer.get_scanned_vec().iter().map(|t| t.0.clone()).collect();
    assert_eq!(
        kinds,
        vec![
            Tokens::LesserEqual,
            Tokens::Lesser,
            Tokens::Equal,
            Tokens::Assign,
            Tokens::NotEqual,
            Tokens::LogicalNot,
            Tokens::LogicalAnd,
            Tokens::BitwiseAnd,
            Tokens::LogicalOr,
            Tokens::BitwiseOr,
        ]
    );
}

#[test]
fn scanner_rejects_unknown_characters() {
    let mut lexer = Lexer::new("ab #".chars().collect());
    assert_eq!(lexer.scan(), Err((1, 4)));
}

#[test]
fn environment_binds_and_overwrites() {
    let mut env = Environment::new();
    let x = "x".to_string();
    let y = "y".to_string();
    assert_eq!(env.get(&x), None);
    env.set(&x, 3);
    assert_eq!(env.get(&x), Some(3));
    env.set(&y, -1);
    env.set(&x, 4);
    assert_eq!(env.get(&x), Some(4));
    assert_eq!(env.get(&y), Some(-1));
}

#[test]
fn expressions_evaluate_against_the_environment() {
    let mut env = Environment::new();
    env.set(&"a".to_string(), 6);
    let sum = Expression::new(
        Expression::new_empty(ExpressionType::Variable("a".to_string())),
        ExpressionType::Plus,
        Expression::new_empty(ExpressionType::Integer(7)),
    );
    assert_eq!(sum.evaluate(&env), Ok(13));
    let missing = Expression::new_empty(ExpressionType::Variable("b".to_string()));
    assert_eq!(
        missing.evaluate(&env),
        Err(EvalError::UndefinedVariable("b".to_string()))
    );
}


#[test]
fn decimal_rendering_matches_text_form() {
    let mut out: Vec<char> = Vec::new();
    push_dec_u64(&mut out, 0);
    out.push(' ');
    push_dec_i64(&mut out, -123);
    out.push(' ');
    push_dec_i64(&mut out, i64::MIN);
    let text: String = out.iter().collect();
    assert_eq!(text, "0 -123 -9223372036854775808");
}

#[test]
fn error_messages_have_the_reported_shape() {
    let undefined = ExecError::UndefinedVariable("spam".to_string(), 3);
    assert_eq!(undefined.message(), "'spam' Undefined variable error at line 3");
    let redefined = ExecError::RedefinedVariable("x".to_string(), 12);
    assert_eq!(redefined.message(), "'x' Redefining variable error at line 12");
    let zero = ExecError::DivisionByZero(7);
    assert_eq!(zero.message(), "Zero division error at line 7");
}
