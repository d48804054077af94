use std::collections::HashMap;

use calculator::calc::evaluate;
use calculator::eval::{Expr, Op, evaluate_postfix};
use calculator::lexer::tokenize;
use calculator::postfix::to_postfix;
use calculator::token::{CalcError, EvalError, LexError, ParseError, Token};

fn value(e: &Expr, vars: &HashMap<String, f64>) -> f64 {
    match e {
        Expr::Num(lit) => lit.parse().unwrap(),
        Expr::Var(x) => vars[x],
        Expr::Bin(op, a, b) => {
            let a = value(a, vars);
            let b = value(b, vars);
            match op {
                Op::Add => a + b,
                Op::Sub => a - b,
                Op::Mul => a * b,
                Op::Div => a / b,
            }
        }
    }
}

fn run(line: &str, vars: &HashMap<String, f64>) -> Result<f64, CalcError> {
    let names: Vec<String> = vars.keys().cloned().collect();
    evaluate(line, &names).map(|e| value(&e, vars))
}

fn calc(line: &str) -> f64 {
    run(line, &HashMap::new()).unwrap()
}

fn shape(t: &Token) -> String {
    match t {
        Token::Number(s) => format!("n{}", s),
        Token::Identifier(s) => format!("i{}", s),
        Token::Plus => "+".to_string(),
        Token::Minus => "-".to_string(),
        Token::Multiply => "*".to_string(),
        Token::Divide => "/".to_string(),
        Token::LeftParen => "(".to_string(),
        Token::RightParen => ")".to_string(),
        Token::Assign => "=".to_string(),
    }
}

fn shapes(ts: &[Token]) -> Vec<String> {
    ts.iter().map(shape).collect()
}

#[test]
fn precedence_of_multiplication() {
    assert_eq!(calc("2 + 3 * 4"), 14.0);
    assert_eq!(calc("(2 + 3) * 4"), 20.0);
}

#[test]
fn left_associativity() {
    assert_eq!(calc("8 - 3 - 2"), 3.0);
    assert_eq!(calc("8 / 4 / 2"), 1.0);
}

#[test]
fn mixed_operators() {
    assert_eq!(calc("2 * 3 + 4 * 5"), 26.0);
}

#[test]
fn parenthesized_round_trip_value() {
    assert_eq!(calc("((1 + 2) * (3 + 4))"), 21.0);
    assert_eq!(calc("(1 + 2) * (3 + 4)"), 21.0);
}

#[test]
fn identifier_resolution() {
    let mut vars = HashMap::new();
    vars.insert("x".to_string(), 5.0);
    assert_eq!(run("x + 1", &vars).unwrap(), 6.0);
    match run("y + 1", &vars) {
        Err(CalcError::Eval(EvalError::UndefinedVariable(name))) => assert_eq!(name, "y"),
        other => panic!("unexpected {:?}", other),
    }
}

#[test]
fn unexpected_character() {
    assert!(matches!(tokenize("2 & 3"), Err(LexError::UnexpectedCharacter('&'))));
}

#[test]
fn repeated_evaluation_is_stable() {
    let mut vars = HashMap::new();
    vars.insert("rate".to_string(), 2.5);
    let first = run("rate * (4 - 1)", &vars).unwrap();
    let second = run("rate * (4 - 1)", &vars).unwrap();
    assert_eq!(first, 7.5);
    assert_eq!(first, second);
}

#[test]
fn tokens_of_a_line() {
    let ts = tokenize("12.5*(ab_1 - 3)=").unwrap();
    assert_eq!(shapes(&ts), vec!["n12.5", "*", "(", "iab_1", "-", "n3", ")", "="]);
}

#[test]
fn unicode_identifier_continues() {
    let ts = tokenize("xé2+1").unwrap();
    assert_eq!(shapes(&ts), vec!["ixé2", "+", "n1"]);
}

#[test]
fn empty_line_has_no_tokens() {
    assert!(tokenize("").unwrap().is_empty());
    assert!(tokenize("   ").unwrap().is_empty());
}

#[test]
fn two_decimal_points() {
    match tokenize("1.2.3 + 4") {
        Err(LexError::InvalidNumber(lit)) => assert_eq!(lit, "1.2.3"),
        other => panic!("unexpected {:?}", other),
    }
}

#[test]
fn trailing_point_is_a_number() {
    assert_eq!(calc("1. + 2"), 3.0);
}

#[test]
fn postfix_order() {
    let ts = to_postfix(tokenize("1 + 2 * 3 - 4").unwrap()).unwrap();
    assert_eq!(shapes(&ts), vec!["n1", "n2", "n3", "*", "+", "n4", "-"]);
}

#[test]
fn unmatched_close_paren() {
    assert!(matches!(to_postfix(tokenize("1 + 2)").unwrap()), Err(ParseError::UnmatchedParen)));
}

#[test]
fn assignment_is_refused() {
    assert!(matches!(to_postfix(tokenize("x = 1").unwrap()), Err(ParseError::UnexpectedAssign)));
}

#[test]
fn missing_operand() {
    let names: Vec<String> = Vec::new();
    assert!(matches!(evaluate("1 +", &names), Err(CalcError::Eval(EvalError::StackUnderflow))));
}

#[test]
fn unclosed_paren_is_malformed() {
    let names: Vec<String> = Vec::new();
    assert!(matches!(
        evaluate("(1 + 2", &names),
        Err(CalcError::Eval(EvalError::MalformedExpression))
    ));
}

#[test]
fn two_values_left_is_malformed() {
    let names: Vec<String> = Vec::new();
    assert!(matches!(evaluate("1 2", &names), Err(CalcError::Eval(EvalError::MalformedExpression))));
}

#[test]
fn empty_postfix_is_malformed() {
    let names: Vec<String> = Vec::new();
    assert!(matches!(evaluate_postfix(Vec::new(), &names), Err(EvalError::MalformedExpression)));
}

#[test]
fn evaluation_tree_shape() {
    let names: Vec<String> = Vec::new();
    match evaluate("8 - 3 - 2", &names).unwrap() {
        Expr::Bin(Op::Sub, left, right) => {
            assert!(matches!(*left, Expr::Bin(Op::Sub, _, _)));
            assert!(matches!(*right, Expr::Num(ref s) if s == "2"));
        }
        other => panic!("unexpected {:?}", other),
    }
}

#[test]
fn division_by_zero_is_infinite() {
    assert!(calc("1 / 0").is_infinite());
}
