use vstd::prelude::*;
use crate::token::{EvalError, SEvalError, SToken, Token, token_views};
use crate::postfix::is_operator;

verus! {

/// A binary arithmetic operation.
#[derive(Debug, Clone, Copy, PartialEq, Eq, Structural)]
pub enum Op {
    Add,
    Sub,
    Mul,
    Div,
}

/// An evaluated expression: the tree of operations that a postfix sequence denotes, with
/// literals kept as written and every variable known to be defined.
#[derive(Debug)]
pub enum Expr {
    Num(String),
    Var(String),
    Bin(Op, Box<Expr>, Box<Expr>),
}

/// The mathematical view of an expression tree.
pub enum SExpr {
    Num(Seq<char>),
    Var(Seq<char>),
    Bin(Op, Box<SExpr>, Box<SExpr>),
}

/// The view of an expression tree.
pub open spec fn expr_view(e: Expr) -> SExpr
    decreases e,
{
    match e {
        Expr::Num(s) => SExpr::Num(s@),
        Expr::Var(s) => SExpr::Var(s@),
        Expr::Bin(op, a, b) => SExpr::Bin(op, Box::new(expr_view(*a)), Box::new(expr_view(*b))),
    }
}

impl View for Expr {
    type V = SExpr;

    open spec fn view(&self) -> SExpr {
        expr_view(*self)
    }
}

/// The operation of an operator token.
pub open spec fn op_of(t: SToken) -> Op {
    match t {
        SToken::Plus => Op::Add,
        SToken::Minus => Op::Sub,
        SToken::Multiply => Op::Mul,
        _ => Op::Div,
    }
}

/// The texts of a sequence of names.
pub open spec fn string_views(names: Seq<String>) -> Seq<Seq<char>> {
    names.map_values(|n: String| n@)
}

/// The views of a stack of trees.
/// The view of an expression tree.
pub open spec fn expr_views(es: Seq<Expr>) -> Seq<SExpr> {
    es.map_values(|e: Expr| e@)
}

/// Evaluation of postfix tokens from position `i` on, with operand stack `stack`, where
/// `names` are the defined variables.
pub open spec fn eval_from(ts: Seq<SToken>, i: int, stack: Seq<SExpr>, names: Seq<Seq<char>>) -> Result<SExpr, SEvalError>
    decreases ts.len() - i,
{
    if i < 0 || i >= ts.len() {
        if stack.len() == 1 {
            Ok(stack[0])
        } else {
            Err(SEvalError::MalformedExpression)
        }
    } else {
        let t = ts[i];
        match t {
            SToken::Number(lit) => eval_from(ts, i + 1, stack.push(SExpr::Num(lit)), names),
            SToken::Identifier(x) => if names.contains(x) {
                eval_from(ts, i + 1, stack.push(SExpr::Var(x)), names)
            } else {
                Err(SEvalError::UndefinedVariable(x))
            },
            _ => if !is_operator(t) {
                Err(SEvalError::MalformedExpression)
            } else if stack.len() < 2 {
                Err(SEvalError::StackUnderflow)
            } else {
                let n = stack.len();
                let e = SExpr::Bin(op_of(t), Box::new(stack[n - 2]), Box::new(stack[n - 1]));
                eval_from(ts, i + 1, stack.subrange(0, n - 2).push(e), names)
            },
        }
    }
}

/// The value of a postfix sequence, starting from an empty operand stack.
pub open spec fn eval_postfix(ts: Seq<SToken>, names: Seq<Seq<char>>) -> Result<SExpr, SEvalError> {
    eval_from(ts, 0, seq![], names)
}

/// Whether `r` is what evaluating `ts` gives.
pub open spec fn evaluates_to(ts: Seq<SToken>, names: Seq<Seq<char>>, r: Result<Expr, EvalError>) -> bool {
    match r {
        Ok(e) => eval_postfix(ts, names) == Ok::<SExpr, SEvalError>(e@),
        Err(err) => eval_postfix(ts, names) == Err::<SExpr, SEvalError>(err@),
    }
}

/// Whether `x` is one of `names`.
pub fn is_defined(names: &Vec<String>, x: &String) -> (r: bool)
    ensures
        r == string_views(names@).contains(x@),
{
    let mut k: usize = 0;
    while k < names.len()
        invariant
            k <= names.len(),
            forall|m: int| 0 <= m < k ==> names@[m]@ != x@,
        decreases names.len() - k,
    {
        if names[k] == *x {
            assert(string_views(names@)[k as int] == x@);
            return true;
        }
        k = k + 1;
    }
    assert forall|m: int| 0 <= m < string_views(names@).len() implies string_views(names@)[m] != x@ by {
        assert(names@[m]@ != x@);
    }
    false
}

/// Evaluates a postfix sequence with one operand stack, building the expression tree it denotes.
/// `defined` lists the variables of the environment.
pub fn evaluate_postfix(tokens: Vec<Token>, defined: &Vec<String>) -> (r: Result<Expr, EvalError>)
    ensures
        evaluates_to(token_views(tokens@), string_views(defined@), r),
{
    let ghost ts = token_views(tokens@);
    let ghost names = string_views(defined@);
    let mut stack: Vec<Expr> = Vec::new();
    let n = tokens.len();
    let mut i: usize = 0;
    assert(expr_views(stack@) =~= seq![]);
    while i < n
        invariant
            n == tokens.len(),
            ts == token_views(tokens@),
            names == string_views(defined@),
            i <= n,
            eval_postfix(ts, names) == eval_from(ts, i as int, expr_views(stack@), names),
        decreases n - i,
    {
        let ghost sv = expr_views(stack@);
        match &tokens[i] {
            Token::Number(lit) => {
                let e = Expr::Num(lit.clone());
                stack.push(e);
                assert(expr_views(stack@) =~= sv.push(SExpr::Num(lit@)));
            },
            Token::Identifier(name) => {
                if !is_defined(defined, name) {
                    return Err(EvalError::UndefinedVariable(name.clone()));
                }
                let e = Expr::Var(name.clone());
                stack.push(e);
                assert(expr_views(stack@) =~= sv.push(SExpr::Var(name@)));
            },
            Token::LeftParen | Token::RightParen | Token::Assign => {
                return Err(EvalError::MalformedExpression);
            },
            operator => {
                let op = match operator {
                    Token::Plus => Op::Add,
                    Token::Minus => Op::Sub,
                    Token::Multiply => Op::Mul,
                    _ => Op::Div,
                };
                if stack.len() < 2 {
                    return Err(EvalError::StackUnderflow);
                }
                let b = stack.pop().unwrap();
                let a = stack.pop().unwrap();
                let e = Expr::Bin(op, Box::new(a), Box::new(b));
                stack.push(e);
                let ghost m = sv.len();
                assert(expr_views(stack@) =~= sv.subrange(0, m - 2).push(
                    SExpr::Bin(op, Box::new(sv[m - 2]), Box::new(sv[m - 1])),
                ));
            },
        }
        i = i + 1;
    }
    if stack.len() != 1 {
        return Err(EvalError::MalformedExpression);
    }
    let result = stack.pop().unwrap();
    Ok(result)
}

} // verus!
