use vstd::prelude::*;
use crate::eval::{Expr, SExpr, eval_postfix, evaluate_postfix, string_views};
use crate::lexer::{lex, tokenize};
use crate::postfix::{postfix, to_postfix};
use crate::token::{CalcError, SCalcError, token_views};

verus! {

/// The result of running a line through lexing, conversion and evaluation, where `names`
/// are the defined variables; the first stage that fails gives the error.
pub open spec fn evaluation(s: Seq<char>, names: Seq<Seq<char>>) -> Result<SExpr, SCalcError> {
    match lex(s) {
        Err(e) => Err(SCalcError::Lex(e)),
        Ok(ts) => match postfix(ts) {
            Err(e) => Err(SCalcError::Parse(e)),
            Ok(p) => match eval_postfix(p, names) {
                Ok(x) => Ok(x),
                Err(e) => Err(SCalcError::Eval(e)),
            },
        },
    }
}

/// Whether `r` is what evaluating the line `s` gives.
pub open spec fn evaluation_is(s: Seq<char>, names: Seq<Seq<char>>, r: Result<Expr, CalcError>) -> bool {
    match r {
        Ok(e) => evaluation(s, names) == Ok::<SExpr, SCalcError>(e@),
        Err(err) => evaluation(s, names) == Err::<SExpr, SCalcError>(err@),
    }
}

/// Evaluates one line against the variables listed in `defined`.
pub fn evaluate(expression: &str, defined: &Vec<String>) -> (r: Result<Expr, CalcError>)
    ensures
        evaluation_is(expression@, string_views(defined@), r),
{
    let tokens = match tokenize(expression) {
        Ok(ts) => ts,
        Err(e) => {
            return Err(CalcError::Lex(e));
        },
    };
    let postfix_tokens = match to_postfix(tokens) {
        Ok(ts) => ts,
        Err(e) => {
            return Err(CalcError::Parse(e));
        },
    };
    match evaluate_postfix(postfix_tokens, defined) {
        Ok(x) => Ok(x),
        Err(e) => Err(CalcError::Eval(e)),
    }
}

/// Evaluating the same line twice against the same variables gives the same result:
/// nothing is carried from one call to the next.
pub proof fn evaluation_is_repeatable(
    s: Seq<char>,
    names: Seq<Seq<char>>,
    r1: Result<Expr, CalcError>,
    r2: Result<Expr, CalcError>,
)
    requires
        evaluation_is(s, names, r1),
        evaluation_is(s, names, r2),
    ensures
        r1 is Ok <==> r2 is Ok,
        r1 is Ok ==> r1->Ok_0@ == r2->Ok_0@,
        r1 is Err ==> r1->Err_0@ == r2->Err_0@,
{
}

} // verus!
