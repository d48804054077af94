use vstd::prelude::*;
use crate::token::{
    ParseError, SToken, Token, lemma_views_drop_last, lemma_views_push, prec, precedence,
    token_views,
};

verus! {

/// Moves operators from the top of `ops` to `out` while they bind at least as tightly as `p`.
/// Returns the remaining operators and the extended output.
pub open spec fn pop_while(ops: Seq<SToken>, p: int, out: Seq<SToken>) -> (Seq<SToken>, Seq<SToken>)
    decreases ops.len(),
{
    if ops.len() > 0 && prec(ops.last()) >= p {
        pop_while(ops.drop_last(), p, out.push(ops.last()))
    } else {
        (ops, out)
    }
}

/// Moves operators from the top of `ops` to `out` until a `LeftParen`, which is dropped.
/// `None` when the stack runs out first.
pub open spec fn pop_to_paren(ops: Seq<SToken>, out: Seq<SToken>) -> Option<(Seq<SToken>, Seq<SToken>)>
    decreases ops.len(),
{
    if ops.len() == 0 {
        None
    } else if ops.last() is LeftParen {
        Some((ops.drop_last(), out))
    } else {
        pop_to_paren(ops.drop_last(), out.push(ops.last()))
    }
}

/// Appends the operators left on the stack to the output, top first.
pub open spec fn flush(ops: Seq<SToken>, out: Seq<SToken>) -> Seq<SToken>
    decreases ops.len(),
{
    if ops.len() == 0 {
        out
    } else {
        flush(ops.drop_last(), out.push(ops.last()))
    }
}

/// One of the four binary operator tokens.
pub open spec fn is_operator(t: SToken) -> bool {
    t is Plus || t is Minus || t is Multiply || t is Divide
}

/// The shunting-yard conversion of `ts` from position `i` on, with operator stack `ops`
/// and output so far `out`.
pub open spec fn shunt(ts: Seq<SToken>, i: int, ops: Seq<SToken>, out: Seq<SToken>) -> Result<Seq<SToken>, ParseError>
    decreases ts.len() - i,
{
    if i < 0 || i >= ts.len() {
        Ok(flush(ops, out))
    } else {
        let t = ts[i];
        if t is Number || t is Identifier {
            shunt(ts, i + 1, ops, out.push(t))
        } else if is_operator(t) {
            let (rest, out2) = pop_while(ops, prec(t), out);
            shunt(ts, i + 1, rest.push(t), out2)
        } else if t is LeftParen {
            shunt(ts, i + 1, ops.push(t), out)
        } else if t is RightParen {
            match pop_to_paren(ops, out) {
                Some((rest, out2)) => shunt(ts, i + 1, rest, out2),
                None => Err(ParseError::UnmatchedParen),
            }
        } else {
            Err(ParseError::UnexpectedAssign)
        }
    }
}

/// The postfix order of an infix token sequence.
pub open spec fn postfix(ts: Seq<SToken>) -> Result<Seq<SToken>, ParseError> {
    shunt(ts, 0, seq![], seq![])
}

/// Whether `r` is what converting `ts` gives.
pub open spec fn converts_to(ts: Seq<SToken>, r: Result<Vec<Token>, ParseError>) -> bool {
    match r {
        Ok(out) => postfix(ts) == Ok::<Seq<SToken>, ParseError>(token_views(out@)),
        Err(e) => postfix(ts) == Err::<Seq<SToken>, ParseError>(e),
    }
}

fn move_top(ops: &mut Vec<Token>, output: &mut Vec<Token>)
    requires
        old(ops).len() > 0,
    ensures
        final(ops)@.len() == old(ops)@.len() - 1,
        token_views(final(ops)@) == token_views(old(ops)@).drop_last(),
        token_views(final(output)@) == token_views(old(output)@).push(token_views(old(ops)@).last()),
{
    proof {
        lemma_views_drop_last(ops@);
    }
    match ops.pop() {
        Some(top) => {
            proof {
                lemma_views_push(output@, top);
            }
            output.push(top);
        },
        None => {},
    }
}

/// Reorders infix tokens into postfix order by the shunting-yard method.
pub fn to_postfix(tokens: Vec<Token>) -> (r: Result<Vec<Token>, ParseError>)
    ensures
        converts_to(token_views(tokens@), r),
{
    let ghost ts = token_views(tokens@);
    let mut output: Vec<Token> = Vec::new();
    let mut operators: Vec<Token> = Vec::new();
    let n = tokens.len();
    let mut i: usize = 0;
    assert(token_views(operators@) =~= seq![]);
    assert(token_views(output@) =~= seq![]);
    while i < n
        invariant
            n == tokens.len(),
            ts == token_views(tokens@),
            i <= n,
            postfix(ts) == shunt(ts, i as int, token_views(operators@), token_views(output@)),
        decreases n - i,
    {
        let token = &tokens[i];
        match token {
            Token::Number(_) | Token::Identifier(_) => {
                let t = token.duplicate();
                proof {
                    lemma_views_push(output@, t);
                }
                output.push(t);
            },
            Token::Plus | Token::Minus | Token::Multiply | Token::Divide => {
                let p = precedence(token);
                let ghost start = (token_views(operators@), token_views(output@));
                while operators.len() > 0 && precedence(&operators[operators.len() - 1]) >= p
                    invariant
                        n == tokens.len(),
                        ts == token_views(tokens@),
                        i < n,
                        p == prec(ts[i as int]),
                        is_operator(ts[i as int]),
                        postfix(ts) == shunt(ts, i as int, start.0, start.1),
                        pop_while(start.0, p as int, start.1) == pop_while(
                            token_views(operators@),
                            p as int,
                            token_views(output@),
                        ),
                    decreases operators.len(),
                {
                    proof {
                        lemma_views_drop_last(operators@);
                    }
                    move_top(&mut operators, &mut output);
                }
                proof {
                    if operators.len() > 0 {
                        lemma_views_drop_last(operators@);
                    }
                }
                let t = token.duplicate();
                proof {
                    lemma_views_push(operators@, t);
                }
                operators.push(t);
            },
            Token::LeftParen => {
                proof {
                    lemma_views_push(operators@, Token::LeftParen);
                }
                operators.push(Token::LeftParen);
            },
            Token::RightParen => {
                let ghost start = (token_views(operators@), token_views(output@));
                loop
                    invariant_except_break
                        pop_to_paren(start.0, start.1) == pop_to_paren(
                            token_views(operators@),
                            token_views(output@),
                        ),
                    invariant
                        n == tokens.len(),
                        ts == token_views(tokens@),
                        i < n,
                        ts[i as int] is RightParen,
                        postfix(ts) == shunt(ts, i as int, start.0, start.1),
                    ensures
                        pop_to_paren(start.0, start.1) == Some(
                            (token_views(operators@), token_views(output@)),
                        ),
                    decreases operators.len(),
                {
                    if operators.len() == 0 {
                        return Err(ParseError::UnmatchedParen);
                    }
                    proof {
                        lemma_views_drop_last(operators@);
                    }
                    if matches!(operators[operators.len() - 1], Token::LeftParen) {
                        let _ = operators.pop();
                        break;
                    }
                    move_top(&mut operators, &mut output);
                }
            },
            Token::Assign => {
                return Err(ParseError::UnexpectedAssign);
            },
        }
        i = i + 1;
    }
    while operators.len() > 0
        invariant
            postfix(ts) == Ok::<Seq<SToken>, ParseError>(flush(token_views(operators@), token_views(output@))),
        decreases operators.len(),
    {
        move_top(&mut operators, &mut output);
    }
    Ok(output)
}

} // verus!
