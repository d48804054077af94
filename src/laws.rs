use vstd::prelude::*;
use crate::eval::{Op, SExpr, eval_from, eval_postfix, op_of};
use crate::postfix::{flush, is_operator, postfix, pop_to_paren, pop_while, shunt};
use crate::token::{ParseError, SEvalError, SToken, prec};

verus! {

/// The operator token of an operation.
pub open spec fn op_token(op: Op) -> SToken {
    match op {
        Op::Add => SToken::Plus,
        Op::Sub => SToken::Minus,
        Op::Mul => SToken::Multiply,
        Op::Div => SToken::Divide,
    }
}

/// A tree of numbers and operations only, without variables.
pub open spec fn arithmetic(e: SExpr) -> bool
    decreases e,
{
    match e {
        SExpr::Num(_) => true,
        SExpr::Var(_) => false,
        SExpr::Bin(_, a, b) => arithmetic(*a) && arithmetic(*b),
    }
}

/// The infix tokens of a tree with every operation in parentheses.
pub open spec fn parenthesized(e: SExpr) -> Seq<SToken>
    decreases e,
{
    match e {
        SExpr::Num(lit) => seq![SToken::Number(lit)],
        SExpr::Var(x) => seq![SToken::Identifier(x)],
        SExpr::Bin(op, a, b) => seq![SToken::LeftParen] + parenthesized(*a) + seq![op_token(op)]
            + parenthesized(*b) + seq![SToken::RightParen],
    }
}

/// The postfix tokens of a tree: operands first, then the operation.
pub open spec fn postfix_of(e: SExpr) -> Seq<SToken>
    decreases e,
{
    match e {
        SExpr::Num(lit) => seq![SToken::Number(lit)],
        SExpr::Var(x) => seq![SToken::Identifier(x)],
        SExpr::Bin(op, a, b) => postfix_of(*a) + postfix_of(*b) + seq![op_token(op)],
    }
}

proof fn lemma_shunt_parenthesized(e: SExpr, ts: Seq<SToken>, i: int, ops: Seq<SToken>, out: Seq<SToken>)
    requires
        0 <= i,
        i + parenthesized(e).len() <= ts.len(),
        ts.subrange(i, i + parenthesized(e).len()) == parenthesized(e),
    ensures
        shunt(ts, i, ops, out) == shunt(ts, i + parenthesized(e).len(), ops, out + postfix_of(e)),
    decreases e,
{
    let pe = parenthesized(e);
    assert(ts[i] == ts.subrange(i, i + pe.len())[0]);
    match e {
        SExpr::Num(lit) => {
            assert(out.push(SToken::Number(lit)) =~= out + postfix_of(e));
        },
        SExpr::Var(x) => {
            assert(out.push(SToken::Identifier(x)) =~= out + postfix_of(e));
        },
        SExpr::Bin(op, a, b) => {
            let pa = parenthesized(*a);
            let la = pa.len() as int;
            let pb = parenthesized(*b);
            let lb = pb.len() as int;
            let t = op_token(op);
            let ja = i + 1;
            let jo = ja + pa.len();
            let jb = jo + 1;
            let jr = jb + pb.len();
            assert(ts.subrange(ja, jo) =~= pa) by {
                assert(ts.subrange(ja, jo) =~= pe.subrange(1, 1 + la));
            }
            assert(ts.subrange(jb, jr) =~= pb) by {
                assert(ts.subrange(jb, jr) =~= pe.subrange(2 + la, 2 + la + lb));
            }
            assert(ts[jo] == pe[1 + la]);
            assert(ts[jr] == pe[2 + la + lb]);
            let lp = ops.push(SToken::LeftParen);
            lemma_shunt_parenthesized(*a, ts, ja, lp, out);
            let oa = out + postfix_of(*a);
            assert(pop_while(lp, prec(t), oa) == (lp, oa));
            lemma_shunt_parenthesized(*b, ts, jb, lp.push(t), oa);
            let ob = oa + postfix_of(*b);
            assert(lp.push(t).drop_last() =~= lp);
            assert(lp.drop_last() =~= ops);
            assert(pop_to_paren(lp.push(t), ob) == pop_to_paren(lp, ob.push(t)));
            assert(pop_to_paren(lp, ob.push(t)) == Some((ops, ob.push(t))));
            assert(ob.push(t) =~= out + postfix_of(e));
        },
    }
}

proof fn lemma_eval_postfix_of(e: SExpr, ts: Seq<SToken>, i: int, stack: Seq<SExpr>, names: Seq<Seq<char>>)
    requires
        arithmetic(e),
        0 <= i,
        i + postfix_of(e).len() <= ts.len(),
        ts.subrange(i, i + postfix_of(e).len()) == postfix_of(e),
    ensures
        eval_from(ts, i, stack, names) == eval_from(ts, i + postfix_of(e).len(), stack.push(e), names),
    decreases e,
{
    let pe = postfix_of(e);
    match e {
        SExpr::Num(lit) => {
            assert(ts[i] == pe[0]);
        },
        SExpr::Var(x) => {},
        SExpr::Bin(op, a, b) => {
            let pa = postfix_of(*a);
            let la = pa.len() as int;
            let pb = postfix_of(*b);
            let lb = pb.len() as int;
            let jb = i + pa.len();
            let jo = jb + pb.len();
            assert(ts.subrange(i, jb) =~= pa) by {
                assert(ts.subrange(i, jb) =~= pe.subrange(0, la));
            }
            assert(ts.subrange(jb, jo) =~= pb) by {
                assert(ts.subrange(jb, jo) =~= pe.subrange(la, la + lb));
            }
            assert(ts[jo] == pe[la + lb]);
            lemma_eval_postfix_of(*a, ts, i, stack, names);
            lemma_eval_postfix_of(*b, ts, jb, stack.push(*a), names);
            let st = stack.push(*a).push(*b);
            assert(op_of(op_token(op)) == op);
            assert(st.subrange(0, st.len() - 2) =~= stack);
            assert(SExpr::Bin(op, Box::new(st[st.len() - 2]), Box::new(st[st.len() - 1])) == e);
        },
    }
}

/// Converting the fully parenthesized tokens of an arithmetic tree to postfix and evaluating
/// the result gives back that tree: the same operations on the same operands, in the same order.
pub proof fn parenthesized_round_trip(e: SExpr, names: Seq<Seq<char>>)
    requires
        arithmetic(e),
    ensures
        postfix(parenthesized(e)) == Ok::<Seq<SToken>, ParseError>(postfix_of(e)),
        eval_postfix(postfix_of(e), names) == Ok::<SExpr, SEvalError>(e),
{
    let ts = parenthesized(e);
    assert(ts.subrange(0, ts.len() as int) =~= ts);
    lemma_shunt_parenthesized(e, ts, 0, seq![], seq![]);
    assert(seq![] + postfix_of(e) =~= postfix_of(e));
    assert(flush(seq![], postfix_of(e)) == postfix_of(e));
    let ps = postfix_of(e);
    assert(ps.subrange(0, ps.len() as int) =~= ps);
    lemma_eval_postfix_of(e, ps, 0, seq![], names);
    assert(seq![].push(e)[0] == e);
}

/// How tightly a tree binds when written without parentheses: leaves bind tightest.
pub open spec fn tree_prec(e: SExpr) -> int {
    match e {
        SExpr::Bin(op, _, _) => prec(op_token(op)),
        _ => 3,
    }
}

/// The tokens of `e`, in parentheses when `paren`.
pub open spec fn wrap(e: SExpr, paren: bool, inner: Seq<SToken>) -> Seq<SToken> {
    if paren {
        seq![SToken::LeftParen] + inner + seq![SToken::RightParen]
    } else {
        inner
    }
}

/// The infix tokens of a tree in standard notation: an operand is put in parentheses only
/// where precedence and left-to-right grouping would otherwise bind it differently.
pub open spec fn infix(e: SExpr) -> Seq<SToken>
    decreases e,
{
    match e {
        SExpr::Num(lit) => seq![SToken::Number(lit)],
        SExpr::Var(x) => seq![SToken::Identifier(x)],
        SExpr::Bin(op, a, b) => {
            let p = prec(op_token(op));
            wrap(*a, tree_prec(*a) < p, infix(*a)) + seq![op_token(op)] + wrap(
                *b,
                tree_prec(*b) <= p,
                infix(*b),
            )
        },
    }
}

/// Operators on the stack once the tokens of `e` have been read.
spec fn pending(e: SExpr) -> Seq<SToken>
    decreases e,
{
    match e {
        SExpr::Bin(op, a, b) => if tree_prec(*b) <= prec(op_token(op)) {
            seq![op_token(op)]
        } else {
            seq![op_token(op)] + pending(*b)
        },
        _ => seq![],
    }
}

/// Output written once the tokens of `e` have been read.
spec fn emitted(e: SExpr) -> Seq<SToken>
    decreases e,
{
    match e {
        SExpr::Bin(op, a, b) => {
            let p = prec(op_token(op));
            let ea = if tree_prec(*a) < p {
                postfix_of(*a)
            } else {
                emitted(*a) + drain(pending(*a))
            };
            let eb = if tree_prec(*b) <= p {
                postfix_of(*b)
            } else {
                emitted(*b)
            };
            ea + eb
        },
        _ => postfix_of(e),
    }
}

/// The operators of a stack, top first.
spec fn drain(ops: Seq<SToken>) -> Seq<SToken> {
    flush(ops, seq![])
}

proof fn lemma_flush_out(ops: Seq<SToken>, out: Seq<SToken>)
    ensures
        flush(ops, out) == out + drain(ops),
    decreases ops.len(),
{
    if ops.len() == 0 {
        assert(out + seq![] =~= out);
    } else {
        let l = ops.last();
        lemma_flush_out(ops.drop_last(), out.push(l));
        lemma_flush_out(ops.drop_last(), seq![l]);
        assert(out.push(l) + drain(ops.drop_last()) =~= out + (seq![l] + drain(ops.drop_last())));
    }
}

proof fn lemma_flush_concat(a: Seq<SToken>, b: Seq<SToken>, out: Seq<SToken>)
    ensures
        flush(a + b, out) == flush(a, out + drain(b)),
    decreases b.len(),
{
    if b.len() == 0 {
        assert(a + b =~= a);
        assert(out + seq![] =~= out);
    } else {
        let l = b.last();
        assert((a + b).drop_last() =~= a + b.drop_last());
        assert((a + b).last() == l);
        lemma_flush_concat(a, b.drop_last(), out.push(l));
        lemma_flush_out(b, out);
        lemma_flush_out(b.drop_last(), out.push(l));
    }
}

/// All of `s` are operators binding at least as tightly as `q`.
spec fn all_at_least(s: Seq<SToken>, q: int) -> bool {
    forall|k: int| 0 <= k < s.len() ==> is_operator(#[trigger] s[k]) && prec(s[k]) >= q
}

/// The stack below holds nothing that an operator of strength `q` would pop.
spec fn guarded(ops: Seq<SToken>, q: int) -> bool {
    ops.len() == 0 || prec(ops.last()) < q
}

proof fn lemma_pop_while_all(ops: Seq<SToken>, s: Seq<SToken>, q: int, out: Seq<SToken>)
    requires
        all_at_least(s, q),
        guarded(ops, q),
    ensures
        pop_while(ops + s, q, out) == (ops, out + drain(s)),
    decreases s.len(),
{
    lemma_flush_out(s, out);
    if s.len() == 0 {
        assert(ops + s =~= ops);
    } else {
        let l = s.last();
        assert((ops + s).drop_last() =~= ops + s.drop_last());
        assert((ops + s).last() == l);
        assert(s[s.len() - 1] == l);
        lemma_pop_while_all(ops, s.drop_last(), q, out.push(l));
        lemma_flush_out(s.drop_last(), out.push(l));
    }
}

proof fn lemma_pop_to_paren_all(ops: Seq<SToken>, s: Seq<SToken>, out: Seq<SToken>)
    requires
        all_at_least(s, 1),
    ensures
        pop_to_paren(ops.push(SToken::LeftParen) + s, out) == Some((ops, out + drain(s))),
    decreases s.len(),
{
    lemma_flush_out(s, out);
    let lp = ops.push(SToken::LeftParen);
    if s.len() == 0 {
        assert(lp + s =~= lp);
        assert(lp.drop_last() =~= ops);
    } else {
        let l = s.last();
        assert((lp + s).drop_last() =~= lp + s.drop_last());
        assert((lp + s).last() == l);
        assert(s[s.len() - 1] == l);
        lemma_pop_to_paren_all(ops, s.drop_last(), out.push(l));
        lemma_flush_out(s.drop_last(), out.push(l));
    }
}

proof fn lemma_sub(ts: Seq<SToken>, i: int, whole: Seq<SToken>, j: int, k: int)
    requires
        0 <= i,
        i + whole.len() <= ts.len(),
        ts.subrange(i, i + whole.len()) == whole,
        0 <= j <= k <= whole.len(),
    ensures
        ts.subrange(i + j, i + k) == whole.subrange(j, k),
        j < whole.len() ==> ts[i + j] == whole[j],
{
    assert(ts.subrange(i + j, i + k) =~= whole.subrange(j, k));
    if j < whole.len() {
        assert(ts[i + j] == ts.subrange(i, i + whole.len())[j]);
    }
}

proof fn lemma_pending_strength(e: SExpr)
    ensures
        all_at_least(pending(e), tree_prec(e)),
    decreases e,
{
    if let SExpr::Bin(op, a, b) = e {
        let p = prec(op_token(op));
        if tree_prec(*b) > p {
            lemma_pending_strength(*b);
            let s = seq![op_token(op)] + pending(*b);
            assert forall|k: int| 0 <= k < s.len() implies is_operator(#[trigger] s[k]) && prec(s[k]) >= p by {
                if k > 0 {
                    assert(s[k] == pending(*b)[k - 1]);
                }
            }
        }
    }
}

proof fn lemma_emitted_pending(e: SExpr)
    ensures
        postfix_of(e) == emitted(e) + drain(pending(e)),
    decreases e,
{
    match e {
        SExpr::Bin(op, a, b) => {
            let p = prec(op_token(op));
            let t = op_token(op);
            if tree_prec(*a) >= p {
                lemma_emitted_pending(*a);
            }
            let pb = if tree_prec(*b) <= p { Seq::<SToken>::empty() } else { pending(*b) };
            if tree_prec(*b) > p {
                lemma_emitted_pending(*b);
                assert(pending(e) == seq![t] + pb);
            } else {
                assert(pending(e) =~= seq![t] + pb);
                assert(drain(pb) =~= seq![]);
            }
            lemma_flush_concat(seq![t], pb, seq![]);
            lemma_flush_out(pb, seq![]);
            assert(seq![] + drain(pb) =~= drain(pb));
            assert(seq![t].drop_last() =~= Seq::<SToken>::empty());
            assert(seq![t].last() == t);
            assert(flush(seq![t], drain(pb)) == flush(Seq::<SToken>::empty(), drain(pb).push(t)));
            assert(emitted(e) + drain(pending(e)) =~= postfix_of(e));
        },
        _ => {
            assert(postfix_of(e) + seq![] =~= postfix_of(e));
        },
    }
}

#[verifier::rlimit(60)]
proof fn lemma_shunt_infix(e: SExpr, ts: Seq<SToken>, i: int, ops: Seq<SToken>, out: Seq<SToken>)
    requires
        0 <= i,
        i + infix(e).len() <= ts.len(),
        ts.subrange(i, i + infix(e).len()) == infix(e),
        guarded(ops, tree_prec(e)),
    ensures
        shunt(ts, i, ops, out) == shunt(ts, i + infix(e).len(), ops + pending(e), out + emitted(e)),
    decreases e, 0int,
{
    let whole = infix(e);
    lemma_sub(ts, i, whole, 0, 0);
    match e {
        SExpr::Bin(op, a, b) => {
            let p = prec(op_token(op));
            let t = op_token(op);
            let pa = tree_prec(*a) < p;
            let pb = tree_prec(*b) <= p;
            let wa = wrap(*a, pa, infix(*a));
            let wb = wrap(*b, pb, infix(*b));
            let la = wa.len() as int;
            let lb = wb.len() as int;
            assert(whole == wa + seq![t] + wb);
            lemma_sub(ts, i, whole, 0, la);
            assert(whole.subrange(0, la) =~= wa);
            lemma_sub(ts, i, whole, la, la + 1);
            assert(whole[la] == t);
            lemma_sub(ts, i, whole, la + 1, la + 1 + lb);
            assert(whole.subrange(la + 1, la + 1 + lb) =~= wb);
            // the left operand
            let sa = if pa { Seq::<SToken>::empty() } else { pending(*a) };
            let ea = if pa { postfix_of(*a) } else { emitted(*a) };
            if pa {
                lemma_shunt_wrapped(*a, ts, i, ops, out);
                assert(ops + sa =~= ops);
            } else {
                lemma_shunt_infix(*a, ts, i, ops, out);
                lemma_pending_strength(*a);
            }
            assert(shunt(ts, i, ops, out) == shunt(ts, i + la, ops + sa, out + ea));
            // the operator
            lemma_pop_while_all(ops, sa, p, out + ea);
            let oa = out + ea + drain(sa);
            if pa {
                assert(drain(sa) =~= seq![]);
                assert(oa =~= out + ea);
            }
            assert(shunt(ts, i + la, ops + sa, out + ea) == shunt(ts, i + la + 1, ops.push(t), oa));
            // the right operand
            let sb = if pb { Seq::<SToken>::empty() } else { pending(*b) };
            let eb = if pb { postfix_of(*b) } else { emitted(*b) };
            if pb {
                lemma_shunt_wrapped(*b, ts, i + la + 1, ops.push(t), oa);
                assert(ops.push(t) + sb =~= ops.push(t));
            } else {
                lemma_shunt_infix(*b, ts, i + la + 1, ops.push(t), oa);
            }
            assert(ops.push(t) + sb =~= ops + pending(e));
            assert(oa + eb =~= out + emitted(e));
        },
        SExpr::Num(lit) => {
            assert(ops + pending(e) =~= ops);
            assert(out.push(SToken::Number(lit)) =~= out + emitted(e));
        },
        SExpr::Var(x) => {
            assert(ops + pending(e) =~= ops);
            assert(out.push(SToken::Identifier(x)) =~= out + emitted(e));
        },
    }
}

proof fn lemma_shunt_wrapped(e: SExpr, ts: Seq<SToken>, i: int, ops: Seq<SToken>, out: Seq<SToken>)
    requires
        0 <= i,
        i + infix(e).len() + 2 <= ts.len(),
        ts.subrange(i, i + infix(e).len() + 2) == wrap(e, true, infix(e)),
    ensures
        shunt(ts, i, ops, out) == shunt(ts, i + infix(e).len() + 2, ops, out + postfix_of(e)),
    decreases e, 1int,
{
    let inner = infix(e);
    let whole = wrap(e, true, inner);
    let n = inner.len() as int;
    assert(whole.len() == n + 2);
    lemma_sub(ts, i, whole, 0, 0);
    lemma_sub(ts, i, whole, 1, 1 + n);
    assert(whole.subrange(1, 1 + n) =~= inner);
    lemma_sub(ts, i, whole, 1 + n, 1 + n);
    let lp = ops.push(SToken::LeftParen);
    lemma_shunt_infix(e, ts, i + 1, lp, out);
    lemma_pending_strength(e);
    lemma_pop_to_paren_all(ops, pending(e), out + emitted(e));
    lemma_emitted_pending(e);
    assert(out + emitted(e) + drain(pending(e)) =~= out + postfix_of(e));
}

/// Written in standard notation, with parentheses only where precedence and left-to-right
/// grouping need them, an arithmetic tree is converted and evaluated back into that same tree:
/// the converter groups by precedence and from the left, as ordinary arithmetic does.
pub proof fn standard_notation_round_trip(e: SExpr, names: Seq<Seq<char>>)
    requires
        arithmetic(e),
    ensures
        postfix(infix(e)) == Ok::<Seq<SToken>, ParseError>(postfix_of(e)),
        eval_postfix(postfix(infix(e))->Ok_0, names) == Ok::<SExpr, SEvalError>(e),
{
    let ts = infix(e);
    assert(ts.subrange(0, ts.len() as int) =~= ts);
    lemma_shunt_infix(e, ts, 0, seq![], seq![]);
    assert(seq![] + pending(e) =~= pending(e));
    assert(seq![] + emitted(e) =~= emitted(e));
    lemma_flush_out(pending(e), emitted(e));
    lemma_emitted_pending(e);
    parenthesized_round_trip(e, names);
}

/// Parentheses that standard notation does not need change nothing: an arithmetic tree fully
/// parenthesized and the same tree in standard notation convert to the same postfix sequence.
pub proof fn redundant_parentheses_change_nothing(e: SExpr)
    requires
        arithmetic(e),
    ensures
        postfix(parenthesized(e)) == postfix(infix(e)),
{
    parenthesized_round_trip(e, seq![]);
    standard_notation_round_trip(e, seq![]);
}

} // verus!
