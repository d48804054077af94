use vstd::prelude::*;
use crate::calc::evaluation;
use crate::eval::SExpr;
use crate::laws::{arithmetic, infix, op_token, standard_notation_round_trip, tree_prec, wrap};
use crate::lexer::{cons, lemma_run_end, is_digit, lex, lex_from, run_char, run_end, symbol, valid_number};
use crate::token::{SCalcError, SLexError, SToken, prec};

verus! {

/// A literal as the lexer reads one: a digit, then digits and at most one point in all.
pub open spec fn number_literal(lit: Seq<char>) -> bool {
    &&& lit.len() > 0
    &&& is_digit(lit[0])
    &&& forall|k: int| 0 <= k < lit.len() ==> run_char(#[trigger] lit[k], true)
    &&& valid_number(lit)
}

/// An arithmetic tree whose literals are all well-formed numbers.
pub open spec fn well_formed(e: SExpr) -> bool
    decreases e,
{
    match e {
        SExpr::Num(lit) => number_literal(lit),
        SExpr::Var(_) => false,
        SExpr::Bin(_, a, b) => well_formed(*a) && well_formed(*b),
    }
}

/// The character that a symbol token is written with.
pub open spec fn symbol_char(t: SToken) -> char {
    match t {
        SToken::Plus => '+',
        SToken::Minus => '-',
        SToken::Multiply => '*',
        SToken::Divide => '/',
        SToken::LeftParen => '(',
        SToken::RightParen => ')',
        _ => '=',
    }
}

/// A token that `spaced` can write: a well-formed number or a symbol.
pub open spec fn printable(t: SToken) -> bool {
    match t {
        SToken::Number(lit) => number_literal(lit),
        SToken::Identifier(_) => false,
        _ => true,
    }
}

/// The characters a token is written with.
pub open spec fn token_text(t: SToken) -> Seq<char> {
    match t {
        SToken::Number(lit) => lit,
        SToken::Identifier(x) => x,
        _ => seq![symbol_char(t)],
    }
}

/// A line that writes each token followed by a space.
pub open spec fn spaced(ts: Seq<SToken>) -> Seq<char>
    decreases ts.len(),
{
    if ts.len() == 0 {
        seq![]
    } else {
        token_text(ts[0]) + seq![' '] + spaced(ts.drop_first())
    }
}

proof fn lemma_run_end_shift(s: Seq<char>, i: int, j: int, number: bool)
    requires
        0 <= i <= j <= s.len(),
    ensures
        run_end(s, j, number) == i + run_end(s.skip(i), j - i, number),
    decreases s.len() - j,
{
    if j < s.len() {
        assert(s.skip(i)[j - i] == s[j]);
        if run_char(s[j], number) {
            lemma_run_end_shift(s, i, j + 1, number);
        }
    }
}

proof fn lemma_lex_shift(s: Seq<char>, i: int, j: int)
    requires
        0 <= i <= j <= s.len(),
    ensures
        lex_from(s, j) == lex_from(s.skip(i), j - i),
    decreases s.len() - j,
{
    let t = s.skip(i);
    if j < s.len() {
        assert(t[j - i] == s[j]);
        lemma_run_end(s, j + 1, true);
        lemma_run_end(s, j + 1, false);
        if is_digit(s[j]) {
            let k = run_end(s, j + 1, true);
            lemma_run_end_shift(s, i, j + 1, true);
            assert(s.subrange(j, k) =~= t.subrange(j - i, k - i));
            lemma_lex_shift(s, i, k);
        } else if ('a' <= s[j] <= 'z') || ('A' <= s[j] <= 'Z') {
            let k = run_end(s, j + 1, false);
            lemma_run_end_shift(s, i, j + 1, false);
            assert(s.subrange(j, k) =~= t.subrange(j - i, k - i));
            lemma_lex_shift(s, i, k);
        } else {
            lemma_lex_shift(s, i, j + 1);
        }
    }
}

proof fn lemma_number_run(s: Seq<char>, lit: Seq<char>, j: int)
    requires
        number_literal(lit),
        lit.len() < s.len(),
        s.subrange(0, lit.len() as int) == lit,
        s[lit.len() as int] == ' ',
        1 <= j <= lit.len(),
    ensures
        run_end(s, j, true) == lit.len(),
    decreases lit.len() - j,
{
    if j < lit.len() {
        assert(s[j] == lit[j]);
        lemma_number_run(s, lit, j + 1);
    }
}

proof fn lemma_lex_spaced(ts: Seq<SToken>)
    requires
        forall|k: int| 0 <= k < ts.len() ==> printable(#[trigger] ts[k]),
    ensures
        lex(spaced(ts)) == Ok::<Seq<SToken>, SLexError>(ts),
    decreases ts.len(),
{
    if ts.len() > 0 {
        let t = ts[0];
        let rest = ts.drop_first();
        assert(printable(t));
        assert forall|k: int| 0 <= k < rest.len() implies printable(#[trigger] rest[k]) by {
            assert(rest[k] == ts[k + 1]);
        }
        lemma_lex_spaced(rest);
        let s = spaced(ts);
        let w = token_text(t);
        let n = w.len() as int;
        assert(s[n] == ' ');
        assert(s.skip(n + 1) =~= spaced(rest));
        lemma_lex_shift(s, n + 1, n + 1);
        assert(lex_from(s, n + 1) == lex(spaced(rest)));
        assert(seq![t] + rest =~= ts);
        assert(lex_from(s, n + 1) == Ok::<Seq<SToken>, SLexError>(rest));
        match t {
            SToken::Number(lit) => {
                assert(s.subrange(0, n) =~= lit);
                assert(s[0] == lit[0]);
                lemma_number_run(s, lit, 1);
                assert(lex_from(s, n) == lex_from(s, n + 1));
                assert(lex_from(s, 0) == cons(t, lex_from(s, n)));
                assert(lex(s) == Ok::<Seq<SToken>, SLexError>(ts));
            },
            _ => {
                assert(s[0] == symbol_char(t));
                assert(symbol(symbol_char(t)) == Some(t));
                assert(lex_from(s, 0) == cons(t, lex_from(s, 1)));
                assert(n == 1);
                assert(lex_from(s, 1) == lex_from(s, 2));
                assert(lex(s) == Ok::<Seq<SToken>, SLexError>(ts));
            },
        }
    } else {
        assert(spaced(ts) =~= seq![]);
        assert(ts =~= seq![]);
    }
}

proof fn lemma_infix_printable(e: SExpr)
    requires
        well_formed(e),
    ensures
        arithmetic(e),
        forall|k: int| 0 <= k < infix(e).len() ==> printable(#[trigger] infix(e)[k]),
    decreases e,
{
    if let SExpr::Bin(op, a, b) = e {
        lemma_infix_printable(*a);
        lemma_infix_printable(*b);
        let p = prec(op_token(op));
        let wa = wrap(*a, tree_prec(*a) < p, infix(*a));
        let wb = wrap(*b, tree_prec(*b) <= p, infix(*b));
        assert forall|k: int| 0 <= k < wa.len() implies printable(#[trigger] wa[k]) by {
            if tree_prec(*a) < p && 0 < k < wa.len() - 1 {
                assert(wa[k] == infix(*a)[k - 1]);
            }
        }
        assert forall|k: int| 0 <= k < wb.len() implies printable(#[trigger] wb[k]) by {
            if tree_prec(*b) <= p && 0 < k < wb.len() - 1 {
                assert(wb[k] == infix(*b)[k - 1]);
            }
        }
        let all = wa + seq![op_token(op)] + wb;
        assert(infix(e) == all);
        assert forall|k: int| 0 <= k < all.len() implies printable(#[trigger] all[k]) by {
            if k < wa.len() {
                assert(all[k] == wa[k]);
            } else if k > wa.len() {
                assert(all[k] == wb[k - wa.len() - 1]);
            }
        }
    }
}

/// Any arithmetic tree with well-formed literals, written as a line in standard notation
/// with a space after each token, is read, converted and evaluated back into that same tree,
/// whatever variables are defined: the line means what ordinary arithmetic says it means.
pub proof fn text_round_trip(e: SExpr, names: Seq<Seq<char>>)
    requires
        well_formed(e),
    ensures
        evaluation(spaced(infix(e)), names) == Ok::<SExpr, SCalcError>(e),
{
    lemma_infix_printable(e);
    lemma_lex_spaced(infix(e));
    standard_notation_round_trip(e, names);
}

} // verus!
