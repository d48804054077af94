use vstd::prelude::*;
use vstd::std_specs::iter::IteratorSpec;
use crate::token::{LexError, SLexError, SToken, Token, token_views};

verus! {

/// What `char::is_alphanumeric` returns: whether a character is alphabetic or numeric in Unicode.
pub uninterp spec fn alphanumeric(c: char) -> bool;

/// Relies on `char::is_alphanumeric`: its result is the Unicode property named by `alphanumeric`.
pub assume_specification[ char::is_alphanumeric ](c: char) -> (r: bool)
    ensures
        r == alphanumeric(c),
;

/// Relies on `String::push`: the character is appended at the end.
pub assume_specification[ String::push ](s: &mut String, ch: char)
    ensures
        final(s)@ == old(s)@.push(ch),
;

/// An ASCII decimal digit, which starts a numeric literal.
pub open spec fn is_digit(c: char) -> bool {
    '0' <= c <= '9'
}

/// An ASCII letter, which starts an identifier.
pub open spec fn is_letter(c: char) -> bool {
    ('a' <= c <= 'z') || ('A' <= c <= 'Z')
}

/// A character that may continue a numeric literal (`number`) or an identifier (`!number`).
pub open spec fn run_char(c: char, number: bool) -> bool {
    if number {
        is_digit(c) || c == '.'
    } else {
        alphanumeric(c) || c == '_'
    }
}

/// The end of the longest run of continuation characters starting at `i`.
pub open spec fn run_end(s: Seq<char>, i: int, number: bool) -> int
    decreases s.len() - i,
{
    if 0 <= i < s.len() && run_char(s[i], number) {
        run_end(s, i + 1, number)
    } else {
        i
    }
}

/// The number of decimal points in a literal.
pub open spec fn dot_count(s: Seq<char>) -> nat
    decreases s.len(),
{
    if s.len() == 0 {
        0
    } else {
        dot_count(s.drop_last()) + if s.last() == '.' { 1nat } else { 0nat }
    }
}

/// A literal of digits and points is a number when it has at most one point.
pub open spec fn valid_number(lit: Seq<char>) -> bool {
    dot_count(lit) <= 1
}

/// The token that a one-character symbol stands for.
pub open spec fn symbol(c: char) -> Option<SToken> {
    if c == '+' {
        Some(SToken::Plus)
    } else if c == '-' {
        Some(SToken::Minus)
    } else if c == '*' {
        Some(SToken::Multiply)
    } else if c == '/' {
        Some(SToken::Divide)
    } else if c == '(' {
        Some(SToken::LeftParen)
    } else if c == ')' {
        Some(SToken::RightParen)
    } else if c == '=' {
        Some(SToken::Assign)
    } else {
        None
    }
}

/// Puts one token in front of the tokens of the rest of the line.
pub open spec fn cons(t: SToken, rest: Result<Seq<SToken>, SLexError>) -> Result<Seq<SToken>, SLexError> {
    match rest {
        Ok(ts) => Ok(seq![t] + ts),
        Err(e) => Err(e),
    }
}

/// The tokens of `s` from position `i` on, or the first error met scanning left to right.
pub open spec fn lex_from(s: Seq<char>, i: int) -> Result<Seq<SToken>, SLexError>
    decreases s.len() - i,
    via lex_from_decreases
{
    if i < 0 || i >= s.len() {
        Ok(seq![])
    } else if is_digit(s[i]) {
        let j = run_end(s, i + 1, true);
        let lit = s.subrange(i, j);
        if valid_number(lit) {
            cons(SToken::Number(lit), lex_from(s, j))
        } else {
            Err(SLexError::InvalidNumber(lit))
        }
    } else if is_letter(s[i]) {
        let j = run_end(s, i + 1, false);
        cons(SToken::Identifier(s.subrange(i, j)), lex_from(s, j))
    } else if s[i] == ' ' {
        lex_from(s, i + 1)
    } else {
        match symbol(s[i]) {
            Some(t) => cons(t, lex_from(s, i + 1)),
            None => Err(SLexError::UnexpectedCharacter(s[i])),
        }
    }
}

/// The tokens of a whole line.
pub open spec fn lex(s: Seq<char>) -> Result<Seq<SToken>, SLexError> {
    lex_from(s, 0)
}

/// A run ends within the line, and every character before its end continues it.
pub proof fn lemma_run_end(s: Seq<char>, i: int, number: bool)
    requires
        0 <= i <= s.len(),
    ensures
        i <= run_end(s, i, number) <= s.len(),
        forall|k: int| i <= k < run_end(s, i, number) ==> run_char(#[trigger] s[k], number),
    decreases s.len() - i,
{
    if i < s.len() && run_char(s[i], number) {
        lemma_run_end(s, i + 1, number);
    }
}

#[via_fn]
proof fn lex_from_decreases(s: Seq<char>, i: int) {
    if 0 <= i < s.len() {
        lemma_run_end(s, i + 1, true);
        lemma_run_end(s, i + 1, false);
    }
}

fn chars_of(s: &str) -> (v: Vec<char>)
    ensures
        v@ == s@,
{
    broadcast use vstd::string::axiom_spec_iter, vstd::string::next_postcondition;
    let mut it = s.chars();
    let mut v: Vec<char> = Vec::new();
    loop
        invariant
            v@ + it.remaining() == s@,
            it.obeys_prophetic_iter_laws(),
            it.decrease() is Some,
        ensures
            v@ == s@,
        decreases it.decrease()->0,
    {
        let ghost old_it = it;
        match it.next() {
            Some(c) => {
                assert(v@.push(c) + it.remaining() =~= v@ + old_it.remaining());
                v.push(c);
            },
            None => {
                assert(v@ + it.remaining() =~= v@);
                break;
            },
        }
    }
    v
}

/// Puts the tokens already read in front of the result for the rest of the line.
pub open spec fn prepend(ts: Seq<SToken>, rest: Result<Seq<SToken>, SLexError>) -> Result<Seq<SToken>, SLexError> {
    match rest {
        Ok(more) => Ok(ts + more),
        Err(e) => Err(e),
    }
}

/// Whether `r` is what lexing `s` gives.
pub open spec fn lexes_to(s: Seq<char>, r: Result<Vec<Token>, LexError>) -> bool {
    match r {
        Ok(ts) => lex(s) == Ok::<Seq<SToken>, SLexError>(token_views(ts@)),
        Err(e) => lex(s) == Err::<Seq<SToken>, SLexError>(e@),
    }
}

proof fn lemma_prepend_cons(ts: Seq<SToken>, t: SToken, rest: Result<Seq<SToken>, SLexError>)
    ensures
        prepend(ts, cons(t, rest)) == prepend(ts.push(t), rest),
{
    if let Ok(more) = rest {
        assert(ts + (seq![t] + more) =~= ts.push(t) + more);
    }
}

fn run_char_exec(c: char, number: bool) -> (r: bool)
    ensures
        r == run_char(c, number),
{
    if number {
        ('0' <= c && c <= '9') || c == '.'
    } else {
        c.is_alphanumeric() || c == '_'
    }
}

fn symbol_token(c: char) -> (r: Option<Token>)
    ensures
        symbol(c) == match r {
            Some(t) => Some(t@),
            None => None::<SToken>,
        },
{
    match c {
        '+' => Some(Token::Plus),
        '-' => Some(Token::Minus),
        '*' => Some(Token::Multiply),
        '/' => Some(Token::Divide),
        '(' => Some(Token::LeftParen),
        ')' => Some(Token::RightParen),
        '=' => Some(Token::Assign),
        _ => None,
    }
}

/// Reads the run of continuation characters that follows the character at `start`.
/// Returns the run's text, including that first character, its end, and its number of points.
fn read_run(v: &Vec<char>, start: usize, number: bool) -> (r: (String, usize, usize))
    requires
        start < v.len(),
    ensures
        r.1 == run_end(v@, start + 1, number),
        r.0@ == v@.subrange(start as int, r.1 as int),
        r.2 == dot_count(r.0@),
{
    let n = v.len();
    let mut text = String::new();
    let first = v[start];
    assert(text@.push(first).drop_last() =~= text@);
    text.push(first);
    assert(dot_count(Seq::<char>::empty()) == 0);
    assert(text@.drop_last() =~= Seq::<char>::empty());
    let mut dots: usize = if first == '.' { 1 } else { 0 };
    let mut j = start + 1;
    while j < n && run_char_exec(v[j], number)
        invariant
            n == v.len(),
            start < j <= n,
            text@ == v@.subrange(start as int, j as int),
            dots == dot_count(text@),
            dots <= j - start,
            run_end(v@, start + 1, number) == run_end(v@, j as int, number),
        decreases n - j,
    {
        let c = v[j];
        assert(text@.push(c).drop_last() =~= text@);
        assert(text@.push(c) =~= v@.subrange(start as int, j + 1));
        text.push(c);
        if c == '.' {
            dots = dots + 1;
        }
        j = j + 1;
    }
    (text, j, dots)
}

fn push_token(tokens: &mut Vec<Token>, t: Token, Ghost(rest): Ghost<Result<Seq<SToken>, SLexError>>)
    ensures
        token_views(final(tokens)@) == token_views(old(tokens)@).push(t@),
        prepend(token_views(old(tokens)@), cons(t@, rest)) == prepend(token_views(final(tokens)@), rest),
{
    let ghost tv = t@;
    proof {
        lemma_prepend_cons(token_views(tokens@), tv, rest);
    }
    tokens.push(t);
    assert(token_views(tokens@) =~= token_views(old(tokens)@).push(tv));
}

/// Splits a line into tokens, left to right.
pub fn tokenize(expr: &str) -> (r: Result<Vec<Token>, LexError>)
    ensures
        lexes_to(expr@, r),
{
    let v = chars_of(expr);
    let n = v.len();
    let mut tokens: Vec<Token> = Vec::new();
    let mut i: usize = 0;
    while i < n
        invariant
            n == v.len(),
            v@ == expr@,
            i <= n,
            lex(v@) == prepend(token_views(tokens@), lex_from(v@, i as int)),
        decreases n - i,
    {
        let c = v[i];
        proof {
            lemma_run_end(v@, i + 1, true);
            lemma_run_end(v@, i + 1, false);
        }
        if '0' <= c && c <= '9' {
            let (text, j, dots) = read_run(&v, i, true);
            if dots > 1 {
                return Err(LexError::InvalidNumber(text));
            }
            push_token(&mut tokens, Token::Number(text), Ghost(lex_from(v@, j as int)));
            i = j;
        } else if ('a' <= c && c <= 'z') || ('A' <= c && c <= 'Z') {
            let (text, j, _) = read_run(&v, i, false);
            push_token(&mut tokens, Token::Identifier(text), Ghost(lex_from(v@, j as int)));
            i = j;
        } else if c == ' ' {
            i = i + 1;
        } else {
            match symbol_token(c) {
                Some(t) => {
                    push_token(&mut tokens, t, Ghost(lex_from(v@, i + 1)));
                    i = i + 1;
                },
                None => {
                    return Err(LexError::UnexpectedCharacter(c));
                },
            }
        }
    }
    assert(token_views(tokens@) + seq![] =~= token_views(tokens@));
    Ok(tokens)
}

} // verus!
