use vstd::prelude::*;

verus! {

/// A lexical unit of an expression line.
#[derive(Debug, Clone)]
pub enum Token {
    /// A numeric literal, kept as the digits and decimal point it was written with.
    Number(String),
    Identifier(String),
    Plus,
    Minus,
    Multiply,
    Divide,
    LeftParen,
    RightParen,
    Assign,
}

/// The mathematical view of a token: names and literals as character sequences.
pub enum SToken {
    Number(Seq<char>),
    Identifier(Seq<char>),
    Plus,
    Minus,
    Multiply,
    Divide,
    LeftParen,
    RightParen,
    Assign,
}

impl View for Token {
    type V = SToken;

    open spec fn view(&self) -> SToken {
        match self {
            Token::Number(s) => SToken::Number(s@),
            Token::Identifier(s) => SToken::Identifier(s@),
            Token::Plus => SToken::Plus,
            Token::Minus => SToken::Minus,
            Token::Multiply => SToken::Multiply,
            Token::Divide => SToken::Divide,
            Token::LeftParen => SToken::LeftParen,
            Token::RightParen => SToken::RightParen,
            Token::Assign => SToken::Assign,
        }
    }
}

/// A failure while reading characters into tokens.
#[derive(Debug, Clone)]
pub enum LexError {
    /// A character that starts no token.
    UnexpectedCharacter(char),
    /// A numeric literal with more than one decimal point.
    InvalidNumber(String),
}

/// The view of a lexical error.
pub enum SLexError {
    UnexpectedCharacter(char),
    InvalidNumber(Seq<char>),
}

impl View for LexError {
    type V = SLexError;

    open spec fn view(&self) -> SLexError {
        match self {
            LexError::UnexpectedCharacter(c) => SLexError::UnexpectedCharacter(*c),
            LexError::InvalidNumber(s) => SLexError::InvalidNumber(s@),
        }
    }
}

/// A failure while reordering tokens into postfix order.
#[derive(Debug, Clone, Copy, PartialEq, Eq, Structural)]
pub enum ParseError {
    /// A closing parenthesis with no opening one before it.
    UnmatchedParen,
    /// An `=`, which this grammar gives no meaning.
    UnexpectedAssign,
}

/// A failure while evaluating a postfix sequence.
#[derive(Debug, Clone)]
pub enum EvalError {
    /// An identifier that the environment does not define.
    UndefinedVariable(String),
    /// An operator with fewer than two operands before it.
    StackUnderflow,
    /// A parenthesis or `=` in postfix input, or a final stack of other than one value.
    MalformedExpression,
}

/// The view of an evaluation error.
pub enum SEvalError {
    UndefinedVariable(Seq<char>),
    StackUnderflow,
    MalformedExpression,
}

impl View for EvalError {
    type V = SEvalError;

    open spec fn view(&self) -> SEvalError {
        match self {
            EvalError::UndefinedVariable(s) => SEvalError::UndefinedVariable(s@),
            EvalError::StackUnderflow => SEvalError::StackUnderflow,
            EvalError::MalformedExpression => SEvalError::MalformedExpression,
        }
    }
}

/// A failure of any stage of the pipeline.
#[derive(Debug, Clone)]
pub enum CalcError {
    Lex(LexError),
    Parse(ParseError),
    Eval(EvalError),
}

/// The view of a pipeline error.
pub enum SCalcError {
    Lex(SLexError),
    Parse(ParseError),
    Eval(SEvalError),
}

impl View for CalcError {
    type V = SCalcError;

    open spec fn view(&self) -> SCalcError {
        match self {
            CalcError::Lex(e) => SCalcError::Lex(e@),
            CalcError::Parse(e) => SCalcError::Parse(*e),
            CalcError::Eval(e) => SCalcError::Eval(e@),
        }
    }
}

/// The views of a sequence of tokens.
pub open spec fn token_views(ts: Seq<Token>) -> Seq<SToken> {
    ts.map_values(|t: Token| t@)
}

/// Binding strength of an operator token; zero for everything else.
pub open spec fn prec(t: SToken) -> int {
    match t {
        SToken::Plus | SToken::Minus => 1,
        SToken::Multiply | SToken::Divide => 2,
        _ => 0,
    }
}

/// Binding strength of a token, as the converter compares it.
pub fn precedence(op: &Token) -> (r: i32)
    ensures
        r == prec(op@),
{
    match op {
        Token::Plus | Token::Minus => 1,
        Token::Multiply | Token::Divide => 2,
        _ => 0,
    }
}

impl Token {
    /// A token with the same view, its text copied.
    pub fn duplicate(&self) -> (r: Token)
        ensures
            r@ == self@,
    {
        match self {
            Token::Number(s) => Token::Number(s.clone()),
            Token::Identifier(s) => Token::Identifier(s.clone()),
            Token::Plus => Token::Plus,
            Token::Minus => Token::Minus,
            Token::Multiply => Token::Multiply,
            Token::Divide => Token::Divide,
            Token::LeftParen => Token::LeftParen,
            Token::RightParen => Token::RightParen,
            Token::Assign => Token::Assign,
        }
    }
}

/// The views of a sequence grown by one token.
pub proof fn lemma_views_push(s: Seq<Token>, t: Token)
    ensures
        token_views(s.push(t)) == token_views(s).push(t@),
{
    assert(token_views(s.push(t)) =~= token_views(s).push(t@));
}

/// The views of a sequence without its last token.
pub proof fn lemma_views_drop_last(s: Seq<Token>)
    requires
        s.len() > 0,
    ensures
        token_views(s.drop_last()) == token_views(s).drop_last(),
        token_views(s).last() == s.last()@,
{
    assert(token_views(s.drop_last()) =~= token_views(s).drop_last());
}

} // verus!
