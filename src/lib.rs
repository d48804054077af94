//! An arithmetic expression evaluator in three verified stages: a lexer from a line of text
//! to tokens, a shunting-yard converter from infix to postfix order, and a postfix evaluator
//! that builds the tree of operations, with every identifier checked against the defined
//! variables. The arithmetic on that tree is left to the caller.

pub mod token;
pub mod lexer;
pub mod postfix;
pub mod eval;
pub mod calc;
pub mod laws;
pub mod notation;
