//! Evaluation core of a small array language in the K family: a byte cursor,
//! a tokenizer, a recursive-descent parser, a symbol interner, a tagged value
//! type with broadcasting arithmetic, and a tree-walking evaluator.
//!
//! An input goes through three stages: [`tok::tokenize`] reads bytes into
//! tokens, [`parser::Parser::parse`] builds the syntax tree, and
//! [`parser::ASTNode::interpret`] evaluates it. [`run::run`] does all three.
//! Each stage has a mathematical description of what it computes
//! ([`tok::lex`], [`parser::program`], [`interpreter::eval`]), and the code
//! is proved to compute just that.
//!
//! All state that an evaluation touches, the interner and the variable
//! environment, is passed in explicitly by the host.
//!
//! Floating-point numbers are carried as the terms that denote them (see
//! [`k::FloatTerm`]): the evaluator decides which operations apply to which
//! operands, and the host reduces a term to a number when it needs one, to
//! display it for instance (see [`k::K::fmt`]).

pub mod environ;
pub mod error;
pub mod interpreter;
pub mod k;
pub mod parser;
pub mod run;
pub mod span;
pub mod stream;
pub mod sym;
pub mod text;
pub mod tok;
pub mod util;
