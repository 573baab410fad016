use klang::error::{ParserError, ParserErrorCode};
use klang::k::{Verb, K, K0};
use klang::parser::{ASTNode, Parser};
use klang::span::Spanned;
use klang::sym::{Interner, Sym};
use klang::tok::tokenize;

fn parse(src: &[u8]) -> Result<Option<ASTNode>, ParserError> {
    let mut interner = Interner::new();
    let tokens = tokenize(src, &mut interner).expect("lexes");
    Parser::new(tokens).parse()
}

fn tree(src: &[u8]) -> ASTNode {
    parse(src).expect("parses").expect("not empty")
}

fn num(s: usize, i: i64, e: usize) -> ASTNode {
    ASTNode::Expr(Spanned(s, K::new(K0::Int(i)), e))
}

fn verb(s: usize, v: Verb, e: usize) -> ASTNode {
    ASTNode::Expr(Spanned(s, K::new(K0::Verb(v)), e))
}

fn apply(s: usize, callee: ASTNode, args: Vec<Option<ASTNode>>, e: usize) -> ASTNode {
    ASTNode::Apply(Spanned(s, (Box::new(callee), args), e))
}

#[test]
fn parse_single_literal() {
    assert_eq!(tree(b"42"), num(0, 42, 2));
    assert_eq!(tree(b" 42"), num(1, 42, 3));
}

#[test]
fn parse_infix() {
    assert_eq!(
        tree(b"2+3"),
        apply(0, verb(1, Verb::Plus, 2), vec![Some(num(0, 2, 1)), Some(num(2, 3, 3))], 3)
    );
}

#[test]
fn parse_groups_to_the_right() {
    let inner = apply(2, verb(3, Verb::Plus, 4), vec![Some(num(2, 3, 3)), Some(num(4, 4, 5))], 5);
    assert_eq!(
        tree(b"2*3+4"),
        apply(0, verb(1, Verb::Star, 2), vec![Some(num(0, 2, 1)), Some(inner)], 5)
    );
}

#[test]
fn parse_verb_without_right_side() {
    assert_eq!(
        tree(b"2+"),
        apply(0, verb(1, Verb::Plus, 2), vec![Some(num(0, 2, 1)), None], 2)
    );
}

#[test]
fn parse_juxtaposition() {
    assert_eq!(
        tree(b"!5"),
        apply(0, verb(0, Verb::Bang, 1), vec![Some(num(1, 5, 2))], 2)
    );
    assert_eq!(tree(b"+"), verb(0, Verb::Plus, 1));
}

#[test]
fn parse_name() {
    let mut interner = Interner::new();
    let tokens = tokenize(b"x:5", &mut interner).unwrap();
    let x = Sym::new(&mut interner, b"x");
    let ast = Parser::new(tokens).parse().unwrap().unwrap();
    assert_eq!(
        ast,
        apply(
            0,
            verb(1, Verb::Colon, 2),
            vec![Some(ASTNode::Expr(Spanned(0, K::new(K0::Name(x)), 1))), Some(num(2, 5, 3))],
            3
        )
    );
}

#[test]
fn parse_parentheses() {
    assert_eq!(tree(b"(7)"), num(1, 7, 2));
    assert_eq!(tree(b"()"), ASTNode::Expr(Spanned(0, K::new(K0::GenList(vec![])), 2)));
    assert_eq!(
        tree(b"(1;2;3)"),
        apply(
            0,
            verb(0, Verb::Comma, 0),
            vec![Some(num(1, 1, 2)), Some(num(3, 2, 4)), Some(num(5, 3, 6))],
            7
        )
    );
    assert_eq!(
        tree(b"(;2)"),
        apply(0, verb(0, Verb::Comma, 0), vec![None, Some(num(2, 2, 3))], 4)
    );
}

#[test]
fn parse_brackets() {
    assert_eq!(
        tree(b"[1;2]"),
        ASTNode::ExprList(Spanned(0, vec![Some(num(1, 1, 2)), Some(num(3, 2, 4))], 5))
    );
    assert_eq!(tree(b"[]"), ASTNode::ExprList(Spanned(0, vec![None], 2)));
}

#[test]
fn parse_program_of_several() {
    assert_eq!(
        tree(b"1;2"),
        ASTNode::ExprList(Spanned(0, vec![Some(num(0, 1, 1)), Some(num(2, 2, 3))], 3))
    );
    assert_eq!(
        tree(b"1\n\n2"),
        ASTNode::ExprList(Spanned(0, vec![Some(num(0, 1, 1)), Some(num(3, 2, 4))], 4))
    );
}

#[test]
fn list_span_is_that_of_its_present_slots() {
    assert_eq!(
        tree(b";7;"),
        ASTNode::ExprList(Spanned(1, vec![None, Some(num(1, 7, 2)), None], 2))
    );
    assert_eq!(tree(b";"), ASTNode::ExprList(Spanned(0, vec![None, None], 1)));
}

#[test]
fn parse_nothing() {
    let mut parser = Parser::new(Vec::new());
    assert_eq!(parser.parse(), Ok(None));
}

#[test]
fn parse_errors() {
    assert_eq!(
        parse(b"1+(2;3"),
        Err(ParserError { location: 2, code: ParserErrorCode::UnclosedParens })
    );
    assert_eq!(
        parse(b"[1;2"),
        Err(ParserError { location: 0, code: ParserErrorCode::UnclosedBrackets })
    );
    assert_eq!(
        parse(b"1 2)"),
        Err(ParserError { location: 3, code: ParserErrorCode::UnexpectedToken })
    );
    assert_eq!(
        parse(b"(1]"),
        Err(ParserError { location: 0, code: ParserErrorCode::UnclosedParens })
    );
}

#[test]
fn node_spans() {
    let t = tree(b" 12+(3;4)");
    assert_eq!(t.start(), 1);
    assert_eq!(t.end(), 9);
}
