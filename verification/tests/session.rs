use klang::environ::{define_variable, get_variable, Environment};
use klang::error::{ParserError, ParserErrorCode, RuntimeError, RuntimeErrorCode};
use klang::k::{Verb, K, K0};
use klang::parser::ASTNode;
use klang::span::Spanned;
use klang::run::{run, Answer};
use klang::sym::{Interner, Sym};
use klang::tok::{Error, ErrorCode};
use klang::util::TrimEnd;

fn num(i: i64) -> K {
    K::new(K0::Int(i))
}

#[test]
fn environment_keeps_the_last_definition() {
    let mut env = Environment::new();
    let (x, y) = (Sym(0), Sym(1));
    assert_eq!(env.get(x), None);
    env.define(x, &num(1));
    env.define(y, &num(2));
    assert_eq!(env.get(x), Some(num(1)));
    env.define(x, &num(3));
    assert_eq!(env.get(x), Some(num(3)));
    assert_eq!(env.get(y), Some(num(2)));
    define_variable(&mut env, y, &num(4));
    assert_eq!(get_variable(&env, y), Some(num(4)));
    assert_eq!(get_variable(&env, Sym(2)), None);
}

#[test]
fn run_answers() {
    let mut env = Environment::new();
    let mut interner = Interner::new();
    assert_eq!(run(b"", &mut env, &mut interner), Answer::Nothing);
    assert_eq!(run(b"  \t ", &mut env, &mut interner), Answer::Nothing);
    assert_eq!(run(b"/ only a comment", &mut env, &mut interner), Answer::Nothing);
    assert_eq!(run(b"2+3", &mut env, &mut interner), Answer::Value(num(5)));
    assert_eq!(
        run(b"2+\"abc", &mut env, &mut interner),
        Answer::LexError(Error { location: 2, code: ErrorCode::UnterminatedString })
    );
    assert_eq!(
        run(b"2+(3", &mut env, &mut interner),
        Answer::ParseError(ParserError { location: 2, code: ParserErrorCode::UnclosedParens })
    );
    assert_eq!(
        run(b"2+`a", &mut env, &mut interner),
        Answer::RuntimeError(RuntimeError { location: 1, code: RuntimeErrorCode::Type })
    );
}

#[test]
fn bindings_last_from_input_to_input() {
    let mut env = Environment::new();
    let mut interner = Interner::new();
    assert_eq!(run(b"x:5", &mut env, &mut interner), Answer::Value(num(5)));
    assert_eq!(run(b"y:x+1", &mut env, &mut interner), Answer::Value(num(6)));
    assert_eq!(run(b"x:x*y", &mut env, &mut interner), Answer::Value(num(30)));
    assert_eq!(run(b"x", &mut env, &mut interner), Answer::Value(num(30)));
    assert_eq!(
        run(b"1+z", &mut env, &mut interner),
        Answer::RuntimeError(RuntimeError {
            location: 2,
            code: RuntimeErrorCode::UndefinedVariable
        })
    );
}

#[test]
fn lists_of_expressions_give_the_last() {
    let mut env = Environment::new();
    let mut interner = Interner::new();
    assert_eq!(run(b"a:1;b:2;a+b", &mut env, &mut interner), Answer::Value(num(3)));
    assert_eq!(run(b"a:7;", &mut env, &mut interner), Answer::Value(K::new(K0::Nil)));
    assert_eq!(run(b"a", &mut env, &mut interner), Answer::Value(num(7)));
    assert_eq!(run(b"[a:8;a+1]", &mut env, &mut interner), Answer::Value(num(9)));
    assert_eq!(run(b";", &mut env, &mut interner), Answer::Value(K::new(K0::Nil)));
}

#[test]
fn an_error_keeps_earlier_bindings() {
    let mut env = Environment::new();
    let mut interner = Interner::new();
    assert_eq!(
        run(b"a:1;b:2+`s;a:3", &mut env, &mut interner),
        Answer::RuntimeError(RuntimeError { location: 7, code: RuntimeErrorCode::Type })
    );
    assert_eq!(run(b"a", &mut env, &mut interner), Answer::Value(num(1)));
    assert_eq!(
        run(b"b", &mut env, &mut interner),
        Answer::RuntimeError(RuntimeError {
            location: 0,
            code: RuntimeErrorCode::UndefinedVariable
        })
    );
}

#[test]
fn arguments_are_evaluated_from_left_to_right() {
    let mut env = Environment::new();
    let mut interner = Interner::new();
    assert_eq!(
        run(b"(a:1;a:2;a)", &mut env, &mut interner),
        Answer::Value(K::new(K0::IntList(vec![1, 2, 2])))
    );
    assert_eq!(run(b"a", &mut env, &mut interner), Answer::Value(num(2)));
}

#[test]
fn assignment_wants_a_name_and_a_value() {
    let mut env = Environment::new();
    let mut interner = Interner::new();
    assert_eq!(
        run(b"(1):2", &mut env, &mut interner),
        Answer::RuntimeError(RuntimeError { location: 3, code: RuntimeErrorCode::NameExpected })
    );
    assert_eq!(
        run(b"x:", &mut env, &mut interner),
        Answer::RuntimeError(RuntimeError {
            location: 0,
            code: RuntimeErrorCode::ExpressionExpected
        })
    );
}

#[test]
fn wrong_number_of_arguments() {
    let mut env = Environment::new();
    let mut interner = Interner::new();
    assert_eq!(
        run(b"+[1;2;3]", &mut env, &mut interner),
        Answer::RuntimeError(RuntimeError { location: 0, code: RuntimeErrorCode::Nyi })
    );
    assert_eq!(
        run(b"1!2", &mut env, &mut interner),
        Answer::RuntimeError(RuntimeError { location: 1, code: RuntimeErrorCode::Nyi })
    );
    assert_eq!(
        run(b"1 2", &mut env, &mut interner),
        Answer::Value(K::new(K0::IntList(vec![1, 2])))
    );
    assert_eq!(
        run(b"(1)2", &mut env, &mut interner),
        Answer::RuntimeError(RuntimeError { location: 1, code: RuntimeErrorCode::Nyi })
    );
}

#[test]
fn conditional_is_not_implemented() {
    let mut env = Environment::new();
    let mut interner = Interner::new();
    assert_eq!(
        run(b"$[1;x:2;3]", &mut env, &mut interner),
        Answer::RuntimeError(RuntimeError { location: 0, code: RuntimeErrorCode::Nyi })
    );
    assert_eq!(
        run(b"x", &mut env, &mut interner),
        Answer::RuntimeError(RuntimeError {
            location: 0,
            code: RuntimeErrorCode::UndefinedVariable
        })
    );
}

#[test]
fn counting() {
    let mut env = Environment::new();
    let mut interner = Interner::new();
    assert_eq!(
        run(b"!0", &mut env, &mut interner),
        Answer::Value(K::new(K0::IntList(vec![])))
    );
    assert_eq!(
        run(b"!-3", &mut env, &mut interner),
        Answer::Value(K::new(K0::IntList(vec![])))
    );
    assert_eq!(
        run(b"1+!3", &mut env, &mut interner),
        Answer::Value(K::new(K0::IntList(vec![1, 2, 3])))
    );
}

#[test]
fn runtime_error_new() {
    let e = RuntimeError::new(4, RuntimeErrorCode::Rank);
    assert_eq!(e.location, 4);
    assert_eq!(e.code, RuntimeErrorCode::Rank);
}

#[test]
fn trimming() {
    assert_eq!(b"abc  \t\r\n".to_vec().trim_end(), b"abc");
    assert_eq!(b"  a b \x0c".to_vec().trim_end(), b"  a b");
    assert_eq!(b" \n\t".to_vec().trim_end(), b"");
    assert_eq!(b"".to_vec().trim_end(), b"");
    assert_eq!(b"abc".to_vec().trim_end(), b"abc");
    assert_eq!(b"abc\x0b".to_vec().trim_end(), b"abc\x0b");
    let slice: &[u8] = b"x \n";
    assert_eq!(slice.trim_end(), b"x");
}

#[test]
fn rank_errors() {
    let mut env = Environment::new();
    let mut interner = Interner::new();
    assert_eq!(
        run(b":5", &mut env, &mut interner),
        Answer::RuntimeError(RuntimeError { location: 0, code: RuntimeErrorCode::Rank })
    );
    let leaf = |k: K0| Some(ASTNode::Expr(Spanned(9, K::new(k), 9)));
    for verb in [Verb::Plus, Verb::Minus, Verb::Star, Verb::Percent] {
        let callee = ASTNode::Expr(Spanned(4, K::new(K0::Verb(verb)), 5));
        let node = ASTNode::Apply(Spanned(
            2,
            (Box::new(callee), vec![leaf(K0::Int(1)), leaf(K0::Int(2)), leaf(K0::Int(3))]),
            9,
        ));
        assert_eq!(
            node.interpret(&mut env, &mut interner),
            Err(RuntimeError { location: 4, code: RuntimeErrorCode::Rank })
        );
    }
}

#[test]
fn a_verb_without_arguments_is_itself() {
    let mut env = Environment::new();
    let mut interner = Interner::new();
    for verb in [Verb::Plus, Verb::Hash, Verb::Colon] {
        let callee = ASTNode::Expr(Spanned(0, K::new(K0::Verb(verb)), 1));
        let node = ASTNode::Apply(Spanned(0, (Box::new(callee), vec![]), 1));
        assert_eq!(node.interpret(&mut env, &mut interner), Ok(K::new(K0::Verb(verb))));
    }
}
