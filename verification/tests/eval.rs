use klang::environ::Environment;
use klang::error::{RuntimeError, RuntimeErrorCode};
use klang::k::{ArithOp, Float, FloatTerm, K, K0};
use klang::parser::Parser;
use klang::sym::{Interner, Sym};
use klang::tok::Tokenizer;

fn eval(src: &[u8], env: &mut Environment, interner: &mut Interner) -> Result<K, RuntimeError> {
    let mut t = Tokenizer::new(src);
    let mut tokens = Vec::new();
    while let Some(item) = t.next(interner) {
        tokens.push(item.expect("lexes"));
    }
    let ast = Parser::new(tokens).parse().expect("parses").expect("not empty");
    ast.interpret(env, interner)
}

fn eval_fresh(src: &[u8]) -> Result<K, RuntimeError> {
    eval(src, &mut Environment::new(), &mut Interner::new())
}

fn reduce(f: &Float) -> f64 {
    match &*f.0 {
        FloatTerm::Literal(text) => std::str::from_utf8(text).unwrap().parse().unwrap(),
        FloatTerm::FromInt(i) => *i as f64,
        FloatTerm::Neg(x) => -reduce(x),
        FloatTerm::Binary(op, x, y) => {
            let (a, b) = (reduce(x), reduce(y));
            match op {
                ArithOp::Add => a + b,
                ArithOp::Sub => a - b,
                ArithOp::Mul => a * b,
                ArithOp::Div => a / b,
            }
        }
    }
}

#[test]
fn scenario_sum_of_ints() {
    assert_eq!(eval_fresh(b"2+3"), Ok(K::new(K0::Int(5))));
}

#[test]
fn scenario_list_plus_scalar() {
    assert_eq!(eval_fresh(b"1 2 3+10"), Ok(K::new(K0::IntList(vec![11, 12, 13]))));
}

#[test]
fn scenario_division_promotes() {
    let r = eval_fresh(b"4%2").unwrap();
    match &*r.0 {
        K0::Float(f) => {
            assert_eq!(reduce(f), 2.0);
            assert_eq!(format!("{}", reduce(f)), "2");
        }
        other => panic!("not a float: {:?}", other),
    }
}

#[test]
fn scenario_length_error_at_verb() {
    assert_eq!(
        eval_fresh(b"1 2+1 2 3"),
        Err(RuntimeError { location: 3, code: RuntimeErrorCode::Length })
    );
}

#[test]
fn scenario_type_of_int() {
    let mut interner = Interner::new();
    let r = eval(b"@2", &mut Environment::new(), &mut interner).unwrap();
    let i = Sym::new(&mut interner, b"i");
    assert_eq!(r, K::new(K0::Sym(i)));
    assert_eq!(interner.lookup(i), b"i");
}

#[test]
fn scenario_iota() {
    assert_eq!(eval_fresh(b"!5"), Ok(K::new(K0::IntList(vec![0, 1, 2, 3, 4]))));
}

#[test]
fn assignment_then_lookup() {
    let mut env = Environment::new();
    let mut interner = Interner::new();
    assert_eq!(eval(b"x:5", &mut env, &mut interner), Ok(K::new(K0::Int(5))));
    assert_eq!(eval(b"x", &mut env, &mut interner), Ok(K::new(K0::Int(5))));
    assert_eq!(
        eval(b"y", &mut env, &mut interner),
        Err(RuntimeError { location: 0, code: RuntimeErrorCode::UndefinedVariable })
    );
}

#[test]
fn right_to_left_grouping() {
    assert_eq!(eval_fresh(b"2*3+4"), Ok(K::new(K0::Int(14))));
    assert_eq!(eval_fresh(b"(2*3)+4"), Ok(K::new(K0::Int(10))));
}

#[test]
fn paren_list_is_normalized() {
    assert_eq!(eval_fresh(b"(1;2;3)"), Ok(K::new(K0::IntList(vec![1, 2, 3]))));
    assert_eq!(
        eval_fresh(b"(1;\"a\")"),
        Ok(K::new(K0::GenList(vec![K::new(K0::Int(1)), K::new(K0::Char(b'a'))])))
    );
}

#[test]
fn negate_and_subtract() {
    assert_eq!(eval_fresh(b"-1 2"), Ok(K::new(K0::IntList(vec![-1, 2]))));
    assert_eq!(eval_fresh(b"- 1 2"), Ok(K::new(K0::IntList(vec![-1, -2]))));
    assert_eq!(eval_fresh(b"5-1 2"), Ok(K::new(K0::IntList(vec![4, 3]))));
}

#[test]
fn unimplemented_forms_fail() {
    assert_eq!(
        eval_fresh(b"+1"),
        Err(RuntimeError { location: 0, code: RuntimeErrorCode::Nyi })
    );
    assert_eq!(
        eval_fresh(b"#1"),
        Err(RuntimeError { location: 0, code: RuntimeErrorCode::Nyi })
    );
    assert_eq!(
        eval_fresh(b"!1.5"),
        Err(RuntimeError { location: 0, code: RuntimeErrorCode::Type })
    );
}

#[test]
fn comma_with_one_argument_makes_a_list() {
    assert_eq!(eval_fresh(b",5"), Ok(K::new(K0::IntList(vec![5]))));
    assert_eq!(eval_fresh(b"1,2"), Ok(K::new(K0::IntList(vec![1, 2]))));
    assert_eq!(
        eval_fresh(b"1,"),
        Ok(K::new(K0::GenList(vec![K::new(K0::Int(1)), K::new(K0::Nil)])))
    );
    assert_eq!(
        eval_fresh(b"1 2,3"),
        Ok(K::new(K0::GenList(vec![K::new(K0::IntList(vec![1, 2])), K::new(K0::Int(3))])))
    );
}
