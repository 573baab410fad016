use klang::error::RuntimeErrorCode;
use klang::k::{ArithOp, Float, FloatTerm, K, K0};
use klang::sym::Sym;

fn num(i: i64) -> K {
    K::new(K0::Int(i))
}

fn ints(v: &[i64]) -> K {
    K::new(K0::IntList(v.to_vec()))
}

fn lit(text: &str) -> Float {
    Float::literal(text.as_bytes().to_vec())
}

fn flt(text: &str) -> K {
    K::new(K0::Float(lit(text)))
}

fn flts(texts: &[&str]) -> K {
    K::new(K0::FloatList(texts.iter().map(|t| lit(t)).collect()))
}

fn gen(items: Vec<K>) -> K {
    K::new(K0::GenList(items))
}

fn reduce(f: &Float) -> f64 {
    match &*f.0 {
        FloatTerm::Literal(text) => std::str::from_utf8(text).unwrap().parse().unwrap(),
        FloatTerm::FromInt(i) => *i as f64,
        FloatTerm::Neg(x) => -reduce(x),
        FloatTerm::Binary(op, x, y) => {
            let (a, b) = (reduce(x), reduce(y));
            match op {
                ArithOp::Add => a + b,
                ArithOp::Sub => a - b,
                ArithOp::Mul => a * b,
                ArithOp::Div => a / b,
            }
        }
    }
}

fn numbers(k: &K) -> Vec<f64> {
    match &*k.0 {
        K0::Float(f) => vec![reduce(f)],
        K0::FloatList(v) => v.iter().map(reduce).collect(),
        other => panic!("not made of floats: {:?}", other),
    }
}

#[test]
fn scalar_with_scalar() {
    assert_eq!(num(2).add(&num(3)), Ok(num(5)));
    assert_eq!(num(2).sub(&num(3)), Ok(num(-1)));
    assert_eq!(num(2).mul(&num(3)), Ok(num(6)));
    assert_eq!(numbers(&num(7).div(&num(2)).unwrap()), vec![3.5]);
    assert_eq!(numbers(&num(4).div(&num(2)).unwrap()), vec![2.0]);
    assert_eq!(numbers(&num(2).add(&flt("0.5")).unwrap()), vec![2.5]);
    assert_eq!(numbers(&flt("0.5").sub(&num(2)).unwrap()), vec![-1.5]);
    assert_eq!(numbers(&flt("1.5").mul(&flt("2")).unwrap()), vec![3.0]);
}

#[test]
fn float_results_are_terms() {
    assert_eq!(
        num(4).div(&num(2)),
        Ok(K::new(K0::Float(Float::from_int(4).binary(ArithOp::Div, &Float::from_int(2)))))
    );
    assert_eq!(
        flt("1.5").add(&num(1)),
        Ok(K::new(K0::Float(lit("1.5").binary(ArithOp::Add, &Float::from_int(1)))))
    );
    assert_eq!(flt("1.5").neg(), Ok(K::new(K0::Float(lit("1.5").neg()))));
}

#[test]
fn integers_wrap_around() {
    assert_eq!(num(i64::MAX).add(&num(1)), Ok(num(i64::MIN)));
    assert_eq!(num(i64::MIN).sub(&num(1)), Ok(num(i64::MAX)));
    assert_eq!(num(i64::MAX).mul(&num(2)), Ok(num(-2)));
    assert_eq!(num(i64::MIN).neg(), Ok(num(i64::MIN)));
}

#[test]
fn scalar_is_broadcast_against_a_list() {
    assert_eq!(num(10).add(&ints(&[1, 2, 3])), Ok(ints(&[11, 12, 13])));
    assert_eq!(ints(&[1, 2, 3]).add(&num(10)), Ok(ints(&[11, 12, 13])));
    assert_eq!(num(10).sub(&ints(&[1, 2, 3])), Ok(ints(&[9, 8, 7])));
    assert_eq!(ints(&[1, 2, 3]).sub(&num(10)), Ok(ints(&[-9, -8, -7])));
    assert_eq!(numbers(&num(1).div(&ints(&[2, 4])).unwrap()), vec![0.5, 0.25]);
    assert_eq!(numbers(&ints(&[2, 4]).div(&num(2)).unwrap()), vec![1.0, 2.0]);
    assert_eq!(numbers(&flt("0.5").add(&ints(&[1, 2])).unwrap()), vec![1.5, 2.5]);
    assert_eq!(numbers(&flts(&["1.5", "2.5"]).mul(&num(2)).unwrap()), vec![3.0, 5.0]);
}

#[test]
fn broadcast_item_by_item() {
    let a = num(7);
    let list = [3i64, -4, 5];
    for (name, op) in [("add", ArithOp::Add), ("sub", ArithOp::Sub), ("mul", ArithOp::Mul)] {
        let left = a.arith(op, &ints(&list)).unwrap();
        let right = ints(&list).arith(op, &a).unwrap();
        let (K0::IntList(l), K0::IntList(r)) = (&*left.0, &*right.0) else {
            panic!("{}: not lists of integers", name);
        };
        assert_eq!(l.len(), list.len());
        assert_eq!(r.len(), list.len());
        for i in 0..list.len() {
            assert_eq!(a.arith(op, &num(list[i])), Ok(num(l[i])));
            assert_eq!(num(list[i]).arith(op, &a), Ok(num(r[i])));
        }
    }
}

#[test]
fn empty_lists_keep_their_kind() {
    assert_eq!(ints(&[]).add(&num(1)), Ok(ints(&[])));
    assert_eq!(num(1).add(&ints(&[])), Ok(ints(&[])));
    assert_eq!(ints(&[]).div(&num(1)), Ok(flts(&[])));
    assert_eq!(gen(vec![]).add(&num(1)), Ok(gen(vec![])));
    assert_eq!(ints(&[]).add(&ints(&[])), Ok(ints(&[])));
}

#[test]
fn lists_combine_item_by_item() {
    assert_eq!(ints(&[1, 2]).add(&ints(&[10, 20])), Ok(ints(&[11, 22])));
    assert_eq!(ints(&[1, 2]).mul(&ints(&[10, 20])), Ok(ints(&[10, 40])));
    assert_eq!(numbers(&ints(&[1, 2]).add(&flts(&["0.5", "1.5"])).unwrap()), vec![1.5, 3.5]);
    assert_eq!(numbers(&flts(&["0.5", "1.5"]).sub(&ints(&[1, 2])).unwrap()), vec![-0.5, -0.5]);
    assert_eq!(numbers(&ints(&[1, 2]).div(&ints(&[2, 8])).unwrap()), vec![0.5, 0.25]);
}

#[test]
fn unequal_lengths_are_an_error() {
    let short = ints(&[1, 2]);
    let long = ints(&[1, 2, 3]);
    let general = gen(vec![num(1), flt("2.0"), num(3)]);
    for op in [ArithOp::Add, ArithOp::Sub, ArithOp::Mul, ArithOp::Div] {
        assert_eq!(short.arith(op, &long), Err(RuntimeErrorCode::Length));
        assert_eq!(long.arith(op, &short), Err(RuntimeErrorCode::Length));
        assert_eq!(short.arith(op, &flts(&["1", "2", "3"])), Err(RuntimeErrorCode::Length));
        assert_eq!(flts(&["1"]).arith(op, &flts(&[])), Err(RuntimeErrorCode::Length));
        assert_eq!(short.arith(op, &general), Err(RuntimeErrorCode::Length));
        assert_eq!(general.arith(op, &short), Err(RuntimeErrorCode::Length));
        assert_eq!(general.arith(op, &gen(vec![])), Err(RuntimeErrorCode::Length));
    }
}

#[test]
fn general_lists_recurse() {
    let nested = gen(vec![num(1), ints(&[10, 20])]);
    assert_eq!(num(1).add(&nested), Ok(gen(vec![num(2), ints(&[11, 21])])));
    assert_eq!(nested.add(&num(1)), Ok(gen(vec![num(2), ints(&[11, 21])])));
    assert_eq!(
        ints(&[1, 2]).add(&nested),
        Ok(gen(vec![num(2), ints(&[12, 22])]))
    );
    assert_eq!(
        nested.sub(&ints(&[1, 2])),
        Ok(gen(vec![num(0), ints(&[8, 18])]))
    );
    assert_eq!(nested.add(&nested), Ok(gen(vec![num(2), ints(&[20, 40])])));
    assert_eq!(nested.neg(), Ok(gen(vec![num(-1), ints(&[-10, -20])])));
}

#[test]
fn results_are_normalized() {
    let mixed = gen(vec![num(1), flt("1.0")]);
    assert_eq!(gen(vec![num(1), num(2)]).add(&num(1)), Ok(ints(&[2, 3])));
    assert_eq!(numbers(&mixed.add(&flt("0.5")).unwrap()), vec![1.5, 1.5]);
    assert_eq!(numbers(&mixed.div(&num(2)).unwrap()), vec![0.5, 0.5]);
}

#[test]
fn first_error_wins() {
    let bad = gen(vec![num(1), ints(&[1, 2]), K::new(K0::Nil)]);
    assert_eq!(bad.add(&ints(&[1, 2, 3])), Err(RuntimeErrorCode::Type));
    let bad = gen(vec![ints(&[1, 2]), K::new(K0::Nil)]);
    assert_eq!(bad.add(&gen(vec![ints(&[1]), num(1)])), Err(RuntimeErrorCode::Length));
    assert_eq!(num(1).add(&bad), Err(RuntimeErrorCode::Type));
}

#[test]
fn other_kinds_are_type_errors() {
    let others = [
        K::new(K0::Nil),
        K::new(K0::Char(b'a')),
        K::new(K0::Sym(Sym(0))),
        K::new(K0::Name(Sym(0))),
        K::new(K0::Verb(klang::k::Verb::Plus)),
        K::new(K0::Adverb(klang::k::Adverb::Slash)),
        K::new(K0::CharList(b"ab".to_vec())),
        K::new(K0::SymList(vec![Sym(0)])),
    ];
    for other in &others {
        assert_eq!(num(1).add(other), Err(RuntimeErrorCode::Type));
        assert_eq!(other.add(&num(1)), Err(RuntimeErrorCode::Type));
        assert_eq!(ints(&[]).add(other), Err(RuntimeErrorCode::Type));
        assert_eq!(other.mul(&ints(&[1])), Err(RuntimeErrorCode::Type));
        assert_eq!(gen(vec![]).sub(other), Err(RuntimeErrorCode::Type));
        assert_eq!(other.div(&gen(vec![])), Err(RuntimeErrorCode::Type));
        assert_eq!(other.neg(), Err(RuntimeErrorCode::Type));
    }
}

#[test]
fn negation() {
    assert_eq!(num(5).neg(), Ok(num(-5)));
    assert_eq!(ints(&[1, -2, 0]).neg(), Ok(ints(&[-1, 2, 0])));
    assert_eq!(numbers(&flts(&["1.5", "-2"]).neg().unwrap()), vec![-1.5, 2.0]);
    assert_eq!(gen(vec![]).neg(), Ok(gen(vec![])));
}

#[test]
fn lists_from_items() {
    assert_eq!(K::from_list(vec![]), gen(vec![]));
    assert_eq!(K::from_list(vec![num(1), num(2)]), ints(&[1, 2]));
    assert_eq!(K::from_list(vec![num(1)]), ints(&[1]));
    assert_eq!(K::from_list(vec![flt("1.5"), flt("2")]), flts(&["1.5", "2"]));
    assert_eq!(
        K::from_list(vec![K::new(K0::Char(b'h')), K::new(K0::Char(b'i'))]),
        K::new(K0::CharList(b"hi".to_vec()))
    );
    assert_eq!(
        K::from_list(vec![K::new(K0::Sym(Sym(1))), K::new(K0::Sym(Sym(0)))]),
        K::new(K0::SymList(vec![Sym(1), Sym(0)]))
    );
    assert_eq!(K::from_list(vec![num(1), flt("2")]), gen(vec![num(1), flt("2")]));
    assert_eq!(
        K::from_list(vec![ints(&[1]), ints(&[2])]),
        gen(vec![ints(&[1]), ints(&[2])])
    );
    assert_eq!(
        K::from_list(vec![K::new(K0::Nil), K::new(K0::Nil)]),
        gen(vec![K::new(K0::Nil), K::new(K0::Nil)])
    );
    assert_eq!(
        K::from_list(vec![K::new(K0::Name(Sym(0))), K::new(K0::Name(Sym(0)))]),
        gen(vec![K::new(K0::Name(Sym(0))), K::new(K0::Name(Sym(0)))])
    );
}

#[test]
fn a_clone_is_the_same_value() {
    let k = gen(vec![num(1), flt("2.5"), ints(&[1, 2])]);
    assert_eq!(k.clone(), k);
    let f = lit("2.5").binary(ArithOp::Mul, &Float::from_int(3));
    assert_eq!(f.clone(), f);
    assert_eq!(reduce(&f.clone()), 7.5);
}
