use klang::environ::Environment;
use klang::k::{Adverb, ArithOp, Float, FloatTerm, Verb, K, K0};
use klang::run::{run, Answer};
use klang::sym::{Interner, Sym};
use klang::text::{backticked, float_text, join, parenthesized, FloatClass};

fn reduce(f: &Float) -> f64 {
    match &*f.0 {
        FloatTerm::Literal(text) => std::str::from_utf8(text).unwrap().parse().unwrap(),
        FloatTerm::FromInt(i) => *i as f64,
        FloatTerm::Neg(x) => -reduce(x),
        FloatTerm::Binary(op, x, y) => {
            let (a, b) = (reduce(x), reduce(y));
            match op {
                ArithOp::Add => a + b,
                ArithOp::Sub => a - b,
                ArithOp::Mul => a * b,
                ArithOp::Div => a / b,
            }
        }
    }
}

fn written(f: &Float) -> String {
    let x = reduce(f);
    float_text(if x.is_nan() {
        FloatClass::Nan
    } else if x.is_infinite() && x < 0.0 {
        FloatClass::NegInfinite
    } else if x.is_infinite() {
        FloatClass::Infinite
    } else {
        FloatClass::Finite(format!("{}", x))
    })
}

fn show(k: &K, interner: &Interner) -> String {
    assert!(k.is_interned(interner));
    k.fmt(interner, &written)
}

fn shown(src: &[u8]) -> String {
    let mut env = Environment::new();
    let mut interner = Interner::new();
    match run(src, &mut env, &mut interner) {
        Answer::Value(k) => show(&k, &interner),
        other => panic!("no value: {:?}", other),
    }
}

#[test]
fn literal_int_round_trip() {
    assert_eq!(shown(b"42"), "42");
    assert_eq!(shown(b"-42"), "-42");
    assert_eq!(shown(b"0"), "0");
    assert_eq!(shown(b"9223372036854775807"), "9223372036854775807");
    assert_eq!(shown(b"-9223372036854775808"), "-9223372036854775808");
}

#[test]
fn literal_float_round_trip() {
    assert_eq!(shown(b"3.14"), "3.14");
    assert_eq!(shown(b"-0.5"), "-0.5");
    assert_eq!(shown(b"1e3"), "1000");
}

#[test]
fn literal_symbol_round_trip() {
    assert_eq!(shown(b"`abc"), "`abc");
    assert_eq!(shown(b"`a`b`a"), "`a`b`a");
    assert_eq!(shown(b"`"), "`");
}

#[test]
fn literal_string_round_trip() {
    assert_eq!(shown(b"\"hi\""), "\"hi\"");
    assert_eq!(shown(b"\"\""), "\"\"");
    assert_eq!(shown(b"\"a\\nb\""), "\"a\\nb\"");
    assert_eq!(shown(b"\"a\""), "'a'");
    assert_eq!(shown(b"\"\\n\""), "'\\n'");
}

#[test]
fn literal_list_round_trip() {
    assert_eq!(shown(b"1 2 3"), "1 2 3");
    assert_eq!(shown(b"1 -2 3"), "1 -2 3");
    assert_eq!(shown(b"1.0 2.0"), "1 2");
    assert_eq!(shown(b"1.5 2.25"), "1.5 2.25");
}

#[test]
fn floats_without_a_number() {
    assert_eq!(shown(b"0%0"), "0n");
    assert_eq!(shown(b"1%0"), "0w");
    assert_eq!(shown(b"-1%0"), "-0w");
    assert_eq!(shown(b"1 -1 0%0"), "0w -0w 0n");
}

#[test]
fn division_shows_as_float() {
    assert_eq!(shown(b"4%2"), "2");
    assert_eq!(shown(b"1%4"), "0.25");
}

#[test]
fn general_lists_in_parentheses() {
    assert_eq!(shown(b"(1;\"a\";`s;2.5)"), "(1;'a';`s;2.5)");
    assert_eq!(shown(b"()"), "()");
    assert_eq!(shown(b"(1 2;(3;\"x\"))"), "(1 2;(3;'x'))");
    assert_eq!(shown(b"(;)"), "(nil;nil)");
}

#[test]
fn verbs_and_adverbs_by_name() {
    let interner = Interner::new();
    assert_eq!(show(&K::new(K0::Verb(Verb::Plus)), &interner), "Plus");
    assert_eq!(show(&K::new(K0::Verb(Verb::ZeroColon)), &interner), "ZeroColon");
    assert_eq!(show(&K::new(K0::Adverb(Adverb::SlashColon)), &interner), "SlashColon");
    assert_eq!(show(&K::new(K0::Nil), &interner), "nil");
    assert_eq!(shown(b"+"), "Plus");
}

#[test]
fn names_show_like_symbols() {
    let mut interner = Interner::new();
    let x = Sym::new(&mut interner, b"x");
    assert_eq!(show(&K::new(K0::Name(x)), &interner), "`x");
    assert_eq!(interner.show(x), "`x");
}

#[test]
fn symbols_that_are_not_text() {
    let mut interner = Interner::new();
    let s = Sym::new(&mut interner, b"a\xffb");
    assert_eq!(interner.show(s), "`a\u{fffd}b");
    assert_eq!(show(&K::new(K0::CharList(b"a\xffb".to_vec())), &interner), "\"a\u{fffd}b\"");
}

#[test]
fn unknown_handles_are_found() {
    let mut interner = Interner::new();
    Sym::new(&mut interner, b"x");
    assert!(K::new(K0::Sym(Sym(0))).is_interned(&interner));
    assert!(!K::new(K0::Sym(Sym(1))).is_interned(&interner));
    assert!(!K::new(K0::Name(Sym(1))).is_interned(&interner));
    assert!(!K::new(K0::SymList(vec![Sym(0), Sym(7)])).is_interned(&interner));
    assert!(K::new(K0::SymList(vec![Sym(0), Sym(0)])).is_interned(&interner));
    assert!(!K::new(K0::GenList(vec![K::new(K0::Int(1)), K::new(K0::Sym(Sym(2)))]))
        .is_interned(&interner));
    assert!(K::new(K0::GenList(vec![K::new(K0::Int(1)), K::new(K0::Sym(Sym(0)))]))
        .is_interned(&interner));
}

#[test]
fn type_names() {
    assert_eq!(shown(b"@2"), "`i");
    assert_eq!(shown(b"@2.5"), "`f");
    assert_eq!(shown(b"@\"a\""), "`c");
    assert_eq!(shown(b"@`s"), "`n");
    assert_eq!(shown(b"@(+)"), "`v");
    assert_eq!(shown(b"@/"), "`a");
    assert_eq!(shown(b"@\"ab\""), "`C");
    assert_eq!(shown(b"@1 2"), "`I");
    assert_eq!(shown(b"@1.5 2"), "`F");
    assert_eq!(shown(b"@`a`b"), "`N");
    assert_eq!(shown(b"@()"), "`l");
    assert_eq!(shown(b"@(;)"), "`l");
    assert_eq!(shown(b"(@)[]"), "`nil");
}

#[test]
fn float_display_forms() {
    assert_eq!(float_text(FloatClass::Nan), "0n");
    assert_eq!(float_text(FloatClass::Infinite), "0w");
    assert_eq!(float_text(FloatClass::NegInfinite), "-0w");
    assert_eq!(float_text(FloatClass::Finite(String::from("2.5"))), "2.5");
}

#[test]
fn joining() {
    let parts = vec![String::from("a"), String::from(""), String::from("bc")];
    assert_eq!(join(&parts, ";"), "a;;bc");
    assert_eq!(join(&parts, ""), "abc");
    assert_eq!(join(&parts, ", "), "a, , bc");
    assert_eq!(join(&parts[..1].to_vec(), ";"), "a");
    assert_eq!(join(&Vec::new(), ";"), "");
    assert_eq!(backticked("name"), "`name");
    assert_eq!(backticked(""), "`");
    assert_eq!(parenthesized("1;2"), "(1;2)");
    assert_eq!(parenthesized(""), "()");
}
