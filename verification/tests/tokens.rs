use klang::error::{IntErrorKind, LexerError, LexerErrorCode};
use klang::k::{Adverb, Float, FloatTerm, Verb};
use klang::span::Spanned;
use klang::sym::{Interner, Sym};
use klang::tok::{tokenize, Error, ErrorCode, Token, Tokenizer};

fn lex_all(src: &[u8], interner: &mut Interner) -> Vec<Result<Spanned<Token>, Error>> {
    let mut t = Tokenizer::new(src);
    let mut out = Vec::new();
    while let Some(item) = t.next(interner) {
        out.push(item);
    }
    out
}

fn kinds(src: &[u8]) -> Vec<Token> {
    let mut interner = Interner::new();
    tokenize(src, &mut interner)
        .expect("lexes")
        .into_iter()
        .map(|t| t.1)
        .collect()
}

fn first_error(src: &[u8]) -> Error {
    let mut interner = Interner::new();
    tokenize(src, &mut interner).expect_err("does not lex")
}

fn lit(text: &[u8]) -> Float {
    Float::new(FloatTerm::Literal(text.to_vec()))
}

#[test]
fn lex_infix_sum() {
    let mut interner = Interner::new();
    let toks = lex_all(b"2+3", &mut interner);
    assert_eq!(
        toks,
        vec![
            Ok(Spanned(0, Token::Int(2), 1)),
            Ok(Spanned(1, Token::Verb(Verb::Plus), 2)),
            Ok(Spanned(2, Token::Int(3), 3)),
        ]
    );
}

#[test]
fn lex_number_list_and_negative() {
    let mut interner = Interner::new();
    let toks = lex_all(b"1 -2 3+10", &mut interner);
    assert_eq!(
        toks,
        vec![
            Ok(Spanned(0, Token::IntList(vec![1, -2, 3]), 6)),
            Ok(Spanned(6, Token::Verb(Verb::Plus), 7)),
            Ok(Spanned(7, Token::Int(10), 9)),
        ]
    );
}

#[test]
fn lex_float_run() {
    assert_eq!(kinds(b"1 2.5"), vec![Token::FloatList(vec![lit(b"1"), lit(b"2.5")])]);
    assert_eq!(kinds(b"3.14"), vec![Token::Float(lit(b"3.14"))]);
    assert_eq!(kinds(b".5"), vec![Token::Float(lit(b".5"))]);
    assert_eq!(kinds(b"1."), vec![Token::Float(lit(b"1."))]);
    assert_eq!(kinds(b"-.5"), vec![Token::Float(lit(b"-.5"))]);
    assert_eq!(kinds(b"1e5"), vec![Token::Float(lit(b"1e5"))]);
    assert_eq!(kinds(b"1E5"), vec![Token::Float(lit(b"1E5"))]);
    assert_eq!(kinds(b"1.5e-3 2e+7"), vec![Token::FloatList(vec![lit(b"1.5e-3"), lit(b"2e+7")])]);
}

#[test]
fn lex_punctuation() {
    assert_eq!(
        kinds(b"(){}[];"),
        vec![
            Token::LtParen,
            Token::RtParen,
            Token::LtBrace,
            Token::RtBrace,
            Token::LtBracket,
            Token::RtBracket,
            Token::Semi,
        ]
    );
}

#[test]
fn lex_every_verb() {
    let verbs = kinds(b":+-*%&|^=<>$,#_~!?@.");
    let expected = vec![
        Verb::Colon,
        Verb::Plus,
        Verb::Minus,
        Verb::Star,
        Verb::Percent,
        Verb::And,
        Verb::Pipe,
        Verb::Caret,
        Verb::Eq,
        Verb::Lt,
        Verb::Gt,
        Verb::Dollar,
        Verb::Comma,
        Verb::Hash,
        Verb::Underscore,
        Verb::Tilde,
        Verb::Bang,
        Verb::Question,
        Verb::At,
        Verb::Dot,
    ];
    assert_eq!(verbs, expected.into_iter().map(Token::Verb).collect::<Vec<_>>());
}

#[test]
fn lex_two_byte_verbs() {
    assert_eq!(
        kinds(b"0:1:2:"),
        vec![
            Token::Verb(Verb::ZeroColon),
            Token::Verb(Verb::OneColon),
            Token::Verb(Verb::TwoColon),
        ]
    );
    assert_eq!(kinds(b"3:"), vec![Token::Int(3), Token::Verb(Verb::Colon)]);
    assert_eq!(kinds(b"0"), vec![Token::Int(0)]);
}

#[test]
fn lex_adverbs() {
    assert_eq!(
        kinds(b"+'+':+/+/:+\\+\\:"),
        vec![
            Token::Verb(Verb::Plus),
            Token::Adverb(Adverb::Quote),
            Token::Verb(Verb::Plus),
            Token::Adverb(Adverb::QuoteColon),
            Token::Verb(Verb::Plus),
            Token::Adverb(Adverb::Slash),
            Token::Verb(Verb::Plus),
            Token::Adverb(Adverb::SlashColon),
            Token::Verb(Verb::Plus),
            Token::Adverb(Adverb::Backslash),
            Token::Verb(Verb::Plus),
            Token::Adverb(Adverb::BackslashColon),
        ]
    );
}

#[test]
fn lex_comments() {
    assert_eq!(kinds(b"/ a comment"), vec![]);
    assert_eq!(kinds(b"1 / a comment\n2"), vec![Token::Int(1), Token::Semi, Token::Int(2)]);
    assert_eq!(kinds(b"1 /: still a comment"), vec![Token::Int(1)]);
    assert_eq!(kinds(b"+/1"), vec![Token::Verb(Verb::Plus), Token::Adverb(Adverb::Slash), Token::Int(1)]);
}

#[test]
fn lex_blanks_and_newlines() {
    let mut interner = Interner::new();
    assert_eq!(
        lex_all(b" \t1\r\x0c \n\n\n 2", &mut interner),
        vec![
            Ok(Spanned(2, Token::Int(1), 3)),
            Ok(Spanned(6, Token::Semi, 9)),
            Ok(Spanned(10, Token::Int(2), 11)),
        ]
    );
    assert_eq!(lex_all(b"   ", &mut interner), vec![]);
    assert_eq!(lex_all(b"", &mut interner), vec![]);
}

#[test]
fn lex_symbols() {
    let mut interner = Interner::new();
    let toks = lex_all(b"`abc `a`b.c`a `", &mut interner);
    let abc = Sym::new(&mut interner, b"abc");
    let a = Sym::new(&mut interner, b"a");
    let bc = Sym::new(&mut interner, b"b.c");
    let empty = Sym::new(&mut interner, b"");
    assert_eq!(
        toks,
        vec![
            Ok(Spanned(0, Token::Sym(abc), 4)),
            Ok(Spanned(5, Token::SymList(vec![a, bc, a]), 13)),
            Ok(Spanned(14, Token::Sym(empty), 15)),
        ]
    );
    assert_eq!(interner.len(), 4);
    assert_eq!(interner.lookup(bc), b"b.c");
}

#[test]
fn lex_identifiers() {
    let mut interner = Interner::new();
    let toks = lex_all(b"x1 yz x1", &mut interner);
    let x1 = Sym::new(&mut interner, b"x1");
    let yz = Sym::new(&mut interner, b"yz");
    assert_eq!(
        toks,
        vec![
            Ok(Spanned(0, Token::Identifier(x1), 2)),
            Ok(Spanned(3, Token::Identifier(yz), 5)),
            Ok(Spanned(6, Token::Identifier(x1), 8)),
        ]
    );
    assert_eq!(interner.len(), 2);
}

#[test]
fn lex_strings() {
    assert_eq!(kinds(b"\"hi\""), vec![Token::CharList(b"hi".to_vec())]);
    assert_eq!(kinds(b"\"a\""), vec![Token::Char(b'a')]);
    assert_eq!(kinds(b"\"\""), vec![Token::CharList(vec![])]);
    assert_eq!(
        kinds(b"\"a\\\"b\\\\c\\nd\\re\\tf\""),
        vec![Token::CharList(b"a\"b\\c\nd\re\tf".to_vec())]
    );
    assert_eq!(kinds(b"\"\\n\""), vec![Token::Char(b'\n')]);
}

#[test]
fn lex_string_errors() {
    assert_eq!(first_error(b"1+\"abc"), Error { location: 2, code: ErrorCode::UnterminatedString });
    assert_eq!(first_error(b"\"abc\\"), Error { location: 0, code: ErrorCode::UnterminatedEscape });
    assert_eq!(first_error(b"\"a\\qb\""), Error { location: 0, code: ErrorCode::UnrecognizedEscape });
}

#[test]
fn lex_number_errors() {
    assert_eq!(
        first_error(b"1e"),
        Error { location: 0, code: ErrorCode::UnterminatedFloatExponent }
    );
    assert_eq!(
        first_error(b"1 2e+"),
        Error { location: 2, code: ErrorCode::UnterminatedFloatExponent }
    );
    assert_eq!(first_error(b"1a"), Error { location: 0, code: ErrorCode::InvalidNumber });
    assert_eq!(first_error(b"1.2.3"), Error { location: 0, code: ErrorCode::InvalidNumber });
    assert_eq!(first_error(b"7 12x"), Error { location: 2, code: ErrorCode::InvalidNumber });
    assert_eq!(
        first_error(b"9223372036854775808"),
        Error { location: 0, code: ErrorCode::ParseIntError(IntErrorKind::PosOverflow) }
    );
    assert_eq!(
        first_error(b"1 -9223372036854775809"),
        Error { location: 0, code: ErrorCode::ParseIntError(IntErrorKind::NegOverflow) }
    );
    assert_eq!(
        first_error(b"1 -99999999999999999999999 99999999999999999999999"),
        Error { location: 0, code: ErrorCode::ParseIntError(IntErrorKind::NegOverflow) }
    );
}

#[test]
fn lex_integer_limits() {
    assert_eq!(kinds(b"9223372036854775807"), vec![Token::Int(i64::MAX)]);
    assert_eq!(kinds(b"-9223372036854775808"), vec![Token::Int(i64::MIN)]);
    assert_eq!(kinds(b"007 -0"), vec![Token::IntList(vec![7, 0])]);
    assert_eq!(
        kinds(b"000000000000000000000000000012"),
        vec![Token::Int(12)]
    );
}

#[test]
fn lex_minus_is_sign_or_verb() {
    let mut interner = Interner::new();
    let x = Sym::new(&mut interner, b"x");
    assert_eq!(kinds(b"-1"), vec![Token::Int(-1)]);
    assert_eq!(
        kinds(b"x-1"),
        vec![Token::Identifier(x), Token::Verb(Verb::Minus), Token::Int(1)]
    );
    assert_eq!(kinds(b"x -1"), vec![Token::Identifier(x), Token::Int(-1)]);
    assert_eq!(kinds(b"2-1"), vec![Token::Int(2), Token::Verb(Verb::Minus), Token::Int(1)]);
    assert_eq!(
        kinds(b"(2)-1"),
        vec![
            Token::LtParen,
            Token::Int(2),
            Token::RtParen,
            Token::Verb(Verb::Minus),
            Token::Int(1)
        ]
    );
    assert_eq!(kinds(b"+-1"), vec![Token::Verb(Verb::Plus), Token::Int(-1)]);
    assert_eq!(kinds(b"-x"), vec![Token::Verb(Verb::Minus), Token::Identifier(x)]);
    assert_eq!(kinds(b"1 - 2"), vec![Token::Int(1), Token::Verb(Verb::Minus), Token::Int(2)]);
}

#[test]
fn lex_dot_is_number_or_verb() {
    assert_eq!(kinds(b"."), vec![Token::Verb(Verb::Dot)]);
    assert_eq!(kinds(b".5"), vec![Token::Float(lit(b".5"))]);
}

#[test]
fn lex_space_ends_a_number_run() {
    assert_eq!(
        kinds(b"1  2"),
        vec![Token::Int(1), Token::Int(2)]
    );
    assert_eq!(
        kinds(b"1 -"),
        vec![Token::Int(1), Token::Verb(Verb::Minus)]
    );
}

#[test]
fn lex_unrecognized_token() {
    assert_eq!(first_error(b"1+\x01"), Error { location: 2, code: ErrorCode::UnrecognizedToken });
    assert_eq!(first_error(b"\xff"), Error { location: 0, code: ErrorCode::UnrecognizedToken });
}

#[test]
fn lexing_goes_on_after_an_error() {
    let mut interner = Interner::new();
    assert_eq!(
        lex_all(b"\x01 2", &mut interner),
        vec![
            Err(Error { location: 0, code: ErrorCode::UnrecognizedToken }),
            Ok(Spanned(2, Token::Int(2), 3)),
        ]
    );
}

#[test]
fn error_in_the_shared_form() {
    let e = Error { location: 7, code: ErrorCode::InvalidNumber };
    assert_eq!(e.located(), LexerError { location: 7, code: LexerErrorCode::InvalidNumber });
    let e = Error { location: 0, code: ErrorCode::ParseIntError(IntErrorKind::NegOverflow) };
    assert_eq!(
        e.located(),
        LexerError { location: 0, code: LexerErrorCode::ParseIntError(IntErrorKind::NegOverflow) }
    );
}

#[test]
fn token_from_vectors() {
    assert_eq!(Token::from_bytes(vec![b'x']), Token::Char(b'x'));
    assert_eq!(Token::from_bytes(vec![]), Token::CharList(vec![]));
    assert_eq!(Token::from_ints(vec![4]), Token::Int(4));
    assert_eq!(Token::from_ints(vec![4, 5]), Token::IntList(vec![4, 5]));
    assert_eq!(Token::from_floats(vec![lit(b"1.5")]), Token::Float(lit(b"1.5")));
    assert_eq!(Token::from_syms(vec![Sym(3)]), Token::Sym(Sym(3)));
    assert_eq!(Token::from_syms(vec![Sym(3), Sym(3)]), Token::SymList(vec![Sym(3), Sym(3)]));
}
