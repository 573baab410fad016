use vstd::prelude::*;

use crate::environ::Environment;
use crate::error::{ParserError, RuntimeError};
use crate::interpreter::{env_sound, eval, lemma_env_sound_grows};
use crate::k::{is_digit, Value, K};
use crate::parser::{leaf, lemma_single_token, program, Ast, Parser};
use crate::span::Spanned;
use crate::sym::{Interner, Sym};
use crate::text::{int_text, nat_text};
use crate::tok::number::{
    decimal, first_int_error, int_error, int_of, number_token, piece, run as number_run, Run,
};
use crate::tok::{
    lemma_run_end_is, lex, lex_all, number_here, tokenize, ByteClass, Error, Lexeme, Step,
    TokenView,
};

verus! {

/// What one input gives.
#[derive(Debug, PartialEq)]
pub enum Answer {
    /// The input holds no token.
    Nothing,
    /// The input holds tokens but no expression.
    Empty,
    /// The value of the input.
    Value(K),
    LexError(Error),
    ParseError(ParserError),
    RuntimeError(RuntimeError),
}

/// What an [`Answer`] stands for.
pub enum AnswerView {
    Nothing,
    Empty,
    Value(Value),
    LexError(Error),
    ParseError(ParserError),
    RuntimeError(RuntimeError),
}

impl View for Answer {
    type V = AnswerView;

    open spec fn view(&self) -> AnswerView {
        match self {
            Answer::Nothing => AnswerView::Nothing,
            Answer::Empty => AnswerView::Empty,
            Answer::Value(k) => AnswerView::Value(k@),
            Answer::LexError(e) => AnswerView::LexError(*e),
            Answer::ParseError(e) => AnswerView::ParseError(*e),
            Answer::RuntimeError(e) => AnswerView::RuntimeError(*e),
        }
    }
}

/// What running one input leaves behind: the answer, the bindings and the
/// interner's table.
pub struct Ran {
    pub answer: AnswerView,
    pub env: Map<Sym, Value>,
    pub names: Seq<Seq<u8>>,
}

/// Runs the input `src` under the bindings `env`, with the interner's table
/// `names`: the input is read into tokens, the tokens are parsed, and the
/// tree is evaluated. The first error of any stage is the answer.
pub open spec fn ran(src: Seq<u8>, env: Map<Sym, Value>, names: Seq<Seq<u8>>) -> Ran {
    let l = lex_all(src, 0, names, Seq::empty());
    match l.result {
        Err(e) => Ran { answer: AnswerView::LexError(e), env, names: l.names },
        Ok(tokens) => if tokens.len() == 0 {
            Ran { answer: AnswerView::Nothing, env, names: l.names }
        } else {
            match program(tokens, 0) {
                Err(e) => Ran { answer: AnswerView::ParseError(e), env, names: l.names },
                Ok(None) => Ran { answer: AnswerView::Empty, env, names: l.names },
                Ok(Some(ast)) => {
                    let o = eval(ast, env, l.names);
                    Ran {
                        answer: match o.result {
                            Ok(v) => AnswerView::Value(v),
                            Err(e) => AnswerView::RuntimeError(e),
                        },
                        env: o.env,
                        names: o.names,
                    }
                },
            }
        },
    }
}

/// Runs one input: see [`ran`].
pub fn run(src: &[u8], env: &mut Environment, interner: &mut Interner) -> (answer: Answer)
    requires
        old(interner).wf(),
    ensures
        final(interner).wf(),
        answer@ == ran(src@, old(env)@, old(interner)@).answer,
        final(env)@ == ran(src@, old(env)@, old(interner)@).env,
        final(interner)@ == ran(src@, old(env)@, old(interner)@).names,
        final(interner)@.len() >= old(interner)@.len(),
        env_sound(old(env)@, old(interner)@.len()) ==> env_sound(
            final(env)@,
            final(interner)@.len(),
        ) && (answer matches Answer::Value(k) ==> k@.sound(final(interner)@.len())),
{
    let ghost n0 = interner@.len();
    let tokenized = tokenize(src, interner);
    proof {
        if env_sound(env@, n0) {
            lemma_env_sound_grows(env@, n0, interner@.len());
        }
    }
    let tokens = match tokenized {
        Ok(tokens) => tokens,
        Err(e) => {
            return Answer::LexError(e);
        },
    };
    if tokens.len() == 0 {
        return Answer::Nothing;
    }
    let mut parser = Parser::new(tokens);
    let ast = match parser.parse() {
        Ok(Some(ast)) => ast,
        Ok(None) => {
            return Answer::Empty;
        },
        Err(e) => {
            return Answer::ParseError(e);
        },
    };
    match ast.interpret(env, interner) {
        Ok(k) => Answer::Value(k),
        Err(e) => Answer::RuntimeError(e),
    }
}

/// The bytes of the decimal digits of `n`, without leading zeros.
pub open spec fn nat_bytes(n: nat) -> Seq<u8>
    decreases n,
{
    if n < 10 {
        seq![(0x30 + n) as u8]
    } else {
        nat_bytes(n / 10).push((0x30 + n % 10) as u8)
    }
}

/// The bytes of the decimal text of `i`, with a `-` in front if it is
/// negative.
pub open spec fn int_bytes(i: int) -> Seq<u8> {
    if i < 0 {
        seq![0x2du8] + nat_bytes((-i) as nat)
    } else {
        nat_bytes(i as nat)
    }
}

/// The digits of a number are digits, at least one, and spell the number.
pub proof fn lemma_nat_bytes(n: nat)
    ensures
        nat_bytes(n).len() >= 1,
        forall|k: int| 0 <= k < nat_bytes(n).len() ==> is_digit(#[trigger] nat_bytes(n)[k]),
        decimal(nat_bytes(n)) == n,
        nat_text(n) == Seq::new(nat_bytes(n).len(), |k: int| nat_bytes(n)[k] as char),
    decreases n,
{
    reveal_with_fuel(decimal, 2);
    if n < 10 {
        assert(nat_bytes(n).drop_last() =~= Seq::<u8>::empty());
        assert(nat_text(n) =~= Seq::new(nat_bytes(n).len(), |k: int| nat_bytes(n)[k] as char));
    } else {
        lemma_nat_bytes(n / 10);
        let front = nat_bytes(n / 10);
        assert(nat_bytes(n).drop_last() =~= front);
        assert(nat_text(n) =~= Seq::new(nat_bytes(n).len(), |k: int| nat_bytes(n)[k] as char));
    }
}

/// Ten to the power of `k`.
pub open spec fn pow10(k: nat) -> nat
    decreases k,
{
    if k == 0 {
        1
    } else {
        10 * pow10((k - 1) as nat)
    }
}

/// A number below the `k`-th power of ten has `k` digits at most.
pub proof fn lemma_digit_count(n: nat, k: nat)
    requires
        k >= 1,
        n < pow10(k),
    ensures
        nat_bytes(n).len() <= k,
    decreases k,
{
    reveal_with_fuel(pow10, 2);
    if n >= 10 {
        lemma_digit_count(n / 10, (k - 1) as nat);
    }
}

/// An integer literal comes back as it went in: running the decimal text of
/// an integer gives that integer and changes nothing, and the display form
/// of the integer is that text again.
pub proof fn lemma_int_round_trip(i: i64, env: Map<Sym, Value>, names: Seq<Seq<u8>>)
    ensures
        ran(int_bytes(i as int), env, names) == (Ran {
            answer: AnswerView::Value(Value::Int(i)),
            env,
            names,
        }),
        int_text(i as int) == Seq::new(
            int_bytes(i as int).len(),
            |k: int| int_bytes(i as int)[k] as char,
        ),
{
    let src = int_bytes(i as int);
    let digits = if i < 0 {
        nat_bytes((-i) as nat)
    } else {
        nat_bytes(i as nat)
    };
    let a = if i < 0 {
        1int
    } else {
        0int
    };
    lemma_nat_bytes(if i < 0 {
        (-i) as nat
    } else {
        i as nat
    });
    assert(pow10(20) == 100000000000000000000) by {
        reveal_with_fuel(pow10, 21);
    }
    lemma_digit_count(if i < 0 {
        (-i) as nat
    } else {
        i as nat
    }, 20);
    assert(src.len() == digits.len() + a);
    assert(src.len() <= 21);
    assert forall|k: int| a <= k < src.len() implies is_digit(#[trigger] src[k]) by {
        assert(src[k] == digits[k - a]);
    }
    assert(int_text(i as int) =~= Seq::new(src.len(), |k: int| src[k] as char));
    if i < 0 {
        assert(src.drop_first() =~= digits);
    }
    assert(int_of(src) == i);
    // The literal is one number that ends with the input.
    let len = src.len() as int;
    lemma_run_end_is(src, a, len, ByteClass::Digit);
    lemma_run_end_is(src, len, len, ByteClass::Digit);
    assert(piece(src, 0).end == len && !piece(src, 0).float && piece(src, 0).ok);
    assert(src.subrange(0, len) =~= src);
    let texts = Seq::<Seq<u8>>::empty().push(src);
    assert(number_run(src, 0, Seq::empty(), false) == (Run {
        texts,
        float: false,
        error: None,
        end: len,
    }));
    reveal_with_fuel(first_int_error, 2);
    assert(texts[0] == src);
    assert(texts.drop_first() =~= Seq::<Seq<u8>>::empty());
    assert(int_error(src) is None);
    assert(first_int_error(texts) is None);
    let token = TokenView::Literal(Value::Int(i));
    assert(number_token(texts, false) == Ok::<TokenView, crate::tok::ErrorCode>(token));
    assert(number_here(src, 0));
    assert(lex(src, 0, names) == (Step {
        item: Some(Lexeme::Token(0, token, len)),
        pos: len,
        names,
    }));
    assert(lex(src, len, names) == (Step { item: None, pos: len, names }));
    let spanned = Spanned(0usize, token, len as usize);
    let tokens = Seq::<Spanned<TokenView>>::empty().push(spanned);
    reveal_with_fuel(lex_all, 2);
    assert(lex_all(src, 0, names, Seq::empty()).result == Ok::<Seq<Spanned<TokenView>>, Error>(
        tokens,
    ));
    assert(tokens =~= seq![spanned]);
    lemma_single_token(spanned);
    assert(leaf(spanned) == Ast::Expr(0, Value::Int(i), len));
}

} // verus!
