use vstd::prelude::*;

use crate::error::IntErrorKind;
use crate::k::{digits_end, is_decimal, is_digit, FloatView, Value};
use crate::tok::stream::byte_at;
use crate::tok::{is_alpha, lemma_run_end, run_end, ByteClass, ErrorCode, TokenView};

verus! {

/// One number of a numeric literal, as far as it could be read: where
/// reading stopped, whether it has a fraction or an exponent, and whether it
/// is complete (`false` where an exponent lacks its digits).
pub struct Piece {
    pub end: int,
    pub float: bool,
    pub ok: bool,
}

/// Reads one number at `q`: an optional `-`, digits, an optional `.` and
/// more digits, and an optional exponent: `e` or `E`, an optional sign, and
/// digits, of which there must be one at least.
pub open spec fn piece(src: Seq<u8>, q: int) -> Piece {
    let a = if byte_at(src, q) == Some(0x2du8) {
        q + 1
    } else {
        q
    };
    let b = run_end(src, a, ByteClass::Digit);
    let dot = byte_at(src, b) == Some(0x2eu8);
    let c = if dot {
        b + 1
    } else {
        b
    };
    let d = run_end(src, c, ByteClass::Digit);
    if byte_at(src, d) == Some(0x65u8) || byte_at(src, d) == Some(0x45u8) {
        let s = d + 1;
        let e = if byte_at(src, s) == Some(0x2bu8) || byte_at(src, s) == Some(0x2du8) {
            s + 1
        } else {
            s
        };
        let f = run_end(src, e, ByteClass::Digit);
        Piece { end: f, float: true, ok: f > e }
    } else {
        Piece { end: d, float: dot, ok: true }
    }
}

/// Whether a number can start at `p`: with a digit, or with a `.` that a
/// digit follows.
pub open spec fn num_start(src: Seq<u8>, p: int) -> bool {
    match byte_at(src, p) {
        Some(c) => is_digit(c) || (c == 0x2e && (byte_at(src, p + 1) matches Some(d) && is_digit(d))),
        None => false,
    }
}

/// A numeric literal as far as it could be read: the texts of its numbers,
/// whether any of them has a fraction or an exponent, the error if there is
/// one, with the offset of the number it was found in, and where reading
/// stopped.
pub struct Run {
    pub texts: Seq<Seq<u8>>,
    pub float: bool,
    pub error: Option<(int, ErrorCode)>,
    pub end: int,
}

/// Reads the numbers of a literal from `q` on, `texts` and `float` being
/// what the numbers before `q` gave. After a number, one space and then a
/// number (whose `-` may come first) continue the literal; a `.` or a letter
/// right after a number is an error; anything else ends the literal.
pub open spec fn run(src: Seq<u8>, q: int, texts: Seq<Seq<u8>>, float: bool) -> Run
    decreases src.len() - q,
{
    let pc = piece(src, q);
    let float = float || pc.float;
    if !pc.ok {
        Run { texts, float, error: Some((q, ErrorCode::UnterminatedFloatExponent)), end: pc.end }
    } else {
        let texts = texts.push(src.subrange(q, pc.end));
        match byte_at(src, pc.end) {
            Some(c) => if c == 0x20 {
                let q2 = pc.end + 1;
                let q3 = if byte_at(src, q2) == Some(0x2du8) {
                    q2 + 1
                } else {
                    q2
                };
                if num_start(src, q3) && q2 > q {
                    run(src, q2, texts, float)
                } else {
                    Run { texts, float, error: None, end: pc.end }
                }
            } else if c == 0x2e || is_alpha(c) {
                Run { texts, float, error: Some((q, ErrorCode::InvalidNumber)), end: pc.end }
            } else {
                Run { texts, float, error: None, end: pc.end }
            },
            None => Run { texts, float, error: None, end: pc.end },
        }
    }
}

/// The number that the digits `s` spell in base ten; 0 for no digits.
pub open spec fn decimal(s: Seq<u8>) -> nat
    decreases s.len(),
{
    if s.len() == 0 {
        0
    } else {
        (decimal(s.drop_last()) * 10 + (s.last() - 0x30)) as nat
    }
}

/// The integer that `text` spells: a `-` in front negates what follows.
pub open spec fn int_of(text: Seq<u8>) -> int {
    if text.len() > 0 && text[0] == 0x2d {
        -(decimal(text.drop_first()) as int)
    } else {
        decimal(text) as int
    }
}

pub open spec fn fits_i64(v: int) -> bool {
    -0x8000_0000_0000_0000 <= v <= 0x7fff_ffff_ffff_ffff
}

/// Why the integer that `text` spells has no value, if it does not fit in
/// 64 bits.
pub open spec fn int_error(text: Seq<u8>) -> Option<IntErrorKind> {
    if fits_i64(int_of(text)) {
        None
    } else if int_of(text) < 0 {
        Some(IntErrorKind::NegOverflow)
    } else {
        Some(IntErrorKind::PosOverflow)
    }
}

/// The error of the first of `texts` that has one.
pub open spec fn first_int_error(texts: Seq<Seq<u8>>) -> Option<IntErrorKind>
    decreases texts.len(),
{
    if texts.len() == 0 {
        None
    } else {
        match int_error(texts[0]) {
            Some(kind) => Some(kind),
            None => first_int_error(texts.drop_first()),
        }
    }
}

/// The token of a numeric literal that was read without error: of floats if
/// any of its numbers has a fraction or an exponent, else of integers; a
/// single number if there is one, else a list. An integer that does not fit
/// in 64 bits is an error, and the first such integer says which.
pub open spec fn number_token(texts: Seq<Seq<u8>>, float: bool) -> Result<TokenView, ErrorCode> {
    if float {
        if texts.len() == 1 {
            Ok(TokenView::Literal(Value::Float(FloatView::Literal(texts[0]))))
        } else {
            Ok(
                TokenView::Literal(
                    Value::FloatList(Seq::new(texts.len(), |i: int| FloatView::Literal(texts[i]))),
                ),
            )
        }
    } else {
        match first_int_error(texts) {
            Some(kind) => Err(ErrorCode::ParseIntError(kind)),
            None => if texts.len() == 1 {
                Ok(TokenView::Literal(Value::Int(int_of(texts[0]) as i64)))
            } else {
                Ok(
                    TokenView::Literal(
                        Value::IntList(Seq::new(texts.len(), |i: int| int_of(texts[i]) as i64)),
                    ),
                )
            },
        }
    }
}

/// The integer that `text` spells, or why it has none. `text` is a run of
/// digits, with or without a `-` in front.
pub fn parse_int(text: &[u8]) -> (r: Result<i64, IntErrorKind>)
    requires
        forall|i: int| 1 <= i < text@.len() ==> is_digit(#[trigger] text@[i]),
        text@.len() > 0 ==> is_digit(text@[0]) || text@[0] == 0x2d,
    ensures
        r is Ok <==> fits_i64(int_of(text@)),
        r matches Ok(v) ==> v == int_of(text@),
        r matches Err(kind) ==> int_error(text@) == Some(kind),
{
    let negative = text.len() > 0 && text[0] == 0x2d;
    let from: usize = if negative {
        1
    } else {
        0
    };
    let ghost digits = if negative {
        text@.drop_first()
    } else {
        text@
    };
    let mut acc: u64 = 0;
    let mut over = false;
    let mut i: usize = from;
    assert(digits.take(0) =~= Seq::<u8>::empty());
    while i < text.len()
        invariant
            from <= i <= text@.len(),
            digits.len() == text@.len() - from,
            forall|j: int| 0 <= j < digits.len() ==> #[trigger] digits[j] == text@[j + from],
            forall|j: int| 0 <= j < digits.len() ==> is_digit(#[trigger] digits[j]),
            !over ==> acc == decimal(digits.take(i - from)) && acc <= 0x8000_0000_0000_0000,
            over ==> decimal(digits.take(i - from)) > 0x8000_0000_0000_0000,
        decreases text@.len() - i,
    {
        assert(is_digit(digits[i - from]) && digits[i - from] == text@[i as int]);
        let d: u64 = (text[i] - 0x30) as u64;
        proof {
            assert(digits.take(i - from + 1).drop_last() =~= digits.take(i - from));
            assert(digits.take(i - from + 1).last() == text@[i as int]);
            assert(is_digit(digits[i - from]));
        }
        if !over {
            if acc > 0xccc_cccc_cccc_cccc {
                over = true;
            } else {
                let next: u64 = acc * 10 + d;
                if next > 0x8000_0000_0000_0000 {
                    over = true;
                } else {
                    acc = next;
                }
            }
        }
        i += 1;
    }
    assert(digits.take(i - from) =~= digits);
    if over {
        if negative {
            Err(IntErrorKind::NegOverflow)
        } else {
            Err(IntErrorKind::PosOverflow)
        }
    } else if negative {
        if acc == 0x8000_0000_0000_0000 {
            Ok(i64::MIN)
        } else {
            Ok(0 - (acc as i64))
        }
    } else if acc == 0x8000_0000_0000_0000 {
        Err(IntErrorKind::PosOverflow)
    } else {
        Ok(acc as i64)
    }
}

/// Whether a number can be read at `q`: a number can start there, or
/// behind the `-` that stands there.
pub open spec fn piece_start(src: Seq<u8>, q: int) -> bool {
    0 <= q < src.len() && num_start(src, if src[q] == 0x2d {
        q + 1
    } else {
        q
    })
}

/// Within a piece of the input that a run of digits does not leave, the
/// digits of the piece end where the run ends.
pub proof fn lemma_digits_end_in_piece(src: Seq<u8>, q: int, end: int, from: int)
    requires
        0 <= q <= q + from <= end <= src.len(),
        run_end(src, q + from, ByteClass::Digit) <= end,
    ensures
        digits_end(src.subrange(q, end), from) == run_end(src, q + from, ByteClass::Digit) - q,
    decreases end - q - from,
{
    let text = src.subrange(q, end);
    lemma_run_end(src, q + from, ByteClass::Digit);
    if q + from < end {
        assert(text[from] == src[q + from]);
        if is_digit(src[q + from]) {
            lemma_run_end(src, q + from + 1, ByteClass::Digit);
            lemma_digits_end_in_piece(src, q, end, from + 1);
        }
    }
}

/// A number that was read completely, from where a number can start, is
/// the text of a decimal number.
pub proof fn lemma_piece_is_decimal(src: Seq<u8>, q: int)
    requires
        piece_start(src, q),
        piece(src, q).ok,
    ensures
        q < piece(src, q).end <= src.len(),
        is_decimal(src.subrange(q, piece(src, q).end)),
{
    let end = piece(src, q).end;
    let a = if src[q] == 0x2d {
        q + 1
    } else {
        q
    };
    lemma_run_end(src, a, ByteClass::Digit);
    let b = run_end(src, a, ByteClass::Digit);
    let dot = byte_at(src, b) == Some(0x2eu8);
    let c = if dot {
        b + 1
    } else {
        b
    };
    lemma_run_end(src, c, ByteClass::Digit);
    let d = run_end(src, c, ByteClass::Digit);
    let exp = byte_at(src, d) == Some(0x65u8) || byte_at(src, d) == Some(0x45u8);
    let s = d + 1;
    let e = if byte_at(src, s) == Some(0x2bu8) || byte_at(src, s) == Some(0x2du8) {
        s + 1
    } else {
        s
    };
    if exp {
        lemma_run_end(src, e, ByteClass::Digit);
    }
    assert(is_digit(src[a]) ==> b > a);
    assert(!is_digit(src[a]) ==> b == a && dot && is_digit(src[c]) && d > c);
    let text = src.subrange(q, end);
    assert(forall|i: int| 0 <= i < text.len() ==> text[i] == src[q + i]);
    lemma_digits_end_in_piece(src, q, end, a - q);
    lemma_digits_end_in_piece(src, q, end, c - q);
    if exp {
        lemma_digits_end_in_piece(src, q, end, e - q);
    }
}

/// Reading a number never goes back nor beyond the input, and takes at
/// least one byte where a number can be read.
pub proof fn lemma_piece_advances(src: Seq<u8>, q: int)
    requires
        0 <= q <= src.len(),
    ensures
        q <= piece(src, q).end <= src.len(),
        piece_start(src, q) ==> q < piece(src, q).end,
{
    let a = if byte_at(src, q) == Some(0x2du8) {
        q + 1
    } else {
        q
    };
    lemma_run_end(src, a, ByteClass::Digit);
    let b = run_end(src, a, ByteClass::Digit);
    let c = if byte_at(src, b) == Some(0x2eu8) {
        b + 1
    } else {
        b
    };
    lemma_run_end(src, c, ByteClass::Digit);
    let d = run_end(src, c, ByteClass::Digit);
    if byte_at(src, d) == Some(0x65u8) || byte_at(src, d) == Some(0x45u8) {
        let s = d + 1;
        let e = if byte_at(src, s) == Some(0x2bu8) || byte_at(src, s) == Some(0x2du8) {
            s + 1
        } else {
            s
        };
        lemma_run_end(src, e, ByteClass::Digit);
    }
}

/// Reading a numeric literal never goes back nor beyond the input, and
/// takes at least one byte where a number can be read: the test on the
/// offset in [`run`] never fails.
pub proof fn lemma_run_advances(src: Seq<u8>, q: int, texts: Seq<Seq<u8>>, float: bool)
    requires
        0 <= q <= src.len(),
    ensures
        q <= run(src, q, texts, float).end <= src.len(),
        piece_start(src, q) ==> q < run(src, q, texts, float).end,
    decreases src.len() - q,
{
    lemma_piece_advances(src, q);
    let pc = piece(src, q);
    if pc.ok && byte_at(src, pc.end) == Some(0x20u8) {
        let q2 = pc.end + 1;
        let q3 = if byte_at(src, q2) == Some(0x2du8) {
            q2 + 1
        } else {
            q2
        };
        if num_start(src, q3) {
            lemma_run_advances(src, q2, texts.push(src.subrange(q, pc.end)), float || pc.float);
        }
    }
}

} // verus!
