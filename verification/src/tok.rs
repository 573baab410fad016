use vstd::prelude::*;

use crate::error::{IntErrorKind, LexerError, LexerErrorCode};
use crate::k::{
    float_views, is_decimal, is_digit, lemma_interned_grows, Adverb, Float, FloatView, Value, Verb,
};
use crate::span::Spanned;
use crate::sym::{index_of, interned, Interner, Sym};
use crate::tok::number::{
    first_int_error, fits_i64, int_of, lemma_piece_is_decimal, lemma_run_advances, num_start,
    number_token, parse_int, piece, piece_start, run, Run,
};
use crate::tok::stream::{byte_at, ByteStream};

pub mod number;
pub mod stream;

verus! {

/// The tokens of the language.
#[derive(Debug, PartialEq)]
pub enum Token {
    LtParen,
    RtParen,
    LtBrace,
    RtBrace,
    LtBracket,
    RtBracket,
    Semi,
    Verb(Verb),
    Adverb(Adverb),
    Char(u8),
    Int(i64),
    Float(Float),
    Sym(Sym),
    CharList(Vec<u8>),
    IntList(Vec<i64>),
    FloatList(Vec<Float>),
    SymList(Vec<Sym>),
    Identifier(Sym),
}

/// What a [`Token`] stands for; a literal of any kind stands for its value.
pub enum TokenView {
    LtParen,
    RtParen,
    LtBrace,
    RtBrace,
    LtBracket,
    RtBracket,
    Semi,
    Verb(Verb),
    Adverb(Adverb),
    Literal(Value),
    Identifier(Sym),
}

impl TokenView {
    /// Whether the literal that the token holds, if it holds one, is well
    /// formed, and every handle in the token is one that an interner with
    /// `n` strings has issued.
    pub open spec fn sound(self, n: nat) -> bool {
        match self {
            TokenView::Literal(v) => v.sound(n),
            TokenView::Identifier(s) => s.0 < n,
            _ => true,
        }
    }
}

impl View for Token {
    type V = TokenView;

    open spec fn view(&self) -> TokenView {
        match self {
            Token::LtParen => TokenView::LtParen,
            Token::RtParen => TokenView::RtParen,
            Token::LtBrace => TokenView::LtBrace,
            Token::RtBrace => TokenView::RtBrace,
            Token::LtBracket => TokenView::LtBracket,
            Token::RtBracket => TokenView::RtBracket,
            Token::Semi => TokenView::Semi,
            Token::Verb(v) => TokenView::Verb(*v),
            Token::Adverb(a) => TokenView::Adverb(*a),
            Token::Char(c) => TokenView::Literal(Value::Char(*c)),
            Token::Int(i) => TokenView::Literal(Value::Int(*i)),
            Token::Float(f) => TokenView::Literal(Value::Float(f@)),
            Token::Sym(s) => TokenView::Literal(Value::Sym(*s)),
            Token::CharList(v) => TokenView::Literal(Value::CharList(v@)),
            Token::IntList(v) => TokenView::Literal(Value::IntList(v@)),
            Token::FloatList(v) => TokenView::Literal(Value::FloatList(float_views(v@))),
            Token::SymList(v) => TokenView::Literal(Value::SymList(v@)),
            Token::Identifier(s) => TokenView::Identifier(*s),
        }
    }
}

/// The kinds of lexical error.
#[derive(Debug, Clone, Copy, PartialEq, Eq, Structural)]
pub enum ErrorCode {
    UnterminatedString,
    UnterminatedEscape,
    UnterminatedFloatExponent,
    UnrecognizedEscape,
    UnrecognizedToken,
    InvalidNumber,
    /// A piece of a float literal is not a decimal number. The tokenizer
    /// hands only decimal numbers on as float literals, so it never reports
    /// this.
    ParseFloatError,
    /// A piece of an integer literal does not fit in 64 bits.
    ParseIntError(IntErrorKind),
}

/// A lexical error and the offset of the token it was found in.
#[derive(Debug, Clone, Copy, PartialEq, Eq, Structural)]
pub struct Error {
    pub location: usize,
    pub code: ErrorCode,
}

/// The classes of bytes that the tokenizer reads runs of.
#[derive(Debug, Clone, Copy, PartialEq, Eq, Structural)]
pub enum ByteClass {
    /// `0` to `9`.
    Digit,
    /// ASCII letters and digits.
    Alnum,
    /// What a symbol is made of: ASCII letters and digits, `.` and `:`.
    SymbolChar,
    /// Tab, form feed, carriage return and space.
    Blank,
    /// The line feed.
    Newline,
    /// Anything but the line feed.
    NotNewline,
}

pub open spec fn is_alpha(c: u8) -> bool {
    0x61 <= c <= 0x7a || 0x41 <= c <= 0x5a
}

/// Tab, form feed, carriage return or space.
pub open spec fn is_blank(c: u8) -> bool {
    c == 0x09 || c == 0x0c || c == 0x0d || c == 0x20
}

/// ASCII whitespace: a blank or a line feed.
pub open spec fn is_space(c: u8) -> bool {
    is_blank(c) || c == 0x0a
}

pub open spec fn in_class(class: ByteClass, c: u8) -> bool {
    match class {
        ByteClass::Digit => is_digit(c),
        ByteClass::Alnum => is_digit(c) || is_alpha(c),
        ByteClass::SymbolChar => is_digit(c) || is_alpha(c) || c == 0x2e || c == 0x3a,
        ByteClass::Blank => is_blank(c),
        ByteClass::Newline => c == 0x0a,
        ByteClass::NotNewline => c != 0x0a,
    }
}

/// The end of the longest run of bytes of `class` that starts at `from`.
pub open spec fn run_end(src: Seq<u8>, from: int, class: ByteClass) -> int
    decreases src.len() - from,
{
    if 0 <= from < src.len() && in_class(class, src[from]) {
        run_end(src, from + 1, class)
    } else {
        from
    }
}

/// A run ends at or after its start and within the input, on a byte that is
/// not of its class, and holds only bytes of its class.
pub proof fn lemma_run_end(src: Seq<u8>, from: int, class: ByteClass)
    requires
        0 <= from <= src.len(),
    ensures
        from <= run_end(src, from, class) <= src.len(),
        forall|i: int| from <= i < run_end(src, from, class) ==> in_class(class, #[trigger] src[i]),
        run_end(src, from, class) < src.len() ==> !in_class(
            class,
            src[run_end(src, from, class)],
        ),
    decreases src.len() - from,
{
    if from < src.len() && in_class(class, src[from]) {
        lemma_run_end(src, from + 1, class);
    }
}

/// The run that starts at `from` ends at `to` if all bytes in between are of
/// the class and the byte at `to`, if any, is not.
pub proof fn lemma_run_end_is(src: Seq<u8>, from: int, to: int, class: ByteClass)
    requires
        0 <= from <= to <= src.len(),
        forall|i: int| from <= i < to ==> in_class(class, #[trigger] src[i]),
        to < src.len() ==> !in_class(class, src[to]),
    ensures
        run_end(src, from, class) == to,
    decreases to - from,
{
    if from < to {
        assert(in_class(class, src[from]));
        lemma_run_end_is(src, from + 1, to, class);
    }
}

fn in_class_exec(class: ByteClass, c: u8) -> (b: bool)
    ensures
        b == in_class(class, c),
{
    let digit = 0x30 <= c && c <= 0x39;
    let alpha = (0x61 <= c && c <= 0x7a) || (0x41 <= c && c <= 0x5a);
    match class {
        ByteClass::Digit => digit,
        ByteClass::Alnum => digit || alpha,
        ByteClass::SymbolChar => digit || alpha || c == 0x2e || c == 0x3a,
        ByteClass::Blank => c == 0x09 || c == 0x0c || c == 0x0d || c == 0x20,
        ByteClass::Newline => c == 0x0a,
        ByteClass::NotNewline => c != 0x0a,
    }
}

/// The byte that an escape sequence stands for: `\"`, `\\`, `\n`, `\r`, `\t`.
pub open spec fn unescape(e: u8) -> Option<u8> {
    if e == 0x22 || e == 0x5c {
        Some(e)
    } else if e == 0x6e {
        Some(0x0au8)
    } else if e == 0x72 {
        Some(0x0du8)
    } else if e == 0x74 {
        Some(0x09u8)
    } else {
        None
    }
}

/// A string literal as far as it could be read: its bytes, the error if
/// there is one, and where reading stopped.
pub struct Quoted {
    pub text: Seq<u8>,
    pub error: Option<ErrorCode>,
    pub end: int,
}

/// Reads the body of a string literal from `q` on, `text` being what the
/// bytes before `q` gave: up to the closing `"`, a `\` and the byte after it
/// standing for one byte.
pub open spec fn quoted(src: Seq<u8>, q: int, text: Seq<u8>) -> Quoted
    decreases src.len() - q,
{
    if q < 0 || q >= src.len() {
        Quoted { text, error: Some(ErrorCode::UnterminatedString), end: q }
    } else if src[q] == 0x22 {
        Quoted { text, error: None, end: q + 1 }
    } else if src[q] == 0x5c {
        if q + 1 >= src.len() {
            Quoted { text, error: Some(ErrorCode::UnterminatedEscape), end: q + 1 }
        } else {
            match unescape(src[q + 1]) {
                Some(b) => quoted(src, q + 2, text.push(b)),
                None => Quoted { text, error: Some(ErrorCode::UnrecognizedEscape), end: q + 2 },
            }
        }
    } else {
        quoted(src, q + 1, text.push(src[q]))
    }
}

/// The token of a string literal: a character if it holds one byte, else a
/// list of characters.
pub open spec fn text_token(text: Seq<u8>) -> TokenView {
    if text.len() == 1 {
        TokenView::Literal(Value::Char(text[0]))
    } else {
        TokenView::Literal(Value::CharList(text))
    }
}

/// A symbol literal: the handles of its symbols, the interner's table after
/// reading it, and where reading stopped.
pub struct Symbols {
    pub syms: Seq<Sym>,
    pub names: Seq<Seq<u8>>,
    pub end: int,
}

/// Reads the symbols of a literal from `q` on, which is just behind a
/// back-tick, `syms` being the symbols before it: the run of symbol bytes
/// at `q` is interned, and a back-tick right behind it starts the next
/// symbol.
pub open spec fn symbols(src: Seq<u8>, q: int, names: Seq<Seq<u8>>, syms: Seq<Sym>) -> Symbols
    decreases src.len() - q,
{
    let e = run_end(src, q, ByteClass::SymbolChar);
    let name = src.subrange(q, e);
    let names = interned(names, name);
    let syms = syms.push(Sym(index_of(names, name) as usize));
    if q <= e < src.len() && src[e] == 0x60 {
        symbols(src, e + 1, names, syms)
    } else {
        Symbols { syms, names, end: e }
    }
}

/// The token of a symbol literal: a symbol if it holds one, else a list.
pub open spec fn sym_token(syms: Seq<Sym>) -> TokenView {
    if syms.len() == 1 {
        TokenView::Literal(Value::Sym(syms[0]))
    } else {
        TokenView::Literal(Value::SymList(syms))
    }
}

/// Whether a `/` at `p` starts a comment: at the start of the input or
/// right behind whitespace.
pub open spec fn comment_here(src: Seq<u8>, p: int) -> bool {
    match byte_at(src, p - 1) {
        Some(c) => is_space(c),
        None => true,
    }
}

/// Whether the byte before `p` ends an operand: a closing bracket, a digit
/// or a letter. A `-` behind such a byte is the verb, never a sign.
pub open spec fn after_operand(src: Seq<u8>, p: int) -> bool {
    match byte_at(src, p - 1) {
        Some(c) => c == 0x29 || c == 0x7d || c == 0x5d || is_digit(c) || is_alpha(c),
        None => false,
    }
}

/// Whether a numeric literal starts at `p`: with a digit (but for `0:`,
/// `1:` and `2:`, which are verbs), with a `.` that a digit follows, or with
/// a `-` that is not behind an operand and that a number follows.
pub open spec fn number_here(src: Seq<u8>, p: int) -> bool {
    match byte_at(src, p) {
        Some(c) => {
            ||| is_digit(c) && !(0x30 <= c <= 0x32 && byte_at(src, p + 1) == Some(0x3au8))
            ||| c == 0x2e && num_start(src, p)
            ||| c == 0x2d && !after_operand(src, p) && num_start(src, p + 1)
        },
        None => false,
    }
}

/// The verb that a single byte spells.
pub open spec fn verb_of(c: u8) -> Option<Verb> {
    if c == 0x3a {
        Some(Verb::Colon)
    } else if c == 0x2b {
        Some(Verb::Plus)
    } else if c == 0x2d {
        Some(Verb::Minus)
    } else if c == 0x2a {
        Some(Verb::Star)
    } else if c == 0x25 {
        Some(Verb::Percent)
    } else if c == 0x26 {
        Some(Verb::And)
    } else if c == 0x7c {
        Some(Verb::Pipe)
    } else if c == 0x5e {
        Some(Verb::Caret)
    } else if c == 0x3d {
        Some(Verb::Eq)
    } else if c == 0x3c {
        Some(Verb::Lt)
    } else if c == 0x3e {
        Some(Verb::Gt)
    } else if c == 0x24 {
        Some(Verb::Dollar)
    } else if c == 0x2c {
        Some(Verb::Comma)
    } else if c == 0x23 {
        Some(Verb::Hash)
    } else if c == 0x5f {
        Some(Verb::Underscore)
    } else if c == 0x7e {
        Some(Verb::Tilde)
    } else if c == 0x21 {
        Some(Verb::Bang)
    } else if c == 0x3f {
        Some(Verb::Question)
    } else if c == 0x40 {
        Some(Verb::At)
    } else if c == 0x2e {
        Some(Verb::Dot)
    } else {
        None
    }
}

/// The token that one byte, or one byte and a `:` behind it, spells, and
/// its length: punctuation, a verb or an adverb.
pub open spec fn simple_token(c: u8, next: Option<u8>) -> Option<(TokenView, int)> {
    let colon = next == Some(0x3au8);
    if c == 0x28 {
        Some((TokenView::LtParen, 1))
    } else if c == 0x29 {
        Some((TokenView::RtParen, 1))
    } else if c == 0x7b {
        Some((TokenView::LtBrace, 1))
    } else if c == 0x7d {
        Some((TokenView::RtBrace, 1))
    } else if c == 0x5b {
        Some((TokenView::LtBracket, 1))
    } else if c == 0x5d {
        Some((TokenView::RtBracket, 1))
    } else if c == 0x3b {
        Some((TokenView::Semi, 1))
    } else if c == 0x30 && colon {
        Some((TokenView::Verb(Verb::ZeroColon), 2))
    } else if c == 0x31 && colon {
        Some((TokenView::Verb(Verb::OneColon), 2))
    } else if c == 0x32 && colon {
        Some((TokenView::Verb(Verb::TwoColon), 2))
    } else if c == 0x27 {
        if colon {
            Some((TokenView::Adverb(Adverb::QuoteColon), 2))
        } else {
            Some((TokenView::Adverb(Adverb::Quote), 1))
        }
    } else if c == 0x2f {
        if colon {
            Some((TokenView::Adverb(Adverb::SlashColon), 2))
        } else {
            Some((TokenView::Adverb(Adverb::Slash), 1))
        }
    } else if c == 0x5c {
        if colon {
            Some((TokenView::Adverb(Adverb::BackslashColon), 2))
        } else {
            Some((TokenView::Adverb(Adverb::Backslash), 1))
        }
    } else {
        match verb_of(c) {
            Some(v) => Some((TokenView::Verb(v), 1)),
            None => None,
        }
    }
}

/// What reading one token gives: a token with its span `[start, end)`, or an
/// error with the offset it refers to.
pub enum Lexeme {
    Token(int, TokenView, int),
    Error(int, ErrorCode),
}

/// One step of the tokenizer: the token or error read, if the input was not
/// at its end; where reading stopped; and the interner's table afterwards.
pub struct Step {
    pub item: Option<Lexeme>,
    pub pos: int,
    pub names: Seq<Seq<u8>>,
}

/// Reads one token of `src` from offset `p` on, `names` being the interner's
/// table.
///
/// Blanks and comments are passed over. A run of line feeds is one `;`. A
/// back-tick starts a symbol literal, a `"` a string literal, a letter an
/// identifier, which is interned; a numeric literal is read where
/// [`number_here`] says so. Any other byte is punctuation, a verb or an
/// adverb, or else an error.
pub open spec fn lex(src: Seq<u8>, p: int, names: Seq<Seq<u8>>) -> Step
    decreases src.len() - p,
{
    if p < 0 || p >= src.len() {
        Step { item: None, pos: p, names }
    } else {
        let c = src[p];
        if is_blank(c) {
            let q = run_end(src, p + 1, ByteClass::Blank);
            proof {
                lemma_run_end(src, p + 1, ByteClass::Blank);
            }
            lex(src, q, names)
        } else if c == 0x2f && comment_here(src, p) {
            let q = run_end(src, p + 1, ByteClass::NotNewline);
            proof {
                lemma_run_end(src, p + 1, ByteClass::NotNewline);
            }
            lex(src, q, names)
        } else if c == 0x0a {
            let e = run_end(src, p + 1, ByteClass::Newline);
            Step { item: Some(Lexeme::Token(p, TokenView::Semi, e)), pos: e, names }
        } else if c == 0x60 {
            let s = symbols(src, p + 1, names, Seq::empty());
            Step { item: Some(Lexeme::Token(p, sym_token(s.syms), s.end)), pos: s.end, names: s.names }
        } else if c == 0x22 {
            let t = quoted(src, p + 1, Seq::empty());
            match t.error {
                Some(code) => Step { item: Some(Lexeme::Error(p, code)), pos: t.end, names },
                None => Step {
                    item: Some(Lexeme::Token(p, text_token(t.text), t.end)),
                    pos: t.end,
                    names,
                },
            }
        } else if is_alpha(c) {
            let e = run_end(src, p + 1, ByteClass::Alnum);
            let name = src.subrange(p, e);
            let names = interned(names, name);
            Step {
                item: Some(
                    Lexeme::Token(p, TokenView::Identifier(Sym(index_of(names, name) as usize)), e),
                ),
                pos: e,
                names,
            }
        } else if number_here(src, p) {
            let r = run(src, p, Seq::empty(), false);
            match r.error {
                Some((at, code)) => Step { item: Some(Lexeme::Error(at, code)), pos: r.end, names },
                None => match number_token(r.texts, r.float) {
                    Ok(t) => Step { item: Some(Lexeme::Token(p, t, r.end)), pos: r.end, names },
                    Err(code) => Step { item: Some(Lexeme::Error(p, code)), pos: r.end, names },
                },
            }
        } else {
            match simple_token(c, byte_at(src, p + 1)) {
                Some((t, n)) => Step { item: Some(Lexeme::Token(p, t, p + n)), pos: p + n, names },
                None => Step {
                    item: Some(Lexeme::Error(p, ErrorCode::UnrecognizedToken)),
                    pos: p + 1,
                    names,
                },
            }
        }
    }
}

/// Whether the token in `r`, if there is one, is sound for an interner
/// with `n` strings: see [`TokenView::sound`].
pub open spec fn item_sound(r: Option<Result<Spanned<Token>, Error>>, n: nat) -> bool {
    r matches Some(Ok(t)) ==> t.1@.sound(n)
}

/// What the result of [`Tokenizer::next`] stands for.
pub open spec fn item_view(r: Option<Result<Spanned<Token>, Error>>) -> Option<Lexeme> {
    match r {
        None => None,
        Some(Ok(t)) => Some(Lexeme::Token(t.0 as int, t.1@, t.2 as int)),
        Some(Err(e)) => Some(Lexeme::Error(e.location as int, e.code)),
    }
}

/// The tokenizer: a cursor over the source and the offset at which the
/// token being read began.
pub struct Tokenizer<'a> {
    stream: ByteStream<'a>,
    start: usize,
}

impl<'a> Tokenizer<'a> {
    /// The source text.
    pub closed spec fn src(&self) -> Seq<u8> {
        self.stream.bytes()
    }

    /// The offset of the first byte not yet read.
    pub closed spec fn pos(&self) -> int {
        self.stream.cursor() + 1
    }

    /// The cursor has not run past the end of the source.
    pub closed spec fn wf(&self) -> bool {
        &&& self.stream.wf()
        &&& self.stream.cursor() < self.stream.bytes().len()
        &&& self.start <= self.pos()
    }

    /// Between tokens the next token begins where reading stopped.
    pub closed spec fn fresh(&self) -> bool {
        self.start == self.pos()
    }

    pub proof fn lemma_pos_range(&self)
        requires
            self.wf(),
        ensures
            0 <= self.pos() <= self.src().len(),
    {
        self.stream.lemma_cursor_range();
    }

    pub fn new(src: &'a [u8]) -> (t: Self)
        ensures
            t.wf(),
            t.fresh(),
            t.src() == src@,
            t.pos() == 0,
    {
        Self { stream: ByteStream::new(src), start: 0 }
    }

    /// Begins a new token where reading stopped.
    fn bump(&mut self)
        requires
            old(self).wf(),
        ensures
            final(self).wf(),
            final(self).fresh(),
            final(self).src() == old(self).src(),
            final(self).pos() == old(self).pos(),
    {
        proof {
            self.stream.lemma_cursor_range();
        }
        self.start = self.stream.next_index();
    }

    /// The token `token` with the span from where it began to where reading
    /// stopped.
    fn token(&self, token: Token) -> (r: Option<Result<Spanned<Token>, Error>>)
        requires
            self.wf(),
        ensures
            r == Some(Ok::<Spanned<Token>, Error>(Spanned(self.start, token, self.pos() as usize))),
            self.pos() as usize == self.pos(),
    {
        proof {
            self.stream.lemma_cursor_range();
        }
        Some(Ok(Spanned(self.start, token, self.stream.next_index())))
    }

    /// The error `code` at the offset where the token began.
    fn error(&self, code: ErrorCode) -> (r: Option<Result<Spanned<Token>, Error>>)
        ensures
            r == Some(Err::<Spanned<Token>, Error>(Error { location: self.start, code })),
    {
        Some(Err(Error { location: self.start, code }))
    }

    /// Reads on to the end of the run of bytes of `class`.
    fn skip(&mut self, class: ByteClass) -> (count: usize)
        requires
            old(self).wf(),
        ensures
            final(self).wf(),
            final(self).src() == old(self).src(),
            final(self).start == old(self).start,
            final(self).pos() == run_end(old(self).src(), old(self).pos(), class),
            count == final(self).pos() - old(self).pos(),
    {
        proof {
            self.stream.lemma_cursor_range();
        }
        let count = self.stream.consume_while(|x: u8| -> (b: bool)
            ensures
                b == in_class(class, x),
            { in_class_exec(class, x) });
        proof {
            let src = self.src();
            assert forall|i: int| old(self).pos() <= i < self.pos() implies in_class(
                class,
                #[trigger] src[i],
            ) by {}
            lemma_run_end_is(src, old(self).pos(), self.pos(), class);
        }
        count
    }

    /// The byte at offset `pos() + ahead`, for `ahead` of 0 or 1.
    fn look(&self, ahead: usize) -> (b: Option<u8>)
        requires
            self.wf(),
            ahead <= 1,
        ensures
            b == byte_at(self.src(), self.pos() + ahead),
    {
        if ahead == 0 {
            self.stream.peek()
        } else {
            self.stream.peek_next()
        }
    }

    /// Reads one byte, which must be there.
    fn step(&mut self)
        requires
            old(self).wf(),
            old(self).pos() < old(self).src().len(),
        ensures
            final(self).wf(),
            final(self).src() == old(self).src(),
            final(self).start == old(self).start,
            final(self).pos() == old(self).pos() + 1,
    {
        proof {
            self.stream.lemma_cursor_range();
        }
        self.stream.next();
    }

    /// Reads the next byte if it is `expected`.
    fn step_if(&mut self, expected: u8) -> (taken: bool)
        requires
            old(self).wf(),
        ensures
            final(self).wf(),
            final(self).src() == old(self).src(),
            final(self).start == old(self).start,
            taken == (byte_at(old(self).src(), old(self).pos()) == Some(expected)),
            final(self).pos() == if taken {
                old(self).pos() + 1
            } else {
                old(self).pos()
            },
    {
        proof {
            self.stream.lemma_cursor_range();
        }
        self.stream.next_if_eq(expected).is_some()
    }
}

/// The texts held by `v`.
pub open spec fn texts_view(v: Seq<Vec<u8>>) -> Seq<Seq<u8>> {
    Seq::new(v.len(), |i: int| v[i]@)
}

/// Whether `s` is a run of digits with or without a `-` in front.
pub open spec fn int_text(s: Seq<u8>) -> bool {
    &&& forall|i: int| 1 <= i < s.len() ==> is_digit(#[trigger] s[i])
    &&& s.len() > 0 ==> is_digit(s[0]) || s[0] == 0x2d
}

fn unescape_exec(e: u8) -> (r: Option<u8>)
    ensures
        r == unescape(e),
{
    if e == 0x22 || e == 0x5c {
        Some(e)
    } else if e == 0x6e {
        Some(0x0a)
    } else if e == 0x72 {
        Some(0x0d)
    } else if e == 0x74 {
        Some(0x09)
    } else {
        None
    }
}

fn verb_of_exec(c: u8) -> (r: Option<Verb>)
    ensures
        r == verb_of(c),
{
    if c == 0x3a {
        Some(Verb::Colon)
    } else if c == 0x2b {
        Some(Verb::Plus)
    } else if c == 0x2d {
        Some(Verb::Minus)
    } else if c == 0x2a {
        Some(Verb::Star)
    } else if c == 0x25 {
        Some(Verb::Percent)
    } else if c == 0x26 {
        Some(Verb::And)
    } else if c == 0x7c {
        Some(Verb::Pipe)
    } else if c == 0x5e {
        Some(Verb::Caret)
    } else if c == 0x3d {
        Some(Verb::Eq)
    } else if c == 0x3c {
        Some(Verb::Lt)
    } else if c == 0x3e {
        Some(Verb::Gt)
    } else if c == 0x24 {
        Some(Verb::Dollar)
    } else if c == 0x2c {
        Some(Verb::Comma)
    } else if c == 0x23 {
        Some(Verb::Hash)
    } else if c == 0x5f {
        Some(Verb::Underscore)
    } else if c == 0x7e {
        Some(Verb::Tilde)
    } else if c == 0x21 {
        Some(Verb::Bang)
    } else if c == 0x3f {
        Some(Verb::Question)
    } else if c == 0x40 {
        Some(Verb::At)
    } else if c == 0x2e {
        Some(Verb::Dot)
    } else {
        None
    }
}

/// The token that `c`, or `c` with a `:` behind it, spells, and its length.
fn simple_token_exec(c: u8, next: Option<u8>) -> (r: Option<(Token, usize)>)
    ensures
        match r {
            Some((t, n)) => simple_token(c, next) == Some((t@, n as int)) && 1 <= n <= 2 && (n == 2
                ==> next is Some),
            None => simple_token(c, next) is None,
        },
{
    let colon = match next {
        Some(n) => n == 0x3a,
        None => false,
    };
    if c == 0x28 {
        Some((Token::LtParen, 1))
    } else if c == 0x29 {
        Some((Token::RtParen, 1))
    } else if c == 0x7b {
        Some((Token::LtBrace, 1))
    } else if c == 0x7d {
        Some((Token::RtBrace, 1))
    } else if c == 0x5b {
        Some((Token::LtBracket, 1))
    } else if c == 0x5d {
        Some((Token::RtBracket, 1))
    } else if c == 0x3b {
        Some((Token::Semi, 1))
    } else if c == 0x30 && colon {
        Some((Token::Verb(Verb::ZeroColon), 2))
    } else if c == 0x31 && colon {
        Some((Token::Verb(Verb::OneColon), 2))
    } else if c == 0x32 && colon {
        Some((Token::Verb(Verb::TwoColon), 2))
    } else if c == 0x27 {
        if colon {
            Some((Token::Adverb(Adverb::QuoteColon), 2))
        } else {
            Some((Token::Adverb(Adverb::Quote), 1))
        }
    } else if c == 0x2f {
        if colon {
            Some((Token::Adverb(Adverb::SlashColon), 2))
        } else {
            Some((Token::Adverb(Adverb::Slash), 1))
        }
    } else if c == 0x5c {
        if colon {
            Some((Token::Adverb(Adverb::BackslashColon), 2))
        } else {
            Some((Token::Adverb(Adverb::Backslash), 1))
        }
    } else {
        match verb_of_exec(c) {
            Some(v) => Some((Token::Verb(v), 1)),
            None => None,
        }
    }
}

impl Token {
    /// The token of a string literal with the bytes `v`.
    pub fn from_bytes(v: Vec<u8>) -> (t: Token)
        ensures
            t@ == text_token(v@),
    {
        if v.len() == 1 {
            Token::Char(v[0])
        } else {
            Token::CharList(v)
        }
    }

    /// The token of a numeric literal with the integers `v`.
    pub fn from_ints(v: Vec<i64>) -> (t: Token)
        ensures
            t@ == if v@.len() == 1 {
                TokenView::Literal(Value::Int(v@[0]))
            } else {
                TokenView::Literal(Value::IntList(v@))
            },
    {
        if v.len() == 1 {
            Token::Int(v[0])
        } else {
            Token::IntList(v)
        }
    }

    /// The token of a numeric literal with the floats `v`.
    pub fn from_floats(v: Vec<Float>) -> (t: Token)
        ensures
            t@ == if v@.len() == 1 {
                TokenView::Literal(Value::Float(v@[0]@))
            } else {
                TokenView::Literal(Value::FloatList(float_views(v@)))
            },
    {
        if v.len() == 1 {
            Token::Float(v[0].clone())
        } else {
            Token::FloatList(v)
        }
    }

    /// The token of a symbol literal with the symbols `v`.
    pub fn from_syms(v: Vec<Sym>) -> (t: Token)
        ensures
            t@ == sym_token(v@),
    {
        if v.len() == 1 {
            Token::Sym(v[0])
        } else {
            Token::SymList(v)
        }
    }
}

impl<'a> Tokenizer<'a> {
    /// The offset of the first byte not yet read.
    fn offset(&self) -> (p: usize)
        requires
            self.wf(),
        ensures
            p == self.pos(),
    {
        proof {
            self.stream.lemma_cursor_range();
        }
        self.stream.next_index()
    }

    /// Passes over a comment, up to the end of the line.
    fn skip_comment(&mut self)
        requires
            old(self).wf(),
        ensures
            final(self).wf(),
            final(self).fresh(),
            final(self).src() == old(self).src(),
            final(self).pos() == run_end(old(self).src(), old(self).pos(), ByteClass::NotNewline),
    {
        self.skip(ByteClass::NotNewline);
        self.bump();
    }

    /// Passes over blanks.
    fn skip_whitespace(&mut self)
        requires
            old(self).wf(),
        ensures
            final(self).wf(),
            final(self).fresh(),
            final(self).src() == old(self).src(),
            final(self).pos() == run_end(old(self).src(), old(self).pos(), ByteClass::Blank),
    {
        self.skip(ByteClass::Blank);
        self.bump();
    }

    /// Reads the rest of a run of line feeds, which is one `;`.
    fn newline(&mut self) -> (r: Option<Result<Spanned<Token>, Error>>)
        requires
            old(self).wf(),
        ensures
            final(self).wf(),
            final(self).src() == old(self).src(),
            final(self).pos() == run_end(old(self).src(), old(self).pos(), ByteClass::Newline),
            final(self).pos() >= old(self).pos(),
            forall|n: nat| item_sound(r, n),
            item_view(r) == Some(
                Lexeme::Token(old(self).start as int, TokenView::Semi, final(self).pos()),
            ),
    {
        self.skip(ByteClass::Newline);
        self.token(Token::Semi)
    }

    /// Reads the rest of an identifier, whose first letter has been read.
    fn identifier(&mut self, interner: &mut Interner) -> (r: Option<Result<Spanned<Token>, Error>>)
        requires
            old(self).wf(),
            old(interner).wf(),
        ensures
            final(self).wf(),
            final(interner).wf(),
            final(self).src() == old(self).src(),
            final(self).pos() == run_end(old(self).src(), old(self).pos(), ByteClass::Alnum),
            final(self).pos() >= old(self).pos(),
            item_sound(r, final(interner)@.len()),
            final(interner)@.len() >= old(interner)@.len(),
            final(interner)@ == interned(
                old(interner)@,
                old(self).src().subrange(old(self).start as int, final(self).pos()),
            ),
            item_view(r) == Some(
                Lexeme::Token(
                    old(self).start as int,
                    TokenView::Identifier(
                        Sym(
                            index_of(
                                final(interner)@,
                                old(self).src().subrange(old(self).start as int, final(self).pos()),
                            ) as usize,
                        ),
                    ),
                    final(self).pos(),
                ),
            ),
    {
        self.skip(ByteClass::Alnum);
        proof {
            self.stream.lemma_cursor_range();
            lemma_run_end(old(self).src(), old(self).pos(), ByteClass::Alnum);
        }
        let sym = Sym::new(interner, self.stream.slice(self.start));
        self.token(Token::Identifier(sym))
    }

    /// Reads the rest of a symbol literal, whose first back-tick has been
    /// read.
    fn symbol(&mut self, interner: &mut Interner) -> (r: Option<Result<Spanned<Token>, Error>>)
        requires
            old(self).wf(),
            old(interner).wf(),
        ensures
            final(self).wf(),
            final(interner).wf(),
            final(self).src() == old(self).src(),
            final(self).pos() >= old(self).pos(),
            item_sound(r, final(interner)@.len()),
            final(interner)@.len() >= old(interner)@.len(),
            ({
                let s = symbols(old(self).src(), old(self).pos(), old(interner)@, Seq::empty());
                &&& final(self).pos() == s.end
                &&& final(interner)@ == s.names
                &&& item_view(r) == Some(
                    Lexeme::Token(old(self).start as int, sym_token(s.syms), s.end),
                )
            }),
    {
        let mut syms: Vec<Sym> = Vec::new();
        let ghost src = self.src();
        let ghost goal = symbols(src, self.pos(), interner@, Seq::empty());
        assert(syms@ =~= Seq::empty());
        loop
            invariant_except_break
                goal == symbols(src, self.pos(), interner@, syms@),
            invariant
                self.wf(),
                interner.wf(),
                self.src() == src,
                self.start == old(self).start,
                self.pos() >= old(self).pos(),
                forall|k: int| 0 <= k < syms@.len() ==> (#[trigger] syms@[k]).0 < interner@.len(),
                interner@.len() >= old(interner)@.len(),
            ensures
                self.wf(),
                interner.wf(),
                self.src() == src,
                self.start == old(self).start,
                self.pos() >= old(self).pos(),
                forall|k: int| 0 <= k < syms@.len() ==> (#[trigger] syms@[k]).0 < interner@.len(),
                interner@.len() >= old(interner)@.len(),
                goal == (Symbols { syms: syms@, names: interner@, end: self.pos() }),
            decreases src.len() - self.pos(),
        {
            let ghost q = self.pos();
            proof {
                self.stream.lemma_cursor_range();
                lemma_run_end(src, q, ByteClass::SymbolChar);
            }
            let from = self.offset();
            self.skip(ByteClass::SymbolChar);
            let sym = Sym::new(interner, self.stream.slice(from));
            syms.push(sym);
            if !self.step_if(0x60) {
                break ;
            }
        }
        self.token(Token::from_syms(syms))
    }

    /// Reads the rest of a string literal, whose opening `"` has been read.
    fn string(&mut self) -> (r: Option<Result<Spanned<Token>, Error>>)
        requires
            old(self).wf(),
        ensures
            final(self).wf(),
            final(self).src() == old(self).src(),
            final(self).pos() >= old(self).pos(),
            forall|n: nat| item_sound(r, n),
            ({
                let t = quoted(old(self).src(), old(self).pos(), Seq::empty());
                &&& final(self).pos() == t.end
                &&& item_view(r) == Some(
                    match t.error {
                        Some(code) => Lexeme::Error(old(self).start as int, code),
                        None => Lexeme::Token(old(self).start as int, text_token(t.text), t.end),
                    },
                )
            }),
    {
        let mut text: Vec<u8> = Vec::new();
        let ghost src = self.src();
        let ghost goal = quoted(src, self.pos(), Seq::empty());
        assert(text@ =~= Seq::empty());
        loop
            invariant
                self.wf(),
                self.src() == src,
                src == old(self).src(),
                self.start == old(self).start,
                goal == quoted(old(self).src(), old(self).pos(), Seq::empty()),
                goal == quoted(src, self.pos(), text@),
                self.pos() >= old(self).pos(),
            decreases src.len() - self.pos(),
        {
            proof {
                self.stream.lemma_cursor_range();
            }
            match self.look(0) {
                None => {
                    return self.error(ErrorCode::UnterminatedString);
                },
                Some(c) => {
                    self.step();
                    if c == 0x22 {
                        return self.token(Token::from_bytes(text));
                    } else if c == 0x5c {
                        match self.look(0) {
                            None => {
                                return self.error(ErrorCode::UnterminatedEscape);
                            },
                            Some(e) => {
                                self.step();
                                match unescape_exec(e) {
                                    Some(b) => {
                                        text.push(b);
                                    },
                                    None => {
                                        return self.error(ErrorCode::UnrecognizedEscape);
                                    },
                                }
                            },
                        }
                    } else {
                        text.push(c);
                    }
                },
            }
        }
    }

    /// Whether a number can start with the next byte.
    fn is_num_start(&self) -> (b: bool)
        requires
            self.wf(),
        ensures
            b == num_start(self.src(), self.pos()),
    {
        match self.look(0) {
            Some(c) => {
                if 0x30 <= c && c <= 0x39 {
                    true
                } else if c == 0x2e {
                    match self.look(1) {
                        Some(d) => 0x30 <= d && d <= 0x39,
                        None => false,
                    }
                } else {
                    false
                }
            },
            None => false,
        }
    }

    /// Reads one number of a numeric literal.
    fn number_piece(&mut self) -> (r: (bool, bool))
        requires
            old(self).wf(),
        ensures
            final(self).wf(),
            final(self).src() == old(self).src(),
            final(self).start == old(self).start,
            final(self).pos() == piece(old(self).src(), old(self).pos()).end,
            final(self).pos() >= old(self).pos(),
            r.0 == piece(old(self).src(), old(self).pos()).float,
            r.1 == piece(old(self).src(), old(self).pos()).ok,
            !r.0 ==> int_text(old(self).src().subrange(old(self).pos(), final(self).pos())),
            number_here(old(self).src(), old(self).pos()) ==> final(self).pos() > old(self).pos(),
            piece_start(old(self).src(), old(self).pos()) && r.1 ==> is_decimal(
                old(self).src().subrange(old(self).pos(), final(self).pos()),
            ),
    {
        let ghost src = self.src();
        let ghost q = self.pos();
        proof {
            if piece_start(src, q) && piece(src, q).ok {
                lemma_piece_is_decimal(src, q);
            }
        }
        proof {
            self.stream.lemma_cursor_range();
        }
        self.step_if(0x2d);
        let ghost a = self.pos();
        proof {
            lemma_run_end(src, a, ByteClass::Digit);
        }
        self.skip(ByteClass::Digit);
        let dot = self.step_if(0x2e);
        proof {
            lemma_run_end(src, self.pos(), ByteClass::Digit);
        }
        self.skip(ByteClass::Digit);
        let exp = if self.step_if(0x65) {
            true
        } else {
            self.step_if(0x45)
        };
        if exp {
            if !self.step_if(0x2b) {
                self.step_if(0x2d);
            }
            proof {
                lemma_run_end(src, self.pos(), ByteClass::Digit);
            }
            let n = self.skip(ByteClass::Digit);
            (true, n > 0)
        } else {
            (dot, true)
        }
    }
}

impl<'a> Tokenizer<'a> {
    /// Reads a numeric literal, of which nothing has been read yet.
    fn number(&mut self) -> (r: Option<Result<Spanned<Token>, Error>>)
        requires
            old(self).wf(),
            old(self).fresh(),
            number_here(old(self).src(), old(self).pos()),
        ensures
            final(self).wf(),
            final(self).src() == old(self).src(),
            final(self).pos() > old(self).pos(),
            forall|n: nat| item_sound(r, n),
            ({
                let p = old(self).pos();
                let n = run(old(self).src(), p, Seq::empty(), false);
                &&& final(self).pos() == n.end
                &&& item_view(r) == Some(
                    match n.error {
                        Some((at, code)) => Lexeme::Error(at, code),
                        None => match number_token(n.texts, n.float) {
                            Ok(t) => Lexeme::Token(p, t, n.end),
                            Err(code) => Lexeme::Error(p, code),
                        },
                    },
                )
            }),
    {
        let ghost src = self.src();
        let ghost p = self.pos();
        let ghost goal = run(src, p, Seq::empty(), false);
        let mut texts: Vec<Vec<u8>> = Vec::new();
        let mut float = false;
        assert(texts_view(texts@) =~= Seq::empty());
        loop
            invariant_except_break
                goal == run(src, self.pos(), texts_view(texts@), float),
                piece_start(src, self.pos()),
            invariant
                self.wf(),
                self.src() == src,
                src == old(self).src(),
                p == old(self).pos(),
                self.start == p,
                goal == run(src, p, Seq::empty(), false),
                !float ==> forall|k: int| 0 <= k < texts@.len() ==> int_text(#[trigger] texts@[k]@),
                self.pos() >= p,
                number_here(src, p),
                texts@.len() > 0 ==> self.pos() > p,
                forall|k: int| 0 <= k < texts@.len() ==> is_decimal(#[trigger] texts@[k]@),
            ensures
                goal == (Run { texts: texts_view(texts@), float, error: None, end: self.pos() }),
                self.pos() > p,
            decreases src.len() - self.pos(),
        {
            let q = self.offset();
            let (f, ok) = self.number_piece();
            float = float || f;
            if !ok {
                return Some(Err(Error { location: q, code: ErrorCode::UnterminatedFloatExponent }));
            }
            proof {
                self.stream.lemma_cursor_range();
            }
            let text = vstd::slice::slice_to_vec(self.stream.slice(q));
            let ghost before = texts_view(texts@);
            texts.push(text);
            assert(texts_view(texts@) =~= before.push(src.subrange(q as int, self.pos())));
            match self.look(0) {
                Some(c) => {
                    if c == 0x20 {
                        let backtrack = self.stream;
                        self.step();
                        self.step_if(0x2d);
                        if !self.is_num_start() {
                            self.stream = backtrack;
                            break ;
                        }
                        self.stream = backtrack;
                        self.step();
                    } else if c == 0x2e || (0x61 <= c && c <= 0x7a) || (0x41 <= c && c <= 0x5a) {
                        return Some(Err(Error { location: q, code: ErrorCode::InvalidNumber }));
                    } else {
                        break ;
                    }
                },
                None => {
                    break ;
                },
            }
        }
        if float {
            let mut floats: Vec<Float> = Vec::new();
            let mut i: usize = 0;
            while i < texts.len()
                invariant
                    i <= texts@.len(),
                    floats@.len() == i,
                    forall|k: int| 0 <= k < texts@.len() ==> is_decimal(#[trigger] texts@[k]@),
                    forall|k: int|
                        0 <= k < i ==> (#[trigger] floats@[k])@ == FloatView::Literal(texts@[k]@),
                decreases texts@.len() - i,
            {
                floats.push(Float::literal(vstd::slice::slice_to_vec(texts[i].as_slice())));
                i += 1;
            }
            proof {
                if texts@.len() != 1 {
                    assert(float_views(floats@) =~= Seq::new(
                        texts_view(texts@).len(),
                        |i: int| FloatView::Literal(texts_view(texts@)[i]),
                    ));
                }
                assert forall|k: int| 0 <= k < floats@.len() implies (#[trigger] float_views(
                    floats@,
                )[k]).wf() by {
                    assert(is_decimal(texts@[k]@));
                }
            }
            self.token(Token::from_floats(floats))
        } else {
            let mut ints: Vec<i64> = Vec::new();
            let mut i: usize = 0;
            assert(texts_view(texts@).skip(0) =~= texts_view(texts@));
            while i < texts.len()
                invariant
                    i <= texts@.len(),
                    ints@.len() == i,
                    forall|k: int| 0 <= k < texts@.len() ==> int_text(#[trigger] texts@[k]@),
                    forall|k: int| 0 <= k < i ==> fits_i64(int_of((#[trigger] texts@[k])@)),
                    first_int_error(texts_view(texts@)) == first_int_error(
                        texts_view(texts@).skip(i as int),
                    ),
                    forall|k: int| 0 <= k < i ==> #[trigger] ints@[k] == int_of(texts@[k]@),
                    self.wf(),
                    self.src() == src,
                    src == old(self).src(),
                    p == old(self).pos(),
                    self.start == p,
                    !float,
                    self.pos() > p,
                    goal == run(src, p, Seq::empty(), false),
                    goal == (Run { texts: texts_view(texts@), float, error: None, end: self.pos() }),
                decreases texts@.len() - i,
            {
                assert(int_text(texts@[i as int]@));
                proof {
                    let rest = texts_view(texts@).skip(i as int);
                    assert(rest[0] == texts@[i as int]@);
                    assert(rest.drop_first() =~= texts_view(texts@).skip(i + 1));
                }
                match parse_int(texts[i].as_slice()) {
                    Ok(v) => {
                        ints.push(v);
                    },
                    Err(kind) => {
                        return self.error(ErrorCode::ParseIntError(kind));
                    },
                }
                i += 1;
            }
            proof {
                let tv = texts_view(texts@);
                assert(tv.skip(tv.len() as int).len() == 0);
                if texts@.len() != 1 {
                    assert(ints@ =~= Seq::new(tv.len(), |i: int| int_of(tv[i]) as i64));
                }
            }
            self.token(Token::from_ints(ints))
        }
    }

    /// Reads the next token, interning the symbols and identifiers it holds;
    /// `None` at the end of the input. See [`lex`].
    pub fn next(&mut self, interner: &mut Interner) -> (r: Option<Result<Spanned<Token>, Error>>)
        requires
            old(self).wf(),
            old(self).fresh(),
            old(interner).wf(),
        ensures
            final(self).wf(),
            final(self).fresh(),
            final(interner).wf(),
            final(self).src() == old(self).src(),
            r is Some ==> final(self).pos() > old(self).pos(),
            r matches Some(Ok(t)) ==> old(self).pos() <= t.0 <= t.2 == final(self).pos(),
            final(interner)@.len() >= old(interner)@.len(),
            item_sound(r, final(interner)@.len()),
            item_view(r) == lex(old(self).src(), old(self).pos(), old(interner)@).item,
            final(self).pos() == lex(old(self).src(), old(self).pos(), old(interner)@).pos,
            final(interner)@ == lex(old(self).src(), old(self).pos(), old(interner)@).names,
    {
        let ghost src = self.src();
        let ghost names = interner@;
        let ghost goal = lex(src, self.pos(), names);
        loop
            invariant
                self.wf(),
                self.fresh(),
                interner.wf(),
                self.src() == src,
                src == old(self).src(),
                interner@ == names,
                names == old(interner)@,
                goal == lex(old(self).src(), old(self).pos(), old(interner)@),
                goal == lex(src, self.pos(), names),
                self.pos() >= old(self).pos(),
            decreases src.len() - self.pos(),
        {
            proof {
                self.stream.lemma_cursor_range();
            }
            let c = match self.look(0) {
                None => {
                    return None;
                },
                Some(c) => c,
            };
            let ghost p = self.pos();
            let prev = self.stream.curr();
            let next = self.look(1);
            if c == 0x09 || c == 0x0c || c == 0x0d || c == 0x20 {
                self.step();
                proof {
                    lemma_run_end(src, p + 1, ByteClass::Blank);
                }
                self.skip_whitespace();
                continue ;
            }
            let comment = match prev {
                Some(b) => b == 0x09 || b == 0x0c || b == 0x0d || b == 0x20 || b == 0x0a,
                None => true,
            };
            if c == 0x2f && comment {
                self.step();
                proof {
                    lemma_run_end(src, p + 1, ByteClass::NotNewline);
                }
                self.skip_comment();
                continue ;
            }
            let alpha = (0x61 <= c && c <= 0x7a) || (0x41 <= c && c <= 0x5a);
            let digit = 0x30 <= c && c <= 0x39;
            let tok = if c == 0x0a {
                self.step();
                self.newline()
            } else if c == 0x60 {
                self.step();
                self.symbol(interner)
            } else if c == 0x22 {
                self.step();
                self.string()
            } else if alpha {
                self.step();
                self.identifier(interner)
            } else {
                let colon = match next {
                    Some(n) => n == 0x3a,
                    None => false,
                };
                let operand = match prev {
                    Some(b) => b == 0x29 || b == 0x7d || b == 0x5d || (0x30 <= b && b <= 0x39) || (
                    0x61 <= b && b <= 0x7a) || (0x41 <= b && b <= 0x5a),
                    None => false,
                };
                let numeric = if digit {
                    !(c <= 0x32 && colon)
                } else if c == 0x2e {
                    self.is_num_start()
                } else if c == 0x2d && !operand {
                    let backtrack = self.stream;
                    self.step();
                    let b = self.is_num_start();
                    self.stream = backtrack;
                    b
                } else {
                    false
                };
                if numeric {
                    self.number()
                } else {
                    match simple_token_exec(c, next) {
                        Some((t, n)) => {
                            self.step();
                            if n == 2 {
                                self.step();
                            }
                            self.token(t)
                        },
                        None => {
                            self.step();
                            self.error(ErrorCode::UnrecognizedToken)
                        },
                    }
                }
            };
            self.bump();
            return tok;
        }
    }
}

/// Whether the tokens stand in the order of the source: no span ends before
/// it starts or after the next one starts.
pub open spec fn tokens_in_order(ts: Seq<Spanned<TokenView>>) -> bool {
    &&& forall|i: int| 0 <= i < ts.len() ==> (#[trigger] ts[i]).0 <= ts[i].2
    &&& forall|i: int, j: int|
        0 <= i < j < ts.len() ==> (#[trigger] ts[i]).2 <= (#[trigger] ts[j]).0
}

/// Whether every token of `ts` is sound for an interner with `n` strings.
pub open spec fn tokens_sound(ts: Seq<Spanned<TokenView>>, n: nat) -> bool {
    forall|i: int| 0 <= i < ts.len() ==> (#[trigger] ts[i]).1.sound(n)
}

/// A sound token stays sound as the interner grows.
pub proof fn lemma_token_sound_grows(t: TokenView, n: nat, m: nat)
    requires
        t.sound(n),
        n <= m,
    ensures
        t.sound(m),
{
    if let TokenView::Literal(v) = t {
        lemma_interned_grows(v, n, m);
    }
}

/// What each token of `ts` stands for, with its span.
pub open spec fn token_views(ts: Seq<Spanned<Token>>) -> Seq<Spanned<TokenView>> {
    Seq::new(ts.len(), |i: int| Spanned(ts[i].0, ts[i].1@, ts[i].2))
}

/// What reading a whole input gives: its tokens or the first error, and the
/// interner's table afterwards.
pub struct Lexed {
    pub result: Result<Seq<Spanned<TokenView>>, Error>,
    pub names: Seq<Seq<u8>>,
}

/// Reads the tokens of `src` from offset `p` to the end, `tokens` being
/// those before `p`; the first error ends the reading. (Every token takes
/// at least one byte, so the test on the new offset never fails: see
/// [`lemma_lex_advances`].)
pub open spec fn lex_all(
    src: Seq<u8>,
    p: int,
    names: Seq<Seq<u8>>,
    tokens: Seq<Spanned<TokenView>>,
) -> Lexed
    decreases src.len() - p,
{
    let s = lex(src, p, names);
    match s.item {
        None => Lexed { result: Ok(tokens), names: s.names },
        Some(Lexeme::Error(at, code)) => Lexed {
            result: Err(Error { location: at as usize, code }),
            names: s.names,
        },
        Some(Lexeme::Token(a, t, b)) => {
            let tokens = tokens.push(Spanned(a as usize, t, b as usize));
            if p < s.pos <= src.len() {
                lex_all(src, s.pos, s.names, tokens)
            } else {
                Lexed { result: Ok(tokens), names: s.names }
            }
        },
    }
}

/// Reads all tokens of `src`, interning its symbols and identifiers in
/// `interner`: see [`lex_all`].
pub fn tokenize(src: &[u8], interner: &mut Interner) -> (r: Result<Vec<Spanned<Token>>, Error>)
    requires
        old(interner).wf(),
    ensures
        final(interner).wf(),
        final(interner)@ == lex_all(src@, 0, old(interner)@, Seq::empty()).names,
        final(interner)@.len() >= old(interner)@.len(),
        r matches Ok(tokens) ==> tokens_sound(token_views(tokens@), final(interner)@.len()),
        r matches Ok(tokens) ==> tokens_in_order(token_views(tokens@)),
        match r {
            Ok(tokens) => lex_all(src@, 0, old(interner)@, Seq::empty()).result == Ok::<
                Seq<Spanned<TokenView>>,
                Error,
            >(token_views(tokens@)),
            Err(e) => lex_all(src@, 0, old(interner)@, Seq::empty()).result == Err::<
                Seq<Spanned<TokenView>>,
                Error,
            >(e),
        },
{
    let mut tokenizer = Tokenizer::new(src);
    let mut tokens: Vec<Spanned<Token>> = Vec::new();
    let ghost goal = lex_all(src@, 0, interner@, Seq::empty());
    assert(token_views(tokens@) =~= Seq::empty());
    loop
        invariant
            tokenizer.wf(),
            tokenizer.fresh(),
            interner.wf(),
            tokenizer.src() == src@,
            goal == lex_all(src@, 0, old(interner)@, Seq::empty()),
            goal == lex_all(src@, tokenizer.pos(), interner@, token_views(tokens@)),
            interner@.len() >= old(interner)@.len(),
            tokens_sound(token_views(tokens@), interner@.len()),
            tokens_in_order(token_views(tokens@)),
            forall|i: int|
                0 <= i < tokens@.len() ==> (#[trigger] token_views(tokens@)[i]).2 <= tokenizer.pos(),
        decreases src@.len() - tokenizer.pos(),
    {
        proof {
            tokenizer.lemma_pos_range();
        }
        let ghost before = token_views(tokens@);
        let ghost n = interner@.len();
        match tokenizer.next(interner) {
            None => {
                return Ok(tokens);
            },
            Some(Err(e)) => {
                return Err(e);
            },
            Some(Ok(token)) => {
                proof {
                    tokenizer.lemma_pos_range();
                }
                tokens.push(token);
                assert(token_views(tokens@) =~= before.push(Spanned(token.0, token.1@, token.2)));
                assert forall|i: int| 0 <= i < tokens@.len() implies (#[trigger] token_views(
                    tokens@,
                )[i]).1.sound(interner@.len()) by {
                    if i < before.len() {
                        lemma_token_sound_grows(before[i].1, n, interner@.len());
                    }
                }
            },
        }
    }
}

/// The kind of a lexical error among the kinds of all stages.
pub open spec fn lexer_code(code: ErrorCode) -> LexerErrorCode {
    match code {
        ErrorCode::UnterminatedString => LexerErrorCode::UnterminatedString,
        ErrorCode::UnterminatedEscape => LexerErrorCode::UnterminatedEscape,
        ErrorCode::UnterminatedFloatExponent => LexerErrorCode::UnterminatedFloatExponent,
        ErrorCode::UnrecognizedEscape => LexerErrorCode::UnrecognizedEscape,
        ErrorCode::UnrecognizedToken => LexerErrorCode::UnrecognizedToken,
        ErrorCode::InvalidNumber => LexerErrorCode::InvalidNumber,
        ErrorCode::ParseFloatError => LexerErrorCode::ParseFloatError,
        ErrorCode::ParseIntError(kind) => LexerErrorCode::ParseIntError(kind),
    }
}

impl Error {
    /// The error in the form that the errors of all stages share.
    pub fn located(&self) -> (e: LexerError)
        ensures
            e.location == self.location,
            e.code == lexer_code(self.code),
    {
        let code = match self.code {
            ErrorCode::UnterminatedString => LexerErrorCode::UnterminatedString,
            ErrorCode::UnterminatedEscape => LexerErrorCode::UnterminatedEscape,
            ErrorCode::UnterminatedFloatExponent => LexerErrorCode::UnterminatedFloatExponent,
            ErrorCode::UnrecognizedEscape => LexerErrorCode::UnrecognizedEscape,
            ErrorCode::UnrecognizedToken => LexerErrorCode::UnrecognizedToken,
            ErrorCode::InvalidNumber => LexerErrorCode::InvalidNumber,
            ErrorCode::ParseFloatError => LexerErrorCode::ParseFloatError,
            ErrorCode::ParseIntError(kind) => LexerErrorCode::ParseIntError(kind),
        };
        LexerError { location: self.location, code }
    }
}

/// Reading the body of a string literal never goes back nor beyond the
/// input.
pub proof fn lemma_quoted_advances(src: Seq<u8>, q: int, text: Seq<u8>)
    requires
        0 <= q <= src.len(),
    ensures
        q <= quoted(src, q, text).end <= src.len(),
    decreases src.len() - q,
{
    if q < src.len() && src[q] != 0x22 {
        if src[q] == 0x5c {
            if q + 1 < src.len() {
                if let Some(b) = unescape(src[q + 1]) {
                    lemma_quoted_advances(src, q + 2, text.push(b));
                }
            }
        } else {
            lemma_quoted_advances(src, q + 1, text.push(src[q]));
        }
    }
}

/// Reading a symbol literal never goes back nor beyond the input: the test
/// on the offset in [`symbols`] never fails.
pub proof fn lemma_symbols_advance(src: Seq<u8>, q: int, names: Seq<Seq<u8>>, syms: Seq<Sym>)
    requires
        0 <= q <= src.len(),
    ensures
        q <= symbols(src, q, names, syms).end <= src.len(),
    decreases src.len() - q,
{
    lemma_run_end(src, q, ByteClass::SymbolChar);
    let e = run_end(src, q, ByteClass::SymbolChar);
    if e < src.len() && src[e] == 0x60 {
        let name = src.subrange(q, e);
        let names = interned(names, name);
        lemma_symbols_advance(src, e + 1, names, syms.push(Sym(index_of(names, name) as usize)));
    }
}

/// Reading a token never goes beyond the input, and a token or an error
/// takes at least one byte: the test on the offset in [`lex_all`] never
/// fails.
pub proof fn lemma_lex_advances(src: Seq<u8>, p: int, names: Seq<Seq<u8>>)
    requires
        0 <= p <= src.len(),
    ensures
        p <= lex(src, p, names).pos <= src.len(),
        lex(src, p, names).item is Some ==> p < lex(src, p, names).pos,
    decreases src.len() - p,
{
    if p < src.len() {
        let c = src[p];
        if is_blank(c) {
            lemma_run_end(src, p + 1, ByteClass::Blank);
            lemma_lex_advances(src, run_end(src, p + 1, ByteClass::Blank), names);
        } else if c == 0x2f && comment_here(src, p) {
            lemma_run_end(src, p + 1, ByteClass::NotNewline);
            lemma_lex_advances(src, run_end(src, p + 1, ByteClass::NotNewline), names);
        } else if c == 0x0a {
            lemma_run_end(src, p + 1, ByteClass::Newline);
        } else if c == 0x60 {
            lemma_symbols_advance(src, p + 1, names, Seq::empty());
        } else if c == 0x22 {
            lemma_quoted_advances(src, p + 1, Seq::empty());
        } else if is_alpha(c) {
            lemma_run_end(src, p + 1, ByteClass::Alnum);
        } else if number_here(src, p) {
            lemma_run_advances(src, p, Seq::empty(), false);
        }
    }
}

} // verus!
