use vstd::prelude::*;
use vstd::string::StringExecFns;

use crate::k::{Adverb, Float, Value, Verb, K, K0};
use crate::sym::{Interner, Sym};

verus! {

/// The text that lossy UTF-8 decoding makes of `bytes`.
pub uninterp spec fn lossy(bytes: Seq<u8>) -> Seq<char>;

/// The text of `s` in quotes, with escapes, as debug formatting has it.
pub uninterp spec fn str_debug(s: Seq<char>) -> Seq<char>;

/// The text of the character with code `c` in quotes, with escapes, as
/// debug formatting has it.
pub uninterp spec fn char_debug(c: u8) -> Seq<char>;

/// The decimal digit `d`.
pub open spec fn digit_char(d: int) -> char {
    ((0x30 + d) as u8) as char
}

/// The decimal digits of `n`, without leading zeros.
pub open spec fn nat_text(n: nat) -> Seq<char>
    decreases n,
{
    if n < 10 {
        seq![digit_char(n as int)]
    } else {
        nat_text(n / 10).push(digit_char(n as int % 10))
    }
}

/// The decimal text of `i`, with a `-` in front if it is negative.
pub open spec fn int_text(i: int) -> Seq<char> {
    if i < 0 {
        seq!['-'] + nat_text((-i) as nat)
    } else {
        nat_text(i as nat)
    }
}

/// Decodes `bytes` as UTF-8, putting the replacement character in place of
/// what is not.
///
/// Calls `String::from_utf8_lossy`, of which this says only that the text
/// depends on the bytes alone.
#[verifier::external_body]
fn lossy_string(bytes: &[u8]) -> (s: String)
    ensures
        s@ == lossy(bytes@),
{
    String::from_utf8_lossy(bytes).into_owned()
}

/// The debug form of a string.
///
/// Calls the `Debug` formatting of `str`, of which this says only that the
/// text depends on the string alone.
#[verifier::external_body]
fn str_debug_string(s: &str) -> (out: String)
    ensures
        out@ == str_debug(s@),
{
    format!("{:?}", s)
}

/// The debug form of the character with code `c`.
///
/// Calls the `Debug` formatting of `char`, of which this says only that the
/// text depends on the character alone.
#[verifier::external_body]
fn char_debug_string(c: u8) -> (out: String)
    ensures
        out@ == char_debug(c),
{
    format!("{:?}", c as char)
}

/// The decimal form of an integer.
///
/// Calls the `Display` formatting of `i64`, which writes the number in base
/// ten, without leading zeros, and with a `-` in front if it is negative.
#[verifier::external_body]
fn int_string(i: i64) -> (out: String)
    ensures
        out@ == int_text(i as int),
{
    format!("{}", i)
}

/// The name of a verb.
pub open spec fn verb_name(v: Verb) -> Seq<char> {
    match v {
        Verb::Colon => "Colon"@,
        Verb::Plus => "Plus"@,
        Verb::Minus => "Minus"@,
        Verb::Star => "Star"@,
        Verb::Percent => "Percent"@,
        Verb::And => "And"@,
        Verb::Pipe => "Pipe"@,
        Verb::Caret => "Caret"@,
        Verb::Eq => "Eq"@,
        Verb::Lt => "Lt"@,
        Verb::Gt => "Gt"@,
        Verb::Dollar => "Dollar"@,
        Verb::Comma => "Comma"@,
        Verb::Hash => "Hash"@,
        Verb::Underscore => "Underscore"@,
        Verb::Tilde => "Tilde"@,
        Verb::Bang => "Bang"@,
        Verb::Question => "Question"@,
        Verb::At => "At"@,
        Verb::Dot => "Dot"@,
        Verb::ZeroColon => "ZeroColon"@,
        Verb::OneColon => "OneColon"@,
        Verb::TwoColon => "TwoColon"@,
    }
}

/// The name of an adverb.
pub open spec fn adverb_name(a: Adverb) -> Seq<char> {
    match a {
        Adverb::Quote => "Quote"@,
        Adverb::Slash => "Slash"@,
        Adverb::Backslash => "Backslash"@,
        Adverb::QuoteColon => "QuoteColon"@,
        Adverb::SlashColon => "SlashColon"@,
        Adverb::BackslashColon => "BackslashColon"@,
    }
}

fn verb_str(v: Verb) -> (s: &'static str)
    ensures
        s@ == verb_name(v),
{
    match v {
        Verb::Colon => "Colon",
        Verb::Plus => "Plus",
        Verb::Minus => "Minus",
        Verb::Star => "Star",
        Verb::Percent => "Percent",
        Verb::And => "And",
        Verb::Pipe => "Pipe",
        Verb::Caret => "Caret",
        Verb::Eq => "Eq",
        Verb::Lt => "Lt",
        Verb::Gt => "Gt",
        Verb::Dollar => "Dollar",
        Verb::Comma => "Comma",
        Verb::Hash => "Hash",
        Verb::Underscore => "Underscore",
        Verb::Tilde => "Tilde",
        Verb::Bang => "Bang",
        Verb::Question => "Question",
        Verb::At => "At",
        Verb::Dot => "Dot",
        Verb::ZeroColon => "ZeroColon",
        Verb::OneColon => "OneColon",
        Verb::TwoColon => "TwoColon",
    }
}

fn adverb_str(a: Adverb) -> (s: &'static str)
    ensures
        s@ == adverb_name(a),
{
    match a {
        Adverb::Quote => "Quote",
        Adverb::Slash => "Slash",
        Adverb::Backslash => "Backslash",
        Adverb::QuoteColon => "QuoteColon",
        Adverb::SlashColon => "SlashColon",
        Adverb::BackslashColon => "BackslashColon",
    }
}

/// What a float is, as far as its display goes: not a number, an infinity,
/// or a number with its decimal text.
#[derive(Debug, PartialEq)]
pub enum FloatClass {
    Nan,
    Infinite,
    NegInfinite,
    Finite(String),
}

/// The display form of a float: `0n` for what is not a number, `0w` and
/// `-0w` for the infinities, else the decimal text.
pub open spec fn float_display(class: FloatClass) -> Seq<char> {
    match class {
        FloatClass::Nan => "0n"@,
        FloatClass::Infinite => "0w"@,
        FloatClass::NegInfinite => "-0w"@,
        FloatClass::Finite(text) => text@,
    }
}

/// The display form of a float of the given class: see [`float_display`].
pub fn float_text(class: FloatClass) -> (out: String)
    ensures
        out@ == float_display(class),
{
    match class {
        FloatClass::Nan => String::from_str("0n"),
        FloatClass::Infinite => String::from_str("0w"),
        FloatClass::NegInfinite => String::from_str("-0w"),
        FloatClass::Finite(text) => text,
    }
}

/// The texts `parts` with `sep` between them.
pub open spec fn joined(parts: Seq<Seq<char>>, sep: Seq<char>) -> Seq<char>
    decreases parts.len(),
{
    if parts.len() == 0 {
        Seq::empty()
    } else if parts.len() == 1 {
        parts[0]
    } else {
        joined(parts.drop_last(), sep) + sep + parts.last()
    }
}

/// How [`joined`] goes on when a part is added.
pub proof fn lemma_joined_push(parts: Seq<Seq<char>>, sep: Seq<char>, part: Seq<char>)
    ensures
        joined(parts.push(part), sep) == if parts.len() == 0 {
            part
        } else {
            joined(parts, sep) + sep + part
        },
{
    assert(parts.push(part).drop_last() =~= parts);
}

/// The texts that `parts` hold.
pub open spec fn texts(parts: Seq<String>) -> Seq<Seq<char>> {
    Seq::new(parts.len(), |i: int| parts[i]@)
}

/// The texts of `parts` with `sep` between them.
pub fn join(parts: &Vec<String>, sep: &str) -> (out: String)
    ensures
        out@ == joined(texts(parts@), sep@),
{
    let ghost all = texts(parts@);
    let mut out = String::new();
    let mut i: usize = 0;
    assert(all.take(0) =~= Seq::empty());
    while i < parts.len()
        invariant
            i <= parts@.len(),
            all == texts(parts@),
            out@ == joined(all.take(i as int), sep@),
        decreases parts@.len() - i,
    {
        proof {
            lemma_joined_push(all.take(i as int), sep@, all[i as int]);
            assert(all.take(i + 1) =~= all.take(i as int).push(all[i as int]));
        }
        if i > 0 {
            out.append(sep);
        }
        out.append(parts[i].as_str());
        i += 1;
    }
    assert(all.take(i as int) =~= all);
    out
}

/// The display form of the symbol whose name reads `name`: a back-tick and
/// the name.
pub fn backticked(name: &str) -> (out: String)
    ensures
        out@ == "`"@ + name@,
{
    let mut out = String::from_str("`");
    out.append(name);
    out
}

/// `inner` in parentheses.
pub fn parenthesized(inner: &str) -> (out: String)
    ensures
        out@ == "("@ + inner@ + ")"@,
{
    let mut out = String::from_str("(");
    out.append(inner);
    out.append(")");
    out
}

/// The text of a symbol: a back-tick and its name.
pub open spec fn sym_text(names: Seq<Seq<u8>>, s: Sym) -> Seq<char> {
    "`"@ + lossy(names[s.0 as int])
}

/// Whether `out` is a text that the formatter `f` gives for `x`.
pub open spec fn float_shown<F: Fn(&Float) -> String>(f: F, x: Float, out: Seq<char>) -> bool {
    exists|s: String| call_ensures(f, (&x,), s) && s@ == out
}

/// Whether `out` is the display form of `k`, the symbols' names being
/// `names` and the floats being written by `f`.
///
/// Nil is `nil`. A character is written in quotes, a list of characters as
/// a string in quotes. An integer is written in decimal. A symbol and a
/// name are a back-tick and the name. A verb and an adverb are written by
/// name. Lists of integers and of floats are written with spaces between
/// the items, lists of symbols with nothing between them, and a general
/// list in parentheses with `;` between the items.
pub open spec fn renders<F: Fn(&Float) -> String>(
    k: K,
    names: Seq<Seq<u8>>,
    f: F,
    out: Seq<char>,
) -> bool
    decreases k,
{
    match *k.0 {
        K0::Nil => out == "nil"@,
        K0::Char(c) => out == char_debug(c),
        K0::Int(i) => out == int_text(i as int),
        K0::Float(x) => float_shown(f, x, out),
        K0::Sym(s) => out == sym_text(names, s),
        K0::Name(s) => out == sym_text(names, s),
        K0::Verb(v) => out == verb_name(v),
        K0::Adverb(a) => out == adverb_name(a),
        K0::CharList(v) => out == str_debug(lossy(v@)),
        K0::IntList(v) => out == joined(Seq::new(v@.len(), |i: int| int_text(v@[i] as int)), " "@),
        K0::FloatList(v) => exists|parts: Seq<Seq<char>>|
            {
                &&& parts.len() == v@.len()
                &&& forall|i: int| 0 <= i < v@.len() ==> float_shown(f, v@[i], #[trigger] parts[i])
                &&& out == joined(parts, " "@)
            },
        K0::SymList(v) => out == joined(Seq::new(v@.len(), |i: int| sym_text(names, v@[i])), ""@),
        K0::GenList(v) => exists|parts: Seq<Seq<char>>|
            {
                &&& parts.len() == v@.len()
                &&& forall|i: int|
                    0 <= i < v@.len() ==> renders(v@[i], names, f, #[trigger] parts[i])
                &&& out == "("@ + joined(parts, ";"@) + ")"@
            },
    }
}

impl Interner {
    /// The display form of a symbol: a back-tick and its name.
    pub fn show(&self, sym: Sym) -> (out: String)
        requires
            self.wf(),
            sym.0 < self@.len(),
        ensures
            out@ == sym_text(self@, sym),
    {
        let name = lossy_string(self.lookup(sym));
        backticked(name.as_str())
    }
}

impl K {
    /// Whether every symbol and name in the value is a handle that
    /// `interner` has issued.
    pub fn is_interned(&self, interner: &Interner) -> (b: bool)
        ensures
            b == self@.interned(interner@.len()),
        decreases self,
    {
        let n = interner.len();
        match self.shape() {
            K0::Sym(s) => s.0 < n,
            K0::Name(s) => s.0 < n,
            K0::SymList(v) => {
                let mut i: usize = 0;
                while i < v.len()
                    invariant
                        i <= v@.len(),
                        n == interner@.len(),
                        self@ == Value::SymList(v@),
                        forall|j: int| 0 <= j < i ==> (#[trigger] v@[j]).0 < n,
                    decreases v@.len() - i,
                {
                    if v[i].0 >= n {
                        assert((self@->SymList_0)[i as int] == v@[i as int]);
                        return false;
                    }
                    i += 1;
                }
                true
            },
            K0::GenList(v) => {
                let ghost l = self@->GenList_0;
                let mut i: usize = 0;
                while i < v.len()
                    invariant
                        i <= v@.len(),
                        l.len() == v@.len(),
                        self@ == Value::GenList(l),
                        *self.0 == K0::GenList(*v),
                        n == interner@.len(),
                        forall|j: int| 0 <= j < l.len() ==> l[j] == (#[trigger] v@[j])@,
                        forall|j: int| 0 <= j < i ==> (#[trigger] l[j]).interned(n as nat),
                    decreases v@.len() - i,
                {
                    assert(l[i as int] == v@[i as int]@);
                    if !v[i].is_interned(interner) {
                        assert(!(self@->GenList_0)[i as int].interned(n as nat));
                        return false;
                    }
                    i += 1;
                }
                true
            },
            _ => true,
        }
    }

    /// The display form of the value: see [`renders`]. The symbols' names
    /// are taken from `interner`; the floats are written by `float_text`.
    pub fn fmt<F: Fn(&Float) -> String>(&self, interner: &Interner, float_text: &F) -> (out: String)
        requires
            interner.wf(),
            self@.interned(interner@.len()),
            forall|x: &Float| call_requires(*float_text, (x,)),
        ensures
            renders(*self, interner@, *float_text, out@),
        decreases self,
    {
        match self.shape() {
            K0::Nil => String::from_str("nil"),
            K0::Char(c) => char_debug_string(*c),
            K0::Int(i) => int_string(*i),
            K0::Float(x) => float_text(x),
            K0::Sym(s) => interner.show(*s),
            K0::Name(s) => interner.show(*s),
            K0::Verb(v) => String::from_str(verb_str(*v)),
            K0::Adverb(a) => String::from_str(adverb_str(*a)),
            K0::CharList(v) => {
                let text = lossy_string(v.as_slice());
                str_debug_string(text.as_str())
            },
            K0::IntList(v) => {
                let mut parts: Vec<String> = Vec::new();
                let mut i: usize = 0;
                while i < v.len()
                    invariant
                        i <= v@.len(),
                        parts@.len() == i,
                        forall|j: int| 0 <= j < i ==> (#[trigger] parts@[j])@ == int_text(v@[j] as int),
                    decreases v@.len() - i,
                {
                    parts.push(int_string(v[i]));
                    i += 1;
                }
                assert(texts(parts@) =~= Seq::new(v@.len(), |i: int| int_text(v@[i] as int)));
                join(&parts, " ")
            },
            K0::FloatList(v) => {
                let mut parts: Vec<String> = Vec::new();
                let mut i: usize = 0;
                while i < v.len()
                    invariant
                        i <= v@.len(),
                        parts@.len() == i,
                        forall|x: &Float| call_requires(*float_text, (x,)),
                        forall|j: int|
                            0 <= j < i ==> float_shown(
                                *float_text,
                                v@[j],
                                #[trigger] texts(parts@)[j],
                            ),
                    decreases v@.len() - i,
                {
                    let ghost before = texts(parts@);
                    let item = float_text(&v[i]);
                    assert(float_shown(*float_text, v@[i as int], item@));
                    parts.push(item);
                    assert(texts(parts@) =~= before.push(item@));
                    i += 1;
                }
                join(&parts, " ")
            },
            K0::SymList(v) => {
                let ghost names = interner@;
                let mut parts: Vec<String> = Vec::new();
                let mut i: usize = 0;
                assert forall|j: int| 0 <= j < v@.len() implies (#[trigger] v@[j]).0
                    < names.len() by {
                    assert((self@->SymList_0)[j].0 < names.len());
                }
                while i < v.len()
                    invariant
                        i <= v@.len(),
                        parts@.len() == i,
                        interner.wf(),
                        names == interner@,
                        forall|j: int| 0 <= j < v@.len() ==> (#[trigger] v@[j]).0 < names.len(),
                        forall|j: int|
                            0 <= j < i ==> (#[trigger] parts@[j])@ == sym_text(names, v@[j]),
                    decreases v@.len() - i,
                {
                    parts.push(interner.show(v[i]));
                    i += 1;
                }
                assert(texts(parts@) =~= Seq::new(v@.len(), |i: int| sym_text(names, v@[i])));
                join(&parts, "")
            },
            K0::GenList(v) => {
                let ghost l = self@->GenList_0;
                let mut parts: Vec<String> = Vec::new();
                let mut i: usize = 0;
                while i < v.len()
                    invariant
                        i <= v@.len(),
                        parts@.len() == i,
                        interner.wf(),
                        l.len() == v@.len(),
                        self@ == Value::GenList(l),
                        *self.0 == K0::GenList(*v),
                        forall|j: int| 0 <= j < l.len() ==> l[j] == (#[trigger] v@[j])@,
                        forall|j: int| 0 <= j < l.len() ==> (#[trigger] l[j]).interned(interner@.len()),
                        forall|x: &Float| call_requires(*float_text, (x,)),
                        forall|j: int|
                            0 <= j < i ==> renders(
                                v@[j],
                                interner@,
                                *float_text,
                                #[trigger] texts(parts@)[j],
                            ),
                    decreases v@.len() - i,
                {
                    let ghost before = texts(parts@);
                    assert(l[i as int] == v@[i as int]@);
                    let item = v[i].fmt(interner, float_text);
                    parts.push(item);
                    assert(texts(parts@) =~= before.push(item@));
                    i += 1;
                }
                let inner = join(&parts, ";");
                parenthesized(inner.as_str())
            },
        }
    }
}

} // verus!
