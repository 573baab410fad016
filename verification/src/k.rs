use std::sync::Arc;
use vstd::prelude::*;

use crate::sym::Sym;

pub mod arith;

verus! {

/// The built-in operators.
#[derive(Copy, Clone, Debug, PartialEq, Eq, Structural)]
pub enum Verb {
    Colon,
    Plus,
    Minus,
    Star,
    Percent,
    And,
    Pipe,
    Caret,
    Eq,
    Lt,
    Gt,
    Dollar,
    Comma,
    Hash,
    Underscore,
    Tilde,
    Bang,
    Question,
    At,
    Dot,
    ZeroColon,
    OneColon,
    TwoColon,
}

/// The modifiers of verbs.
#[derive(Copy, Clone, Debug, PartialEq, Eq, Structural)]
pub enum Adverb {
    Quote,
    Slash,
    Backslash,
    QuoteColon,
    SlashColon,
    BackslashColon,
}

/// The four arithmetic operations on numbers.
#[derive(Copy, Clone, Debug, PartialEq, Eq, Structural)]
pub enum ArithOp {
    Add,
    Sub,
    Mul,
    Div,
}

/// A floating-point number, held as the exact term that denotes it: a
/// decimal literal, an integer to be converted, or an operation on such
/// terms. The evaluator never looks into a float, so it carries the term
/// along; whoever needs the number reduces the term in IEEE arithmetic.
#[derive(Debug, PartialEq)]
pub enum FloatTerm {
    /// The text of a decimal literal, as it stood in the source.
    Literal(Vec<u8>),
    /// The float nearest to an integer.
    FromInt(i64),
    Neg(Float),
    Binary(ArithOp, Float, Float),
}

/// A shared handle on a [`FloatTerm`].
#[derive(Debug, PartialEq)]
pub struct Float(pub Arc<FloatTerm>);

/// What a [`Float`] stands for.
pub enum FloatView {
    Literal(Seq<u8>),
    FromInt(i64),
    Neg(Box<FloatView>),
    Binary(ArithOp, Box<FloatView>, Box<FloatView>),
}

/// The shapes a value can have.
#[derive(Debug, PartialEq)]
pub enum K0 {
    Nil,
    Char(u8),
    Int(i64),
    Float(Float),
    Sym(Sym),
    Name(Sym),
    Verb(Verb),
    Adverb(Adverb),
    CharList(Vec<u8>),
    IntList(Vec<i64>),
    FloatList(Vec<Float>),
    SymList(Vec<Sym>),
    GenList(Vec<K>),
}

/// A value: a shared, immutable handle on a [`K0`].
#[derive(Debug, PartialEq)]
pub struct K(pub Arc<K0>);

/// What a [`K`] stands for.
pub enum Value {
    Nil,
    Char(u8),
    Int(i64),
    Float(FloatView),
    Sym(Sym),
    Name(Sym),
    Verb(Verb),
    Adverb(Adverb),
    CharList(Seq<u8>),
    IntList(Seq<i64>),
    FloatList(Seq<FloatView>),
    SymList(Seq<Sym>),
    GenList(Seq<Value>),
}

/// Whether `c` is a decimal digit.
pub open spec fn is_digit(c: u8) -> bool {
    0x30 <= c <= 0x39
}

/// The first offset at or after `from` where `s` holds no digit.
pub open spec fn digits_end(s: Seq<u8>, from: int) -> int
    decreases s.len() - from,
{
    if 0 <= from < s.len() && is_digit(s[from]) {
        digits_end(s, from + 1)
    } else {
        from
    }
}

/// Whether `s` is the text of a decimal number: an optional `-`, then digits
/// with an optional `.` among them (at least one digit in all), then
/// an optional exponent of `e` or `E`, an optional sign and at least one digit.
pub open spec fn is_decimal(s: Seq<u8>) -> bool {
    let a = if s.len() > 0 && s[0] == 0x2d {
        1int
    } else {
        0int
    };
    let b = digits_end(s, a);
    let c = if b < s.len() && s[b] == 0x2e {
        b + 1
    } else {
        b
    };
    let d = digits_end(s, c);
    let mantissa_digits = (b - a) + (d - c);
    &&& mantissa_digits > 0
    &&& d == s.len() || {
        &&& s[d] == 0x65 || s[d] == 0x45
        &&& {
            let e = if d + 1 < s.len() && (s[d + 1] == 0x2b || s[d + 1] == 0x2d) {
                d + 2
            } else {
                d + 1
            };
            e < s.len() && digits_end(s, e) == s.len()
        }
    }
}

impl FloatView {
    /// Every literal in the term is the text of a decimal number.
    pub open spec fn wf(self) -> bool
        decreases self,
    {
        match self {
            FloatView::Literal(s) => is_decimal(s),
            FloatView::FromInt(_) => true,
            FloatView::Neg(x) => x.wf(),
            FloatView::Binary(_, x, y) => x.wf() && y.wf(),
        }
    }
}

impl FloatTerm {
    pub open spec fn term_view(&self) -> FloatView
        decreases self,
    {
        match self {
            FloatTerm::Literal(s) => FloatView::Literal(s@),
            FloatTerm::FromInt(i) => FloatView::FromInt(*i),
            FloatTerm::Neg(x) => FloatView::Neg(Box::new(x.0.term_view())),
            FloatTerm::Binary(op, x, y) => FloatView::Binary(
                *op,
                Box::new(x.0.term_view()),
                Box::new(y.0.term_view()),
            ),
        }
    }
}

impl View for Float {
    type V = FloatView;

    open spec fn view(&self) -> FloatView {
        self.0.term_view()
    }
}

/// A second handle on the value behind `a`.
///
/// Calls `Arc::clone`, of which this states that the new handle leads to the
/// same value as the old one.
#[verifier::external_body]
fn share<T>(a: &Arc<T>) -> (r: Arc<T>)
    ensures
        r == *a,
{
    Arc::clone(a)
}

impl Clone for Float {
    fn clone(&self) -> (r: Self)
        ensures
            r == *self,
    {
        Float(share(&self.0))
    }
}

impl Float {
    pub fn new(term: FloatTerm) -> (f: Float)
        ensures
            f@ == term.term_view(),
            *f.0 == term,
    {
        Float(Arc::new(term))
    }

    /// The float that a decimal literal denotes.
    pub fn literal(text: Vec<u8>) -> (f: Float)
        ensures
            f@ == FloatView::Literal(text@),
    {
        Float::new(FloatTerm::Literal(text))
    }

    /// The float nearest to `i`.
    pub fn from_int(i: i64) -> (f: Float)
        ensures
            f@ == FloatView::FromInt(i),
    {
        Float::new(FloatTerm::FromInt(i))
    }

    /// The negation of `self`.
    pub fn neg(&self) -> (f: Float)
        ensures
            f@ == FloatView::Neg(Box::new(self@)),
    {
        Float::new(FloatTerm::Neg(self.clone()))
    }

    /// `self op rhs`.
    pub fn binary(&self, op: ArithOp, rhs: &Float) -> (f: Float)
        ensures
            f@ == FloatView::Binary(op, Box::new(self@), Box::new(rhs@)),
    {
        Float::new(FloatTerm::Binary(op, self.clone(), rhs.clone()))
    }
}

impl K0 {
    pub open spec fn shape_view(&self) -> Value
        decreases self,
    {
        match self {
            K0::Nil => Value::Nil,
            K0::Char(c) => Value::Char(*c),
            K0::Int(i) => Value::Int(*i),
            K0::Float(f) => Value::Float(f@),
            K0::Sym(s) => Value::Sym(*s),
            K0::Name(s) => Value::Name(*s),
            K0::Verb(v) => Value::Verb(*v),
            K0::Adverb(a) => Value::Adverb(*a),
            K0::CharList(v) => Value::CharList(v@),
            K0::IntList(v) => Value::IntList(v@),
            K0::FloatList(v) => Value::FloatList(Seq::new(v@.len(), |i: int| v@[i]@)),
            K0::SymList(v) => Value::SymList(v@),
            K0::GenList(v) => Value::GenList(
                Seq::new(
                    v@.len(),
                    |i: int|
                        if 0 <= i < v@.len() {
                            v@[i].0.shape_view()
                        } else {
                            Value::Nil
                        },
                ),
            ),
        }
    }
}

impl View for K0 {
    type V = Value;

    open spec fn view(&self) -> Value {
        self.shape_view()
    }
}

impl View for K {
    type V = Value;

    open spec fn view(&self) -> Value {
        self.0.shape_view()
    }
}

impl Clone for K {
    fn clone(&self) -> (r: Self)
        ensures
            r == *self,
    {
        K(share(&self.0))
    }
}

/// The views of the floats in `v`.
pub open spec fn float_views(v: Seq<Float>) -> Seq<FloatView> {
    Seq::new(v.len(), |i: int| v[i]@)
}

/// The views of the values in `v`.
pub open spec fn views(v: Seq<K>) -> Seq<Value> {
    Seq::new(v.len(), |i: int| v[i]@)
}

impl Value {
    /// Whether the value is a character, an integer, a float or a symbol:
    /// the kinds that have a list of their own.
    pub open spec fn is_atom(self) -> bool {
        self is Char || self is Int || self is Float || self is Sym
    }

    /// Whether `self` and `other` are atoms of one kind.
    pub open spec fn same_atom(self, other: Value) -> bool {
        ||| self is Char && other is Char
        ||| self is Int && other is Int
        ||| self is Float && other is Float
        ||| self is Sym && other is Sym
    }

    /// The data-model invariant: a general list is never one that has a
    /// homogeneous list for it (see [`normalize`]), at any depth; and every
    /// float is well formed.
    pub open spec fn wf(self) -> bool
        decreases self,
    {
        match self {
            Value::Float(f) => f.wf(),
            Value::FloatList(s) => forall|i: int| 0 <= i < s.len() ==> (#[trigger] s[i]).wf(),
            Value::GenList(s) => !homogeneous(s) && forall|i: int|
                0 <= i < s.len() ==> (#[trigger] s[i]).wf(),
            _ => true,
        }
    }
}

impl Value {
    /// Whether every symbol and name in the value is a handle that an
    /// interner with `n` strings has issued.
    pub open spec fn interned(self, n: nat) -> bool
        decreases self,
    {
        match self {
            Value::Sym(s) => s.0 < n,
            Value::Name(s) => s.0 < n,
            Value::SymList(l) => forall|i: int| 0 <= i < l.len() ==> (#[trigger] l[i]).0 < n,
            Value::GenList(l) => forall|i: int| 0 <= i < l.len() ==> (#[trigger] l[i]).interned(n),
            _ => true,
        }
    }
}

impl Value {
    /// Whether the value is well formed and holds only handles that an
    /// interner with `n` strings has issued.
    pub open spec fn sound(self, n: nat) -> bool {
        self.wf() && self.interned(n)
    }
}

/// A handle that was issued stays issued as the interner grows.
pub proof fn lemma_interned_grows(v: Value, n: nat, m: nat)
    requires
        v.interned(n),
        n <= m,
    ensures
        v.interned(m),
    decreases v,
{
    match v {
        Value::SymList(l) => {
            assert forall|i: int| 0 <= i < l.len() implies (#[trigger] l[i]).0 < m by {
                assert(l[i].0 < n);
            }
        },
        Value::GenList(l) => {
            assert forall|i: int| 0 <= i < l.len() implies (#[trigger] l[i]).interned(m) by {
                assert(l[i].interned(n));
                lemma_interned_grows(l[i], n, m);
            }
        },
        _ => {},
    }
}

/// A list made by [`normalize`] holds the handles of its items and no
/// others.
pub proof fn lemma_normalize_interned(s: Seq<Value>, n: nat)
    requires
        forall|i: int| 0 <= i < s.len() ==> (#[trigger] s[i]).interned(n),
    ensures
        normalize(s).interned(n),
{
    if homogeneous(s) {
        match s[0] {
            Value::Sym(_) => {
                let l = Seq::new(s.len(), |i: int| s[i]->Sym_0);
                assert forall|i: int| 0 <= i < l.len() implies (#[trigger] l[i]).0 < n by {
                    assert(s[i].interned(n));
                    assert(s[0].same_atom(s[i]));
                }
            },
            _ => {},
        }
    }
}

/// Whether `s` is not empty and holds atoms of one kind only.
pub open spec fn homogeneous(s: Seq<Value>) -> bool {
    s.len() > 0 && s[0].is_atom() && forall|i: int|
        0 <= i < s.len() ==> s[0].same_atom(#[trigger] s[i])
}

/// The list made of the values `s`: the homogeneous list of their kind if
/// they are atoms of one kind (and at least one), else the general list.
pub open spec fn normalize(s: Seq<Value>) -> Value {
    if !homogeneous(s) {
        Value::GenList(s)
    } else {
        match s[0] {
            Value::Char(_) => Value::CharList(Seq::new(s.len(), |i: int| s[i]->Char_0)),
            Value::Int(_) => Value::IntList(Seq::new(s.len(), |i: int| s[i]->Int_0)),
            Value::Float(_) => Value::FloatList(Seq::new(s.len(), |i: int| s[i]->Float_0)),
            _ => Value::SymList(Seq::new(s.len(), |i: int| s[i]->Sym_0)),
        }
    }
}

/// A list made by [`normalize`] from well-formed values is well formed.
pub proof fn lemma_normalize_wf(s: Seq<Value>)
    requires
        forall|i: int| 0 <= i < s.len() ==> (#[trigger] s[i]).wf(),
    ensures
        normalize(s).wf(),
{
    if homogeneous(s) {
        match s[0] {
            Value::Float(_) => {
                let l = Seq::new(s.len(), |i: int| s[i]->Float_0);
                assert forall|i: int| 0 <= i < l.len() implies (#[trigger] l[i]).wf() by {
                    assert(s[i].wf());
                    assert(s[0].same_atom(s[i]));
                }
            },
            _ => {},
        }
    }
}

impl K {
    pub fn new(k0: K0) -> (k: K)
        ensures
            k@ == k0@,
            *k.0 == k0,
    {
        K(Arc::new(k0))
    }

    /// The shape behind the handle.
    pub fn shape(&self) -> (k0: &K0)
        ensures
            *k0 == *self.0,
            k0@ == self@,
    {
        &*self.0
    }

    /// Whether the value is a character, an integer, a float or a symbol.
    fn is_atom(&self) -> (b: bool)
        ensures
            b == self@.is_atom(),
    {
        match &*self.0 {
            K0::Char(_) | K0::Int(_) | K0::Float(_) | K0::Sym(_) => true,
            _ => false,
        }
    }

    /// Whether `self` and `other` are atoms of one kind.
    fn same_atom(&self, other: &K) -> (b: bool)
        ensures
            b == self@.same_atom(other@),
    {
        match (&*self.0, &*other.0) {
            (K0::Char(_), K0::Char(_)) => true,
            (K0::Int(_), K0::Int(_)) => true,
            (K0::Float(_), K0::Float(_)) => true,
            (K0::Sym(_), K0::Sym(_)) => true,
            _ => false,
        }
    }

    /// Whether `items` call for a homogeneous list.
    fn homogeneous(items: &Vec<K>) -> (b: bool)
        ensures
            b == homogeneous(views(items@)),
    {
        if items.len() == 0 {
            return false;
        }
        if !items[0].is_atom() {
            return false;
        }
        let ghost s = views(items@);
        let mut i: usize = 1;
        while i < items.len()
            invariant
                1 <= i <= items@.len(),
                s == views(items@),
                forall|j: int| 0 <= j < i ==> s[0].same_atom(#[trigger] s[j]),
            decreases items@.len() - i,
        {
            if !items[0].same_atom(&items[i]) {
                assert(!s[0].same_atom(s[i as int]));
                return false;
            }
            i += 1;
        }
        true
    }

    /// Makes a list of `items`: a character, integer, float or symbol list
    /// if the items are all of that one kind (and there is at least one),
    /// else a general list.
    pub fn from_list(items: Vec<K>) -> (k: K)
        ensures
            k@ == normalize(views(items@)),
            (forall|i: int| 0 <= i < items@.len() ==> (#[trigger] items@[i])@.wf()) ==> k@.wf(),
    {
        let ghost s = views(items@);
        proof {
            if forall|i: int| 0 <= i < items@.len() ==> (#[trigger] items@[i])@.wf() {
                assert forall|i: int| 0 <= i < s.len() implies (#[trigger] s[i]).wf() by {
                    assert(items@[i]@.wf());
                }
                lemma_normalize_wf(s);
            }
        }
        if !K::homogeneous(&items) {
            let k = K::new(K0::GenList(items));
            assert(k@->GenList_0 =~= s);
            return k;
        }
        let n = items.len();
        match &*items[0].0 {
            K0::Char(_) => {
                let mut out: Vec<u8> = Vec::new();
                let mut i: usize = 0;
                while i < n
                    invariant
                        i <= n,
                        n == items@.len(),
                        s == views(items@),
                        homogeneous(s),
                        s[0] is Char,
                        out@.len() == i,
                        forall|j: int| 0 <= j < i ==> out@[j] == s[j]->Char_0,
                    decreases n - i,
                {
                    assert(s[0].same_atom(s[i as int]));
                    match &*items[i].0 {
                        K0::Char(c) => out.push(*c),
                        _ => {},
                    }
                    i += 1;
                }
                let k = K::new(K0::CharList(out));
                assert(k@->CharList_0 =~= normalize(s)->CharList_0);
                k
            },
            K0::Int(_) => {
                let mut out: Vec<i64> = Vec::new();
                let mut i: usize = 0;
                while i < n
                    invariant
                        i <= n,
                        n == items@.len(),
                        s == views(items@),
                        homogeneous(s),
                        s[0] is Int,
                        out@.len() == i,
                        forall|j: int| 0 <= j < i ==> out@[j] == s[j]->Int_0,
                    decreases n - i,
                {
                    assert(s[0].same_atom(s[i as int]));
                    match &*items[i].0 {
                        K0::Int(x) => out.push(*x),
                        _ => {},
                    }
                    i += 1;
                }
                let k = K::new(K0::IntList(out));
                assert(k@->IntList_0 =~= normalize(s)->IntList_0);
                k
            },
            K0::Float(_) => {
                let mut out: Vec<Float> = Vec::new();
                let mut i: usize = 0;
                while i < n
                    invariant
                        i <= n,
                        n == items@.len(),
                        s == views(items@),
                        homogeneous(s),
                        s[0] is Float,
                        out@.len() == i,
                        forall|j: int| 0 <= j < i ==> out@[j]@ == s[j]->Float_0,
                    decreases n - i,
                {
                    assert(s[0].same_atom(s[i as int]));
                    match &*items[i].0 {
                        K0::Float(x) => out.push(x.clone()),
                        _ => {},
                    }
                    i += 1;
                }
                let k = K::new(K0::FloatList(out));
                assert(k@->FloatList_0 =~= normalize(s)->FloatList_0);
                k
            },
            _ => {
                let mut out: Vec<Sym> = Vec::new();
                let mut i: usize = 0;
                while i < n
                    invariant
                        i <= n,
                        n == items@.len(),
                        s == views(items@),
                        homogeneous(s),
                        s[0] is Sym,
                        out@.len() == i,
                        forall|j: int| 0 <= j < i ==> out@[j] == s[j]->Sym_0,
                    decreases n - i,
                {
                    assert(s[0].same_atom(s[i as int]));
                    match &*items[i].0 {
                        K0::Sym(x) => out.push(*x),
                        _ => {},
                    }
                    i += 1;
                }
                let k = K::new(K0::SymList(out));
                assert(k@->SymList_0 =~= normalize(s)->SymList_0);
                k
            },
        }
    }
}

} // verus!
