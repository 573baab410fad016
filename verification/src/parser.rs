use vstd::prelude::*;

use crate::error::{ParserError, ParserErrorCode};
use crate::k::{float_views, Float, Value, Verb, K, K0};
use crate::span::Spanned;
use crate::tok::{token_views, tokens_in_order, tokens_sound, Token, TokenView};

verus! {

/// A node of the syntax tree. Every node carries the span of source text it
/// was read from. An argument or list slot that the source leaves empty is
/// `None`.
#[derive(Debug, PartialEq)]
pub enum ASTNode {
    /// A literal, a name, a verb or an adverb.
    Expr(Spanned<K>),
    /// A callee and its arguments.
    Apply(Spanned<(Box<ASTNode>, Vec<Option<ASTNode>>)>),
    /// Expressions separated by `;`.
    ExprList(Spanned<Vec<Option<ASTNode>>>),
}

/// What an [`ASTNode`] stands for: `(start, payload, end)` in each case.
pub enum Ast {
    Expr(int, Value, int),
    Apply(int, Box<Ast>, Seq<Option<Ast>>, int),
    ExprList(int, Seq<Option<Ast>>, int),
}

impl Ast {
    pub open spec fn start(self) -> int {
        match self {
            Ast::Expr(s, _, _) => s,
            Ast::Apply(s, _, _, _) => s,
            Ast::ExprList(s, _, _) => s,
        }
    }

    pub open spec fn end(self) -> int {
        match self {
            Ast::Expr(_, _, e) => e,
            Ast::Apply(_, _, _, e) => e,
            Ast::ExprList(_, _, e) => e,
        }
    }
}

impl Ast {
    /// Whether every value in the tree is sound for an interner with `n`
    /// strings: see [`Value::sound`].
    pub open spec fn sound(self, n: nat) -> bool
        decreases self,
    {
        match self {
            Ast::Expr(_, v, _) => v.sound(n),
            Ast::Apply(_, callee, args, _) => callee.sound(n) && slots_sound(args, n),
            Ast::ExprList(_, items, _) => slots_sound(items, n),
        }
    }
}

impl Ast {
    /// Whether the node's span lies within `[start, end]`.
    pub open spec fn within(self, start: int, end: int) -> bool {
        start <= self.start() && self.end() <= end
    }

    /// Whether the span of every node of the tree ends no earlier than it
    /// starts and covers the spans of the node's children.
    pub open spec fn covers(self) -> bool
        decreases self,
    {
        match self {
            Ast::Expr(s, _, e) => s <= e,
            Ast::Apply(s, callee, args, e) => s <= e && callee.covers() && callee.within(s, e)
                && slots_covered(args, s, e),
            Ast::ExprList(s, items, e) => s <= e && slots_covered(items, s, e),
        }
    }
}

/// Whether every tree in `slots` covers its children and lies within
/// `[start, end]`.
pub open spec fn slots_covered(slots: Seq<Option<Ast>>, start: int, end: int) -> bool
    decreases slots,
{
    forall|i: int|
        0 <= i < slots.len() ==> ((#[trigger] slots[i]) matches Some(a) ==> a.covers() && a.within(
            start,
            end,
        ))
}

/// Whether the tokens stand in the order of the source (see
/// [`tokens_in_order`]) and none is a brace, which has no span in the tree.
pub open spec fn tokens_ordered(ts: Seq<Spanned<TokenView>>) -> bool {
    &&& tokens_in_order(ts)
    &&& forall|i: int|
        0 <= i < ts.len() ==> !((#[trigger] ts[i]).1 is LtBrace) && !(ts[i].1 is RtBrace)
}

/// Whether `node`, read from the tokens `from` up to `to`, covers its
/// children and lies within the span of these tokens.
pub open spec fn spans_tokens(ts: Seq<Spanned<TokenView>>, from: int, to: int, node: Ast) -> bool {
    &&& 0 <= from < to <= ts.len()
    &&& node.covers()
    &&& node.within(ts[from].0 as int, ts[to - 1].2 as int)
}

/// Whether the tree in `r`, if there is one, was read from the tokens
/// `from` up to `to` as [`spans_tokens`] has it.
pub open spec fn parsed_spans(
    ts: Seq<Spanned<TokenView>>,
    from: int,
    to: int,
    r: Result<Option<ASTNode>, ParserError>,
) -> bool {
    r matches Ok(Some(node)) ==> spans_tokens(ts, from, to, node@)
}

/// Whether every tree in `slots` was read from tokens between `from` and
/// `to`: it covers its children and lies within the span of these tokens.
pub open spec fn slots_span(
    ts: Seq<Spanned<TokenView>>,
    from: int,
    to: int,
    slots: Seq<Option<Ast>>,
) -> bool {
    forall|i: int|
        0 <= i < slots.len() ==> ((#[trigger] slots[i]) matches Some(a) ==> spans_tokens(
            ts,
            from,
            to,
            a,
        ))
}

/// Whether every tree in `slots` is sound for an interner with `n` strings.
pub open spec fn slots_sound(slots: Seq<Option<Ast>>, n: nat) -> bool
    decreases slots,
{
    forall|i: int|
        0 <= i < slots.len() ==> ((#[trigger] slots[i]) matches Some(a) ==> a.sound(n))
}

/// What each slot of `v` stands for.
pub open spec fn slot_views(v: Seq<Option<ASTNode>>) -> Seq<Option<Ast>>
    decreases v,
{
    Seq::new(
        v.len(),
        |i: int|
            if 0 <= i < v.len() {
                match v[i] {
                    Some(n) => Some(n.node_view()),
                    None => None,
                }
            } else {
                None
            },
    )
}

impl ASTNode {
    pub open spec fn node_view(&self) -> Ast
        decreases self,
    {
        match self {
            ASTNode::Expr(Spanned(s, k, e)) => Ast::Expr(*s as int, k@, *e as int),
            ASTNode::Apply(Spanned(s, (callee, args), e)) => Ast::Apply(
                *s as int,
                Box::new(callee.node_view()),
                slot_views(args@),
                *e as int,
            ),
            ASTNode::ExprList(Spanned(s, items, e)) => Ast::ExprList(
                *s as int,
                slot_views(items@),
                *e as int,
            ),
        }
    }
}

impl View for ASTNode {
    type V = Ast;

    open spec fn view(&self) -> Ast {
        self.node_view()
    }
}

impl ASTNode {
    /// The offset at which the node's source text starts.
    pub fn start(&self) -> (s: usize)
        ensures
            s == self@.start(),
    {
        match self {
            ASTNode::Expr(Spanned(s, _, _)) => *s,
            ASTNode::Apply(Spanned(s, _, _)) => *s,
            ASTNode::ExprList(Spanned(s, _, _)) => *s,
        }
    }

    /// The offset at which the node's source text ends.
    pub fn end(&self) -> (e: usize)
        ensures
            e == self@.end(),
    {
        match self {
            ASTNode::Expr(Spanned(_, _, e)) => *e,
            ASTNode::Apply(Spanned(_, _, e)) => *e,
            ASTNode::ExprList(Spanned(_, _, e)) => *e,
        }
    }
}

/// What parsing an expression from some position gives: the tree, `None`
/// where no expression stands there, or the error; and the position behind
/// what was read.
pub struct Parsed {
    pub result: Result<Option<Ast>, ParserError>,
    pub pos: int,
}

/// What parsing a list of expressions gives: its span and its slots, or the
/// error; and the position behind what was read.
pub struct ParsedList {
    pub result: Result<(int, Seq<Option<Ast>>, int), ParserError>,
    pub pos: int,
}

/// Whether `t` ends an expression: `;`, `)` or `]`.
pub open spec fn closes(t: TokenView) -> bool {
    t is Semi || t is RtParen || t is RtBracket
}

/// The leaf that a token makes: a verb, an adverb or a literal is its own
/// value, an identifier is a name. A brace, for which the language has no
/// use, stands for an empty general list without a span.
pub open spec fn leaf(t: Spanned<TokenView>) -> Ast {
    match t.1 {
        TokenView::Verb(v) => Ast::Expr(t.0 as int, Value::Verb(v), t.2 as int),
        TokenView::Adverb(a) => Ast::Expr(t.0 as int, Value::Adverb(a), t.2 as int),
        TokenView::Literal(v) => Ast::Expr(t.0 as int, v, t.2 as int),
        TokenView::Identifier(s) => Ast::Expr(t.0 as int, Value::Name(s), t.2 as int),
        _ => Ast::Expr(0, Value::GenList(Seq::empty()), 0),
    }
}

/// The start of the first slot of `items` that is not empty.
pub open spec fn first_start(items: Seq<Option<Ast>>) -> Option<int>
    decreases items.len(),
{
    if items.len() == 0 {
        None
    } else {
        match items[0] {
            Some(a) => Some(a.start()),
            None => first_start(items.drop_first()),
        }
    }
}

/// The end of the last slot of `items` that is not empty.
pub open spec fn last_end(items: Seq<Option<Ast>>) -> Option<int>
    decreases items.len(),
{
    if items.len() == 0 {
        None
    } else {
        match items.last() {
            Some(a) => Some(a.end()),
            None => last_end(items.drop_last()),
        }
    }
}

/// `subexpr := '(' ... | '[' ... | leaf`: nothing where the input ends or a
/// `;`, `)` or `]` stands.
pub open spec fn subexpr(ts: Seq<Spanned<TokenView>>, pos: int) -> Parsed
    decreases ts.len() - pos, 0int,
{
    if pos < 0 || pos >= ts.len() || closes(ts[pos].1) {
        Parsed { result: Ok(None), pos }
    } else {
        match ts[pos].1 {
            TokenView::LtParen => paren(ts, pos + 1, ts[pos].0),
            TokenView::LtBracket => bracket(ts, pos + 1, ts[pos].0),
            _ => Parsed { result: Ok(Some(leaf(ts[pos]))), pos: pos + 1 },
        }
    }
}

/// `expr := subexpr (verb expr?)? | subexpr expr`: everything to the right
/// of the first subexpression is grouped first. With a verb behind it, the
/// subexpression is the verb's first argument and the rest its second (an
/// empty slot if there is no rest); else the subexpression is applied to
/// the rest, or stands alone.
pub open spec fn expr(ts: Seq<Spanned<TokenView>>, pos: int) -> Parsed
    decreases ts.len() - pos, 1int,
{
    let first = subexpr(ts, pos);
    match first.result {
        Ok(Some(e1)) => {
            if first.pos <= pos || first.pos > ts.len() {
                first
            } else if first.pos < ts.len() && ts[first.pos].1 is Verb {
                let verb = leaf(ts[first.pos]);
                let rest = expr(ts, first.pos + 1);
                match rest.result {
                    Err(_) => rest,
                    Ok(Some(e2)) => Parsed {
                        result: Ok(
                            Some(
                                Ast::Apply(
                                    e1.start(),
                                    Box::new(verb),
                                    seq![Some(e1), Some(e2)],
                                    e2.end(),
                                ),
                            ),
                        ),
                        pos: rest.pos,
                    },
                    Ok(None) => Parsed {
                        result: Ok(
                            Some(
                                Ast::Apply(
                                    e1.start(),
                                    Box::new(verb),
                                    seq![Some(e1), None],
                                    verb.end(),
                                ),
                            ),
                        ),
                        pos: rest.pos,
                    },
                }
            } else {
                let rest = expr(ts, first.pos);
                match rest.result {
                    Err(_) => rest,
                    Ok(Some(e2)) => Parsed {
                        result: Ok(
                            Some(Ast::Apply(e1.start(), Box::new(e1), seq![Some(e2)], e2.end())),
                        ),
                        pos: rest.pos,
                    },
                    Ok(None) => Parsed { result: Ok(Some(e1)), pos: rest.pos },
                }
            }
        },
        _ => first,
    }
}

/// `expr_list := expr (';' expr)*`, continued from `pos` with the slots
/// `items` read so far. A slot is empty where no expression stands. The
/// list spans from the first to the last slot that is not empty; if all are
/// empty, from `start` to the end of the last `;` (to `fallback`, which is
/// that end so far).
pub open spec fn expr_list(
    ts: Seq<Spanned<TokenView>>,
    pos: int,
    start: int,
    items: Seq<Option<Ast>>,
    fallback: int,
) -> ParsedList
    decreases ts.len() - pos, 2int,
{
    let e = expr(ts, pos);
    match e.result {
        Err(err) => ParsedList { result: Err(err), pos: e.pos },
        Ok(item) => {
            let items = items.push(item);
            if pos <= e.pos < ts.len() && ts[e.pos].1 is Semi {
                expr_list(ts, e.pos + 1, start, items, ts[e.pos].2 as int)
            } else {
                let s = match first_start(items) {
                    Some(s) => s,
                    None => start,
                };
                let t = match last_end(items) {
                    Some(t) => t,
                    None => fallback,
                };
                ParsedList { result: Ok((s, items, t)), pos: e.pos }
            }
        },
    }
}

/// The rest of a parenthesized group, `start` being the offset of its `(`:
/// a list of expressions and the `)`. One expression stands for itself,
/// `()` is the empty general list, and anything else is the `,` verb
/// applied to the slots.
pub open spec fn paren(ts: Seq<Spanned<TokenView>>, pos: int, start: usize) -> Parsed
    decreases ts.len() - pos, 3int,
{
    let l = expr_list(ts, pos, start as int, Seq::empty(), start as int);
    match l.result {
        Err(err) => Parsed { result: Err(err), pos: l.pos },
        Ok((_, items, _)) => if 0 <= l.pos < ts.len() && ts[l.pos].1 is RtParen {
            let end = ts[l.pos].2 as int;
            let node = if items.len() == 1 && items[0] is Some {
                items[0]->Some_0
            } else if items.len() == 1 {
                Ast::Expr(start as int, Value::GenList(Seq::empty()), end)
            } else {
                Ast::Apply(
                    start as int,
                    Box::new(Ast::Expr(start as int, Value::Verb(Verb::Comma), start as int)),
                    items,
                    end,
                )
            };
            Parsed { result: Ok(Some(node)), pos: l.pos + 1 }
        } else {
            Parsed {
                result: Err(ParserError { location: start, code: ParserErrorCode::UnclosedParens }),
                pos: l.pos,
            }
        },
    }
}

/// The rest of a bracketed list, `start` being the offset of its `[`: a
/// list of expressions and the `]`.
pub open spec fn bracket(ts: Seq<Spanned<TokenView>>, pos: int, start: usize) -> Parsed
    decreases ts.len() - pos, 3int,
{
    let l = expr_list(ts, pos, start as int, Seq::empty(), start as int);
    match l.result {
        Err(err) => Parsed { result: Err(err), pos: l.pos },
        Ok((_, items, _)) => if 0 <= l.pos < ts.len() && ts[l.pos].1 is RtBracket {
            Parsed {
                result: Ok(Some(Ast::ExprList(start as int, items, ts[l.pos].2 as int))),
                pos: l.pos + 1,
            }
        } else {
            Parsed {
                result: Err(
                    ParserError { location: start, code: ParserErrorCode::UnclosedBrackets },
                ),
                pos: l.pos,
            }
        },
    }
}

/// `program := expr_list`, read from `pos` on (from 0 for a whole input),
/// with nothing left over. One expression stands for itself (`None` if it is
/// empty); more make a list.
pub open spec fn program(ts: Seq<Spanned<TokenView>>, pos: int) -> Result<Option<Ast>, ParserError> {
    let l = expr_list(ts, pos, 0, Seq::empty(), 0);
    match l.result {
        Err(err) => Err(err),
        Ok((s, items, e)) => if 0 <= l.pos < ts.len() {
            Err(ParserError { location: ts[l.pos].0, code: ParserErrorCode::UnexpectedToken })
        } else if items.len() == 1 {
            Ok(items[0])
        } else {
            Ok(Some(Ast::ExprList(s, items, e)))
        },
    }
}

/// Whether the tree in `r`, if there is one, is sound for an interner with
/// `n` strings.
pub open spec fn parsed_sound(r: Result<Option<ASTNode>, ParserError>, n: nat) -> bool {
    r matches Ok(Some(node)) ==> node@.sound(n)
}

/// What a result of the parser stands for.
pub open spec fn parsed_view(r: Result<Option<ASTNode>, ParserError>) -> Result<
    Option<Ast>,
    ParserError,
> {
    match r {
        Ok(Some(n)) => Ok(Some(n@)),
        Ok(None) => Ok(None),
        Err(e) => Err(e),
    }
}

/// In ordered tokens an earlier token starts and ends no later than a later
/// one, and ends before the later one starts.
pub proof fn lemma_ordered(ts: Seq<Spanned<TokenView>>, i: int, j: int)
    requires
        tokens_ordered(ts),
        0 <= i <= j < ts.len(),
    ensures
        ts[i].0 <= ts[i].2,
        ts[i].0 <= ts[j].0,
        ts[i].2 <= ts[j].2,
        i < j ==> ts[i].2 <= ts[j].0,
{
    assert(ts[j].0 <= ts[j].2);
    if i < j {
        assert(ts[i].2 <= ts[j].0);
    }
}

/// A tree that lies within the span of some tokens lies within the span of
/// any more tokens around them.
pub proof fn lemma_spans_widen(
    ts: Seq<Spanned<TokenView>>,
    from: int,
    to: int,
    wider_from: int,
    wider_to: int,
    node: Ast,
)
    requires
        tokens_ordered(ts),
        spans_tokens(ts, from, to, node),
        0 <= wider_from <= from,
        to <= wider_to <= ts.len(),
    ensures
        spans_tokens(ts, wider_from, wider_to, node),
{
    lemma_ordered(ts, wider_from, from);
    lemma_ordered(ts, to - 1, wider_to - 1);
}

/// The span of a tree that covers its children ends no earlier than it
/// starts.
pub proof fn lemma_covers_span(a: Ast)
    requires
        a.covers(),
    ensures
        a.start() <= a.end(),
{
}

/// A verb between two trees: the application spans the tokens of both.
pub proof fn lemma_infix_spans(
    ts: Seq<Spanned<TokenView>>,
    p0: int,
    p1: int,
    p2: int,
    e1: Ast,
    e2: Ast,
)
    requires
        tokens_ordered(ts),
        spans_tokens(ts, p0, p1, e1),
        p1 < ts.len(),
        ts[p1].1 is Verb,
        spans_tokens(ts, p1 + 1, p2, e2),
    ensures
        spans_tokens(
            ts,
            p0,
            p2,
            Ast::Apply(e1.start(), Box::new(leaf(ts[p1])), seq![Some(e1), Some(e2)], e2.end()),
        ),
{
    lemma_ordered(ts, p1 - 1, p1);
    lemma_ordered(ts, p1, p1 + 1);
    lemma_ordered(ts, p0, p1);
    lemma_ordered(ts, p1 + 1, p2 - 1);
    lemma_covers_span(e1);
    lemma_covers_span(e2);
    let verb = leaf(ts[p1]);
    assert(verb.covers());
    assert(verb.within(e1.start(), e2.end()));
    assert(slots_covered(seq![Some(e1), Some(e2)], e1.start(), e2.end()));
}

/// A verb behind a tree, with nothing behind the verb: the application
/// spans the tokens of the tree and the verb.
pub proof fn lemma_projection_spans(ts: Seq<Spanned<TokenView>>, p0: int, p1: int, e1: Ast)
    requires
        tokens_ordered(ts),
        spans_tokens(ts, p0, p1, e1),
        p1 < ts.len(),
        ts[p1].1 is Verb,
    ensures
        spans_tokens(
            ts,
            p0,
            p1 + 1,
            Ast::Apply(
                e1.start(),
                Box::new(leaf(ts[p1])),
                seq![Some(e1), None],
                leaf(ts[p1]).end(),
            ),
        ),
{
    lemma_ordered(ts, p1 - 1, p1);
    lemma_ordered(ts, p0, p1);
    lemma_covers_span(e1);
    let verb = leaf(ts[p1]);
    assert(verb.covers());
    assert(verb.within(e1.start(), verb.end()));
    assert(slots_covered(seq![Some(e1), None], e1.start(), verb.end()));
}

/// A tree applied to the tree behind it: the application spans the tokens
/// of both.
pub proof fn lemma_juxtaposition_spans(
    ts: Seq<Spanned<TokenView>>,
    p0: int,
    p1: int,
    p2: int,
    e1: Ast,
    e2: Ast,
)
    requires
        tokens_ordered(ts),
        spans_tokens(ts, p0, p1, e1),
        spans_tokens(ts, p1, p2, e2),
    ensures
        spans_tokens(ts, p0, p2, Ast::Apply(e1.start(), Box::new(e1), seq![Some(e2)], e2.end())),
{
    lemma_ordered(ts, p1 - 1, p1);
    lemma_ordered(ts, p0, p1);
    lemma_ordered(ts, p1, p2 - 1);
    lemma_covers_span(e1);
    lemma_covers_span(e2);
    assert(slots_covered(seq![Some(e2)], e1.start(), e2.end()));
}

/// The slots of a group in parentheses or brackets, read from the tokens
/// behind the opening token at `p - 1` up to the closing token at `q`, lie
/// within the span from the start of the one to the end of the other.
pub proof fn lemma_group_spans(
    ts: Seq<Spanned<TokenView>>,
    p: int,
    q: int,
    items: Seq<Option<Ast>>,
)
    requires
        tokens_ordered(ts),
        1 <= p <= q < ts.len(),
        slots_span(ts, p, q, items),
    ensures
        ts[p - 1].0 <= ts[q].2,
        slots_covered(items, ts[p - 1].0 as int, ts[q].2 as int),
        slots_span(ts, p - 1, q + 1, items),
{
    lemma_ordered(ts, p - 1, q);
    assert forall|i: int| 0 <= i < items.len() implies ((#[trigger] items[i]) matches Some(a)
        ==> a.covers() && a.within(ts[p - 1].0 as int, ts[q].2 as int) && spans_tokens(
        ts,
        p - 1,
        q + 1,
        a,
    )) by {
        if let Some(a) = items[i] {
            lemma_spans_widen(ts, p, q, p - 1, q + 1, a);
        }
    }
}

/// What holds of a list of expressions while it is read from the tokens
/// `p0` up to `pos`: every slot spans tokens among these; `first` and `last`
/// are the start of the first and the end of the last slot that is not
/// empty, and all such slots lie between them; and `fallback` is not before
/// `start`, if `start` is not behind the first token.
pub open spec fn list_spans(
    ts: Seq<Spanned<TokenView>>,
    p0: int,
    pos: int,
    start: int,
    items: Seq<Option<Ast>>,
    first: Option<int>,
    last: Option<int>,
    fallback: int,
) -> bool {
    &&& 0 <= p0 <= pos <= ts.len()
    &&& slots_span(ts, p0, pos, items)
    &&& first is Some <==> last is Some
    &&& first is Some ==> first->Some_0 <= last->Some_0 && p0 < pos && last->Some_0 <= ts[pos - 1].2
        && slots_covered(items, first->Some_0, last->Some_0)
    &&& first is None ==> forall|i: int| 0 <= i < items.len() ==> (#[trigger] items[i]) is None
    &&& (p0 < ts.len() ==> start <= ts[p0].0) ==> start <= fallback
}

/// [`list_spans`] goes on to hold when a slot is read.
pub proof fn lemma_list_push(
    ts: Seq<Spanned<TokenView>>,
    p0: int,
    pa: int,
    pb: int,
    start: int,
    items: Seq<Option<Ast>>,
    first: Option<int>,
    last: Option<int>,
    fallback: int,
    item: Option<Ast>,
)
    requires
        tokens_ordered(ts),
        list_spans(ts, p0, pa, start, items, first, last, fallback),
        pa <= pb <= ts.len(),
        item matches Some(a) ==> spans_tokens(ts, pa, pb, a),
        item is None ==> pb == pa,
    ensures
        list_spans(
            ts,
            p0,
            pb,
            start,
            items.push(item),
            match first {
                Some(f) => Some(f),
                None => match item {
                    Some(a) => Some(a.start()),
                    None => None,
                },
            },
            match item {
                Some(a) => Some(a.end()),
                None => last,
            },
            fallback,
        ),
{
    let ext = items.push(item);
    assert forall|i: int| 0 <= i < ext.len() implies ((#[trigger] ext[i]) matches Some(a)
        ==> spans_tokens(ts, p0, pb, a)) by {
        if i < items.len() {
            if let Some(a) = items[i] {
                lemma_spans_widen(ts, p0, pa, p0, pb, a);
            }
        } else if let Some(a) = item {
            lemma_spans_widen(ts, pa, pb, p0, pb, a);
        }
    }
    if let Some(a) = item {
        lemma_ordered(ts, pa, pa);
        if pa > p0 {
            lemma_ordered(ts, pa - 1, pa);
        }
        let f = match first {
            Some(f) => f,
            None => a.start(),
        };
        assert forall|i: int| 0 <= i < ext.len() implies ((#[trigger] ext[i]) matches Some(b)
            ==> b.covers() && b.within(f, a.end())) by {
            if i < items.len() {
                if let Some(b) = items[i] {
                    assert(spans_tokens(ts, p0, pa, b));
                }
            }
        }
    } else {
        if first is Some {
            assert forall|i: int| 0 <= i < ext.len() implies ((#[trigger] ext[i]) matches Some(b)
                ==> b.covers() && b.within(first->Some_0, last->Some_0)) by {
                if i < items.len() {
                    assert(items[i] == ext[i]);
                }
            }
        } else {
            assert forall|i: int| 0 <= i < ext.len() implies (#[trigger] ext[i]) is None by {
                if i < items.len() {
                    assert(items[i] == ext[i]);
                }
            }
        }
    }
}

/// [`list_spans`] goes on to hold when a `;` is read, whose end is the new
/// fallback.
pub proof fn lemma_list_semi(
    ts: Seq<Spanned<TokenView>>,
    p0: int,
    pos: int,
    start: int,
    items: Seq<Option<Ast>>,
    first: Option<int>,
    last: Option<int>,
    fallback: int,
)
    requires
        tokens_ordered(ts),
        list_spans(ts, p0, pos, start, items, first, last, fallback),
        pos < ts.len(),
    ensures
        list_spans(ts, p0, pos + 1, start, items, first, last, ts[pos].2 as int),
{
    assert forall|i: int| 0 <= i < items.len() implies ((#[trigger] items[i]) matches Some(a)
        ==> spans_tokens(ts, p0, pos + 1, a)) by {
        if let Some(a) = items[i] {
            lemma_spans_widen(ts, p0, pos, p0, pos + 1, a);
        }
    }
    lemma_ordered(ts, p0, pos);
    if pos > p0 {
        lemma_ordered(ts, pos - 1, pos);
    }
}

/// The first slot that is not empty stays the first when a slot is added
/// behind it.
pub proof fn lemma_first_start_push(items: Seq<Option<Ast>>, x: Option<Ast>)
    ensures
        first_start(items.push(x)) == match first_start(items) {
            Some(s) => Some(s),
            None => match x {
                Some(a) => Some(a.start()),
                None => None,
            },
        },
    decreases items.len(),
{
    let ext = items.push(x);
    reveal_with_fuel(first_start, 2);
    if items.len() == 0 {
        assert(ext.drop_first() =~= Seq::empty());
    } else {
        assert(ext.drop_first() =~= items.drop_first().push(x));
        lemma_first_start_push(items.drop_first(), x);
    }
}

/// The last slot that is not empty, after a slot is added.
pub proof fn lemma_last_end_push(items: Seq<Option<Ast>>, x: Option<Ast>)
    ensures
        last_end(items.push(x)) == match x {
            Some(a) => Some(a.end()),
            None => last_end(items),
        },
{
    assert(items.push(x).drop_last() =~= items);
}

/// A copy of a vector of plain values.
fn copied<T: Copy>(v: &Vec<T>) -> (r: Vec<T>)
    ensures
        r@ == v@,
{
    vstd::slice::slice_to_vec(v.as_slice())
}

/// The leaf that a token makes: see [`leaf`].
fn leaf_of(t: &Spanned<Token>) -> (n: ASTNode)
    ensures
        n@ == leaf(Spanned(t.0, t.1@, t.2)),
        forall|m: nat| #[trigger] t.1@.sound(m) ==> n@.sound(m),
{
    let k0 = match &t.1 {
        Token::Verb(v) => K0::Verb(*v),
        Token::Adverb(a) => K0::Adverb(*a),
        Token::Char(c) => K0::Char(*c),
        Token::Int(i) => K0::Int(*i),
        Token::Float(f) => K0::Float(f.clone()),
        Token::Sym(s) => K0::Sym(*s),
        Token::CharList(v) => K0::CharList(copied(v)),
        Token::IntList(v) => K0::IntList(copied(v)),
        Token::FloatList(v) => {
            let mut out: Vec<Float> = Vec::new();
            let mut i: usize = 0;
            while i < v.len()
                invariant
                    i <= v@.len(),
                    out@.len() == i,
                    forall|j: int| 0 <= j < i ==> out@[j] == v@[j],
                decreases v@.len() - i,
            {
                out.push(v[i].clone());
                i += 1;
            }
            assert(out@ =~= v@);
            K0::FloatList(out)
        },
        Token::SymList(v) => K0::SymList(copied(v)),
        Token::Identifier(s) => K0::Name(*s),
        _ => {
            let k = K::new(K0::GenList(Vec::new()));
            assert(k@->GenList_0 =~= Seq::empty());
            return ASTNode::Expr(Spanned(0, k, 0));
        },
    };
    let k = K::new(k0);
    proof {
        if t.1 is FloatList {
            assert(k@->FloatList_0 =~= float_views(t.1->FloatList_0@));
        }
    }
    ASTNode::Expr(Spanned(t.0, k, t.2))
}

/// The kinds of token that the grammar tells apart when it looks ahead.
#[derive(Clone, Copy, PartialEq, Eq, Structural)]
enum Next {
    End,
    Semi,
    RtParen,
    RtBracket,
    LtParen,
    LtBracket,
    Verb,
    Other,
}

/// The parser: the tokens and the position of the next one to read.
pub struct Parser {
    tokens: Vec<Spanned<Token>>,
    pos: usize,
}

impl Parser {
    /// What the tokens stand for.
    pub closed spec fn tokens(&self) -> Seq<Spanned<TokenView>> {
        token_views(self.tokens@)
    }

    /// How many tokens have been read.
    pub closed spec fn pos(&self) -> int {
        self.pos as int
    }

    /// The position lies within the tokens or right behind them.
    pub closed spec fn wf(&self) -> bool {
        self.pos <= self.tokens@.len()
    }

    pub fn new(tokens: Vec<Spanned<Token>>) -> (p: Self)
        ensures
            p.wf(),
            p.pos() == 0,
            p.tokens() == token_views(tokens@),
    {
        Parser { tokens, pos: 0 }
    }

    /// Parses the tokens from the current position to the end: see
    /// [`program`].
    pub fn parse(&mut self) -> (r: Result<Option<ASTNode>, ParserError>)
        requires
            old(self).wf(),
        ensures
            final(self).wf(),
            final(self).tokens() == old(self).tokens(),
            parsed_view(r) == program(old(self).tokens(), old(self).pos()),
            forall|n: nat| #[trigger] tokens_sound(old(self).tokens(), n) ==> parsed_sound(r, n),
            tokens_ordered(old(self).tokens()) ==> (r matches Ok(Some(node)) ==> node@.covers()),
    {
        self.program()
    }

    fn program(&mut self) -> (r: Result<Option<ASTNode>, ParserError>)
        requires
            old(self).wf(),
        ensures
            final(self).wf(),
            final(self).tokens() == old(self).tokens(),
            parsed_view(r) == program(old(self).tokens(), old(self).pos()),
            forall|n: nat| #[trigger] tokens_sound(old(self).tokens(), n) ==> parsed_sound(r, n),
            tokens_ordered(old(self).tokens()) ==> (r matches Ok(Some(node)) ==> node@.covers()),
    {
        let ghost ts = self.tokens();
        let ghost p0 = self.pos();
        let (start, mut items, end) = match self.expr_list(0) {
            Ok(l) => l,
            Err(e) => {
                return Err(e);
            },
        };
        if self.pos < self.tokens.len() {
            return Err(
                ParserError {
                    location: self.tokens[self.pos].0,
                    code: ParserErrorCode::UnexpectedToken,
                },
            );
        }
        if items.len() == 1 {
            let ghost before = slot_views(items@);
            let item = items.remove(0);
            assert(before[0] == match item {
                Some(n) => Some(n@),
                None => None,
            });
            assert(tokens_ordered(ts) ==> slots_span(ts, p0, self.pos(), before));
            Ok(item)
        } else {
            Ok(Some(ASTNode::ExprList(Spanned(start, items, end))))
        }
    }

    /// What the next token is, as far as the grammar asks.
    fn peek_kind(&self) -> (k: Next)
        requires
            self.wf(),
        ensures
            k == Next::End <==> self.pos() >= self.tokens().len(),
            k != Next::End ==> self.pos() < usize::MAX,
            k != Next::End ==> {
                let t = self.tokens()[self.pos()].1;
                &&& k == Next::Semi <==> t is Semi
                &&& k == Next::RtParen <==> t is RtParen
                &&& k == Next::RtBracket <==> t is RtBracket
                &&& k == Next::LtParen <==> t is LtParen
                &&& k == Next::LtBracket <==> t is LtBracket
                &&& k == Next::Verb <==> t is Verb
            },
    {
        if self.pos >= self.tokens.len() {
            return Next::End;
        }
        match &self.tokens[self.pos].1 {
            Token::Semi => Next::Semi,
            Token::RtParen => Next::RtParen,
            Token::RtBracket => Next::RtBracket,
            Token::LtParen => Next::LtParen,
            Token::LtBracket => Next::LtBracket,
            Token::Verb(_) => Next::Verb,
            _ => Next::Other,
        }
    }

    /// An infix verb application, a juxtaposition or a single
    /// subexpression: see [`expr`].
    fn expr(&mut self) -> (r: Result<Option<ASTNode>, ParserError>)
        requires
            old(self).wf(),
        ensures
            final(self).wf(),
            final(self).tokens() == old(self).tokens(),
            parsed_view(r) == expr(old(self).tokens(), old(self).pos()).result,
            final(self).pos() == expr(old(self).tokens(), old(self).pos()).pos,
            final(self).pos() >= old(self).pos(),
            r matches Ok(Some(_)) ==> final(self).pos() > old(self).pos(),
            r matches Ok(None) ==> final(self).pos() == old(self).pos(),
            forall|n: nat| #[trigger] tokens_sound(old(self).tokens(), n) ==> parsed_sound(r, n),
            tokens_ordered(old(self).tokens()) ==> parsed_spans(
                old(self).tokens(),
                old(self).pos(),
                final(self).pos(),
                r,
            ),
        decreases old(self).tokens().len() - old(self).pos(), 1int,
    {
        let e1 = match self.subexpr() {
            Ok(Some(ast)) => ast,
            Ok(None) => {
                return Ok(None);
            },
            Err(e) => {
                return Err(e);
            },
        };
        let ghost ts = self.tokens();
        let ghost v1 = e1@;
        let ghost p0 = old(self).pos();
        let ghost p1 = self.pos();
        if self.peek_kind() == Next::Verb {
            let verb = leaf_of(&self.tokens[self.pos]);
            let ghost vt = ts[self.pos()];
            let ghost vv = verb@;
            assert forall|n: nat| #[trigger] tokens_sound(ts, n) implies vv.sound(n) by {
                assert(vt.1.sound(n));
            }
            self.pos += 1;
            match self.expr() {
                Err(e) => Err(e),
                Ok(Some(e2)) => {
                    let ghost v2 = e2@;
                    let (s, e) = (e1.start(), e2.end());
                    let args = vec![Some(e1), Some(e2)];
                    assert(slot_views(args@) =~= seq![Some(v1), Some(v2)]);
                    let node = ASTNode::Apply(Spanned(s, (Box::new(verb), args), e));
                    assert forall|n: nat| #[trigger] tokens_sound(ts, n) implies node@.sound(n) by {
                        assert(v1.sound(n) && v2.sound(n) && vv.sound(n));
                        assert(slots_sound(seq![Some(v1), Some(v2)], n));
                    }
                    proof {
                        if tokens_ordered(ts) {
                            lemma_infix_spans(ts, p0, p1, self.pos(), v1, v2);
                        }
                    }
                    Ok(Some(node))
                },
                Ok(None) => {
                    let (s, e) = (e1.start(), verb.end());
                    let args = vec![Some(e1), None];
                    assert(slot_views(args@) =~= seq![Some(v1), None]);
                    let node = ASTNode::Apply(Spanned(s, (Box::new(verb), args), e));
                    assert forall|n: nat| #[trigger] tokens_sound(ts, n) implies node@.sound(n) by {
                        assert(v1.sound(n) && vv.sound(n));
                        assert(slots_sound(seq![Some(v1), None], n));
                    }
                    proof {
                        if tokens_ordered(ts) {
                            lemma_projection_spans(ts, p0, p1, v1);
                        }
                    }
                    Ok(Some(node))
                },
            }
        } else {
            match self.expr() {
                Err(e) => Err(e),
                Ok(Some(e2)) => {
                    let ghost v2 = e2@;
                    let (s, e) = (e1.start(), e2.end());
                    let args = vec![Some(e2)];
                    assert(slot_views(args@) =~= seq![Some(v2)]);
                    let node = ASTNode::Apply(Spanned(s, (Box::new(e1), args), e));
                    assert forall|n: nat| #[trigger] tokens_sound(ts, n) implies node@.sound(n) by {
                        assert(v1.sound(n) && v2.sound(n));
                        assert(slots_sound(seq![Some(v2)], n));
                    }
                    proof {
                        if tokens_ordered(ts) {
                            lemma_juxtaposition_spans(ts, p0, p1, self.pos(), v1, v2);
                        }
                    }
                    Ok(Some(node))
                },
                Ok(None) => Ok(Some(e1)),
            }
        }
    }

    /// A group in parentheses, a list in brackets or a leaf: see
    /// [`subexpr`].
    fn subexpr(&mut self) -> (r: Result<Option<ASTNode>, ParserError>)
        requires
            old(self).wf(),
        ensures
            final(self).wf(),
            final(self).tokens() == old(self).tokens(),
            parsed_view(r) == subexpr(old(self).tokens(), old(self).pos()).result,
            final(self).pos() == subexpr(old(self).tokens(), old(self).pos()).pos,
            final(self).pos() >= old(self).pos(),
            r matches Ok(Some(_)) ==> final(self).pos() > old(self).pos(),
            r matches Ok(None) ==> final(self).pos() == old(self).pos(),
            forall|n: nat| #[trigger] tokens_sound(old(self).tokens(), n) ==> parsed_sound(r, n),
            tokens_ordered(old(self).tokens()) ==> parsed_spans(
                old(self).tokens(),
                old(self).pos(),
                final(self).pos(),
                r,
            ),
        decreases old(self).tokens().len() - old(self).pos(), 0int,
    {
        let kind = self.peek_kind();
        if kind == Next::End || kind == Next::Semi || kind == Next::RtParen || kind
            == Next::RtBracket {
            return Ok(None);
        }
        let start = self.tokens[self.pos].0;
        if kind == Next::LtParen {
            self.pos += 1;
            self.paren(start)
        } else if kind == Next::LtBracket {
            self.pos += 1;
            self.bracket(start)
        } else {
            let node = leaf_of(&self.tokens[self.pos]);
            self.pos += 1;
            Ok(Some(node))
        }
    }

    /// The rest of a group in parentheses: see [`paren`].
    fn paren(&mut self, start: usize) -> (r: Result<Option<ASTNode>, ParserError>)
        requires
            old(self).wf(),
        ensures
            final(self).wf(),
            final(self).tokens() == old(self).tokens(),
            parsed_view(r) == paren(old(self).tokens(), old(self).pos(), start).result,
            final(self).pos() == paren(old(self).tokens(), old(self).pos(), start).pos,
            final(self).pos() >= old(self).pos(),
            r is Ok ==> r matches Ok(Some(_)),
            r is Ok ==> final(self).pos() > old(self).pos(),
            forall|n: nat| #[trigger] tokens_sound(old(self).tokens(), n) ==> parsed_sound(r, n),
            tokens_ordered(old(self).tokens()) && old(self).pos() >= 1 && start == old(
                self,
            ).tokens()[old(self).pos() - 1].0 ==> parsed_spans(
                old(self).tokens(),
                old(self).pos() - 1,
                final(self).pos(),
                r,
            ),
        decreases old(self).tokens().len() - old(self).pos(), 3int,
    {
        let (_, mut items, _) = match self.expr_list(start) {
            Ok(l) => l,
            Err(e) => {
                return Err(e);
            },
        };
        if self.peek_kind() != Next::RtParen {
            return Err(ParserError { location: start, code: ParserErrorCode::UnclosedParens });
        }
        let end = self.tokens[self.pos].2;
        self.pos += 1;
        let ghost before = slot_views(items@);
        let ghost ts = self.tokens();
        proof {
            if tokens_ordered(ts) && old(self).pos() >= 1 {
                lemma_group_spans(ts, old(self).pos(), self.pos() - 1, before);
            }
        }
        if items.len() == 1 {
            let ghost first = items@[0];
            assert(before[0] == match first {
                Some(n) => Some(n@),
                None => None,
            });
            match items.remove(0) {
                Some(node) => {
                    assert(first == Some(node));
                    assert forall|n: nat| #[trigger] tokens_sound(ts, n) implies node@.sound(n) by {
                        assert(slots_sound(before, n));
                        assert(before[0] == Some(node@));
                    }
                    assert(tokens_ordered(ts) && old(self).pos() >= 1 ==> spans_tokens(
                        ts,
                        old(self).pos() - 1,
                        self.pos(),
                        before[0]->Some_0,
                    ));
                    Ok(Some(node))
                },
                None => {
                    assert(first is None);
                    let k = K::new(K0::GenList(Vec::new()));
                    assert(k@->GenList_0 =~= Seq::empty());
                    Ok(Some(ASTNode::Expr(Spanned(start, k, end))))
                },
            }
        } else {
            let comma = ASTNode::Expr(Spanned(start, K::new(K0::Verb(Verb::Comma)), start));
            assert(comma@ == Ast::Expr(start as int, Value::Verb(Verb::Comma), start as int));
            let node = ASTNode::Apply(Spanned(start, (Box::new(comma), items), end));
            assert(node@ == Ast::Apply(
                start as int,
                Box::new(Ast::Expr(start as int, Value::Verb(Verb::Comma), start as int)),
                before,
                end as int,
            ));
            assert forall|n: nat| #[trigger] tokens_sound(ts, n) implies node@.sound(n) by {
                assert(slots_sound(before, n));
                assert(Ast::Expr(start as int, Value::Verb(Verb::Comma), start as int).sound(n));
            }
            proof {
                let comma = Ast::Expr(start as int, Value::Verb(Verb::Comma), start as int);
                assert(comma.covers() && comma.within(start as int, start as int));
            }
            Ok(Some(node))
        }
    }

    /// The rest of a list in brackets: see [`bracket`].
    fn bracket(&mut self, start: usize) -> (r: Result<Option<ASTNode>, ParserError>)
        requires
            old(self).wf(),
        ensures
            final(self).wf(),
            final(self).tokens() == old(self).tokens(),
            parsed_view(r) == bracket(old(self).tokens(), old(self).pos(), start).result,
            final(self).pos() == bracket(old(self).tokens(), old(self).pos(), start).pos,
            final(self).pos() >= old(self).pos(),
            r is Ok ==> r matches Ok(Some(_)),
            r is Ok ==> final(self).pos() > old(self).pos(),
            forall|n: nat| #[trigger] tokens_sound(old(self).tokens(), n) ==> parsed_sound(r, n),
            tokens_ordered(old(self).tokens()) && old(self).pos() >= 1 && start == old(
                self,
            ).tokens()[old(self).pos() - 1].0 ==> parsed_spans(
                old(self).tokens(),
                old(self).pos() - 1,
                final(self).pos(),
                r,
            ),
        decreases old(self).tokens().len() - old(self).pos(), 3int,
    {
        let (_, items, _) = match self.expr_list(start) {
            Ok(l) => l,
            Err(e) => {
                return Err(e);
            },
        };
        if self.peek_kind() != Next::RtBracket {
            return Err(ParserError { location: start, code: ParserErrorCode::UnclosedBrackets });
        }
        let end = self.tokens[self.pos].2;
        proof {
            if tokens_ordered(self.tokens()) && old(self).pos() >= 1 {
                lemma_group_spans(self.tokens(), old(self).pos(), self.pos(), slot_views(items@));
            }
        }
        self.pos += 1;
        Ok(Some(ASTNode::ExprList(Spanned(start, items, end))))
    }

    /// Expressions separated by `;`: see [`expr_list`].
    fn expr_list(&mut self, start: usize) -> (r: Result<
        (usize, Vec<Option<ASTNode>>, usize),
        ParserError,
    >)
        requires
            old(self).wf(),
        ensures
            final(self).wf(),
            final(self).tokens() == old(self).tokens(),
            ({
                let l = expr_list(
                    old(self).tokens(),
                    old(self).pos(),
                    start as int,
                    Seq::empty(),
                    start as int,
                );
                &&& final(self).pos() == l.pos
                &&& match r {
                    Ok((s, items, e)) => l.result == Ok::<
                        (int, Seq<Option<Ast>>, int),
                        ParserError,
                    >((s as int, slot_views(items@), e as int)),
                    Err(err) => l.result == Err::<(int, Seq<Option<Ast>>, int), ParserError>(err),
                }
            }),
            final(self).pos() >= old(self).pos(),
            forall|n: nat| #[trigger]
                tokens_sound(old(self).tokens(), n) ==> (r matches Ok((_, items, _))
                    ==> slots_sound(slot_views(items@), n)),
            tokens_ordered(old(self).tokens()) ==> (r matches Ok((s, items, e)) ==> {
                &&& slots_span(
                    old(self).tokens(),
                    old(self).pos(),
                    final(self).pos(),
                    slot_views(items@),
                )
                &&& (old(self).pos() < old(self).tokens().len() ==> start <= old(
                    self,
                ).tokens()[old(self).pos()].0) ==> s <= e && slots_covered(
                    slot_views(items@),
                    s as int,
                    e as int,
                )
            }),
        decreases old(self).tokens().len() - old(self).pos(), 2int,
    {
        let ghost ts = self.tokens();
        let ghost p0 = self.pos();
        let ghost goal = expr_list(ts, self.pos(), start as int, Seq::empty(), start as int);
        let mut list: Vec<Option<ASTNode>> = Vec::new();
        let mut first: Option<usize> = None;
        let mut last: Option<usize> = None;
        let mut fallback = start;
        assert(slot_views(list@) =~= Seq::empty());
        loop
            invariant
                self.wf(),
                self.tokens() == ts,
                ts == old(self).tokens(),
                self.pos() >= old(self).pos(),
                goal == expr_list(
                    old(self).tokens(),
                    old(self).pos(),
                    start as int,
                    Seq::empty(),
                    start as int,
                ),
                goal == expr_list(ts, self.pos(), start as int, slot_views(list@), fallback as int),
                first_start(slot_views(list@)) == match first {
                    Some(s) => Some(s as int),
                    None => None,
                },
                last_end(slot_views(list@)) == match last {
                    Some(e) => Some(e as int),
                    None => None,
                },
                forall|n: nat| #[trigger]
                    tokens_sound(ts, n) ==> slots_sound(slot_views(list@), n),
                p0 == old(self).pos(),
                tokens_ordered(ts) ==> list_spans(
                    ts,
                    p0,
                    self.pos(),
                    start as int,
                    slot_views(list@),
                    first_start(slot_views(list@)),
                    last_end(slot_views(list@)),
                    fallback as int,
                ),
            decreases ts.len() - self.pos(),
        {
            let ghost before = slot_views(list@);
            let ghost pa = self.pos();
            let ghost fallback0 = fallback as int;
            let item = match self.expr() {
                Ok(item) => item,
                Err(e) => {
                    return Err(e);
                },
            };
            let ghost item_view = match item {
                Some(ref n) => Some(n@),
                None => None,
            };
            match &item {
                Some(node) => {
                    if first.is_none() {
                        first = Some(node.start());
                    }
                    last = Some(node.end());
                },
                None => {},
            }
            list.push(item);
            proof {
                assert(slot_views(list@) =~= before.push(item_view));
                lemma_first_start_push(before, item_view);
                lemma_last_end_push(before, item_view);
                if tokens_ordered(ts) {
                    lemma_list_push(
                        ts,
                        p0,
                        pa,
                        self.pos(),
                        start as int,
                        before,
                        first_start(before),
                        last_end(before),
                        fallback0,
                        item_view,
                    );
                }
            }
            if self.peek_kind() == Next::Semi {
                proof {
                    if tokens_ordered(ts) {
                        lemma_list_semi(
                            ts,
                            p0,
                            self.pos(),
                            start as int,
                            slot_views(list@),
                            first_start(slot_views(list@)),
                            last_end(slot_views(list@)),
                            fallback0,
                        );
                    }
                }
                fallback = self.tokens[self.pos].2;
                self.pos += 1;
            } else {
                let s = match first {
                    Some(s) => s,
                    None => start,
                };
                let e = match last {
                    Some(e) => e,
                    None => fallback,
                };
                return Ok((s, list, e));
            }
        }
    }
}

/// An input of one literal, identifier, verb or adverb parses to the leaf
/// of that token.
pub proof fn lemma_single_token(t: Spanned<TokenView>)
    requires
        t.1 is Literal || t.1 is Identifier || t.1 is Verb || t.1 is Adverb,
    ensures
        program(seq![t], 0) == Ok::<Option<Ast>, ParserError>(Some(leaf(t))),
{
    let ts = seq![t];
    reveal_with_fuel(expr, 2);
    reveal_with_fuel(subexpr, 2);
    assert(ts[0] == t);
    assert(subexpr(ts, 0) == (Parsed { result: Ok(Some(leaf(t))), pos: 1 }));
    assert(subexpr(ts, 1) == (Parsed { result: Ok(None), pos: 1 }));
    assert(expr(ts, 1) == (Parsed { result: Ok(None), pos: 1 }));
    assert(expr(ts, 0) == (Parsed { result: Ok(Some(leaf(t))), pos: 1 }));
    let items = Seq::<Option<Ast>>::empty().push(Some(leaf(t)));
    assert(items.drop_first() =~= Seq::empty());
    assert(items.drop_last() =~= Seq::empty());
    assert(first_start(items) == Some(leaf(t).start()));
    assert(last_end(items) == Some(leaf(t).end()));
}

/// Reading a subexpression never goes back nor beyond the tokens, and a
/// subexpression holds at least one token.
pub proof fn lemma_subexpr_advances(ts: Seq<Spanned<TokenView>>, pos: int)
    requires
        0 <= pos <= ts.len(),
    ensures
        pos <= subexpr(ts, pos).pos <= ts.len(),
        subexpr(ts, pos).result matches Ok(Some(_)) ==> pos < subexpr(ts, pos).pos,
    decreases ts.len() - pos, 0int,
{
    if pos < ts.len() && !closes(ts[pos].1) {
        match ts[pos].1 {
            TokenView::LtParen => lemma_group_advances(ts, pos + 1, ts[pos].0),
            TokenView::LtBracket => lemma_group_advances(ts, pos + 1, ts[pos].0),
            _ => {},
        }
    }
}

/// Reading an expression never goes back nor beyond the tokens, and an
/// expression holds at least one token: the tests on the position in
/// [`expr`] never fail.
pub proof fn lemma_expr_advances(ts: Seq<Spanned<TokenView>>, pos: int)
    requires
        0 <= pos <= ts.len(),
    ensures
        pos <= expr(ts, pos).pos <= ts.len(),
        expr(ts, pos).result matches Ok(Some(_)) ==> pos < expr(ts, pos).pos,
    decreases ts.len() - pos, 1int,
{
    lemma_subexpr_advances(ts, pos);
    let first = subexpr(ts, pos);
    if first.result matches Ok(Some(_)) {
        if first.pos < ts.len() && ts[first.pos].1 is Verb {
            lemma_expr_advances(ts, first.pos + 1);
        } else {
            lemma_expr_advances(ts, first.pos);
        }
    }
}

/// Reading a list of expressions never goes back nor beyond the tokens:
/// the test on the position in [`expr_list`] never fails.
pub proof fn lemma_expr_list_advances(
    ts: Seq<Spanned<TokenView>>,
    pos: int,
    start: int,
    items: Seq<Option<Ast>>,
    fallback: int,
)
    requires
        0 <= pos <= ts.len(),
    ensures
        pos <= expr_list(ts, pos, start, items, fallback).pos <= ts.len(),
    decreases ts.len() - pos, 2int,
{
    lemma_expr_advances(ts, pos);
    let e = expr(ts, pos);
    if let Ok(item) = e.result {
        if e.pos < ts.len() && ts[e.pos].1 is Semi {
            lemma_expr_list_advances(ts, e.pos + 1, start, items.push(item), ts[e.pos].2 as int);
        }
    }
}

/// Reading the rest of a group in parentheses or brackets never goes back
/// nor beyond the tokens.
pub proof fn lemma_group_advances(ts: Seq<Spanned<TokenView>>, pos: int, start: usize)
    requires
        0 <= pos <= ts.len(),
    ensures
        pos <= paren(ts, pos, start).pos <= ts.len(),
        pos <= bracket(ts, pos, start).pos <= ts.len(),
    decreases ts.len() - pos, 3int,
{
    lemma_expr_list_advances(ts, pos, start as int, Seq::empty(), start as int);
}

} // verus!
