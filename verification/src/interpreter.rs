use vstd::prelude::*;

use crate::environ::Environment;
use crate::error::{RuntimeError, RuntimeErrorCode};
use crate::k::arith::{
    arith, lemma_arith_numeric, lemma_negated_numeric, lemma_numeric_interned, negated,
    result_view,
};
use crate::k::{
    lemma_interned_grows, lemma_normalize_interned, normalize, views, ArithOp, Value, Verb, K, K0,
};
use crate::parser::{slot_views, slots_sound, ASTNode, Ast};
use crate::span::Spanned;
use crate::sym::{index_of, interned, Interner, Sym};

verus! {

/// What an evaluation leaves behind: the value or the error, the bindings
/// and the interner's table.
pub struct Outcome {
    pub result: Result<Value, RuntimeError>,
    pub env: Map<Sym, Value>,
    pub names: Seq<Seq<u8>>,
}

/// What the evaluation of a list of slots leaves behind.
pub struct Outcomes {
    pub result: Result<Seq<Value>, RuntimeError>,
    pub env: Map<Sym, Value>,
    pub names: Seq<Seq<u8>>,
}

/// The integers from 0 up to, not including, `n`.
pub open spec fn iota(n: i64) -> Seq<i64> {
    Seq::new(
        if n > 0 {
            n as nat
        } else {
            0
        },
        |i: int| i as i64,
    )
}

/// The name of a value's kind: `nil`, `c`, `i`, `f`, `n`, `v`, `a` for what
/// is not a list, `C`, `I`, `F`, `N`, `l` for the lists. A name is not
/// looked up: its kind is `n`.
pub open spec fn type_tag(v: Value) -> Seq<u8> {
    match v {
        Value::Nil => seq![0x6eu8, 0x69u8, 0x6cu8],
        Value::Char(_) => seq![0x63u8],
        Value::Int(_) => seq![0x69u8],
        Value::Float(_) => seq![0x66u8],
        Value::Sym(_) => seq![0x6eu8],
        Value::Name(_) => seq![0x6eu8],
        Value::Verb(_) => seq![0x76u8],
        Value::Adverb(_) => seq![0x61u8],
        Value::CharList(_) => seq![0x43u8],
        Value::IntList(_) => seq![0x49u8],
        Value::FloatList(_) => seq![0x46u8],
        Value::SymList(_) => seq![0x4eu8],
        Value::GenList(_) => seq![0x6cu8],
    }
}

/// The outcome of an arithmetic operation applied at offset `at`.
pub open spec fn computed(
    r: Result<Value, RuntimeErrorCode>,
    at: usize,
    env: Map<Sym, Value>,
    names: Seq<Seq<u8>>,
) -> Outcome {
    match r {
        Ok(v) => Outcome { result: Ok(v), env, names },
        Err(code) => Outcome { result: Err(RuntimeError { location: at, code }), env, names },
    }
}

/// The failure `code` at offset `at`.
pub open spec fn failed(
    code: RuntimeErrorCode,
    at: usize,
    env: Map<Sym, Value>,
    names: Seq<Seq<u8>>,
) -> Outcome {
    Outcome { result: Err(RuntimeError { location: at, code }), env, names }
}

/// The callee `f`, which stands at offset `at`, applied to the values
/// `args`.
///
/// Without arguments a verb is its own value. With arguments:
/// - `+`, `*`, `%` take two and add, multiply, divide; with one they are
///   not implemented.
/// - `-` negates one and subtracts two.
/// - `,` makes a list of any number.
/// - `:` takes two, binds the name on the left to the value on the right,
///   and gives that value.
/// - `!` takes one integer `n` and counts from 0 up to `n`.
/// - `@` takes one and gives the name of its kind as a symbol.
/// Any other number of arguments is a rank error for `+ - * % :` and not
/// implemented for `!` and `@`; every other callee is not implemented.
pub open spec fn apply(
    f: Value,
    at: usize,
    args: Seq<Value>,
    env: Map<Sym, Value>,
    names: Seq<Seq<u8>>,
) -> Outcome {
    match f {
        Value::Verb(verb) => if args.len() == 0 {
            Outcome { result: Ok(f), env, names }
        } else {
            match verb {
                Verb::Plus => if args.len() == 2 {
                    computed(arith(ArithOp::Add, args[0], args[1]), at, env, names)
                } else if args.len() == 1 {
                    failed(RuntimeErrorCode::Nyi, at, env, names)
                } else {
                    failed(RuntimeErrorCode::Rank, at, env, names)
                },
                Verb::Minus => if args.len() == 2 {
                    computed(arith(ArithOp::Sub, args[0], args[1]), at, env, names)
                } else if args.len() == 1 {
                    computed(negated(args[0]), at, env, names)
                } else {
                    failed(RuntimeErrorCode::Rank, at, env, names)
                },
                Verb::Star => if args.len() == 2 {
                    computed(arith(ArithOp::Mul, args[0], args[1]), at, env, names)
                } else if args.len() == 1 {
                    failed(RuntimeErrorCode::Nyi, at, env, names)
                } else {
                    failed(RuntimeErrorCode::Rank, at, env, names)
                },
                Verb::Percent => if args.len() == 2 {
                    computed(arith(ArithOp::Div, args[0], args[1]), at, env, names)
                } else if args.len() == 1 {
                    failed(RuntimeErrorCode::Nyi, at, env, names)
                } else {
                    failed(RuntimeErrorCode::Rank, at, env, names)
                },
                Verb::Comma => Outcome { result: Ok(normalize(args)), env, names },
                Verb::Colon => if args.len() == 2 {
                    match args[0] {
                        Value::Name(name) => Outcome {
                            result: Ok(args[1]),
                            env: env.insert(name, args[1]),
                            names,
                        },
                        _ => failed(RuntimeErrorCode::NameExpected, at, env, names),
                    }
                } else {
                    failed(RuntimeErrorCode::Rank, at, env, names)
                },
                Verb::Bang => if args.len() == 1 {
                    match args[0] {
                        Value::Int(n) => Outcome { result: Ok(Value::IntList(iota(n))), env, names },
                        _ => failed(RuntimeErrorCode::Type, at, env, names),
                    }
                } else {
                    failed(RuntimeErrorCode::Nyi, at, env, names)
                },
                Verb::At => if args.len() == 1 {
                    let tag = type_tag(args[0]);
                    let names = interned(names, tag);
                    Outcome {
                        result: Ok(Value::Sym(Sym(index_of(names, tag) as usize))),
                        env,
                        names,
                    }
                } else {
                    failed(RuntimeErrorCode::Nyi, at, env, names)
                },
                _ => failed(RuntimeErrorCode::Nyi, at, env, names),
            }
        },
        _ => failed(RuntimeErrorCode::Nyi, at, env, names),
    }
}

/// Whether an application is a conditional: `$` applied to one bracketed
/// list of more than two slots. Its arguments are not evaluated.
pub open spec fn is_conditional(callee: Ast, args: Seq<Option<Ast>>) -> bool {
    &&& callee matches Ast::Expr(_, Value::Verb(Verb::Dollar), _)
    &&& args.len() == 1
    &&& args[0] matches Some(Ast::ExprList(_, l, _)) && l.len() > 2
}

/// Whether an application is an assignment: `:` applied to two slots, the
/// first of which is a bare name. The name is bound, not looked up.
pub open spec fn is_assignment(callee: Ast, args: Seq<Option<Ast>>) -> bool {
    &&& callee matches Ast::Expr(_, Value::Verb(Verb::Colon), _)
    &&& args.len() == 2
    &&& args[0] matches Some(Ast::Expr(_, Value::Name(_), _))
}

/// The value of a syntax tree under the bindings `env`, with the interner's
/// table `names`.
///
/// - A leaf is its value; a name is what it is bound to, or an error.
/// - A list of expressions is evaluated slot by slot, and its value is that
///   of the last slot.
/// - A conditional is not implemented. An assignment evaluates its right
///   side and binds the name. Any other application evaluates the callee,
///   then the arguments from left to right, and applies the one to the
///   others: see [`apply`].
/// An empty slot is nil. The first error ends the evaluation; what was
/// bound before it stays bound.
pub open spec fn eval(node: Ast, env: Map<Sym, Value>, names: Seq<Seq<u8>>) -> Outcome
    decreases node, 0nat,
{
    match node {
        Ast::Expr(s, v, _) => match v {
            Value::Name(name) => if env.contains_key(name) {
                Outcome { result: Ok(env[name]), env, names }
            } else {
                failed(RuntimeErrorCode::UndefinedVariable, s as usize, env, names)
            },
            _ => Outcome { result: Ok(v), env, names },
        },
        Ast::ExprList(_, items, _) => {
            let all = eval_slots(items, items.len(), env, names);
            match all.result {
                Err(e) => Outcome { result: Err(e), env: all.env, names: all.names },
                Ok(vs) => Outcome {
                    result: Ok(
                        if vs.len() == 0 {
                            Value::Nil
                        } else {
                            vs.last()
                        },
                    ),
                    env: all.env,
                    names: all.names,
                },
            }
        },
        Ast::Apply(s, callee, args, _) => {
            if is_conditional(*callee, args) {
                failed(RuntimeErrorCode::Nyi, s as usize, env, names)
            } else if is_assignment(*callee, args) {
                match args[1] {
                    Some(rhs) => {
                        let r = eval(rhs, env, names);
                        match r.result {
                            Err(_) => r,
                            Ok(v) => apply(
                                Value::Verb(Verb::Colon),
                                callee.start() as usize,
                                seq![args[0]->Some_0->Expr_1, v],
                                r.env,
                                r.names,
                            ),
                        }
                    },
                    None => failed(RuntimeErrorCode::ExpressionExpected, s as usize, env, names),
                }
            } else {
                let c = eval(*callee, env, names);
                match c.result {
                    Err(_) => c,
                    Ok(f) => {
                        let a = eval_slots(args, args.len(), c.env, c.names);
                        match a.result {
                            Err(e) => Outcome { result: Err(e), env: a.env, names: a.names },
                            Ok(vs) => apply(f, callee.start() as usize, vs, a.env, a.names),
                        }
                    },
                }
            }
        },
    }
}

/// The values of the first `n` slots of `slots`, evaluated from left to
/// right, each under what the ones before it left behind.
pub open spec fn eval_slots(
    slots: Seq<Option<Ast>>,
    n: nat,
    env: Map<Sym, Value>,
    names: Seq<Seq<u8>>,
) -> Outcomes
    decreases slots, n,
{
    if n == 0 || n > slots.len() {
        Outcomes { result: Ok(Seq::empty()), env, names }
    } else {
        let before = eval_slots(slots, (n - 1) as nat, env, names);
        match before.result {
            Err(_) => before,
            Ok(vs) => match slots[n - 1] {
                None => Outcomes {
                    result: Ok(vs.push(Value::Nil)),
                    env: before.env,
                    names: before.names,
                },
                Some(node) => {
                    let r = eval(node, before.env, before.names);
                    match r.result {
                        Err(e) => Outcomes { result: Err(e), env: r.env, names: r.names },
                        Ok(v) => Outcomes { result: Ok(vs.push(v)), env: r.env, names: r.names },
                    }
                },
            },
        }
    }
}

/// Whether every value bound in `env` is sound for an interner with `n`
/// strings: see [`Value::sound`].
pub open spec fn env_sound(env: Map<Sym, Value>, n: nat) -> bool {
    forall|s: Sym| env.contains_key(s) ==> (#[trigger] env[s]).sound(n)
}

/// Whether the bindings `env` are sound, and the value in `r` if there is
/// one, for an interner with `n` strings.
pub open spec fn kept_sound(r: Result<K, RuntimeError>, env: Map<Sym, Value>, n: nat) -> bool {
    env_sound(env, n) && (r matches Ok(k) ==> k@.sound(n))
}

/// Sound bindings stay sound as the interner grows.
pub proof fn lemma_env_sound_grows(env: Map<Sym, Value>, n: nat, m: nat)
    requires
        env_sound(env, n),
        n <= m,
    ensures
        env_sound(env, m),
{
    assert forall|s: Sym| env.contains_key(s) implies (#[trigger] env[s]).sound(m) by {
        lemma_interned_grows(env[s], n, m);
    }
}

/// A sound tree stays sound as the interner grows.
pub proof fn lemma_ast_sound_grows(node: Ast, n: nat, m: nat)
    requires
        node.sound(n),
        n <= m,
    ensures
        node.sound(m),
    decreases node,
{
    match node {
        Ast::Expr(_, v, _) => {
            lemma_interned_grows(v, n, m);
        },
        Ast::Apply(_, callee, args, _) => {
            lemma_ast_sound_grows(*callee, n, m);
            lemma_slots_sound_grows(args, n, m);
        },
        Ast::ExprList(_, items, _) => {
            lemma_slots_sound_grows(items, n, m);
        },
    }
}

/// Sound slots stay sound as the interner grows.
pub proof fn lemma_slots_sound_grows(slots: Seq<Option<Ast>>, n: nat, m: nat)
    requires
        slots_sound(slots, n),
        n <= m,
    ensures
        slots_sound(slots, m),
    decreases slots,
{
    assert forall|i: int| 0 <= i < slots.len() implies ((#[trigger] slots[i]) matches Some(a)
        ==> a.sound(m)) by {
        if let Some(a) = slots[i] {
            lemma_ast_sound_grows(a, n, m);
        }
    }
}

/// What the result of an evaluation stands for, with the state it left.
pub open spec fn outcome(
    r: Result<K, RuntimeError>,
    env: Map<Sym, Value>,
    names: Seq<Seq<u8>>,
) -> Outcome {
    match r {
        Ok(k) => Outcome { result: Ok(k@), env, names },
        Err(e) => Outcome { result: Err(e), env, names },
    }
}

/// The name of a value's kind: see [`type_tag`].
fn type_tag_exec(k: &K) -> (tag: Vec<u8>)
    ensures
        tag@ == type_tag(k@),
{
    let tag = match k.shape() {
        K0::Nil => vec![0x6eu8, 0x69u8, 0x6cu8],
        K0::Char(_) => vec![0x63u8],
        K0::Int(_) => vec![0x69u8],
        K0::Float(_) => vec![0x66u8],
        K0::Sym(_) => vec![0x6eu8],
        K0::Name(_) => vec![0x6eu8],
        K0::Verb(_) => vec![0x76u8],
        K0::Adverb(_) => vec![0x61u8],
        K0::CharList(_) => vec![0x43u8],
        K0::IntList(_) => vec![0x49u8],
        K0::FloatList(_) => vec![0x46u8],
        K0::SymList(_) => vec![0x4eu8],
        K0::GenList(_) => vec![0x6cu8],
    };
    assert(tag@ =~= type_tag(k@));
    tag
}

/// The integers from 0 up to, not including, `n`.
fn iota_exec(n: i64) -> (v: Vec<i64>)
    ensures
        v@ == iota(n),
{
    let mut v: Vec<i64> = Vec::new();
    let mut i: i64 = 0;
    while i < n
        invariant
            0 <= i,
            i <= n || i == 0,
            v@.len() == i,
            forall|j: int| 0 <= j < i ==> v@[j] == j,
        decreases n - i,
    {
        v.push(i);
        i += 1;
    }
    assert(v@.len() == iota(n).len());
    assert forall|j: int| 0 <= j < v@.len() implies v@[j] == iota(n)[j] by {}
    assert(v@ =~= iota(n));
    v
}

/// The result of an arithmetic operation applied at offset `at`.
fn located(r: Result<K, RuntimeErrorCode>, at: usize) -> (out: Result<K, RuntimeError>)
    ensures
        forall|env: Map<Sym, Value>, names: Seq<Seq<u8>>|
            outcome(out, env, names) == computed(result_view(r), at, env, names),
        out matches Ok(k) ==> r == Ok::<K, RuntimeErrorCode>(k),
{
    match r {
        Ok(k) => Ok(k),
        Err(code) => Err(RuntimeError::new(at, code)),
    }
}

impl ASTNode {
    /// Evaluates the tree under the bindings `env`: see [`eval`]. Names
    /// that `:` binds are bound in `env`, and the kind names that `@` gives
    /// are interned in `interner`.
    pub fn interpret(&self, env: &mut Environment, interner: &mut Interner) -> (r: Result<
        K,
        RuntimeError,
    >)
        requires
            old(interner).wf(),
        ensures
            final(interner).wf(),
            outcome(r, final(env)@, final(interner)@) == eval(self@, old(env)@, old(interner)@),
            final(interner)@.len() >= old(interner)@.len(),
            self@.sound(old(interner)@.len()) && env_sound(old(env)@, old(interner)@.len())
                ==> kept_sound(r, final(env)@, final(interner)@.len()),
        decreases self, 0nat,
    {
        let ghost n0 = interner@.len();
        let ghost sound0 = self@.sound(n0) && env_sound(env@, n0);
        match self {
            ASTNode::Expr(Spanned(s, k, _)) => match k.shape() {
                K0::Name(name) => match env.get(*name) {
                    Some(value) => Ok(value),
                    None => Err(RuntimeError::new(*s, RuntimeErrorCode::UndefinedVariable)),
                },
                _ => Ok(k.clone()),
            },
            ASTNode::ExprList(Spanned(_, items, _)) => {
                assert(sound0 ==> slots_sound(slot_views(items@), n0));
                match ASTNode::interpret_slots(items, env, interner) {
                    Err(e) => Err(e),
                    Ok(mut values) => {
                        let ghost all = values@;
                        match values.pop() {
                            Some(last) => {
                                assert(last == all[all.len() - 1]);
                                Ok(last)
                            },
                            None => Ok(K::new(K0::Nil)),
                        }
                    },
                }
            },
            ASTNode::Apply(Spanned(s, (callee, args), _)) => {
                if ASTNode::is_conditional(callee, args) {
                    return ASTNode::conditional(*s);
                }
                let ghost slots = slot_views(args@);
                assert(sound0 ==> callee@.sound(n0) && slots_sound(slots, n0));
                if let Some(name) = ASTNode::assigned_name(callee, args) {
                    return match &args[1] {
                        Some(rhs) => {
                            assert(slots[1] == Some(rhs@));
                            assert(sound0 ==> rhs@.sound(n0) && slots[0]->Some_0.sound(n0));
                            let value = match rhs.interpret(env, interner) {
                                Ok(v) => v,
                                Err(e) => {
                                    return Err(e);
                                },
                            };
                            let colon = K::new(K0::Verb(Verb::Colon));
                            let pair = vec![name, value];
                            assert(views(pair@) =~= seq![pair@[0]@, pair@[1]@]);
                            proof {
                                if sound0 {
                                    lemma_interned_grows(name@, n0, interner@.len());
                                }
                            }
                            ASTNode::apply(&colon, callee.start(), &pair, env, interner)
                        },
                        None => Err(RuntimeError::new(*s, RuntimeErrorCode::ExpressionExpected)),
                    };
                }
                let f = match callee.interpret(env, interner) {
                    Ok(f) => f,
                    Err(e) => {
                        return Err(e);
                    },
                };
                let ghost n1 = interner@.len();
                proof {
                    if sound0 {
                        lemma_slots_sound_grows(slots, n0, n1);
                    }
                }
                let values = match ASTNode::interpret_slots(args, env, interner) {
                    Ok(values) => values,
                    Err(e) => {
                        return Err(e);
                    },
                };
                proof {
                    if sound0 {
                        lemma_interned_grows(f@, n1, interner@.len());
                    }
                }
                ASTNode::apply(&f, callee.start(), &values, env, interner)
            },
        }
    }

    /// Whether an application is a conditional: see [`is_conditional`].
    fn is_conditional(callee: &ASTNode, args: &Vec<Option<ASTNode>>) -> (b: bool)
        ensures
            b == is_conditional(callee@, slot_views(args@)),
    {
        if args.len() != 1 {
            return false;
        }
        let dollar = match callee {
            ASTNode::Expr(Spanned(_, k, _)) => match k.shape() {
                K0::Verb(Verb::Dollar) => true,
                _ => false,
            },
            _ => false,
        };
        if !dollar {
            return false;
        }
        assert(slot_views(args@)[0] == match args@[0] {
            Some(n) => Some(n@),
            None => None,
        });
        match &args[0] {
            Some(ASTNode::ExprList(Spanned(_, l, _))) => {
                assert(slot_views(l@).len() == l@.len());
                l.len() > 2
            },
            _ => false,
        }
    }

    /// The name on the left of an assignment, if the application is one:
    /// see [`is_assignment`].
    fn assigned_name(callee: &ASTNode, args: &Vec<Option<ASTNode>>) -> (name: Option<K>)
        ensures
            name is Some == is_assignment(callee@, slot_views(args@)),
            name matches Some(k) ==> k@ == slot_views(args@)[0]->Some_0->Expr_1,
    {
        if args.len() != 2 {
            return None;
        }
        let colon = match callee {
            ASTNode::Expr(Spanned(_, k, _)) => match k.shape() {
                K0::Verb(Verb::Colon) => true,
                _ => false,
            },
            _ => false,
        };
        if !colon {
            return None;
        }
        match &args[0] {
            Some(ASTNode::Expr(Spanned(_, k, _))) => match k.shape() {
                K0::Name(_) => Some(k.clone()),
                _ => None,
            },
            _ => None,
        }
    }

    /// The conditional at offset `at`, which is not implemented.
    fn conditional(at: usize) -> (r: Result<K, RuntimeError>)
        ensures
            r == Err::<K, RuntimeError>(RuntimeError { location: at, code: RuntimeErrorCode::Nyi }),
    {
        Err(RuntimeError::new(at, RuntimeErrorCode::Nyi))
    }

    /// The values of `slots`, evaluated from left to right: see
    /// [`eval_slots`].
    fn interpret_slots(
        slots: &Vec<Option<ASTNode>>,
        env: &mut Environment,
        interner: &mut Interner,
    ) -> (r: Result<Vec<K>, RuntimeError>)
        requires
            old(interner).wf(),
        ensures
            final(interner).wf(),
            ({
                let all = eval_slots(
                    slot_views(slots@),
                    slots@.len() as nat,
                    old(env)@,
                    old(interner)@,
                );
                &&& all.env == final(env)@
                &&& all.names == final(interner)@
                &&& match r {
                    Ok(values) => all.result == Ok::<Seq<Value>, RuntimeError>(views(values@)),
                    Err(e) => all.result == Err::<Seq<Value>, RuntimeError>(e),
                }
            }),
            final(interner)@.len() >= old(interner)@.len(),
            slots_sound(slot_views(slots@), old(interner)@.len()) && env_sound(
                old(env)@,
                old(interner)@.len(),
            ) ==> env_sound(final(env)@, final(interner)@.len()) && (r matches Ok(values)
                ==> forall|i: int|
                0 <= i < values@.len() ==> (#[trigger] values@[i])@.sound(final(interner)@.len())),
        decreases slots, 0nat,
    {
        let ghost sv = slot_views(slots@);
        let ghost env0 = env@;
        let ghost names0 = interner@;
        let ghost n0 = interner@.len();
        let ghost sound0 = slots_sound(sv, n0) && env_sound(env@, n0);
        let mut values: Vec<K> = Vec::new();
        let mut i: usize = 0;
        assert(views(values@) =~= Seq::empty());
        while i < slots.len()
            invariant
                i <= slots@.len(),
                interner.wf(),
                sv == slot_views(slots@),
                env0 == old(env)@,
                names0 == old(interner)@,
                eval_slots(sv, i as nat, env0, names0) == (Outcomes {
                    result: Ok(views(values@)),
                    env: env@,
                    names: interner@,
                }),
                n0 == old(interner)@.len(),
                interner@.len() >= n0,
                sound0 == (slots_sound(sv, n0) && env_sound(old(env)@, n0)),
                sound0 ==> env_sound(env@, interner@.len()),
                sound0 ==> forall|j: int|
                    0 <= j < values@.len() ==> (#[trigger] values@[j])@.sound(interner@.len()),
            decreases slots@.len() - i,
        {
            let ghost before = views(values@);
            let ghost held = values@;
            let ghost n = interner@.len();
            let value = match &slots[i] {
                None => K::new(K0::Nil),
                Some(node) => {
                    assert(sv[i as int] == Some(node@));
                    proof {
                        if sound0 {
                            lemma_ast_sound_grows(node@, n0, n);
                        }
                    }
                    match node.interpret(env, interner) {
                        Ok(v) => v,
                        Err(e) => {
                            proof {
                                lemma_eval_slots_err(sv, (i + 1) as nat, slots@.len() as nat, env0, names0);
                            }
                            return Err(e);
                        },
                    }
                },
            };
            values.push(value);
            assert(views(values@) =~= before.push(value@));
            proof {
                if sound0 {
                    assert forall|j: int| 0 <= j < values@.len() implies (#[trigger] values@[j])@.sound(
                        interner@.len(),
                    ) by {
                        if j < held.len() {
                            assert(held[j]@.sound(n));
                            lemma_interned_grows(held[j]@, n, interner@.len());
                        }
                    }
                }
            }
            i += 1;
        }
        Ok(values)
    }

    /// The callee's value `f`, which stands at offset `at`, applied to
    /// `args`: see [`apply`].
    fn apply(
        f: &K,
        at: usize,
        args: &Vec<K>,
        env: &mut Environment,
        interner: &mut Interner,
    ) -> (r: Result<K, RuntimeError>)
        requires
            old(interner).wf(),
        ensures
            final(interner).wf(),
            outcome(r, final(env)@, final(interner)@) == apply(
                f@,
                at,
                views(args@),
                old(env)@,
                old(interner)@,
            ),
            final(interner)@.len() >= old(interner)@.len(),
            f@.sound(old(interner)@.len()) && env_sound(old(env)@, old(interner)@.len()) && (
            forall|i: int| 0 <= i < args@.len() ==> (#[trigger] args@[i])@.sound(old(interner)@.len()))
                ==> kept_sound(r, final(env)@, final(interner)@.len()),
    {
        let ghost n0 = interner@.len();
        let ghost sound0 = f@.sound(n0) && env_sound(env@, n0) && (forall|i: int|
            0 <= i < args@.len() ==> (#[trigger] args@[i])@.sound(n0));
        proof {
            if args@.len() >= 1 {
                assert(sound0 ==> args@[0]@.sound(n0));
                lemma_negated_numeric(args@[0]@);
                if negated(args@[0]@) is Ok {
                    lemma_numeric_interned(negated(args@[0]@)->Ok_0, n0);
                }
            }
            if args@.len() >= 2 {
                assert(sound0 ==> args@[1]@.sound(n0));
                lemma_arith_numeric(ArithOp::Add, args@[0]@, args@[1]@);
                lemma_arith_numeric(ArithOp::Sub, args@[0]@, args@[1]@);
                lemma_arith_numeric(ArithOp::Mul, args@[0]@, args@[1]@);
                lemma_arith_numeric(ArithOp::Div, args@[0]@, args@[1]@);
                if arith(ArithOp::Add, args@[0]@, args@[1]@) is Ok {
                    lemma_numeric_interned(arith(ArithOp::Add, args@[0]@, args@[1]@)->Ok_0, n0);
                }
                if arith(ArithOp::Sub, args@[0]@, args@[1]@) is Ok {
                    lemma_numeric_interned(arith(ArithOp::Sub, args@[0]@, args@[1]@)->Ok_0, n0);
                }
                if arith(ArithOp::Mul, args@[0]@, args@[1]@) is Ok {
                    lemma_numeric_interned(arith(ArithOp::Mul, args@[0]@, args@[1]@)->Ok_0, n0);
                }
                if arith(ArithOp::Div, args@[0]@, args@[1]@) is Ok {
                    lemma_numeric_interned(arith(ArithOp::Div, args@[0]@, args@[1]@)->Ok_0, n0);
                }
            }
        }
        let verb = match f.shape() {
            K0::Verb(v) => *v,
            _ => {
                return Err(RuntimeError::new(at, RuntimeErrorCode::Nyi));
            },
        };
        let n = args.len();
        if n == 0 {
            return Ok(f.clone());
        }
        match verb {
            Verb::Plus => if n == 2 {
                located(args[0].add(&args[1]), at)
            } else if n == 1 {
                Err(RuntimeError::new(at, RuntimeErrorCode::Nyi))
            } else {
                Err(RuntimeError::new(at, RuntimeErrorCode::Rank))
            },
            Verb::Minus => if n == 2 {
                located(args[0].sub(&args[1]), at)
            } else if n == 1 {
                located(args[0].neg(), at)
            } else {
                Err(RuntimeError::new(at, RuntimeErrorCode::Rank))
            },
            Verb::Star => if n == 2 {
                located(args[0].mul(&args[1]), at)
            } else if n == 1 {
                Err(RuntimeError::new(at, RuntimeErrorCode::Nyi))
            } else {
                Err(RuntimeError::new(at, RuntimeErrorCode::Rank))
            },
            Verb::Percent => if n == 2 {
                located(args[0].div(&args[1]), at)
            } else if n == 1 {
                Err(RuntimeError::new(at, RuntimeErrorCode::Nyi))
            } else {
                Err(RuntimeError::new(at, RuntimeErrorCode::Rank))
            },
            Verb::Comma => {
                let mut items: Vec<K> = Vec::new();
                let mut i: usize = 0;
                while i < n
                    invariant
                        i <= n,
                        n == args@.len(),
                        items@.len() == i,
                        forall|j: int| 0 <= j < i ==> items@[j] == args@[j],
                    decreases n - i,
                {
                    items.push(args[i].clone());
                    i += 1;
                }
                assert(views(items@) =~= views(args@));
                proof {
                    if sound0 {
                        assert forall|j: int| 0 <= j < items@.len() implies (#[trigger] items@[j])@.wf() by {
                            assert(args@[j]@.sound(n0));
                        }
                        assert forall|j: int| 0 <= j < views(items@).len() implies (#[trigger] views(
                            items@,
                        )[j]).interned(n0) by {
                            assert(args@[j]@.sound(n0));
                        }
                        lemma_normalize_interned(views(items@), n0);
                    }
                }
                Ok(K::from_list(items))
            },
            Verb::Colon => if n == 2 {
                match args[0].shape() {
                    K0::Name(name) => {
                        env.define(*name, &args[1]);
                        Ok(args[1].clone())
                    },
                    _ => Err(RuntimeError::new(at, RuntimeErrorCode::NameExpected)),
                }
            } else {
                Err(RuntimeError::new(at, RuntimeErrorCode::Rank))
            },
            Verb::Bang => if n == 1 {
                match args[0].shape() {
                    K0::Int(x) => Ok(K::new(K0::IntList(iota_exec(*x)))),
                    _ => Err(RuntimeError::new(at, RuntimeErrorCode::Type)),
                }
            } else {
                Err(RuntimeError::new(at, RuntimeErrorCode::Nyi))
            },
            Verb::At => if n == 1 {
                let tag = type_tag_exec(&args[0]);
                let sym = Sym::new(interner, tag.as_slice());
                proof {
                    if sound0 {
                        lemma_env_sound_grows(env@, n0, interner@.len());
                    }
                }
                Ok(K::new(K0::Sym(sym)))
            } else {
                Err(RuntimeError::new(at, RuntimeErrorCode::Nyi))
            },
            _ => Err(RuntimeError::new(at, RuntimeErrorCode::Nyi)),
        }
    }
}

/// An error among the first `n` slots is the outcome for any more slots.
pub proof fn lemma_eval_slots_err(
    slots: Seq<Option<Ast>>,
    n: nat,
    m: nat,
    env: Map<Sym, Value>,
    names: Seq<Seq<u8>>,
)
    requires
        n <= m <= slots.len(),
        eval_slots(slots, n, env, names).result is Err,
    ensures
        eval_slots(slots, m, env, names) == eval_slots(slots, n, env, names),
    decreases m - n,
{
    if n < m {
        lemma_eval_slots_err(slots, n, (m - 1) as nat, env, names);
    }
}

/// A value that is no name evaluates to itself and changes nothing.
pub proof fn lemma_literal_is_its_value(
    start: int,
    v: Value,
    end: int,
    env: Map<Sym, Value>,
    names: Seq<Seq<u8>>,
)
    requires
        !(v is Name),
    ensures
        eval(Ast::Expr(start, v, end), env, names) == (Outcome { result: Ok(v), env, names }),
{
}

/// Assignment and lookup: where the right side evaluates to a value, the
/// assignment of it to a name gives that value and binds the name to it,
/// on top of what the right side left behind; and the name, evaluated
/// after that, gives the same value and changes nothing.
pub proof fn lemma_assign_then_lookup(
    assignment: Ast,
    name: Sym,
    lookup: Ast,
    env: Map<Sym, Value>,
    names: Seq<Seq<u8>>,
)
    requires
        assignment is Apply,
        *assignment->Apply_1 is Expr,
        assignment->Apply_1->Expr_1 == Value::Verb(Verb::Colon),
        assignment->Apply_2.len() == 2,
        assignment->Apply_2[0] is Some,
        assignment->Apply_2[0]->Some_0 is Expr,
        assignment->Apply_2[0]->Some_0->Expr_1 == Value::Name(name),
        assignment->Apply_2[1] is Some,
        eval(assignment->Apply_2[1]->Some_0, env, names).result is Ok,
        lookup is Expr,
        lookup->Expr_1 == Value::Name(name),
    ensures
        ({
            let rhs = eval(assignment->Apply_2[1]->Some_0, env, names);
            let value = rhs.result->Ok_0;
            let after = eval(assignment, env, names);
            &&& after.result == Ok::<Value, RuntimeError>(value)
            &&& after.env == rhs.env.insert(name, value)
            &&& after.names == rhs.names
            &&& eval(lookup, after.env, after.names) == (Outcome {
                result: Ok(value),
                env: after.env,
                names: after.names,
            })
        }),
{
    let args = assignment->Apply_2;
    let callee = *assignment->Apply_1;
    assert(is_assignment(callee, args));
    assert(!is_conditional(callee, args));
    let rhs = eval(args[1]->Some_0, env, names);
    let pair = seq![args[0]->Some_0->Expr_1, rhs.result->Ok_0];
    assert(pair.len() == 2);
    assert(pair[0] == Value::Name(name));
}

/// A name without a binding is an error at the name's offset, and changes
/// nothing.
pub proof fn lemma_unbound_name(
    start: int,
    name: Sym,
    end: int,
    env: Map<Sym, Value>,
    names: Seq<Seq<u8>>,
)
    requires
        !env.contains_key(name),
    ensures
        eval(Ast::Expr(start, Value::Name(name), end), env, names) == (Outcome {
            result: Err(
                RuntimeError {
                    location: start as usize,
                    code: RuntimeErrorCode::UndefinedVariable,
                },
            ),
            env,
            names,
        }),
{
}

} // verus!
