use vstd::prelude::*;

use crate::error::RuntimeErrorCode;
use crate::k::{normalize, views, ArithOp, Float, FloatView, Value, K, K0};

verus! {

/// `x op y` on 64-bit integers, wrapping around at the ends of the range.
/// Division is never done on integers: see [`number_op`].
pub open spec fn int_op(op: ArithOp, x: i64, y: i64) -> i64 {
    match op {
        ArithOp::Add => x.wrapping_add(y),
        ArithOp::Sub => x.wrapping_sub(y),
        _ => x.wrapping_mul(y),
    }
}

impl Value {
    /// An integer or a float.
    pub open spec fn is_number(self) -> bool {
        self is Int || self is Float
    }

    /// A list of integers or of floats.
    pub open spec fn is_number_list(self) -> bool {
        self is IntList || self is FloatList
    }

    /// An integer or a list of integers.
    pub open spec fn is_integral(self) -> bool {
        self is Int || self is IntList
    }

    /// The number as a float: itself, or the conversion of the integer.
    pub open spec fn as_float(self) -> FloatView {
        match self {
            Value::Int(i) => FloatView::FromInt(i),
            Value::Float(f) => f,
            _ => FloatView::FromInt(0),
        }
    }

    /// How many items a list has; 0 for what is not a list of numbers or a
    /// general list.
    pub open spec fn count(self) -> nat {
        match self {
            Value::IntList(s) => s.len(),
            Value::FloatList(s) => s.len(),
            Value::GenList(s) => s.len(),
            _ => 0,
        }
    }

    /// Item `i` of a list; a number stands for itself at every index, which
    /// is how it is broadcast against a list.
    pub open spec fn item(self, i: int) -> Value {
        match self {
            Value::IntList(s) => Value::Int(s[i]),
            Value::FloatList(s) => Value::Float(s[i]),
            Value::GenList(s) => s[i],
            _ => self,
        }
    }
}

/// `a op b` on two numbers. Two integers give an integer under `+ - *`;
/// in every other case both are taken as floats and the result is a float.
pub open spec fn number_op(op: ArithOp, a: Value, b: Value) -> Value {
    if op != ArithOp::Div && a is Int && b is Int {
        Value::Int(int_op(op, a->Int_0, b->Int_0))
    } else {
        Value::Float(FloatView::Binary(op, Box::new(a.as_float()), Box::new(b.as_float())))
    }
}

/// `a op b` where each side is a number or a list of numbers, and at least
/// one of them a list: item by item, a number being broadcast. The result is
/// a list of integers if both sides are integral and `op` is not division,
/// else a list of floats.
pub open spec fn number_list_op(op: ArithOp, a: Value, b: Value) -> Value {
    let n = if a.is_number_list() {
        a.count()
    } else {
        b.count()
    };
    if op != ArithOp::Div && a.is_integral() && b.is_integral() {
        Value::IntList(Seq::new(n, |i: int| int_op(op, a.item(i)->Int_0, b.item(i)->Int_0)))
    } else {
        Value::FloatList(
            Seq::new(
                n,
                |i: int|
                    FloatView::Binary(
                        op,
                        Box::new(a.item(i).as_float()),
                        Box::new(b.item(i).as_float()),
                    ),
            ),
        )
    }
}

/// `a op b` where each side is a number or a list of numbers.
pub open spec fn flat_arith(op: ArithOp, a: Value, b: Value) -> Result<Value, RuntimeErrorCode> {
    if a.is_number() && b.is_number() {
        Ok(number_op(op, a, b))
    } else if a.is_number_list() && b.is_number_list() && a.count() != b.count() {
        Err(RuntimeErrorCode::Length)
    } else {
        Ok(number_list_op(op, a, b))
    }
}

/// The values of `rs` if all are `Ok`, else the first error among them.
pub open spec fn collect(rs: Seq<Result<Value, RuntimeErrorCode>>) -> Result<
    Seq<Value>,
    RuntimeErrorCode,
>
    decreases rs.len(),
{
    if rs.len() == 0 {
        Ok(Seq::empty())
    } else {
        match collect(rs.drop_last()) {
            Err(e) => Err(e),
            Ok(vs) => match rs.last() {
                Err(e) => Err(e),
                Ok(v) => Ok(vs.push(v)),
            },
        }
    }
}

/// The list of the values of `rs` (see [`normalize`]), or the first error.
pub open spec fn listed(rs: Seq<Result<Value, RuntimeErrorCode>>) -> Result<
    Value,
    RuntimeErrorCode,
> {
    match collect(rs) {
        Ok(vs) => Ok(normalize(vs)),
        Err(e) => Err(e),
    }
}

/// `x op b` for a number `x`: on a number or a list of numbers as
/// [`flat_arith`] has it; on a general list item by item, `x` being
/// broadcast; on anything else a type error.
pub open spec fn left_arith(op: ArithOp, x: Value, b: Value) -> Result<Value, RuntimeErrorCode>
    decreases b,
{
    match b {
        Value::GenList(s) => listed(left_items(op, x, s)),
        _ => if b.is_number() || b.is_number_list() {
            flat_arith(op, x, b)
        } else {
            Err(RuntimeErrorCode::Type)
        },
    }
}

/// `x op s[i]` for every item of `s`.
pub open spec fn left_items(op: ArithOp, x: Value, s: Seq<Value>) -> Seq<
    Result<Value, RuntimeErrorCode>,
>
    decreases s,
{
    Seq::new(
        s.len(),
        |i: int|
            if 0 <= i < s.len() {
                left_arith(op, x, s[i])
            } else {
                Err(RuntimeErrorCode::Type)
            },
    )
}

/// `a op y` for a number `y`: the mirror image of [`left_arith`].
pub open spec fn right_arith(op: ArithOp, a: Value, y: Value) -> Result<Value, RuntimeErrorCode>
    decreases a,
{
    match a {
        Value::GenList(s) => listed(right_items(op, s, y)),
        _ => if a.is_number() || a.is_number_list() {
            flat_arith(op, a, y)
        } else {
            Err(RuntimeErrorCode::Type)
        },
    }
}

/// `s[i] op y` for every item of `s`.
pub open spec fn right_items(op: ArithOp, s: Seq<Value>, y: Value) -> Seq<
    Result<Value, RuntimeErrorCode>,
>
    decreases s,
{
    Seq::new(
        s.len(),
        |i: int|
            if 0 <= i < s.len() {
                right_arith(op, s[i], y)
            } else {
                Err(RuntimeErrorCode::Type)
            },
    )
}

/// `a op b` on any two values.
///
/// - Numbers and lists of numbers combine as [`flat_arith`] has it.
/// - A number is broadcast against every item of a list.
/// - Two lists must be of one length, else the result is a length error;
///   they are combined item by item.
/// - Where a general list takes part, the items are combined by `arith`
///   itself, the first error among them is the result, and the results are
///   made into a list by [`normalize`].
/// - Anything else on either side is a type error.
pub open spec fn arith(op: ArithOp, a: Value, b: Value) -> Result<Value, RuntimeErrorCode>
    decreases a,
{
    if a.is_number() {
        left_arith(op, a, b)
    } else if b.is_number() {
        right_arith(op, a, b)
    } else {
        match (a, b) {
            (Value::GenList(s), Value::GenList(t)) => if s.len() != t.len() {
                Err(RuntimeErrorCode::Length)
            } else {
                listed(pair_items(op, s, t))
            },
            (Value::GenList(s), _) => if !b.is_number_list() {
                Err(RuntimeErrorCode::Type)
            } else if s.len() != b.count() {
                Err(RuntimeErrorCode::Length)
            } else {
                listed(Seq::new(s.len(), |i: int| right_arith(op, s[i], b.item(i))))
            },
            (_, Value::GenList(t)) => if !a.is_number_list() {
                Err(RuntimeErrorCode::Type)
            } else if a.count() != t.len() {
                Err(RuntimeErrorCode::Length)
            } else {
                listed(Seq::new(t.len(), |i: int| left_arith(op, a.item(i), t[i])))
            },
            _ => if a.is_number_list() && b.is_number_list() {
                flat_arith(op, a, b)
            } else {
                Err(RuntimeErrorCode::Type)
            },
        }
    }
}

/// `s[i] op t[i]` for every item of `s`.
pub open spec fn pair_items(op: ArithOp, s: Seq<Value>, t: Seq<Value>) -> Seq<
    Result<Value, RuntimeErrorCode>,
>
    decreases s,
{
    Seq::new(
        s.len(),
        |i: int|
            if 0 <= i < s.len() {
                arith(op, s[i], t[i])
            } else {
                Err(RuntimeErrorCode::Type)
            },
    )
}

/// The negation of a value: of a number, of every item of a list; a type
/// error on anything else. Integers wrap around.
pub open spec fn negated(a: Value) -> Result<Value, RuntimeErrorCode>
    decreases a,
{
    match a {
        Value::Int(x) => Ok(Value::Int(0i64.wrapping_sub(x))),
        Value::Float(f) => Ok(Value::Float(FloatView::Neg(Box::new(f)))),
        Value::IntList(s) => Ok(Value::IntList(Seq::new(s.len(), |i: int| 0i64.wrapping_sub(s[i])))),
        Value::FloatList(s) => Ok(
            Value::FloatList(Seq::new(s.len(), |i: int| FloatView::Neg(Box::new(s[i])))),
        ),
        Value::GenList(s) => listed(negated_items(s)),
        _ => Err(RuntimeErrorCode::Type),
    }
}

/// The negation of every item of `s`.
pub open spec fn negated_items(s: Seq<Value>) -> Seq<Result<Value, RuntimeErrorCode>>
    decreases s,
{
    Seq::new(
        s.len(),
        |i: int|
            if 0 <= i < s.len() {
                negated(s[i])
            } else {
                Err(RuntimeErrorCode::Type)
            },
    )
}

/// Once a prefix of `rs` holds an error, that error is the result for all
/// of `rs`.
pub proof fn lemma_collect_prefix_err(rs: Seq<Result<Value, RuntimeErrorCode>>, n: int)
    requires
        0 <= n <= rs.len(),
        collect(rs.take(n)) is Err,
    ensures
        collect(rs) == collect(rs.take(n)),
    decreases rs.len() - n,
{
    if n == rs.len() {
        assert(rs.take(n) =~= rs);
    } else {
        assert(rs.take(n + 1).drop_last() =~= rs.take(n));
        lemma_collect_prefix_err(rs, n + 1);
    }
}

/// How [`collect`] goes on from a prefix whose items are all `Ok`.
pub proof fn lemma_collect_step(rs: Seq<Result<Value, RuntimeErrorCode>>, n: int)
    requires
        0 <= n < rs.len(),
        collect(rs.take(n)) is Ok,
    ensures
        rs[n] is Ok ==> collect(rs.take(n + 1)) == Ok::<Seq<Value>, RuntimeErrorCode>(
            collect(rs.take(n))->Ok_0.push(rs[n]->Ok_0),
        ),
        rs[n] is Err ==> collect(rs) == Err::<Seq<Value>, RuntimeErrorCode>(rs[n]->Err_0),
{
    assert(rs.take(n + 1).drop_last() =~= rs.take(n));
    assert(rs.take(n + 1).last() == rs[n]);
    if rs[n] is Err {
        lemma_collect_prefix_err(rs, n + 1);
    }
}

/// What [`collect`] gives where every item is `Ok`: the items' values, in
/// order.
pub proof fn lemma_collect_ok(rs: Seq<Result<Value, RuntimeErrorCode>>)
    ensures
        collect(rs) is Ok <==> forall|i: int| 0 <= i < rs.len() ==> (#[trigger] rs[i]) is Ok,
        collect(rs) is Ok ==> collect(rs)->Ok_0.len() == rs.len() && forall|i: int|
            0 <= i < rs.len() ==> (#[trigger] collect(rs)->Ok_0[i]) == rs[i]->Ok_0,
    decreases rs.len(),
{
    if rs.len() > 0 {
        let front = rs.drop_last();
        lemma_collect_ok(front);
        if collect(rs) is Ok {
            assert forall|i: int| 0 <= i < rs.len() implies (#[trigger] rs[i]) is Ok by {
                if i < front.len() {
                    assert(front[i] is Ok);
                }
            }
        }
        if forall|i: int| 0 <= i < rs.len() ==> (#[trigger] rs[i]) is Ok {
            assert forall|i: int| 0 <= i < front.len() implies (#[trigger] front[i]) is Ok by {
                assert(rs[i] is Ok);
            }
            assert(rs.last() is Ok);
        }
    }
}

/// What a result of the arithmetic stands for.
pub open spec fn result_view(r: Result<K, RuntimeErrorCode>) -> Result<Value, RuntimeErrorCode> {
    match r {
        Ok(k) => Ok(k@),
        Err(e) => Err(e),
    }
}

/// Whether the value of a successful result is well formed.
pub open spec fn result_wf(r: Result<K, RuntimeErrorCode>) -> bool {
    r matches Ok(k) ==> k@.wf()
}

fn int_op_exec(op: ArithOp, x: i64, y: i64) -> (r: i64)
    ensures
        r == int_op(op, x, y),
{
    match op {
        ArithOp::Add => x.wrapping_add(y),
        ArithOp::Sub => x.wrapping_sub(y),
        _ => x.wrapping_mul(y),
    }
}

impl K {
    fn is_number(&self) -> (b: bool)
        ensures
            b == self@.is_number(),
    {
        match self.shape() {
            K0::Int(_) | K0::Float(_) => true,
            _ => false,
        }
    }

    fn is_number_list(&self) -> (b: bool)
        ensures
            b == self@.is_number_list(),
    {
        match self.shape() {
            K0::IntList(_) | K0::FloatList(_) => true,
            _ => false,
        }
    }

    fn is_integral(&self) -> (b: bool)
        ensures
            b == self@.is_integral(),
    {
        match self.shape() {
            K0::Int(_) | K0::IntList(_) => true,
            _ => false,
        }
    }

    /// The number of items of a list.
    fn count(&self) -> (n: usize)
        ensures
            n == self@.count(),
    {
        match self.shape() {
            K0::IntList(v) => v.len(),
            K0::FloatList(v) => v.len(),
            K0::GenList(v) => v.len(),
            _ => 0,
        }
    }

    /// Item `i` of a list of integers, or the integer itself.
    fn int_at(&self, i: usize) -> (x: i64)
        requires
            self@.is_integral(),
            self@ is IntList ==> i < self@.count(),
        ensures
            self@.item(i as int) == Value::Int(x),
    {
        match self.shape() {
            K0::Int(x) => *x,
            K0::IntList(v) => v[i],
            _ => 0,
        }
    }

    /// Item `i` of a list of numbers, or the number itself, as a float.
    fn float_at(&self, i: usize) -> (f: Float)
        requires
            self@.is_number() || self@.is_number_list(),
            self@.is_number_list() ==> i < self@.count(),
        ensures
            f@ == self@.item(i as int).as_float(),
            self@.wf() ==> f@.wf(),
    {
        match self.shape() {
            K0::Int(x) => Float::from_int(*x),
            K0::Float(f) => f.clone(),
            K0::IntList(v) => Float::from_int(v[i]),
            K0::FloatList(v) => {
                assert(self@->FloatList_0[i as int] == v@[i as int]@);
                v[i].clone()
            },
            _ => Float::from_int(0),
        }
    }

    /// Item `i` of a list of numbers as a value of its own.
    fn number_at(&self, i: usize) -> (k: K)
        requires
            self@.is_number_list(),
            i < self@.count(),
        ensures
            k@ == self@.item(i as int),
            k@.is_number(),
            self@.wf() ==> k@.wf(),
    {
        match self.shape() {
            K0::IntList(v) => K::new(K0::Int(v[i])),
            K0::FloatList(v) => {
                assert(self@->FloatList_0[i as int] == v@[i as int]@);
                K::new(K0::Float(v[i].clone()))
            },
            _ => K::new(K0::Nil),
        }
    }

    /// `self op rhs` where each side is a number or a list of numbers.
    fn flat_arith(&self, op: ArithOp, rhs: &K) -> (r: Result<K, RuntimeErrorCode>)
        requires
            self@.is_number() || self@.is_number_list(),
            rhs@.is_number() || rhs@.is_number_list(),
        ensures
            result_view(r) == flat_arith(op, self@, rhs@),
            self@.wf() && rhs@.wf() ==> result_wf(r),
    {
        let keeps_int = !matches!(op, ArithOp::Div) && self.is_integral() && rhs.is_integral();
        if self.is_number() && rhs.is_number() {
            if keeps_int {
                return Ok(K::new(K0::Int(int_op_exec(op, self.int_at(0), rhs.int_at(0)))));
            } else {
                return Ok(K::new(K0::Float(self.float_at(0).binary(op, &rhs.float_at(0)))));
            }
        }
        if self.is_number_list() && rhs.is_number_list() && self.count() != rhs.count() {
            return Err(RuntimeErrorCode::Length);
        }
        let n = if self.is_number_list() {
            self.count()
        } else {
            rhs.count()
        };
        let ghost a = self@;
        let ghost b = rhs@;
        if keeps_int {
            let mut out: Vec<i64> = Vec::new();
            let mut i: usize = 0;
            while i < n
                invariant
                    i <= n,
                    a == self@,
                    b == rhs@,
                    a.is_integral(),
                    b.is_integral(),
                    a.is_number_list() ==> n == a.count(),
                    b.is_number_list() ==> n == b.count(),
                    out@.len() == i,
                    forall|j: int|
                        0 <= j < i ==> out@[j] == int_op(op, a.item(j)->Int_0, b.item(j)->Int_0),
                decreases n - i,
            {
                out.push(int_op_exec(op, self.int_at(i), rhs.int_at(i)));
                i += 1;
            }
            let k = K::new(K0::IntList(out));
            assert(k@->IntList_0 =~= number_list_op(op, a, b)->IntList_0);
            Ok(k)
        } else {
            let mut out: Vec<Float> = Vec::new();
            let mut i: usize = 0;
            while i < n
                invariant
                    i <= n,
                    a == self@,
                    b == rhs@,
                    a.is_number() || a.is_number_list(),
                    b.is_number() || b.is_number_list(),
                    a.is_number_list() ==> n == a.count(),
                    b.is_number_list() ==> n == b.count(),
                    out@.len() == i,
                    forall|j: int|
                        0 <= j < i ==> (#[trigger] out@[j])@ == FloatView::Binary(
                            op,
                            Box::new(a.item(j).as_float()),
                            Box::new(b.item(j).as_float()),
                        ),
                    a.wf() && b.wf() ==> forall|j: int| 0 <= j < i ==> (#[trigger] out@[j])@.wf(),
                decreases n - i,
            {
                out.push(self.float_at(i).binary(op, &rhs.float_at(i)));
                i += 1;
            }
            let k = K::new(K0::FloatList(out));
            assert(k@->FloatList_0 =~= number_list_op(op, a, b)->FloatList_0);
            Ok(k)
        }
    }
}

impl K {
    /// `self op rhs` for a number `self`.
    fn left_arith(&self, op: ArithOp, rhs: &K) -> (r: Result<K, RuntimeErrorCode>)
        requires
            self@.is_number(),
        ensures
            result_view(r) == left_arith(op, self@, rhs@),
            self@.wf() && rhs@.wf() ==> result_wf(r),
        decreases rhs,
    {
        match rhs.shape() {
            K0::GenList(v) => {
                let ghost s = rhs@->GenList_0;
                let ghost rs = left_items(op, self@, s);
                let mut out: Vec<K> = Vec::new();
                let mut i: usize = 0;
                assert(rs.take(0) =~= Seq::empty());
                assert(views(out@) =~= Seq::empty());
                assert(left_arith(op, self@, rhs@) == listed(rs));
                while i < v.len()
                    invariant
                        i <= v@.len(),
                        rs.len() == v@.len(),
                        s.len() == v@.len(),
                        left_arith(op, self@, rhs@) == listed(rs),
                        self@.is_number(),
                        rhs@ == Value::GenList(s),
                        *rhs.0 == K0::GenList(*v),
                        forall|j: int| 0 <= j < s.len() ==> s[j] == (#[trigger] v@[j])@,
                        forall|j: int| 0 <= j < s.len() ==> #[trigger] rs[j] == left_arith(op, self@, s[j]),
                        collect(rs.take(i as int)) == Ok::<Seq<Value>, RuntimeErrorCode>(views(out@)),
                        self@.wf() && rhs@.wf() ==> forall|j: int|
                            0 <= j < out@.len() ==> (#[trigger] out@[j])@.wf(),
                    decreases v@.len() - i,
                {
                    proof {
                        lemma_collect_step(rs, i as int);
                        assert(s[i as int] == v@[i as int]@);
                    }
                    match self.left_arith(op, &v[i]) {
                        Ok(k) => {
                            let ghost before = views(out@);
                            out.push(k);
                            assert(views(out@) =~= before.push(k@));
                        },
                        Err(e) => {
                            return Err(e);
                        },
                    }
                    i += 1;
                }
                assert(rs.take(i as int) =~= rs);
                Ok(K::from_list(out))
            },
            _ => {
                if rhs.is_number() || rhs.is_number_list() {
                    self.flat_arith(op, rhs)
                } else {
                    Err(RuntimeErrorCode::Type)
                }
            },
        }
    }

    /// `self op rhs` for a number `rhs`.
    fn right_arith(&self, op: ArithOp, rhs: &K) -> (r: Result<K, RuntimeErrorCode>)
        requires
            rhs@.is_number(),
        ensures
            result_view(r) == right_arith(op, self@, rhs@),
            self@.wf() && rhs@.wf() ==> result_wf(r),
        decreases self,
    {
        match self.shape() {
            K0::GenList(v) => {
                let ghost s = self@->GenList_0;
                let ghost rs = right_items(op, s, rhs@);
                let mut out: Vec<K> = Vec::new();
                let mut i: usize = 0;
                assert(rs.take(0) =~= Seq::empty());
                assert(views(out@) =~= Seq::empty());
                assert(right_arith(op, self@, rhs@) == listed(rs));
                while i < v.len()
                    invariant
                        i <= v@.len(),
                        rs.len() == v@.len(),
                        s.len() == v@.len(),
                        right_arith(op, self@, rhs@) == listed(rs),
                        rhs@.is_number(),
                        self@ == Value::GenList(s),
                        *self.0 == K0::GenList(*v),
                        forall|j: int| 0 <= j < s.len() ==> s[j] == (#[trigger] v@[j])@,
                        forall|j: int| 0 <= j < s.len() ==> #[trigger] rs[j] == right_arith(op, s[j], rhs@),
                        collect(rs.take(i as int)) == Ok::<Seq<Value>, RuntimeErrorCode>(views(out@)),
                        self@.wf() && rhs@.wf() ==> forall|j: int|
                            0 <= j < out@.len() ==> (#[trigger] out@[j])@.wf(),
                    decreases v@.len() - i,
                {
                    proof {
                        lemma_collect_step(rs, i as int);
                        assert(s[i as int] == v@[i as int]@);
                    }
                    match v[i].right_arith(op, rhs) {
                        Ok(k) => {
                            let ghost before = views(out@);
                            out.push(k);
                            assert(views(out@) =~= before.push(k@));
                        },
                        Err(e) => {
                            return Err(e);
                        },
                    }
                    i += 1;
                }
                assert(rs.take(i as int) =~= rs);
                Ok(K::from_list(out))
            },
            _ => {
                if self.is_number() || self.is_number_list() {
                    self.flat_arith(op, rhs)
                } else {
                    Err(RuntimeErrorCode::Type)
                }
            },
        }
    }
}

impl K {
    /// `self op rhs`: see [`arith`].
    pub fn arith(&self, op: ArithOp, rhs: &K) -> (r: Result<K, RuntimeErrorCode>)
        ensures
            result_view(r) == arith(op, self@, rhs@),
            self@.wf() && rhs@.wf() ==> result_wf(r),
        decreases self,
    {
        if self.is_number() {
            return self.left_arith(op, rhs);
        }
        if rhs.is_number() {
            return self.right_arith(op, rhs);
        }
        match (self.shape(), rhs.shape()) {
            (K0::GenList(v), K0::GenList(w)) => {
                if v.len() != w.len() {
                    return Err(RuntimeErrorCode::Length);
                }
                let ghost s = self@->GenList_0;
                let ghost t = rhs@->GenList_0;
                let ghost rs = pair_items(op, s, t);
                let mut out: Vec<K> = Vec::new();
                let mut i: usize = 0;
                assert(rs.take(0) =~= Seq::empty());
                assert(views(out@) =~= Seq::empty());
                while i < v.len()
                    invariant
                        i <= v@.len(),
                        rs.len() == v@.len(),
                        rs == pair_items(op, s, t),
                        s.len() == v@.len(),
                        t.len() == w@.len(),
                        v@.len() == w@.len(),
                        self@ == Value::GenList(s),
                        rhs@ == Value::GenList(t),
                        *self.0 == K0::GenList(*v),
                        forall|j: int| 0 <= j < s.len() ==> s[j] == (#[trigger] v@[j])@,
                        forall|j: int| 0 <= j < t.len() ==> t[j] == (#[trigger] w@[j])@,
                        collect(rs.take(i as int)) == Ok::<Seq<Value>, RuntimeErrorCode>(views(out@)),
                        self@.wf() && rhs@.wf() ==> forall|j: int|
                            0 <= j < out@.len() ==> (#[trigger] out@[j])@.wf(),
                    decreases v@.len() - i,
                {
                    proof {
                        lemma_collect_step(rs, i as int);
                    }
                    match v[i].arith(op, &w[i]) {
                        Ok(k) => {
                            let ghost before = views(out@);
                            out.push(k);
                            assert(views(out@) =~= before.push(k@));
                        },
                        Err(e) => {
                            return Err(e);
                        },
                    }
                    i += 1;
                }
                assert(rs.take(i as int) =~= rs);
                Ok(K::from_list(out))
            },
            (K0::GenList(v), _) => {
                if !rhs.is_number_list() {
                    return Err(RuntimeErrorCode::Type);
                }
                if v.len() != rhs.count() {
                    return Err(RuntimeErrorCode::Length);
                }
                let ghost s = self@->GenList_0;
                let ghost b = rhs@;
                let ghost rs = Seq::new(s.len(), |i: int| right_arith(op, s[i], b.item(i)));
                let mut out: Vec<K> = Vec::new();
                let mut i: usize = 0;
                assert(rs.take(0) =~= Seq::empty());
                assert(views(out@) =~= Seq::empty());
                while i < v.len()
                    invariant
                        i <= v@.len(),
                        rs.len() == v@.len(),
                        rs == Seq::new(s.len(), |i: int| right_arith(op, s[i], b.item(i))),
                        s.len() == v@.len(),
                        b == rhs@,
                        b.is_number_list(),
                        b.count() == v@.len(),
                        self@ == Value::GenList(s),
                        *self.0 == K0::GenList(*v),
                        forall|j: int| 0 <= j < s.len() ==> s[j] == (#[trigger] v@[j])@,
                        collect(rs.take(i as int)) == Ok::<Seq<Value>, RuntimeErrorCode>(views(out@)),
                        self@.wf() && rhs@.wf() ==> forall|j: int|
                            0 <= j < out@.len() ==> (#[trigger] out@[j])@.wf(),
                    decreases v@.len() - i,
                {
                    proof {
                        lemma_collect_step(rs, i as int);
                    }
                    match v[i].right_arith(op, &rhs.number_at(i)) {
                        Ok(k) => {
                            let ghost before = views(out@);
                            out.push(k);
                            assert(views(out@) =~= before.push(k@));
                        },
                        Err(e) => {
                            return Err(e);
                        },
                    }
                    i += 1;
                }
                assert(rs.take(i as int) =~= rs);
                Ok(K::from_list(out))
            },
            (_, K0::GenList(v)) => {
                if !self.is_number_list() {
                    return Err(RuntimeErrorCode::Type);
                }
                if self.count() != v.len() {
                    return Err(RuntimeErrorCode::Length);
                }
                let ghost t = rhs@->GenList_0;
                let ghost a = self@;
                let ghost rs = Seq::new(t.len(), |i: int| left_arith(op, a.item(i), t[i]));
                let mut out: Vec<K> = Vec::new();
                let mut i: usize = 0;
                assert(rs.take(0) =~= Seq::empty());
                assert(views(out@) =~= Seq::empty());
                while i < v.len()
                    invariant
                        i <= v@.len(),
                        rs.len() == v@.len(),
                        rs == Seq::new(t.len(), |i: int| left_arith(op, a.item(i), t[i])),
                        t.len() == v@.len(),
                        a == self@,
                        a.is_number_list(),
                        a.count() == v@.len(),
                        rhs@ == Value::GenList(t),
                        forall|j: int| 0 <= j < t.len() ==> t[j] == (#[trigger] v@[j])@,
                        collect(rs.take(i as int)) == Ok::<Seq<Value>, RuntimeErrorCode>(views(out@)),
                        self@.wf() && rhs@.wf() ==> forall|j: int|
                            0 <= j < out@.len() ==> (#[trigger] out@[j])@.wf(),
                    decreases v@.len() - i,
                {
                    proof {
                        lemma_collect_step(rs, i as int);
                    }
                    match self.number_at(i).left_arith(op, &v[i]) {
                        Ok(k) => {
                            let ghost before = views(out@);
                            out.push(k);
                            assert(views(out@) =~= before.push(k@));
                        },
                        Err(e) => {
                            return Err(e);
                        },
                    }
                    i += 1;
                }
                assert(rs.take(i as int) =~= rs);
                Ok(K::from_list(out))
            },
            _ => {
                if self.is_number_list() && rhs.is_number_list() {
                    self.flat_arith(op, rhs)
                } else {
                    Err(RuntimeErrorCode::Type)
                }
            },
        }
    }

    /// The sum of two values, a number being broadcast against a list.
    pub fn add(&self, rhs: &K) -> (r: Result<K, RuntimeErrorCode>)
        ensures
            result_view(r) == arith(ArithOp::Add, self@, rhs@),
            self@.wf() && rhs@.wf() ==> result_wf(r),
    {
        self.arith(ArithOp::Add, rhs)
    }

    /// The difference of two values.
    pub fn sub(&self, rhs: &K) -> (r: Result<K, RuntimeErrorCode>)
        ensures
            result_view(r) == arith(ArithOp::Sub, self@, rhs@),
            self@.wf() && rhs@.wf() ==> result_wf(r),
    {
        self.arith(ArithOp::Sub, rhs)
    }

    /// The product of two values.
    pub fn mul(&self, rhs: &K) -> (r: Result<K, RuntimeErrorCode>)
        ensures
            result_view(r) == arith(ArithOp::Mul, self@, rhs@),
            self@.wf() && rhs@.wf() ==> result_wf(r),
    {
        self.arith(ArithOp::Mul, rhs)
    }

    /// The quotient of two values, which is made of floats whatever the
    /// operands are.
    pub fn div(&self, rhs: &K) -> (r: Result<K, RuntimeErrorCode>)
        ensures
            result_view(r) == arith(ArithOp::Div, self@, rhs@),
            self@.wf() && rhs@.wf() ==> result_wf(r),
    {
        self.arith(ArithOp::Div, rhs)
    }

    /// The negation of a value: see [`negated`].
    pub fn neg(&self) -> (r: Result<K, RuntimeErrorCode>)
        ensures
            result_view(r) == negated(self@),
            self@.wf() ==> result_wf(r),
        decreases self,
    {
        match self.shape() {
            K0::Int(x) => Ok(K::new(K0::Int(0i64.wrapping_sub(*x)))),
            K0::Float(f) => Ok(K::new(K0::Float(f.neg()))),
            K0::IntList(v) => {
                let mut out: Vec<i64> = Vec::new();
                let mut i: usize = 0;
                while i < v.len()
                    invariant
                        i <= v@.len(),
                        out@.len() == i,
                        forall|j: int| 0 <= j < i ==> out@[j] == 0i64.wrapping_sub(v@[j]),
                    decreases v@.len() - i,
                {
                    out.push(0i64.wrapping_sub(v[i]));
                    i += 1;
                }
                let k = K::new(K0::IntList(out));
                assert(k@->IntList_0 =~= negated(self@)->Ok_0->IntList_0);
                Ok(k)
            },
            K0::FloatList(v) => {
                let ghost s = self@->FloatList_0;
                let mut out: Vec<Float> = Vec::new();
                let mut i: usize = 0;
                while i < v.len()
                    invariant
                        i <= v@.len(),
                        out@.len() == i,
                        s.len() == v@.len(),
                        self@ == Value::FloatList(s),
                        forall|j: int| 0 <= j < s.len() ==> s[j] == (#[trigger] v@[j])@,
                        forall|j: int|
                            0 <= j < i ==> (#[trigger] out@[j])@ == FloatView::Neg(Box::new(s[j])),
                        self@.wf() ==> forall|j: int| 0 <= j < i ==> (#[trigger] out@[j])@.wf(),
                    decreases v@.len() - i,
                {
                    assert(s[i as int] == v@[i as int]@);
                    assert(self@.wf() ==> (self@->FloatList_0)[i as int].wf());
                    out.push(v[i].neg());
                    i += 1;
                }
                let k = K::new(K0::FloatList(out));
                assert(k@->FloatList_0 =~= negated(self@)->Ok_0->FloatList_0);
                Ok(k)
            },
            K0::GenList(v) => {
                let ghost s = self@->GenList_0;
                let ghost rs = negated_items(s);
                let mut out: Vec<K> = Vec::new();
                let mut i: usize = 0;
                assert(rs.take(0) =~= Seq::empty());
                assert(views(out@) =~= Seq::empty());
                while i < v.len()
                    invariant
                        i <= v@.len(),
                        rs.len() == v@.len(),
                        rs == negated_items(s),
                        s.len() == v@.len(),
                        self@ == Value::GenList(s),
                        *self.0 == K0::GenList(*v),
                        forall|j: int| 0 <= j < s.len() ==> s[j] == (#[trigger] v@[j])@,
                        collect(rs.take(i as int)) == Ok::<Seq<Value>, RuntimeErrorCode>(views(out@)),
                        self@.wf() ==> forall|j: int|
                            0 <= j < out@.len() ==> (#[trigger] out@[j])@.wf(),
                    decreases v@.len() - i,
                {
                    proof {
                        lemma_collect_step(rs, i as int);
                    }
                    match v[i].neg() {
                        Ok(k) => {
                            let ghost before = views(out@);
                            out.push(k);
                            assert(views(out@) =~= before.push(k@));
                        },
                        Err(e) => {
                            return Err(e);
                        },
                    }
                    i += 1;
                }
                assert(rs.take(i as int) =~= rs);
                Ok(K::from_list(out))
            },
            _ => Err(RuntimeErrorCode::Type),
        }
    }
}


impl Value {
    /// A list that arithmetic works on: of integers, of floats, or general.
    pub open spec fn is_list(self) -> bool {
        self is IntList || self is FloatList || self is GenList
    }

    /// What arithmetic works on and gives: a number or a list.
    pub open spec fn is_operand(self) -> bool {
        self.is_number() || self.is_list()
    }
}

/// A list made of numbers and lists holds exactly these, in order, whatever
/// kind of list [`normalize`] chose for them.
pub proof fn lemma_normalize_operands(vs: Seq<Value>)
    requires
        forall|i: int| 0 <= i < vs.len() ==> (#[trigger] vs[i]).is_operand(),
    ensures
        normalize(vs).is_list(),
        normalize(vs).count() == vs.len(),
        forall|i: int| 0 <= i < vs.len() ==> normalize(vs).item(i) == #[trigger] vs[i],
{
    if crate::k::homogeneous(vs) {
        assert(vs[0].is_operand());
        assert forall|i: int| 0 <= i < vs.len() implies normalize(vs).item(i) == #[trigger] vs[i] by {
            assert(vs[0].same_atom(vs[i]));
        }
    }
}

/// Broadcasting from the left: where `a` is a number and `l` a list,
/// `a op l` succeeds exactly if `a op l[i]` does for every item, and is then
/// a list of as many items as `l`, of which the `i`-th is `a op l[i]`.
/// Where it fails, it fails as the first failing item does.
pub proof fn lemma_broadcast_left(op: ArithOp, a: Value, l: Value)
    requires
        a.is_number(),
        l.is_list(),
    ensures
        arith(op, a, l) is Ok <==> forall|i: int|
            0 <= i < l.count() ==> (#[trigger] arith(op, a, l.item(i))) is Ok,
        arith(op, a, l) matches Ok(r) ==> r.is_list() && r.count() == l.count() && forall|i: int|
            0 <= i < l.count() ==> #[trigger] arith(op, a, l.item(i)) == Ok::<
                Value,
                RuntimeErrorCode,
            >(r.item(i)),
        arith(op, a, l) matches Err(e) ==> exists|i: int|
            0 <= i < l.count() && #[trigger] arith(op, a, l.item(i)) == Err::<
                Value,
                RuntimeErrorCode,
            >(e) && forall|j: int| 0 <= j < i ==> (#[trigger] arith(op, a, l.item(j))) is Ok,
{
    if let Value::GenList(s) = l {
        let rs = left_items(op, a, s);
        lemma_collect_ok(rs);
        assert forall|i: int| 0 <= i < s.len() implies rs[i] == #[trigger] arith(
            op,
            a,
            l.item(i),
        ) by {}
        if collect(rs) is Ok {
            let vs = collect(rs)->Ok_0;
            assert forall|i: int| 0 <= i < vs.len() implies (#[trigger] vs[i]).is_operand() by {
                lemma_left_arith_numeric(op, a, s[i]);
                assert(rs[i] is Ok);
            }
            lemma_normalize_operands(vs);
            assert forall|i: int| 0 <= i < l.count() implies (#[trigger] arith(
                op,
                a,
                l.item(i),
            )) is Ok by {
                assert(rs[i] is Ok);
            }
        } else {
            let i = lemma_collect_first_err(rs);
            assert(arith(op, a, l.item(i)) == rs[i]);
            assert forall|j: int| 0 <= j < i implies (#[trigger] arith(op, a, l.item(j))) is Ok by {
                assert(rs[j] is Ok);
            }
        }
    } else {
        let r = number_list_op(op, a, l);
        assert(arith(op, a, l) == Ok::<Value, RuntimeErrorCode>(r));
        assert forall|i: int| 0 <= i < l.count() implies #[trigger] arith(op, a, l.item(i)) == Ok::<
            Value,
            RuntimeErrorCode,
        >(r.item(i)) by {}
    }
}

/// Broadcasting from the right: where `l` is a list and `a` a number,
/// `l op a` succeeds exactly if `l[i] op a` does for every item, and is then
/// a list of as many items as `l`, of which the `i`-th is `l[i] op a`.
/// Where it fails, it fails as the first failing item does.
pub proof fn lemma_broadcast_right(op: ArithOp, l: Value, a: Value)
    requires
        a.is_number(),
        l.is_list(),
    ensures
        arith(op, l, a) is Ok <==> forall|i: int|
            0 <= i < l.count() ==> (#[trigger] arith(op, l.item(i), a)) is Ok,
        arith(op, l, a) matches Ok(r) ==> r.is_list() && r.count() == l.count() && forall|i: int|
            0 <= i < l.count() ==> #[trigger] arith(op, l.item(i), a) == Ok::<
                Value,
                RuntimeErrorCode,
            >(r.item(i)),
        arith(op, l, a) matches Err(e) ==> exists|i: int|
            0 <= i < l.count() && #[trigger] arith(op, l.item(i), a) == Err::<
                Value,
                RuntimeErrorCode,
            >(e) && forall|j: int| 0 <= j < i ==> (#[trigger] arith(op, l.item(j), a)) is Ok,
{
    if let Value::GenList(s) = l {
        let rs = right_items(op, s, a);
        lemma_collect_ok(rs);
        assert forall|i: int| 0 <= i < s.len() implies rs[i] == #[trigger] arith(
            op,
            l.item(i),
            a,
        ) by {
            lemma_arith_number_right(op, s[i], a);
        }
        if collect(rs) is Ok {
            let vs = collect(rs)->Ok_0;
            assert forall|i: int| 0 <= i < vs.len() implies (#[trigger] vs[i]).is_operand() by {
                lemma_right_arith_numeric(op, s[i], a);
                assert(rs[i] is Ok);
            }
            lemma_normalize_operands(vs);
            assert forall|i: int| 0 <= i < l.count() implies (#[trigger] arith(
                op,
                l.item(i),
                a,
            )) is Ok by {
                assert(rs[i] is Ok);
            }
        } else {
            let i = lemma_collect_first_err(rs);
            assert(arith(op, l.item(i), a) == rs[i]);
            assert forall|j: int| 0 <= j < i implies (#[trigger] arith(op, l.item(j), a)) is Ok by {
                assert(rs[j] is Ok);
            }
        }
    } else {
        let r = number_list_op(op, l, a);
        assert(arith(op, l, a) == Ok::<Value, RuntimeErrorCode>(r));
        assert forall|i: int| 0 <= i < l.count() implies #[trigger] arith(op, l.item(i), a) == Ok::<
            Value,
            RuntimeErrorCode,
        >(r.item(i)) by {}
    }
}

/// With a number on the right, `arith` is [`right_arith`] whatever stands on
/// the left.
pub proof fn lemma_arith_number_right(op: ArithOp, a: Value, y: Value)
    requires
        y.is_number(),
    ensures
        arith(op, a, y) == right_arith(op, a, y),
{
}

/// The first error in `rs`: the index of the first item that is an error,
/// which is what [`collect`] returns.
pub proof fn lemma_collect_first_err(rs: Seq<Result<Value, RuntimeErrorCode>>) -> (i: int)
    requires
        collect(rs) is Err,
    ensures
        0 <= i < rs.len(),
        rs[i] is Err,
        collect(rs)->Err_0 == rs[i]->Err_0,
        forall|j: int| 0 <= j < i ==> (#[trigger] rs[j]) is Ok,
    decreases rs.len(),
{
    let front = rs.drop_last();
    if collect(front) is Err {
        let i = lemma_collect_first_err(front);
        assert forall|j: int| 0 <= j < i implies (#[trigger] rs[j]) is Ok by {
            assert(front[j] is Ok);
        }
        i
    } else {
        lemma_collect_ok(front);
        assert forall|j: int| 0 <= j < rs.len() - 1 implies (#[trigger] rs[j]) is Ok by {
            assert(front[j] is Ok);
        }
        rs.len() - 1
    }
}

/// Two lists of different lengths never combine: the result is a length
/// error, whatever the operation and whatever the lists hold.
pub proof fn lemma_length_mismatch(op: ArithOp, a: Value, b: Value)
    requires
        a.is_list(),
        b.is_list(),
        a.count() != b.count(),
    ensures
        arith(op, a, b) == Err::<Value, RuntimeErrorCode>(RuntimeErrorCode::Length),
{
}

impl Value {
    /// Whether the value is made of numbers alone: a number, a list of
    /// numbers, or a general list of such values.
    pub open spec fn is_numeric(self) -> bool
        decreases self,
    {
        match self {
            Value::Int(_) => true,
            Value::Float(_) => true,
            Value::IntList(_) => true,
            Value::FloatList(_) => true,
            Value::GenList(l) => forall|i: int|
                0 <= i < l.len() ==> (#[trigger] l[i]).is_numeric(),
            _ => false,
        }
    }
}

/// What is made of numbers alone holds no symbol.
pub proof fn lemma_numeric_interned(v: Value, n: nat)
    requires
        v.is_numeric(),
    ensures
        v.interned(n),
    decreases v,
{
    if let Value::GenList(l) = v {
        assert forall|i: int| 0 <= i < l.len() implies (#[trigger] l[i]).interned(n) by {
            assert(l[i].is_numeric());
            lemma_numeric_interned(l[i], n);
        }
    }
}

/// The list of results that are made of numbers alone is made of numbers
/// alone.
pub proof fn lemma_listed_numeric(rs: Seq<Result<Value, RuntimeErrorCode>>)
    requires
        forall|i: int| 0 <= i < rs.len() ==> ((#[trigger] rs[i]) matches Ok(v) ==> v.is_numeric()),
    ensures
        listed(rs) matches Ok(v) ==> v.is_numeric(),
{
    lemma_collect_ok(rs);
    if collect(rs) is Ok {
        let vs = collect(rs)->Ok_0;
        assert forall|i: int| 0 <= i < vs.len() implies (#[trigger] vs[i]).is_numeric() by {
            assert(rs[i] is Ok);
        }
        if crate::k::homogeneous(vs) {
            assert(vs[0].is_numeric());
        }
    }
}

/// What `x op b` gives for a number `x` is made of numbers alone.
pub proof fn lemma_left_arith_numeric(op: ArithOp, x: Value, b: Value)
    requires
        x.is_number(),
    ensures
        left_arith(op, x, b) matches Ok(r) ==> r.is_numeric(),
    decreases b,
{
    if let Value::GenList(s) = b {
        let rs = left_items(op, x, s);
        assert forall|i: int| 0 <= i < rs.len() implies ((#[trigger] rs[i]) matches Ok(v)
            ==> v.is_numeric()) by {
            lemma_left_arith_numeric(op, x, s[i]);
        }
        lemma_listed_numeric(rs);
    }
}

/// What `a op y` gives for a number `y` is made of numbers alone.
pub proof fn lemma_right_arith_numeric(op: ArithOp, a: Value, y: Value)
    requires
        y.is_number(),
    ensures
        right_arith(op, a, y) matches Ok(r) ==> r.is_numeric(),
    decreases a,
{
    if let Value::GenList(s) = a {
        let rs = right_items(op, s, y);
        assert forall|i: int| 0 <= i < rs.len() implies ((#[trigger] rs[i]) matches Ok(v)
            ==> v.is_numeric()) by {
            lemma_right_arith_numeric(op, s[i], y);
        }
        lemma_listed_numeric(rs);
    }
}

/// What arithmetic gives is made of numbers alone: it never holds a
/// character, a symbol, a name, a verb or nil, at any depth.
pub proof fn lemma_arith_numeric(op: ArithOp, a: Value, b: Value)
    ensures
        arith(op, a, b) matches Ok(r) ==> r.is_numeric(),
    decreases a,
{
    if a.is_number() {
        lemma_left_arith_numeric(op, a, b);
    } else if b.is_number() {
        lemma_right_arith_numeric(op, a, b);
    } else {
        match (a, b) {
            (Value::GenList(s), Value::GenList(t)) => {
                if s.len() == t.len() {
                    let rs = pair_items(op, s, t);
                    assert forall|i: int| 0 <= i < rs.len() implies ((#[trigger] rs[i]) matches Ok(
                        v,
                    ) ==> v.is_numeric()) by {
                        lemma_arith_numeric(op, s[i], t[i]);
                    }
                    lemma_listed_numeric(rs);
                }
            },
            (Value::GenList(s), _) => {
                if b.is_number_list() && s.len() == b.count() {
                    let rs = Seq::new(s.len(), |i: int| right_arith(op, s[i], b.item(i)));
                    assert forall|i: int| 0 <= i < rs.len() implies ((#[trigger] rs[i]) matches Ok(
                        v,
                    ) ==> v.is_numeric()) by {
                        lemma_right_arith_numeric(op, s[i], b.item(i));
                    }
                    lemma_listed_numeric(rs);
                }
            },
            (_, Value::GenList(t)) => {
                if a.is_number_list() && a.count() == t.len() {
                    let rs = Seq::new(t.len(), |i: int| left_arith(op, a.item(i), t[i]));
                    assert forall|i: int| 0 <= i < rs.len() implies ((#[trigger] rs[i]) matches Ok(
                        v,
                    ) ==> v.is_numeric()) by {
                        lemma_left_arith_numeric(op, a.item(i), t[i]);
                    }
                    lemma_listed_numeric(rs);
                }
            },
            _ => {},
        }
    }
}

/// What negation gives is made of numbers alone.
pub proof fn lemma_negated_numeric(a: Value)
    ensures
        negated(a) matches Ok(r) ==> r.is_numeric(),
    decreases a,
{
    if let Value::GenList(s) = a {
        let rs = negated_items(s);
        assert forall|i: int| 0 <= i < rs.len() implies ((#[trigger] rs[i]) matches Ok(v)
            ==> v.is_numeric()) by {
            lemma_negated_numeric(s[i]);
        }
        lemma_listed_numeric(rs);
    }
}

} // verus!
