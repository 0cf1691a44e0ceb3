use vstd::prelude::*;
use crate::error::EvalError;
use crate::number::{rat_apply, BinaryOperation, Number};
use crate::unit::Unit;

verus! {

/// A numeric payload without a unit: one number, or a sequence of numbers.
#[derive(Clone, Debug, PartialEq)]
pub enum Value {
    Scalar(Number),
    Vector(Vec<Number>),
}

/// What a `Value` holds, as a mathematical object.
pub enum ValueModel {
    Scalar(Number),
    Vector(Seq<Number>),
}

impl View for Value {
    type V = ValueModel;

    open spec fn view(&self) -> ValueModel {
        match self {
            Value::Scalar(x) => ValueModel::Scalar(*x),
            Value::Vector(v) => ValueModel::Vector(v@),
        }
    }
}

/// Every number of the payload is well formed.
pub open spec fn value_wf(v: ValueModel) -> bool {
    match v {
        ValueModel::Scalar(x) => x.wf(),
        ValueModel::Vector(s) => forall|i: int| 0 <= i < s.len() ==> (#[trigger] s[i]).wf(),
    }
}

pub open spec fn view_result(r: Result<Value, EvalError>) -> Result<ValueModel, EvalError> {
    match r {
        Ok(v) => Ok(v@),
        Err(e) => Err(e),
    }
}

/// The number of elements of an operation's result on a vector operand:
/// the length of the left operand where it is a vector, else of the right.
pub open spec fn operand_len(a: ValueModel, b: ValueModel) -> nat {
    match a {
        ValueModel::Vector(s) => s.len(),
        ValueModel::Scalar(_) => match b {
            ValueModel::Vector(s) => s.len(),
            ValueModel::Scalar(_) => 1,
        },
    }
}

/// An operand as `n` elements: a scalar repeated, a vector as it is.
pub open spec fn spread(v: ValueModel, n: nat) -> Seq<Number> {
    match v {
        ValueModel::Scalar(x) => Seq::new(n, |i: int| x),
        ValueModel::Vector(s) => s,
    }
}

/// `xs[i] op ys[i]` for each `i` below `n`, or the error of the first
/// position where that fails.
pub open spec fn pairwise(op: BinaryOperation, xs: Seq<Number>, ys: Seq<Number>, n: int) -> Result<
    Seq<Number>,
    EvalError,
>
    decreases n,
{
    if n <= 0 {
        Ok(Seq::empty())
    } else {
        match pairwise(op, xs, ys, n - 1) {
            Ok(p) => match rat_apply(op, xs[n - 1], ys[n - 1]) {
                Ok(z) => Ok(p.push(z)),
                Err(e) => Err(e),
            },
            Err(e) => Err(e),
        }
    }
}

/// `a op b`: on two scalars a scalar; with a vector operand a vector, the
/// scalar operand taken against each element in its own place (left or
/// right); on two vectors element by element, which needs equal lengths.
pub open spec fn value_op(op: BinaryOperation, a: ValueModel, b: ValueModel) -> Result<
    ValueModel,
    EvalError,
> {
    match (a, b) {
        (ValueModel::Scalar(x), ValueModel::Scalar(y)) => match rat_apply(op, x, y) {
            Ok(z) => Ok(ValueModel::Scalar(z)),
            Err(e) => Err(e),
        },
        _ => {
            let n = operand_len(a, b);
            if a is Vector && b is Vector && spread(a, n).len() != spread(b, n).len() {
                Err(EvalError::VectorLengthMismatch)
            } else {
                match pairwise(op, spread(a, n), spread(b, n), n as int) {
                    Ok(s) => Ok(ValueModel::Vector(s)),
                    Err(e) => Err(e),
                }
            }
        },
    }
}

/// A sequence that `pairwise` builds has one element per position.
pub proof fn lemma_pairwise_len(op: BinaryOperation, xs: Seq<Number>, ys: Seq<Number>, n: int)
    requires
        0 <= n,
    ensures
        pairwise(op, xs, ys, n) matches Ok(s) ==> s.len() == n,
    decreases n,
{
    if n > 0 {
        lemma_pairwise_len(op, xs, ys, n - 1);
    }
}

proof fn lemma_pairwise_error_persists(
    op: BinaryOperation,
    xs: Seq<Number>,
    ys: Seq<Number>,
    k: int,
    n: int,
)
    requires
        pairwise(op, xs, ys, k).is_err(),
        0 <= k <= n,
    ensures
        pairwise(op, xs, ys, n) == pairwise(op, xs, ys, k),
    decreases n - k,
{
    if n > k {
        lemma_pairwise_error_persists(op, xs, ys, k, n - 1);
    }
}

/// The `i`th element of an operand spread to `n` elements.
fn element(v: &Value, i: usize, n: Ghost<nat>) -> (r: Number)
    requires
        i < n@,
        v is Vector ==> v@ == ValueModel::Vector(spread(v@, n@)) && spread(v@, n@).len() == n@,
    ensures
        r == spread(v@, n@)[i as int],
{
    match v {
        Value::Scalar(x) => *x,
        Value::Vector(s) => s[i],
    }
}

fn pairwise_exec(op: BinaryOperation, a: &Value, b: &Value, n: usize) -> (r: Result<
    Vec<Number>,
    EvalError,
>)
    requires
        value_wf(a@),
        value_wf(b@),
        a is Vector ==> spread(a@, n as nat).len() == n,
        b is Vector ==> spread(b@, n as nat).len() == n,
    ensures
        match r {
            Ok(v) => pairwise(op, spread(a@, n as nat), spread(b@, n as nat), n as int) == Ok::<
                Seq<Number>,
                EvalError,
            >(v@) && value_wf(ValueModel::Vector(v@)),
            Err(e) => pairwise(op, spread(a@, n as nat), spread(b@, n as nat), n as int) == Err::<
                Seq<Number>,
                EvalError,
            >(e),
        },
{
    let ghost xs = spread(a@, n as nat);
    let ghost ys = spread(b@, n as nat);
    let mut out: Vec<Number> = Vec::new();
    let mut i: usize = 0;
    while i < n
        invariant
            i <= n,
            value_wf(a@),
            value_wf(b@),
            xs == spread(a@, n as nat),
            ys == spread(b@, n as nat),
            a is Vector ==> xs.len() == n,
            b is Vector ==> ys.len() == n,
            pairwise(op, xs, ys, i as int) == Ok::<Seq<Number>, EvalError>(out@),
            forall|j: int| 0 <= j < out@.len() ==> (#[trigger] out@[j]).wf(),
        decreases n - i,
    {
        let x = element(a, i, Ghost(n as nat));
        let y = element(b, i, Ghost(n as nat));
        assert(x.wf() && y.wf());
        match Number::apply(op, x, y) {
            Ok(z) => {
                out.push(z);
            },
            Err(e) => {
                proof {
                    lemma_pairwise_error_persists(op, xs, ys, i + 1, n as int);
                }
                return Err(e);
            },
        }
        i = i + 1;
    }
    Ok(out)
}

impl Value {
    /// `self op other`, with a scalar broadcast against a vector and two
    /// vectors combined element by element.
    pub fn apply(&self, op: BinaryOperation, other: &Value) -> (r: Result<Value, EvalError>)
        requires
            value_wf(self@),
            value_wf(other@),
        ensures
            view_result(r) == value_op(op, self@, other@),
            r matches Ok(v) ==> value_wf(v@),
    {
        match (self, other) {
            (Value::Scalar(x), Value::Scalar(y)) => match Number::apply(op, *x, *y) {
                Ok(z) => Ok(Value::Scalar(z)),
                Err(e) => Err(e),
            },
            _ => {
                let n: usize = match self {
                    Value::Vector(s) => s.len(),
                    Value::Scalar(_) => match other {
                        Value::Vector(s) => s.len(),
                        Value::Scalar(_) => 1,
                    },
                };
                if let (Value::Vector(s), Value::Vector(t)) = (self, other) {
                    if s.len() != t.len() {
                        return Err(EvalError::VectorLengthMismatch);
                    }
                }
                match pairwise_exec(op, self, other, n) {
                    Ok(v) => Ok(Value::Vector(v)),
                    Err(e) => Err(e),
                }
            },
        }
    }

    /// The payload of `value` units of `unit`, expressed in the base unit of
    /// its dimension.
    pub fn new(value: Number, unit: Unit) -> (r: Result<Value, EvalError>)
        requires
            value.wf(),
        ensures
            view_result(r) == value_op(
                BinaryOperation::Multiply,
                ValueModel::Scalar(value),
                ValueModel::Scalar(unit.spec_rate()),
            ),
            r matches Ok(v) ==> value_wf(v@),
    {
        Value::Scalar(value).apply(BinaryOperation::Multiply, &Value::Scalar(unit.conversion_rate()))
    }

    /// The payload of a vector of `values` in `unit`, expressed in the base
    /// unit of its dimension; `EmptyVector` where there are no values.
    pub fn new_vec(values: Vec<Number>, unit: Unit) -> (r: Result<Value, EvalError>)
        requires
            value_wf(ValueModel::Vector(values@)),
        ensures
            values@.len() == 0 ==> r == Err::<Value, EvalError>(EvalError::EmptyVector),
            values@.len() > 0 ==> view_result(r) == value_op(
                BinaryOperation::Multiply,
                ValueModel::Vector(values@),
                ValueModel::Scalar(unit.spec_rate()),
            ),
            r matches Ok(v) ==> value_wf(v@),
    {
        if values.len() == 0 {
            return Err(EvalError::EmptyVector);
        }
        Value::Vector(values).apply(BinaryOperation::Multiply, &Value::Scalar(unit.conversion_rate()))
    }

    /// An equal value.
    pub fn duplicate(&self) -> (r: Value)
        ensures
            r@ == self@,
    {
        match self {
            Value::Scalar(x) => Value::Scalar(*x),
            Value::Vector(s) => {
                let t = s.clone();
                assert(t@ =~= s@);
                Value::Vector(t)
            },
        }
    }
}

} // verus!
