//! Properties that relate several operations of the library, proved over the
//! same spec functions that the operations' own contracts use.
use vstd::prelude::*;
use crate::ast::AstNode;
use crate::error::EvalError;
use crate::interpreter::{eval, exec_statement, run_statements};
use crate::number::{
    lemma_div_undoes_mul, rat_div,
    abs, lowest_terms, lemma_neutral_elements, lemma_ratio_wf, rat_apply, rat_mul, rat_sub, zero, BinaryOperation,
    Number,
};
use crate::quantity::{quantity_op, written_quantity, QuantityModel};
use crate::unit::{
    dimension_exponent, dimension_sum, signature, unit_div, unit_mul, UNIT_COUNT, lemma_simple_dimension, lemma_simple_rate, same_dimension,
    simple_exponents, Dimension, Unit,
};
use crate::value::{value_wf, lemma_pairwise_len, operand_len, pairwise, spread, value_op, ValueModel};

verus! {

/// `q` holds the same number of elements as `p`, each the negation of the
/// one in `p`.
pub open spec fn negation_of(p: ValueModel, q: ValueModel) -> bool {
    match (p, q) {
        (ValueModel::Scalar(x), ValueModel::Scalar(y)) => y.num == -x.num && y.den == x.den,
        (ValueModel::Vector(xs), ValueModel::Vector(ys)) => xs.len() == ys.len() && forall|i: int|
            0 <= i < xs.len() ==> (#[trigger] ys[i]).num == -xs[i].num && ys[i].den == xs[i].den,
        _ => false,
    }
}

/// A quantity of scalar `x` in the named unit `u`.
pub open spec fn scalar_in(x: Number, u: Unit) -> QuantityModel {
    QuantityModel { value: ValueModel::Scalar(x), unit: simple_exponents(u) }
}

proof fn lemma_mul_symmetric(a: Number, b: Number)
    ensures
        rat_mul(a, b) == rat_mul(b, a),
{
    assert(a.num * b.num == b.num * a.num);
    assert(a.den * b.den == b.den * a.den);
}

proof fn lemma_sub_antisymmetric(a: Number, b: Number)
    ensures
        rat_sub(a, b) matches Ok(x) ==> (rat_sub(b, a) matches Ok(y) ==> y.num == -x.num && y.den
            == x.den),
{
    let n = a.num * b.den - b.num * a.den;
    let d = a.den * b.den;
    assert(b.num * a.den - a.num * b.den == -n);
    assert(b.den * a.den == a.den * b.den) by (nonlinear_arith);
    assert(abs(-n) == abs(n));
    assert(lowest_terms(-n, d).1 == lowest_terms(n, d).1);
    assert(lowest_terms(-n, d).0 == -lowest_terms(n, d).0);
}

proof fn lemma_pairwise_mul_symmetric(xs: Seq<Number>, ys: Seq<Number>, n: int)
    ensures
        pairwise(BinaryOperation::Multiply, xs, ys, n) == pairwise(
            BinaryOperation::Multiply,
            ys,
            xs,
            n,
        ),
    decreases n,
{
    if n > 0 {
        lemma_pairwise_mul_symmetric(xs, ys, n - 1);
        lemma_mul_symmetric(xs[n - 1], ys[n - 1]);
    }
}

proof fn lemma_pairwise_sub_antisymmetric(xs: Seq<Number>, ys: Seq<Number>, n: int)
    requires
        0 <= n,
    ensures
        pairwise(BinaryOperation::Subtract, xs, ys, n) matches Ok(p) ==> (pairwise(
            BinaryOperation::Subtract,
            ys,
            xs,
            n,
        ) matches Ok(q) ==> negation_of(ValueModel::Vector(p), ValueModel::Vector(q))),
    decreases n,
{
    lemma_pairwise_len(BinaryOperation::Subtract, xs, ys, n);
    lemma_pairwise_len(BinaryOperation::Subtract, ys, xs, n);
    if n > 0 {
        lemma_pairwise_sub_antisymmetric(xs, ys, n - 1);
        lemma_sub_antisymmetric(xs[n - 1], ys[n - 1]);
    }
}

/// Multiplying payloads does not depend on the order of the operands, for
/// every shape of either operand, errors included.
pub proof fn law_value_multiplication_commutes(x: ValueModel, y: ValueModel)
    ensures
        value_op(BinaryOperation::Multiply, x, y) == value_op(BinaryOperation::Multiply, y, x),
{
    match (x, y) {
        (ValueModel::Scalar(a), ValueModel::Scalar(b)) => {
            lemma_mul_symmetric(a, b);
        },
        _ => {
            let n = operand_len(x, y);
            assert(operand_len(y, x) == n || (x is Vector && y is Vector));
            if x is Vector && y is Vector {
                if spread(x, n).len() == spread(y, n).len() {
                    assert(operand_len(y, x) == n);
                }
            }
            lemma_pairwise_mul_symmetric(spread(x, n), spread(y, n), n as int);
        },
    }
}

/// Subtracting in the other order negates every element of the result:
/// `a - b` and `b - a` differ wherever `a` and `b` do, for scalars, vectors,
/// and a scalar against a vector on either side.
pub proof fn law_value_subtraction_antisymmetric(x: ValueModel, y: ValueModel)
    ensures
        value_op(BinaryOperation::Subtract, x, y) matches Ok(p) ==> (value_op(
            BinaryOperation::Subtract,
            y,
            x,
        ) matches Ok(q) ==> negation_of(p, q)),
{
    match (x, y) {
        (ValueModel::Scalar(a), ValueModel::Scalar(b)) => {
            lemma_sub_antisymmetric(a, b);
        },
        _ => {
            let n = operand_len(x, y);
            if x is Vector && y is Vector {
                if spread(x, n).len() == spread(y, n).len() {
                    assert(operand_len(y, x) == n);
                }
            } else {
                assert(operand_len(y, x) == n);
            }
            lemma_pairwise_sub_antisymmetric(spread(x, n), spread(y, n), n as int);
            lemma_pairwise_sub_antisymmetric(spread(y, n), spread(x, n), n as int);
        },
    }
}

/// The numeric result and the unit of a product of quantities do not depend
/// on the order of the operands.
pub proof fn law_quantity_multiplication_commutes(a: QuantityModel, b: QuantityModel)
    ensures
        quantity_op(BinaryOperation::Multiply, a, b) matches Ok(p) ==> (quantity_op(
            BinaryOperation::Multiply,
            b,
            a,
        ) matches Ok(q) ==> p == q),
{
    if let Ok(p) = quantity_op(BinaryOperation::Multiply, a, b) {
        if let Ok(q) = quantity_op(BinaryOperation::Multiply, b, a) {
            law_value_multiplication_commutes(a.value, b.value);
            assert(p.unit =~= q.unit);
        }
    }
}

/// Swapping the operands of a subtraction of quantities negates every
/// element of the result: `2[m] - 1[m]` and `1[m] - 2[m]` differ in sign.
pub proof fn law_quantity_subtraction_antisymmetric(a: QuantityModel, b: QuantityModel)
    ensures
        quantity_op(BinaryOperation::Subtract, a, b) matches Ok(p) ==> (quantity_op(
            BinaryOperation::Subtract,
            b,
            a,
        ) matches Ok(q) ==> negation_of(p.value, q.value)),
{
    if let Ok(p) = quantity_op(BinaryOperation::Subtract, a, b) {
        if let Ok(q) = quantity_op(BinaryOperation::Subtract, b, a) {
            law_value_subtraction_antisymmetric(a.value, b.value);
        }
    }
}

/// A literal of one number in a named unit holds that number times the
/// unit's rate, in base units, under that unit: `1[km]` holds 1000.
pub proof fn law_literal_in_base_units(x: Number, u: Unit)
    ensures
        written_quantity(ValueModel::Scalar(x), simple_exponents(u)) == match rat_mul(
            x,
            u.spec_rate(),
        ) {
            Ok(y) => Ok(scalar_in(y, u)),
            Err(e) => Err(e),
        },
{
    lemma_simple_rate(u);
}

proof fn lemma_simple_same_dimension(u1: Unit, u2: Unit)
    requires
        u1.spec_dimension() == u2.spec_dimension(),
    ensures
        same_dimension(simple_exponents(u1), simple_exponents(u2)),
{
    assert forall|d: Dimension|
        dimension_exponent(simple_exponents(u1), d) == dimension_exponent(
            simple_exponents(u2),
            d,
        ) by {
        lemma_simple_dimension(u1, d);
        lemma_simple_dimension(u2, d);
    }
}

/// For named units of one dimension, a sum or a difference combines the two
/// base-unit payloads under the left unit: it is never a dimension
/// mismatch, and `1[m] + 1[km]` (payloads 1 and 1000) is 1001.
pub proof fn law_same_dimension_combines(
    op: BinaryOperation,
    x: Number,
    y: Number,
    u1: Unit,
    u2: Unit,
)
    requires
        op == BinaryOperation::Add || op == BinaryOperation::Subtract,
        u1.spec_dimension() == u2.spec_dimension(),
    ensures
        quantity_op(op, scalar_in(x, u1), scalar_in(y, u2)) == match rat_apply(op, x, y) {
            Ok(z) => Ok(scalar_in(z, u1)),
            Err(e) => Err(e),
        },
{
    lemma_simple_same_dimension(u1, u2);
}

/// Adding zero in any unit of the same dimension leaves a literal's
/// base-unit payload and its unit: `1[km] + 0[m]` is 1000 (meters), under
/// the kilometer.
pub proof fn law_add_zero_converts(x: Number, u1: Unit, u2: Unit)
    requires
        x.wf(),
        u1.spec_dimension() == u2.spec_dimension(),
    ensures
        match rat_mul(x, u1.spec_rate()) {
            Ok(y) => {
                &&& written_quantity(ValueModel::Scalar(x), simple_exponents(u1)) == Ok::<
                    QuantityModel,
                    EvalError,
                >(scalar_in(y, u1))
                &&& written_quantity(ValueModel::Scalar(zero()), simple_exponents(u2)) == Ok::<
                    QuantityModel,
                    EvalError,
                >(scalar_in(zero(), u2))
                &&& quantity_op(BinaryOperation::Add, scalar_in(y, u1), scalar_in(zero(), u2))
                    == Ok::<QuantityModel, EvalError>(scalar_in(y, u1))
            },
            Err(e) => written_quantity(ValueModel::Scalar(x), simple_exponents(u1)) == Err::<
                QuantityModel,
                EvalError,
            >(e),
        },
{
    law_literal_in_base_units(x, u1);
    law_literal_in_base_units(zero(), u2);
    u1.lemma_rate_wf();
    u2.lemma_rate_wf();
    lemma_neutral_elements(u2.spec_rate());
    let r = u1.spec_rate();
    assert(x.den * r.den > 0) by (nonlinear_arith)
        requires
            x.den > 0,
            r.den > 0,
    ;
    lemma_ratio_wf(x.num * r.num, x.den * r.den);
    if let Ok(y) = rat_mul(x, r) {
        law_same_dimension_combines(BinaryOperation::Add, y, zero(), u1, u2);
        lemma_neutral_elements(y);
    }
}

/// A sum or a difference of quantities whose units differ in the exponent
/// of some dimension is a dimension mismatch, whatever the payloads.
pub proof fn law_dimension_mismatch(op: BinaryOperation, a: QuantityModel, b: QuantityModel)
    requires
        op == BinaryOperation::Add || op == BinaryOperation::Subtract,
        !same_dimension(a.unit, b.unit),
    ensures
        quantity_op(op, a, b) == Err::<QuantityModel, EvalError>(
            EvalError::DimensionMismatch { lhs: signature(a.unit), rhs: signature(b.unit) },
        ),
{
}

/// Named units of different dimensions (a length and a currency, a time
/// and a length) can neither be added nor subtracted, whatever the payloads.
pub proof fn law_named_units_mismatch(
    op: BinaryOperation,
    x: ValueModel,
    y: ValueModel,
    u1: Unit,
    u2: Unit,
)
    requires
        op == BinaryOperation::Add || op == BinaryOperation::Subtract,
        u1.spec_dimension() != u2.spec_dimension(),
    ensures
        quantity_op(
            op,
            QuantityModel { value: x, unit: simple_exponents(u1) },
            QuantityModel { value: y, unit: simple_exponents(u2) },
        ) == Err::<QuantityModel, EvalError>(
            EvalError::DimensionMismatch {
                lhs: signature(simple_exponents(u1)),
                rhs: signature(simple_exponents(u2)),
            },
        ),
{
    lemma_simple_dimension(u1, u1.spec_dimension());
    lemma_simple_dimension(u2, u1.spec_dimension());
}

/// Binding a name a second time replaces its value: after `x = e; x = l;`
/// with a literal `l`, the memory maps `x` to the value of `l` and every
/// other name as before. Where `e` fails the memory is left as it was, and
/// where `l` fails `x` keeps the value of `e`.
pub proof fn law_last_binding_wins(
    memory: Map<Seq<char>, QuantityModel>,
    first: AstNode,
    second: AstNode,
)
    requires
        first is Variable,
        second is Variable,
        first->Variable_name@ == second->Variable_name@,
        *second->Variable_expr is Literal,
    ensures
        run_statements(seq![first, second], memory, 2) == match eval(*first->Variable_expr, memory) {
            Err(e) => (memory, Some(e)),
            Ok(q1) => match eval(*second->Variable_expr, memory) {
                Err(e) => (memory.insert(first->Variable_name@, q1), Some(e)),
                Ok(q2) => (memory.insert(second->Variable_name@, q2), None::<EvalError>),
            },
        },
{
    let stmts = seq![first, second];
    assert(stmts[0] == first && stmts[1] == second);
    assert(run_statements(stmts, memory, 0) == (memory, None::<EvalError>));
    match eval(*first->Variable_expr, memory) {
        Ok(q) => {
            let m1 = memory.insert(first->Variable_name@, q);
            assert(exec_statement(first, memory) == Ok::<Map<Seq<char>, QuantityModel>, EvalError>(m1));
            assert(run_statements(stmts, memory, 1) == (m1, None::<EvalError>));
            assert(eval(*second->Variable_expr, m1) == eval(*second->Variable_expr, memory));
            if let Ok(q2) = eval(*second->Variable_expr, memory) {
                assert(exec_statement(second, m1) == Ok::<Map<Seq<char>, QuantityModel>, EvalError>(
                    m1.insert(second->Variable_name@, q2),
                ));
                assert(m1.insert(second->Variable_name@, q2) =~= memory.insert(
                    second->Variable_name@,
                    q2,
                ));
            }
        },
        Err(e) => {
            assert(exec_statement(first, memory) == Err::<Map<Seq<char>, QuantityModel>, EvalError>(e));
            assert(run_statements(stmts, memory, 1) == (memory, Some(e)));
        },
    }
}

proof fn lemma_dimension_sum_combines(a: Seq<i32>, b: Seq<i32>, c: Seq<i32>, sign: int, d: Dimension, n: int)
    requires
        0 <= n <= UNIT_COUNT,
        sign == 1 || sign == -1,
        c.len() == UNIT_COUNT,
        forall|i: int| 0 <= i < UNIT_COUNT ==> #[trigger] c[i] == a[i] + sign * b[i],
    ensures
        dimension_sum(c, d, n) == dimension_sum(a, d, n) + sign * dimension_sum(b, d, n),
    decreases n,
{
    if n > 0 {
        lemma_dimension_sum_combines(a, b, c, sign, d, n - 1);
        assert(c[n - 1] == a[n - 1] + sign * b[n - 1]);
        assert(sign * (dimension_sum(b, d, n - 1) + b[n - 1]) == sign * dimension_sum(b, d, n - 1)
            + sign * b[n - 1]) by (nonlinear_arith);
    }
}

/// The exponent of each dimension in a product of units is the sum of the
/// factors' exponents, and in a quotient their difference: a length times a
/// length is a length squared.
pub proof fn law_dimensions_compose(a: Seq<i32>, b: Seq<i32>, d: Dimension)
    ensures
        unit_mul(a, b) matches Ok(c) ==> dimension_exponent(c, d) == dimension_exponent(a, d)
            + dimension_exponent(b, d),
        unit_div(a, b) matches Ok(c) ==> dimension_exponent(c, d) == dimension_exponent(a, d)
            - dimension_exponent(b, d),
{
    if let Ok(c) = unit_mul(a, b) {
        lemma_dimension_sum_combines(a, b, c, 1, d, UNIT_COUNT as int);
    }
    if let Ok(c) = unit_div(a, b) {
        lemma_dimension_sum_combines(a, b, c, -1, d, UNIT_COUNT as int);
    }
}

/// An operation with a vector operand gives a vector with one element per
/// element of that operand.
pub proof fn law_vector_length_preserved(op: BinaryOperation, x: ValueModel, y: ValueModel)
    ensures
        value_op(op, x, y) matches Ok(ValueModel::Vector(s)) ==> s.len() == operand_len(x, y),
        x matches ValueModel::Vector(xs) ==> (value_op(op, x, y) matches Ok(r) ==> r
            matches ValueModel::Vector(s) && s.len() == xs.len()),
        y matches ValueModel::Vector(ys) ==> (value_op(op, x, y) matches Ok(r) ==> r
            matches ValueModel::Vector(s) && s.len() == ys.len()),
{
    let n = operand_len(x, y);
    lemma_pairwise_len(op, spread(x, n), spread(y, n), n as int);
}

proof fn lemma_pairwise_div_undoes_mul(xs: Seq<Number>, y: Number, n: int)
    requires
        0 <= n <= xs.len(),
        forall|i: int| 0 <= i < xs.len() ==> (#[trigger] xs[i]).wf(),
        y.wf(),
        y.num != 0,
    ensures
        pairwise(BinaryOperation::Multiply, xs, Seq::new(xs.len(), |i: int| y), n) matches Ok(ps)
            ==> pairwise(BinaryOperation::Divide, ps, Seq::new(xs.len(), |i: int| y), n) == Ok::<
            Seq<Number>,
            EvalError,
        >(xs.take(n)),
    decreases n,
{
    let ys = Seq::new(xs.len(), |i: int| y);
    if n > 0 {
        lemma_pairwise_div_undoes_mul(xs, y, n - 1);
        if let Ok(ps) = pairwise(BinaryOperation::Multiply, xs, ys, n) {
            let prev = pairwise(BinaryOperation::Multiply, xs, ys, n - 1)->Ok_0;
            let m = rat_mul(xs[n - 1], y)->Ok_0;
            assert(ys[n - 1] == y);
            assert(pairwise(BinaryOperation::Multiply, xs, ys, n - 1) == Ok::<Seq<Number>, EvalError>(prev));
            assert(rat_mul(xs[n - 1], y) == Ok::<Number, EvalError>(m));
            assert(ps == prev.push(m));
            lemma_pairwise_len(BinaryOperation::Multiply, xs, ys, n - 1);
            lemma_div_undoes_mul(xs[n - 1], y);
            assert(rat_div(m, y) == Ok::<Number, EvalError>(xs[n - 1]));
            assert forall|i: int| 0 <= i < n - 1 implies prev[i] == ps[i] by {}
            lemma_pairwise_prefix(BinaryOperation::Divide, prev, ps, ys, n - 1);
            assert(pairwise(BinaryOperation::Divide, ps, ys, n - 1) == Ok::<Seq<Number>, EvalError>(
                xs.take(n - 1),
            ));
            assert(ps[n - 1] == m);
            assert(xs.take(n - 1).push(xs[n - 1]) =~= xs.take(n));
            assert(pairwise(BinaryOperation::Divide, ps, ys, n) == Ok::<Seq<Number>, EvalError>(
                xs.take(n - 1).push(xs[n - 1]),
            ));
        }
    } else {
        assert(xs.take(0) =~= Seq::<Number>::empty());
    }
}

/// `pairwise` over the first `n` positions looks only at those positions.
proof fn lemma_pairwise_prefix(
    op: BinaryOperation,
    xs: Seq<Number>,
    zs: Seq<Number>,
    ys: Seq<Number>,
    n: int,
)
    requires
        0 <= n <= xs.len(),
        n <= zs.len(),
        forall|i: int| 0 <= i < n ==> xs[i] == zs[i],
    ensures
        pairwise(op, xs, ys, n) == pairwise(op, zs, ys, n),
    decreases n,
{
    if n > 0 {
        lemma_pairwise_prefix(op, xs, zs, ys, n - 1);
    }
}

/// Dividing a product of quantities by its scalar factor gives the first
/// factor back, payload and unit: `(1[km] * 1[m]) / 1[m]` is `1[km]`.
pub proof fn law_division_undoes_multiplication(a: QuantityModel, b: QuantityModel)
    requires
        value_wf(a.value),
        a.unit.len() == UNIT_COUNT,
        b.value matches ValueModel::Scalar(y) && y.wf() && y.num != 0,
    ensures
        quantity_op(BinaryOperation::Multiply, a, b) matches Ok(c) ==> quantity_op(
            BinaryOperation::Divide,
            c,
            b,
        ) == Ok::<QuantityModel, EvalError>(a),
{
    if let Ok(c) = quantity_op(BinaryOperation::Multiply, a, b) {
        let y = b.value->Scalar_0;
        assert(c.unit == unit_mul(a.unit, b.unit)->Ok_0);
        assert(unit_div(c.unit, b.unit) == Ok::<Seq<i32>, EvalError>(a.unit)) by {
            assert(forall|i: int| 0 <= i < UNIT_COUNT ==> #[trigger] c.unit[i] == a.unit[i] + b.unit[i]);
            assert(Seq::new(UNIT_COUNT as nat, |i: int| (c.unit[i] - b.unit[i]) as i32) =~= a.unit);
        }
        match a.value {
            ValueModel::Scalar(x) => {
                lemma_div_undoes_mul(x, y);
            },
            ValueModel::Vector(xs) => {
                let n = xs.len();
                let ys = Seq::new(n, |i: int| y);
                assert(spread(b.value, n) == ys);
                lemma_pairwise_len(BinaryOperation::Multiply, xs, ys, n as int);
                let ps = pairwise(BinaryOperation::Multiply, xs, ys, n as int)->Ok_0;
                assert(c.value == ValueModel::Vector(ps));
                assert(spread(b.value, ps.len()) == ys);
                lemma_pairwise_div_undoes_mul(xs, y, n as int);
                assert(xs.take(n as int) =~= xs);
            },
        }
    }
}

proof fn lemma_rat_error_kind(op: BinaryOperation, a: Number, b: Number)
    ensures
        rat_apply(op, a, b) matches Err(e) ==> e == EvalError::Overflow || e
            == EvalError::DivisionByZero,
{
}

proof fn lemma_pairwise_error_kind(op: BinaryOperation, xs: Seq<Number>, ys: Seq<Number>, n: int)
    ensures
        pairwise(op, xs, ys, n) matches Err(e) ==> e == EvalError::Overflow || e
            == EvalError::DivisionByZero,
    decreases n,
{
    if n > 0 {
        lemma_pairwise_error_kind(op, xs, ys, n - 1);
        lemma_rat_error_kind(op, xs[n - 1], ys[n - 1]);
    }
}

/// Combining payloads fails only on overflow, a zero divisor, or vectors of
/// different lengths; never on a dimension mismatch.
pub proof fn law_payload_errors(op: BinaryOperation, x: ValueModel, y: ValueModel)
    ensures
        value_op(op, x, y) matches Err(e) ==> e == EvalError::Overflow || e
            == EvalError::DivisionByZero || e == EvalError::VectorLengthMismatch,
{
    let n = operand_len(x, y);
    if let (ValueModel::Scalar(a), ValueModel::Scalar(b)) = (x, y) {
        lemma_rat_error_kind(op, a, b);
    }
    lemma_pairwise_error_kind(op, spread(x, n), spread(y, n), n as int);
}

/// A sum or a difference of quantities is a dimension mismatch exactly when
/// their units differ in the exponent of some dimension. Otherwise it is the
/// combination of the payloads under the left unit, which succeeds wherever
/// that combination does (no overflow, equal vector lengths).
pub proof fn law_additive_dimension_check(op: BinaryOperation, a: QuantityModel, b: QuantityModel)
    requires
        op == BinaryOperation::Add || op == BinaryOperation::Subtract,
    ensures
        quantity_op(op, a, b) is Err && quantity_op(op, a, b)->Err_0 is DimensionMismatch
            <==> !same_dimension(a.unit, b.unit),
        same_dimension(a.unit, b.unit) ==> quantity_op(op, a, b) == match value_op(
            op,
            a.value,
            b.value,
        ) {
            Ok(v) => Ok(QuantityModel { value: v, unit: a.unit }),
            Err(e) => Err(e),
        },
{
    law_payload_errors(op, a.value, b.value);
}

} // verus!
