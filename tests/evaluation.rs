use dimcalc::ast::AstNode;
use dimcalc::error::{DimensionSignature, EvalError};
use dimcalc::interpreter::{evaluate, Interpreter, Memory};
use dimcalc::number::{BinaryOperation, Number};
use dimcalc::parser::parse_line;
use dimcalc::quantity::DimensionedValue;
use dimcalc::unit::{CompoundUnit, Dimension, Unit};
use dimcalc::value::Value;

fn num(n: i64, d: i64) -> Number {
    Number::new(n, d).unwrap()
}

fn whole(n: i64) -> Number {
    Number::from_integer(n)
}

fn scalar(n: i64, unit: Unit) -> DimensionedValue {
    DimensionedValue::new(Value::Scalar(whole(n)), CompoundUnit::new(unit)).unwrap()
}

fn vector(items: &[i64], unit: Unit) -> DimensionedValue {
    let values: Vec<Number> = items.iter().map(|n| whole(*n)).collect();
    DimensionedValue::new(Value::Vector(values), CompoundUnit::new(unit)).unwrap()
}

fn ints(items: &[i64]) -> Value {
    Value::Vector(items.iter().map(|n| whole(*n)).collect())
}

fn run(source: &str) -> (Interpreter, Result<(), EvalError>) {
    let (rest, program) = parse_line(source).unwrap();
    assert_eq!(rest, "");
    let mut interpreter = Interpreter::new(program);
    let result = interpreter.run();
    (interpreter, result)
}

fn lookup<'a>(memory: &'a Memory, name: &str) -> Option<&'a DimensionedValue> {
    memory.get(&name.to_string())
}

#[test]
fn kilometers_plus_zero_meters_is_a_thousand_base_units() {
    let r = scalar(1, Unit::Kilometer).apply(BinaryOperation::Add, &scalar(0, Unit::Meter)).unwrap();
    assert_eq!(r.value, Value::Scalar(whole(1000)));
    assert_eq!(r.unit, CompoundUnit::new(Unit::Kilometer));
}

#[test]
fn same_dimension_sums_convert_both_sides() {
    let r = scalar(1, Unit::Meter).apply(BinaryOperation::Add, &scalar(1, Unit::Kilometer)).unwrap();
    assert_eq!(r.value, Value::Scalar(whole(1001)));
    assert_eq!(r.unit, CompoundUnit::new(Unit::Meter));
    let t = scalar(1, Unit::Hour).apply(BinaryOperation::Add, &scalar(30, Unit::Minute)).unwrap();
    assert_eq!(t.value, Value::Scalar(num(1, 16)));
    let c = scalar(10, Unit::GBP).apply(BinaryOperation::Subtract, &scalar(2, Unit::USD)).unwrap();
    assert_eq!(c.value, Value::Scalar(whole(6)));
}

#[test]
fn subtraction_keeps_operand_order() {
    let a = scalar(2, Unit::Meter).apply(BinaryOperation::Subtract, &scalar(1, Unit::Meter)).unwrap();
    let b = scalar(1, Unit::Meter).apply(BinaryOperation::Subtract, &scalar(2, Unit::Meter)).unwrap();
    assert_eq!(a.value, Value::Scalar(whole(1)));
    assert_eq!(b.value, Value::Scalar(whole(-1)));
    assert_ne!(a.value, b.value);
    let sv = scalar(1, Unit::Meter)
        .apply(BinaryOperation::Subtract, &vector(&[1, 2, 3], Unit::Meter))
        .unwrap();
    let vs = vector(&[1, 2, 3], Unit::Meter)
        .apply(BinaryOperation::Subtract, &scalar(1, Unit::Meter))
        .unwrap();
    assert_eq!(sv.value, ints(&[0, -1, -2]));
    assert_eq!(vs.value, ints(&[0, 1, 2]));
}

#[test]
fn multiplication_commutes() {
    let a = scalar(2, Unit::Meter).apply(BinaryOperation::Multiply, &scalar(2, Unit::Kilometer)).unwrap();
    let b = scalar(2, Unit::Kilometer).apply(BinaryOperation::Multiply, &scalar(2, Unit::Meter)).unwrap();
    assert_eq!(a, b);
    assert_eq!(a.value, Value::Scalar(whole(4000)));
    let v = vector(&[1, 2], Unit::Meter).apply(BinaryOperation::Multiply, &scalar(3, Unit::Second)).unwrap();
    let w = scalar(3, Unit::Second).apply(BinaryOperation::Multiply, &vector(&[1, 2], Unit::Meter)).unwrap();
    assert_eq!(v, w);
    assert_eq!(v.value, Value::Vector(vec![num(3, 86400), num(6, 86400)]));
}

#[test]
fn different_dimensions_do_not_add() {
    let pairs = [
        (Unit::Meter, Unit::USD),
        (Unit::Kilometer, Unit::Second),
        (Unit::Day, Unit::GBP),
        (Unit::Meter, Unit::Dimensionless),
    ];
    for (u1, u2) in pairs {
        let add = scalar(1, u1).apply(BinaryOperation::Add, &scalar(1, u2));
        let sub = scalar(1, u1).apply(BinaryOperation::Subtract, &scalar(1, u2));
        assert!(matches!(add, Err(EvalError::DimensionMismatch { .. })));
        assert!(matches!(sub, Err(EvalError::DimensionMismatch { .. })));
    }
    let same = [(Unit::Meter, Unit::Kilometer), (Unit::Second, Unit::Day), (Unit::USD, Unit::GBP)];
    for (u1, u2) in same {
        assert!(scalar(1, u1).apply(BinaryOperation::Add, &scalar(1, u2)).is_ok());
    }
}

#[test]
fn vector_broadcasting() {
    let r = vector(&[1, 2, 3], Unit::Meter).apply(BinaryOperation::Add, &scalar(1, Unit::Meter)).unwrap();
    assert_eq!(r.value, ints(&[2, 3, 4]));
    assert_eq!(r.unit, CompoundUnit::new(Unit::Meter));
    let s = scalar(1, Unit::Meter).apply(BinaryOperation::Subtract, &vector(&[1, 2, 3], Unit::Meter)).unwrap();
    assert_eq!(s.value, ints(&[0, -1, -2]));
    let d = scalar(6, Unit::Meter).apply(BinaryOperation::Divide, &vector(&[1, 2, 4], Unit::Meter)).unwrap();
    assert_eq!(d.value, Value::Vector(vec![whole(6), whole(3), num(3, 2)]));
}

#[test]
fn vectors_combine_element_by_element() {
    let r = vector(&[1, 2, 3], Unit::Meter)
        .apply(BinaryOperation::Multiply, &vector(&[4, 5, 6], Unit::Meter))
        .unwrap();
    assert_eq!(r.value, ints(&[4, 10, 18]));
    assert_eq!(r.unit.exponent(Unit::Meter), 2);
    let e = vector(&[1, 2, 3], Unit::Meter).apply(BinaryOperation::Add, &vector(&[1, 2], Unit::Meter));
    assert_eq!(e, Err(EvalError::VectorLengthMismatch));
}

#[test]
fn repeated_binding_keeps_the_last_value() {
    let (interpreter, result) = run("x = 1[m]; x = 2[m];");
    assert_eq!(result, Ok(()));
    assert_eq!(interpreter.memory.len(), 1);
    assert_eq!(lookup(&interpreter.memory, "x"), Some(&scalar(2, Unit::Meter)));
}

#[test]
fn composite_unit_program_fails_on_mismatch() {
    let (interpreter, result) = run("x = (2[m] * 2[km]); y = 1[km]; z = (x + y);");
    let area = DimensionSignature { dimensionless: 0, time: 0, length: 2, currency: 0 };
    let length = DimensionSignature { dimensionless: 0, time: 0, length: 1, currency: 0 };
    assert_eq!(result, Err(EvalError::DimensionMismatch { lhs: area, rhs: length }));
    let memory = &interpreter.memory;
    assert_eq!(memory.len(), 2);
    let x = lookup(memory, "x").unwrap();
    assert_eq!(x.value, Value::Scalar(whole(4000)));
    assert_eq!(x.unit.exponent(Unit::Meter), 1);
    assert_eq!(x.unit.exponent(Unit::Kilometer), 1);
    assert_eq!(x.unit.dimension_exponent(Dimension::Length), 2);
    let y = lookup(memory, "y").unwrap();
    assert_eq!(y, &scalar(1, Unit::Kilometer));
    assert_eq!(y.value, Value::Scalar(whole(1000)));
    assert_eq!(y.unit, CompoundUnit::new(Unit::Kilometer));
    assert_eq!(y.unit.dimension_exponent(Dimension::Length), 1);
    assert!(lookup(memory, "z").is_none());
}

#[test]
fn later_statements_see_earlier_bindings() {
    let (interpreter, result) = run("a = 2[km]; b = (a + 500[m]);");
    assert_eq!(result, Ok(()));
    let b = lookup(&interpreter.memory, "b").unwrap();
    assert_eq!(b.value, Value::Scalar(whole(2500)));
    assert_eq!(b.unit, CompoundUnit::new(Unit::Kilometer));
}

#[test]
fn undefined_variable() {
    let (interpreter, result) = run("a = 1[m]; b = (a + c);");
    assert_eq!(result, Err(EvalError::UndefinedVariable));
    assert_eq!(interpreter.memory.len(), 1);
}

#[test]
fn division_by_zero_and_overflow() {
    let z = scalar(1, Unit::Meter).apply(BinaryOperation::Divide, &scalar(0, Unit::Meter));
    assert_eq!(z, Err(EvalError::DivisionByZero));
    let big = DimensionedValue::new(Value::Scalar(whole(i64::MAX)), CompoundUnit::new(Unit::Kilometer));
    assert_eq!(big, Err(EvalError::Overflow));
    assert_eq!(whole(i64::MAX).checked_add(whole(1)), Err(EvalError::Overflow));
}

#[test]
fn misplaced_nodes() {
    let memory = Memory::new();
    let binding = AstNode::Variable {
        name: "x".to_string(),
        expr: Box::new(AstNode::Literal {
            value: Value::Scalar(whole(1)),
            unit: CompoundUnit::new(Unit::Meter),
        }),
    };
    assert_eq!(evaluate(&binding, &memory), Err(EvalError::MisplacedBinding));
    let mut interpreter = Interpreter::new(vec![AstNode::Name("x".to_string())]);
    assert_eq!(interpreter.run(), Err(EvalError::NotABinding));
}

#[test]
fn exact_rational_arithmetic() {
    assert_eq!(num(1, 2).checked_add(num(1, 3)), Ok(num(5, 6)));
    assert_eq!(num(1, 2).checked_sub(num(1, 3)), Ok(num(1, 6)));
    assert_eq!(num(2, 3).checked_mul(num(3, 4)), Ok(num(1, 2)));
    assert_eq!(num(2, 3).checked_div(num(-4, 9)), Ok(num(-3, 2)));
    assert_eq!(num(4, -8), num(-1, 2));
    assert_eq!(num(4, -8).num, -1);
    assert_eq!(num(4, -8).den, 2);
    assert_eq!(Number::new(1, 0), Err(EvalError::DivisionByZero));
    assert_eq!(num(0, 7), whole(0));
}

#[test]
fn unit_conversion_rates() {
    assert_eq!(Unit::Kilometer.conversion_rate(), whole(1000));
    assert_eq!(Unit::Minute.conversion_rate(), num(1, 1440));
    assert_eq!(Unit::Second.conversion_rate(), num(1, 86400));
    assert_eq!(Unit::GBP.conversion_rate(), num(4, 5));
    let per_hour = CompoundUnit::new(Unit::Kilometer).divide(&CompoundUnit::new(Unit::Hour)).unwrap();
    assert_eq!(per_hour.conversion_rate(), Ok(whole(24000)));
    assert_eq!(per_hour.exponent(Unit::Hour), -1);
    assert_eq!(per_hour.dimension_exponent(Dimension::Time), -1);
    assert_eq!(per_hour.dimension_exponent(Dimension::Length), 1);
}

#[test]
fn value_constructors_convert_to_base_units() {
    assert_eq!(Value::new(whole(2), Unit::Kilometer), Ok(Value::Scalar(whole(2000))));
    assert_eq!(Value::new_vec(vec![whole(1), whole(2)], Unit::Kilometer), Ok(ints(&[1000, 2000])));
    assert_eq!(Value::new_vec(vec![], Unit::Meter), Err(EvalError::EmptyVector));
}

#[test]
fn unit_algebra() {
    let m = CompoundUnit::new(Unit::Meter);
    let km = CompoundUnit::new(Unit::Kilometer);
    let usd = CompoundUnit::new(Unit::USD);
    assert!(m.same_dimension(&km));
    assert!(!m.same_dimension(&usd));
    assert_eq!(m.additive(&km), Ok(m.clone()));
    let length = DimensionSignature { dimensionless: 0, time: 0, length: 1, currency: 0 };
    let money = DimensionSignature { dimensionless: 0, time: 0, length: 0, currency: 1 };
    assert_eq!(m.additive(&usd), Err(EvalError::DimensionMismatch { lhs: length, rhs: money }));
    assert_eq!(usd.signature(), money);
    let area = m.multiply(&km).unwrap();
    assert_eq!(area.dimension_exponent(Dimension::Length), 2);
    let back = area.divide(&km).unwrap();
    assert_eq!(back, m);
    assert_eq!(Unit::GBP.dimension(), Dimension::Currency);
}

#[test]
fn computed_values_are_not_converted_again() {
    let (interpreter, result) = run("a = 2[km]; b = (a + 0[m]); c = (b + 0[m]);");
    assert_eq!(result, Ok(()));
    let b = lookup(&interpreter.memory, "b").unwrap();
    let c = lookup(&interpreter.memory, "c").unwrap();
    assert_eq!(b.value, Value::Scalar(whole(2000)));
    assert_eq!(c, b);
}

#[test]
fn division_undoes_multiplication() {
    let (interpreter, result) = run("p = (1[km] * 1[m]); q = (p / 1[m]); r = ((1[km] * 1[m]) / 1[m]);");
    assert_eq!(result, Ok(()));
    let q = lookup(&interpreter.memory, "q").unwrap();
    let r = lookup(&interpreter.memory, "r").unwrap();
    assert_eq!(q, &scalar(1, Unit::Kilometer));
    assert_eq!(q.value, Value::Scalar(whole(1000)));
    assert_eq!(r, q);
    let v = vector(&[1, 2, 3], Unit::Hour)
        .apply(BinaryOperation::Multiply, &scalar(5, Unit::GBP))
        .unwrap()
        .apply(BinaryOperation::Divide, &scalar(5, Unit::GBP))
        .unwrap();
    assert_eq!(v, vector(&[1, 2, 3], Unit::Hour));
}

#[test]
fn literals_hold_base_units() {
    let (interpreter, result) = run("t = 90[min]; v = [1 2][km];");
    assert_eq!(result, Ok(()));
    let t = lookup(&interpreter.memory, "t").unwrap();
    assert_eq!(t.value, Value::Scalar(num(1, 16)));
    assert_eq!(t.unit, CompoundUnit::new(Unit::Minute));
    let v = lookup(&interpreter.memory, "v").unwrap();
    assert_eq!(v.value, ints(&[1000, 2000]));
}
