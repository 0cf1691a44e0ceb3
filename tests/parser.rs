use dimcalc::ast::AstNode;
use dimcalc::number::{BinaryOperation, Number};
use dimcalc::parser::{
    parse_expression, parse_line, parse_name, parse_number, parse_variable, ParseError,
};
use dimcalc::unit::{CompoundUnit, Unit};
use dimcalc::value::Value;

fn num(n: i64, d: i64) -> Number {
    Number::new(n, d).unwrap()
}

fn lit(n: i64, d: i64, unit: Unit) -> AstNode {
    AstNode::Literal { value: Value::Scalar(num(n, d)), unit: CompoundUnit::new(unit) }
}

fn var(name: &str, expr: AstNode) -> AstNode {
    AstNode::Variable { name: name.to_string(), expr: Box::new(expr) }
}

fn expr(operation: BinaryOperation, lhs: AstNode, rhs: AstNode) -> AstNode {
    AstNode::Expression { operation, lhs: Box::new(lhs), rhs: Box::new(rhs) }
}

fn name(n: &str) -> AstNode {
    AstNode::Name(n.to_string())
}

#[test]
fn test_parse_number() {
    assert_eq!(parse_number("11e-1[m]"), Ok(("", lit(11, 10, Unit::Meter))));
    assert_eq!(parse_number("1[meter]"), Ok(("", lit(1, 1, Unit::Meter))));
    assert_eq!(parse_number("1.1[km]"), Ok(("", lit(11, 10, Unit::Kilometer))));
    assert_eq!(
        parse_number("9999999.987654[m]"),
        Ok(("", lit(9999999987654, 1000000, Unit::Meter)))
    );
}

#[test]
fn test_parse_name() {
    assert_eq!(parse_name("test"), Ok(("", name("test"))));
    assert_eq!(parse_name("test"), Ok(("", name("test"))));
}

#[test]
fn test_parse_variable() {
    assert_eq!(
        parse_variable("test = 1.2[m];"),
        Ok(("", var("test", lit(12, 10, Unit::Meter))))
    );
    assert_eq!(
        parse_variable("var = -2[kilometers];"),
        Ok(("", var("var", lit(-2, 1, Unit::Kilometer))))
    );
}

#[test]
fn test_parse_expression() {
    assert_eq!(
        parse_expression("(2[km] / 2[m])"),
        Ok((
            "",
            expr(BinaryOperation::Divide, lit(2, 1, Unit::Kilometer), lit(2, 1, Unit::Meter))
        ))
    );
    assert_eq!(
        parse_expression("((2[m] / 2[km]) + (4[km] * 4[m]))"),
        Ok((
            "",
            expr(
                BinaryOperation::Add,
                expr(BinaryOperation::Divide, lit(2, 1, Unit::Meter), lit(2, 1, Unit::Kilometer)),
                expr(
                    BinaryOperation::Multiply,
                    lit(4, 1, Unit::Kilometer),
                    lit(4, 1, Unit::Meter)
                ),
            )
        ))
    );
}

#[test]
fn parse_variable_expression() {
    assert_eq!(
        parse_variable("var = (2[m] / 2[km]);"),
        Ok((
            "",
            var(
                "var",
                expr(BinaryOperation::Divide, lit(2, 1, Unit::Meter), lit(2, 1, Unit::Kilometer))
            )
        ))
    );
    assert_eq!(
        parse_variable("var = ((2[m] * 3[kilometers]) * (4[meters] + 5[km]));"),
        Ok((
            "",
            var(
                "var",
                expr(
                    BinaryOperation::Multiply,
                    expr(
                        BinaryOperation::Multiply,
                        lit(2, 1, Unit::Meter),
                        lit(3, 1, Unit::Kilometer)
                    ),
                    expr(BinaryOperation::Add, lit(4, 1, Unit::Meter), lit(5, 1, Unit::Kilometer)),
                )
            )
        ))
    );
}

#[test]
fn parse_variables_and_abstract_expressions() {
    assert_eq!(
        parse_line("x = (2[m] * 2[kilometer]); y = 1[km]; z = (x + y);"),
        Ok((
            "",
            vec![
                var(
                    "x",
                    expr(
                        BinaryOperation::Multiply,
                        lit(2, 1, Unit::Meter),
                        lit(2, 1, Unit::Kilometer)
                    )
                ),
                var("y", lit(1, 1, Unit::Kilometer)),
                var("z", expr(BinaryOperation::Add, name("x"), name("y"))),
            ]
        ))
    );
}

#[test]
fn parse_vector_literal_with_spaces() {
    let expected = AstNode::Literal {
        value: Value::Vector(vec![num(1, 1), num(25, 10), num(-3, 1)]),
        unit: CompoundUnit::new(Unit::Meter),
    };
    assert_eq!(
        parse_variable("v = [ 1 2.5  -3 ][m^1];"),
        Ok(("", var("v", expected)))
    );
}

#[test]
fn parse_line_stops_at_malformed_statement() {
    let (rest, stmts) = parse_line("a = 1[m]; b = 2[parsec]; c = 3[m];").unwrap();
    assert_eq!(stmts, vec![var("a", lit(1, 1, Unit::Meter))]);
    assert_eq!(rest, " b = 2[parsec]; c = 3[m];");
}

#[test]
fn parse_line_of_nothing() {
    assert_eq!(parse_line(""), Ok(("", vec![])));
    assert_eq!(parse_line("   "), Ok(("   ", vec![])));
}

#[test]
fn parse_time_and_currency_units() {
    assert_eq!(parse_number("3[min]"), Ok(("", lit(3, 1, Unit::Minute))));
    assert_eq!(parse_number("2[hours]"), Ok(("", lit(2, 1, Unit::Hour))));
    assert_eq!(parse_number("5[GBP] rest"), Ok((" rest", lit(5, 1, Unit::GBP))));
    assert_eq!(parse_number("5[USD]"), Ok(("", lit(5, 1, Unit::USD))));
}

#[test]
fn parse_errors() {
    assert_eq!(parse_number("1[m^2]"), Err(ParseError::UnsupportedUnit));
    assert_eq!(parse_number("1[parsec]"), Err(ParseError::Unexpected));
    assert_eq!(parse_number("1e99[m]"), Err(ParseError::NumberOutOfRange));
    assert_eq!(parse_number("99999999999999999999[m]"), Err(ParseError::NumberOutOfRange));
    assert_eq!(parse_number("[m]"), Err(ParseError::Unexpected));
    assert_eq!(parse_expression("(1[m] ^ 2[m])"), Err(ParseError::UnsupportedOperator));
    assert_eq!(parse_name("été"), Err(ParseError::NotAscii));
    assert_eq!(parse_name("1x"), Err(ParseError::Unexpected));
    assert_eq!(parse_line("x = 1[m^3];"), Err(ParseError::UnsupportedUnit));
}

#[test]
fn parse_exponent_forms() {
    assert_eq!(parse_number("2.5e2[m]"), Ok(("", lit(250, 1, Unit::Meter))));
    assert_eq!(parse_number("+.5E+1[km]"), Ok(("", lit(5, 1, Unit::Kilometer))));
    assert_eq!(parse_number("7e[m]"), Err(ParseError::Unexpected));
}
