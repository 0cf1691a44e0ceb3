use vstd::prelude::*;
use crate::number::BinaryOperation;
use crate::unit::CompoundUnit;
use crate::value::{value_wf, Value};

verus! {

/// A parsed statement or expression of the language.
#[derive(Debug, PartialEq)]
pub enum AstNode {
    /// A number or vector with the unit it is written in; the payload is kept
    /// as written and brought to base units when evaluated.
    Literal { value: Value, unit: CompoundUnit },
    /// A reference to a variable bound by an earlier statement.
    Name(String),
    /// `lhs op rhs`.
    Expression { operation: BinaryOperation, lhs: Box<AstNode>, rhs: Box<AstNode> },
    /// The statement `name = expr;`.
    Variable { name: String, expr: Box<AstNode> },
}

/// Every literal in the tree holds well-formed numbers and a well-formed unit.
pub open spec fn node_wf(node: AstNode) -> bool
    decreases node,
{
    match node {
        AstNode::Literal { value, unit } => value_wf(value@) && unit.wf(),
        AstNode::Name(_) => true,
        AstNode::Expression { operation, lhs, rhs } => node_wf(*lhs) && node_wf(*rhs),
        AstNode::Variable { name, expr } => node_wf(*expr),
    }
}

} // verus!
