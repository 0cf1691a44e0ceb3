use vstd::prelude::*;
use crate::error::EvalError;
use crate::number::BinaryOperation;
use crate::unit::{unit_additive, unit_div, unit_mul, unit_rate, CompoundUnit};
use crate::value::{value_op, value_wf, Value, ValueModel};

verus! {

/// A payload together with its unit. The payload is always in the base
/// units of the unit's dimensions (meters, days, US dollars): `1[km]` is held
/// as 1000 under the kilometer. The unit records what the quantity was
/// written in or composed of; it never rescales the payload again.
#[derive(Clone, Debug, PartialEq)]
pub struct DimensionedValue {
    pub value: Value,
    pub unit: CompoundUnit,
}

/// What a `DimensionedValue` holds: the payload in base units and the
/// unit's exponents.
pub struct QuantityModel {
    pub value: ValueModel,
    pub unit: Seq<i32>,
}

impl View for DimensionedValue {
    type V = QuantityModel;

    open spec fn view(&self) -> QuantityModel {
        QuantityModel { value: self.value@, unit: self.unit@ }
    }
}

pub open spec fn quantity_result(r: Result<DimensionedValue, EvalError>) -> Result<
    QuantityModel,
    EvalError,
> {
    match r {
        Ok(q) => Ok(q@),
        Err(e) => Err(e),
    }
}

/// The quantity written as the payload `value` in the unit `unit`: the
/// payload multiplied by the unit's conversion rate, so that it is in base
/// units, under `unit`.
pub open spec fn written_quantity(value: ValueModel, unit: Seq<i32>) -> Result<
    QuantityModel,
    EvalError,
> {
    match unit_rate(unit) {
        Ok(rate) => match value_op(BinaryOperation::Multiply, value, ValueModel::Scalar(rate)) {
            Ok(v) => Ok(QuantityModel { value: v, unit }),
            Err(e) => Err(e),
        },
        Err(e) => Err(e),
    }
}

/// The unit of `a op b`: for a sum or difference the left unit, where the
/// dimensions agree; for a product or quotient the exponents combined.
pub open spec fn result_unit(op: BinaryOperation, a: Seq<i32>, b: Seq<i32>) -> Result<
    Seq<i32>,
    EvalError,
> {
    match op {
        BinaryOperation::Add | BinaryOperation::Subtract => unit_additive(a, b),
        BinaryOperation::Multiply => unit_mul(a, b),
        BinaryOperation::Divide => unit_div(a, b),
    }
}

/// `a op b` on quantities: the unit is settled first, then the payloads,
/// both already in base units, are combined as they are. The result's
/// payload is in base units as well, under the unit that `result_unit`
/// gives.
pub open spec fn quantity_op(op: BinaryOperation, a: QuantityModel, b: QuantityModel) -> Result<
    QuantityModel,
    EvalError,
> {
    match result_unit(op, a.unit, b.unit) {
        Err(e) => Err(e),
        Ok(u) => match value_op(op, a.value, b.value) {
            Ok(v) => Ok(QuantityModel { value: v, unit: u }),
            Err(e) => Err(e),
        },
    }
}

impl DimensionedValue {
    /// Well-formed payload and unit.
    pub open spec fn wf(&self) -> bool {
        &&& value_wf(self.value@)
        &&& self.unit.wf()
    }

    /// The quantity written as `value` in `unit` (`2[km]`: the payload 2 and
    /// the kilometer), its payload brought to base units (2000).
    pub fn new(value: Value, unit: CompoundUnit) -> (r: Result<DimensionedValue, EvalError>)
        requires
            value_wf(value@),
            unit.wf(),
        ensures
            quantity_result(r) == written_quantity(value@, unit@),
            r matches Ok(q) ==> q.wf(),
    {
        let rate = unit.conversion_rate()?;
        let v = value.apply(BinaryOperation::Multiply, &Value::Scalar(rate))?;
        Ok(DimensionedValue { value: v, unit })
    }

    /// `self op other`: `DimensionMismatch` for a sum or difference of
    /// different dimensions; otherwise the combination of the payloads.
    pub fn apply(&self, op: BinaryOperation, other: &DimensionedValue) -> (r: Result<
        DimensionedValue,
        EvalError,
    >)
        requires
            self.wf(),
            other.wf(),
        ensures
            quantity_result(r) == quantity_op(op, self@, other@),
            r matches Ok(q) ==> q.wf(),
    {
        let unit = match op {
            BinaryOperation::Add | BinaryOperation::Subtract => self.unit.additive(&other.unit),
            BinaryOperation::Multiply => self.unit.multiply(&other.unit),
            BinaryOperation::Divide => self.unit.divide(&other.unit),
        };
        let unit = match unit {
            Ok(u) => u,
            Err(e) => {
                return Err(e);
            },
        };
        match self.value.apply(op, &other.value) {
            Ok(v) => Ok(DimensionedValue { value: v, unit }),
            Err(e) => Err(e),
        }
    }

    /// An equal quantity.
    pub fn duplicate(&self) -> (r: DimensionedValue)
        requires
            self.wf(),
        ensures
            r@ == self@,
            r.wf(),
    {
        DimensionedValue { value: self.value.duplicate(), unit: self.unit.duplicate() }
    }
}

} // verus!
