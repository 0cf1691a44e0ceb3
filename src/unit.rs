use vstd::prelude::*;
use crate::error::{DimensionSignature, EvalError};
use crate::number::{gcd, lemma_gcd_one, lemma_neutral_elements, rat_div, rat_mul, unity, Number};

verus! {

/// How many named units there are.
pub const UNIT_COUNT: usize = 9;

/// How many dimensions there are.
pub const DIMENSION_COUNT: usize = 4;

/// A named unit of measure.
#[derive(Clone, Copy, Debug, PartialEq, Eq, Structural)]
pub enum Unit {
    Meter,
    Kilometer,
    Second,
    Minute,
    Hour,
    Day,
    USD,
    GBP,
    Dimensionless,
}

/// A physical dimension; units of one dimension convert into each other.
#[derive(Clone, Copy, Debug, PartialEq, Eq, Structural)]
pub enum Dimension {
    Dimensionless,
    Time,
    Length,
    Currency,
}

impl Unit {
    pub open spec fn spec_index(self) -> int {
        match self {
            Unit::Meter => 0,
            Unit::Kilometer => 1,
            Unit::Second => 2,
            Unit::Minute => 3,
            Unit::Hour => 4,
            Unit::Day => 5,
            Unit::USD => 6,
            Unit::GBP => 7,
            Unit::Dimensionless => 8,
        }
    }

    /// The unit at position `i` of the order that `spec_index` gives.
    pub open spec fn at(i: int) -> Unit {
        if i == 0 {
            Unit::Meter
        } else if i == 1 {
            Unit::Kilometer
        } else if i == 2 {
            Unit::Second
        } else if i == 3 {
            Unit::Minute
        } else if i == 4 {
            Unit::Hour
        } else if i == 5 {
            Unit::Day
        } else if i == 6 {
            Unit::USD
        } else if i == 7 {
            Unit::GBP
        } else {
            Unit::Dimensionless
        }
    }

    pub open spec fn spec_dimension(self) -> Dimension {
        match self {
            Unit::Meter | Unit::Kilometer => Dimension::Length,
            Unit::Second | Unit::Minute | Unit::Hour | Unit::Day => Dimension::Time,
            Unit::USD | Unit::GBP => Dimension::Currency,
            Unit::Dimensionless => Dimension::Dimensionless,
        }
    }

    /// How many of the dimension's base unit one of this unit is: the base
    /// units are the meter, the day and the US dollar.
    pub open spec fn spec_rate(self) -> Number {
        match self {
            Unit::Kilometer => Number { num: 1000, den: 1 },
            Unit::Second => Number { num: 1, den: 86400 },
            Unit::Minute => Number { num: 1, den: 1440 },
            Unit::Hour => Number { num: 1, den: 24 },
            Unit::GBP => Number { num: 4, den: 5 },
            _ => Number { num: 1, den: 1 },
        }
    }

    pub fn index(&self) -> (r: usize)
        ensures
            r == self.spec_index(),
            r < UNIT_COUNT,
            Unit::at(r as int) == *self,
    {
        match self {
            Unit::Meter => 0,
            Unit::Kilometer => 1,
            Unit::Second => 2,
            Unit::Minute => 3,
            Unit::Hour => 4,
            Unit::Day => 5,
            Unit::USD => 6,
            Unit::GBP => 7,
            Unit::Dimensionless => 8,
        }
    }

    pub fn from_index(i: usize) -> (r: Unit)
        requires
            i < UNIT_COUNT,
        ensures
            r == Unit::at(i as int),
            r.spec_index() == i,
    {
        if i == 0 {
            Unit::Meter
        } else if i == 1 {
            Unit::Kilometer
        } else if i == 2 {
            Unit::Second
        } else if i == 3 {
            Unit::Minute
        } else if i == 4 {
            Unit::Hour
        } else if i == 5 {
            Unit::Day
        } else if i == 6 {
            Unit::USD
        } else if i == 7 {
            Unit::GBP
        } else {
            Unit::Dimensionless
        }
    }

    pub fn dimension(&self) -> (r: Dimension)
        ensures
            r == self.spec_dimension(),
    {
        match self {
            Unit::Meter | Unit::Kilometer => Dimension::Length,
            Unit::Second | Unit::Minute | Unit::Hour | Unit::Day => Dimension::Time,
            Unit::USD | Unit::GBP => Dimension::Currency,
            Unit::Dimensionless => Dimension::Dimensionless,
        }
    }

    pub fn conversion_rate(&self) -> (r: Number)
        ensures
            r == self.spec_rate(),
            r.wf(),
    {
        proof {
            reveal_with_fuel(gcd, 4);
        }
        match self {
            Unit::Kilometer => Number { num: 1000, den: 1 },
            Unit::Second => Number { num: 1, den: 86400 },
            Unit::Minute => Number { num: 1, den: 1440 },
            Unit::Hour => Number { num: 1, den: 24 },
            Unit::GBP => Number { num: 4, den: 5 },
            _ => Number { num: 1, den: 1 },
        }
    }
}

impl Dimension {
    pub open spec fn spec_index(self) -> int {
        match self {
            Dimension::Dimensionless => 0,
            Dimension::Time => 1,
            Dimension::Length => 2,
            Dimension::Currency => 3,
        }
    }

    pub open spec fn at(k: int) -> Dimension {
        if k == 0 {
            Dimension::Dimensionless
        } else if k == 1 {
            Dimension::Time
        } else if k == 2 {
            Dimension::Length
        } else {
            Dimension::Currency
        }
    }

    pub fn index(&self) -> (r: usize)
        ensures
            r == self.spec_index(),
            r < DIMENSION_COUNT,
            Dimension::at(r as int) == *self,
    {
        match self {
            Dimension::Dimensionless => 0,
            Dimension::Time => 1,
            Dimension::Length => 2,
            Dimension::Currency => 3,
        }
    }

    fn from_index(k: usize) -> (r: Dimension)
        requires
            k < DIMENSION_COUNT,
        ensures
            r == Dimension::at(k as int),
    {
        if k == 0 {
            Dimension::Dimensionless
        } else if k == 1 {
            Dimension::Time
        } else if k == 2 {
            Dimension::Length
        } else {
            Dimension::Currency
        }
    }
}

/// The sum of the exponents, among the first `n` units, of those units that
/// belong to dimension `d`.
pub open spec fn dimension_sum(exps: Seq<i32>, d: Dimension, n: int) -> int
    decreases n,
{
    if n <= 0 {
        0
    } else {
        dimension_sum(exps, d, n - 1) + if Unit::at(n - 1).spec_dimension() == d {
            exps[n - 1] as int
        } else {
            0
        }
    }
}

/// The exponent of dimension `d` in a unit with exponents `exps`: each named
/// unit contributes its exponent to its own dimension.
pub open spec fn dimension_exponent(exps: Seq<i32>, d: Dimension) -> int {
    dimension_sum(exps, d, UNIT_COUNT as int)
}

/// Whether two units have the same exponent for every dimension.
pub open spec fn same_dimension(a: Seq<i32>, b: Seq<i32>) -> bool {
    forall|d: Dimension| dimension_exponent(a, d) == dimension_exponent(b, d)
}

/// The exponents of a single named unit: one for `u`, zero for the others.
pub open spec fn simple_exponents(u: Unit) -> Seq<i32> {
    Seq::new(UNIT_COUNT as nat, |i: int| if i == u.spec_index() { 1i32 } else { 0i32 })
}

/// The exponents of a product of units: the sums, where each fits in an `i32`.
pub open spec fn unit_mul(a: Seq<i32>, b: Seq<i32>) -> Result<Seq<i32>, EvalError> {
    if forall|i: int| 0 <= i < UNIT_COUNT ==> i32::MIN <= #[trigger] a[i] + b[i] <= i32::MAX {
        Ok(Seq::new(UNIT_COUNT as nat, |i: int| (a[i] + b[i]) as i32))
    } else {
        Err(EvalError::Overflow)
    }
}

/// The exponents of a quotient of units: the differences, where each fits in an `i32`.
pub open spec fn unit_div(a: Seq<i32>, b: Seq<i32>) -> Result<Seq<i32>, EvalError> {
    if forall|i: int| 0 <= i < UNIT_COUNT ==> i32::MIN <= #[trigger] a[i] - b[i] <= i32::MAX {
        Ok(Seq::new(UNIT_COUNT as nat, |i: int| (a[i] - b[i]) as i32))
    } else {
        Err(EvalError::Overflow)
    }
}

/// The exponent of each dimension in a unit with exponents `exps`.
pub open spec fn signature(exps: Seq<i32>) -> DimensionSignature {
    DimensionSignature {
        dimensionless: dimension_exponent(exps, Dimension::Dimensionless) as i64,
        time: dimension_exponent(exps, Dimension::Time) as i64,
        length: dimension_exponent(exps, Dimension::Length) as i64,
        currency: dimension_exponent(exps, Dimension::Currency) as i64,
    }
}

/// The unit of a sum or difference: the left one, where both have the same
/// dimension; else a mismatch that names both dimensions.
pub open spec fn unit_additive(a: Seq<i32>, b: Seq<i32>) -> Result<Seq<i32>, EvalError> {
    if same_dimension(a, b) {
        Ok(a)
    } else {
        Err(EvalError::DimensionMismatch { lhs: signature(a), rhs: signature(b) })
    }
}

/// `r` to the power `e`, one factor at a time.
pub open spec fn power(r: Number, e: int) -> Result<Number, EvalError>
    decreases (if e < 0 { -e } else { e }),
{
    if e == 0 {
        Ok(unity())
    } else if e > 0 {
        match power(r, e - 1) {
            Ok(p) => rat_mul(p, r),
            Err(err) => Err(err),
        }
    } else {
        match power(r, e + 1) {
            Ok(p) => rat_div(p, r),
            Err(err) => Err(err),
        }
    }
}

/// The product, over the first `n` named units, of each unit's rate to the
/// power of its exponent.
pub open spec fn rate_upto(exps: Seq<i32>, n: int) -> Result<Number, EvalError>
    decreases n,
{
    if n <= 0 {
        Ok(unity())
    } else {
        match rate_upto(exps, n - 1) {
            Ok(acc) => match power(Unit::at(n - 1).spec_rate(), exps[n - 1] as int) {
                Ok(p) => rat_mul(acc, p),
                Err(err) => Err(err),
            },
            Err(err) => Err(err),
        }
    }
}

/// How many base units of its dimensions one of a unit with exponents `exps`
/// is: the product of each named unit's rate to the power of its exponent.
pub open spec fn unit_rate(exps: Seq<i32>) -> Result<Number, EvalError> {
    rate_upto(exps, UNIT_COUNT as int)
}

proof fn lemma_power_of_one(e: int)
    ensures
        power(unity(), e) == Ok::<Number, EvalError>(unity()),
    decreases (if e < 0 { -e } else { e }),
{
    lemma_gcd_one(1);
    lemma_neutral_elements(unity());
    assert(rat_div(unity(), unity()) == rat_mul(unity(), unity()));
    if e > 0 {
        lemma_power_of_one(e - 1);
    } else if e < 0 {
        lemma_power_of_one(e + 1);
    }
}

/// Once a power overflows, every further power of the same sign does too.
proof fn lemma_power_error_persists(r: Number, k: int, e: int)
    requires
        power(r, k).is_err(),
        0 < k <= e || e <= k < 0,
    ensures
        power(r, e) == power(r, k),
    decreases (if e < k { k - e } else { e - k }),
{
    if e > k {
        lemma_power_error_persists(r, k, e - 1);
    } else if e < k {
        lemma_power_error_persists(r, k, e + 1);
    }
}

proof fn lemma_rate_error_persists(exps: Seq<i32>, k: int, n: int)
    requires
        rate_upto(exps, k).is_err(),
        0 <= k <= n,
    ensures
        rate_upto(exps, n) == rate_upto(exps, k),
    decreases n - k,
{
    if n > k {
        lemma_rate_error_persists(exps, k, n - 1);
    }
}

/// `r` to the power `e`.
fn number_power(r: Number, e: i32) -> (res: Result<Number, EvalError>)
    requires
        r.wf(),
    ensures
        res == power(r, e as int),
        res matches Ok(x) ==> x.wf(),
{
    if r.num == 1 && r.den == 1 {
        proof {
            lemma_power_of_one(e as int);
        }
        return Ok(r);
    }
    let mut acc = Number::from_integer(1);
    if e >= 0 {
        let mut i: i32 = 0;
        while i < e
            invariant
                0 <= i <= e,
                r.wf(),
                acc.wf(),
                power(r, i as int) == Ok::<Number, EvalError>(acc),
            decreases e - i,
        {
            match acc.checked_mul(r) {
                Ok(x) => {
                    acc = x;
                },
                Err(err) => {
                    proof {
                        lemma_power_error_persists(r, i + 1, e as int);
                    }
                    return Err(err);
                },
            }
            i = i + 1;
        }
    } else {
        let mut i: i32 = 0;
        while i > e
            invariant
                e <= i <= 0,
                r.wf(),
                acc.wf(),
                power(r, i as int) == Ok::<Number, EvalError>(acc),
            decreases i - e,
        {
            match acc.checked_div(r) {
                Ok(x) => {
                    acc = x;
                },
                Err(err) => {
                    proof {
                        lemma_power_error_persists(r, i - 1, e as int);
                    }
                    return Err(err);
                },
            }
            i = i - 1;
        }
    }
    Ok(acc)
}

impl Unit {
    pub proof fn lemma_rate_wf(self)
        ensures
            self.spec_rate().wf(),
    {
        lemma_gcd_one(1);
        lemma_gcd_one(1000);
        lemma_gcd_one(86400);
        lemma_gcd_one(1440);
        lemma_gcd_one(24);
        assert(gcd(1, 86400) == gcd(86400, 1));
        assert(gcd(1, 1440) == gcd(1440, 1));
        assert(gcd(1, 24) == gcd(24, 1));
        assert(gcd(4, 5) == gcd(5, 4));
        assert(gcd(5, 4) == gcd(4, 1));
    }

    pub proof fn lemma_at_index(self)
        ensures
            Unit::at(self.spec_index()) == self,
            0 <= self.spec_index() < UNIT_COUNT,
    {
    }
}

proof fn lemma_simple_dimension_sum(u: Unit, d: Dimension, n: int)
    requires
        0 <= n <= UNIT_COUNT,
    ensures
        dimension_sum(simple_exponents(u), d, n) == if u.spec_index() < n && u.spec_dimension()
            == d {
            1int
        } else {
            0int
        },
    decreases n,
{
    u.lemma_at_index();
    if n > 0 {
        lemma_simple_dimension_sum(u, d, n - 1);
    }
}

/// A single named unit has exponent one in its own dimension and zero in
/// the others.
pub proof fn lemma_simple_dimension(u: Unit, d: Dimension)
    ensures
        dimension_exponent(simple_exponents(u), d) == if u.spec_dimension() == d {
            1int
        } else {
            0int
        },
{
    lemma_simple_dimension_sum(u, d, UNIT_COUNT as int);
    u.lemma_at_index();
}

proof fn lemma_simple_rate_upto(u: Unit, n: int)
    requires
        0 <= n <= UNIT_COUNT,
    ensures
        rate_upto(simple_exponents(u), n) == Ok::<Number, EvalError>(
            if u.spec_index() < n {
                u.spec_rate()
            } else {
                unity()
            },
        ),
    decreases n,
{
    u.lemma_at_index();
    u.lemma_rate_wf();
    lemma_neutral_elements(u.spec_rate());
    lemma_gcd_one(1);
    lemma_neutral_elements(unity());
    if n > 0 {
        lemma_simple_rate_upto(u, n - 1);
        let r = Unit::at(n - 1).spec_rate();
        Unit::at(n - 1).lemma_rate_wf();
        lemma_neutral_elements(r);
        assert(power(r, 0) == Ok::<Number, EvalError>(unity()));
        assert(power(r, 1) == Ok::<Number, EvalError>(r));
    }
}

/// The conversion rate of a single named unit is that unit's rate.
pub proof fn lemma_simple_rate(u: Unit)
    ensures
        unit_rate(simple_exponents(u)) == Ok::<Number, EvalError>(u.spec_rate()),
{
    u.lemma_at_index();
    lemma_simple_rate_upto(u, UNIT_COUNT as int);
}

/// A unit of measure made of named units with integer exponents (meters per
/// second: meter to the one, second to the minus one), together with the
/// exponent of each dimension that those add up to.
#[derive(Clone, Debug, PartialEq, Eq)]
pub struct CompoundUnit {
    exponents: Vec<i32>,
    dimensions: Vec<i64>,
}

impl View for CompoundUnit {
    type V = Seq<i32>;

    /// The exponent of each named unit, in the order of `Unit::spec_index`.
    closed spec fn view(&self) -> Seq<i32> {
        self.exponents@
    }
}

proof fn lemma_dimension_sum_bound(exps: Seq<i32>, d: Dimension, n: int)
    requires
        0 <= n <= exps.len(),
    ensures
        -0x8000_0000 * n <= dimension_sum(exps, d, n) <= 0x7fff_ffff * n,
    decreases n,
{
    if n > 0 {
        lemma_dimension_sum_bound(exps, d, n - 1);
    }
}

/// The exponent of dimension `d`, added up over the named units.
fn sum_dimension(exps: &Vec<i32>, d: Dimension) -> (r: i64)
    requires
        exps@.len() == UNIT_COUNT,
    ensures
        r == dimension_exponent(exps@, d),
{
    let mut acc: i64 = 0;
    let mut i: usize = 0;
    while i < UNIT_COUNT
        invariant
            i <= UNIT_COUNT,
            exps@.len() == UNIT_COUNT,
            acc == dimension_sum(exps@, d, i as int),
        decreases UNIT_COUNT - i,
    {
        proof {
            lemma_dimension_sum_bound(exps@, d, i as int);
        }
        if Unit::from_index(i).dimension() == d {
            acc = acc + exps[i] as i64;
        }
        i = i + 1;
    }
    acc
}

impl CompoundUnit {
    /// Both tables have their length, and the dimension exponents are the
    /// sums of the unit exponents.
    pub closed spec fn wf(&self) -> bool {
        &&& self.exponents@.len() == UNIT_COUNT
        &&& self.dimensions@.len() == DIMENSION_COUNT
        &&& forall|k: int|
            0 <= k < DIMENSION_COUNT ==> #[trigger] self.dimensions@[k] == dimension_exponent(
                self.exponents@,
                Dimension::at(k),
            )
    }

    /// The unit with the given exponents; the dimension exponents are derived.
    fn from_exponents(exponents: Vec<i32>) -> (r: CompoundUnit)
        requires
            exponents@.len() == UNIT_COUNT,
        ensures
            r.wf(),
            r@ == exponents@,
    {
        let mut dimensions: Vec<i64> = Vec::new();
        let mut k: usize = 0;
        while k < DIMENSION_COUNT
            invariant
                k <= DIMENSION_COUNT,
                exponents@.len() == UNIT_COUNT,
                dimensions@.len() == k,
                forall|j: int|
                    0 <= j < k ==> #[trigger] dimensions@[j] == dimension_exponent(
                        exponents@,
                        Dimension::at(j),
                    ),
            decreases DIMENSION_COUNT - k,
        {
            let s = sum_dimension(&exponents, Dimension::from_index(k));
            dimensions.push(s);
            k = k + 1;
        }
        CompoundUnit { exponents, dimensions }
    }

    /// The unit `u` on its own, to the power one.
    pub fn new(u: Unit) -> (r: CompoundUnit)
        ensures
            r.wf(),
            r@ == simple_exponents(u),
    {
        let target = u.index();
        let mut exponents: Vec<i32> = Vec::new();
        let mut i: usize = 0;
        while i < UNIT_COUNT
            invariant
                i <= UNIT_COUNT,
                target == u.spec_index(),
                exponents@ == simple_exponents(u).take(i as int),
            decreases UNIT_COUNT - i,
        {
            exponents.push(if i == target { 1 } else { 0 });
            i = i + 1;
            assert(exponents@ =~= simple_exponents(u).take(i as int));
        }
        assert(exponents@ =~= simple_exponents(u));
        CompoundUnit::from_exponents(exponents)
    }

    /// The exponent of the named unit `u`.
    pub fn exponent(&self, u: Unit) -> (r: i32)
        requires
            self.wf(),
        ensures
            r == self@[u.spec_index()],
    {
        self.exponents[u.index()]
    }

    /// The exponent of dimension `d`.
    pub fn dimension_exponent(&self, d: Dimension) -> (r: i64)
        requires
            self.wf(),
        ensures
            r == dimension_exponent(self@, d),
    {
        self.dimensions[d.index()]
    }

    /// An equal unit.
    pub fn duplicate(&self) -> (r: CompoundUnit)
        requires
            self.wf(),
        ensures
            r.wf(),
            r@ == self@,
    {
        let exponents = self.exponents.clone();
        let dimensions = self.dimensions.clone();
        assert(exponents@ =~= self.exponents@);
        assert(dimensions@ =~= self.dimensions@);
        CompoundUnit { exponents, dimensions }
    }

    /// How many base units of its dimensions one of this unit is.
    pub fn conversion_rate(&self) -> (r: Result<Number, EvalError>)
        requires
            self.wf(),
        ensures
            r == unit_rate(self@),
            r matches Ok(x) ==> x.wf(),
    {
        let mut acc = Number::from_integer(1);
        let mut i: usize = 0;
        while i < UNIT_COUNT
            invariant
                i <= UNIT_COUNT,
                self.wf(),
                acc.wf(),
                rate_upto(self@, i as int) == Ok::<Number, EvalError>(acc),
            decreases UNIT_COUNT - i,
        {
            let p = match number_power(Unit::from_index(i).conversion_rate(), self.exponents[i]) {
                Ok(p) => p,
                Err(err) => {
                    proof {
                        lemma_rate_error_persists(self@, i + 1, UNIT_COUNT as int);
                    }
                    return Err(err);
                },
            };
            acc = match acc.checked_mul(p) {
                Ok(x) => x,
                Err(err) => {
                    proof {
                        lemma_rate_error_persists(self@, i + 1, UNIT_COUNT as int);
                    }
                    return Err(err);
                },
            };
            i = i + 1;
        }
        Ok(acc)
    }

    /// The exponent of each dimension.
    pub fn signature(&self) -> (r: DimensionSignature)
        requires
            self.wf(),
        ensures
            r == signature(self@),
    {
        DimensionSignature {
            dimensionless: self.dimensions[0],
            time: self.dimensions[1],
            length: self.dimensions[2],
            currency: self.dimensions[3],
        }
    }

    /// Whether `self` and `other` have the same exponent for every dimension.
    pub fn same_dimension(&self, other: &CompoundUnit) -> (r: bool)
        requires
            self.wf(),
            other.wf(),
        ensures
            r == same_dimension(self@, other@),
    {
        let mut k: usize = 0;
        while k < DIMENSION_COUNT
            invariant
                k <= DIMENSION_COUNT,
                self.wf(),
                other.wf(),
                forall|j: int|
                    0 <= j < k ==> dimension_exponent(self@, Dimension::at(j)) == dimension_exponent(
                        other@,
                        Dimension::at(j),
                    ),
            decreases DIMENSION_COUNT - k,
        {
            if self.dimensions[k] != other.dimensions[k] {
                assert(!same_dimension(self@, other@)) by {
                    let d = Dimension::at(k as int);
                    assert(dimension_exponent(self@, d) != dimension_exponent(other@, d));
                }
                return false;
            }
            k = k + 1;
        }
        assert forall|d: Dimension| dimension_exponent(self@, d) == dimension_exponent(other@, d) by {
            assert(Dimension::at(d.spec_index()) == d);
        }
        true
    }

    /// The unit of a sum or a difference of a quantity in `self` and one in
    /// `other`: `self`, where both have the same dimension.
    pub fn additive(&self, other: &CompoundUnit) -> (r: Result<CompoundUnit, EvalError>)
        requires
            self.wf(),
            other.wf(),
        ensures
            r.is_ok() == unit_additive(self@, other@).is_ok(),
            r matches Ok(u) ==> u.wf() && unit_additive(self@, other@) == Ok::<Seq<i32>, EvalError>(u@),
            r matches Err(e) ==> unit_additive(self@, other@) == Err::<Seq<i32>, EvalError>(e),
    {
        if self.same_dimension(other) {
            Ok(self.duplicate())
        } else {
            Err(EvalError::DimensionMismatch { lhs: self.signature(), rhs: other.signature() })
        }
    }

    /// The unit of a product: the exponents of each named unit added.
    pub fn multiply(&self, other: &CompoundUnit) -> (r: Result<CompoundUnit, EvalError>)
        requires
            self.wf(),
            other.wf(),
        ensures
            r.is_ok() == unit_mul(self@, other@).is_ok(),
            r matches Ok(u) ==> u.wf() && unit_mul(self@, other@) == Ok::<Seq<i32>, EvalError>(u@),
            r matches Err(e) ==> unit_mul(self@, other@) == Err::<Seq<i32>, EvalError>(e),
    {
        let mut exponents: Vec<i32> = Vec::new();
        let mut i: usize = 0;
        while i < UNIT_COUNT
            invariant
                i <= UNIT_COUNT,
                self.wf(),
                other.wf(),
                exponents@.len() == i,
                forall|j: int| 0 <= j < i ==> i32::MIN <= #[trigger] self@[j] + other@[j] <= i32::MAX,
                forall|j: int| 0 <= j < i ==> #[trigger] exponents@[j] == self@[j] + other@[j],
            decreases UNIT_COUNT - i,
        {
            let s: i64 = self.exponents[i] as i64 + other.exponents[i] as i64;
            if s < i32::MIN as i64 || s > i32::MAX as i64 {
                assert(!(i32::MIN <= self@[i as int] + other@[i as int] <= i32::MAX));
                return Err(EvalError::Overflow);
            }
            exponents.push(s as i32);
            i = i + 1;
        }
        let r = CompoundUnit::from_exponents(exponents);
        assert(r@ =~= Seq::new(UNIT_COUNT as nat, |i: int| (self@[i] + other@[i]) as i32));
        Ok(r)
    }

    /// The unit of a quotient: the exponents of the divisor subtracted.
    pub fn divide(&self, other: &CompoundUnit) -> (r: Result<CompoundUnit, EvalError>)
        requires
            self.wf(),
            other.wf(),
        ensures
            r.is_ok() == unit_div(self@, other@).is_ok(),
            r matches Ok(u) ==> u.wf() && unit_div(self@, other@) == Ok::<Seq<i32>, EvalError>(u@),
            r matches Err(e) ==> unit_div(self@, other@) == Err::<Seq<i32>, EvalError>(e),
    {
        let mut exponents: Vec<i32> = Vec::new();
        let mut i: usize = 0;
        while i < UNIT_COUNT
            invariant
                i <= UNIT_COUNT,
                self.wf(),
                other.wf(),
                exponents@.len() == i,
                forall|j: int| 0 <= j < i ==> i32::MIN <= #[trigger] self@[j] - other@[j] <= i32::MAX,
                forall|j: int| 0 <= j < i ==> #[trigger] exponents@[j] == self@[j] - other@[j],
            decreases UNIT_COUNT - i,
        {
            let s: i64 = self.exponents[i] as i64 - other.exponents[i] as i64;
            if s < i32::MIN as i64 || s > i32::MAX as i64 {
                assert(!(i32::MIN <= self@[i as int] - other@[i as int] <= i32::MAX));
                return Err(EvalError::Overflow);
            }
            exponents.push(s as i32);
            i = i + 1;
        }
        let r = CompoundUnit::from_exponents(exponents);
        assert(r@ =~= Seq::new(UNIT_COUNT as nat, |i: int| (self@[i] - other@[i]) as i32));
        Ok(r)
    }
}

} // verus!
