use vstd::prelude::*;
use vstd::arithmetic::div_mod::{lemma_fundamental_div_mod, lemma_fundamental_div_mod_converse};
use crate::error::EvalError;

verus! {

/// Greatest common divisor, by Euclid's recursion.
pub open spec fn gcd(a: nat, b: nat) -> nat
    decreases b,
{
    if b == 0 {
        a
    } else {
        gcd(b, a % b)
    }
}

pub open spec fn abs(x: int) -> nat {
    if x < 0 {
        (-x) as nat
    } else {
        x as nat
    }
}

/// `n / d`, for a positive `d`, with both divided by their greatest common
/// divisor; the sign stays on the numerator, and zero is `0 / 1`.
pub open spec fn lowest_terms(n: int, d: int) -> (int, int) {
    if n == 0 {
        (0, 1)
    } else {
        let g = gcd(abs(n), d as nat) as int;
        (if n < 0 { -(abs(n) as int / g) } else { abs(n) as int / g }, d / g)
    }
}

/// The number `n / d` (for a positive `d`) in lowest terms, or `Overflow`
/// where its numerator or denominator does not fit in an `i64`.
pub open spec fn ratio(n: int, d: int) -> Result<Number, EvalError> {
    let (p, q) = lowest_terms(n, d);
    if i64::MIN <= p <= i64::MAX && q <= i64::MAX {
        Ok(Number { num: p as i64, den: q as i64 })
    } else {
        Err(EvalError::Overflow)
    }
}

/// `a + b` in lowest terms, or `Overflow`.
pub open spec fn rat_add(a: Number, b: Number) -> Result<Number, EvalError> {
    ratio(a.num * b.den + b.num * a.den, a.den * b.den)
}

/// `a - b` in lowest terms, or `Overflow`.
pub open spec fn rat_sub(a: Number, b: Number) -> Result<Number, EvalError> {
    ratio(a.num * b.den - b.num * a.den, a.den * b.den)
}

/// `a * b` in lowest terms, or `Overflow`.
pub open spec fn rat_mul(a: Number, b: Number) -> Result<Number, EvalError> {
    ratio(a.num * b.num, a.den * b.den)
}

/// `a / b` in lowest terms, `DivisionByZero` where `b` is zero, or `Overflow`.
pub open spec fn rat_div(a: Number, b: Number) -> Result<Number, EvalError> {
    if b.num == 0 {
        Err(EvalError::DivisionByZero)
    } else if b.num > 0 {
        ratio(a.num * b.den, a.den * b.num)
    } else {
        ratio(-(a.num * b.den), a.den * -b.num)
    }
}

/// The four arithmetic operators of the language.
#[derive(Clone, Copy, Debug, PartialEq, Eq, Structural)]
pub enum BinaryOperation {
    Add,
    Subtract,
    Multiply,
    Divide,
}

/// `a op b` on exact numbers.
pub open spec fn rat_apply(op: BinaryOperation, a: Number, b: Number) -> Result<Number, EvalError> {
    match op {
        BinaryOperation::Add => rat_add(a, b),
        BinaryOperation::Subtract => rat_sub(a, b),
        BinaryOperation::Multiply => rat_mul(a, b),
        BinaryOperation::Divide => rat_div(a, b),
    }
}

/// An exact rational number `num / den`. A well-formed one is in lowest
/// terms with a positive denominator, so two equal numbers have equal fields.
#[derive(Clone, Copy, Debug, PartialEq, Eq, Structural)]
pub struct Number {
    pub num: i64,
    pub den: i64,
}

pub proof fn lemma_gcd_positive(a: nat, b: nat)
    requires
        a > 0 || b > 0,
    ensures
        gcd(a, b) > 0,
    decreases b,
{
    if b > 0 {
        lemma_gcd_positive(b, a % b);
    }
}

/// The greatest common divisor divides both arguments.
pub proof fn lemma_gcd_divides(a: nat, b: nat)
    requires
        a > 0 || b > 0,
    ensures
        gcd(a, b) > 0,
        a % gcd(a, b) == 0,
        b % gcd(a, b) == 0,
    decreases b,
{
    lemma_gcd_positive(a, b);
    if b > 0 {
        let r = a % b;
        let g = gcd(a, b);
        lemma_gcd_divides(b, r);
        assert(g == gcd(b, r));
        lemma_fundamental_div_mod(a as int, b as int);
        lemma_fundamental_div_mod(b as int, g as int);
        lemma_fundamental_div_mod(r as int, g as int);
        let kb = b as int / g as int;
        let kr = r as int / g as int;
        let q = a as int / b as int;
        assert(a == g * (kb * q + kr)) by (nonlinear_arith)
            requires
                a == b * q + r,
                b == g * kb,
                r == g * kr,
        ;
        lemma_fundamental_div_mod_converse(a as int, g as int, kb * q + kr, 0);
    } else {
        assert(a % a == 0) by {
            lemma_fundamental_div_mod_converse(a as int, a as int, 1, 0);
        }
    }
}

/// Scaling both arguments scales their greatest common divisor.
pub proof fn lemma_gcd_scale(k: nat, a: nat, b: nat)
    requires
        k > 0,
    ensures
        gcd(k * a, k * b) == k * gcd(a, b),
    decreases b,
{
    if b == 0 {
        assert(k * b == 0);
    } else {
        let r = a % b;
        let q = a as int / b as int;
        lemma_fundamental_div_mod(a as int, b as int);
        assert(k * a == q * (k * b) + k * r && 0 <= k * r < k * b) by (nonlinear_arith)
            requires
                a == b * q + r,
                0 <= r < b,
                k > 0,
        ;
        lemma_fundamental_div_mod_converse((k * a) as int, (k * b) as int, q, (k * r) as int);
        assert((k * a) % (k * b) == k * r);
        lemma_gcd_scale(k, b, r);
        assert(k * b > 0) by (nonlinear_arith)
            requires
                k > 0,
                b > 0,
        ;
    }
}

/// Dividing both arguments by their greatest common divisor leaves them coprime.
pub proof fn lemma_lowest_terms_coprime(n: nat, d: nat)
    requires
        d > 0,
    ensures
        gcd(n, d) > 0,
        gcd(n / gcd(n, d), d / gcd(n, d)) == 1,
        d / gcd(n, d) > 0,
        n == gcd(n, d) * (n / gcd(n, d)),
        d == gcd(n, d) * (d / gcd(n, d)),
{
    let g = gcd(n, d);
    lemma_gcd_divides(n, d);
    lemma_fundamental_div_mod(n as int, g as int);
    lemma_fundamental_div_mod(d as int, g as int);
    let n1 = n / g;
    let d1 = d / g;
    lemma_gcd_scale(g, n1, d1);
    let x = gcd(n1, d1);
    assert(g == g * x);
    assert(x == 1) by (nonlinear_arith)
        requires
            g > 0,
            g == g * x,
    ;
    assert(d1 > 0) by (nonlinear_arith)
        requires
            d == g * d1,
            d > 0,
            g > 0,
    ;
}

proof fn lemma_product_fits(x: int, y: int)
    requires
        -0x8000_0000_0000_0000 <= x <= 0x8000_0000_0000_0000,
        0 < y < 0x8000_0000_0000_0000,
    ensures
        -0x4000_0000_0000_0000_0000_0000_0000_0000 < x * y < 0x4000_0000_0000_0000_0000_0000_0000_0000,
{
    assert(-0x4000_0000_0000_0000_0000_0000_0000_0000 < x * y < 0x4000_0000_0000_0000_0000_0000_0000_0000)
        by (nonlinear_arith)
        requires
            -0x8000_0000_0000_0000 <= x <= 0x8000_0000_0000_0000,
            0 < y < 0x8000_0000_0000_0000,
    ;
}

proof fn lemma_product_bounded(x: int, y: int)
    requires
        -0x8000_0000_0000_0000 <= x <= 0x8000_0000_0000_0000,
        -0x8000_0000_0000_0000 <= y <= 0x8000_0000_0000_0000,
    ensures
        -0x4000_0000_0000_0000_0000_0000_0000_0000 <= x * y <= 0x4000_0000_0000_0000_0000_0000_0000_0000,
{
    assert(-0x4000_0000_0000_0000_0000_0000_0000_0000 <= x * y <= 0x4000_0000_0000_0000_0000_0000_0000_0000)
        by (nonlinear_arith)
        requires
            -0x8000_0000_0000_0000 <= x <= 0x8000_0000_0000_0000,
            -0x8000_0000_0000_0000 <= y <= 0x8000_0000_0000_0000,
    ;
}

fn gcd_u128(a: u128, b: u128) -> (r: u128)
    ensures
        r == gcd(a as nat, b as nat),
{
    let mut x: u128 = a;
    let mut y: u128 = b;
    while y != 0
        invariant
            gcd(x as nat, y as nat) == gcd(a as nat, b as nat),
        decreases y,
    {
        let t: u128 = x % y;
        x = y;
        y = t;
    }
    x
}

/// `n / d` in lowest terms, for a positive `d`.
pub(crate) fn from_ratio(n: i128, d: i128) -> (r: Result<Number, EvalError>)
    requires
        0 < d,
        i128::MIN < n,
    ensures
        r == ratio(n as int, d as int),
        r matches Ok(x) ==> x.wf(),
{
    let mag: u128 = if n < 0 { (-n) as u128 } else { n as u128 };
    assert(mag == abs(n as int));
    let g = gcd_u128(mag, d as u128);
    proof {
        lemma_lowest_terms_coprime(mag as nat, d as nat);
    }
    let p: u128 = mag / g;
    let q: u128 = (d as u128) / g;
    if mag == 0 {
        proof {
            assert(gcd(0, d as nat) == gcd(d as nat, 0));
            lemma_fundamental_div_mod_converse(d as int, d as int, 1, 0);
            lemma_gcd_one(0);
        }
        return Ok(Number { num: 0, den: 1 });
    }
    if q > 0x7fff_ffff_ffff_ffff {
        return Err(EvalError::Overflow);
    }
    if n < 0 {
        if p > 0x8000_0000_0000_0000 {
            Err(EvalError::Overflow)
        } else {
            let x = Number { num: (-(p as i128)) as i64, den: q as i64 };
            assert(abs(x.num as int) == p);
            Ok(x)
        }
    } else {
        if p > 0x7fff_ffff_ffff_ffff {
            Err(EvalError::Overflow)
        } else {
            Ok(Number { num: p as i64, den: q as i64 })
        }
    }
}

pub proof fn lemma_gcd_one(a: nat)
    ensures
        gcd(a, 1) == 1,
{
    assert(a % 1 == 0);
    assert(gcd(1, 0) == 1);
}

/// What `ratio` returns is well formed.
pub proof fn lemma_ratio_wf(n: int, d: int)
    requires
        d > 0,
    ensures
        ratio(n, d) matches Ok(x) ==> x.wf(),
{
    lemma_lowest_terms_coprime(abs(n), d as nat);
    lemma_gcd_one(0);
    let g = gcd(abs(n), d as nat);
    if let Ok(x) = ratio(n, d) {
        assert(abs(x.num as int) == abs(n) as int / g as int);
    }
}

/// A well-formed number is its own lowest terms.
pub proof fn lemma_ratio_of_wf(x: Number)
    requires
        x.wf(),
    ensures
        ratio(x.num as int, x.den as int) == Ok::<Number, EvalError>(x),
{
    assert(abs(x.num as int) as int / 1 == abs(x.num as int));
    assert(x.den as int / 1 == x.den);
    if x.num == 0 {
        assert(gcd(0, x.den as nat) == gcd(x.den as nat, 0));
    }
}

pub open spec fn zero() -> Number {
    Number { num: 0, den: 1 }
}

pub open spec fn unity() -> Number {
    Number { num: 1, den: 1 }
}

/// One is neutral for multiplication, zero for addition, and zero times
/// anything is zero.
pub proof fn lemma_neutral_elements(x: Number)
    requires
        x.wf(),
    ensures
        rat_mul(x, unity()) == Ok::<Number, EvalError>(x),
        rat_mul(unity(), x) == Ok::<Number, EvalError>(x),
        rat_add(x, zero()) == Ok::<Number, EvalError>(x),
        rat_mul(zero(), x) == Ok::<Number, EvalError>(zero()),
{
    lemma_ratio_of_wf(x);
    assert(x.num * 1 == x.num && 1 * x.num == x.num && x.den * 1 == x.den && 1 * x.den == x.den);
    assert(x.num * 1 + 0 * x.den == x.num);
    assert(0 * x.num == 0);
}

/// A common divisor of two numbers divides their greatest common divisor.
pub proof fn lemma_divides_gcd(c: nat, a: nat, b: nat)
    requires
        c > 0,
        a % c == 0,
        b % c == 0,
    ensures
        gcd(a, b) % c == 0,
    decreases b,
{
    if b > 0 {
        let r = a % b;
        lemma_fundamental_div_mod(a as int, b as int);
        lemma_fundamental_div_mod(a as int, c as int);
        lemma_fundamental_div_mod(b as int, c as int);
        let ka = a as int / c as int;
        let kb = b as int / c as int;
        let q = a as int / b as int;
        assert(r == (ka - q * kb) * c) by (nonlinear_arith)
            requires
                a == b * q + r,
                a == c * ka,
                b == c * kb,
        ;
        lemma_fundamental_div_mod_converse(r as int, c as int, ka - q * kb, 0);
        lemma_divides_gcd(c, b, r);
    }
}

/// A fraction whose value is that of a well-formed number has that number
/// as its lowest terms.
pub proof fn lemma_lowest_terms_unique(a: int, b: int, x: Number)
    requires
        x.wf(),
        b > 0,
        a * x.den == b * x.num,
    ensures
        lowest_terms(a, b) == (x.num as int, x.den as int),
{
    let d = x.den as int;
    if x.num == 0 {
        assert(a == 0) by (nonlinear_arith)
            requires
                a * d == b * 0,
                d > 0,
        ;
        assert(gcd(0, d as nat) == gcd(d as nat, 0));
    } else {
        let n = abs(x.num as int) as int;
        let aa = abs(a) as int;
        assert(aa * d == b * n) by (nonlinear_arith)
            requires
                a * d == b * x.num,
                aa == (if a < 0 { -a } else { a }),
                n == (if x.num < 0 { -x.num } else { x.num as int }),
                b > 0,
                d > 0,
        ;
        assert(a < 0 <==> x.num < 0) by (nonlinear_arith)
            requires
                a * d == b * x.num,
                b > 0,
                d > 0,
                x.num != 0,
        ;
        lemma_gcd_scale(b as nat, n as nat, d as nat);
        assert(gcd((b * n) as nat, (b * d) as nat) == b);
        lemma_fundamental_div_mod_converse(b * d, d, b, 0);
        lemma_fundamental_div_mod_converse(b * n, d, aa, 0);
        lemma_divides_gcd(d as nat, (b * n) as nat, (b * d) as nat);
        lemma_fundamental_div_mod(b, d);
        let k = b / d;
        assert(b == d * k);
        assert(k > 0 && aa == k * n) by (nonlinear_arith)
            requires
                b == d * k,
                aa * d == b * n,
                b > 0,
                d > 0,
        ;
        lemma_gcd_scale(k as nat, n as nat, d as nat);
        assert(gcd(aa as nat, b as nat) == k) by {
            assert(k * n == aa && k * d == b) by (nonlinear_arith)
                requires
                    aa == k * n,
                    b == d * k,
            ;
        }
        lemma_fundamental_div_mod_converse(aa, k, n, 0);
        lemma_fundamental_div_mod_converse(b, k, d, 0);
    }
}

/// Dividing a product by one of its factors gives the other factor back.
pub proof fn lemma_div_undoes_mul(x: Number, y: Number)
    requires
        x.wf(),
        y.wf(),
        y.num != 0,
    ensures
        rat_mul(x, y) matches Ok(p) ==> rat_div(p, y) == Ok::<Number, EvalError>(x),
{
    if let Ok(p) = rat_mul(x, y) {
        let n = x.num * y.num;
        let d = x.den * y.den;
        assert(d > 0) by (nonlinear_arith)
            requires
                d == x.den * y.den,
                x.den > 0,
                y.den > 0,
        ;
        lemma_lowest_terms_coprime(abs(n), d as nat);
        let g = gcd(abs(n), d as nat) as int;
        assert(p.num * d == n * p.den) by {
            if n == 0 {
                assert(p.num == 0);
            } else {
                let an = abs(n) as int;
                assert(p.den == d / g);
                assert(p.num * d == n * p.den) by (nonlinear_arith)
                    requires
                        an == g * (an / g),
                        d == g * (d / g),
                        p.den == d / g,
                        p.num == (if n < 0 { -(an / g) } else { an / g }),
                        an == (if n < 0 { -n } else { n }),
                ;
            }
        }
        lemma_ratio_wf(n, d);
        if y.num > 0 {
            let a = p.num * y.den;
            let b = p.den * y.num;
            assert(b > 0 && a * x.den == b * x.num) by (nonlinear_arith)
                requires
                    p.num * d == n * p.den,
                    n == x.num * y.num,
                    d == x.den * y.den,
                    a == p.num * y.den,
                    b == p.den * y.num,
                    p.den > 0,
                    y.num > 0,
            ;
            lemma_lowest_terms_unique(a, b, x);
        } else {
            let a = -(p.num * y.den);
            let b = p.den * -y.num;
            assert(b > 0 && a * x.den == b * x.num) by (nonlinear_arith)
                requires
                    p.num * d == n * p.den,
                    n == x.num * y.num,
                    d == x.den * y.den,
                    a == -(p.num * y.den),
                    b == p.den * -y.num,
                    p.den > 0,
                    y.num < 0,
            ;
            lemma_lowest_terms_unique(a, b, x);
        }
    }
}

impl Number {
    /// In lowest terms, with a positive denominator.
    pub open spec fn wf(self) -> bool {
        &&& self.den > 0
        &&& gcd(abs(self.num as int), self.den as nat) == 1
    }

    /// The whole number `n`.
    pub fn from_integer(n: i64) -> (r: Number)
        ensures
            r.wf(),
            r.num == n,
            r.den == 1,
    {
        proof {
            lemma_gcd_one(abs(n as int));
        }
        Number { num: n, den: 1 }
    }

    /// The number `num / den`; `DivisionByZero` where `den` is zero.
    pub fn new(num: i64, den: i64) -> (r: Result<Number, EvalError>)
        ensures
            den == 0 ==> r == Err::<Number, EvalError>(EvalError::DivisionByZero),
            den > 0 ==> r == ratio(num as int, den as int),
            den < 0 ==> r == ratio(-num, -den),
            r matches Ok(x) ==> x.wf(),
    {
        if den == 0 {
            Err(EvalError::DivisionByZero)
        } else if den > 0 {
            from_ratio(num as i128, den as i128)
        } else {
            from_ratio(-(num as i128), -(den as i128))
        }
    }

    pub fn checked_add(self, other: Number) -> (r: Result<Number, EvalError>)
        requires
            self.wf(),
            other.wf(),
        ensures
            r == rat_add(self, other),
            r matches Ok(x) ==> x.wf(),
    {
        proof {
            lemma_product_fits(self.num as int, other.den as int);
            lemma_product_fits(other.num as int, self.den as int);
            lemma_product_fits(self.den as int, other.den as int);
            assert(self.den * other.den > 0) by (nonlinear_arith)
                requires self.den > 0, other.den > 0;
        }
        let n = (self.num as i128) * (other.den as i128) + (other.num as i128) * (self.den as i128);
        let d = (self.den as i128) * (other.den as i128);
        from_ratio(n, d)
    }

    pub fn checked_sub(self, other: Number) -> (r: Result<Number, EvalError>)
        requires
            self.wf(),
            other.wf(),
        ensures
            r == rat_sub(self, other),
            r matches Ok(x) ==> x.wf(),
    {
        proof {
            lemma_product_fits(self.num as int, other.den as int);
            lemma_product_fits(other.num as int, self.den as int);
            lemma_product_fits(self.den as int, other.den as int);
            assert(self.den * other.den > 0) by (nonlinear_arith)
                requires self.den > 0, other.den > 0;
        }
        let n = (self.num as i128) * (other.den as i128) - (other.num as i128) * (self.den as i128);
        let d = (self.den as i128) * (other.den as i128);
        from_ratio(n, d)
    }

    pub fn checked_mul(self, other: Number) -> (r: Result<Number, EvalError>)
        requires
            self.wf(),
            other.wf(),
        ensures
            r == rat_mul(self, other),
            r matches Ok(x) ==> x.wf(),
    {
        proof {
            lemma_product_bounded(self.num as int, other.num as int);
            lemma_product_fits(self.den as int, other.den as int);
            assert(self.den * other.den > 0) by (nonlinear_arith)
                requires self.den > 0, other.den > 0;
        }
        let n = (self.num as i128) * (other.num as i128);
        let d = (self.den as i128) * (other.den as i128);
        from_ratio(n, d)
    }

    pub fn checked_div(self, other: Number) -> (r: Result<Number, EvalError>)
        requires
            self.wf(),
            other.wf(),
        ensures
            r == rat_div(self, other),
            r matches Ok(x) ==> x.wf(),
    {
        if other.num == 0 {
            return Err(EvalError::DivisionByZero);
        }
        proof {
            lemma_product_fits(self.num as int, other.den as int);
            lemma_product_fits(other.num as int, self.den as int);
            if other.num > 0 {
                assert(self.den * other.num > 0) by (nonlinear_arith)
                    requires self.den > 0, other.num > 0;
            } else {
                assert(self.den * -other.num > 0 && self.den * -other.num == -(other.num * self.den))
                    by (nonlinear_arith)
                    requires self.den > 0, other.num < 0;
            }
        }
        let n = (self.num as i128) * (other.den as i128);
        if other.num > 0 {
            let d = (self.den as i128) * (other.num as i128);
            from_ratio(n, d)
        } else {
            let d = (self.den as i128) * -(other.num as i128);
            from_ratio(-n, d)
        }
    }

    /// `a op b`, exactly, or the error that `rat_apply` gives.
    pub fn apply(op: BinaryOperation, a: Number, b: Number) -> (r: Result<Number, EvalError>)
        requires
            a.wf(),
            b.wf(),
        ensures
            r == rat_apply(op, a, b),
            r matches Ok(x) ==> x.wf(),
    {
        match op {
            BinaryOperation::Add => a.checked_add(b),
            BinaryOperation::Subtract => a.checked_sub(b),
            BinaryOperation::Multiply => a.checked_mul(b),
            BinaryOperation::Divide => a.checked_div(b),
        }
    }
}

} // verus!
