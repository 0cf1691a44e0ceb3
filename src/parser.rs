//! The surface syntax: a line holds statements `name = value;` or
//! `name = (lhs op rhs);`, where a value is a number or a bracketed vector of
//! numbers followed by a unit in brackets (`1.5[km]`, `[1 2 3][m^1]`), and an
//! operand of an expression is a value, a name or a nested expression.
use vstd::prelude::*;
use crate::ast::{node_wf, AstNode};
use crate::number::{from_ratio, ratio, BinaryOperation, Number};
use crate::unit::{simple_exponents, CompoundUnit, Unit};
use crate::value::{Value, ValueModel};

verus! {

/// Why a piece of input is not the syntax that was asked for.
#[derive(Clone, Copy, Debug, PartialEq, Eq, Structural)]
pub enum ParseError {
    /// The input does not continue with the expected syntax.
    Unexpected,
    /// A number literal whose value does not fit the exact representation.
    NumberOutOfRange,
    /// A known unit with a power other than one.
    UnsupportedUnit,
    /// An operator that the language does not evaluate (`^`).
    UnsupportedOperator,
    /// The input holds characters outside ASCII.
    NotAscii,
}

/// A syntax tree as a mathematical object.
pub enum NodeModel {
    Literal { value: ValueModel, unit: Seq<i32> },
    Name(Seq<char>),
    Expression { operation: BinaryOperation, lhs: Box<NodeModel>, rhs: Box<NodeModel> },
    Variable { name: Seq<char>, expr: Box<NodeModel> },
}

pub open spec fn node_model(node: AstNode) -> NodeModel
    decreases node,
{
    match node {
        AstNode::Literal { value, unit } => NodeModel::Literal { value: value@, unit: unit@ },
        AstNode::Name(n) => NodeModel::Name(n@),
        AstNode::Expression { operation, lhs, rhs } => NodeModel::Expression {
            operation,
            lhs: Box::new(node_model(*lhs)),
            rhs: Box::new(node_model(*rhs)),
        },
        AstNode::Variable { name, expr } => NodeModel::Variable {
            name: name@,
            expr: Box::new(node_model(*expr)),
        },
    }
}

/// The character at `i`, or NUL past either end.
pub open spec fn char_at(s: Seq<char>, i: int) -> char {
    if 0 <= i < s.len() {
        s[i]
    } else {
        '\0'
    }
}

pub open spec fn is_digit(c: char) -> bool {
    '0' <= c <= '9'
}

pub open spec fn is_alpha(c: char) -> bool {
    ('a' <= c <= 'z') || ('A' <= c <= 'Z')
}

pub open spec fn digit_value(c: char) -> int {
    (c as u32) as int - 48
}

/// The first position at or after `i` that is not a space.
pub open spec fn skip_spaces(s: Seq<char>, i: int) -> int
    decreases s.len() - i,
{
    if 0 <= i < s.len() && s[i] == ' ' {
        skip_spaces(s, i + 1)
    } else {
        i
    }
}

/// The first position at or after `i` that is not a letter.
pub open spec fn alpha_end(s: Seq<char>, i: int) -> int
    decreases s.len() - i,
{
    if 0 <= i < s.len() && is_alpha(s[i]) {
        alpha_end(s, i + 1)
    } else {
        i
    }
}

/// The first position at or after `i` that is not a digit.
pub open spec fn digits_end(s: Seq<char>, i: int) -> int
    decreases s.len() - i,
{
    if 0 <= i < s.len() && is_digit(s[i]) {
        digits_end(s, i + 1)
    } else {
        i
    }
}

/// The decimal digits in `[a, b)` written after the digits of `acc`.
pub open spec fn fold_digits(acc: int, s: Seq<char>, a: int, b: int) -> int
    decreases b - a,
{
    if b <= a {
        acc
    } else {
        fold_digits(acc, s, a, b - 1) * 10 + digit_value(s[b - 1])
    }
}

pub open spec fn pow10(n: nat) -> int
    decreases n,
{
    if n == 0 {
        1
    } else {
        10 * pow10((n - 1) as nat)
    }
}

/// Where the parts of a decimal literal that starts at `i` lie: an optional
/// sign, integer digits, an optional point with fraction digits, and an
/// optional exponent (`e` or `E`, an optional sign, digits).
pub struct DecimalShape {
    pub negative: bool,
    pub int_start: int,
    pub int_end: int,
    pub frac_start: int,
    pub frac_end: int,
    pub exp_negative: bool,
    pub exp_start: int,
    pub exp_end: int,
}

pub open spec fn decimal_shape(s: Seq<char>, i: int) -> DecimalShape {
    let c = char_at(s, i);
    let int_start = if c == '+' || c == '-' { i + 1 } else { i };
    let int_end = digits_end(s, int_start);
    let frac_start = if char_at(s, int_end) == '.' { int_end + 1 } else { int_end };
    let frac_end = if char_at(s, int_end) == '.' { digits_end(s, frac_start) } else { int_end };
    let e = char_at(s, frac_end);
    let sign_at = frac_end + 1;
    let sc = char_at(s, sign_at);
    let exp_start = if sc == '+' || sc == '-' { sign_at + 1 } else { sign_at };
    let has_exp = (e == 'e' || e == 'E') && digits_end(s, exp_start) > exp_start;
    DecimalShape {
        negative: c == '-',
        int_start,
        int_end,
        frac_start,
        frac_end,
        exp_negative: has_exp && sc == '-',
        exp_start: if has_exp { exp_start } else { frac_end },
        exp_end: if has_exp { digits_end(s, exp_start) } else { frac_end },
    }
}

/// The end of a decimal literal of the given shape.
pub open spec fn decimal_end(d: DecimalShape) -> int {
    if d.exp_end > d.exp_start {
        d.exp_end
    } else {
        d.frac_end
    }
}

/// The largest exponent digits that a literal may carry.
pub const EXPONENT_LIMIT: u64 = 0xffff_ffff;

/// The largest power of ten by which a literal's digits may be scaled.
pub const SCALE_LIMIT: i128 = 18;

/// The number that the decimal literal at `i` writes, and where it ends.
/// `Unexpected` where no digit stands before the exponent;
/// `NumberOutOfRange` where its digits (the point left out) exceed `i64`,
/// its exponent exceeds `EXPONENT_LIMIT`, the power of ten that scales the
/// digits exceeds `SCALE_LIMIT` either way, or the value in lowest terms
/// does not fit a `Number`.
pub open spec fn decimal_at(s: Seq<char>, i: int) -> Result<(Number, int), ParseError> {
    let d = decimal_shape(s, i);
    if d.int_end == d.int_start && d.frac_end == d.frac_start {
        Err(ParseError::Unexpected)
    } else {
        let m = fold_digits(fold_digits(0, s, d.int_start, d.int_end), s, d.frac_start, d.frac_end);
        let e = fold_digits(0, s, d.exp_start, d.exp_end);
        let k = (if d.exp_negative { -e } else { e }) - (d.frac_end - d.frac_start);
        if m > i64::MAX || e > EXPONENT_LIMIT || k < -SCALE_LIMIT || k > SCALE_LIMIT {
            Err(ParseError::NumberOutOfRange)
        } else {
            let n = if d.negative { -m } else { m };
            let r = if k >= 0 { ratio(n * pow10(k as nat), 1) } else { ratio(n, pow10((-k) as nat)) };
            match r {
                Ok(x) => Ok((x, decimal_end(d))),
                Err(_) => Err(ParseError::NumberOutOfRange),
            }
        }
    }
}

/// The named unit that a unit word stands for.
pub open spec fn alias_unit(a: Seq<char>) -> Option<Unit> {
    if a == "m"@ || a == "meter"@ || a == "meters"@ {
        Some(Unit::Meter)
    } else if a == "km"@ || a == "kilometer"@ || a == "kilometers"@ {
        Some(Unit::Kilometer)
    } else if a == "s"@ || a == "second"@ || a == "seconds"@ {
        Some(Unit::Second)
    } else if a == "min"@ || a == "minute"@ || a == "minutes"@ {
        Some(Unit::Minute)
    } else if a == "h"@ || a == "hour"@ || a == "hours"@ {
        Some(Unit::Hour)
    } else if a == "d"@ || a == "day"@ || a == "days"@ {
        Some(Unit::Day)
    } else if a == "USD"@ {
        Some(Unit::USD)
    } else if a == "GBP"@ {
        Some(Unit::GBP)
    } else {
        None
    }
}

/// A unit annotation at `i`: `[word]` or `[word^power]`, where the power
/// is one. `Unexpected` for another shape or an unknown word,
/// `UnsupportedUnit` for a known word with another power.
pub open spec fn unit_at(s: Seq<char>, i: int) -> Result<(Unit, int), ParseError> {
    let a_end = alpha_end(s, i + 1);
    let p_end = digits_end(s, a_end + 1);
    if char_at(s, i) != '[' {
        Err(ParseError::Unexpected)
    } else {
        match alias_unit(s.subrange(i + 1, a_end)) {
            None => Err(ParseError::Unexpected),
            Some(u) => if char_at(s, a_end) == '^' {
                if p_end == a_end + 1 {
                    Err(ParseError::Unexpected)
                } else if fold_digits(0, s, a_end + 1, p_end) != 1 {
                    Err(ParseError::UnsupportedUnit)
                } else if char_at(s, p_end) != ']' {
                    Err(ParseError::Unexpected)
                } else {
                    Ok((u, p_end + 1))
                }
            } else if char_at(s, a_end) != ']' {
                Err(ParseError::Unexpected)
            } else {
                Ok((u, a_end + 1))
            },
        }
    }
}

/// A number with its unit: `2.5[km]`. The number is kept as written.
pub open spec fn scalar_literal_at(s: Seq<char>, i: int) -> Result<(NodeModel, int), ParseError> {
    match decimal_at(s, i) {
        Err(e) => Err(e),
        Ok((x, j)) => match unit_at(s, j) {
            Err(e) => Err(e),
            Ok((u, k)) => Ok(
                (NodeModel::Literal { value: ValueModel::Scalar(x), unit: simple_exponents(u) }, k),
            ),
        },
    }
}

/// The numbers of a vector literal from `p` on, after those in `acc`: each
/// number with any spaces on either side. They end before the first place
/// where no number stands; there must be at least one.
pub open spec fn vector_items(s: Seq<char>, p: int, acc: Seq<Number>) -> Result<
    (Seq<Number>, int),
    ParseError,
>
    decreases s.len() - p,
{
    let q = skip_spaces(s, p);
    match decimal_at(s, q) {
        Err(ParseError::Unexpected) => if acc.len() == 0 {
            Err(ParseError::Unexpected)
        } else {
            Ok((acc, p))
        },
        Err(e) => Err(e),
        Ok((x, e)) => {
            let next = skip_spaces(s, e);
            if p < next <= s.len() {
                vector_items(s, next, acc.push(x))
            } else {
                Ok((acc.push(x), next))
            }
        },
    }
}

/// A vector with its unit: `[1 2.5 3][m]`. The numbers are kept as written.
pub open spec fn vector_literal_at(s: Seq<char>, i: int) -> Result<(NodeModel, int), ParseError> {
    if char_at(s, i) != '[' {
        Err(ParseError::Unexpected)
    } else {
        match vector_items(s, i + 1, Seq::empty()) {
            Err(e) => Err(e),
            Ok((xs, p)) => if char_at(s, p) != ']' {
                Err(ParseError::Unexpected)
            } else {
                match unit_at(s, p + 1) {
                    Err(e) => Err(e),
                    Ok((u, k)) => Ok(
                        (
                            NodeModel::Literal {
                                value: ValueModel::Vector(xs),
                                unit: simple_exponents(u),
                            },
                            k,
                        ),
                    ),
                }
            },
        }
    }
}

/// A vector literal where the input continues with `[`, else a number.
pub open spec fn value_at(s: Seq<char>, i: int) -> Result<(NodeModel, int), ParseError> {
    if char_at(s, i) == '[' {
        vector_literal_at(s, i)
    } else {
        scalar_literal_at(s, i)
    }
}

/// A name: one or more ASCII letters.
pub open spec fn name_at(s: Seq<char>, i: int) -> Result<(Seq<char>, int), ParseError> {
    let j = alpha_end(s, i);
    if j == i {
        Err(ParseError::Unexpected)
    } else {
        Ok((s.subrange(i, j), j))
    }
}

/// An operator with any spaces on either side.
pub open spec fn operator_at(s: Seq<char>, i: int) -> Result<(BinaryOperation, int), ParseError> {
    let j = skip_spaces(s, i);
    let c = char_at(s, j);
    let k = skip_spaces(s, j + 1);
    if c == '+' {
        Ok((BinaryOperation::Add, k))
    } else if c == '-' {
        Ok((BinaryOperation::Subtract, k))
    } else if c == '*' {
        Ok((BinaryOperation::Multiply, k))
    } else if c == '/' {
        Ok((BinaryOperation::Divide, k))
    } else if c == '^' {
        Err(ParseError::UnsupportedOperator)
    } else {
        Err(ParseError::Unexpected)
    }
}

/// An operand of an expression: a nested expression where the input
/// continues with `(`, a name where it continues with a letter, else a value.
pub open spec fn operand_at(s: Seq<char>, i: int) -> Result<(NodeModel, int), ParseError>
    decreases s.len() - i, 1int,
{
    let c = char_at(s, i);
    if c == '(' {
        expression_at(s, i)
    } else if is_alpha(c) {
        match name_at(s, i) {
            Ok((n, j)) => Ok((NodeModel::Name(n), j)),
            Err(e) => Err(e),
        }
    } else {
        value_at(s, i)
    }
}

/// `(lhs op rhs)`.
pub open spec fn expression_at(s: Seq<char>, i: int) -> Result<(NodeModel, int), ParseError>
    decreases s.len() - i, 0int,
{
    if char_at(s, i) != '(' {
        Err(ParseError::Unexpected)
    } else {
        match operand_at(s, i + 1) {
            Err(e) => Err(e),
            Ok((lhs, j)) => match operator_at(s, j) {
                Err(e) => Err(e),
                Ok((op, k)) => if !(i < k <= s.len()) {
                    Err(ParseError::Unexpected)
                } else {
                    match operand_at(s, k) {
                        Err(e) => Err(e),
                        Ok((rhs, m)) => if char_at(s, m) != ')' {
                            Err(ParseError::Unexpected)
                        } else {
                            Ok(
                                (
                                    NodeModel::Expression {
                                        operation: op,
                                        lhs: Box::new(lhs),
                                        rhs: Box::new(rhs),
                                    },
                                    m + 1,
                                ),
                            )
                        },
                    }
                },
            },
        }
    }
}

/// The statement `name = value;` or `name = (lhs op rhs);`.
#[verifier::opaque]
pub open spec fn variable_at(s: Seq<char>, i: int) -> Result<(NodeModel, int), ParseError> {
    match name_at(s, i) {
        Err(e) => Err(e),
        Ok((n, j)) => if !(char_at(s, j) == ' ' && char_at(s, j + 1) == '=' && char_at(s, j + 2)
            == ' ') {
            Err(ParseError::Unexpected)
        } else {
            let k = j + 3;
            let rhs = if char_at(s, k) == '(' {
                expression_at(s, k)
            } else {
                value_at(s, k)
            };
            match rhs {
                Err(e) => Err(e),
                Ok((x, m)) => if char_at(s, m) != ';' {
                    Err(ParseError::Unexpected)
                } else {
                    Ok((NodeModel::Variable { name: n, expr: Box::new(x) }, m + 1))
                },
            }
        },
    }
}

/// The statements of a line from `p` on, after those in `acc`: each after
/// any spaces. They end before the first place where no statement stands.
pub open spec fn line_items(s: Seq<char>, p: int, acc: Seq<NodeModel>) -> Result<
    (Seq<NodeModel>, int),
    ParseError,
>
    decreases s.len() - p,
{
    let q = skip_spaces(s, p);
    match variable_at(s, q) {
        Err(ParseError::Unexpected) => Ok((acc, p)),
        Err(e) => Err(e),
        Ok((v, e)) => if p < e <= s.len() {
            line_items(s, e, acc.push(v))
        } else {
            Ok((acc.push(v), e))
        },
    }
}

/// What a parse of a tree returned, as mathematical objects.
pub open spec fn parsed_node(r: Result<(AstNode, usize), ParseError>) -> Result<
    (NodeModel, int),
    ParseError,
> {
    match r {
        Ok((n, j)) => Ok((node_model(n), j as int)),
        Err(e) => Err(e),
    }
}

/// A tree that a parse returned is well formed and ends within the input.
pub open spec fn parsed_within(r: Result<(AstNode, usize), ParseError>, len: nat) -> bool {
    r matches Ok((n, j)) ==> node_wf(n) && j <= len
}

const SPACE: u8 = 32;
const OPEN_PAREN: u8 = 40;
const CLOSE_PAREN: u8 = 41;
const STAR: u8 = 42;
const PLUS: u8 = 43;
const MINUS: u8 = 45;
const POINT: u8 = 46;
const SLASH: u8 = 47;
const DIGIT_0: u8 = 48;
const DIGIT_9: u8 = 57;
const SEMICOLON: u8 = 59;
const EQUALS: u8 = 61;
const UPPER_A: u8 = 65;
const UPPER_E: u8 = 69;
const UPPER_Z: u8 = 90;
const OPEN_BRACKET: u8 = 91;
const CLOSE_BRACKET: u8 = 93;
const CARET: u8 = 94;
const LOWER_A: u8 = 97;
const LOWER_E: u8 = 101;
const LOWER_Z: u8 = 122;

proof fn lemma_fold_grows(acc: int, s: Seq<char>, a: int, b: int)
    requires
        acc >= 0,
        forall|j: int| a <= j < b ==> is_digit(#[trigger] s[j]),
    ensures
        fold_digits(acc, s, a, b) >= acc,
    decreases b - a,
{
    if b > a {
        lemma_fold_grows(acc, s, a, b - 1);
    }
}

proof fn lemma_pow10_bound(n: nat)
    requires
        n <= 18,
    ensures
        1 <= pow10(n) <= 1_000_000_000_000_000_000,
    decreases 18 - n,
{
    if n < 18 {
        lemma_pow10_bound(n + 1);
        assert(pow10(n + 1) == 10 * pow10(n));
        assert(pow10(n) >= 1) by {
            lemma_pow10_positive(n);
        }
    } else {
        reveal_with_fuel(pow10, 19);
    }
}

proof fn lemma_pow10_positive(n: nat)
    ensures
        pow10(n) >= 1,
    decreases n,
{
    if n > 0 {
        lemma_pow10_positive((n - 1) as nat);
    }
}

/// The character at `i` as a byte; zero past the end.
fn peek(s: &str, i: usize) -> (c: u8)
    requires
        s.is_ascii(),
    ensures
        c == char_at(s@, i as int) as u8,
        (char_at(s@, i as int) as u32) < 128,
        s@.len() <= usize::MAX,
{
    proof {
        vstd::string::is_ascii_spec_bytes(s);
    }
    let b = s.as_bytes();
    if i < b.len() {
        b[i]
    } else {
        0
    }
}

fn skip_spaces_from(s: &str, i: usize) -> (j: usize)
    requires
        s.is_ascii(),
        i <= s@.len(),
    ensures
        j == skip_spaces(s@, i as int),
        i <= j <= s@.len(),
{
    let mut j = i;
    while peek(s, j) == SPACE
        invariant
            s.is_ascii(),
            i <= j <= s@.len(),
            skip_spaces(s@, j as int) == skip_spaces(s@, i as int),
        decreases s@.len() - j,
    {
        j = j + 1;
    }
    j
}

fn alpha_end_from(s: &str, i: usize) -> (j: usize)
    requires
        s.is_ascii(),
        i <= s@.len(),
    ensures
        j == alpha_end(s@, i as int),
        i <= j <= s@.len(),
{
    let mut j = i;
    loop
        invariant
            s.is_ascii(),
            i <= j <= s@.len(),
            alpha_end(s@, j as int) == alpha_end(s@, i as int),
        decreases s@.len() - j,
    {
        let c = peek(s, j);
        if !((LOWER_A <= c && c <= LOWER_Z) || (UPPER_A <= c && c <= UPPER_Z)) {
            return j;
        }
        j = j + 1;
    }
}

/// Where the digits from `a` end, and their value written after `acc`
/// where that is at most `limit`.
fn digits_from(s: &str, a: usize, acc: u64, limit: u64) -> (r: (usize, Option<u64>))
    requires
        s.is_ascii(),
        a <= s@.len(),
        acc <= limit <= i64::MAX,
    ensures
        r.0 == digits_end(s@, a as int),
        a <= r.0 <= s@.len(),
        forall|j: int| a <= j < r.0 ==> is_digit(#[trigger] s@[j]),
        match r.1 {
            Some(v) => v == fold_digits(acc as int, s@, a as int, r.0 as int) && v <= limit,
            None => fold_digits(acc as int, s@, a as int, r.0 as int) > limit,
        },
{
    let mut j = a;
    let mut v: u64 = acc;
    let mut over = false;
    loop
        invariant
            s.is_ascii(),
            a <= j <= s@.len(),
            acc <= limit <= i64::MAX,
            digits_end(s@, j as int) == digits_end(s@, a as int),
            forall|k: int| a <= k < j ==> is_digit(#[trigger] s@[k]),
            !over ==> v == fold_digits(acc as int, s@, a as int, j as int) && v <= limit,
            over ==> fold_digits(acc as int, s@, a as int, j as int) > limit,
        decreases s@.len() - j,
    {
        let c = peek(s, j);
        if !(DIGIT_0 <= c && c <= DIGIT_9) {
            return (j, if over { None } else { Some(v) });
        }
        let ghost before = fold_digits(acc as int, s@, a as int, j as int);
        if !over {
            let next: u128 = v as u128 * 10 + (c - DIGIT_0) as u128;
            if next > limit as u128 {
                over = true;
            } else {
                v = next as u64;
            }
        }
        j = j + 1;
        assert(fold_digits(acc as int, s@, a as int, j as int) == before * 10 + digit_value(
            s@[j - 1],
        ));
    }
}

fn pow10_of(n: u32) -> (r: u64)
    requires
        n <= 18,
    ensures
        r == pow10(n as nat),
{
    let mut r: u64 = 1;
    let mut i: u32 = 0;
    while i < n
        invariant
            i <= n <= 18,
            r == pow10(i as nat),
        decreases n - i,
    {
        proof {
            lemma_pow10_bound(i as nat);
        }
        r = r * 10;
        i = i + 1;
    }
    r
}

/// The positions of a decimal literal's parts, with the value of its digits
/// and of its exponent digits where they are within their limits.
struct DecimalScan {
    negative: bool,
    int_start: usize,
    int_end: usize,
    frac_start: usize,
    frac_end: usize,
    exp_negative: bool,
    exp_start: usize,
    exp_end: usize,
    mantissa: Option<u64>,
    exponent: Option<u64>,
}

fn scan_decimal(s: &str, i: usize) -> (r: DecimalScan)
    requires
        s.is_ascii(),
        i <= s@.len(),
    ensures
        ({
            let d = decimal_shape(s@, i as int);
            &&& r.negative == d.negative
            &&& r.int_start == d.int_start
            &&& r.int_end == d.int_end
            &&& r.frac_start == d.frac_start
            &&& r.frac_end == d.frac_end
            &&& r.exp_negative == d.exp_negative
            &&& r.exp_start == d.exp_start
            &&& r.exp_end == d.exp_end
            &&& r.exp_end <= s@.len()
            &&& r.frac_end <= s@.len()
            &&& r.frac_start <= r.frac_end
            &&& match r.mantissa {
                Some(m) => m <= i64::MAX && m == fold_digits(
                    fold_digits(0, s@, d.int_start, d.int_end),
                    s@,
                    d.frac_start,
                    d.frac_end,
                ),
                None => fold_digits(fold_digits(0, s@, d.int_start, d.int_end), s@, d.frac_start, d.frac_end)
                    > i64::MAX,
            }
            &&& match r.exponent {
                Some(e) => e <= EXPONENT_LIMIT && e == fold_digits(0, s@, d.exp_start, d.exp_end),
                None => fold_digits(0, s@, d.exp_start, d.exp_end) > EXPONENT_LIMIT,
            }
        }),
{
    let c = peek(s, i);
    let negative = c == MINUS;
    let int_start = if c == PLUS || c == MINUS { i + 1 } else { i };
    let (int_end, int_value) = digits_from(s, int_start, 0, 0x7fff_ffff_ffff_ffff);
    let point = peek(s, int_end) == POINT;
    let frac_start = if point { int_end + 1 } else { int_end };
    let (frac_end, mantissa) = if point {
        match int_value {
            Some(v) => digits_from(s, frac_start, v, 0x7fff_ffff_ffff_ffff),
            None => {
                let (e, _) = digits_from(s, frac_start, 0, 0x7fff_ffff_ffff_ffff);
                proof {
                    lemma_fold_grows(
                        fold_digits(0, s@, int_start as int, int_end as int),
                        s@,
                        frac_start as int,
                        e as int,
                    );
                }
                (e, None)
            },
        }
    } else {
        (int_end, int_value)
    };
    let e_char = peek(s, frac_end);
    let mut exp_negative = false;
    let mut exp_start = frac_end;
    let mut exp_end = frac_end;
    let mut exponent: Option<u64> = Some(0);
    if e_char == LOWER_E || e_char == UPPER_E {
        let sign_at = frac_end + 1;
        let sc = peek(s, sign_at);
        let start = if sc == PLUS || sc == MINUS { sign_at + 1 } else { sign_at };
        let (end, value) = digits_from(s, start, 0, EXPONENT_LIMIT);
        if end > start {
            exp_negative = sc == MINUS;
            exp_start = start;
            exp_end = end;
            exponent = value;
        }
    }
    DecimalScan {
        negative,
        int_start,
        int_end,
        frac_start,
        frac_end,
        exp_negative,
        exp_start,
        exp_end,
        mantissa,
        exponent,
    }
}

proof fn lemma_scaled_fits(n: int, p: int)
    requires
        -0x8000_0000_0000_0000 <= n <= 0x8000_0000_0000_0000,
        1 <= p <= 1_000_000_000_000_000_000,
    ensures
        -0x8000_0000_0000_0000 * 1_000_000_000_000_000_000 <= n * p <= 0x8000_0000_0000_0000
            * 1_000_000_000_000_000_000,
{
    assert(-0x8000_0000_0000_0000 * 1_000_000_000_000_000_000 <= n * p <= 0x8000_0000_0000_0000
        * 1_000_000_000_000_000_000) by (nonlinear_arith)
        requires
            -0x8000_0000_0000_0000 <= n <= 0x8000_0000_0000_0000,
            1 <= p <= 1_000_000_000_000_000_000,
    ;
}

/// The number that the decimal literal at `i` writes, and where it ends.
fn decimal(s: &str, i: usize) -> (r: Result<(Number, usize), ParseError>)
    requires
        s.is_ascii(),
        i <= s@.len(),
    ensures
        match r {
            Ok((x, j)) => decimal_at(s@, i as int) == Ok::<(Number, int), ParseError>((x, j as int))
                && x.wf() && j <= s@.len(),
            Err(e) => decimal_at(s@, i as int) == Err::<(Number, int), ParseError>(e),
        },
{
    let d = scan_decimal(s, i);
    if d.int_end == d.int_start && d.frac_end == d.frac_start {
        return Err(ParseError::Unexpected);
    }
    let end = if d.exp_end > d.exp_start { d.exp_end } else { d.frac_end };
    let m = match d.mantissa {
        Some(m) => m,
        None => {
            return Err(ParseError::NumberOutOfRange);
        },
    };
    let e = match d.exponent {
        Some(e) => e,
        None => {
            return Err(ParseError::NumberOutOfRange);
        },
    };
    let k: i128 = (if d.exp_negative { -(e as i128) } else { e as i128 }) - ((d.frac_end
        - d.frac_start) as i128);
    if k < -SCALE_LIMIT || k > SCALE_LIMIT {
        return Err(ParseError::NumberOutOfRange);
    }
    let n: i128 = if d.negative { -(m as i128) } else { m as i128 };
    let r = if k >= 0 {
        let p = pow10_of(k as u32);
        proof {
            lemma_pow10_bound(k as nat);
            lemma_scaled_fits(n as int, p as int);
        }
        from_ratio(n * (p as i128), 1)
    } else {
        let p = pow10_of((-k) as u32);
        proof {
            lemma_pow10_bound((-k) as nat);
        }
        from_ratio(n, p as i128)
    };
    match r {
        Ok(x) => Ok((x, end)),
        Err(_) => Err(ParseError::NumberOutOfRange),
    }
}

fn is_word(w: &String, word: &str) -> (r: bool)
    ensures
        r == (w@ == word@),
{
    *w == word.to_owned()
}

/// The named unit that the word in `[a, b)` stands for.
fn unit_word(s: &str, a: usize, b: usize) -> (r: Option<Unit>)
    requires
        s.is_ascii(),
        a <= b <= s@.len(),
    ensures
        r == alias_unit(s@.subrange(a as int, b as int)),
{
    let w: String = s.substring_ascii(a, b).to_owned();
    if is_word(&w, "m") || is_word(&w, "meter") || is_word(&w, "meters") {
        Some(Unit::Meter)
    } else if is_word(&w, "km") || is_word(&w, "kilometer") || is_word(&w, "kilometers") {
        Some(Unit::Kilometer)
    } else if is_word(&w, "s") || is_word(&w, "second") || is_word(&w, "seconds") {
        Some(Unit::Second)
    } else if is_word(&w, "min") || is_word(&w, "minute") || is_word(&w, "minutes") {
        Some(Unit::Minute)
    } else if is_word(&w, "h") || is_word(&w, "hour") || is_word(&w, "hours") {
        Some(Unit::Hour)
    } else if is_word(&w, "d") || is_word(&w, "day") || is_word(&w, "days") {
        Some(Unit::Day)
    } else if is_word(&w, "USD") {
        Some(Unit::USD)
    } else if is_word(&w, "GBP") {
        Some(Unit::GBP)
    } else {
        None
    }
}

/// The unit annotation at `i`.
fn unit_annotation(s: &str, i: usize) -> (r: Result<(Unit, usize), ParseError>)
    requires
        s.is_ascii(),
        i <= s@.len(),
    ensures
        match r {
            Ok((u, j)) => unit_at(s@, i as int) == Ok::<(Unit, int), ParseError>((u, j as int)) && j
                <= s@.len(),
            Err(e) => unit_at(s@, i as int) == Err::<(Unit, int), ParseError>(e),
        },
{
    if peek(s, i) != OPEN_BRACKET {
        return Err(ParseError::Unexpected);
    }
    let a_end = alpha_end_from(s, i + 1);
    let u = match unit_word(s, i + 1, a_end) {
        Some(u) => u,
        None => {
            return Err(ParseError::Unexpected);
        },
    };
    let c = peek(s, a_end);
    if c == CARET {
        let (p_end, power) = digits_from(s, a_end + 1, 0, 1);
        if p_end == a_end + 1 {
            Err(ParseError::Unexpected)
        } else if power != Some(1u64) {
            Err(ParseError::UnsupportedUnit)
        } else if peek(s, p_end) != CLOSE_BRACKET {
            Err(ParseError::Unexpected)
        } else {
            Ok((u, p_end + 1))
        }
    } else if c != CLOSE_BRACKET {
        Err(ParseError::Unexpected)
    } else {
        Ok((u, a_end + 1))
    }
}

/// A number with its unit.
fn scalar_literal(s: &str, i: usize) -> (r: Result<(AstNode, usize), ParseError>)
    requires
        s.is_ascii(),
        i <= s@.len(),
    ensures
        parsed_node(r) == scalar_literal_at(s@, i as int),
        parsed_within(r, s@.len()),
{
    let (x, j) = decimal(s, i)?;
    let (u, k) = unit_annotation(s, j)?;
    Ok((AstNode::Literal { value: Value::Scalar(x), unit: CompoundUnit::new(u) }, k))
}

/// A vector with its unit.
fn vector_literal(s: &str, i: usize) -> (r: Result<(AstNode, usize), ParseError>)
    requires
        s.is_ascii(),
        i <= s@.len(),
    ensures
        parsed_node(r) == vector_literal_at(s@, i as int),
        parsed_within(r, s@.len()),
{
    if peek(s, i) != OPEN_BRACKET {
        return Err(ParseError::Unexpected);
    }
    assert(char_at(s@, i as int) == '[');
    let ghost whole = vector_items(s@, i + 1, Seq::empty());
    let mut items: Vec<Number> = Vec::new();
    let mut p: usize = i + 1;
    loop
        invariant_except_break
            i < p <= s@.len(),
            vector_items(s@, p as int, items@) == whole,
        invariant
            s.is_ascii(),
            char_at(s@, i as int) == '[',
            whole == vector_items(s@, i + 1, Seq::empty()),
            forall|j: int| 0 <= j < items@.len() ==> (#[trigger] items@[j]).wf(),
        ensures
            p <= s@.len(),
            whole == Ok::<(Seq<Number>, int), ParseError>((items@, p as int)),
            forall|j: int| 0 <= j < items@.len() ==> (#[trigger] items@[j]).wf(),
        decreases s@.len() - p,
    {
        let q = skip_spaces_from(s, p);
        let d = decimal(s, q);
        proof {
            assert(vector_items(s@, p as int, items@) == match decimal_at(s@, q as int) {
                Err(ParseError::Unexpected) => if items@.len() == 0 {
                    Err(ParseError::Unexpected)
                } else {
                    Ok((items@, p as int))
                },
                Err(e) => Err(e),
                Ok((x, e)) => {
                    let next = skip_spaces(s@, e);
                    if p < next <= s@.len() {
                        vector_items(s@, next, items@.push(x))
                    } else {
                        Ok((items@.push(x), next))
                    }
                },
            });
        }
        match d {
            Err(ParseError::Unexpected) => {
                if items.len() == 0 {
                    return Err(ParseError::Unexpected);
                }
                break ;
            },
            Err(e) => {
                assert(whole == Err::<(Seq<Number>, int), ParseError>(e));
                return Err(e);
            },
            Ok((x, e)) => {
                let next = skip_spaces_from(s, e);
                let ghost before = items@;
                items.push(x);
                assert forall|j: int| 0 <= j < items@.len() implies (#[trigger] items@[j]).wf() by {
                    if j < before.len() {
                        assert(items@[j] == before[j]);
                    } else {
                        assert(items@[j] == x);
                    }
                }
                if p < next {
                    p = next;
                } else {
                    p = next;
                    break ;
                }
            },
        }
    }
    if peek(s, p) != CLOSE_BRACKET {
        return Err(ParseError::Unexpected);
    }
    let (u, k) = unit_annotation(s, p + 1)?;
    Ok((AstNode::Literal { value: Value::Vector(items), unit: CompoundUnit::new(u) }, k))
}

fn value_literal(s: &str, i: usize) -> (r: Result<(AstNode, usize), ParseError>)
    requires
        s.is_ascii(),
        i <= s@.len(),
    ensures
        parsed_node(r) == value_at(s@, i as int),
        parsed_within(r, s@.len()),
{
    if peek(s, i) == OPEN_BRACKET {
        vector_literal(s, i)
    } else {
        scalar_literal(s, i)
    }
}

fn name(s: &str, i: usize) -> (r: Result<(String, usize), ParseError>)
    requires
        s.is_ascii(),
        i <= s@.len(),
    ensures
        match r {
            Ok((n, j)) => name_at(s@, i as int) == Ok::<(Seq<char>, int), ParseError>((n@, j as int))
                && j <= s@.len(),
            Err(e) => name_at(s@, i as int) == Err::<(Seq<char>, int), ParseError>(e),
        },
{
    let j = alpha_end_from(s, i);
    if j == i {
        Err(ParseError::Unexpected)
    } else {
        Ok((s.substring_ascii(i, j).to_owned(), j))
    }
}

fn operator(s: &str, i: usize) -> (r: Result<(BinaryOperation, usize), ParseError>)
    requires
        s.is_ascii(),
        i <= s@.len(),
    ensures
        match r {
            Ok((op, j)) => operator_at(s@, i as int) == Ok::<(BinaryOperation, int), ParseError>(
                (op, j as int),
            ) && j <= s@.len(),
            Err(e) => operator_at(s@, i as int) == Err::<(BinaryOperation, int), ParseError>(e),
        },
{
    let j = skip_spaces_from(s, i);
    let c = peek(s, j);
    let op = if c == PLUS {
        BinaryOperation::Add
    } else if c == MINUS {
        BinaryOperation::Subtract
    } else if c == STAR {
        BinaryOperation::Multiply
    } else if c == SLASH {
        BinaryOperation::Divide
    } else if c == CARET {
        return Err(ParseError::UnsupportedOperator);
    } else {
        return Err(ParseError::Unexpected);
    };
    Ok((op, skip_spaces_from(s, j + 1)))
}

fn operand(s: &str, i: usize) -> (r: Result<(AstNode, usize), ParseError>)
    requires
        s.is_ascii(),
        i <= s@.len(),
    ensures
        parsed_node(r) == operand_at(s@, i as int),
        parsed_within(r, s@.len()),
    decreases s@.len() - i, 1int,
{
    let c = peek(s, i);
    if c == OPEN_PAREN {
        expression(s, i)
    } else if (LOWER_A <= c && c <= LOWER_Z) || (UPPER_A <= c && c <= UPPER_Z) {
        let (n, j) = name(s, i)?;
        Ok((AstNode::Name(n), j))
    } else {
        value_literal(s, i)
    }
}

fn expression(s: &str, i: usize) -> (r: Result<(AstNode, usize), ParseError>)
    requires
        s.is_ascii(),
        i <= s@.len(),
    ensures
        parsed_node(r) == expression_at(s@, i as int),
        parsed_within(r, s@.len()),
    decreases s@.len() - i, 0int,
{
    if peek(s, i) != OPEN_PAREN {
        return Err(ParseError::Unexpected);
    }
    let (lhs, j) = operand(s, i + 1)?;
    let (op, k) = operator(s, j)?;
    if !(i < k) {
        return Err(ParseError::Unexpected);
    }
    let (rhs, m) = operand(s, k)?;
    if peek(s, m) != CLOSE_PAREN {
        return Err(ParseError::Unexpected);
    }
    Ok((AstNode::Expression { operation: op, lhs: Box::new(lhs), rhs: Box::new(rhs) }, m + 1))
}

fn variable(s: &str, i: usize) -> (r: Result<(AstNode, usize), ParseError>)
    requires
        s.is_ascii(),
        i <= s@.len(),
    ensures
        parsed_node(r) == variable_at(s@, i as int),
        parsed_within(r, s@.len()),
{
    reveal(variable_at);
    let (n, j) = name(s, i)?;
    if !(peek(s, j) == SPACE && peek(s, j + 1) == EQUALS && peek(s, j + 2) == SPACE) {
        return Err(ParseError::Unexpected);
    }
    let k = j + 3;
    let (x, m) = if peek(s, k) == OPEN_PAREN {
        expression(s, k)?
    } else {
        value_literal(s, k)?
    };
    if peek(s, m) != SEMICOLON {
        return Err(ParseError::Unexpected);
    }
    Ok((AstNode::Variable { name: n, expr: Box::new(x) }, m + 1))
}

/// The models of a sequence of trees.
pub open spec fn node_models(nodes: Seq<AstNode>) -> Seq<NodeModel> {
    nodes.map_values(|n: AstNode| node_model(n))
}

/// What a public parse returned, as mathematical objects: the tree and the
/// position where the rest of the input starts.
pub open spec fn parsed_with_rest(r: Result<(&str, AstNode), ParseError>, s: Seq<char>) -> Result<
    (NodeModel, int),
    ParseError,
> {
    match r {
        Ok((rest, n)) => Ok((node_model(n), s.len() - rest@.len())),
        Err(e) => Err(e),
    }
}

/// A public parse hands back a well-formed tree and the input that follows it.
pub open spec fn rest_follows(r: Result<(&str, AstNode), ParseError>, s: Seq<char>) -> bool {
    r matches Ok((rest, n)) ==> node_wf(n) && rest@.len() <= s.len() && rest@ == s.subrange(
        s.len() - rest@.len(),
        s.len() as int,
    )
}

/// The input from `j` on.
fn rest_from(s: &str, j: usize) -> (r: &str)
    requires
        s.is_ascii(),
        j <= s@.len(),
    ensures
        r@ == s@.subrange(j as int, s@.len() as int),
{
    proof {
        vstd::string::is_ascii_spec_bytes(s);
    }
    let n = s.as_bytes().len();
    assert(n == s@.len());
    s.substring_ascii(j, n)
}

/// Hands back the tree that `r` holds with the rest of `s`.
fn with_rest(s: &str, r: Result<(AstNode, usize), ParseError>) -> (out: Result<
    (&str, AstNode),
    ParseError,
>)
    requires
        s.is_ascii(),
        parsed_within(r, s@.len()),
    ensures
        parsed_with_rest(out, s@) == parsed_node(r),
        rest_follows(out, s@),
{
    match r {
        Ok((n, j)) => Ok((rest_from(s, j), n)),
        Err(e) => Err(e),
    }
}

/// A number with its unit at the start of `input`, such as `11e-1[m]`,
/// `1[meter]` or `1.1[km]`, and the rest of the input.
pub fn parse_number(input: &str) -> (r: Result<(&str, AstNode), ParseError>)
    ensures
        !input.is_ascii() ==> r == Err::<(&str, AstNode), ParseError>(ParseError::NotAscii),
        input.is_ascii() ==> parsed_with_rest(r, input@) == scalar_literal_at(input@, 0),
        rest_follows(r, input@),
{
    if !input.is_ascii() {
        return Err(ParseError::NotAscii);
    }
    with_rest(input, scalar_literal(input, 0))
}

/// A name at the start of `input`, and the rest of the input.
pub fn parse_name(input: &str) -> (r: Result<(&str, AstNode), ParseError>)
    ensures
        !input.is_ascii() ==> r == Err::<(&str, AstNode), ParseError>(ParseError::NotAscii),
        input.is_ascii() ==> parsed_with_rest(r, input@) == match name_at(input@, 0) {
            Ok((n, j)) => Ok((NodeModel::Name(n), j)),
            Err(e) => Err(e),
        },
        rest_follows(r, input@),
{
    if !input.is_ascii() {
        return Err(ParseError::NotAscii);
    }
    let r = match name(input, 0) {
        Ok((n, j)) => Ok((AstNode::Name(n), j)),
        Err(e) => Err(e),
    };
    with_rest(input, r)
}

/// An expression `(lhs op rhs)` at the start of `input`, and the rest of
/// the input.
pub fn parse_expression(input: &str) -> (r: Result<(&str, AstNode), ParseError>)
    ensures
        !input.is_ascii() ==> r == Err::<(&str, AstNode), ParseError>(ParseError::NotAscii),
        input.is_ascii() ==> parsed_with_rest(r, input@) == expression_at(input@, 0),
        rest_follows(r, input@),
{
    if !input.is_ascii() {
        return Err(ParseError::NotAscii);
    }
    with_rest(input, expression(input, 0))
}

/// A statement `name = value;` or `name = (lhs op rhs);` at the start of
/// `input`, and the rest of the input.
pub fn parse_variable(input: &str) -> (r: Result<(&str, AstNode), ParseError>)
    ensures
        !input.is_ascii() ==> r == Err::<(&str, AstNode), ParseError>(ParseError::NotAscii),
        input.is_ascii() ==> parsed_with_rest(r, input@) == variable_at(input@, 0),
        rest_follows(r, input@),
{
    if !input.is_ascii() {
        return Err(ParseError::NotAscii);
    }
    with_rest(input, variable(input, 0))
}

/// The statements at the start of `input`, each after any spaces, up to the
/// first place where no statement stands, and the rest of the input. A
/// statement that is malformed in a way no other reading could mend (a
/// number out of range, an unsupported power or operator) is an error.
pub fn parse_line(input: &str) -> (r: Result<(&str, Vec<AstNode>), ParseError>)
    ensures
        !input.is_ascii() ==> r == Err::<(&str, Vec<AstNode>), ParseError>(ParseError::NotAscii),
        input.is_ascii() ==> match r {
            Ok((rest, stmts)) => line_items(input@, 0, Seq::empty()) == Ok::<
                (Seq<NodeModel>, int),
                ParseError,
            >((node_models(stmts@), input@.len() - rest@.len())) && rest@.len() <= input@.len()
                && rest@ == input@.subrange(input@.len() - rest@.len(), input@.len() as int)
                && forall|i: int| 0 <= i < stmts@.len() ==> node_wf(#[trigger] stmts@[i]),
            Err(e) => line_items(input@, 0, Seq::empty()) == Err::<(Seq<NodeModel>, int), ParseError>(
                e,
            ),
        },
{
    if !input.is_ascii() {
        return Err(ParseError::NotAscii);
    }
    let ghost whole = line_items(input@, 0, Seq::empty());
    let mut stmts: Vec<AstNode> = Vec::new();
    let mut p: usize = 0;
    assert(node_models(stmts@) =~= Seq::<NodeModel>::empty());
    loop
        invariant_except_break
            line_items(input@, p as int, node_models(stmts@)) == whole,
        invariant
            input.is_ascii(),
            p <= input@.len(),
            whole == line_items(input@, 0, Seq::empty()),
            forall|i: int| 0 <= i < stmts@.len() ==> node_wf(#[trigger] stmts@[i]),
        ensures
            p <= input@.len(),
            whole == Ok::<(Seq<NodeModel>, int), ParseError>((node_models(stmts@), p as int)),
            forall|i: int| 0 <= i < stmts@.len() ==> node_wf(#[trigger] stmts@[i]),
        decreases input@.len() - p,
    {
        let q = skip_spaces_from(input, p);
        let v = variable(input, q);
        match v {
            Err(ParseError::Unexpected) => {
                break ;
            },
            Err(e) => {
                assert(whole == Err::<(Seq<NodeModel>, int), ParseError>(e));
                return Err(e);
            },
            Ok((node, e)) => {
                let ghost before = stmts@;
                let ghost m = node_model(node);
                stmts.push(node);
                assert(node_models(stmts@) =~= node_models(before).push(m));
                assert forall|i: int| 0 <= i < stmts@.len() implies node_wf(#[trigger] stmts@[i]) by {
                    if i < before.len() {
                        assert(stmts@[i] == before[i]);
                    }
                }
                if p < e {
                    p = e;
                } else {
                    p = e;
                    break ;
                }
            },
        }
    }
    Ok((rest_from(input, p), stmts))
}

} // verus!
