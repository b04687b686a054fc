//! Values of the language.
//!
//! A number is an IEEE-754 binary64 value held as its bit pattern. Negation,
//! equality and ordering are decided on the bits here; rounding arithmetic and
//! the reading of decimal literals come from functions that the caller
//! supplies.
use vstd::prelude::*;

verus! {

/// The sign bit of a binary64 pattern.
pub const SIGN_BIT: u64 = 0x8000_0000_0000_0000;

/// The exponent field of a binary64 pattern.
pub const EXPONENT_MASK: u64 = 0x7ff0_0000_0000_0000;

/// The fraction field of a binary64 pattern.
pub const FRACTION_MASK: u64 = 0x000f_ffff_ffff_ffff;

/// Not a number: all exponent bits set and a fraction that is not zero.
pub open spec fn is_nan(x: u64) -> bool {
    x & EXPONENT_MASK == EXPONENT_MASK && x & FRACTION_MASK != 0
}

/// Positive or negative zero.
pub open spec fn is_zero(x: u64) -> bool {
    x & !SIGN_BIT == 0
}

/// A key that orders the numbers that are not NaN as the reals they stand
/// for, with `-0` just below `+0`.
pub open spec fn order_key(x: u64) -> u64 {
    if x & SIGN_BIT != 0 {
        !x
    } else {
        x | SIGN_BIT
    }
}

/// IEEE-754 equality: NaN equals nothing, and the two zeros are equal.
pub open spec fn num_eq(a: u64, b: u64) -> bool {
    !is_nan(a) && !is_nan(b) && (a == b || (is_zero(a) && is_zero(b)))
}

/// IEEE-754 `a < b`: false whenever either side is NaN.
pub open spec fn num_lt(a: u64, b: u64) -> bool {
    !is_nan(a) && !is_nan(b) && !(is_zero(a) && is_zero(b)) && order_key(a) < order_key(b)
}

/// IEEE-754 negation flips the sign bit, NaN included.
pub open spec fn num_neg(a: u64) -> u64 {
    a ^ SIGN_BIT
}

pub fn number_is_nan(x: u64) -> (r: bool)
    ensures
        r == is_nan(x),
{
    x & EXPONENT_MASK == EXPONENT_MASK && x & FRACTION_MASK != 0
}

pub fn number_is_zero(x: u64) -> (r: bool)
    ensures
        r == is_zero(x),
{
    x & !SIGN_BIT == 0
}

/// `a == b` on binary64 numbers.
pub fn number_equal(a: u64, b: u64) -> (r: bool)
    ensures
        r == num_eq(a, b),
{
    !number_is_nan(a) && !number_is_nan(b) && (a == b || (number_is_zero(a) && number_is_zero(b)))
}

fn number_order_key(x: u64) -> (r: u64)
    ensures
        r == order_key(x),
{
    if x & SIGN_BIT != 0 {
        !x
    } else {
        x | SIGN_BIT
    }
}

/// `a < b` on binary64 numbers.
pub fn number_less(a: u64, b: u64) -> (r: bool)
    ensures
        r == num_lt(a, b),
{
    !number_is_nan(a) && !number_is_nan(b) && !(number_is_zero(a) && number_is_zero(b))
        && number_order_key(a) < number_order_key(b)
}

/// `-a` on a binary64 number.
pub fn number_negate(a: u64) -> (r: u64)
    ensures
        r == num_neg(a),
{
    a ^ SIGN_BIT
}

/// The four rounding operations of binary64 arithmetic.
#[derive(Clone, Copy, Debug, PartialEq, Eq, Structural)]
pub enum ArithOp {
    Add,
    Subtract,
    Multiply,
    Divide,
}

/// A value of the language.
#[derive(Debug, PartialEq)]
pub enum Value {
    Bool(bool),
    Nil,
    /// A binary64 number, by its bit pattern.
    Number(u64),
    /// The bytes of a string.
    Str(Vec<u8>),
}

/// What a value is, with a string as its bytes.
pub enum ValueModel {
    Bool(bool),
    Nil,
    Number(u64),
    Str(Seq<u8>),
}

impl View for Value {
    type V = ValueModel;

    open spec fn view(&self) -> ValueModel {
        match self {
            Value::Bool(b) => ValueModel::Bool(*b),
            Value::Nil => ValueModel::Nil,
            Value::Number(n) => ValueModel::Number(*n),
            Value::Str(s) => ValueModel::Str(s@),
        }
    }
}

/// Only `nil` and `false` are falsey.
pub open spec fn falsey(v: ValueModel) -> bool {
    v is Nil || v == ValueModel::Bool(false)
}

/// Equality of values: the same kind and equal contents, numbers compared as
/// IEEE-754 numbers.
pub open spec fn values_eq(a: ValueModel, b: ValueModel) -> bool {
    match (a, b) {
        (ValueModel::Bool(x), ValueModel::Bool(y)) => x == y,
        (ValueModel::Nil, ValueModel::Nil) => true,
        (ValueModel::Number(x), ValueModel::Number(y)) => num_eq(x, y),
        (ValueModel::Str(x), ValueModel::Str(y)) => x == y,
        _ => false,
    }
}

/// A value was not of the kind an operation needs.
#[derive(Debug, PartialEq, Eq)]
pub struct ValueTypeError {
    pub msg: &'static str,
}

fn bytes_equal(a: &Vec<u8>, b: &Vec<u8>) -> (r: bool)
    ensures
        r == (a@ == b@),
{
    if a.len() != b.len() {
        return false;
    }
    let mut i: usize = 0;
    while i < a.len()
        invariant
            a@.len() == b@.len(),
            i <= a@.len(),
            a@.subrange(0, i as int) == b@.subrange(0, i as int),
        decreases a@.len() - i,
    {
        if a[i] != b[i] {
            assert(a@[i as int] != b@[i as int]);
            return false;
        }
        assert(a@.subrange(0, i + 1) =~= a@.subrange(0, i as int).push(a@[i as int]));
        assert(b@.subrange(0, i + 1) =~= b@.subrange(0, i as int).push(b@[i as int]));
        i = i + 1;
    }
    assert(a@ =~= a@.subrange(0, i as int));
    assert(b@ =~= b@.subrange(0, i as int));
    true
}

impl Value {
    /// A value with the same contents.
    pub fn duplicate(&self) -> (r: Value)
        ensures
            r@ == self@,
    {
        match self {
            Value::Bool(b) => Value::Bool(*b),
            Value::Nil => Value::Nil,
            Value::Number(n) => Value::Number(*n),
            Value::Str(s) => Value::Str(s.clone()),
        }
    }

    pub fn is_nil(&self) -> (r: bool)
        ensures
            r == (self@ is Nil),
    {
        match self {
            Value::Nil => true,
            _ => false,
        }
    }

    pub fn is_str(&self) -> (r: bool)
        ensures
            r == (self@ is Str),
    {
        match self {
            Value::Str(_) => true,
            _ => false,
        }
    }

    pub fn is_falsey(&self) -> (r: bool)
        ensures
            r == falsey(self@),
    {
        match self {
            Value::Nil => true,
            Value::Bool(b) => !*b,
            _ => false,
        }
    }

    /// The number this value holds.
    pub fn to_number(&self) -> (r: Result<u64, ValueTypeError>)
        ensures
            match self@ {
                ValueModel::Number(n) => r == Ok::<u64, ValueTypeError>(n),
                _ => r is Err,
            },
    {
        match self {
            Value::Number(n) => Ok(*n),
            _ => Err(ValueTypeError { msg: "Operand must be a number" }),
        }
    }

    /// The bytes of the string this value holds.
    pub fn into_str(self) -> (r: Result<Vec<u8>, ValueTypeError>)
        ensures
            match self@ {
                ValueModel::Str(s) => r matches Ok(v) && v@ == s,
                _ => r is Err,
            },
    {
        match self {
            Value::Str(s) => Ok(s),
            _ => Err(ValueTypeError { msg: "Operand must be a string" }),
        }
    }

    /// Equality as the language defines it.
    pub fn equals(&self, other: &Value) -> (r: bool)
        ensures
            r == values_eq(self@, other@),
    {
        match (self, other) {
            (Value::Bool(x), Value::Bool(y)) => *x == *y,
            (Value::Nil, Value::Nil) => true,
            (Value::Number(x), Value::Number(y)) => number_equal(*x, *y),
            (Value::Str(x), Value::Str(y)) => bytes_equal(x, y),
            _ => false,
        }
    }
}

/// The constant pool of a chunk.
pub struct ConstArray(Vec<Value>);

impl View for ConstArray {
    type V = Seq<ValueModel>;

    closed spec fn view(&self) -> Seq<ValueModel> {
        self.0@.map_values(|v: Value| v@)
    }
}

impl ConstArray {
    pub fn new() -> (r: Self)
        ensures
            r@ == Seq::<ValueModel>::empty(),
    {
        ConstArray(Vec::new())
    }

    pub fn write(&mut self, value: Value)
        ensures
            final(self)@ == old(self)@.push(value@),
    {
        let ghost v = value@;
        self.0.push(value);
        assert(self@ =~= old(self)@.push(v));
    }

    pub fn len(&self) -> (r: usize)
        ensures
            r == self@.len(),
    {
        self.0.len()
    }

    pub fn get(&self, index: usize) -> (r: &Value)
        requires
            index < self@.len(),
        ensures
            r@ == self@[index as int],
    {
        &self.0[index]
    }
}

} // verus!
