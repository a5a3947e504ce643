//! Runtime values and the constant pool that holds them.
use vstd::prelude::*;
use vstd::std_specs::cmp::PartialEqSpec;

verus! {

/// The pattern in which only the sign bit of a binary64 number is set.
pub const SIGN_BIT: u64 = 0x8000_0000_0000_0000;

/// The pattern of positive infinity: every pattern whose magnitude is above
/// it is a NaN.
pub const INFINITY_BITS: u64 = 0x7ff0_0000_0000_0000;

/// The pattern without its sign bit.
pub open spec fn magnitude(bits: u64) -> int {
    if bits >= SIGN_BIT {
        bits - SIGN_BIT
    } else {
        bits as int
    }
}

/// Whether the pattern is one of the NaNs.
pub open spec fn is_nan(bits: u64) -> bool {
    magnitude(bits) > INFINITY_BITS
}

/// The place of a number that is not a NaN on the number line: patterns
/// with the sign bit set count downwards from zero, so that both zeros share
/// place 0 and the order of places is the order of the numbers.
pub open spec fn ordinal(bits: u64) -> int {
    if bits >= SIGN_BIT {
        -magnitude(bits)
    } else {
        magnitude(bits)
    }
}

/// IEEE-754 `==` on two patterns: a NaN equals nothing, the two zeros are
/// equal.
pub open spec fn number_eq(a: u64, b: u64) -> bool {
    !is_nan(a) && !is_nan(b) && ordinal(a) == ordinal(b)
}

/// IEEE-754 `<` on two patterns: false as soon as either is a NaN.
pub open spec fn number_lt(a: u64, b: u64) -> bool {
    !is_nan(a) && !is_nan(b) && ordinal(a) < ordinal(b)
}

/// IEEE-754 negation: the same pattern with the sign bit flipped.
pub open spec fn negated(bits: u64) -> u64 {
    if bits >= SIGN_BIT {
        (bits - SIGN_BIT) as u64
    } else {
        (bits + SIGN_BIT) as u64
    }
}

/// A runtime value of the language.
#[derive(Debug, Clone, Copy)]
pub enum Value {
    Nil,
    Bool(bool),
    /// An IEEE-754 binary64 number, as its bit pattern.
    Number(u64),
}

/// Equality of the language: two values are equal when they are of the same
/// variant and carry equal payloads; numbers are compared as IEEE-754 does.
pub open spec fn values_equal(a: Value, b: Value) -> bool {
    match (a, b) {
        (Value::Nil, Value::Nil) => true,
        (Value::Bool(x), Value::Bool(y)) => x == y,
        (Value::Number(x), Value::Number(y)) => number_eq(x, y),
        _ => false,
    }
}

/// Values of different variants are never equal. `Nil` equals `Nil`, two
/// booleans are equal when they are the same, and two numbers when IEEE-754
/// `==` holds of them: a NaN equals no value, not even itself, and the two
/// zeros are equal.
pub proof fn lemma_equality_of_values(a: Value, b: Value)
    ensures
        a.eq_spec(&b) == values_equal(a, b),
        values_equal(a, b) == values_equal(b, a),
        a is Nil && b is Nil ==> values_equal(a, b),
        a is Bool && b is Bool ==> values_equal(a, b) == (a->Bool_0 == b->Bool_0),
        a is Number && b is Number ==> values_equal(a, b) == number_eq(a->Number_0, b->Number_0),
        !(a is Nil && b is Nil) && !(a is Bool && b is Bool) && !(a is Number && b is Number)
            ==> !values_equal(a, b),
        a is Number && is_nan(a->Number_0) ==> !values_equal(a, a),
        a is Number && !is_nan(a->Number_0) ==> values_equal(a, a),
        values_equal(Value::Number(0), Value::Number(SIGN_BIT)),
{
}

/// Whether the bit pattern is a NaN.
pub fn bits_are_nan(bits: u64) -> (r: bool)
    ensures
        r == is_nan(bits),
{
    if bits >= SIGN_BIT {
        bits - SIGN_BIT > INFINITY_BITS
    } else {
        bits > INFINITY_BITS
    }
}

/// IEEE-754 `==` on two bit patterns.
pub fn bits_equal(a: u64, b: u64) -> (r: bool)
    ensures
        r == number_eq(a, b),
{
    if bits_are_nan(a) || bits_are_nan(b) {
        false
    } else {
        a == b || ((a == 0 || a == SIGN_BIT) && (b == 0 || b == SIGN_BIT))
    }
}

/// IEEE-754 `<` on two bit patterns.
pub fn bits_less(a: u64, b: u64) -> (r: bool)
    ensures
        r == number_lt(a, b),
{
    if bits_are_nan(a) || bits_are_nan(b) {
        false
    } else if a >= SIGN_BIT {
        if b >= SIGN_BIT {
            b < a
        } else {
            a > SIGN_BIT || b > 0
        }
    } else {
        b < SIGN_BIT && a < b
    }
}

/// IEEE-754 negation of a bit pattern.
pub fn bits_negated(bits: u64) -> (r: u64)
    ensures
        r == negated(bits),
{
    if bits >= SIGN_BIT {
        bits - SIGN_BIT
    } else {
        bits + SIGN_BIT
    }
}

impl Value {
    /// Truthiness of the language: only `Nil` and `Bool(false)` are falsey.
    pub open spec fn spec_is_falsey(&self) -> bool {
        *self == Value::Nil || *self == Value::Bool(false)
    }

    #[verifier::when_used_as_spec(spec_is_falsey)]
    pub fn is_falsey(&self) -> (r: bool)
        ensures
            r == self.spec_is_falsey(),
    {
        match self {
            Value::Nil => true,
            Value::Bool(b) => !*b,
            Value::Number(_) => false,
        }
    }
}

impl PartialEq for Value {
    fn eq(&self, other: &Value) -> (r: bool) {
        match (*self, *other) {
            (Value::Nil, Value::Nil) => true,
            (Value::Bool(x), Value::Bool(y)) => x == y,
            (Value::Number(x), Value::Number(y)) => bits_equal(x, y),
            _ => false,
        }
    }
}

impl vstd::std_specs::cmp::PartialEqSpecImpl for Value {
    open spec fn obeys_eq_spec() -> bool {
        true
    }

    open spec fn eq_spec(&self, other: &Value) -> bool {
        values_equal(*self, *other)
    }
}

/// The constant pool: an append-only sequence of values.
#[derive(Debug)]
pub struct ValueArray {
    values: Vec<Value>,
}

impl View for ValueArray {
    type V = Seq<Value>;

    closed spec fn view(&self) -> Seq<Value> {
        self.values@
    }
}

/// Whether two sequences of values are of one length and equal place by
/// place, by the equality of the language.
pub open spec fn value_seqs_equal(a: Seq<Value>, b: Seq<Value>) -> bool {
    a.len() == b.len() && forall|i: int| 0 <= i < a.len() ==> values_equal(#[trigger] a[i], b[i])
}

impl ValueArray {
    pub fn new() -> (r: Self)
        ensures
            r@ == Seq::<Value>::empty(),
    {
        Self { values: Vec::new() }
    }

    /// Appends `value` and returns its index.
    pub fn add(&mut self, value: Value) -> (index: usize)
        ensures
            final(self)@ == old(self)@.push(value),
            index == old(self)@.len(),
    {
        self.values.push(value);
        self.values.len() - 1
    }

    pub fn get(&self, i: usize) -> (value: Value)
        requires
            i < self@.len(),
        ensures
            value == self@[i as int],
    {
        self.values[i]
    }

    /// The number of values in the pool.
    pub fn len(&self) -> (n: usize)
        ensures
            n == self@.len(),
    {
        self.values.len()
    }
}

impl PartialEq for ValueArray {
    fn eq(&self, other: &ValueArray) -> (r: bool) {
        if self.values.len() != other.values.len() {
            return false;
        }
        let mut i: usize = 0;
        while i < self.values.len()
            invariant
                self.values.len() == other.values.len(),
                i <= self.values.len(),
                forall|k: int| 0 <= k < i ==> values_equal(#[trigger] self.values@[k], other.values@[k]),
            decreases self.values.len() - i,
        {
            if !(self.values[i] == other.values[i]) {
                return false;
            }
            i += 1;
        }
        true
    }
}

impl vstd::std_specs::cmp::PartialEqSpecImpl for ValueArray {
    open spec fn obeys_eq_spec() -> bool {
        true
    }

    open spec fn eq_spec(&self, other: &ValueArray) -> bool {
        value_seqs_equal(self@, other@)
    }
}

} // verus!
