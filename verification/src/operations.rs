//! The operators and functions of the language, on values.
use vstd::prelude::*;
use vstd::arithmetic::power2::pow2;
use crate::bitseqs::{
    bits_and, bits_or, bits_shifted_left, bits_shifted_right, bits_xor, Bitseq, BitseqView,
};
use crate::decimals::{
    decimal_difference, decimal_less, decimal_of, decimal_product, decimal_quotient,
    decimal_sum, guarded_power, gamma_not_finite, gamma_outcome, sine_of_degrees, Decimal,
    DecimalView,
};
use crate::errors::{ValueError, ValueErrorView};
use crate::integers::{
    factorial_outcome, fits_integer, power, truncated_quotient, truncated_remainder, Integer,
};
use crate::values::{to_bitseq, to_decimal, to_integer, Computed, Value, ValueView};

verus! {

/// The message for an integer result that 512 bits cannot hold.
pub open spec fn integer_overflow() -> Seq<char> {
    "Result exceeds size of Integer type"@
}

/// The message for a decimal result that is no finite number.
pub open spec fn not_finite() -> Seq<char> {
    "Result is not a finite Decimal"@
}

/// The message for a division by zero.
pub open spec fn division_by_zero() -> Seq<char> {
    "Division by zero"@
}

/// The message for an integer power whose exponent is below zero or beyond
/// 32 bits.
pub open spec fn bad_exponent() -> Seq<char> {
    "Exponent of Integer power must be between 0 and 4294967295"@
}

/// Whether `v` is the zero of its kind.
pub open spec fn is_zero(v: ValueView) -> bool {
    match v {
        ValueView::Bitseq(b) => b.value == 0,
        ValueView::Integer(i) => i == 0,
        ValueView::Decimal(d) => d.coefficient == 0,
    }
}

/// One for true, zero for false.
pub open spec fn truth(b: bool) -> ValueView {
    ValueView::Integer(
        if b {
            1
        } else {
            0
        },
    )
}

/// The integer that a bit sequence or an integer stands for; zero for a
/// decimal.
pub open spec fn whole(v: ValueView) -> int {
    match v {
        ValueView::Bitseq(b) => b.value as int,
        ValueView::Integer(i) => i,
        ValueView::Decimal(_) => 0,
    }
}

/// An integer result, where 512 bits can hold it.
pub open spec fn integer_result(x: int) -> Computed {
    if fits_integer(x) {
        Ok(ValueView::Integer(x))
    } else {
        Err(ValueErrorView::InvalidOperation(integer_overflow()))
    }
}

/// A decimal result, where the outside library gave a finite one.
pub open spec fn decimal_result(d: Option<DecimalView>) -> Computed {
    match d {
        Some(x) => Ok(ValueView::Decimal(x)),
        None => Err(ValueErrorView::InvalidOperation(not_finite())),
    }
}

/// Unary `-`: a bit sequence is read as an integer, then negated.
pub open spec fn negated(v: ValueView) -> Computed {
    match v {
        ValueView::Bitseq(b) => integer_result(-(b.value as int)),
        ValueView::Integer(i) => integer_result(-i),
        ValueView::Decimal(d) => Ok(ValueView::Decimal(DecimalView { negative: !d.negative, ..d })),
    }
}

/// The absolute value.
pub open spec fn absolute(v: ValueView) -> Computed {
    match v {
        ValueView::Bitseq(b) => Ok(v),
        ValueView::Integer(i) => integer_result(vstd::math::abs(i) as int),
        ValueView::Decimal(d) => Ok(ValueView::Decimal(DecimalView { negative: false, ..d })),
    }
}

/// Postfix `!` on an integer.
pub open spec fn integer_factorial(i: int) -> Computed {
    match factorial_outcome(i) {
        Ok(f) => Ok(ValueView::Integer(f)),
        Err(m) => Err(ValueErrorView::InvalidOperation(m)),
    }
}

/// The gamma function on a decimal.
pub open spec fn decimal_gamma(d: DecimalView) -> Computed {
    match gamma_outcome(d) {
        Ok(g) => Ok(ValueView::Decimal(g)),
        Err(m) => Err(ValueErrorView::InvalidOperation(m)),
    }
}

/// Postfix `!`: the factorial of an integer or of a bit sequence read as
/// one; for a decimal `x`, the gamma function at `x + 1`.
pub open spec fn factorial_of(v: ValueView) -> Computed {
    match v {
        ValueView::Bitseq(b) => integer_factorial(b.value as int),
        ValueView::Integer(i) => integer_factorial(i),
        ValueView::Decimal(d) => match decimal_sum(d, decimal_of(false, 1, 0)) {
            Some(next) => decimal_gamma(next),
            None => Err(ValueErrorView::InvalidOperation(gamma_not_finite())),
        },
    }
}

/// The gamma function, taken on the value as a decimal.
pub open spec fn gamma_of(v: ValueView) -> Computed {
    decimal_gamma(to_decimal(v))
}

/// Logical negation: one for the zero of any kind, zero for all else.
pub open spec fn logically_negated(v: ValueView) -> ValueView {
    truth(is_zero(v))
}

/// Bitwise negation: the value as a bit sequence, with each of its bits
/// flipped.
pub open spec fn bitwise_negated(v: ValueView) -> Computed {
    match to_bitseq(v) {
        Ok(b) => Ok(
            ValueView::Bitseq(
                BitseqView { value: (pow2(b.len) - 1 - b.value) as nat, len: b.len },
            ),
        ),
        Err(m) => Err(ValueErrorView::Conversion(m)),
    }
}

/// The sine of the value, taken as an angle in degrees.
pub open spec fn sine_of(v: ValueView) -> Computed {
    decimal_result(sine_of_degrees(to_decimal(v)))
}

/// The binary operators of arithmetic.
#[derive(Debug, Copy, Clone, PartialEq, Eq, Structural)]
pub enum Arithmetic {
    Add,
    Sub,
    Mul,
    Div,
    Rem,
    Pow,
}

/// The result of an arithmetic operator on two integers.
pub open spec fn integer_arithmetic(op: Arithmetic, x: int, y: int) -> Computed {
    match op {
        Arithmetic::Add => integer_result(x + y),
        Arithmetic::Sub => integer_result(x - y),
        Arithmetic::Mul => integer_result(x * y),
        Arithmetic::Div => if y == 0 {
            Err(ValueErrorView::InvalidOperation(division_by_zero()))
        } else {
            integer_result(truncated_quotient(x, y))
        },
        Arithmetic::Rem => if y == 0 {
            Err(ValueErrorView::InvalidOperation(division_by_zero()))
        } else if !fits_integer(truncated_quotient(x, y)) {
            Err(ValueErrorView::InvalidOperation(integer_overflow()))
        } else {
            Ok(ValueView::Integer(truncated_remainder(x, y)))
        },
        Arithmetic::Pow => if y < 0 || y > u32::MAX {
            Err(ValueErrorView::InvalidOperation(bad_exponent()))
        } else {
            integer_result(power(x, y as nat))
        },
    }
}

/// The message for a remainder with a decimal operand.
pub open spec fn remainder_of_decimal() -> Seq<char> {
    "Remainder is defined for integers only"@
}

/// The result of an arithmetic operator on two decimals, as the outside
/// library computes and rounds it. There is no remainder of decimals.
pub open spec fn decimal_arithmetic(op: Arithmetic, x: DecimalView, y: DecimalView) -> Computed {
    match op {
        Arithmetic::Add => decimal_result(decimal_sum(x, y)),
        Arithmetic::Sub => decimal_result(decimal_difference(x, y)),
        Arithmetic::Mul => decimal_result(decimal_product(x, y)),
        Arithmetic::Div => decimal_result(decimal_quotient(x, y)),
        Arithmetic::Rem => Err(ValueErrorView::InvalidOperation(remainder_of_decimal())),
        Arithmetic::Pow => decimal_result(guarded_power(x, y)),
    }
}

/// The result of an arithmetic operator: on decimals where either operand is
/// one, else on integers, a bit sequence read as an unsigned number.
pub open spec fn arithmetic(op: Arithmetic, a: ValueView, b: ValueView) -> Computed {
    if a is Decimal || b is Decimal {
        decimal_arithmetic(op, to_decimal(a), to_decimal(b))
    } else {
        integer_arithmetic(op, whole(a), whole(b))
    }
}

/// The binary operators on bits.
#[derive(Debug, Copy, Clone, PartialEq, Eq, Structural)]
pub enum Bitwise {
    And,
    Or,
    Xor,
}

/// The result of a bitwise operator: both operands as bit sequences,
/// combined bit by bit in the wider of their widths.
pub open spec fn bitwise(op: Bitwise, a: ValueView, b: ValueView) -> Computed {
    match to_bitseq(a) {
        Err(m) => Err(ValueErrorView::Conversion(m)),
        Ok(x) => match to_bitseq(b) {
            Err(m) => Err(ValueErrorView::Conversion(m)),
            Ok(y) => Ok(
                ValueView::Bitseq(
                    match op {
                        Bitwise::And => bits_and(x, y),
                        Bitwise::Or => bits_or(x, y),
                        Bitwise::Xor => bits_xor(x, y),
                    },
                ),
            ),
        },
    }
}

/// The message for a shift by something that is no whole number from zero
/// on.
pub open spec fn bad_shift() -> Seq<char> {
    "The shift amount must be a non-negative integer"@
}

/// The result of a shift: the left operand as a bit sequence, its bits moved
/// by the right operand, a whole number from zero on, inside its width.
pub open spec fn shifted(left: bool, a: ValueView, b: ValueView) -> Computed {
    match to_bitseq(a) {
        Err(m) => Err(ValueErrorView::Conversion(m)),
        Ok(x) => match to_integer(b) {
            Ok(n) => if n >= 0 {
                Ok(
                    ValueView::Bitseq(
                        if left {
                            bits_shifted_left(x, n as nat)
                        } else {
                            bits_shifted_right(x, n as nat)
                        },
                    ),
                )
            } else {
                Err(ValueErrorView::InvalidOperation(bad_shift()))
            },
            Err(_) => Err(ValueErrorView::InvalidOperation(bad_shift())),
        },
    }
}

/// How `a` stands to `b`: -1 below, 0 level, 1 above. Decimals are ordered
/// by the outside library where either operand is one.
pub open spec fn ordering(a: ValueView, b: ValueView) -> int {
    if a is Decimal || b is Decimal {
        if decimal_less(to_decimal(a), to_decimal(b)) {
            -1
        } else if decimal_less(to_decimal(b), to_decimal(a)) {
            1
        } else {
            0
        }
    } else {
        if whole(a) < whole(b) {
            -1
        } else if whole(a) > whole(b) {
            1
        } else {
            0
        }
    }
}

impl Value {
    /// Whether the value is the zero of its kind.
    pub fn is_zero(&self) -> (b: bool)
        ensures
            b == is_zero(self@),
    {
        match self {
            Value::Bitseq(b) => b.is_zero(),
            Value::Integer(i) => i.is_zero(),
            Value::Decimal(d) => d.is_zero(),
        }
    }

    /// Unary `+`: the value itself.
    pub fn unary_pos(&self) -> (r: Value)
        ensures
            r@ == self@,
    {
        *self
    }

    /// Unary `-`: a bit sequence is read as an integer, then negated.
    pub fn unary_neg(&self) -> (r: Result<Value, ValueError>)
        ensures
            match r {
                Ok(v) => negated(self@) == Ok::<ValueView, ValueErrorView>(v@),
                Err(e) => negated(self@) == Err::<ValueView, ValueErrorView>(e@),
            },
    {
        match self {
            Value::Bitseq(b) => Value::whole_result(
                Integer::from_u128(b.inner_value()).checked_neg(),
                Ghost(-(b@.value as int)),
            ),
            Value::Integer(i) => Value::whole_result(i.checked_neg(), Ghost(-i@)),
            Value::Decimal(d) => Ok(Value::Decimal(d.neg())),
        }
    }

    /// The absolute value.
    pub fn abs(&self) -> (r: Result<Value, ValueError>)
        ensures
            match r {
                Ok(v) => absolute(self@) == Ok::<ValueView, ValueErrorView>(v@),
                Err(e) => absolute(self@) == Err::<ValueView, ValueErrorView>(e@),
            },
    {
        match self {
            Value::Bitseq(_) => Ok(*self),
            Value::Integer(i) => if i.is_negative() {
                Value::whole_result(i.checked_neg(), Ghost(-i@))
            } else {
                proof {
                    i.lemma_range();
                }
                Ok(*self)
            },
            Value::Decimal(d) => Ok(Value::Decimal(d.abs())),
        }
    }

    /// An integer result, where there is one.
    fn whole_result(x: Option<Integer>, Ghost(exact): Ghost<int>) -> (r: Result<Value, ValueError>)
        requires
            x is Some <==> fits_integer(exact),
            x matches Some(i) ==> i@ == exact,
        ensures
            match r {
                Ok(v) => integer_result(exact) == Ok::<ValueView, ValueErrorView>(v@),
                Err(e) => integer_result(exact) == Err::<ValueView, ValueErrorView>(e@),
            },
    {
        match x {
            Some(i) => Ok(Value::Integer(i)),
            None => Err(ValueError::invalid("Result exceeds size of Integer type")),
        }
    }

    /// A decimal result, where there is one.
    fn finite_result(x: Option<Decimal>) -> (r: Result<Value, ValueError>)
        ensures
            match r {
                Ok(v) => x matches Some(d) && v@ == ValueView::Decimal(d@),
                Err(e) => x is None && e@ == ValueErrorView::InvalidOperation(not_finite()),
            },
    {
        match x {
            Some(d) => Ok(Value::Decimal(d)),
            None => Err(ValueError::invalid("Result is not a finite Decimal")),
        }
    }

    /// The gamma function on a decimal.
    fn gamma_of_decimal(d: &Decimal) -> (r: Result<Value, ValueError>)
        ensures
            match r {
                Ok(v) => decimal_gamma(d@) == Ok::<ValueView, ValueErrorView>(v@),
                Err(e) => decimal_gamma(d@) == Err::<ValueView, ValueErrorView>(e@),
            },
    {
        match d.gamma() {
            Ok(g) => Ok(Value::Decimal(g)),
            Err(e) => Err(ValueError::InvalidOperation(e)),
        }
    }

    /// The factorial of an integer.
    fn factorial_of_integer(i: &Integer) -> (r: Result<Value, ValueError>)
        ensures
            match r {
                Ok(v) => integer_factorial(i@) == Ok::<ValueView, ValueErrorView>(v@),
                Err(e) => integer_factorial(i@) == Err::<ValueView, ValueErrorView>(e@),
            },
    {
        match i.factorial() {
            Ok(f) => Ok(Value::Integer(f)),
            Err(e) => Err(ValueError::InvalidOperation(e)),
        }
    }

    /// Postfix `!`: the factorial of an integer or of a bit sequence read as
    /// one; for a decimal `x`, the gamma function at `x + 1`.
    pub fn factorial(&self) -> (r: Result<Value, ValueError>)
        ensures
            match r {
                Ok(v) => factorial_of(self@) == Ok::<ValueView, ValueErrorView>(v@),
                Err(e) => factorial_of(self@) == Err::<ValueView, ValueErrorView>(e@),
            },
    {
        match self {
            Value::Bitseq(b) => Value::factorial_of_integer(&Integer::from_u128(b.inner_value())),
            Value::Integer(i) => Value::factorial_of_integer(i),
            Value::Decimal(d) => match d.add(&Decimal::one()) {
                Some(next) => Value::gamma_of_decimal(&next),
                None => Err(ValueError::invalid("Gamma of value is not a finite Decimal")),
            },
        }
    }

    /// The gamma function, taken on the value as a decimal.
    pub fn gamma(&self) -> (r: Result<Value, ValueError>)
        ensures
            match r {
                Ok(v) => gamma_of(self@) == Ok::<ValueView, ValueErrorView>(v@),
                Err(e) => gamma_of(self@) == Err::<ValueView, ValueErrorView>(e@),
            },
    {
        Value::gamma_of_decimal(&self.into_decimal())
    }

    /// Logical negation: one for the zero of any kind, zero for all else.
    pub fn logical_neg(&self) -> (r: Value)
        ensures
            r@ == logically_negated(self@),
    {
        Value::Integer(Integer::from_bool(self.is_zero()))
    }

    /// Bitwise negation: the value as a bit sequence, with each of its bits
    /// flipped.
    pub fn bitwise_neg(&self) -> (r: Result<Value, ValueError>)
        ensures
            match r {
                Ok(v) => bitwise_negated(self@) == Ok::<ValueView, ValueErrorView>(v@),
                Err(e) => bitwise_negated(self@) == Err::<ValueView, ValueErrorView>(e@),
            },
    {
        match self.try_into_bitseq() {
            Ok(b) => {
                let mut flipped = b;
                flipped.neg_mut();
                Ok(Value::Bitseq(flipped))
            },
            Err(e) => Err(ValueError::Conversion(e)),
        }
    }

    /// The sine of the value, taken as an angle in degrees.
    pub fn sin(&self) -> (r: Result<Value, ValueError>)
        ensures
            match r {
                Ok(v) => sine_of(self@) == Ok::<ValueView, ValueErrorView>(v@),
                Err(e) => sine_of(self@) == Err::<ValueView, ValueErrorView>(e@),
            },
    {
        Value::finite_result(self.into_decimal().sin())
    }

    /// The value as an integer, for a bit sequence or an integer.
    fn whole(&self) -> (i: Integer)
        requires
            !(self@ is Decimal),
        ensures
            i@ == whole(self@),
    {
        match self {
            Value::Bitseq(b) => Integer::from_u128(b.inner_value()),
            Value::Integer(i) => *i,
            Value::Decimal(_) => Integer::zero(),
        }
    }

    /// The result of the arithmetic operator `op` on `self` and `other`: on
    /// decimals where either operand is one, else on integers.
    pub fn arithmetic(&self, op: Arithmetic, other: &Value) -> (r: Result<Value, ValueError>)
        ensures
            match r {
                Ok(v) => arithmetic(op, self@, other@) == Ok::<ValueView, ValueErrorView>(v@),
                Err(e) => arithmetic(op, self@, other@) == Err::<ValueView, ValueErrorView>(e@),
            },
    {
        if matches!(self, Value::Decimal(_)) || matches!(other, Value::Decimal(_)) {
            let x = self.into_decimal();
            let y = other.into_decimal();
            match op {
                Arithmetic::Add => Value::finite_result(x.add(&y)),
                Arithmetic::Sub => Value::finite_result(x.sub(&y)),
                Arithmetic::Mul => Value::finite_result(x.mul(&y)),
                Arithmetic::Div => Value::finite_result(x.div(&y)),
                Arithmetic::Rem => Err(
                    ValueError::invalid("Remainder is defined for integers only"),
                ),
                Arithmetic::Pow => Value::finite_result(x.pow(&y)),
            }
        } else {
            let x = self.whole();
            let y = other.whole();
            match op {
                Arithmetic::Add => Value::whole_result(x.checked_add(&y), Ghost(x@ + y@)),
                Arithmetic::Sub => Value::whole_result(x.checked_sub(&y), Ghost(x@ - y@)),
                Arithmetic::Mul => Value::whole_result(x.checked_mul(&y), Ghost(x@ * y@)),
                Arithmetic::Div => if y.is_zero() {
                    Err(ValueError::invalid("Division by zero"))
                } else {
                    Value::whole_result(x.checked_div(&y), Ghost(truncated_quotient(x@, y@)))
                },
                Arithmetic::Rem => if y.is_zero() {
                    Err(ValueError::invalid("Division by zero"))
                } else {
                    match x.checked_rem(&y) {
                        Some(r) => Ok(Value::Integer(r)),
                        None => Err(ValueError::invalid("Result exceeds size of Integer type")),
                    }
                },
                Arithmetic::Pow => {
                    let exponent: u32 = match y.to_u128() {
                        Some(e) => if e > u32::MAX as u128 {
                            return Err(
                                ValueError::invalid(
                                    "Exponent of Integer power must be between 0 and 4294967295",
                                ),
                            );
                        } else {
                            e as u32
                        },
                        None => {
                            proof {
                                y.lemma_range();
                            }
                            return Err(
                                ValueError::invalid(
                                    "Exponent of Integer power must be between 0 and 4294967295",
                                ),
                            );
                        },
                    };
                    Value::whole_result(
                        x.checked_pow(exponent),
                        Ghost(power(x@, exponent as nat)),
                    )
                },
            }
        }
    }

    /// The result of the bitwise operator `op` on `self` and `other`, both
    /// as bit sequences.
    pub fn bitwise(&self, op: Bitwise, other: &Value) -> (r: Result<Value, ValueError>)
        ensures
            match r {
                Ok(v) => bitwise(op, self@, other@) == Ok::<ValueView, ValueErrorView>(v@),
                Err(e) => bitwise(op, self@, other@) == Err::<ValueView, ValueErrorView>(e@),
            },
    {
        let x = match self.try_into_bitseq() {
            Ok(x) => x,
            Err(e) => {
                return Err(ValueError::Conversion(e));
            },
        };
        let y = match other.try_into_bitseq() {
            Ok(y) => y,
            Err(e) => {
                return Err(ValueError::Conversion(e));
            },
        };
        Ok(
            Value::Bitseq(
                match op {
                    Bitwise::And => x.and(&y),
                    Bitwise::Or => x.or(&y),
                    Bitwise::Xor => x.xor(&y),
                },
            ),
        )
    }

    /// The bits of `self`, as a bit sequence, moved by `other` places inside
    /// its width: to the left where `left` says so, else to the right.
    pub fn shift(&self, left: bool, other: &Value) -> (r: Result<Value, ValueError>)
        ensures
            match r {
                Ok(v) => shifted(left, self@, other@) == Ok::<ValueView, ValueErrorView>(v@),
                Err(e) => shifted(left, self@, other@) == Err::<ValueView, ValueErrorView>(e@),
            },
    {
        let x = match self.try_into_bitseq() {
            Ok(x) => x,
            Err(e) => {
                return Err(ValueError::Conversion(e));
            },
        };
        let n = match other.try_into_integer() {
            Ok(n) => n,
            Err(_) => {
                return Err(
                    ValueError::invalid("The shift amount must be a non-negative integer"),
                );
            },
        };
        if n.is_negative() {
            return Err(ValueError::invalid("The shift amount must be a non-negative integer"));
        }
        let width = x.len();
        let places: usize = match n.to_u128() {
            Some(p) => if p < width as u128 {
                p as usize
            } else {
                width
            },
            None => width,
        };
        Ok(
            Value::Bitseq(
                if left {
                    x.shifted_left(places)
                } else {
                    x.shifted_right(places)
                },
            ),
        )
    }

    /// How `self` stands to `other`: -1 below, 0 level, 1 above.
    pub fn ordering(&self, other: &Value) -> (r: i8)
        ensures
            r == ordering(self@, other@),
    {
        if matches!(self, Value::Decimal(_)) || matches!(other, Value::Decimal(_)) {
            let x = self.into_decimal();
            let y = other.into_decimal();
            if x.less_than(&y) {
                -1
            } else if y.less_than(&x) {
                1
            } else {
                0
            }
        } else {
            let x = self.whole();
            let y = other.whole();
            if x.less_than(&y) {
                -1
            } else if y.less_than(&x) {
                1
            } else {
                0
            }
        }
    }
}

} // verus!
