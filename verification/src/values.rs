//! Values: the three kinds of number that the language computes with.
use vstd::prelude::*;
use vstd::arithmetic::power2::pow2;
use vstd::string::*;
use crate::bitseqs::{
    bit_width, lemma_bit_width_bounds, lemma_pow2_128, Bitseq, BitseqView, MAX_WIDTH,
};
use crate::decimals::{decimal_of, decimal_to_integer, Decimal, DecimalView};
use crate::errors::{ConversionError, ValueErrorView};
use crate::integers::Integer;

verus! {

/// The kind of a [`Value`].
#[derive(Debug, Copy, Clone, PartialEq, Eq, Structural)]
pub enum ValueType {
    Bitseq,
    Integer,
    Decimal,
}

impl ValueType {
    /// The name of the kind.
    pub open spec fn name(&self) -> Seq<char> {
        match self {
            ValueType::Bitseq => "Bitseq"@,
            ValueType::Integer => "Integer"@,
            ValueType::Decimal => "Decimal"@,
        }
    }

    /// The name of the kind, as text.
    pub fn as_str(&self) -> (s: &'static str)
        ensures
            s@ == self.name(),
    {
        match self {
            ValueType::Bitseq => "Bitseq",
            ValueType::Integer => "Integer",
            ValueType::Decimal => "Decimal",
        }
    }
}

/// A number: a bit sequence, an integer or a decimal.
#[derive(Clone, Copy, Debug)]
pub enum Value {
    Bitseq(Bitseq),
    Integer(Integer),
    Decimal(Decimal),
}

/// What a [`Value`] holds.
pub ghost enum ValueView {
    Bitseq(BitseqView),
    Integer(int),
    Decimal(DecimalView),
}

impl View for Value {
    type V = ValueView;

    open spec fn view(&self) -> ValueView {
        match self {
            Value::Bitseq(b) => ValueView::Bitseq(b@),
            Value::Integer(i) => ValueView::Integer(i@),
            Value::Decimal(d) => ValueView::Decimal(d@),
        }
    }
}

impl ValueView {
    /// The kind of the value.
    pub open spec fn type_(self) -> ValueType {
        match self {
            ValueView::Bitseq(_) => ValueType::Bitseq,
            ValueView::Integer(_) => ValueType::Integer,
            ValueView::Decimal(_) => ValueType::Decimal,
        }
    }

    /// A bit sequence is well formed; the other kinds always are.
    pub open spec fn wf(self) -> bool {
        self matches ValueView::Bitseq(b) ==> b.wf()
    }
}

/// The outcome of an operation on values.
pub type Computed = Result<ValueView, ValueErrorView>;

/// The message for an integer below zero that should become a bit sequence.
pub open spec fn negative_to_bitseq() -> Seq<char> {
    "Cannot convert negative Integer to Bitseq"@
}

/// The message for an integer of more than 127 bits that should become a bit
/// sequence.
pub open spec fn too_wide_for_bitseq() -> Seq<char> {
    "Cannot convert Integer that's too wide to Bitseq"@
}

/// The message for a decimal that is no integer and should become a bit
/// sequence.
pub open spec fn decimal_to_bitseq() -> Seq<char> {
    "Cannot convert Decimal to Bitseq that doesn't losslessly convert to Integer"@
}

/// The bit sequence that an integer converts to: the shortest that spells
/// it. An integer below zero or of more than 127 bits has none.
pub open spec fn integer_to_bitseq(i: int) -> Result<BitseqView, Seq<char>> {
    if i < 0 {
        Err(negative_to_bitseq())
    } else if i >= pow2(MAX_WIDTH as nat) {
        Err(too_wide_for_bitseq())
    } else {
        Ok(BitseqView { value: i as nat, len: bit_width(i as nat) })
    }
}

/// The integer that a value converts to: a bit sequence read as an unsigned
/// number, a decimal without fractional part.
pub open spec fn to_integer(v: ValueView) -> Result<int, Seq<char>> {
    match v {
        ValueView::Bitseq(b) => Ok(b.value as int),
        ValueView::Integer(i) => Ok(i),
        ValueView::Decimal(d) => decimal_to_integer(d),
    }
}

/// The bit sequence that a value converts to.
pub open spec fn to_bitseq(v: ValueView) -> Result<BitseqView, Seq<char>> {
    match v {
        ValueView::Bitseq(b) => Ok(b),
        ValueView::Integer(i) => integer_to_bitseq(i),
        ValueView::Decimal(d) => match decimal_to_integer(d) {
            Ok(i) => match integer_to_bitseq(i) {
                Ok(b) => Ok(b),
                Err(_) => Err(decimal_to_bitseq()),
            },
            Err(_) => Err(decimal_to_bitseq()),
        },
    }
}

/// The decimal that a value converts to. Every bit sequence and every integer
/// has one.
pub open spec fn to_decimal(v: ValueView) -> DecimalView {
    match v {
        ValueView::Bitseq(b) => decimal_of(false, b.value, 0),
        ValueView::Integer(i) => decimal_of(i < 0, vstd::math::abs(i), 0),
        ValueView::Decimal(d) => d,
    }
}

/// The value of kind `into` that `v` converts to without loss, or the
/// message of the error.
pub open spec fn converted(v: ValueView, into: ValueType) -> Result<ValueView, Seq<char>> {
    match into {
        ValueType::Bitseq => match to_bitseq(v) {
            Ok(b) => Ok(ValueView::Bitseq(b)),
            Err(e) => Err(e),
        },
        ValueType::Integer => match to_integer(v) {
            Ok(i) => Ok(ValueView::Integer(i)),
            Err(e) => Err(e),
        },
        ValueType::Decimal => Ok(ValueView::Decimal(to_decimal(v))),
    }
}

/// Converting an integer between 0 and `2^127 - 1` to a bit sequence and
/// back gives the integer again; no other integer converts to a bit
/// sequence.
pub proof fn law_integer_bitseq_round_trip(i: int)
    ensures
        0 <= i <= pow2(127) - 1 ==> (converted(ValueView::Integer(i), ValueType::Bitseq) matches Ok(
            b,
        ) && b.wf() && converted(b, ValueType::Integer) == Ok::<ValueView, Seq<char>>(
            ValueView::Integer(i),
        )),
        !(0 <= i <= pow2(127) - 1) ==> converted(ValueView::Integer(i), ValueType::Bitseq) is Err,
{
    if 0 <= i <= pow2(127) - 1 {
        lemma_bit_width_bounds(i as nat);
        if bit_width(i as nat) > 127 {
            vstd::arithmetic::power2::lemma_pow2_strictly_increases(
                127,
                (bit_width(i as nat) - 1) as nat,
            );
        }
    }
}

impl Bitseq {
    /// The shortest bit sequence that spells `i`: none for an integer below
    /// zero or of more than 127 bits.
    pub fn try_from_integer(i: &Integer) -> (r: Result<Bitseq, ConversionError>)
        ensures
            match r {
                Ok(b) => integer_to_bitseq(i@) == Ok::<BitseqView, Seq<char>>(b@),
                Err(e) => integer_to_bitseq(i@) == Err::<BitseqView, Seq<char>>(e@),
            },
    {
        proof {
            lemma_pow2_128();
        }
        if i.is_negative() {
            return Err(ConversionError::new("Cannot convert negative Integer to Bitseq"));
        }
        match i.to_u128() {
            Some(v) => match Bitseq::from_value(v) {
                Some(b) => Ok(b),
                None => Err(ConversionError::new("Cannot convert Integer that's too wide to Bitseq")),
            },
            None => Err(ConversionError::new("Cannot convert Integer that's too wide to Bitseq")),
        }
    }

    /// The shortest bit sequence that spells the decimal `d`: none where `d`
    /// is no integer from zero to `2^127 - 1`.
    pub fn try_from_decimal(d: &Decimal) -> (r: Result<Bitseq, ConversionError>)
        ensures
            match r {
                Ok(b) => to_bitseq(ValueView::Decimal(d@)) == Ok::<BitseqView, Seq<char>>(b@),
                Err(e) => to_bitseq(ValueView::Decimal(d@)) == Err::<BitseqView, Seq<char>>(e@),
            },
    {
        match d.to_integer() {
            Ok(i) => match Bitseq::try_from_integer(&i) {
                Ok(b) => Ok(b),
                Err(_) => Err(
                    ConversionError::new(
                        "Cannot convert Decimal to Bitseq that doesn't losslessly convert to Integer",
                    ),
                ),
            },
            Err(_) => Err(
                ConversionError::new(
                    "Cannot convert Decimal to Bitseq that doesn't losslessly convert to Integer",
                ),
            ),
        }
    }

    /// The bits read as an unsigned integer.
    pub fn to_integer(&self) -> (i: Integer)
        ensures
            i@ == self@.value,
    {
        Integer::from_u128(self.inner_value())
    }

    /// The bits read as an unsigned decimal.
    pub fn to_decimal(&self) -> (d: Decimal)
        ensures
            d@ == decimal_of(false, self@.value, 0),
    {
        Decimal::from_u128(self.inner_value())
    }
}

impl Value {
    /// The value that holds the integer `i`.
    pub fn from_integer(i: Integer) -> (v: Value)
        ensures
            v@ == ValueView::Integer(i@),
    {
        Value::Integer(i)
    }

    /// The value that holds the decimal `d`.
    pub fn from_decimal(d: Decimal) -> (v: Value)
        ensures
            v@ == ValueView::Decimal(d@),
    {
        Value::Decimal(d)
    }

    /// The value that holds the bit sequence `b`.
    pub fn from_bitseq(b: Bitseq) -> (v: Value)
        ensures
            v@ == ValueView::Bitseq(b@),
            v@.wf(),
    {
        b.well_formed();
        Value::Bitseq(b)
    }

    /// The kind of the value.
    pub fn type_(&self) -> (t: ValueType)
        ensures
            t == self@.type_(),
    {
        match self {
            Value::Bitseq(_) => ValueType::Bitseq,
            Value::Integer(_) => ValueType::Integer,
            Value::Decimal(_) => ValueType::Decimal,
        }
    }

    /// Every value is well formed.
    pub fn well_formed(&self)
        ensures
            self@.wf(),
    {
        match self {
            Value::Bitseq(b) => {
                b.well_formed();
            },
            _ => {},
        }
    }

    /// The value as an integer, where it is one.
    pub fn try_into_integer(&self) -> (r: Result<Integer, ConversionError>)
        ensures
            match r {
                Ok(i) => to_integer(self@) == Ok::<int, Seq<char>>(i@),
                Err(e) => to_integer(self@) == Err::<int, Seq<char>>(e@),
            },
    {
        match self {
            Value::Bitseq(b) => Ok(b.to_integer()),
            Value::Integer(i) => Ok(*i),
            Value::Decimal(d) => d.to_integer(),
        }
    }

    /// The value as a bit sequence, where it is one of up to 127 bits.
    pub fn try_into_bitseq(&self) -> (r: Result<Bitseq, ConversionError>)
        ensures
            match r {
                Ok(b) => to_bitseq(self@) == Ok::<BitseqView, Seq<char>>(b@),
                Err(e) => to_bitseq(self@) == Err::<BitseqView, Seq<char>>(e@),
            },
    {
        match self {
            Value::Bitseq(b) => Ok(*b),
            Value::Integer(i) => Bitseq::try_from_integer(i),
            Value::Decimal(d) => Bitseq::try_from_decimal(d),
        }
    }

    /// The value as a decimal.
    pub fn into_decimal(&self) -> (d: Decimal)
        ensures
            d@ == to_decimal(self@),
    {
        match self {
            Value::Bitseq(b) => b.to_decimal(),
            Value::Integer(i) => Decimal::from_integer(i),
            Value::Decimal(d) => *d,
        }
    }

    /// Turns the value into one of kind `into_type` that stands for the same
    /// number, or fails and leaves it as it is.
    pub fn try_mutate_into(&mut self, into_type: ValueType) -> (r: Result<(), ConversionError>)
        ensures
            match r {
                Ok(_) => converted(old(self)@, into_type) == Ok::<ValueView, Seq<char>>(
                    final(self)@,
                ),
                Err(e) => converted(old(self)@, into_type) == Err::<ValueView, Seq<char>>(e@)
                    && final(self)@ == old(self)@,
            },
    {
        match into_type {
            ValueType::Bitseq => match self.try_into_bitseq() {
                Ok(b) => {
                    *self = Value::Bitseq(b);
                    Ok(())
                },
                Err(e) => Err(e),
            },
            ValueType::Integer => match self.try_into_integer() {
                Ok(i) => {
                    *self = Value::Integer(i);
                    Ok(())
                },
                Err(e) => Err(e),
            },
            ValueType::Decimal => {
                *self = Value::Decimal(self.into_decimal());
                Ok(())
            },
        }
    }
}

} // verus!
