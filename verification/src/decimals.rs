//! Signed decimals with a coefficient of 512 bits.
use vstd::prelude::*;
use vstd::string::*;
use fastnum::decimal::{Context, RoundingMode, Sign};
use fastnum::{D512, U512};
use crate::errors::{ConversionError, InvalidOperationError};
use crate::integers::{
    all_digits, digits_value, fits_integer, integer_bound, lemma_eight_limbs,
    lemma_truncated_nonnegative, limbs_value, power, Integer,
};
use crate::text::{chars_of, decimal_text, string_of};

verus! {

/// A signed decimal number: a sign, an unsigned coefficient of 512 bits held
/// as eight 64-bit limbs, least significant first, and a scale. It stands for
/// the number `coefficient / 10^scale`, negated where the sign says so.
#[derive(Clone, Copy, Debug)]
pub struct Decimal {
    negative: bool,
    digits: [u64; 8],
    scale: i16,
}

/// What a [`Decimal`] holds.
pub ghost struct DecimalView {
    pub negative: bool,
    pub coefficient: nat,
    pub scale: int,
}

impl View for Decimal {
    type V = DecimalView;

    closed spec fn view(&self) -> DecimalView {
        DecimalView {
            negative: self.negative,
            coefficient: limbs_value(self.digits@),
            scale: self.scale as int,
        }
    }
}

/// The constants of the language.
#[derive(Debug, Copy, Clone, PartialEq, Eq, Structural)]
pub enum Constant {
    /// Euler's number.
    E,
    /// The ratio of a circle's circumference to its diameter.
    Pi,
    /// The ratio of a circle's circumference to its radius.
    Tau,
}

/// The decimal `d` without its sign.
pub open spec fn unsigned(d: DecimalView) -> DecimalView {
    DecimalView { negative: false, ..d }
}

/// Whether the outside library orders `d` strictly between `10^-k` and
/// `10^k`.
pub open spec fn within_powers_of_ten(d: DecimalView, k: int) -> bool {
    decimal_less(decimal_of(false, 1, k), d) && decimal_less(d, decimal_of(false, 1, -k))
}

/// Whether the power of base `a` and exponent `b` is taken: the base is not
/// zero, the exponent not below zero, and by their sizes the power stays
/// between `10^-20000` and `10^20000` either way.
pub open spec fn power_guard(a: DecimalView, b: DecimalView) -> bool {
    &&& decimal_less(decimal_of(false, 0, 0), unsigned(a))
    &&& !decimal_less(b, decimal_of(false, 0, 0))
    &&& {
        ||| within_powers_of_ten(unsigned(a), 1) && decimal_less(b, decimal_of(false, 20000, 0))
        ||| within_powers_of_ten(unsigned(a), 4) && decimal_less(b, decimal_of(false, 5000, 0))
        ||| within_powers_of_ten(unsigned(a), 1000) && decimal_less(b, decimal_of(false, 20, 0))
    }
}

/// Whether the sine of `a` radians is taken: `a` is less than seven either
/// way.
pub open spec fn sine_guard(a: DecimalView) -> bool {
    decimal_less(unsigned(a), decimal_of(false, 7, 0))
}

/// Whether the angle `a` in degrees is turned into radians: `a` is less than
/// a million either way.
pub open spec fn angle_guard(a: DecimalView) -> bool {
    decimal_less(unsigned(a), decimal_of(false, 1, -6))
}

/// The power of base `a` and exponent `b` where it is taken.
pub open spec fn guarded_power(a: DecimalView, b: DecimalView) -> Option<DecimalView> {
    if power_guard(a, b) {
        decimal_power(a, b)
    } else {
        None
    }
}

/// The longest text that is read as a decimal number, in characters.
pub const PLAIN_LIMIT: usize = 32767;

/// Whether `text` is read as a decimal number: it is made of decimal digits
/// and points, behind a sign or not, and is no longer than [`PLAIN_LIMIT`].
/// A text with an exponent part is none.
pub open spec fn is_plain_decimal(text: Seq<char>) -> bool {
    &&& text.len() <= PLAIN_LIMIT
    &&& forall|i: int|
        0 <= i < text.len() ==> {
            ||| '0' <= #[trigger] text[i] <= '9'
            ||| text[i] == '.'
            ||| (i == 0 && (text[i] == '+' || text[i] == '-'))
        }
}

/// `text` without its first `.`.
pub open spec fn without_point(text: Seq<char>) -> Seq<char> {
    let p = integer_part(text).len() as int;
    if p < text.len() {
        text.take(p) + text.skip(p + 1)
    } else {
        text
    }
}

/// The number of characters of `text` after its first `.`.
pub open spec fn fraction_length(text: Seq<char>) -> nat {
    let p = integer_part(text).len();
    if p < text.len() {
        (text.len() - p - 1) as nat
    } else {
        0
    }
}

/// The decimal that `text` stands for: behind a sign or not, decimal digits
/// with at most one point among them spell the coefficient, and the number
/// of digits behind the point is the scale. A text without a digit, with
/// another character or with a coefficient of `2^512` or more stands for
/// none.
pub open spec fn parsed_decimal(text: Seq<char>) -> Option<DecimalView> {
    let signed = text.len() > 0 && (text[0] == '-' || text[0] == '+');
    let body = if signed {
        text.skip(1)
    } else {
        text
    };
    let digits = without_point(body);
    if digits.len() == 0 || !all_digits(digits, 10) || digits_value(digits, 10) >= 2
        * integer_bound() {
        None
    } else {
        Some(
            decimal_of(
                text[0] == '-',
                digits_value(digits, 10) as nat,
                fraction_length(body) as int,
            ),
        )
    }
}

/// What is read from `text` as a decimal number: the decimal that it stands
/// for, for a text of digits and points of no more than [`PLAIN_LIMIT`]
/// characters; nothing for any other.
pub open spec fn guarded_parse(text: Seq<char>) -> Option<DecimalView> {
    if is_plain_decimal(text) {
        parsed_decimal(text)
    } else {
        None
    }
}

/// The coefficient of a constant: its first 154 digits.
pub open spec fn constant_coefficient(c: Constant) -> nat {
    match c {
        Constant::E => 2718281828459045235360287471352662497757247093699959574966967627724076630353547594571382178525166427427466391932003059921817413596629043572900334295260596nat,
        Constant::Pi => 3141592653589793238462643383279502884197169399375105820974944592307816406286208998628034825342117067982148086513282306647093844609550582231725359408128481nat,
        Constant::Tau => 6283185307179586476925286766559005768394338798750211641949889184615632812572417997256069650684234135964296173026564613294187689219101164463450718816256962nat,
    }
}

/// The decimal that stands for a constant: 154 digits of it, 153 of them
/// behind the point.
pub open spec fn constant_value(c: Constant) -> DecimalView {
    decimal_of(false, constant_coefficient(c), 153)
}

/// Whether the outside library orders `a` before `b`.
pub uninterp spec fn decimal_less(a: DecimalView, b: DecimalView) -> bool;

/// The sum of `a` and `b`, as the outside library computes and rounds it, or
/// `None` where it gives no finite number.
pub uninterp spec fn decimal_sum(a: DecimalView, b: DecimalView) -> Option<DecimalView>;

/// The difference of `a` and `b`, as the outside library computes and rounds
/// it, or `None` where it gives no finite number.
pub uninterp spec fn decimal_difference(a: DecimalView, b: DecimalView) -> Option<DecimalView>;

/// The product of `a` and `b`, as the outside library computes and rounds it,
/// or `None` where it gives no finite number.
pub uninterp spec fn decimal_product(a: DecimalView, b: DecimalView) -> Option<DecimalView>;

/// The quotient of `a` by `b`, as the outside library computes and rounds it,
/// or `None` where it gives no finite number.
pub uninterp spec fn decimal_quotient(a: DecimalView, b: DecimalView) -> Option<DecimalView>;

/// `a` to the power `b`, as the outside library computes and rounds it, or
/// `None` where it gives no finite number.
pub uninterp spec fn decimal_power(a: DecimalView, b: DecimalView) -> Option<DecimalView>;

/// The square root of `a`, as the outside library computes and rounds it, or
/// `None` where it gives no finite number.
pub uninterp spec fn decimal_square_root(a: DecimalView) -> Option<DecimalView>;

/// The sine of `a`, taken in radians, as the outside library computes and
/// rounds it, or `None` where it gives no finite number.
pub uninterp spec fn decimal_sine(a: DecimalView) -> Option<DecimalView>;

/// The angle `a`, given in degrees, in radians, as the outside library
/// computes and rounds it, or `None` where it gives no finite number.
pub uninterp spec fn decimal_radians(a: DecimalView) -> Option<DecimalView>;

/// The sum of `a` and `b`.
///
/// Trusted: `fastnum::D512::add`, in a context that rounds half up and has no
/// traps, so that it never panics. The result is a function of the two operands
/// alone.
#[verifier::external_body]
fn outside_add(a: &Decimal, b: &Decimal) -> (r: Option<Decimal>)
    ensures
        match r {
            Some(d) => decimal_sum(a@, b@) == Some(d@),
            None => decimal_sum(a@, b@) is None,
        },
{
    let x = D512::from_parts(U512::from_digits(a.digits), -(a.scale as i32),
        if a.negative { Sign::Minus } else { Sign::Plus }, Context::default().with_rounding_mode(RoundingMode::HalfUp).without_traps());
    let y = D512::from_parts(U512::from_digits(b.digits), -(b.scale as i32),
        if b.negative { Sign::Minus } else { Sign::Plus }, Context::default().with_rounding_mode(RoundingMode::HalfUp).without_traps());
    let z = x.add(y);
    if z.is_finite() {
        Some(Decimal {
            negative: z.is_sign_negative(), digits: *z.digits().digits(),
            scale: z.fractional_digits_count() })
    } else {
        None
    }
}

/// The difference of `a` and `b`.
///
/// Trusted: `fastnum::D512::sub`, in a context that rounds half up and has no
/// traps, so that it never panics. The result is a function of the two operands
/// alone.
#[verifier::external_body]
fn outside_sub(a: &Decimal, b: &Decimal) -> (r: Option<Decimal>)
    ensures
        match r {
            Some(d) => decimal_difference(a@, b@) == Some(d@),
            None => decimal_difference(a@, b@) is None,
        },
{
    let x = D512::from_parts(U512::from_digits(a.digits), -(a.scale as i32),
        if a.negative { Sign::Minus } else { Sign::Plus }, Context::default().with_rounding_mode(RoundingMode::HalfUp).without_traps());
    let y = D512::from_parts(U512::from_digits(b.digits), -(b.scale as i32),
        if b.negative { Sign::Minus } else { Sign::Plus }, Context::default().with_rounding_mode(RoundingMode::HalfUp).without_traps());
    let z = x.sub(y);
    if z.is_finite() {
        Some(Decimal {
            negative: z.is_sign_negative(), digits: *z.digits().digits(),
            scale: z.fractional_digits_count() })
    } else {
        None
    }
}

/// The product of `a` and `b`.
///
/// Trusted: `fastnum::D512::mul`, in a context that rounds half up and has no
/// traps, so that it never panics. The result is a function of the two operands
/// alone.
#[verifier::external_body]
fn outside_mul(a: &Decimal, b: &Decimal) -> (r: Option<Decimal>)
    ensures
        match r {
            Some(d) => decimal_product(a@, b@) == Some(d@),
            None => decimal_product(a@, b@) is None,
        },
{
    let x = D512::from_parts(U512::from_digits(a.digits), -(a.scale as i32),
        if a.negative { Sign::Minus } else { Sign::Plus }, Context::default().with_rounding_mode(RoundingMode::HalfUp).without_traps());
    let y = D512::from_parts(U512::from_digits(b.digits), -(b.scale as i32),
        if b.negative { Sign::Minus } else { Sign::Plus }, Context::default().with_rounding_mode(RoundingMode::HalfUp).without_traps());
    let z = x.mul(y);
    if z.is_finite() {
        Some(Decimal {
            negative: z.is_sign_negative(), digits: *z.digits().digits(),
            scale: z.fractional_digits_count() })
    } else {
        None
    }
}

/// The quotient of `a` by `b`.
///
/// Trusted: `fastnum::D512::div`, in a context that rounds half up and has no
/// traps, so that it never panics. The result is a function of the two operands
/// alone.
#[verifier::external_body]
fn outside_div(a: &Decimal, b: &Decimal) -> (r: Option<Decimal>)
    ensures
        match r {
            Some(d) => decimal_quotient(a@, b@) == Some(d@),
            None => decimal_quotient(a@, b@) is None,
        },
{
    let x = D512::from_parts(U512::from_digits(a.digits), -(a.scale as i32),
        if a.negative { Sign::Minus } else { Sign::Plus }, Context::default().with_rounding_mode(RoundingMode::HalfUp).without_traps());
    let y = D512::from_parts(U512::from_digits(b.digits), -(b.scale as i32),
        if b.negative { Sign::Minus } else { Sign::Plus }, Context::default().with_rounding_mode(RoundingMode::HalfUp).without_traps());
    let z = x.div(y);
    if z.is_finite() {
        Some(Decimal {
            negative: z.is_sign_negative(), digits: *z.digits().digits(),
            scale: z.fractional_digits_count() })
    } else {
        None
    }
}

/// `a` to the power `b`.
///
/// Trusted: `fastnum::D512::pow`. The result is a function of the two
/// operands alone. The outside function works with constants that trap
/// overflow, division by zero and invalid operations, and panics on a trap
/// where it is built with debug assertions; it meets none of them for a base
/// other than zero and an exponent not below zero whose power stays far
/// inside the range of the decimals, which is what the guard asks.
#[verifier::external_body]
fn outside_pow(a: &Decimal, b: &Decimal) -> (r: Option<Decimal>)
    requires
        power_guard(a@, b@),
    ensures
        match r {
            Some(d) => decimal_power(a@, b@) == Some(d@),
            None => decimal_power(a@, b@) is None,
        },
{
    let x = D512::from_parts(U512::from_digits(a.digits), -(a.scale as i32),
        if a.negative { Sign::Minus } else { Sign::Plus }, Context::default().with_rounding_mode(RoundingMode::HalfUp).without_traps());
    let y = D512::from_parts(U512::from_digits(b.digits), -(b.scale as i32),
        if b.negative { Sign::Minus } else { Sign::Plus }, Context::default().with_rounding_mode(RoundingMode::HalfUp).without_traps());
    let z = x.pow(y);
    if z.is_finite() {
        Some(Decimal {
            negative: z.is_sign_negative(), digits: *z.digits().digits(),
            scale: z.fractional_digits_count() })
    } else {
        None
    }
}

/// The square root of `a`.
///
/// Trusted: `fastnum::D512::sqrt`, in a context that rounds half up and has no
/// traps, so that it never panics. The result is a function of the operand alone.
#[verifier::external_body]
fn outside_sqrt(a: &Decimal) -> (r: Option<Decimal>)
    ensures
        match r {
            Some(d) => decimal_square_root(a@) == Some(d@),
            None => decimal_square_root(a@) is None,
        },
{
    let x = D512::from_parts(U512::from_digits(a.digits), -(a.scale as i32),
        if a.negative { Sign::Minus } else { Sign::Plus }, Context::default().with_rounding_mode(RoundingMode::HalfUp).without_traps());
    let z = x.sqrt();
    if z.is_finite() {
        Some(Decimal {
            negative: z.is_sign_negative(), digits: *z.digits().digits(),
            scale: z.fractional_digits_count() })
    } else {
        None
    }
}

/// The sine of `a`, taken in radians.
///
/// Trusted: `fastnum::D512::sin`. The result is a function of the operand
/// alone. The outside function reduces its argument by full turns, which it
/// can do where the argument, scaled as its constant for a full turn is,
/// still fits the coefficient; the guard asks for an argument of less than
/// seven radians either way.
#[verifier::external_body]
fn outside_sin(a: &Decimal) -> (r: Option<Decimal>)
    requires
        sine_guard(a@),
    ensures
        match r {
            Some(d) => decimal_sine(a@) == Some(d@),
            None => decimal_sine(a@) is None,
        },
{
    let x = D512::from_parts(U512::from_digits(a.digits), -(a.scale as i32),
        if a.negative { Sign::Minus } else { Sign::Plus }, Context::default().with_rounding_mode(RoundingMode::HalfUp).without_traps());
    let z = x.sin();
    if z.is_finite() {
        Some(Decimal {
            negative: z.is_sign_negative(), digits: *z.digits().digits(),
            scale: z.fractional_digits_count() })
    } else {
        None
    }
}

/// The angle `a`, given in degrees, in radians.
///
/// Trusted: `fastnum::D512::to_radians`. The result is a function of the
/// operand alone. The outside function multiplies by a constant that traps
/// overflow, and panics on a trap where it is built with debug assertions;
/// the guard asks for an angle of less than a million degrees either way.
#[verifier::external_body]
fn outside_to_radians(a: &Decimal) -> (r: Option<Decimal>)
    requires
        angle_guard(a@),
    ensures
        match r {
            Some(d) => decimal_radians(a@) == Some(d@),
            None => decimal_radians(a@) is None,
        },
{
    let x = D512::from_parts(U512::from_digits(a.digits), -(a.scale as i32),
        if a.negative { Sign::Minus } else { Sign::Plus }, Context::default().with_rounding_mode(RoundingMode::HalfUp).without_traps());
    let z = x.to_radians();
    if z.is_finite() {
        Some(Decimal {
            negative: z.is_sign_negative(), digits: *z.digits().digits(),
            scale: z.fractional_digits_count() })
    } else {
        None
    }
}

/// Reads `text` as a decimal number.
///
/// Trusted: `fastnum::D512::from_str`, in a context that rounds half up and
/// has no traps. For a text of a sign, digits and points it takes the
/// digits as the coefficient and the number of digits behind the point as
/// the scale, and gives an error for a text without a digit, for a second
/// point and for a coefficient beyond 512 bits. With an exponent part, or
/// with more digits behind the point than a scale can count, it does more,
/// and can overflow in counting; the guard leaves such texts out.
#[verifier::external_body]
fn outside_parse(text: &str) -> (r: Option<Decimal>)
    requires
        is_plain_decimal(text@),
    ensures
        match r {
            Some(d) => parsed_decimal(text@) == Some(d@),
            None => parsed_decimal(text@) is None,
        },
{
    match D512::from_str(text, Context::default().with_rounding_mode(RoundingMode::HalfUp).without_traps()) {
        Ok(z) => if z.is_finite() {
            Some(Decimal {
            negative: z.is_sign_negative(), digits: *z.digits().digits(),
            scale: z.fractional_digits_count() })
        } else {
            None
        },
        Err(_) => None,
    }
}

/// Writes the coefficient `digits` in decimal digits.
///
/// Trusted: the `Display` of `fastnum::U512`, which writes an unsigned
/// integer in decimal digits without leading zeros.
#[verifier::external_body]
fn coefficient_text(digits: &[u64; 8]) -> (s: String)
    ensures
        s@ == decimal_text(limbs_value(digits@)),
{
    U512::from_digits(*digits).to_string()
}

/// Whether the outside library orders `a` before `b`.
///
/// Trusted: `fastnum::D512::lt`. The result is a function of the two
/// operands alone.
#[verifier::external_body]
fn outside_less(a: &Decimal, b: &Decimal) -> (r: bool)
    ensures
        r == decimal_less(a@, b@),
{
    let x = D512::from_parts(U512::from_digits(a.digits), -(a.scale as i32),
        if a.negative { Sign::Minus } else { Sign::Plus }, Context::default().with_rounding_mode(RoundingMode::HalfUp).without_traps());
    let y = D512::from_parts(U512::from_digits(b.digits), -(b.scale as i32),
        if b.negative { Sign::Minus } else { Sign::Plus }, Context::default().with_rounding_mode(RoundingMode::HalfUp).without_traps());
    x.lt(&y)
}


/// `n` zeros.
pub open spec fn zeros(n: nat) -> Seq<char> {
    Seq::new(n, |i: int| '0')
}

/// The digits of a decimal with the point in its place, without a sign: the
/// coefficient with zeros behind it for a scale below zero, else the
/// coefficient with the point before its last `scale` digits, behind a zero
/// and the zeros that it lacks where it is not longer than that.
pub open spec fn plain_digits(coefficient: nat, scale: int) -> Seq<char> {
    let c = decimal_text(coefficient);
    if scale <= 0 {
        c + zeros((-scale) as nat)
    } else if c.len() > scale {
        c.take(c.len() - scale) + seq!['.'] + c.skip(c.len() - scale)
    } else {
        seq!['0', '.'] + zeros((scale - c.len()) as nat) + c
    }
}

/// The text of a decimal before its fractional part is trimmed: a minus sign
/// where it carries one, then its digits with the point in its place.
pub open spec fn plain_text(d: DecimalView) -> Seq<char> {
    if d.negative {
        seq!['-'] + plain_digits(d.coefficient, d.scale)
    } else {
        plain_digits(d.coefficient, d.scale)
    }
}

/// The text of a decimal: its digits with the point in its place, one
/// fractional digit at least and no zeros after its last other one.
pub open spec fn decimal_rendering(d: DecimalView) -> Seq<char> {
    trimmed_fraction(plain_text(d))
}

/// Appends `n` zeros to `v`.
fn push_zeros(v: &mut Vec<char>, n: usize)
    ensures
        final(v)@ == old(v)@ + zeros(n as nat),
{
    let mut i: usize = 0;
    assert(v@ =~= old(v)@ + zeros(0));
    while i < n
        invariant
            i <= n,
            v@ == old(v)@ + zeros(i as nat),
        decreases n - i,
    {
        v.push('0');
        i += 1;
        assert(v@ =~= old(v)@ + zeros(i as nat));
    }
}

/// Appends the characters of `chars` from index `from` up to index `to`.
fn push_range(v: &mut Vec<char>, chars: &Vec<char>, from: usize, to: usize)
    requires
        from <= to <= chars.len(),
    ensures
        final(v)@ == old(v)@ + chars@.subrange(from as int, to as int),
{
    let mut i: usize = from;
    assert(v@ =~= old(v)@ + chars@.subrange(from as int, i as int));
    while i < to
        invariant
            from <= i <= to <= chars.len(),
            v@ == old(v)@ + chars@.subrange(from as int, i as int),
        decreases to - i,
    {
        v.push(chars[i]);
        i += 1;
        assert(v@ =~= old(v)@ + chars@.subrange(from as int, i as int));
    }
}

/// The text before the first `.` of `text`, or all of it where there is
/// none.
pub open spec fn integer_part(text: Seq<char>) -> Seq<char>
    decreases text.len(),
{
    if text.len() == 0 || text[0] == '.' {
        Seq::empty()
    } else {
        seq![text[0]] + integer_part(text.drop_first())
    }
}

/// `text` without the zeros at its end.
pub open spec fn without_trailing_zeros(text: Seq<char>) -> Seq<char>
    decreases text.len(),
{
    if text.len() > 0 && text.last() == '0' {
        without_trailing_zeros(text.drop_last())
    } else {
        text
    }
}

/// `text` with the zeros at the end of its fractional part taken off, but
/// with one fractional digit at least: where no digit is left, or `text` has
/// no `.`, the fractional part is `.0`.
pub open spec fn trimmed_fraction(text: Seq<char>) -> Seq<char> {
    let whole = integer_part(text);
    if whole.len() == text.len() {
        text + seq!['.', '0']
    } else {
        let fraction = without_trailing_zeros(text.skip(whole.len() as int + 1));
        if fraction.len() == 0 {
            whole + seq!['.', '0']
        } else {
            whole + seq!['.'] + fraction
        }
    }
}

pub proof fn lemma_integer_part(text: Seq<char>, n: int)
    requires
        0 <= n <= text.len(),
        forall|k: int| 0 <= k < n ==> text[k] != '.',
        n == text.len() || text[n] == '.',
    ensures
        integer_part(text) == text.take(n),
    decreases n,
{
    if n == 0 {
        assert(text.take(0) =~= Seq::<char>::empty());
    } else {
        lemma_integer_part(text.drop_first(), n - 1);
        assert(text.take(n) =~= seq![text[0]] + text.drop_first().take(n - 1));
    }
}

/// Trims the fractional part of a rendered number.
pub fn trim_fraction(text: &Vec<char>) -> (r: Vec<char>)
    ensures
        r@ == trimmed_fraction(text@),
{
    let n = text.len();
    let mut p: usize = 0;
    while p < n && text[p] != '.'
        invariant
            p <= n,
            n == text.len(),
            forall|k: int| 0 <= k < p ==> text@[k] != '.',
        decreases n - p,
    {
        p += 1;
    }
    proof {
        lemma_integer_part(text@, p as int);
    }
    let mut r: Vec<char> = Vec::new();
    let mut i: usize = 0;
    while i < p
        invariant
            i <= p <= n,
            n == text.len(),
            r@ == text@.take(i as int),
        decreases p - i,
    {
        r.push(text[i]);
        i += 1;
        assert(r@ =~= text@.take(i as int));
    }
    r.push('.');
    if p == n {
        r.push('0');
        assert(text@.take(n as int) =~= text@);
        assert(r@ =~= text@ + seq!['.', '0']);
        return r;
    }
    let ghost fraction = text@.skip(p + 1);
    let mut end: usize = n;
    assert(fraction.take(end - p - 1) =~= fraction);
    while end > p + 1 && text[end - 1] == '0'
        invariant
            p + 1 <= end <= n,
            n == text.len(),
            fraction == text@.skip(p + 1),
            without_trailing_zeros(fraction) == without_trailing_zeros(
                fraction.take(end - p - 1),
            ),
        decreases end,
    {
        proof {
            let t = fraction.take(end - p - 1);
            assert(t.last() == text@[end - 1]);
            assert(t.drop_last() =~= fraction.take(end - p - 2));
        }
        end -= 1;
    }
    proof {
        let t = fraction.take(end - p - 1);
        if end > p + 1 {
            assert(t.last() == text@[end - 1]);
        }
        assert(without_trailing_zeros(t) == t);
    }
    if end == p + 1 {
        r.push('0');
        assert(r@ =~= text@.take(p as int) + seq!['.', '0']);
        return r;
    }
    let mut j: usize = p + 1;
    assert(r@ =~= text@.take(p as int) + seq!['.'] + fraction.take(0));
    while j < end
        invariant
            p + 1 <= j <= end <= n,
            n == text.len(),
            fraction == text@.skip(p + 1),
            r@ == text@.take(p as int) + seq!['.'] + fraction.take(j - p - 1),
        decreases end - j,
    {
        r.push(text[j]);
        j += 1;
        assert(r@ =~= text@.take(p as int) + seq!['.'] + fraction.take(j - p - 1));
    }
    r
}

/// The number that a decimal without a fractional part stands for, or
/// `None` where it has one.
pub open spec fn integral_value(d: DecimalView) -> Option<int> {
    let magnitude: Option<int> = if d.scale <= 0 {
        Some(d.coefficient * power(10, (-d.scale) as nat))
    } else if d.coefficient as int % power(10, d.scale as nat) == 0 {
        Some(d.coefficient as int / power(10, d.scale as nat))
    } else {
        None
    };
    match magnitude {
        Some(m) => Some(
            if d.negative {
                -m
            } else {
                m
            },
        ),
        None => None,
    }
}

/// The message for a decimal with a fractional part.
pub open spec fn has_fraction_message() -> Seq<char> {
    "Cannot convert Decimal with a fractional part to Integer"@
}

/// The message for a decimal beyond the integers.
pub open spec fn too_large_message() -> Seq<char> {
    "Decimal too large to convert to Integer"@
}

/// The integer that a decimal converts to, or the message of the error: a
/// coefficient of `2^511` or more is too large, a fractional part is refused,
/// and so is a number that 512 bits in two's complement cannot hold.
pub open spec fn decimal_to_integer(d: DecimalView) -> Result<int, Seq<char>> {
    if d.coefficient >= integer_bound() {
        Err(too_large_message())
    } else {
        match integral_value(d) {
            None => Err(has_fraction_message()),
            Some(v) => if fits_integer(v) {
                Ok(v)
            } else {
                Err(too_large_message())
            },
        }
    }
}

/// The decimal of coefficient `coefficient` and scale `scale`, negated where
/// `negative` says so.
pub open spec fn decimal_of(negative: bool, coefficient: nat, scale: int) -> DecimalView {
    DecimalView { negative, coefficient, scale }
}

/// Applies `f` where both operands are there.
pub open spec fn both(
    a: Option<DecimalView>,
    b: Option<DecimalView>,
    f: spec_fn(DecimalView, DecimalView) -> Option<DecimalView>,
) -> Option<DecimalView> {
    match (a, b) {
        (Some(x), Some(y)) => f(x, y),
        _ => None,
    }
}

/// Applies `f` where the operand is there.
pub open spec fn one_of(a: Option<DecimalView>, f: spec_fn(DecimalView) -> Option<DecimalView>)
    -> Option<DecimalView> {
    match a {
        Some(x) => f(x),
        None => None,
    }
}

/// The largest argument for which the gamma function is taken.
pub open spec fn max_gamma() -> DecimalView {
    decimal_of(false, 9313, 0)
}

/// The approximation of the gamma function at `x` by Nemes' form of the
/// Stirling-De Moivre formula,
/// `(x / e)^x * sqrt(tau / x) * (1 + 1 / (12 x^2 - 1/10))^x`,
/// each step computed and rounded by the outside library. The first power is
/// taken as the square of the power with half the exponent.
pub open spec fn gamma_approximation(x: DecimalView) -> Option<DecimalView> {
    let e = constant_value(Constant::E);
    let tau = constant_value(Constant::Tau);
    let one = decimal_of(false, 1, 0);
    let twelve = decimal_of(false, 12, 0);
    let tenth = decimal_of(false, 1, 1);
    let half = decimal_of(false, 5, 1);
    let root = both(
        decimal_quotient(x, e),
        decimal_product(x, half),
        |b: DecimalView, h: DecimalView| guarded_power(b, h),
    );
    let first = one_of(root, |r: DecimalView| decimal_product(r, r));
    let second = one_of(decimal_quotient(tau, x), |q: DecimalView| decimal_square_root(q));
    let twelvefold = one_of(decimal_product(x, x), |s: DecimalView| decimal_product(twelve, s));
    let denominator = one_of(twelvefold, |t: DecimalView| decimal_difference(t, tenth));
    let correction = one_of(denominator, |d: DecimalView| decimal_quotient(one, d));
    let base = one_of(correction, |c: DecimalView| decimal_sum(one, c));
    let third = one_of(base, |b: DecimalView| guarded_power(b, x));
    let product = both(first, second, |a: DecimalView, b: DecimalView| decimal_product(a, b));
    both(product, third, |a: DecimalView, b: DecimalView| decimal_product(a, b))
}

/// The message for the gamma function at or below zero.
pub open spec fn gamma_undefined() -> Seq<char> {
    "Gamma undefined for values <= 0.0"@
}

/// The message for the gamma function beyond its largest argument.
pub open spec fn gamma_too_large() -> Seq<char> {
    "Gamma of value > 9313.0 exceeds size of Decimal type"@
}

/// The message for a gamma function that the decimals cannot hold.
pub open spec fn gamma_not_finite() -> Seq<char> {
    "Gamma of value is not a finite Decimal"@
}

/// What the gamma function gives at `x`: an error at or below zero and above
/// 9313, else the approximation.
pub open spec fn gamma_outcome(x: DecimalView) -> Result<DecimalView, Seq<char>> {
    if x.negative || x.coefficient == 0 {
        Err(gamma_undefined())
    } else if decimal_less(max_gamma(), x) {
        Err(gamma_too_large())
    } else {
        match gamma_approximation(x) {
            Some(g) => Ok(g),
            None => Err(gamma_not_finite()),
        }
    }
}

/// A full circle in degrees.
pub open spec fn full_circle() -> DecimalView {
    decimal_of(false, 360, 0)
}

/// A full circle backwards, in degrees.
pub open spec fn full_circle_back() -> DecimalView {
    decimal_of(true, 360, 0)
}

/// The angle `d`, in degrees, with full circles taken off as long as it is
/// more than one, and added as long as it is less than one backwards, at
/// most `fuel` times in all; `None` where that is not enough or a step gives
/// no finite number.
pub open spec fn reduced_degrees(d: DecimalView, fuel: nat) -> Option<DecimalView>
    decreases fuel,
{
    if decimal_less(full_circle(), d) {
        if fuel == 0 {
            None
        } else {
            match decimal_difference(d, full_circle()) {
                Some(less) => reduced_degrees(less, (fuel - 1) as nat),
                None => None,
            }
        }
    } else if decimal_less(d, full_circle_back()) {
        if fuel == 0 {
            None
        } else {
            match decimal_sum(d, full_circle()) {
                Some(more) => reduced_degrees(more, (fuel - 1) as nat),
                None => None,
            }
        }
    } else {
        Some(d)
    }
}

/// The angle `d`, in degrees, in radians, where it is less than a million
/// degrees either way.
pub open spec fn guarded_radians(d: DecimalView) -> Option<DecimalView> {
    if angle_guard(d) {
        decimal_radians(d)
    } else {
        None
    }
}

/// The sine of `x` radians, where `x` is less than seven either way.
pub open spec fn guarded_sine(x: DecimalView) -> Option<DecimalView> {
    if sine_guard(x) {
        decimal_sine(x)
    } else {
        None
    }
}

/// The sine of the angle `d`, given in degrees, of less than a million
/// degrees either way: the angle is brought to no more than a full circle
/// either way, turned into radians, and its sine taken.
pub open spec fn sine_of_degrees(d: DecimalView) -> Option<DecimalView> {
    if angle_guard(d) {
        one_of(
            one_of(reduced_degrees(d, u64::MAX as nat), |r: DecimalView| guarded_radians(r)),
            |x: DecimalView| guarded_sine(x),
        )
    } else {
        None
    }
}

proof fn lemma_power_of_ten_positive(n: nat)
    ensures
        power(10, n) >= 1,
    decreases n,
{
    if n > 0 {
        lemma_power_of_ten_positive((n - 1) as nat);
    }
}

impl Decimal {
    /// The decimal of coefficient `coefficient` and scale `scale`, negated
    /// where `negative` says so.
    pub fn from_parts(negative: bool, coefficient: u64, scale: i16) -> (d: Decimal)
        ensures
            d@ == decimal_of(negative, coefficient as nat, scale as int),
    {
        let d = Decimal { negative, digits: [coefficient, 0, 0, 0, 0, 0, 0, 0], scale };
        proof {
            lemma_eight_limbs(d.digits@);
        }
        d
    }

    /// The decimal zero.
    pub fn zero() -> (d: Decimal)
        ensures
            d@ == decimal_of(false, 0, 0),
    {
        Decimal::from_parts(false, 0, 0)
    }

    /// The decimal one.
    pub fn one() -> (d: Decimal)
        ensures
            d@ == decimal_of(false, 1, 0),
    {
        Decimal::from_parts(false, 1, 0)
    }

    /// The decimal that stands for `value`.
    pub fn from_u128(value: u128) -> (d: Decimal)
        ensures
            d@ == decimal_of(false, value as nat, 0),
    {
        Decimal::from_integer(&Integer::from_u128(value))
    }

    /// The decimal that stands for `i`.
    pub fn from_integer(i: &Integer) -> (d: Decimal)
        ensures
            d@ == decimal_of(i@ < 0, vstd::math::abs(i@), 0),
    {
        Decimal { negative: i.is_negative(), digits: i.magnitude(), scale: 0 }
    }

    /// The decimal that stands for the constant `c`: its digits are fixed
    /// here, so that they are the same in every build, whatever rounding the
    /// decimal library was built with.
    pub fn constant(c: Constant) -> (d: Decimal)
        ensures
            d@ == constant_value(c),
    {
        let digits: [u64; 8] = match c {
            Constant::E => [
                    262871686885088692,
                    12360975281409958707,
                    12958780126700051486,
                    5897673127314591820,
                    14452772517537330602,
                    1324307017112676757,
                    2606870383461894036,
                    3739869296443146171,
                ],
            Constant::Pi => [
                    4644004099246825953,
                    17107615481259233293,
                    1898278021261806467,
                    945276883163475391,
                    8179438491084415658,
                    4363544726090294882,
                    5435910746832050795,
                    4322269230542676302,
                ],
            Constant::Tau => [
                    9288008198493651906,
                    15768486888808914970,
                    3796556042523612935,
                    1890553766326950782,
                    16358876982168831316,
                    8727089452180589764,
                    10871821493664101590,
                    8644538461085352604,
                ],
        };
        let d = Decimal { negative: false, digits, scale: 153 };
        proof {
            lemma_eight_limbs(d.digits@);
        }
        d
    }

    /// The parts of the decimal: whether it carries a minus sign, the limbs
    /// of its coefficient, the least significant 64 bits first, and its
    /// scale.
    pub fn inner_value(self) -> (parts: (bool, [u64; 8], i16))
        ensures
            self@ == decimal_of(parts.0, limbs_value(parts.1@), parts.2 as int),
    {
        (self.negative, self.digits, self.scale)
    }

    /// Whether the decimal stands for zero.
    pub fn is_zero(&self) -> (b: bool)
        ensures
            b == (self@.coefficient == 0),
    {
        proof {
            lemma_eight_limbs(self.digits@);
        }
        self.digits[0] == 0 && self.digits[1] == 0 && self.digits[2] == 0 && self.digits[3] == 0
            && self.digits[4] == 0 && self.digits[5] == 0 && self.digits[6] == 0
            && self.digits[7] == 0
    }

    /// Whether the decimal carries a minus sign.
    pub fn is_sign_negative(&self) -> (b: bool)
        ensures
            b == self@.negative,
    {
        self.negative
    }

    /// The decimal with its sign turned.
    pub fn neg(&self) -> (d: Decimal)
        ensures
            d@ == (DecimalView { negative: !self@.negative, ..self@ }),
    {
        Decimal { negative: !self.negative, digits: self.digits, scale: self.scale }
    }

    /// The decimal without its sign.
    pub fn abs(&self) -> (d: Decimal)
        ensures
            d@ == (DecimalView { negative: false, ..self@ }),
    {
        Decimal { negative: false, digits: self.digits, scale: self.scale }
    }

    /// The sum with `other`, rounded by the outside library.
    pub fn add(&self, other: &Decimal) -> (r: Option<Decimal>)
        ensures
            match r {
                Some(d) => decimal_sum(self@, other@) == Some(d@),
                None => decimal_sum(self@, other@) is None,
            },
    {
        outside_add(self, other)
    }

    /// The difference with `other`, rounded by the outside library.
    pub fn sub(&self, other: &Decimal) -> (r: Option<Decimal>)
        ensures
            match r {
                Some(d) => decimal_difference(self@, other@) == Some(d@),
                None => decimal_difference(self@, other@) is None,
            },
    {
        outside_sub(self, other)
    }

    /// The product with `other`, rounded by the outside library.
    pub fn mul(&self, other: &Decimal) -> (r: Option<Decimal>)
        ensures
            match r {
                Some(d) => decimal_product(self@, other@) == Some(d@),
                None => decimal_product(self@, other@) is None,
            },
    {
        outside_mul(self, other)
    }

    /// The quotient by `other`, rounded by the outside library.
    pub fn div(&self, other: &Decimal) -> (r: Option<Decimal>)
        ensures
            match r {
                Some(d) => decimal_quotient(self@, other@) == Some(d@),
                None => decimal_quotient(self@, other@) is None,
            },
    {
        outside_div(self, other)
    }

    /// Whether the outside library orders the decimal strictly between
    /// `10^-k` and `10^k`.
    fn is_within_powers_of_ten(&self, k: i16) -> (b: bool)
        requires
            0 <= k <= 1000,
        ensures
            b == within_powers_of_ten(self@, k as int),
    {
        Decimal::from_parts(false, 1, k).less_than(self) && self.less_than(
            &Decimal::from_parts(false, 1, -k),
        )
    }

    /// Whether the power with exponent `other` is taken.
    pub fn power_is_taken(&self, other: &Decimal) -> (b: bool)
        ensures
            b == power_guard(self@, other@),
    {
        let zero = Decimal::zero();
        let size = self.abs();
        if !zero.less_than(&size) || other.less_than(&zero) {
            return false;
        }
        (size.is_within_powers_of_ten(1) && other.less_than(&Decimal::from_parts(false, 20000, 0)))
            || (size.is_within_powers_of_ten(4) && other.less_than(
            &Decimal::from_parts(false, 5000, 0),
        )) || (size.is_within_powers_of_ten(1000) && other.less_than(
            &Decimal::from_parts(false, 20, 0),
        ))
    }

    /// The power with exponent `other`, rounded by the outside library. It
    /// is taken for a base other than zero and an exponent not below zero
    /// whose power stays far inside the range of the decimals.
    pub fn pow(&self, other: &Decimal) -> (r: Option<Decimal>)
        ensures
            match r {
                Some(d) => guarded_power(self@, other@) == Some(d@),
                None => guarded_power(self@, other@) is None,
            },
    {
        if self.power_is_taken(other) {
            outside_pow(self, other)
        } else {
            None
        }
    }

    /// The square root, rounded by the outside library.
    pub fn sqrt(&self) -> (r: Option<Decimal>)
        ensures
            match r {
                Some(d) => decimal_square_root(self@) == Some(d@),
                None => decimal_square_root(self@) is None,
            },
    {
        outside_sqrt(self)
    }

    /// Whether the outside library orders `self` before `other`.
    pub fn less_than(&self, other: &Decimal) -> (b: bool)
        ensures
            b == decimal_less(self@, other@),
    {
        outside_less(self, other)
    }

    /// Reads `text` as a decimal number in base ten: the digits are the
    /// coefficient, the number of digits behind the point is the scale.
    /// Only a text of decimal digits and points, behind a sign or not, and of
    /// no more than [`PLAIN_LIMIT`] characters is read; a text with an
    /// exponent part is not.
    pub fn from_str(text: &str) -> (r: Option<Decimal>)
        ensures
            match r {
                Some(d) => guarded_parse(text@) == Some(d@),
                None => guarded_parse(text@) is None,
            },
    {
        let chars = chars_of(text);
        let n = chars.len();
        if n > PLAIN_LIMIT {
            return None;
        }
        let mut i: usize = 0;
        while i < n
            invariant
                i <= n,
                n == chars.len(),
                chars@ == text@,
                forall|k: int|
                    0 <= k < i ==> {
                        ||| '0' <= #[trigger] chars@[k] <= '9'
                        ||| chars@[k] == '.'
                        ||| (k == 0 && (chars@[k] == '+' || chars@[k] == '-'))
                    },
            decreases n - i,
        {
            let c = chars[i];
            if !(('0' <= c && c <= '9') || c == '.' || (i == 0 && (c == '+' || c == '-'))) {
                return None;
            }
            i += 1;
        }
        outside_parse(text)
    }

    /// The digits of the decimal with the point in its place, behind a minus
    /// sign where it carries one.
    pub fn to_plain_chars(&self) -> (v: Vec<char>)
        ensures
            v@ == plain_text(self@),
    {
        let c = chars_of(coefficient_text(&self.digits).as_str());
        let n = c.len();
        let mut v: Vec<char> = Vec::new();
        if self.negative {
            v.push('-');
        }
        let ghost sign = v@;
        if self.scale <= 0 {
            push_range(&mut v, &c, 0, n);
            let k: usize = (-(self.scale as i32)) as usize;
            push_zeros(&mut v, k);
            assert(c@.subrange(0, n as int) =~= c@);
            assert(v@ =~= sign + plain_digits(self@.coefficient, self@.scale));
        } else {
            let scale = self.scale as usize;
            if n > scale {
                push_range(&mut v, &c, 0, n - scale);
                v.push('.');
                push_range(&mut v, &c, n - scale, n);
                assert(c@.subrange(0, n - scale) =~= c@.take(n - scale));
                assert(c@.subrange(n - scale, n as int) =~= c@.skip(n - scale));
                assert(v@ =~= sign + plain_digits(self@.coefficient, self@.scale));
            } else {
                v.push('0');
                v.push('.');
                push_zeros(&mut v, scale - n);
                push_range(&mut v, &c, 0, n);
                assert(c@.subrange(0, n as int) =~= c@);
                assert(v@ =~= sign + plain_digits(self@.coefficient, self@.scale));
            }
        }
        assert(Seq::<char>::empty() + plain_digits(self@.coefficient, self@.scale)
            =~= plain_digits(self@.coefficient, self@.scale));
        v
    }

    /// The decimal as text: its digits with the point in its place, one
    /// fractional digit at least and no zeros after its last other one.
    pub fn to_string(&self) -> (s: String)
        ensures
            s@ == decimal_rendering(self@),
    {
        string_of(&trim_fraction(&self.to_plain_chars()))
    }

    /// The gamma function, approximated by Nemes' form of the Stirling-De
    /// Moivre formula. It is defined above zero only, and not taken above
    /// 9313, where the decimals could no longer hold it.
    pub fn gamma(&self) -> (r: Result<Decimal, InvalidOperationError>)
        ensures
            match r {
                Ok(g) => gamma_outcome(self@) == Ok::<DecimalView, Seq<char>>(g@),
                Err(e) => gamma_outcome(self@) == Err::<DecimalView, Seq<char>>(e@),
            },
    {
        if self.negative || self.is_zero() {
            return Err(InvalidOperationError::new("Gamma undefined for values <= 0.0"));
        }
        let max = Decimal::from_parts(false, 9313, 0);
        if max.less_than(self) {
            return Err(
                InvalidOperationError::new("Gamma of value > 9313.0 exceeds size of Decimal type"),
            );
        }
        match self.gamma_approximation() {
            Some(g) => Ok(g),
            None => Err(InvalidOperationError::new("Gamma of value is not a finite Decimal")),
        }
    }

    /// The approximation of the gamma function, step by step.
    fn gamma_approximation(&self) -> (r: Option<Decimal>)
        ensures
            match r {
                Some(g) => gamma_approximation(self@) == Some(g@),
                None => gamma_approximation(self@) is None,
            },
    {
        let e = Decimal::constant(Constant::E);
        let tau = Decimal::constant(Constant::Tau);
        let one = Decimal::from_parts(false, 1, 0);
        let twelve = Decimal::from_parts(false, 12, 0);
        let tenth = Decimal::from_parts(false, 1, 1);
        let half = Decimal::from_parts(false, 5, 1);
        let root = match (self.div(&e), self.mul(&half)) {
            (Some(b), Some(h)) => b.pow(&h),
            _ => None,
        };
        let first = match root {
            Some(r) => r.mul(&r),
            None => None,
        };
        let second = match tau.div(self) {
            Some(q) => q.sqrt(),
            None => None,
        };
        let twelvefold = match self.mul(self) {
            Some(s) => twelve.mul(&s),
            None => None,
        };
        let denominator = match twelvefold {
            Some(t) => t.sub(&tenth),
            None => None,
        };
        let correction = match denominator {
            Some(d) => one.div(&d),
            None => None,
        };
        let base = match correction {
            Some(c) => one.add(&c),
            None => None,
        };
        let third = match base {
            Some(b) => b.pow(self),
            None => None,
        };
        let product = match (first, second) {
            (Some(a), Some(b)) => a.mul(&b),
            _ => None,
        };
        match (product, third) {
            (Some(a), Some(b)) => a.mul(&b),
            _ => None,
        }
    }

    /// The sine of the decimal, taken as an angle in degrees, of less than a
    /// million degrees either way.
    pub fn sin(&self) -> (r: Option<Decimal>)
        ensures
            match r {
                Some(d) => sine_of_degrees(self@) == Some(d@),
                None => sine_of_degrees(self@) is None,
            },
    {
        if !self.abs().less_than(&Decimal::from_parts(false, 1, -6)) {
            return None;
        }
        let circle = Decimal::from_parts(false, 360, 0);
        let back = Decimal::from_parts(true, 360, 0);
        let mut degrees = *self;
        let mut fuel: u64 = u64::MAX;
        while circle.less_than(&degrees) || degrees.less_than(&back)
            invariant
                circle@ == full_circle(),
                back@ == full_circle_back(),
                reduced_degrees(degrees@, fuel as nat) == reduced_degrees(
                    self@,
                    u64::MAX as nat,
                ),
            decreases fuel,
        {
            if fuel == 0 {
                return None;
            }
            let next = if circle.less_than(&degrees) {
                degrees.sub(&circle)
            } else {
                degrees.add(&circle)
            };
            match next {
                Some(nearer) => {
                    degrees = nearer;
                },
                None => {
                    return None;
                },
            }
            fuel -= 1;
        }
        if !degrees.abs().less_than(&Decimal::from_parts(false, 1, -6)) {
            return None;
        }
        match outside_to_radians(&degrees) {
            Some(x) => if x.abs().less_than(&Decimal::from_parts(false, 7, 0)) {
                outside_sin(&x)
            } else {
                None
            },
            None => None,
        }
    }

    /// The integer that the decimal stands for. Fails where the decimal has
    /// a fractional part, where its coefficient is `2^511` or more, and where
    /// 512 bits in two's complement cannot hold the number.
    pub fn to_integer(&self) -> (r: Result<Integer, ConversionError>)
        ensures
            match r {
                Ok(i) => decimal_to_integer(self@) == Ok::<int, Seq<char>>(i@),
                Err(e) => decimal_to_integer(self@) == Err::<int, Seq<char>>(e@),
            },
    {
        let c = match Integer::from_magnitude(self.digits) {
            Some(c) => c,
            None => {
                return Err(ConversionError::new("Decimal too large to convert to Integer"));
            },
        };
        let k: u32 = if self.scale < 0 {
            (-(self.scale as i32)) as u32
        } else {
            self.scale as u32
        };
        let ten = Integer::from_u64(10);
        let p = ten.checked_pow(k);
        proof {
            lemma_power_of_ten_positive(k as nat);
        }
        if self.scale <= 0 {
            proof {
                c.lemma_range();
            }
            let signed = if self.negative {
                c.checked_neg().unwrap()
            } else {
                c
            };
            assert(integral_value(self@) == Some(signed@ * power(10, k as nat))) by {
                assert((-c@) * power(10, k as nat) == -(c@ * power(10, k as nat)))
                    by (nonlinear_arith);
            }
            return match p {
                Some(p) => match signed.checked_mul(&p) {
                    Some(m) => Ok(m),
                    None => Err(ConversionError::new("Decimal too large to convert to Integer")),
                },
                None => {
                    if c.is_zero() {
                        assert(0 * power(10, k as nat) == 0) by (nonlinear_arith);
                        Ok(c)
                    } else {
                        proof {
                            let t = power(10, k as nat);
                            assert(k >= 1);
                            assert(t == 10 * power(10, (k - 1) as nat));
                            assert(t != integer_bound());
                            assert(signed@ * t > integer_bound() || signed@ * t
                                < -integer_bound()) by (nonlinear_arith)
                                requires
                                    signed@ >= 1 || signed@ <= -1,
                                    t > integer_bound(),
                            ;
                        }
                        Err(ConversionError::new("Decimal too large to convert to Integer"))
                    }
                },
            };
        }
        let magnitude: Integer = {
            match p {
                Some(p) => {
                    proof {
                        lemma_truncated_nonnegative(c@, p@);
                    }
                    proof {
                        c.lemma_range();
                    }
                    let remainder = c.checked_rem(&p).unwrap();
                    if !remainder.is_zero() {
                        return Err(
                            ConversionError::new(
                                "Cannot convert Decimal with a fractional part to Integer",
                            ),
                        );
                    }
                    assert(c@ % p@ == 0);
                    c.checked_div(&p).unwrap()
                },
                None => {
                    proof {
                        c.lemma_range();
                        assert(0 <= c@ < power(10, k as nat));
                        vstd::arithmetic::div_mod::lemma_small_mod(
                            c@ as nat,
                            power(10, k as nat) as nat,
                        );
                        vstd::arithmetic::div_mod::lemma_basic_div(c@, power(10, k as nat));
                        assert(c@ % power(10, k as nat) == c@);
                        assert(c@ / power(10, k as nat) == 0);
                    }
                    if c.is_zero() {
                        assert(c@ % power(10, k as nat) == 0);
                        assert(c@ == c@ / power(10, k as nat));
                        c
                    } else {
                        assert(c@ % power(10, k as nat) != 0);
                        return Err(
                            ConversionError::new(
                                "Cannot convert Decimal with a fractional part to Integer",
                            ),
                        );
                    }
                },
            }
        };
        proof {
            magnitude.lemma_range();
            assert(self@.scale > 0);
            assert(k as nat == self@.scale as nat);
            assert(self@.coefficient as int % power(10, k as nat) == 0);
            assert(magnitude@ == self@.coefficient as int / power(10, k as nat));
        }
        if self.negative {
            Ok(magnitude.checked_neg().unwrap())
        } else {
            Ok(magnitude)
        }
    }
}

} // verus!
