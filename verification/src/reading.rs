//! What reading the text of a value gives: the same value again.
use vstd::prelude::*;
use crate::decimals::{
    decimal_rendering, guarded_parse, integer_part, is_plain_decimal, lemma_integer_part,
    parsed_decimal, plain_digits, trimmed_fraction, without_point, without_trailing_zeros, zeros,
    DecimalView, PLAIN_LIMIT,
};
use crate::integers::{
    all_digits, digit_of, digits_value, integer_bound, lemma_decimal_text_value, power,
};
use crate::numerals::{
    cleaned, decimal_prefix_length, decimal_rational, group_run, has_base_prefix,
    has_fractional_separator, has_radix_prefix, is_grouped, is_radix_digit, law_numeral_round_trip,
    lemma_cleaned_same, lemma_cleaned_without, lemma_digits_value_not_negative,
    lemma_group_run_all, lemma_numeral_without_sign, lemma_power_positive, normalised,
    numeral_base, numeral_value, optional_digits, rendered,
};
use crate::text::decimal_text;
use crate::values::ValueView;

verus! {

/// Whether two decimals stand for the same number, whatever their scales.
pub open spec fn same_number(a: DecimalView, b: DecimalView) -> bool {
    let least = if a.scale <= b.scale {
        a.scale
    } else {
        b.scale
    };
    &&& a.coefficient * power(10, (b.scale - least) as nat) == b.coefficient * power(
        10,
        (a.scale - least) as nat,
    )
    &&& a.negative == b.negative || (a.coefficient == 0 && b.coefficient == 0)
}

/// A power of a sum of exponents is the product of the powers.
pub proof fn lemma_power_adds(base: int, a: nat, b: nat)
    ensures
        power(base, a + b) == power(base, a) * power(base, b),
    decreases a,
{
    if a > 0 {
        lemma_power_adds(base, (a - 1) as nat, b);
        assert(power(base, a + b) == base * power(base, (a + b - 1) as nat));
        assert(base * (power(base, (a - 1) as nat) * power(base, b)) == (base * power(
            base,
            (a - 1) as nat,
        )) * power(base, b)) by (nonlinear_arith);
    }
}

/// The digits `a` before the digits `b` spell the number of `a`, moved by
/// as many places as `b` has, and the number of `b`.
pub proof fn lemma_digits_value_concat(a: Seq<char>, b: Seq<char>, radix: int)
    ensures
        digits_value(a + b, radix) == digits_value(a, radix) * power(radix, b.len())
            + digits_value(b, radix),
    decreases b.len(),
{
    if b.len() == 0 {
        assert(a + b =~= a);
    } else {
        let front = b.drop_last();
        lemma_digits_value_concat(a, front, radix);
        assert((a + b).drop_last() =~= a + front);
        assert((a + b).last() == b.last());
        let x = digits_value(a, radix);
        let p = power(radix, front.len());
        let y = digits_value(front, radix);
        assert(power(radix, b.len()) == radix * p);
        assert((x * p + y) * radix == x * (radix * p) + y * radix) by (nonlinear_arith);
    }
}

/// Zeros spell zero.
pub proof fn lemma_zeros_value(n: nat)
    ensures
        all_digits(zeros(n), 10),
        digits_value(zeros(n), 10) == 0,
    decreases n,
{
    if n > 0 {
        lemma_zeros_value((n - 1) as nat);
        assert(zeros(n).drop_last() =~= zeros((n - 1) as nat));
    }
}

/// Digits without the zeros at their end spell the number of all the digits
/// without as many factors of ten.
pub proof fn lemma_trailing_zeros_value(f: Seq<char>)
    requires
        all_digits(f, 10),
    ensures
        all_digits(without_trailing_zeros(f), 10),
        without_trailing_zeros(f).len() <= f.len(),
        digits_value(f, 10) == digits_value(without_trailing_zeros(f), 10) * power(
            10,
            (f.len() - without_trailing_zeros(f).len()) as nat,
        ),
        forall|k: int|
            0 <= k < without_trailing_zeros(f).len() ==> #[trigger] without_trailing_zeros(f)[k]
                == f[k],
    decreases f.len(),
{
    if f.len() > 0 && f.last() == '0' {
        let front = f.drop_last();
        assert forall|i: int| 0 <= i < front.len() implies digit_of(#[trigger] front[i]) < 10 by {
            assert(front[i] == f[i]);
        }
        lemma_trailing_zeros_value(front);
        let kept = without_trailing_zeros(front);
        let z = (front.len() - kept.len()) as nat;
        assert(power(10, z + 1) == 10 * power(10, z));
        assert(digits_value(f, 10) == digits_value(front, 10) * 10);
        assert((digits_value(kept, 10) * power(10, z)) * 10 == digits_value(kept, 10) * (10
            * power(10, z))) by (nonlinear_arith);
    } else {
        assert(power(10, 0) == 1);
    }
}

/// Digits before a point and digits behind it are read as the decimal whose
/// coefficient all the digits spell and whose scale is the number of digits
/// behind the point.
pub proof fn lemma_reading_pointed(whole: Seq<char>, fraction: Seq<char>)
    requires
        whole.len() >= 1,
        all_digits(whole, 10),
        all_digits(fraction, 10),
        digits_value(whole + fraction, 10) < 2 * integer_bound(),
    ensures
        parsed_decimal(whole + seq!['.'] + fraction) == Some(
            DecimalView {
                negative: false,
                coefficient: digits_value(whole + fraction, 10) as nat,
                scale: fraction.len() as int,
            },
        ),
        integer_part(whole + seq!['.'] + fraction) == whole,
{
    let t = whole + seq!['.'] + fraction;
    let p = whole.len() as int;
    assert forall|k: int| 0 <= k < p implies t[k] != '.' by {
        assert(t[k] == whole[k]);
        assert(digit_of(whole[k]) < 10);
    }
    assert(t[p] == '.');
    lemma_integer_part(t, p);
    assert(t.take(p) =~= whole);
    assert(t.skip(p + 1) =~= fraction);
    assert(t[0] == whole[0]);
    assert(digit_of(whole[0]) < 10);
    assert(without_point(t) =~= whole + fraction);
    assert forall|i: int| 0 <= i < (whole + fraction).len() implies digit_of(
        #[trigger] (whole + fraction)[i],
    ) < 10 by {
        if i < p {
            assert((whole + fraction)[i] == whole[i]);
        } else {
            assert((whole + fraction)[i] == fraction[i - p]);
        }
    }
    lemma_digits_value_not_negative(whole + fraction, 10);
}

/// The fractional part that trimming leaves of the digits `fraction`: the
/// digits without the zeros at their end, or one zero where none is left.
pub open spec fn kept_fraction(fraction: Seq<char>) -> Seq<char> {
    if without_trailing_zeros(fraction).len() == 0 {
        seq!['0']
    } else {
        without_trailing_zeros(fraction)
    }
}

/// Trimming digits with a point among them keeps the digits before the point
/// and trims those behind it.
pub proof fn lemma_trimmed_pointed(whole: Seq<char>, fraction: Seq<char>)
    requires
        whole.len() >= 1,
        all_digits(whole, 10),
        all_digits(fraction, 10),
    ensures
        trimmed_fraction(whole + seq!['.'] + fraction) == whole + seq!['.'] + kept_fraction(
            fraction,
        ),
{
    let t = whole + seq!['.'] + fraction;
    let p = whole.len() as int;
    assert forall|k: int| 0 <= k < p implies t[k] != '.' by {
        assert(t[k] == whole[k]);
        assert(digit_of(whole[k]) < 10);
    }
    assert(t[p] == '.');
    lemma_integer_part(t, p);
    assert(t.take(p) =~= whole);
    assert(t.skip(p + 1) =~= fraction);
    assert(trimmed_fraction(t) =~= whole + seq!['.'] + kept_fraction(fraction));
}

/// Trimming digits without a point puts a point and a zero behind them.
pub proof fn lemma_trimmed_whole(whole: Seq<char>)
    requires
        all_digits(whole, 10),
    ensures
        trimmed_fraction(whole) == whole + seq!['.'] + kept_fraction(Seq::empty()),
{
    let p = whole.len() as int;
    assert forall|k: int| 0 <= k < p implies whole[k] != '.' by {
        assert(digit_of(whole[k]) < 10);
    }
    lemma_integer_part(whole, p);
    assert(whole.take(p) =~= whole);
    assert(trimmed_fraction(whole) =~= whole + seq!['.'] + seq!['0']);
}

/// The trimmed digits behind the point are digits, one at least, and spell
/// the number of the digits before and behind the point without the factors
/// of ten that the trimming took, or with one more.
pub proof fn lemma_kept_fraction_value(whole: Seq<char>, fraction: Seq<char>)
    requires
        all_digits(whole, 10),
        all_digits(fraction, 10),
    ensures
        all_digits(kept_fraction(fraction), 10),
        kept_fraction(fraction).len() >= 1,
        kept_fraction(fraction).len() <= fraction.len() + 1,
        digits_value(whole + kept_fraction(fraction), 10) * power(10, fraction.len())
            == digits_value(whole + fraction, 10) * power(10, kept_fraction(fraction).len()),
        0 <= digits_value(whole + kept_fraction(fraction), 10),
        fraction.len() == 0 ==> digits_value(whole + kept_fraction(fraction), 10) == 10
            * digits_value(whole + fraction, 10),
        fraction.len() >= 1 ==> digits_value(whole + kept_fraction(fraction), 10) <= digits_value(
            whole + fraction,
            10,
        ),
{
    let kept = without_trailing_zeros(fraction);
    let z = (fraction.len() - kept.len()) as nat;
    lemma_trailing_zeros_value(fraction);
    lemma_digits_value_concat(whole, fraction, 10);
    lemma_digits_value_concat(whole, kept, 10);
    lemma_digits_value_concat(whole, seq!['0'], 10);
    lemma_digits_value_not_negative(whole, 10);
    lemma_digits_value_not_negative(kept, 10);
    lemma_power_adds(10, kept.len(), z);
    lemma_power_positive(10, z);
    lemma_power_positive(10, kept.len());
    lemma_power_positive(10, fraction.len());
    let x = digits_value(whole, 10);
    let k = digits_value(kept, 10);
    let pk = power(10, kept.len());
    let pz = power(10, z);
    let pf = power(10, fraction.len());
    assert(pf == pk * pz);
    assert(digits_value(whole + fraction, 10) == x * pf + k * pz);
    if kept.len() == 0 {
        assert(power(10, 1) == 10 * power(10, 0));
        assert(seq!['0'].drop_last() =~= Seq::<char>::empty());
        assert(digits_value(Seq::<char>::empty(), 10) == 0);
        assert(seq!['0'].last() == '0');
        assert(digit_of('0') == 0);
        assert(digits_value(seq!['0'], 10) == 0);
        assert(k == 0);
        assert(digits_value(whole + seq!['0'], 10) == x * 10);
        assert((x * 10) * pf == (x * pf) * 10) by (nonlinear_arith);
        if fraction.len() >= 1 {
            lemma_power_positive(10, (fraction.len() - 1) as nat);
            assert(pf == 10 * power(10, (fraction.len() - 1) as nat));
            assert(x * 10 <= x * pf) by (nonlinear_arith)
                requires
                    x >= 0,
                    pf >= 10,
            ;
        } else {
            assert(pf == 1);
            assert(x * pf == x) by (nonlinear_arith)
                requires
                    pf == 1,
            ;
        }
    } else {
        let v = x * pk + k;
        assert(digits_value(whole + kept, 10) == v);
        assert(v * (pk * pz) == (x * (pk * pz) + k * pz) * pk) by (nonlinear_arith)
            requires
                v == x * pk + k,
        ;
        assert(0 <= v <= x * (pk * pz) + k * pz) by (nonlinear_arith)
            requires
                x >= 0,
                k >= 0,
                pk >= 1,
                pz >= 1,
                v == x * pk + k,
        ;
    }
}

/// Where the characters from `start` up to `end` are digits or group
/// separators and the one at `end` is neither, the run from `start` ends
/// there.
pub proof fn lemma_group_run_until(s: Seq<char>, start: int, end: int, radix: int)
    requires
        0 <= start <= end <= s.len(),
        forall|k: int| start <= k < end ==> is_grouped(s[k], radix),
        end == s.len() || !is_grouped(s[end], radix),
    ensures
        start + group_run(s, start, radix) == end,
    decreases end - start,
{
    if start < end {
        lemma_group_run_until(s, start + 1, end, radix);
    }
}

/// Digits, a point and digits again are a numeral of base ten with a
/// fractional part, and the digits of that numeral are the text itself.
pub proof fn lemma_pointed_numeral(whole: Seq<char>, fraction: Seq<char>)
    requires
        whole.len() >= 1,
        fraction.len() >= 1,
        all_digits(whole, 10),
        all_digits(fraction, 10),
    ensures
        numeral_base(whole + seq!['.'] + fraction) == Some(10int),
        has_fractional_separator(whole + seq!['.'] + fraction),
        normalised(whole + seq!['.'] + fraction) == whole + seq!['.'] + fraction,
        (whole + seq!['.'] + fraction).len() <= PLAIN_LIMIT ==> is_plain_decimal(
            whole + seq!['.'] + fraction,
        ),
{
    let t = whole + seq!['.'] + fraction;
    let p = whole.len() as int;
    assert forall|k: int| 0 <= k < p implies '0' <= #[trigger] t[k] <= '9' by {
        assert(t[k] == whole[k]);
        assert(digit_of(whole[k]) < 10);
    }
    assert(t[p] == '.');
    assert forall|k: int| p < k < t.len() implies '0' <= #[trigger] t[k] <= '9' by {
        assert(t[k] == fraction[k - p - 1]);
        assert(digit_of(fraction[k - p - 1]) < 10);
    }
    assert('0' <= t[1] <= '9' || t[1] == '.');
    assert(!has_radix_prefix(t, 2));
    assert(!has_radix_prefix(t, 8));
    assert(!has_radix_prefix(t, 10));
    assert(!has_radix_prefix(t, 16));
    assert(decimal_prefix_length(t) == 0);
    assert forall|k: int| 0 <= k < p implies is_grouped(t[k], 10) by {
        assert('0' <= t[k] <= '9');
    }
    lemma_group_run_until(t, 0, p, 10);
    assert forall|k: int| p + 1 <= k < t.len() implies is_grouped(t[k], 10) by {
        assert('0' <= t[k] <= '9');
    }
    lemma_group_run_all(t, p + 1, 10);
    assert('0' <= t[t.len() - 1] <= '9');
    assert(is_radix_digit(t.last(), 10));
    assert(is_radix_digit(t[0], 10));
    assert(optional_digits(t, p + 1, 10));
    assert(decimal_rational(t));
    assert(t.contains('.'));
    assert forall|k: int| 0 <= k < t.len() implies t[k] != '_' && t[k] != ',' by {
        if k != p {
            assert('0' <= t[k] <= '9');
        }
    }
    lemma_cleaned_same(t);
    assert(cleaned(t) == t);
    if t.len() <= PLAIN_LIMIT {
        assert forall|i: int| 0 <= i < t.len() implies ('0' <= #[trigger] t[i] <= '9' || t[i]
            == '.') by {
            if i != p {
                assert('0' <= t[i] <= '9');
            }
        }
    }
}

/// The trimmed text of digits before and behind a point is a numeral for a
/// decimal without a sign that stands for the number of the digits: its
/// coefficient and what all the digits spell differ by the power of ten
/// that the scale and the number of digits behind the point differ by.
pub proof fn lemma_trimmed_reads_back(whole: Seq<char>, fraction: Seq<char>)
    requires
        whole.len() >= 1,
        all_digits(whole, 10),
        all_digits(fraction, 10),
        digits_value(whole + fraction, 10) < 2 * integer_bound(),
        fraction.len() == 0 ==> 10 * digits_value(whole + fraction, 10) < 2 * integer_bound(),
        (whole + seq!['.'] + kept_fraction(fraction)).len() <= PLAIN_LIMIT,
    ensures
        numeral_value(whole + seq!['.'] + kept_fraction(fraction)) matches Ok(
            ValueView::Decimal(w),
        ) && !w.negative && 1 <= w.scale <= fraction.len() + 1 && w.coefficient * power(
            10,
            fraction.len(),
        ) == digits_value(whole + fraction, 10) * power(10, w.scale as nat),
{
    let kept = kept_fraction(fraction);
    lemma_kept_fraction_value(whole, fraction);
    lemma_pointed_numeral(whole, kept);
    lemma_reading_pointed(whole, kept);
    let t = whole + seq!['.'] + kept;
    assert(guarded_parse(t) == parsed_decimal(t));
}

/// Whether the text of the decimal `d` is read as a decimal again: `d`
/// carries no sign, its text is no longer than [`PLAIN_LIMIT`], and its
/// coefficient is below `2^512`; for a scale of zero or below, so are the
/// digits before the point of the text with the zero behind the point.
pub open spec fn decimal_reads_back(d: DecimalView) -> bool {
    &&& !d.negative
    &&& decimal_rendering(d).len() <= PLAIN_LIMIT
    &&& if d.scale <= 0 {
        10 * (d.coefficient * power(10, (-d.scale) as nat)) < 2 * integer_bound()
    } else {
        d.coefficient < 2 * integer_bound()
    }
}

/// The digits before the point in the text of a decimal with a scale above
/// zero: those of the coefficient before its last `scale` ones, or one zero
/// where it has no more than that.
pub open spec fn whole_digits(coefficient: nat, scale: int) -> Seq<char> {
    let digits = decimal_text(coefficient);
    if digits.len() > scale {
        digits.take(digits.len() - scale)
    } else {
        seq!['0']
    }
}

/// The digits behind the point in the text of a decimal with a scale above
/// zero, before it is trimmed: the last `scale` digits of the coefficient,
/// behind the zeros that it lacks.
pub open spec fn fraction_digits(coefficient: nat, scale: int) -> Seq<char> {
    let digits = decimal_text(coefficient);
    if digits.len() > scale {
        digits.skip(digits.len() - scale)
    } else {
        zeros((scale - digits.len()) as nat) + digits
    }
}

/// The digits of a decimal with a scale above zero are digits before and
/// behind a point that together spell the coefficient, `scale` of them
/// behind the point.
pub proof fn lemma_plain_parts(coefficient: nat, scale: int)
    requires
        scale > 0,
    ensures
        whole_digits(coefficient, scale).len() >= 1,
        fraction_digits(coefficient, scale).len() == scale,
        all_digits(whole_digits(coefficient, scale), 10),
        all_digits(fraction_digits(coefficient, scale), 10),
        digits_value(whole_digits(coefficient, scale) + fraction_digits(coefficient, scale), 10)
            == coefficient,
        plain_digits(coefficient, scale) == whole_digits(coefficient, scale) + seq!['.']
            + fraction_digits(coefficient, scale),
{
    let digits = decimal_text(coefficient);
    let n = digits.len() as int;
    let whole = whole_digits(coefficient, scale);
    let fraction = fraction_digits(coefficient, scale);
    lemma_decimal_text_value(coefficient);
    if n > scale {
        assert(whole + fraction =~= digits);
        assert forall|i: int| 0 <= i < whole.len() implies digit_of(#[trigger] whole[i])
            < 10 by {
            assert(whole[i] == digits[i]);
        }
        assert forall|i: int| 0 <= i < fraction.len() implies digit_of(#[trigger] fraction[i])
            < 10 by {
            assert(fraction[i] == digits[i + n - scale]);
        }
    } else {
        let lead = zeros((scale - n) as nat);
        lemma_zeros_value((scale - n) as nat);
        lemma_digits_value_concat(lead, digits, 10);
        lemma_digits_value_concat(whole, fraction, 10);
        assert(seq!['0'].drop_last() =~= Seq::<char>::empty());
        assert(digits_value(Seq::<char>::empty(), 10) == 0);
        assert(seq!['0'].last() == '0');
        assert(digit_of('0') == 0);
        assert(digits_value(whole, 10) == 0);
        assert(digits_value(fraction, 10) == 0 * power(10, digits.len()) + coefficient);
        assert(digits_value(whole + fraction, 10) == 0 * power(10, fraction.len())
            + digits_value(fraction, 10));
        assert forall|i: int| 0 <= i < whole.len() implies digit_of(#[trigger] whole[i])
            < 10 by {
            assert(whole[i] == '0');
        }
        assert forall|i: int| 0 <= i < fraction.len() implies digit_of(#[trigger] fraction[i])
            < 10 by {
            if i < lead.len() {
                assert(fraction[i] == lead[i]);
            } else {
                assert(fraction[i] == digits[i - lead.len()]);
            }
        }
        assert(seq!['0', '.'] + lead + digits =~= whole + seq!['.'] + fraction);
    }
}

/// The digits of a decimal with a scale of zero or below are digits that
/// spell the coefficient with as many zeros behind it as the scale is below
/// zero.
pub proof fn lemma_plain_whole(coefficient: nat, scale: int)
    requires
        scale <= 0,
    ensures
        all_digits(plain_digits(coefficient, scale), 10),
        plain_digits(coefficient, scale).len() >= 1,
        digits_value(plain_digits(coefficient, scale), 10) == coefficient * power(
            10,
            (-scale) as nat,
        ),
{
    let digits = decimal_text(coefficient);
    let shift = (-scale) as nat;
    let whole = digits + zeros(shift);
    lemma_decimal_text_value(coefficient);
    lemma_zeros_value(shift);
    lemma_digits_value_concat(digits, zeros(shift), 10);
    assert forall|i: int| 0 <= i < whole.len() implies digit_of(#[trigger] whole[i]) < 10 by {
        if i < digits.len() {
            assert(whole[i] == digits[i]);
        } else {
            assert(whole[i] == zeros(shift)[i - digits.len()]);
        }
    }
}

/// The text of a decimal is a numeral that stands for the same number:
/// rendering and reading again gives a decimal of the same sign and the same
/// value, whose scale may differ by the zeros that the text does without or
/// adds.
pub proof fn law_decimal_round_trip(d: DecimalView)
    requires
        decimal_reads_back(d),
    ensures
        numeral_value(rendered(ValueView::Decimal(d))) matches Ok(ValueView::Decimal(w))
            && same_number(w, d),
{
    let c = d.coefficient;
    if d.scale <= 0 {
        let shift = (-d.scale) as nat;
        let whole = plain_digits(c, d.scale);
        let fraction = Seq::<char>::empty();
        lemma_plain_whole(c, d.scale);
        assert(whole + fraction =~= whole);
        assert(power(10, 0) == 1);
        lemma_trimmed_whole(whole);
        lemma_trimmed_reads_back(whole, fraction);
        let w = numeral_value(decimal_rendering(d))->Ok_0->Decimal_0;
        assert(w.scale == 1);
        assert(power(10, 1) == 10 * power(10, 0));
        lemma_power_adds(10, shift, 1);
        assert(w.coefficient == (c * power(10, shift)) * 10);
        assert((c * power(10, shift)) * 10 == c * (power(10, shift) * 10)) by (nonlinear_arith);
    } else {
        let whole = whole_digits(c, d.scale);
        let fraction = fraction_digits(c, d.scale);
        lemma_plain_parts(c, d.scale);
        lemma_trimmed_pointed(whole, fraction);
        lemma_trimmed_reads_back(whole, fraction);
        let w = numeral_value(decimal_rendering(d))->Ok_0->Decimal_0;
        let least = if w.scale <= d.scale {
            w.scale
        } else {
            d.scale
        };
        let low = power(10, least as nat);
        let a = power(10, (d.scale - least) as nat);
        let b = power(10, (w.scale - least) as nat);
        lemma_power_adds(10, (d.scale - least) as nat, least as nat);
        lemma_power_adds(10, (w.scale - least) as nat, least as nat);
        lemma_power_positive(10, least as nat);
        assert(w.coefficient * (a * low) == c * (b * low));
        assert(w.coefficient * a == c * b) by (nonlinear_arith)
            requires
                w.coefficient * (a * low) == c * (b * low),
                low >= 1,
        ;
    }
}

/// The decimal that a numeral of base ten stands for carries no sign, its
/// scale is not below zero and its coefficient is below `2^512`.
pub proof fn lemma_decimal_numeral_unsigned(s: Seq<char>)
    requires
        numeral_base(s) == Some(10int),
        numeral_value(s) matches Ok(v) && v is Decimal,
    ensures
        !numeral_value(s)->Ok_0->Decimal_0.negative,
        numeral_value(s)->Ok_0->Decimal_0.scale >= 0,
        numeral_value(s)->Ok_0->Decimal_0.coefficient < 2 * integer_bound(),
{
    let norm = normalised(s);
    lemma_numeral_without_sign(s);
    lemma_cleaned_without(s, '-');
    lemma_cleaned_without(s, '+');
    assert(parsed_decimal(norm) is Some);
    if norm.len() > 0 {
        assert(norm[0] != '-' && norm[0] != '+') by {
            if has_base_prefix(s) && cleaned(s).len() >= 2 {
                assert(norm[0] == cleaned(s)[2]);
            }
        }
    }
    lemma_digits_value_not_negative(without_point(norm), 10);
}

/// For a numeral of base ten with a fractional part, rendering the decimal
/// and reading the text again gives the same number, where the text is no
/// longer than [`PLAIN_LIMIT`] and, for a numeral without a digit behind
/// its separator, ten times the coefficient is below `2^512`.
pub proof fn law_decimal_numeral_round_trip(s: Seq<char>)
    requires
        numeral_base(s) == Some(10int),
        numeral_value(s) matches Ok(ValueView::Decimal(d)) && (d.scale == 0 ==> 10
            * d.coefficient < 2 * integer_bound()) && decimal_rendering(d).len() <= PLAIN_LIMIT,
    ensures
        numeral_value(rendered(numeral_value(s)->Ok_0)) matches Ok(ValueView::Decimal(w))
            && same_number(w, numeral_value(s)->Ok_0->Decimal_0),
{
    let d = numeral_value(s)->Ok_0->Decimal_0;
    lemma_decimal_numeral_unsigned(s);
    assert(power(10, 0) == 1);
    assert(d.scale == 0 ==> d.coefficient * power(10, 0) == d.coefficient);
    law_decimal_round_trip(d);
}

/// Whether two values are the same: decimals that stand for the same
/// number, or equal values of another kind.
pub open spec fn same_value(a: ValueView, b: ValueView) -> bool {
    match (a, b) {
        (ValueView::Decimal(x), ValueView::Decimal(y)) => same_number(x, y),
        _ => a == b,
    }
}

/// Rendering the value of a numeral and reading the text again gives the
/// same value, for a bit sequence, for an integer, and for a decimal whose
/// text is read as a decimal again.
pub proof fn law_round_trip(s: Seq<char>)
    requires
        numeral_value(s) matches Ok(v) && (v matches ValueView::Decimal(d)
            ==> decimal_reads_back(d)),
    ensures
        numeral_value(rendered(numeral_value(s)->Ok_0)) matches Ok(w) && same_value(
            w,
            numeral_value(s)->Ok_0,
        ),
{
    match numeral_value(s)->Ok_0 {
        ValueView::Decimal(d) => {
            law_decimal_round_trip(d);
        },
        _ => {
            law_numeral_round_trip(s);
        },
    }
}

} // verus!
