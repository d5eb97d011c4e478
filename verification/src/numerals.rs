//! The grammar of numerals, and the values that they stand for.
use vstd::prelude::*;
use vstd::string::*;
use crate::bitseqs::{
    all_binary_digits, binary_text, bits_value, lemma_binary_text_value, Bitseq, BitseqView,
    MAX_WIDTH,
};
use crate::decimals::decimal_rendering;
use crate::integers::signed_decimal_text;
use crate::decimals::{
    decimal_of, decimal_quotient, fraction_length, guarded_parse, integer_part,
    lemma_integer_part, without_point, Decimal, DecimalView,
};
use crate::errors::{framed, SyntaxError, SyntaxErrorView};
use crate::integers::{
    digits_value, fits_integer, lemma_signed_text_reads_back, parsed_integer, power, Integer,
};
use crate::position::Position;
use crate::reading::{decimal_reads_back, law_decimal_round_trip, same_number};
use crate::text::{chars_of, decimal_text, lemma_decimal_text_digits, push_chars, string_of};
use crate::values::{Value, ValueView};

verus! {

/// Whether `radix` is one that numerals are written in.
pub open spec fn is_radix(radix: int) -> bool {
    radix == 2 || radix == 8 || radix == 10 || radix == 16
}

/// A digit of base `radix`.
pub open spec fn is_radix_digit(c: char, radix: int) -> bool {
    if radix == 2 {
        c == '0' || c == '1'
    } else if radix == 8 {
        '0' <= c <= '7'
    } else if radix == 10 {
        '0' <= c <= '9'
    } else {
        '0' <= c <= '9' || 'a' <= c <= 'f' || 'A' <= c <= 'F'
    }
}

/// A digit of base `radix` or the separator of digit groups.
pub open spec fn is_grouped(c: char, radix: int) -> bool {
    is_radix_digit(c, radix) || c == '_'
}

/// A separator of the fractional part.
pub open spec fn is_separator(c: char) -> bool {
    c == '.' || c == ','
}

/// The letter that marks base `radix` in a prefix.
pub open spec fn is_radix_letter(c: char, radix: int) -> bool {
    if radix == 2 {
        c == 'b' || c == 'B'
    } else if radix == 8 {
        c == 'o' || c == 'O'
    } else if radix == 10 {
        c == 'd' || c == 'D'
    } else {
        c == 'x' || c == 'X'
    }
}

/// Whether `s` starts with the prefix of base `radix`: a zero and the letter
/// of the base.
pub open spec fn has_radix_prefix(s: Seq<char>, radix: int) -> bool {
    s.len() >= 2 && s[0] == '0' && is_radix_letter(s[1], radix)
}

/// Whether `s` starts with the prefix of any base.
pub open spec fn has_base_prefix(s: Seq<char>) -> bool {
    has_radix_prefix(s, 2) || has_radix_prefix(s, 8) || has_radix_prefix(s, 10)
        || has_radix_prefix(s, 16)
}

/// The number of characters of `s` from `start` on that are digits of base
/// `radix` or group separators, up to the first that is neither.
pub open spec fn group_run(s: Seq<char>, start: int, radix: int) -> nat
    decreases s.len() - start,
{
    if 0 <= start < s.len() && is_grouped(s[start], radix) {
        1 + group_run(s, start + 1, radix)
    } else {
        0
    }
}

/// Whether `s` from `start` on is a run of digits and group separators that
/// ends in a digit.
pub open spec fn grouped_digits(s: Seq<char>, start: int, radix: int) -> bool {
    0 <= start < s.len() && start + group_run(s, start, radix) == s.len() && is_radix_digit(
        s.last(),
        radix,
    )
}

/// Whether the rest of `s` from `start` on is empty or digits in groups.
pub open spec fn optional_digits(s: Seq<char>, start: int, radix: int) -> bool {
    start == s.len() || grouped_digits(s, start, radix)
}

/// An integer of base 2, 8 or 16: the prefix, then digits in groups.
pub open spec fn prefixed_integer(s: Seq<char>, radix: int) -> bool {
    has_radix_prefix(s, radix) && grouped_digits(s, 2, radix)
}

/// A number with a fractional part of base 2, 8 or 16: the prefix, digits
/// and group separators, a fractional separator, then nothing or digits in
/// groups.
pub open spec fn prefixed_rational(s: Seq<char>, radix: int) -> bool {
    has_radix_prefix(s, radix) && {
        let p: int = 2 + group_run(s, 2, radix) as int;
        p < s.len() && is_separator(s[p]) && optional_digits(s, p + 1, radix)
    }
}

/// The length of the prefix of base ten, with the group separator that may
/// follow it; zero where there is no prefix.
pub open spec fn decimal_prefix_length(s: Seq<char>) -> int {
    if has_radix_prefix(s, 10) {
        if s.len() > 2 && s[2] == '_' {
            3
        } else {
            2
        }
    } else {
        0
    }
}

/// An integer of base ten: a digit, after a prefix or not, then nothing or
/// digits in groups.
pub open spec fn decimal_integer(s: Seq<char>) -> bool {
    let q = decimal_prefix_length(s);
    q < s.len() && is_radix_digit(s[q], 10) && optional_digits(s, q + 1, 10)
}

/// A number with a fractional part of base ten: after a prefix or not,
/// nothing or a digit and then digits and group separators; a fractional
/// separator; then nothing or digits in groups.
pub open spec fn decimal_rational(s: Seq<char>) -> bool {
    let q = decimal_prefix_length(s);
    let p: int = q + group_run(s, q, 10) as int;
    p < s.len() && is_separator(s[p]) && (p == q || is_radix_digit(s[q], 10)) && optional_digits(
        s,
        p + 1,
        10,
    )
}

/// Whether `s` is a numeral of base `radix`.
pub open spec fn is_numeral_of(s: Seq<char>, radix: int) -> bool {
    if radix == 10 {
        decimal_integer(s) || decimal_rational(s)
    } else {
        prefixed_integer(s, radix) || prefixed_rational(s, radix)
    }
}

/// The base of the numeral `s`, or `None` where `s` is no numeral.
pub open spec fn numeral_base(s: Seq<char>) -> Option<int> {
    if is_numeral_of(s, 2) {
        Some(2)
    } else if is_numeral_of(s, 8) {
        Some(8)
    } else if is_numeral_of(s, 10) {
        Some(10)
    } else if is_numeral_of(s, 16) {
        Some(16)
    } else {
        None
    }
}

/// Whether `s` holds a fractional separator.
pub open spec fn has_fractional_separator(s: Seq<char>) -> bool {
    s.contains('.') || s.contains(',')
}

/// `s` without group separators and with `.` for every `,`.
pub open spec fn cleaned(s: Seq<char>) -> Seq<char>
    decreases s.len(),
{
    if s.len() == 0 {
        s
    } else if s.last() == '_' {
        cleaned(s.drop_last())
    } else if s.last() == ',' {
        cleaned(s.drop_last()).push('.')
    } else {
        cleaned(s.drop_last()).push(s.last())
    }
}

/// The digits of the numeral `s`: without group separators, with `.` as the
/// fractional separator and without the prefix of the base.
pub open spec fn normalised(s: Seq<char>) -> Seq<char> {
    if has_base_prefix(s) && cleaned(s).len() >= 2 {
        cleaned(s).skip(2)
    } else {
        cleaned(s)
    }
}

/// The message for a text that is no numeral.
pub open spec fn invalid_pattern(s: Seq<char>) -> Seq<char> {
    framed("The pattern of the numeral string \""@, s, "\" is invalid"@)
}

/// The message for a numeral `s` whose digits `norm` give no value of the
/// kind that `kind` names.
pub open spec fn failed_to_parse(s: Seq<char>, norm: Seq<char>, kind: Seq<char>) -> Seq<char> {
    "Failed to parse string \""@ + s + "\" (normalised to \""@ + norm + "\" into "@ + kind
        + " value"@
}

/// The bit sequence that binary digits spell: as wide as there are digits.
pub open spec fn bitseq_value(s: Seq<char>, norm: Seq<char>) -> Result<ValueView, Seq<char>> {
    if 1 <= norm.len() <= MAX_WIDTH && all_binary_digits(norm) {
        Ok(ValueView::Bitseq(BitseqView { value: bits_value(norm), len: norm.len() }))
    } else {
        Err(failed_to_parse(s, norm, "bit-sequence"@))
    }
}

/// The integer value of a numeral, given what the outside parser read.
pub open spec fn integer_value(s: Seq<char>, norm: Seq<char>, parsed: Option<int>) -> Result<
    ValueView,
    Seq<char>,
> {
    match parsed {
        Some(i) => Ok(ValueView::Integer(i)),
        None => Err(failed_to_parse(s, norm, "integer"@)),
    }
}

/// The decimal value of a numeral, given what the outside library made of
/// it.
pub open spec fn decimal_value(s: Seq<char>, norm: Seq<char>, parsed: Option<DecimalView>)
    -> Result<ValueView, Seq<char>> {
    match parsed {
        Some(d) => Ok(ValueView::Decimal(d)),
        None => Err(failed_to_parse(s, norm, "rational"@)),
    }
}

/// The decimal that digits with a fractional part stand for in base
/// `radix`. In base ten it is the number that the digits spell, scaled by
/// the number of fractional digits. In another base it is
/// the integer that all the digits spell, divided by the base to the number
/// of fractional digits.
pub open spec fn fractional(norm: Seq<char>, radix: int) -> Option<DecimalView> {
    if radix == 10 {
        guarded_parse(norm)
    } else {
        let k = fraction_length(norm);
        match parsed_integer(without_point(norm), radix) {
            Some(n) => if k <= u32::MAX && fits_integer(power(radix, k)) {
                decimal_quotient(
                    decimal_of(n < 0, vstd::math::abs(n), 0),
                    decimal_of(false, power(radix, k) as nat, 0),
                )
            } else {
                None
            },
            None => None,
        }
    }
}

/// The value that the numeral `s` stands for, or the message of the error. A
/// numeral with a fractional separator is a decimal, another one of base two
/// a bit sequence, every other an integer.
pub open spec fn numeral_value(s: Seq<char>) -> Result<ValueView, Seq<char>> {
    match numeral_base(s) {
        None => Err(invalid_pattern(s)),
        Some(radix) => {
            let norm = normalised(s);
            if has_fractional_separator(s) {
                decimal_value(s, norm, fractional(norm, radix))
            } else if radix == 2 {
                bitseq_value(s, norm)
            } else {
                integer_value(s, norm, parsed_integer(norm, radix))
            }
        },
    }
}

fn radix_digit(c: char, radix: u32) -> (b: bool)
    requires
        is_radix(radix as int),
    ensures
        b == is_radix_digit(c, radix as int),
{
    if radix == 2 {
        c == '0' || c == '1'
    } else if radix == 8 {
        '0' <= c && c <= '7'
    } else if radix == 10 {
        '0' <= c && c <= '9'
    } else {
        ('0' <= c && c <= '9') || ('a' <= c && c <= 'f') || ('A' <= c && c <= 'F')
    }
}

fn radix_letter(c: char, radix: u32) -> (b: bool)
    requires
        is_radix(radix as int),
    ensures
        b == is_radix_letter(c, radix as int),
{
    if radix == 2 {
        c == 'b' || c == 'B'
    } else if radix == 8 {
        c == 'o' || c == 'O'
    } else if radix == 10 {
        c == 'd' || c == 'D'
    } else {
        c == 'x' || c == 'X'
    }
}

fn radix_prefix(s: &Vec<char>, radix: u32) -> (b: bool)
    requires
        is_radix(radix as int),
    ensures
        b == has_radix_prefix(s@, radix as int),
{
    s.len() >= 2 && s[0] == '0' && radix_letter(s[1], radix)
}

/// The index after the run of digits and group separators from `start` on.
fn end_of_run(s: &Vec<char>, start: usize, radix: u32) -> (end: usize)
    requires
        is_radix(radix as int),
        start <= s.len(),
    ensures
        end == start + group_run(s@, start as int, radix as int),
        start <= end <= s.len(),
{
    let mut j: usize = start;
    while j < s.len() && (radix_digit(s[j], radix) || s[j] == '_')
        invariant
            start <= j <= s.len(),
            is_radix(radix as int),
            j + group_run(s@, j as int, radix as int) == start + group_run(
                s@,
                start as int,
                radix as int,
            ),
        decreases s.len() - j,
    {
        j += 1;
    }
    j
}

fn has_grouped_digits(s: &Vec<char>, start: usize, radix: u32) -> (b: bool)
    requires
        is_radix(radix as int),
        start <= s.len(),
    ensures
        b == grouped_digits(s@, start as int, radix as int),
{
    start < s.len() && end_of_run(s, start, radix) == s.len() && radix_digit(
        s[s.len() - 1],
        radix,
    )
}

fn has_optional_digits(s: &Vec<char>, start: usize, radix: u32) -> (b: bool)
    requires
        is_radix(radix as int),
        start <= s.len(),
    ensures
        b == optional_digits(s@, start as int, radix as int),
{
    start == s.len() || has_grouped_digits(s, start, radix)
}

fn separator(c: char) -> (b: bool)
    ensures
        b == is_separator(c),
{
    c == '.' || c == ','
}

fn matches_prefixed(s: &Vec<char>, radix: u32) -> (b: bool)
    requires
        is_radix(radix as int),
    ensures
        b == (prefixed_integer(s@, radix as int) || prefixed_rational(s@, radix as int)),
{
    if !radix_prefix(s, radix) {
        return false;
    }
    if has_grouped_digits(s, 2, radix) {
        return true;
    }
    let p = end_of_run(s, 2, radix);
    p < s.len() && separator(s[p]) && has_optional_digits(s, p + 1, radix)
}

fn matches_decimal(s: &Vec<char>) -> (b: bool)
    ensures
        b == (decimal_integer(s@) || decimal_rational(s@)),
{
    let q: usize = if radix_prefix(s, 10) {
        if s.len() > 2 && s[2] == '_' {
            3
        } else {
            2
        }
    } else {
        0
    };
    if q < s.len() && radix_digit(s[q], 10) && has_optional_digits(s, q + 1, 10) {
        return true;
    }
    let p = end_of_run(s, q, 10);
    p < s.len() && separator(s[p]) && (p == q || radix_digit(s[q], 10)) && has_optional_digits(
        s,
        p + 1,
        10,
    )
}

/// The base of the numeral `s`, or `None` where `s` is no numeral.
pub fn check_str_and_get_base(s: &Vec<char>) -> (r: Option<u32>)
    ensures
        match r {
            Some(radix) => numeral_base(s@) == Some(radix as int) && is_radix(radix as int),
            None => numeral_base(s@) is None,
        },
{
    if matches_prefixed(s, 2) {
        Some(2)
    } else if matches_prefixed(s, 8) {
        Some(8)
    } else if matches_decimal(s) {
        Some(10)
    } else if matches_prefixed(s, 16) {
        Some(16)
    } else {
        None
    }
}

/// Whether `s` holds a fractional separator.
pub fn fractional_separator_in(s: &Vec<char>) -> (b: bool)
    ensures
        b == has_fractional_separator(s@),
{
    let mut i: usize = 0;
    while i < s.len()
        invariant
            i <= s.len(),
            forall|k: int| 0 <= k < i ==> s@[k] != '.' && s@[k] != ',',
        decreases s.len() - i,
    {
        if s[i] == '.' || s[i] == ',' {
            return true;
        }
        i += 1;
    }
    false
}

/// The digits of the numeral `s`: without group separators, with `.` as the
/// fractional separator and without the prefix of the base.
pub fn strip_str(s: &Vec<char>) -> (r: Vec<char>)
    ensures
        r@ == normalised(s@),
{
    let mut clean: Vec<char> = Vec::new();
    let mut i: usize = 0;
    assert(s@.take(0) =~= Seq::<char>::empty());
    while i < s.len()
        invariant
            i <= s.len(),
            clean@ == cleaned(s@.take(i as int)),
        decreases s.len() - i,
    {
        let c = s[i];
        proof {
            assert(s@.take(i + 1).drop_last() =~= s@.take(i as int));
        }
        if c == ',' {
            clean.push('.');
        } else if c != '_' {
            clean.push(c);
        }
        i += 1;
    }
    assert(s@.take(s.len() as int) =~= s@);
    let prefixed = radix_prefix(s, 2) || radix_prefix(s, 8) || radix_prefix(s, 10) || radix_prefix(
        s,
        16,
    );
    if prefixed && clean.len() >= 2 {
        let mut r: Vec<char> = Vec::new();
        let mut j: usize = 2;
        assert(clean@.skip(2).take(0) =~= Seq::<char>::empty());
        while j < clean.len()
            invariant
                2 <= j <= clean.len(),
                r@ == clean@.skip(2).take(j - 2),
            decreases clean.len() - j,
        {
            r.push(clean[j]);
            j += 1;
            assert(r@ =~= clean@.skip(2).take(j - 2));
        }
        assert(clean@.skip(2).take(clean.len() - 2) =~= clean@.skip(2));
        r
    } else {
        clean
    }
}

/// Builds the message for digits that give no value.
fn failure_message(s: &Vec<char>, norm: &Vec<char>, kind: &str) -> (m: String)
    ensures
        m@ == failed_to_parse(s@, norm@, kind@),
{
    let mut m = String::from_str("Failed to parse string \"");
    push_chars(&mut m, s);
    m.append("\" (normalised to \"");
    push_chars(&mut m, norm);
    m.append("\" into ");
    m.append(kind);
    m.append(" value");
    m
}

/// The index of the first `.` of `norm`, or its length where it has none.
fn point_index(norm: &Vec<char>) -> (p: usize)
    ensures
        p == integer_part(norm@).len(),
        p <= norm.len(),
{
    let mut p: usize = 0;
    while p < norm.len() && norm[p] != '.'
        invariant
            p <= norm.len(),
            forall|k: int| 0 <= k < p ==> norm@[k] != '.',
        decreases norm.len() - p,
    {
        p += 1;
    }
    proof {
        lemma_integer_part(norm@, p as int);
    }
    p
}

/// `norm` without its first `.`.
fn drop_point(norm: &Vec<char>) -> (r: Vec<char>)
    ensures
        r@ == without_point(norm@),
{
    let p = point_index(norm);
    let mut r: Vec<char> = Vec::new();
    let mut i: usize = 0;
    while i < norm.len()
        invariant
            i <= norm.len(),
            p <= norm.len(),
            r@ == if i <= p {
                norm@.take(i as int)
            } else {
                norm@.take(p as int) + norm@.subrange(p + 1, i as int)
            },
        decreases norm.len() - i,
    {
        if i != p {
            r.push(norm[i]);
        }
        i += 1;
        proof {
            if i <= p {
                assert(r@ =~= norm@.take(i as int));
            } else {
                assert(r@ =~= norm@.take(p as int) + norm@.subrange(p + 1, i as int));
            }
        }
    }
    proof {
        if p < norm.len() {
            assert(norm@.subrange(p + 1, norm.len() as int) =~= norm@.skip(p + 1));
        } else {
            assert(norm@.take(p as int) =~= norm@);
        }
    }
    r
}

impl Value {
    /// The value for digits read as a bit sequence.
    pub fn from_bitseq_str(s: &Vec<char>, norm: &Vec<char>, position: Position) -> (r: Result<
        Value,
        SyntaxError,
    >)
        ensures
            match r {
                Ok(v) => bitseq_value(s@, norm@) == Ok::<ValueView, Seq<char>>(v@),
                Err(e) => bitseq_value(s@, norm@) == Err::<ValueView, Seq<char>>(e@.msg)
                    && e@.position == position,
            },
    {
        match Bitseq::from_chars(norm) {
            Some(b) => Ok(Value::Bitseq(b)),
            None => Err(SyntaxError { msg: failure_message(s, norm, "bit-sequence"), position }),
        }
    }

    /// The value for what the outside parser read as an integer from the
    /// digits `norm` of the numeral `s`.
    pub fn from_parsed_integer(
        parsed: Option<Integer>,
        s: &Vec<char>,
        norm: &Vec<char>,
        position: Position,
    ) -> (r: Result<Value, SyntaxError>)
        ensures
            match r {
                Ok(v) => parsed matches Some(i) && v@ == ValueView::Integer(i@),
                Err(e) => parsed is None && e@ == (SyntaxErrorView {
                    msg: failed_to_parse(s@, norm@, "integer"@),
                    position,
                }),
            },
    {
        match parsed {
            Some(i) => Ok(Value::Integer(i)),
            None => Err(SyntaxError { msg: failure_message(s, norm, "integer"), position }),
        }
    }

    /// The value for what the outside library made of the digits `norm` of
    /// the numeral `s` as a decimal.
    pub fn from_parsed_decimal(
        parsed: Option<Decimal>,
        s: &Vec<char>,
        norm: &Vec<char>,
        position: Position,
    ) -> (r: Result<Value, SyntaxError>)
        ensures
            match r {
                Ok(v) => parsed matches Some(d) && v@ == ValueView::Decimal(d@),
                Err(e) => parsed is None && e@ == (SyntaxErrorView {
                    msg: failed_to_parse(s@, norm@, "rational"@),
                    position,
                }),
            },
    {
        match parsed {
            Some(d) => Ok(Value::Decimal(d)),
            None => Err(SyntaxError { msg: failure_message(s, norm, "rational"), position }),
        }
    }

    /// The decimal that digits with a fractional part stand for in base
    /// `radix`.
    pub fn fractional(norm: &Vec<char>, radix: u32) -> (r: Option<Decimal>)
        requires
            is_radix(radix as int),
        ensures
            match r {
                Some(d) => fractional(norm@, radix as int) == Some(d@),
                None => fractional(norm@, radix as int) is None,
            },
    {
        if radix == 10 {
            return Decimal::from_str(string_of(norm).as_str());
        }
        let p = point_index(norm);
        let k: usize = if p < norm.len() {
            norm.len() - p - 1
        } else {
            0
        };
        let digits = drop_point(norm);
        let n = match Integer::parse(string_of(&digits).as_str(), radix) {
            Some(n) => n,
            None => {
                return None;
            },
        };
        if k > u32::MAX as usize {
            return None;
        }
        let unit = match Integer::from_u64(radix as u64).checked_pow(k as u32) {
            Some(u) => u,
            None => {
                return None;
            },
        };
        proof {
            lemma_power_positive(radix as int, k as nat);
        }
        Decimal::from_integer(&n).div(&Decimal::from_integer(&unit))
    }

    /// Reads a numeral. A numeral with a fractional separator gives a
    /// decimal, another one of base two a bit sequence, every other an
    /// integer. An error at `position` where `s` is no numeral or its digits
    /// give no value.
    pub fn from_str(s: &str, position: Position) -> (r: Result<Value, SyntaxError>)
        ensures
            match r {
                Ok(v) => numeral_value(s@) == Ok::<ValueView, Seq<char>>(v@),
                Err(e) => numeral_value(s@) == Err::<ValueView, Seq<char>>(e@.msg) && e@.position
                    == position,
            },
    {
        let chars = chars_of(s);
        Value::from_chars(&chars, position)
    }

    /// As [`Value::from_str`], on characters.
    pub fn from_chars(s: &Vec<char>, position: Position) -> (r: Result<Value, SyntaxError>)
        ensures
            match r {
                Ok(v) => numeral_value(s@) == Ok::<ValueView, Seq<char>>(v@),
                Err(e) => numeral_value(s@) == Err::<ValueView, Seq<char>>(e@.msg) && e@.position
                    == position,
            },
    {
        let radix = match check_str_and_get_base(s) {
            Some(radix) => radix,
            None => {
                return Err(
                    SyntaxError::quoting(
                        "The pattern of the numeral string \"",
                        s,
                        "\" is invalid",
                        position,
                    ),
                );
            },
        };
        let norm = strip_str(s);
        if fractional_separator_in(s) {
            Value::from_parsed_decimal(Value::fractional(&norm, radix), s, &norm, position)
        } else if radix == 2 {
            Value::from_bitseq_str(s, &norm, position)
        } else {
            let parsed = Integer::parse(string_of(&norm).as_str(), radix);
            Value::from_parsed_integer(parsed, s, &norm, position)
        }
    }
}

/// The text of a value: a bit sequence as a binary literal of its full
/// width, an integer in decimal digits, a decimal with one fractional digit
/// at least and no zeros after its last other one.
pub open spec fn rendered(v: ValueView) -> Seq<char> {
    match v {
        ValueView::Bitseq(b) => Bitseq::rendering(b),
        ValueView::Integer(i) => signed_decimal_text(i),
        ValueView::Decimal(d) => decimal_rendering(d),
    }
}

impl Value {
    /// Renders the value: a bit sequence as a binary literal of its full
    /// width, an integer in decimal digits, a decimal with one fractional
    /// digit at least and no zeros after its last other one.
    ///
    /// The text of a bit sequence, and of an integer that is not below zero,
    /// is a numeral that stands for the same value. The text of a decimal
    /// without a sign is a numeral that stands for the same number, where it
    /// is short enough to be read and its digits still fit.
    pub fn render(&self) -> (s: String)
        ensures
            s@ == rendered(self@),
            reads_back(self@) ==> numeral_value(s@) == Ok::<ValueView, Seq<char>>(self@),
            self@ is Decimal && decimal_reads_back(self@->Decimal_0) ==> (numeral_value(
                s@,
            ) matches Ok(ValueView::Decimal(w)) && same_number(w, self@->Decimal_0)),
    {
        match self {
            Value::Bitseq(b) => {
                b.well_formed();
                proof {
                    law_bitseq_round_trip(b@);
                }
                string_of(&b.to_chars())
            },
            Value::Integer(i) => {
                let s = i.to_string();
                proof {
                    if i@ >= 0 {
                        lemma_integer_numeral(i@ as nat);
                    }
                }
                s
            },
            Value::Decimal(d) => {
                proof {
                    if decimal_reads_back(d@) {
                        law_decimal_round_trip(d@);
                    }
                }
                d.to_string()
            },
        }
    }

    /// The value with its kind, as `Value(<kind>: <text>)`.
    pub fn to_string(&self) -> (s: String)
        ensures
            s@ == "Value("@ + self@.type_().name() + ": "@ + rendered(self@) + ")"@,
    {
        let mut s = String::from_str("Value(");
        s.append(self.type_().as_str());
        s.append(": ");
        let text = self.render();
        s.append(text.as_str());
        s.append(")");
        s
    }
}

/// Whether the text of `v` is a numeral that stands for `v` again: a bit
/// sequence, or an integer that is not below zero.
pub open spec fn reads_back(v: ValueView) -> bool {
    match v {
        ValueView::Bitseq(_) => true,
        ValueView::Integer(i) => i >= 0,
        ValueView::Decimal(_) => false,
    }
}

/// The decimal numeral of a number is a numeral of base ten without a
/// fractional part, and its digits are itself.
pub proof fn lemma_integer_numeral(n: nat)
    ensures
        numeral_base(decimal_text(n)) == Some(10int),
        !has_fractional_separator(decimal_text(n)),
        normalised(decimal_text(n)) == decimal_text(n),
{
    let s = decimal_text(n);
    lemma_decimal_text_digits(n);
    assert forall|k: int| 1 <= k < s.len() implies is_grouped(s[k], 10) by {}
    lemma_group_run_all(s, 1, 10);
    assert(!has_radix_prefix(s, 2));
    assert(!has_radix_prefix(s, 8));
    assert(!has_radix_prefix(s, 10));
    assert(!has_radix_prefix(s, 16));
    assert(decimal_prefix_length(s) == 0);
    assert(decimal_integer(s));
    assert forall|k: int| 0 <= k < s.len() implies s[k] != '_' && s[k] != ',' by {}
    lemma_cleaned_same(s);
}

/// Where every character from `start` on is a digit or a group separator,
/// the run from `start` reaches the end.
pub proof fn lemma_group_run_all(s: Seq<char>, start: int, radix: int)
    requires
        0 <= start <= s.len(),
        forall|k: int| start <= k < s.len() ==> is_grouped(s[k], radix),
    ensures
        start + group_run(s, start, radix) == s.len(),
    decreases s.len() - start,
{
    if start < s.len() {
        lemma_group_run_all(s, start + 1, radix);
    }
}

/// A text without group separators and commas is clean already.
pub proof fn lemma_cleaned_same(s: Seq<char>)
    requires
        forall|k: int| 0 <= k < s.len() ==> s[k] != '_' && s[k] != ',',
    ensures
        cleaned(s) == s,
    decreases s.len(),
{
    if s.len() > 0 {
        lemma_cleaned_same(s.drop_last());
        assert(s.drop_last().push(s.last()) =~= s);
    }
}

/// The text of a bit sequence is a numeral that stands for the same bit
/// sequence: rendering and reading again gives the value back.
pub proof fn law_bitseq_round_trip(b: BitseqView)
    requires
        b.wf(),
    ensures
        numeral_value(rendered(ValueView::Bitseq(b))) == Ok::<ValueView, Seq<char>>(
            ValueView::Bitseq(b),
        ),
{
    let digits = binary_text(b.value, b.len);
    let s = rendered(ValueView::Bitseq(b));
    lemma_binary_text_value(b.value, b.len);
    assert(s.len() == b.len + 2);
    assert(s[0] == '0' && s[1] == 'b');
    assert forall|k: int| 2 <= k < s.len() implies s[k] == '0' || s[k] == '1' by {
        assert(s[k] == digits[k - 2]);
    }
    assert forall|k: int| 2 <= k < s.len() implies is_grouped(s[k], 2) by {
        assert(s[k] == digits[k - 2]);
    }
    lemma_group_run_all(s, 2, 2);
    assert(prefixed_integer(s, 2));
    assert(!has_fractional_separator(s)) by {
        assert forall|k: int| 0 <= k < s.len() implies s[k] != '.' && s[k] != ',' by {
            if k >= 2 {
                assert(s[k] == digits[k - 2]);
            }
        }
    }
    assert(cleaned(s) == s) by {
        assert forall|k: int| 0 <= k < s.len() implies s[k] != '_' && s[k] != ',' by {
            if k >= 2 {
                assert(s[k] == digits[k - 2]);
            }
        }
        lemma_cleaned_same(s);
    }
    assert(has_base_prefix(s));
    assert(normalised(s) =~= digits);
}

/// For a numeral that stands for a bit sequence, rendering the value and
/// reading the text again gives the same value.
pub proof fn law_bitseq_numeral_round_trip(s: Seq<char>)
    requires
        numeral_value(s) matches Ok(v) && v is Bitseq,
    ensures
        numeral_value(rendered(numeral_value(s)->Ok_0)) == numeral_value(s),
{
    let v = numeral_value(s)->Ok_0;
    let norm = normalised(s);
    assert(v == ValueView::Bitseq(BitseqView { value: bits_value(norm), len: norm.len() }));
    crate::bitseqs::lemma_bits_value_bound(norm);
    law_bitseq_round_trip(v->Bitseq_0);
}

/// The characters of a run are digits or group separators.
proof fn lemma_group_run_chars(s: Seq<char>, start: int, radix: int)
    requires
        0 <= start,
    ensures
        forall|k: int|
            start <= k < start + group_run(s, start, radix) ==> is_grouped(#[trigger] s[k], radix),
        start + group_run(s, start, radix) <= s.len() || group_run(s, start, radix) == 0,
    decreases s.len() - start,
{
    if start < s.len() && is_grouped(s[start], radix) {
        lemma_group_run_chars(s, start + 1, radix);
    }
}

/// A numeral holds no sign.
pub proof fn lemma_numeral_without_sign(s: Seq<char>)
    requires
        numeral_base(s) is Some,
    ensures
        forall|k: int| 0 <= k < s.len() ==> #[trigger] s[k] != '-' && s[k] != '+',
{
    let radix = numeral_base(s)->0;
    assert(is_numeral_of(s, radix));
    let q = if radix == 10 {
        decimal_prefix_length(s)
    } else {
        2
    };
    let p: int = q + group_run(s, q, radix) as int;
    lemma_group_run_chars(s, q, radix);
    lemma_group_run_chars(s, q + 1, radix);
    lemma_group_run_chars(s, p + 1, radix);
    assert forall|k: int| 0 <= k < s.len() implies #[trigger] s[k] != '-' && s[k] != '+' by {
        if (radix == 10 && decimal_integer(s)) || (radix != 10 && prefixed_integer(s, radix)) {
            if k > q {
                assert(is_grouped(s[k], radix));
            }
        } else {
            if q <= k < p {
                assert(is_grouped(s[k], radix));
            } else if k > p {
                assert(is_grouped(s[k], radix));
            }
        }
    }
}

/// Cleaning brings in no character but the point.
pub proof fn lemma_cleaned_without(s: Seq<char>, c: char)
    requires
        c != '.',
        forall|k: int| 0 <= k < s.len() ==> #[trigger] s[k] != c,
    ensures
        forall|k: int| 0 <= k < cleaned(s).len() ==> #[trigger] cleaned(s)[k] != c,
    decreases s.len(),
{
    if s.len() > 0 {
        assert forall|k: int| 0 <= k < s.drop_last().len() implies #[trigger] s.drop_last()[k]
            != c by {
            assert(s.drop_last()[k] == s[k]);
        }
        lemma_cleaned_without(s.drop_last(), c);
        let before = cleaned(s.drop_last());
        assert(s[s.len() - 1] != c);
        assert forall|k: int| 0 <= k < cleaned(s).len() implies #[trigger] cleaned(s)[k] != c by {
            if k < before.len() {
                assert(cleaned(s)[k] == before[k]);
            }
        }
    }
}

/// Digits spell no number below zero.
pub proof fn lemma_digits_value_not_negative(digits: Seq<char>, radix: int)
    requires
        radix >= 0,
    ensures
        digits_value(digits, radix) >= 0,
    decreases digits.len(),
{
    if digits.len() > 0 {
        lemma_digits_value_not_negative(digits.drop_last(), radix);
        assert(digits_value(digits.drop_last(), radix) * radix >= 0) by (nonlinear_arith)
            requires
                digits_value(digits.drop_last(), radix) >= 0,
                radix >= 0,
        ;
    }
}

/// The integer that a numeral stands for is not below zero.
pub proof fn lemma_integer_numeral_not_negative(s: Seq<char>)
    requires
        numeral_value(s) matches Ok(v) && v is Integer,
    ensures
        numeral_value(s)->Ok_0->Integer_0 >= 0,
        fits_integer(numeral_value(s)->Ok_0->Integer_0),
{
    let radix = numeral_base(s)->0;
    let norm = normalised(s);
    lemma_numeral_without_sign(s);
    lemma_cleaned_without(s, '-');
    lemma_cleaned_without(s, '+');
    assert(parsed_integer(norm, radix) is Some);
    assert(norm.len() > 0);
    assert(norm[0] != '-' && norm[0] != '+') by {
        if has_base_prefix(s) && cleaned(s).len() >= 2 {
            assert(norm[0] == cleaned(s)[2]);
        }
    }
    lemma_digits_value_not_negative(norm, radix);
}

/// For a numeral that stands for a bit sequence or an integer, rendering the
/// value and reading the text again gives the same value.
pub proof fn law_numeral_round_trip(s: Seq<char>)
    requires
        numeral_value(s) matches Ok(v) && !(v is Decimal),
    ensures
        numeral_value(rendered(numeral_value(s)->Ok_0)) == numeral_value(s),
{
    let v = numeral_value(s)->Ok_0;
    match v {
        ValueView::Bitseq(_) => {
            law_bitseq_numeral_round_trip(s);
        },
        ValueView::Integer(i) => {
            lemma_integer_numeral_not_negative(s);
            lemma_integer_numeral(i as nat);
            lemma_signed_text_reads_back(i);
        },
        ValueView::Decimal(_) => {},
    }
}

/// A power of a base above zero is above zero.
pub proof fn lemma_power_positive(base: int, n: nat)
    requires
        base >= 1,
    ensures
        power(base, n) >= 1,
    decreases n,
{
    if n > 0 {
        lemma_power_positive(base, (n - 1) as nat);
        assert(base * power(base, (n - 1) as nat) >= 1) by (nonlinear_arith)
            requires
                base >= 1,
                power(base, (n - 1) as nat) >= 1,
        ;
    }
}

} // verus!
