use tcalc::bitseqs::Bitseq;
use tcalc::decimals::{trim_fraction, Constant, Decimal};
use tcalc::errors::ValueError;
use tcalc::integers::Integer;
use tcalc::operations::Arithmetic;
use tcalc::position::Position;
use tcalc::values::{Value, ValueType};

fn integer(text: &str) -> Integer {
    match text.strip_prefix('-') {
        Some(digits) => Integer::parse(digits, 10).expect("bad integer").checked_neg().expect("no negation"),
        None => Integer::parse(text, 10).expect("bad integer"),
    }
}

fn value(text: &str) -> Value {
    Value::from_str(text, Position::new(0, 0)).expect("bad numeral")
}

fn message(e: ValueError) -> String {
    e.message()
}

fn trimmed(text: &str) -> String {
    let chars: Vec<char> = text.chars().collect();
    trim_fraction(&chars).into_iter().collect()
}

#[test]
fn bitseq_literal_has_length_and_value() {
    let b = Bitseq::from_str("101").expect("no bit sequence");
    assert_eq!(b.len(), 3);
    assert_eq!(b.inner_value(), 5);
    let mut n = b;
    n.neg_mut();
    assert_eq!(n.len(), 3);
    assert_eq!(n.inner_value(), 2);
    let text: String = n.to_chars().into_iter().collect();
    assert_eq!(text, "0b010");
}

#[test]
fn bitseq_numeral_negated_bitwise() {
    let v = value("0b101");
    assert_eq!(v.type_(), ValueType::Bitseq);
    assert_eq!(v.render(), "0b101");
    let n = v.bitwise_neg().expect("no negation");
    assert_eq!(n.type_(), ValueType::Bitseq);
    assert_eq!(n.render(), "0b010");
    match n {
        Value::Bitseq(b) => {
            assert_eq!(b.len(), 3);
            assert_eq!(b.inner_value(), 2);
        }
        _ => panic!("not a bit sequence"),
    }
}

#[test]
fn bitseq_keeps_leading_zeros() {
    let b = Bitseq::from_str("000101011").expect("no bit sequence");
    assert_eq!(b.len(), 9);
    assert_eq!(b.inner_value(), 43);
    assert_eq!(value("0b0001_0101_1").render(), "0b000101011");
}

#[test]
fn bitseq_rejects_bad_text() {
    assert!(Bitseq::from_str("").is_none());
    assert!(Bitseq::from_str("102").is_none());
    assert!(Bitseq::from_str(&"1".repeat(128)).is_none());
    let widest = Bitseq::from_str(&"1".repeat(127)).expect("no bit sequence");
    assert_eq!(widest.len(), 127);
    assert_eq!(widest.inner_value(), (1u128 << 127) - 1);
}

#[test]
fn bitseq_from_value_is_shortest() {
    assert_eq!(Bitseq::from_value(0).expect("none").len(), 1);
    assert_eq!(Bitseq::from_value(1).expect("none").len(), 1);
    assert_eq!(Bitseq::from_value(5).expect("none").len(), 3);
    assert_eq!(Bitseq::from_value((1u128 << 127) - 1).expect("none").len(), 127);
    assert!(Bitseq::from_value(1u128 << 127).is_none());
    assert!(Bitseq::zero().is_zero());
    assert!(!Bitseq::one().is_zero());
    assert_eq!(Bitseq::new(6, 4).inner_value(), 6);
}

#[test]
fn integer_converts_to_bitseq_and_back() {
    for text in ["0", "1", "5", "255", "170141183460469231731687303715884105727"] {
        let mut v = Value::from_integer(integer(text));
        v.try_mutate_into(ValueType::Bitseq).expect("no bit sequence");
        assert_eq!(v.type_(), ValueType::Bitseq);
        v.try_mutate_into(ValueType::Integer).expect("no integer");
        assert_eq!(v.render(), text);
    }
}

#[test]
fn integer_outside_range_has_no_bitseq() {
    let mut negative = Value::from_integer(integer("-1"));
    let e = negative.try_mutate_into(ValueType::Bitseq).err().expect("converted");
    assert_eq!(e.msg, "Cannot convert negative Integer to Bitseq");
    assert_eq!(negative.render(), "-1");
    let mut wide = Value::from_integer(integer("170141183460469231731687303715884105728"));
    let e = wide.try_mutate_into(ValueType::Bitseq).err().expect("converted");
    assert_eq!(e.msg, "Cannot convert Integer that's too wide to Bitseq");
    let mut huge = Value::from_integer(integer("340282366920938463463374607431768211456"));
    assert!(huge.try_mutate_into(ValueType::Bitseq).is_err());
}

#[test]
fn integer_to_u128_and_back() {
    assert_eq!(Integer::from_u128(u128::MAX).to_u128(), Some(u128::MAX));
    assert_eq!(Integer::from_u128(u128::MAX).to_string(), "340282366920938463463374607431768211455");
    assert_eq!(integer("340282366920938463463374607431768211456").to_u128(), None);
    assert_eq!(integer("-1").to_u128(), None);
    assert!(integer("-1").is_negative());
    assert!(!integer("0").is_negative());
    assert!(integer("0").is_zero());
    assert!(!integer("18446744073709551616").is_zero());
    assert_eq!(Integer::from_bool(true).to_string(), "1");
    assert_eq!(Integer::from_bool(false).to_string(), "0");
}

#[test]
fn integer_arithmetic_is_exact() {
    let a = integer("123456789012345678901234567890");
    let b = integer("-987654321");
    assert_eq!(a.checked_add(&b).expect("overflow").to_string(), "123456789012345678900246913569");
    assert_eq!(a.checked_sub(&b).expect("overflow").to_string(), "123456789012345678902222222211");
    assert_eq!(
        a.checked_mul(&b).expect("overflow").to_string(),
        "-121932631124828532112482853211126352690"
    );
    assert_eq!(a.checked_div(&b).expect("overflow").to_string(), "-124999998873437499901");
    assert_eq!(a.checked_rem(&b).expect("overflow").to_string(), "574845669");
    assert_eq!(integer("-7").checked_div(&integer("2")).expect("overflow").to_string(), "-3");
    assert_eq!(integer("-7").checked_rem(&integer("2")).expect("overflow").to_string(), "-1");
    assert_eq!(integer("2").checked_pow(10).expect("overflow").to_string(), "1024");
    assert_eq!(integer("-3").checked_pow(3).expect("overflow").to_string(), "-27");
    assert_eq!(b.checked_neg().expect("overflow").to_string(), "987654321");
    assert!(a.checked_div(&integer("0")).is_none());
    assert!(a.checked_rem(&integer("0")).is_none());
    assert!(b.less_than(&a));
    assert!(!a.less_than(&b));
    assert!(!a.less_than(&a));
    assert!(a.equals(&a));
    assert!(!a.equals(&b));
}

#[test]
fn integer_overflow_is_reported() {
    let max = integer("2").checked_pow(510).expect("overflow");
    let doubled = max.checked_add(&max);
    assert!(doubled.is_none());
    assert!(integer("2").checked_pow(511).is_none());
    assert!(max.checked_mul(&integer("2")).is_none());
    let min = integer("-2").checked_pow(511).expect("overflow");
    assert!(min.checked_neg().is_none());
    assert!(min.checked_div(&integer("-1")).is_none());
    assert!(min.checked_sub(&integer("1")).is_none());
    assert_eq!(min.to_string().len(), 155);
}

#[test]
fn integer_parse_reads_radix() {
    assert_eq!(Integer::parse("ff", 16).expect("none").to_string(), "255");
    assert_eq!(Integer::parse("777", 8).expect("none").to_string(), "511");
    assert!(Integer::parse("12a", 10).is_none());
    assert!(Integer::parse("", 10).is_none());
    let e = Integer::from_str_radix("zz", 10).err().expect("parsed");
    assert_eq!(e.msg, "Failed to parse string \"{}\" of base {} into Integer");
    assert_eq!(Integer::from_str_radix("42", 10).ok().expect("none").to_string(), "42");
}

#[test]
fn integer_parse_reads_sign_and_digits_only() {
    assert_eq!(Integer::parse("+5", 10).expect("none").to_string(), "5");
    assert_eq!(Integer::parse("-5", 10).expect("none").to_string(), "-5");
    assert_eq!(Integer::parse("-0", 10).expect("none").to_string(), "0");
    assert_eq!(Integer::parse("Zz", 36).expect("none").to_string(), "1295");
    assert_eq!(Integer::parse("-aF", 16).expect("none").to_string(), "-175");
    for text in ["", "+", "-", "+-1", "--1", "1+", "1_0", " 1", "1 ", "0x1", "1.0", "٣"] {
        assert!(Integer::parse(text, 10).is_none(), "{} was read", text);
    }
    assert!(Integer::parse("8", 8).is_none());
    assert!(Integer::parse("2", 2).is_none());
    assert!(Integer::parse("g", 16).is_none());
    assert!(Integer::parse("a", 10).is_none());
}

#[test]
fn integer_parse_holds_what_fits() {
    let bound = "6703903964971298549787012499102923063739682910296196688861780721860882015036773488400937149083451713845015929093243025426876941405973284973216824503042048";
    let most = "6703903964971298549787012499102923063739682910296196688861780721860882015036773488400937149083451713845015929093243025426876941405973284973216824503042047";
    assert!(Integer::parse(bound, 10).is_none());
    assert_eq!(Integer::parse(most, 10).expect("none").to_string(), most);
    assert_eq!(
        Integer::parse(&format!("-{}", bound), 10).expect("none").to_string(),
        format!("-{}", bound)
    );
    assert!(Integer::parse(&format!("-{}", bound.replace("2048", "2049")), 10).is_none());
    let zeros = "0".repeat(600);
    assert_eq!(Integer::parse(&format!("{}7", zeros), 10).expect("none").to_string(), "7");
    assert_eq!(Integer::parse(&format!("{}7", zeros), 8).expect("none").to_string(), "7");
    assert_eq!(Integer::parse(&format!("{}7", zeros), 36).expect("none").to_string(), "7");
    assert_eq!(Integer::parse(&format!("{}7", "0".repeat(127)), 16).expect("none").to_string(), "7");
    assert!(Integer::parse(&format!("{}7", "0".repeat(128)), 16).is_none());
    assert!(Integer::parse(&format!("-{}7", "0".repeat(128)), 16).is_none());
    assert_eq!(Integer::parse(&format!("+{}7", "0".repeat(127)), 16).expect("none").to_string(), "7");
    assert_eq!(Integer::parse(&format!("{}1", "0".repeat(511)), 2).expect("none").to_string(), "1");
    assert!(Integer::parse(&format!("{}1", "0".repeat(512)), 2).is_none());
    assert_eq!(Integer::parse(&format!("{}3", "0".repeat(255)), 4).expect("none").to_string(), "3");
    assert!(Integer::parse(&format!("{}3", "0".repeat(256)), 4).is_none());
    assert!(Integer::parse(&"f".repeat(128), 16).is_none());
    assert_eq!(Integer::parse(&format!("7{}", "f".repeat(127)), 16).expect("none").to_string(), most);
    assert!(Integer::parse(&format!("8{}", "0".repeat(127)), 16).is_none());
    assert_eq!(
        Integer::parse(&format!("-8{}", "0".repeat(127)), 16).expect("none").to_string(),
        format!("-{}", bound)
    );
    assert!(Integer::parse(&"1".repeat(512), 2).is_none());
    assert_eq!(Integer::parse(&"1".repeat(511), 2).expect("none").to_string(), most);
}

#[test]
fn factorial_of_five_and_of_hundred() {
    let five = Value::from_integer(integer("5")).factorial().expect("no factorial");
    assert_eq!(five.type_(), ValueType::Integer);
    assert_eq!(five.render(), "120");
    let e = Value::from_integer(integer("100")).factorial().err().expect("factorial");
    let text = message(e);
    assert_eq!(
        text,
        "Factorial of value > 97 exceeds size of Integer type, consider approximating the factorial via `gamma (x + 1)`"
    );
}

#[test]
fn factorial_edges() {
    assert_eq!(integer("0").factorial().ok().expect("none").to_string(), "1");
    assert_eq!(integer("1").factorial().ok().expect("none").to_string(), "1");
    assert_eq!(
        integer("97").factorial().ok().expect("none").to_string(),
        "96192759682482119853328425949563698712343813919172976158104477319333745612481875498805879175589072651261284189679678167647067832320000000000000000000000"
    );
    assert!(integer("98").factorial().is_err());
    let e = integer("-1").factorial().err().expect("factorial");
    assert_eq!(e.msg, "Factorial undefined for values < 0");
    let b = Value::from_bitseq(Bitseq::from_str("100").expect("none"));
    assert_eq!(b.factorial().expect("none").render(), "24");
}

#[test]
fn unary_operators() {
    let five = Value::from_integer(integer("5"));
    assert_eq!(five.unary_pos().render(), "5");
    assert_eq!(five.unary_neg().expect("none").render(), "-5");
    let bits = value("0b101");
    let negated = bits.unary_neg().expect("none");
    assert_eq!(negated.type_(), ValueType::Integer);
    assert_eq!(negated.render(), "-5");
    assert_eq!(value("2.5").unary_neg().expect("none").render(), "-2.5");
    assert_eq!(Value::from_integer(integer("-5")).abs().expect("none").render(), "5");
    assert_eq!(value("2.5").unary_neg().expect("none").abs().expect("none").render(), "2.5");
}

#[test]
fn logical_negation_gives_an_integer() {
    for (text, expected) in [("0", "1"), ("7", "0"), ("0b000", "1"), ("0b010", "0"), ("0.0", "1"), ("0.5", "0")] {
        let n = value(text).logical_neg();
        assert_eq!(n.type_(), ValueType::Integer);
        assert_eq!(n.render(), expected);
    }
}

#[test]
fn bitwise_negation_promotes_or_fails() {
    assert_eq!(Value::from_integer(integer("5")).bitwise_neg().expect("none").render(), "0b010");
    assert_eq!(value("5.0").bitwise_neg().expect("none").render(), "0b010");
    let e = Value::from_integer(integer("-5")).bitwise_neg().err().expect("negated");
    assert!(matches!(e, ValueError::Conversion(_)));
    let e = value("5.5").bitwise_neg().err().expect("negated");
    assert_eq!(
        message(e),
        "Cannot convert Decimal to Bitseq that doesn't losslessly convert to Integer"
    );
}

#[test]
fn numerals_of_every_kind() {
    assert_eq!(value("42").type_(), ValueType::Integer);
    assert_eq!(value("83_382_292").render(), "83382292");
    assert_eq!(value("0d17").render(), "17");
    assert_eq!(value("0D_17").render(), "17");
    assert_eq!(value("0xDEADBEEF0").render(), "59774856944");
    assert_eq!(value("0o777").render(), "511");
    assert_eq!(value("0B11").type_(), ValueType::Bitseq);
    assert_eq!(value("12345.06789").type_(), ValueType::Decimal);
    assert_eq!(value("12345.06789").render(), "12345.06789");
    assert_eq!(value("17,343").render(), "17.343");
    assert_eq!(value("28.10").render(), "28.1");
    assert_eq!(value("5.").render(), "5.0");
    assert_eq!(value(".5").render(), "0.5");
    assert_eq!(value("0b1001101.100101").render(), "77.578125");
    assert_eq!(value("0x_ff.8").render(), "255.5");
    assert_eq!(value("0o1.4").render(), "1.5");
    assert_eq!(value("0b1.").render(), "1.0");
}

#[test]
fn texts_that_are_no_numerals() {
    for text in ["", "x", "0b", "0b102", "0b_", "12_", "_12", "1__2_", "0x", "0xg", "0o8", "1.2.3", "83_382_292x22", "0d", "1e5", "0b.", "-5"] {
        let r = Value::from_str(text, Position::new(4, 2));
        let e = match r {
            Ok(v) => panic!("{} read as {}", text, v.render()),
            Err(e) => e,
        };
        assert_eq!(e.position.line, 4);
        assert_eq!(e.position.chr, 2);
        if text == "0b." {
            assert_eq!(e.msg, "Failed to parse string \"0b.\" (normalised to \".\" into rational value");
        } else {
            assert_eq!(e.msg, format!("The pattern of the numeral string \"{}\" is invalid", text));
        }
    }
}

#[test]
fn numerals_too_large_fail_to_parse() {
    let wide = format!("0b{}", "1".repeat(128));
    let e = Value::from_str(&wide, Position::new(0, 0)).err().expect("read");
    assert_eq!(
        e.msg,
        format!(
            "Failed to parse string \"{}\" (normalised to \"{}\" into bit-sequence value",
            wide,
            "1".repeat(128)
        )
    );
    let big = "9".repeat(200);
    let e = Value::from_str(&big, Position::new(0, 0)).err().expect("read");
    assert_eq!(
        e.msg,
        format!("Failed to parse string \"{}\" (normalised to \"{}\" into integer value", big, big)
    );
}

#[test]
fn rendering_reads_back() {
    for text in ["0b0", "0b1", "0b000101011", "0", "7", "123456789012345678901234567890", "2.5", "0.001", "100.0"] {
        let v = value(text);
        let again = value(&v.render());
        assert_eq!(again.type_(), v.type_());
        assert_eq!(again.render(), v.render());
    }
    assert_eq!(value("12").to_string(), "Value(Integer: 12)");
    assert_eq!(value("0b01").to_string(), "Value(Bitseq: 0b01)");
    assert_eq!(value("1.50").to_string(), "Value(Decimal: 1.5)");
}

#[test]
fn fraction_is_trimmed_to_one_digit_at_least() {
    assert_eq!(trimmed("5"), "5.0");
    assert_eq!(trimmed("5.000"), "5.0");
    assert_eq!(trimmed("5.0100"), "5.01");
    assert_eq!(trimmed("5."), "5.0");
    assert_eq!(trimmed(".50"), ".5");
    assert_eq!(trimmed("-0.125"), "-0.125");
    assert_eq!(trimmed("100"), "100.0");
    assert_eq!(Decimal::from_parts(false, 5, 0).to_string(), "5.0");
    assert_eq!(Decimal::from_parts(true, 1250, 3).to_string(), "-1.25");
}

#[test]
fn decimal_converts_to_integer_without_fraction_only() {
    let mut whole = value("5.0");
    whole.try_mutate_into(ValueType::Integer).expect("no integer");
    assert_eq!(whole.render(), "5");
    let mut negative = value("120.00").unary_neg().expect("none");
    negative.try_mutate_into(ValueType::Integer).expect("no integer");
    assert_eq!(negative.render(), "-120");
    let mut fraction = value("5.5");
    let e = fraction.try_mutate_into(ValueType::Integer).err().expect("converted");
    assert_eq!(e.msg, "Cannot convert Decimal with a fractional part to Integer");
    assert_eq!(fraction.render(), "5.5");
    let scaled = Decimal::from_parts(false, 5, -3).to_integer().ok().expect("no integer");
    assert_eq!(scaled.to_string(), "5000");
    let e = Decimal::from_parts(false, 1, -200).to_integer().err().expect("converted");
    assert_eq!(e.msg, "Decimal too large to convert to Integer");
    assert_eq!(Decimal::from_parts(false, 0, 300).to_integer().ok().expect("none").to_string(), "0");
    let e = Decimal::from_parts(false, 1, 300).to_integer().err().expect("converted");
    assert_eq!(e.msg, "Cannot convert Decimal with a fractional part to Integer");
}

#[test]
fn values_convert_to_decimal() {
    let mut bits = value("0b101");
    bits.try_mutate_into(ValueType::Decimal).expect("no decimal");
    assert_eq!(bits.render(), "5.0");
    let mut negative = Value::from_integer(integer("-12"));
    negative.try_mutate_into(ValueType::Decimal).expect("no decimal");
    assert_eq!(negative.render(), "-12.0");
    let mut back = negative;
    back.try_mutate_into(ValueType::Bitseq).err().expect("converted");
    assert_eq!(Value::from_decimal(Decimal::one()).render(), "1.0");
    assert_eq!(Value::from_decimal(Decimal::zero()).render(), "0.0");
    assert_eq!(Decimal::from_u128(u128::MAX).to_string(), "340282366920938463463374607431768211455.0");
    let least = integer("-2").checked_pow(511).expect("overflow");
    let e = Decimal::from_integer(&least).to_integer().err().expect("converted");
    assert_eq!(e.msg, "Decimal too large to convert to Integer");
    let next = least.checked_add(&Integer::one()).expect("overflow");
    assert_eq!(
        Decimal::from_integer(&next).to_integer().ok().expect("none").to_string(),
        next.to_string()
    );
}

#[test]
fn decimal_arithmetic_through_the_outside_library() {
    let a = Decimal::from_str("1.5").expect("none");
    let b = Decimal::from_str("0.25").expect("none");
    assert_eq!(a.add(&b).expect("none").to_string(), "1.75");
    assert_eq!(a.sub(&b).expect("none").to_string(), "1.25");
    assert_eq!(a.mul(&b).expect("none").to_string(), "0.375");
    assert_eq!(a.div(&b).expect("none").to_string(), "6.0");
    assert_eq!(Decimal::from_str("2").expect("none").pow(&Decimal::from_str("3").expect("none")).expect("none").to_string(), "8.0");
    assert!(a.neg().pow(&b).is_some());
    assert!(Decimal::zero().pow(&b).is_none());
    assert!(a.pow(&b.neg()).is_none());
    assert!(Decimal::from_parts(false, 1, -5).pow(&Decimal::from_parts(false, 30, 0)).is_none());
    assert!(a.power_is_taken(&b));
    assert!(!Decimal::zero().power_is_taken(&b));
    assert_eq!(Decimal::from_str("6.25").expect("none").sqrt().expect("none").to_string(), "2.5");
    assert!(b.less_than(&a));
    assert!(!a.less_than(&b));
    assert!(a.div(&Decimal::zero()).is_none());
    assert!(Decimal::from_str("abc").is_none());
    assert!(Decimal::from_str("1e5").is_none());
    assert!(Decimal::from_str("1.5e-2147483648").is_none());
    assert!(Decimal::from_str("1.5E7").is_none());
    assert!(Decimal::from_str("1_000").is_none());
    assert!(Decimal::from_str("").is_none());
    assert!(Decimal::from_str(".").is_none());
    assert!(Decimal::from_str("1.2.3").is_none());
    assert_eq!(Decimal::from_str("-1.50").expect("none").to_string(), "-1.5");
    assert_eq!(Decimal::from_str("+2.").expect("none").to_string(), "2.0");
    assert_eq!(Decimal::from_str("007.25").expect("none").to_string(), "7.25");
    assert!(a.neg().is_sign_negative());
    assert!(!a.neg().abs().is_sign_negative());
    assert!(Decimal::zero().is_zero());
    assert!(!a.is_zero());
}

fn parts(text: &str) -> Option<(bool, String, i16)> {
    Decimal::from_str(text).map(|d| {
        let (negative, _, scale) = d.inner_value();
        let plain: String = Decimal::from_integer(&Integer::zero()).to_string();
        assert_eq!(plain, "0.0");
        let digits: String = d
            .abs()
            .to_plain_chars()
            .into_iter()
            .filter(|c| *c != '.')
            .collect();
        (negative, digits, scale)
    })
}

#[test]
fn decimal_text_gives_coefficient_and_scale() {
    assert_eq!(parts("12345.06789"), Some((false, "1234506789".to_string(), 5)));
    assert_eq!(parts("5."), Some((false, "5".to_string(), 0)));
    assert_eq!(parts("5"), Some((false, "5".to_string(), 0)));
    assert_eq!(parts(".5"), Some((false, "05".to_string(), 1)));
    assert_eq!(parts("-0.0"), Some((true, "00".to_string(), 1)));
    assert_eq!(parts("+007.250"), Some((false, "7250".to_string(), 3)));
    assert_eq!(parts("0.000"), Some((false, "0000".to_string(), 3)));
    assert_eq!(parts("-1.50"), Some((true, "150".to_string(), 2)));
    let d = Decimal::from_str("28.10").expect("none");
    let (negative, limbs, scale) = d.inner_value();
    assert_eq!((negative, limbs, scale), (false, [2810, 0, 0, 0, 0, 0, 0, 0], 2));
    let d = Decimal::from_str("18446744073709551616.5").expect("none");
    assert_eq!(d.inner_value(), (false, [5, 10, 0, 0, 0, 0, 0, 0], 1));
    for text in ["", "+", "-", ".", "+.", "-.", "1.2.3", "1..", "..1", "1-", "1+1", "1e5", "1_0", "٣"] {
        assert!(Decimal::from_str(text).is_none(), "{} was read", text);
    }
}

#[test]
fn decimal_text_is_read_up_to_the_coefficient_and_the_length() {
    let most = "13407807929942597099574024998205846127479365820592393377723561443721764030073546976801874298166903427690031858186486050853753882811946569946433649006084095";
    let beyond = "13407807929942597099574024998205846127479365820592393377723561443721764030073546976801874298166903427690031858186486050853753882811946569946433649006084096";
    let d = Decimal::from_str(most).expect("none");
    assert_eq!(d.inner_value(), (false, [u64::MAX; 8], 0));
    assert!(Decimal::from_str(beyond).is_none());
    let split = format!("-{}.{}", &most[..100], &most[100..]);
    let d = Decimal::from_str(&split).expect("none");
    assert_eq!(d.inner_value(), (true, [u64::MAX; 8], 55));
    assert!(Decimal::from_str(&format!("{}.{}", &beyond[..100], &beyond[100..])).is_none());
    assert!(Decimal::from_str(&format!("{}0", most)).is_none());
    let padded = format!("{}{}", "0".repeat(32767 - most.len()), most);
    assert_eq!(Decimal::from_str(&padded).expect("none").inner_value(), (false, [u64::MAX; 8], 0));
    assert!(Decimal::from_str(&format!("0{}", padded)).is_none());
    let tiny = format!(".{}1", "0".repeat(32765));
    assert_eq!(Decimal::from_str(&tiny).expect("none").inner_value(), (false, [1, 0, 0, 0, 0, 0, 0, 0], 32766));
    let zero = format!("-.{}", "0".repeat(32765));
    assert_eq!(Decimal::from_str(&zero).expect("none").inner_value(), (true, [0; 8], 32765));
    assert!(Decimal::from_str(&format!(".{}1", "0".repeat(32766))).is_none());
}

#[test]
fn constants_are_those_of_the_outside_library() {
    assert_eq!(Decimal::constant(Constant::Pi).to_string(), fastnum::D512::PI.to_string());
    assert_eq!(Decimal::constant(Constant::Tau).to_string(), fastnum::D512::TAU.to_string());
    assert_eq!(Decimal::constant(Constant::E).to_string(), fastnum::D512::E.to_string());
    assert!(Decimal::constant(Constant::Pi).to_string().starts_with("3.14159265358979323846"));
    assert!(Decimal::constant(Constant::Tau).to_string().starts_with("6.28318530717958647692"));
    assert!(Decimal::constant(Constant::E).to_string().starts_with("2.71828182845904523536"));
}

#[test]
fn gamma_has_a_domain() {
    let e = Decimal::zero().gamma().err().expect("gamma");
    assert_eq!(e.msg, "Gamma undefined for values <= 0.0");
    let e = Decimal::from_parts(true, 5, 1).gamma().err().expect("gamma");
    assert_eq!(e.msg, "Gamma undefined for values <= 0.0");
    let e = Decimal::from_parts(false, 9314, 0).gamma().err().expect("gamma");
    assert_eq!(e.msg, "Gamma of value > 9313.0 exceeds size of Decimal type");
    let g = Decimal::from_parts(false, 5, 0).gamma().ok().expect("no gamma").to_string();
    assert!(g.starts_with("23.99"), "gamma(5) = {}", g);
    let g = Value::from_integer(integer("6")).gamma().expect("no gamma").render();
    assert!(g.starts_with("119.99") || g.starts_with("120.0"), "gamma(6) = {}", g);
    let f = value("4.0").factorial().expect("no factorial");
    assert_eq!(f.type_(), ValueType::Decimal);
    assert!(f.render().starts_with("23.99"), "4.0! = {}", f.render());
}

#[test]
fn sine_takes_degrees() {
    let s = value("30.0").sin().expect("no sine").render();
    assert!(s.starts_with("0.5") || s.starts_with("0.4999999999"), "sin 30 = {}", s);
    let t = value("390").sin().expect("no sine").render();
    assert!(t.starts_with("0.5") || t.starts_with("0.4999999999"), "sin 390 = {}", t);
    assert_eq!(value("0").sin().expect("no sine").render(), "0.0");
    let back = value("450").unary_neg().expect("none").sin().expect("no sine").render();
    assert!(back.starts_with("-1.0") || back.starts_with("-0.99999999"), "sin -450 = {}", back);
    let far = value("999990").unary_neg().expect("none").sin().expect("no sine").render();
    assert!(far.starts_with("1.0") || far.starts_with("0.99999999"), "sin -999990 = {}", far);
    assert!(value("1000000").sin().is_err());
    assert!(value("1000000").unary_neg().expect("none").sin().is_err());
}

#[test]
fn binary_arithmetic_promotes() {
    let two = value("2");
    let three = value("3");
    assert_eq!(two.arithmetic(Arithmetic::Add, &three).expect("none").render(), "5");
    assert_eq!(two.arithmetic(Arithmetic::Sub, &three).expect("none").render(), "-1");
    assert_eq!(two.arithmetic(Arithmetic::Mul, &three).expect("none").render(), "6");
    assert_eq!(value("7").arithmetic(Arithmetic::Div, &two).expect("none").render(), "3");
    assert_eq!(value("7").arithmetic(Arithmetic::Rem, &two).expect("none").render(), "1");
    assert_eq!(two.arithmetic(Arithmetic::Pow, &value("10")).expect("none").render(), "1024");
    let bits = value("0b101").arithmetic(Arithmetic::Add, &value("0b1")).expect("none");
    assert_eq!(bits.type_(), ValueType::Integer);
    assert_eq!(bits.render(), "6");
    let mixed = two.arithmetic(Arithmetic::Mul, &value("1.5")).expect("none");
    assert_eq!(mixed.type_(), ValueType::Decimal);
    assert_eq!(mixed.render(), "3.0");
    assert_eq!(message(two.arithmetic(Arithmetic::Div, &value("0")).err().expect("divided")), "Division by zero");
    assert_eq!(message(two.arithmetic(Arithmetic::Rem, &value("0")).err().expect("divided")), "Division by zero");
    assert_eq!(
        message(two.arithmetic(Arithmetic::Pow, &value("600")).err().expect("power")),
        "Result exceeds size of Integer type"
    );
    assert_eq!(
        message(two.arithmetic(Arithmetic::Pow, &Value::from_integer(integer("-1"))).err().expect("power")),
        "Exponent of Integer power must be between 0 and 4294967295"
    );
    assert_eq!(
        message(value("1.0").arithmetic(Arithmetic::Div, &value("0")).err().expect("divided")),
        "Result is not a finite Decimal"
    );
    assert_eq!(
        message(value("7.5").arithmetic(Arithmetic::Rem, &value("2")).err().expect("remainder")),
        "Remainder is defined for integers only"
    );
    assert_eq!(value("1.5").arithmetic(Arithmetic::Pow, &value("2")).expect("none").render(), "2.25");
    assert!(value("2").arithmetic(Arithmetic::Pow, &value("0.5")).expect("none").render().starts_with("1.41421356"));
}

#[test]
fn ordering_of_values() {
    assert_eq!(value("2").ordering(&value("3")), -1);
    assert_eq!(value("3").ordering(&value("2")), 1);
    assert_eq!(value("3").ordering(&value("0b11")), 0);
    assert_eq!(value("2.5").ordering(&value("3")), -1);
    assert_eq!(value("3.0").ordering(&value("3")), 0);
    assert_eq!(value("3").ordering(&value("2.999")), 1);
}

#[test]
fn gamma_is_taken_all_over_its_domain() {
    for (coefficient, scale) in [
        (1u64, 3i16),
        (1, 1),
        (5, 1),
        (1, 0),
        (2, 0),
        (27, 1),
        (28, 1),
        (10, 0),
        (171, 0),
        (1000, 0),
        (5000, 0),
        (9000, 0),
        (9313, 0),
        (93125, 1),
    ] {
        let x = Decimal::from_parts(false, coefficient, scale);
        match x.gamma() {
            Ok(g) => assert!(!g.is_zero(), "gamma({}) is zero", x.to_string()),
            Err(e) => panic!("gamma({}) failed: {}", x.to_string(), e.msg),
        }
    }
    let g = Decimal::from_parts(false, 1, 0).gamma().ok().expect("no gamma").to_string();
    assert!(g.starts_with("0.99") || g.starts_with("1.0"), "gamma(1) = {}", g);
    let g = Decimal::from_parts(false, 11, 0).gamma().ok().expect("no gamma").to_string();
    assert!(g.starts_with("36287") || g.starts_with("36288"), "gamma(11) = {}", g);
}

#[test]
fn decimal_text_reads_back_as_the_same_number() {
        let cases = [
        ("1.50", "1.5"),
        ("0.001", "0.001"),
        ("100.", "100.0"),
        ("0d12,250", "12.25"),
        ("0.0", "0.0"),
        ("000.000", "0.0"),
        ("7.", "7.0"),
        (".5", "0.5"),
        ("1_000.000_1", "1000.0001"),
    ];
    for (numeral, text) in cases {
        let first = Value::from_str(numeral, Position::new(1, 1)).expect(numeral);
        assert!(matches!(first, Value::Decimal(_)), "{}", numeral);
        assert_eq!(first.render(), text, "{}", numeral);
        let second = Value::from_str(&first.render(), Position::new(1, 1)).expect(text);
        assert!(matches!(second, Value::Decimal(_)), "{}", text);
        assert_eq!(second.render(), text, "{}", numeral);
        let (Value::Decimal(a), Value::Decimal(b)) = (&first, &second) else {
            unreachable!();
        };
        assert!(!a.less_than(b) && !b.less_than(a), "{}", numeral);
    }
}

#[test]
fn decimal_text_that_no_longer_fits_is_not_read_back() {
        let most = "13407807929942597099574024998205846127479365820592393377723561443721764030073546976801874298166903427690031858186486050853753882811946569946433649006084095";
    let numeral = format!("{}.", most);
    let value = Value::from_str(&numeral, Position::new(1, 1)).expect("none");
    assert_eq!(value.render(), format!("{}.0", most));
    assert!(Value::from_str(&value.render(), Position::new(1, 1)).is_err());
    let split = format!("{}.{}", &most[..100], &most[100..]);
    let value = Value::from_str(&split, Position::new(1, 1)).expect("none");
    assert_eq!(value.render(), split);
    let again = Value::from_str(&value.render(), Position::new(1, 1)).expect("none");
    assert_eq!(again.render(), split);
}
