use tcalc::decimals::Decimal;
use tcalc::integers::Integer;

fn extremes() -> Vec<Decimal> {
    let huge = Integer::from_u64(2).checked_pow(510).expect("overflow");
    vec![
        Decimal::zero(),
        Decimal::zero().neg(),
        Decimal::one(),
        Decimal::one().neg(),
        Decimal::from_parts(false, 5, 1),
        Decimal::from_parts(false, 0, i16::MAX),
        Decimal::from_parts(false, 0, i16::MIN),
        Decimal::from_parts(false, 1, i16::MAX),
        Decimal::from_parts(true, 1, i16::MAX),
        Decimal::from_parts(false, 1, i16::MIN),
        Decimal::from_parts(true, 1, i16::MIN),
        Decimal::from_parts(false, u64::MAX, i16::MIN),
        Decimal::from_parts(false, u64::MAX, i16::MAX),
        Decimal::from_parts(false, u64::MAX, 0),
        Decimal::from_parts(true, 360, 0),
        Decimal::from_parts(false, 9313, 0),
        Decimal::from_parts(false, 1, 40),
        Decimal::from_parts(false, 1, -40),
        Decimal::from_integer(&huge),
        Decimal::from_integer(&huge).neg(),
        Decimal::from_u128(u128::MAX),
    ]
}

#[test]
fn decimal_add_never_panics_on_extremes() {
    let all = extremes();
    for (i, a) in all.iter().enumerate() {
        for (j, b) in all.iter().enumerate() {
            println!("add {} {}", i, j);
            let _ = a.add(b);
        }
    }
}

#[test]
fn decimal_sub_never_panics_on_extremes() {
    let all = extremes();
    for (i, a) in all.iter().enumerate() {
        for (j, b) in all.iter().enumerate() {
            println!("sub {} {}", i, j);
            let _ = a.sub(b);
        }
    }
}

#[test]
fn decimal_mul_never_panics_on_extremes() {
    let all = extremes();
    for (i, a) in all.iter().enumerate() {
        for (j, b) in all.iter().enumerate() {
            println!("mul {} {}", i, j);
            let _ = a.mul(b);
        }
    }
}

#[test]
fn decimal_div_never_panics_on_extremes() {
    let all = extremes();
    for (i, a) in all.iter().enumerate() {
        for (j, b) in all.iter().enumerate() {
            println!("div {} {}", i, j);
            let _ = a.div(b);
        }
    }
}

#[test]
fn decimal_pow_never_panics_on_extremes() {
    let all = extremes();
    for (i, a) in all.iter().enumerate() {
        for (j, b) in all.iter().enumerate() {
            println!("pow {} {}", i, j);
            let _ = a.pow(b);
        }
    }
}

#[test]
fn decimal_less_than_never_panics_on_extremes() {
    let all = extremes();
    for (i, a) in all.iter().enumerate() {
        for (j, b) in all.iter().enumerate() {
            println!("less_than {} {}", i, j);
            let _ = a.less_than(b);
        }
    }
}

#[test]
fn decimal_sqrt_never_panics_on_extremes() {
    for (i, a) in extremes().iter().enumerate() {
        println!("sqrt {}", i);
        let _ = a.sqrt();
    }
}

#[test]
fn decimal_to_string_never_panics_on_extremes() {
    for (i, a) in extremes().iter().enumerate() {
        println!("to_string {}", i);
        let _ = a.to_string();
    }
}

#[test]
fn decimal_gamma_never_panics_on_extremes() {
    for (i, a) in extremes().iter().enumerate() {
        println!("gamma {}", i);
        let _ = a.gamma();
    }
}

#[test]
fn decimal_to_integer_never_panics_on_extremes() {
    for (i, a) in extremes().iter().enumerate() {
        println!("to_integer {}", i);
        let _ = a.to_integer();
    }
}

#[test]
fn sine_never_panics_on_extremes() {
    for (i, a) in extremes().iter().enumerate() {
        if a.less_than(&Decimal::from_parts(false, 1, -6)) {
            println!("sin {}", i);
            let _ = a.sin();
        }
    }
}

#[test]
fn decimal_parser_never_panics() {
    for text in [
        "", ".", "-", "+", "1e", "1e+", "1e99999", "1e-99999", "1e2147483648", "NaN", "inf", "-Inf",
        "0.0000000000000000000000000000000000000000000000000000000000001", "١٢٣",
        "9999999999999999999999999999999999999999999999999999999999999999999999999999999999999999999999999999999999999999999999999999999999999999999999999999999999999999999999999999999999999999999999999999999999",
        "1_000", " 1", "1 ", "0x10", "1.2.3", "--1", "1..", "1.5e-2147483648", "-0.25E2147483647",
        "1.5e-2147483647", ".5e1", "+.", "-.", "+1.", "00000000000000000000000000000000000000.00000000000000000000000000000000000000000",
    ] {
        let _ = Decimal::from_str(text);
    }
}

#[test]
fn integer_parser_never_panics() {
    for radix in [2, 8, 10, 16, 36] {
        for text in ["", "-", "+", "+-1", "_", "1_0", "zz", "-0", "٣", " 1", "0x1", "ffffffffffffffffffffffffffffffffffffffffffffffffffffffffffffffffffffffffffffffffffffffffffffffffffffffffffffffffffffffffffffffffffffffffffffffffffff"] {
            let _ = Integer::parse(text, radix);
        }
    }
}
