use tease::{read_number, to_fixed, Decimal, NumberError};

fn dec(negative: bool, coefficient: u64, exponent: i32) -> Decimal {
    Decimal { negative, coefficient, exponent }
}

fn num(s: &str) -> Decimal {
    read_number(s).unwrap()
}

#[test]
fn reads_plain_numbers() {
    assert_eq!(num("0"), dec(false, 0, 0));
    assert_eq!(num("42"), dec(false, 42, 0));
    assert_eq!(num("-2"), dec(true, 2, 0));
    assert_eq!(num("3.5"), dec(false, 35, -1));
    assert_eq!(num("12.50"), dec(false, 125, -1));
    assert_eq!(num("1000"), dec(false, 1, 3));
    assert_eq!(num("0.001"), dec(false, 1, -3));
    assert_eq!(num(".5"), dec(false, 5, -1));
    assert_eq!(num("5."), dec(false, 5, 0));
    assert_eq!(num("007"), dec(false, 7, 0));
}

#[test]
fn reads_exponents() {
    assert_eq!(num("1e6"), dec(false, 1, 6));
    assert_eq!(num("1E6"), dec(false, 1, 6));
    assert_eq!(num("1e+21"), dec(false, 1, 21));
    assert_eq!(num("2.5e-3"), dec(false, 25, -4));
    assert_eq!(num("-1.5e2"), dec(true, 15, 1));
    assert_eq!(num("0e99999999999999999999999999999"), dec(false, 0, 0));
}

#[test]
fn zero_has_no_sign() {
    assert_eq!(num("-0"), dec(false, 0, 0));
    assert_eq!(num("-0.000"), dec(false, 0, 0));
}

#[test]
fn rejects_what_is_not_a_numeral() {
    for s in ["", "abc", "-", ".", "1.2.3", "1e", "1e+", "NaN", "inf", " 1", "1 ", "1,5", "+1", "--1", "e5", "1e5.0"] {
        assert_eq!(read_number(s), Err(NumberError::Malformed), "{}", s);
    }
}

#[test]
fn rejects_what_does_not_fit() {
    assert_eq!(read_number("123456789012345678901"), Err(NumberError::OutOfRange));
    assert_eq!(read_number("1e3000000000"), Err(NumberError::OutOfRange));
    assert_eq!(read_number("1e-3000000000"), Err(NumberError::OutOfRange));
    assert_eq!(read_number("1e999999999999999999999999999999"), Err(NumberError::OutOfRange));
    // Trailing zeros go into the exponent, so many digits may still fit.
    assert_eq!(num("100000000000000000000000000000"), dec(false, 1, 29));
    assert_eq!(num("18446744073709551615"), dec(false, 18446744073709551615, 0));
    assert_eq!(read_number("18446744073709551617"), Err(NumberError::OutOfRange));
}

#[test]
fn canonical_text() {
    assert_eq!(dec(false, 0, 0).to_text(), "0");
    assert_eq!(dec(false, 125, -1).to_text(), "12.5");
    assert_eq!(dec(true, 125, -1).to_text(), "-12.5");
    assert_eq!(dec(false, 1, -3).to_text(), "0.001");
    assert_eq!(dec(false, 123, -3).to_text(), "0.123");
    assert_eq!(dec(false, 1, 3).to_text(), "1000");
    assert_eq!(dec(true, 3, 0).to_text(), "-3");
}

#[test]
fn canonical_text_reads_back() {
    for d in [dec(false, 0, 0), dec(true, 125, -1), dec(false, 1, -30), dec(false, 987654321, 12), dec(true, 18446744073709551615, -7)] {
        assert_eq!(read_number(&d.to_text()), Ok(d));
    }
}

#[test]
fn fixed_places_for_listed_values() {
    let cases: [(&str, [&str; 4]); 4] = [
        ("0", ["0", "0.0", "0.00", "0.000000"]),
        ("1.005", ["1", "1.0", "1.01", "1.005000"]),
        ("-3", ["-3", "-3.0", "-3.00", "-3.000000"]),
        ("1e6", ["1000000", "1000000.0", "1000000.00", "1000000.000000"]),
    ];
    for (value, expected) in cases.iter() {
        for (k, p) in [0usize, 1, 2, 6].iter().enumerate() {
            let shown = to_fixed(&num(value), *p);
            assert_eq!(shown, expected[k]);
            let after = match shown.find('.') {
                Some(at) => shown.len() - at - 1,
                None => 0,
            };
            assert_eq!(after, *p);
        }
    }
}

#[test]
fn fixed_rounds_halves_away_from_zero() {
    assert_eq!(to_fixed(&num("2.5"), 0), "3");
    assert_eq!(to_fixed(&num("-2.5"), 0), "-3");
    assert_eq!(to_fixed(&num("0.125"), 2), "0.13");
    assert_eq!(to_fixed(&num("0.124"), 2), "0.12");
    assert_eq!(to_fixed(&num("9.999"), 2), "10.00");
    assert_eq!(to_fixed(&num("-0.001"), 2), "0.00");
    assert_eq!(to_fixed(&num("1e-40"), 3), "0.000");
    assert_eq!(to_fixed(&num("123.456"), 1), "123.5");
}
