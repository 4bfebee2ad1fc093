use seahorse::literal::{is_float_literal, parse_isize};

#[test]
fn parse_isize_reads_decimal_integers() {
    assert_eq!(Some(100), parse_isize("100"));
    assert_eq!(Some(0), parse_isize("0"));
    assert_eq!(Some(0), parse_isize("-0"));
    assert_eq!(Some(0), parse_isize("+0"));
    assert_eq!(Some(7), parse_isize("+7"));
    assert_eq!(Some(-7), parse_isize("-7"));
    assert_eq!(Some(1234567890), parse_isize("1234567890"));
    assert_eq!(Some(1), parse_isize("000000000000000000000000000000000000000000001"));
    assert_eq!(Some(-12), parse_isize("-0012"));
}

#[test]
fn parse_isize_refuses_other_texts() {
    for text in [
        "", "-", "+", "--1", "+-1", "1-", "1+1", " 1", "1 ", "1_000", "1.0", ".", "1e3", "0x10",
        "ten", "12a", "a12", "١٢", "1２", "−1", "\u{0}", "1\n",
    ] {
        assert_eq!(None, parse_isize(text), "{:?}", text);
    }
}

#[test]
fn parse_isize_keeps_to_the_range() {
    assert_eq!(Some(isize::MAX), parse_isize(&isize::MAX.to_string()));
    assert_eq!(Some(isize::MIN), parse_isize(&isize::MIN.to_string()));
    assert_eq!(Some(isize::MAX), parse_isize(&format!("+{}", isize::MAX)));
    assert_eq!(Some(isize::MAX - 1), parse_isize(&(isize::MAX - 1).to_string()));
    assert_eq!(Some(isize::MIN + 1), parse_isize(&(isize::MIN + 1).to_string()));
    let above = (isize::MAX as i128 + 1).to_string();
    let below = (isize::MIN as i128 - 1).to_string();
    assert_eq!(None, parse_isize(&above));
    assert_eq!(None, parse_isize(&below));
    assert_eq!(None, parse_isize("340282366920938463463374607431768211456"));
    assert_eq!(None, parse_isize("-340282366920938463463374607431768211456"));
    assert_eq!(None, parse_isize(&"9".repeat(200)));
    assert_eq!(None, parse_isize(&format!("-{}", "9".repeat(200))));
    assert_eq!(None, parse_isize(&format!("{}x", "9".repeat(200))));
}

#[test]
fn parse_isize_agrees_with_the_standard_parser() {
    let texts = [
        "0", "1", "-1", "+1", "42", "-42", "007", "-007", "", "+", "-", "++1", "1.5", "1e1", "abc",
        " 5", "5 ", "9223372036854775807", "9223372036854775808", "-9223372036854775808",
        "-9223372036854775809", "2147483647", "2147483648", "-2147483648", "-2147483649",
        "18446744073709551616", "1_0", "٣", "0b1", "1,000",
    ];
    for text in texts {
        assert_eq!(text.parse::<isize>().ok(), parse_isize(text), "{:?}", text);
    }
    for number in -1500isize..1500 {
        let text = number.to_string();
        assert_eq!(Some(number), parse_isize(&text));
    }
}

#[test]
fn float_literals() {
    for text in [
        "1.23", "0", "1", "-1", "+1", "1.", ".5", "-.5", "+.5", "1.5e3", "1.5E3", "1e3", "1e+3",
        "1e-3", "1.e3", ".5e3", "0.0", "000.000", "1.23456789012345678901234567890", "1e400",
        "1e-400", "inf", "-inf", "+inf", "INF", "Inf", "infinity", "Infinity", "-INFINITY",
        "+iNfInItY", "nan", "NaN", "-nan", "+NAN", "123456789012345678901234567890",
    ] {
        assert!(is_float_literal(text), "{:?}", text);
    }
}

#[test]
fn texts_that_are_no_float_literals() {
    for text in [
        "", "+", "-", ".", "+.", "-.", "e", "e3", ".e3", "1e", "1e+", "1e-", "1e3.5", "1.2.3",
        "1,23", " 1", "1 ", "1_0", "--1", "+-1", "1f", "1.0f64", "0x10", "in", "infi", "infinit",
        "infinityy", "na", "nann", "i", "n", "１", "1٫5", "١", "−1", "ınf", "İnf", "1e３",
        "inf ", "1\n", "abc", "1ee3", "1e3e3", "..1", "1..",
    ] {
        assert!(!is_float_literal(text), "{:?}", text);
    }
}

#[test]
fn float_literals_are_what_the_standard_parser_reads() {
    let pieces = [
        "", "+", "-", "0", "1", "9", "12", ".", "e", "E", "e+", "e-", "inf", "nan", "INFINITY", "a",
        " ", "i", "n", "y", "_",
    ];
    for a in pieces {
        for b in pieces {
            for c in pieces {
                for d in ["", "5", ".", "e2", "E-7", "f"] {
                    let text = format!("{}{}{}{}", a, b, c, d);
                    assert_eq!(text.parse::<f64>().is_ok(), is_float_literal(&text), "{:?}", text);
                }
            }
        }
    }
}
