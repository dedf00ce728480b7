use travel::number::{is_real, parse_i32};

fn words(alphabet: &[char], length: usize) -> Vec<String> {
    let mut all = vec![String::new()];
    let mut last = vec![String::new()];
    for _ in 0..length {
        let mut next = Vec::new();
        for word in &last {
            for c in alphabet {
                let mut longer = word.clone();
                longer.push(*c);
                next.push(longer);
            }
        }
        all.extend(next.iter().cloned());
        last = next;
    }
    all
}

#[test]
fn parse_i32_reads_plain_digits() {
    assert_eq!(parse_i32("0"), Some(0));
    assert_eq!(parse_i32("42"), Some(42));
    assert_eq!(parse_i32("3448"), Some(3448));
    assert_eq!(parse_i32("007"), Some(7));
}

#[test]
fn parse_i32_reads_a_sign() {
    assert_eq!(parse_i32("-42"), Some(-42));
    assert_eq!(parse_i32("+7"), Some(7));
    assert_eq!(parse_i32("-0"), Some(0));
}

#[test]
fn parse_i32_keeps_to_the_32_bit_range() {
    assert_eq!(parse_i32("2147483647"), Some(i32::MAX));
    assert_eq!(parse_i32("-2147483648"), Some(i32::MIN));
    assert_eq!(parse_i32("2147483648"), None);
    assert_eq!(parse_i32("-2147483649"), None);
    assert_eq!(parse_i32("4294967296"), None);
    assert_eq!(parse_i32("99999999999999999999999999"), None);
    assert_eq!(parse_i32("-99999999999999999999999999"), None);
    assert_eq!(parse_i32("00000000000000000000000012"), Some(12));
}

#[test]
fn parse_i32_rejects_what_is_no_integer() {
    for text in ["", "-", "+", " 1", "1 ", "1a", "a1", "1.0", "--1", "+-1", "1_000", "NA", "\u{ff11}", "1\u{e9}"] {
        assert_eq!(parse_i32(text), None, "{:?}", text);
    }
}

#[test]
fn parse_i32_agrees_with_the_standard_parser() {
    let alphabet = ['+', '-', '0', '1', '9', ' ', 'a', '.'];
    for word in words(&alphabet, 5) {
        assert_eq!(parse_i32(&word), word.parse::<i32>().ok(), "{:?}", word);
    }
    for value in [i32::MIN, -1000, -1, 0, 1, 65535, i32::MAX] {
        assert_eq!(parse_i32(&value.to_string()), Some(value));
    }
    for value in [i32::MIN as i64 - 1, i32::MAX as i64 + 1, i64::MAX, i64::MIN] {
        assert_eq!(parse_i32(&value.to_string()), None);
    }
}

#[test]
fn is_real_accepts_decimal_numbers() {
    for text in [
        "3.14", "-3.14", "2.5E10", "2.5e10", "2.5E-10", "5.", ".5", "0.5", "7", "007", "+1",
        "42.36429977", "-71.00520325", "0", "-0", "1e5", "1E+05", "5.e3", ".5e-3",
        "123456789012345678901234567890.5", "1e99999",
    ] {
        assert!(is_real(text), "{:?}", text);
    }
}

#[test]
fn is_real_accepts_the_special_values() {
    for text in ["inf", "-inf", "+infinity", "NaN", "nan", "INFINITY", "iNf", "-nan", "Infinity"] {
        assert!(is_real(text), "{:?}", text);
    }
}

#[test]
fn is_real_rejects_what_is_no_number() {
    for text in [
        "", ".", "+", "-", "e5", "1e", "1e+", "1e-", "1.2.3", " 1", "1 ", "1_0", "0x10", "infinit",
        "infinityy", "nano", "na", "1e5.5", "--1", "+-1", "1e--5", ".e5", "+.", "1d5", "NA",
        "\u{663}", "1e\u{ff15}", "1,5", "in", "i", "1.e", "e", "E", "..", "1..", "..1",
    ] {
        assert!(!is_real(text), "{:?}", text);
    }
}

#[test]
fn is_real_agrees_with_the_standard_parser() {
    let alphabet = ['+', '-', '.', 'e', 'E', '0', '7', 'i', 'n', 'f', 'a', ' '];
    for word in words(&alphabet, 4) {
        assert_eq!(is_real(&word), word.parse::<f64>().is_ok(), "{:?}", word);
    }
    let letters = ['i', 'I', 'n', 'N', 'f', 'F', 't', 'y', 'a', 'A'];
    for word in words(&letters, 3) {
        assert_eq!(is_real(&word), word.parse::<f64>().is_ok(), "{:?}", word);
        let negative = format!("-{}", word);
        assert_eq!(is_real(&negative), negative.parse::<f64>().is_ok(), "{:?}", negative);
        let long = format!("{}inity", word);
        assert_eq!(is_real(&long), long.parse::<f64>().is_ok(), "{:?}", long);
    }
    let exponents = ['1', '.', 'e', '+', '-', '5'];
    for word in words(&exponents, 6) {
        assert_eq!(is_real(&word), word.parse::<f64>().is_ok(), "{:?}", word);
    }
}
