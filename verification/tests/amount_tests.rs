use expense_tracker::amount::{erase_amount_char, type_amount_char, Amount};

fn number(amount: &Amount) -> f64 {
    amount.to_text().parse().unwrap()
}

#[test]
fn parse_reads_units_and_scale() {
    let a = Amount::parse("12.5").unwrap();
    assert_eq!((a.units(), a.scale()), (125, 1));
    let b = Amount::parse("1200").unwrap();
    assert_eq!((b.units(), b.scale()), (1200, 0));
    let c = Amount::parse("0.05").unwrap();
    assert_eq!((c.units(), c.scale()), (5, 2));
    let d = Amount::parse("007").unwrap();
    assert_eq!((d.units(), d.scale()), (7, 0));
}

#[test]
fn parse_accepts_point_at_either_end() {
    assert_eq!(Amount::parse("12."), Some(Amount::new(12, 0)));
    assert_eq!(Amount::parse(".5"), Some(Amount::new(5, 1)));
    assert_eq!(Amount::parse("0."), Some(Amount::zero()));
    assert_eq!(Amount::parse(".0"), Some(Amount::zero()));
}

#[test]
fn parse_drops_trailing_zeros() {
    assert_eq!(Amount::parse("12.50"), Amount::parse("12.5"));
    assert_eq!(Amount::parse("50.0"), Some(Amount::new(50, 0)));
    assert_eq!(Amount::parse("50.000"), Amount::parse("50"));
    let a = Amount::parse("1.2300").unwrap();
    assert_eq!((a.units(), a.scale()), (123, 2));
    let b = Amount::parse("100").unwrap();
    assert_eq!((b.units(), b.scale()), (100, 0));
}

#[test]
fn parse_refuses_what_is_no_decimal_text() {
    assert_eq!(Amount::parse(""), None);
    assert_eq!(Amount::parse("."), None);
    assert_eq!(Amount::parse("1.2.3"), None);
    assert_eq!(Amount::parse("1..2"), None);
    assert_eq!(Amount::parse("-1"), None);
    assert_eq!(Amount::parse("+1"), None);
    assert_eq!(Amount::parse("1e3"), None);
    assert_eq!(Amount::parse("12a"), None);
    assert_eq!(Amount::parse(" 12"), None);
    assert_eq!(Amount::parse("1,5"), None);
    assert_eq!(Amount::parse("\u{0663}"), None);
}

#[test]
fn parse_refuses_what_does_not_fit() {
    assert_eq!(
        Amount::parse("9223372036854775807").map(|a| a.units()),
        Some(i64::MAX)
    );
    assert_eq!(Amount::parse("9223372036854775808"), None);
    assert_eq!(Amount::parse("92233720368547758070"), None);
    assert_eq!(Amount::parse("99999999999999999999999999"), None);
    assert_eq!(
        Amount::parse("92233720368547758.07").map(|a| (a.units(), a.scale())),
        Some((i64::MAX, 2))
    );
    // The zeros at the end do not count.
    assert_eq!(
        Amount::parse("9223372036854775807.000"),
        Amount::parse("9223372036854775807")
    );
    let small = format!("0.{}1", "0".repeat(254));
    assert_eq!(Amount::parse(&small).map(|a| (a.units(), a.scale())), Some((1, 255)));
    let too_small = format!("0.{}1", "0".repeat(255));
    assert_eq!(Amount::parse(&too_small), None);
}

#[test]
fn new_normalizes() {
    assert_eq!(Amount::new(1250, 2), Amount::new(125, 1));
    assert_eq!(Amount::new(500, 1), Amount::new(50, 0));
    assert_eq!(Amount::new(0, 7), Amount::zero());
    assert_eq!(Amount::new(-1200, 2), Amount::new(-12, 0));
    let a = Amount::new(1000, 2);
    assert_eq!((a.units(), a.scale()), (10, 0));
    let b = Amount::new(1000, 0);
    assert_eq!((b.units(), b.scale()), (1000, 0));
    let c = Amount::new(-15, 1);
    assert_eq!((c.units(), c.scale()), (-15, 1));
}

#[test]
fn sign_of_amounts() {
    assert!(Amount::new(-1, 0).is_negative());
    assert!(Amount::new(-1, 9).is_negative());
    assert!(Amount::new(i64::MIN, 0).is_negative());
    assert!(!Amount::zero().is_negative());
    assert!(!Amount::new(0, 3).is_negative());
    assert!(!Amount::new(1, 0).is_negative());
}

#[test]
fn to_text_writes_the_decimal() {
    assert_eq!(Amount::new(125, 1).to_text(), "12.5");
    assert_eq!(Amount::new(50, 0).to_text(), "50");
    assert_eq!(Amount::zero().to_text(), "0");
    assert_eq!(Amount::new(5, 2).to_text(), "0.05");
    assert_eq!(Amount::new(5, 1).to_text(), "0.5");
    assert_eq!(Amount::new(-5, 1).to_text(), "-0.5");
    assert_eq!(Amount::new(-1234, 2).to_text(), "-12.34");
    assert_eq!(Amount::new(i64::MAX, 0).to_text(), "9223372036854775807");
    assert_eq!(Amount::new(i64::MIN, 0).to_text(), "-9223372036854775808");
    assert_eq!(Amount::new(i64::MAX, 19).to_text(), "0.9223372036854775807");
    assert_eq!(Amount::new(1, 255).to_text(), format!("0.{}1", "0".repeat(254)));
}

#[test]
fn text_round_trip() {
    for text in ["0", "1", "12.5", "0.05", "1200", "3.14159", "9223372036854775807"] {
        let a = Amount::parse(text).unwrap();
        assert_eq!(a.to_text(), text);
        assert_eq!(Amount::parse(&a.to_text()), Some(a));
    }
}

#[test]
fn typing_twelve_point_five() {
    let mut text = String::new();
    let mut value = Amount::zero();
    value = type_amount_char(value, &mut text, '1');
    assert_eq!(number(&value), 1.0);
    value = type_amount_char(value, &mut text, '2');
    assert_eq!(number(&value), 12.0);
    value = type_amount_char(value, &mut text, '.');
    assert_eq!(text, "12.");
    assert_eq!(number(&value), 12.0);
    value = type_amount_char(value, &mut text, '5');
    assert_eq!(text, "12.5");
    assert_eq!(number(&value), 12.5);
    assert_eq!(value, Amount::new(125, 1));
}

#[test]
fn typing_other_characters_is_rejected() {
    let mut text = "12".to_string();
    let value = Amount::new(12, 0);
    for c in ['a', '-', '+', ' ', ',', 'e', '/', ':', '\u{0663}', '\n'] {
        let after = type_amount_char(value, &mut text, c);
        assert_eq!(after, value);
        assert_eq!(text, "12");
    }
}

#[test]
fn typing_keeps_the_amount_while_the_text_denotes_none() {
    let mut text = String::new();
    let mut value = Amount::new(7, 0);
    value = type_amount_char(value, &mut text, '.');
    assert_eq!(text, ".");
    assert_eq!(value, Amount::new(7, 0));
    value = type_amount_char(value, &mut text, '5');
    assert_eq!(value, Amount::new(5, 1));
    value = type_amount_char(value, &mut text, '.');
    assert_eq!(text, ".5.");
    assert_eq!(value, Amount::new(5, 1));
    value = type_amount_char(value, &mut text, '1');
    assert_eq!(text, ".5.1");
    assert_eq!(value, Amount::new(5, 1));
}

#[test]
fn typing_past_the_largest_amount_keeps_the_amount() {
    let mut text = "9223372036854775807".to_string();
    let value = Amount::new(i64::MAX, 0);
    let after = type_amount_char(value, &mut text, '0');
    assert_eq!(text, "92233720368547758070");
    assert_eq!(after, value);
}

#[test]
fn backspace_reads_the_shorter_text() {
    let mut text = "12.5".to_string();
    assert_eq!(erase_amount_char(&mut text), Amount::new(12, 0));
    assert_eq!(text, "12.");
    assert_eq!(erase_amount_char(&mut text), Amount::new(12, 0));
    assert_eq!(text, "12");
    assert_eq!(erase_amount_char(&mut text), Amount::new(1, 0));
    assert_eq!(text, "1");
    assert_eq!(erase_amount_char(&mut text), Amount::zero());
    assert_eq!(text, "");
    assert_eq!(erase_amount_char(&mut text), Amount::zero());
    assert_eq!(text, "");
}

#[test]
fn backspace_gives_zero_where_the_text_denotes_none() {
    let mut text = "1.2.3".to_string();
    assert_eq!(erase_amount_char(&mut text), Amount::zero());
    assert_eq!(text, "1.2.");
    assert_eq!(erase_amount_char(&mut text), Amount::new(12, 1));
    assert_eq!(text, "1.2");
    let mut point = ".5".to_string();
    assert_eq!(erase_amount_char(&mut point), Amount::zero());
    assert_eq!(point, ".");
}

#[test]
fn parse_signed_reads_a_minus_sign() {
    assert_eq!(Amount::parse_signed("-12.5"), Some(Amount::new(-125, 1)));
    assert_eq!(Amount::parse_signed("12.5"), Some(Amount::new(125, 1)));
    assert_eq!(Amount::parse_signed("-0"), Some(Amount::zero()));
    assert_eq!(Amount::parse_signed("-0.50"), Some(Amount::new(-5, 1)));
    assert_eq!(Amount::parse_signed("-.5"), Some(Amount::new(-5, 1)));
    assert_eq!(
        Amount::parse_signed("-9223372036854775807"),
        Some(Amount::new(-i64::MAX, 0))
    );
}

#[test]
fn parse_signed_refuses_what_parse_refuses() {
    assert_eq!(Amount::parse_signed(""), None);
    assert_eq!(Amount::parse_signed("-"), None);
    assert_eq!(Amount::parse_signed("--1"), None);
    assert_eq!(Amount::parse_signed("+1"), None);
    assert_eq!(Amount::parse_signed("1-"), None);
    assert_eq!(Amount::parse_signed("-1e3"), None);
    assert_eq!(Amount::parse_signed(" -1"), None);
    assert_eq!(Amount::parse_signed("-9223372036854775808"), None);
}

#[test]
fn signed_text_round_trip() {
    for (units, scale) in [(0, 0), (5, 2), (-5, 2), (125, 1), (-125, 1), (i64::MAX, 3), (-i64::MAX, 19)] {
        let a = Amount::new(units, scale);
        assert_eq!(Amount::parse_signed(&a.to_text()), Some(a));
    }
    assert_eq!(Amount::parse_signed(&Amount::new(i64::MIN, 0).to_text()), None);
}
