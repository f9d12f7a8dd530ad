use amount::Amount;
use amount::AmountError;
use std::collections::HashMap;

#[test]
fn constructor_from_str_works() {
    let am = Amount::new_from_str("44.12").unwrap();
    assert_eq!(am.cents(), 4412);
}

#[test]
fn constructor_default_works() {
    let am = Amount::new();
    assert_eq!(am.cents(), 0);
}

#[test]
#[should_panic]
fn bad_constructor_panics() {
    Amount::new_from_str("asda").unwrap();
}

#[test]
fn multiply_by_zero() {
    let mut am = Amount::new_from_str("44.12").unwrap();
    am.scale(0).unwrap();
    assert_eq!(am.cents(), 0);
}

#[test]
fn multiply_by_ten() {
    let mut am = Amount::new_from_str("44.12").unwrap();
    am.scale(10).unwrap();
    assert_eq!(am.cents(), 44120);
}

#[test]
fn add_two_amounts() {
    let mut am1 = Amount::new_from_str("44.12").unwrap();
    let am2 = Amount::new_from_str("45.80").unwrap();
    am1.accumulate(am2).unwrap();
    assert_eq!(am1.cents(), 8992);
}

#[test]
fn bad_constructor_reports_not_decimal() {
    assert_eq!(Amount::new_from_str("asda"), Err(AmountError::NotDecimal));
    assert_eq!(Amount::new_from_str(""), Err(AmountError::NotDecimal));
    assert_eq!(Amount::new_from_str("."), Err(AmountError::NotDecimal));
    assert_eq!(Amount::new_from_str("-"), Err(AmountError::NotDecimal));
    assert_eq!(Amount::new_from_str("1.2.3"), Err(AmountError::NotDecimal));
    assert_eq!(Amount::new_from_str("1e5"), Err(AmountError::NotDecimal));
    assert_eq!(Amount::new_from_str("4 4"), Err(AmountError::NotDecimal));
}

#[test]
fn negative_amounts_are_rejected() {
    assert_eq!(Amount::new_from_str("-1.5"), Err(AmountError::Negative));
    assert_eq!(Amount::new_from_str("-0.01"), Err(AmountError::Negative));
    assert_eq!(Amount::new_from_str("-44"), Err(AmountError::Negative));
}

#[test]
fn negative_zero_rounds_to_zero() {
    assert_eq!(Amount::new_from_str("-0.00").unwrap().cents(), 0);
    assert_eq!(Amount::new_from_str("-0").unwrap().cents(), 0);
}

#[test]
fn parse_overflow_is_reported() {
    // u32::MAX cents is 42949672.95; one cent more does not fit.
    assert_eq!(Amount::new_from_str("42949672.95").unwrap().cents(), u32::MAX);
    assert_eq!(Amount::new_from_str("42949672.96"), Err(AmountError::Overflow));
    assert_eq!(Amount::new_from_str("99999999999"), Err(AmountError::Overflow));
}

#[test]
fn sign_and_sparse_digit_forms_parse() {
    assert_eq!(Amount::new_from_str("+1.5").unwrap().cents(), 150);
    assert_eq!(Amount::new_from_str(".5").unwrap().cents(), 50);
    assert_eq!(Amount::new_from_str("5.").unwrap().cents(), 500);
    assert_eq!(Amount::new_from_str("007").unwrap().cents(), 700);
}

#[test]
fn third_fractional_digit_rounds_half_away_from_zero() {
    assert_eq!(Amount::new_from_str("1.234").unwrap().cents(), 123);
    assert_eq!(Amount::new_from_str("1.235").unwrap().cents(), 124);
    assert_eq!(Amount::new_from_str("1.239").unwrap().cents(), 124);
    assert_eq!(Amount::new_from_str("0.005").unwrap().cents(), 1);
    assert_eq!(Amount::new_from_str("9.9999").unwrap().cents(), 1000);
}

#[test]
fn zero_renders_padded() {
    assert_eq!(Amount::new().render(), "0.00");
}

#[test]
fn render_pads_single_digit_cents() {
    let am = Amount::new_from_str("44.01").unwrap();
    assert_eq!(am.cents(), 4401);
    assert_eq!(am.render(), "44.01");
}

#[test]
fn render_parse_round_trip() {
    let am = Amount::new_from_str("44.12").unwrap();
    let text = am.render();
    assert_eq!(text, "44.12");
    assert_eq!(Amount::new_from_str(&text).unwrap(), am);
}

#[test]
fn normalized_strings_make_equal_keys() {
    let a = Amount::new_from_str("1.50").unwrap();
    let b = Amount::new_from_str("1.5").unwrap();
    assert_eq!(a.cents(), 150);
    assert_eq!(b.cents(), 150);
    assert_eq!(a, b);
    let mut table: HashMap<Amount, u32> = HashMap::new();
    table.insert(a, 1);
    table.insert(b, 2);
    assert_eq!(table.len(), 1);
    assert_eq!(table[&a], 2);
}

#[test]
fn accumulate_commutes() {
    let a0 = Amount::new_from_str("1.25").unwrap();
    let b0 = Amount::new_from_str("3.99").unwrap();
    let mut ab = a0;
    ab.accumulate(b0).unwrap();
    let mut ba = b0;
    ba.accumulate(a0).unwrap();
    assert_eq!(ab, ba);
    assert_eq!(ab.cents(), 524);
}

#[test]
fn accumulate_associates() {
    let a = Amount::new_from_str("1.01").unwrap();
    let b = Amount::new_from_str("2.02").unwrap();
    let c = Amount::new_from_str("3.03").unwrap();
    let mut left = a;
    left.accumulate(b).unwrap();
    left.accumulate(c).unwrap();
    let mut bc = b;
    bc.accumulate(c).unwrap();
    let mut right = a;
    right.accumulate(bc).unwrap();
    assert_eq!(left, right);
    assert_eq!(left.cents(), 606);
}

#[test]
fn scale_by_one_is_identity() {
    let mut am = Amount::new_from_str("44.12").unwrap();
    let before = am;
    am.scale(1).unwrap();
    assert_eq!(am, before);
}

#[test]
fn accumulate_overflow_leaves_value_unchanged() {
    let mut am = Amount::new_from_str("42949672.95").unwrap();
    let one_cent = Amount::new_from_str("0.01").unwrap();
    assert_eq!(am.accumulate(one_cent), Err(AmountError::Overflow));
    assert_eq!(am.cents(), u32::MAX);
}

#[test]
fn scale_overflow_leaves_value_unchanged() {
    let mut am = Amount::new_from_str("42949672.95").unwrap();
    assert_eq!(am.scale(2), Err(AmountError::Overflow));
    assert_eq!(am.cents(), u32::MAX);
}
