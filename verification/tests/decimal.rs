use trade_city::decimal::{DecimalValue, MAX_MANTISSA, MAX_SCALE};
use trade_city::marketdata::{Currency, Price};

fn dec(mantissa: i128, scale: u32) -> DecimalValue {
    DecimalValue::new(mantissa, scale).unwrap()
}

#[test]
fn values_outside_the_range_are_not_built() {
    assert!(DecimalValue::new(0, MAX_SCALE).is_some());
    assert!(DecimalValue::new(0, MAX_SCALE + 1).is_none());
    assert!(DecimalValue::new(MAX_MANTISSA, 0).is_some());
    assert!(DecimalValue::new(MAX_MANTISSA + 1, 0).is_none());
    assert!(DecimalValue::new(-MAX_MANTISSA, 28).is_some());
    assert!(DecimalValue::new(-MAX_MANTISSA - 1, 28).is_none());
    assert_eq!(MAX_MANTISSA, 79_228_162_514_264_337_593_543_950_335);
}

#[test]
fn parts_are_kept() {
    let d = dec(-12345678, 7);
    assert_eq!(d.mantissa(), -12345678);
    assert_eq!(d.scale(), 7);
    let n = DecimalValue::from_integer(-42);
    assert_eq!(n.mantissa(), -42);
    assert_eq!(n.scale(), 0);
}

#[test]
fn equal_numbers_of_different_scales_compare_equal() {
    let a = dec(15, 1);
    let b = dec(1500, 3);
    assert!(a.same_value(&b));
    assert!(a.le(&b));
    assert!(b.le(&a));
    assert!(!a.lt(&b));
    assert!(!b.lt(&a));
    assert!(dec(0, 0).same_value(&dec(0, 28)));
}

#[test]
fn numbers_compare_by_value_not_by_mantissa() {
    // 0.5 < 0.75 < 1 < 1.5
    assert!(dec(5, 1).lt(&dec(75, 2)));
    assert!(dec(75, 2).lt(&dec(1, 0)));
    assert!(dec(1, 0).lt(&dec(15, 1)));
    assert!(!dec(15, 1).lt(&dec(1, 0)));
    assert!(!dec(15, 1).le(&dec(1, 0)));
    // a larger mantissa at a larger scale is the smaller number
    assert!(dec(999, 3).lt(&dec(1, 0)));
    assert!(!dec(999, 3).same_value(&dec(999, 2)));
}

#[test]
fn negative_numbers_compare_below_zero() {
    assert!(dec(-1, 28).lt(&dec(0, 0)));
    assert!(dec(-5, 1).lt(&dec(-25, 2)));
    assert!(dec(-MAX_MANTISSA, 0).lt(&dec(MAX_MANTISSA, 28)));
    assert!(!dec(-1, 3).is_positive());
    assert!(!dec(0, 3).is_positive());
    assert!(dec(1, 28).is_positive());
}

#[test]
fn extremes_of_the_range_compare() {
    assert!(dec(MAX_MANTISSA, 28).lt(&dec(MAX_MANTISSA, 0)));
    assert!(dec(MAX_MANTISSA - 1, 0).lt(&dec(MAX_MANTISSA, 0)));
    assert!(dec(MAX_MANTISSA, 0).same_value(&dec(MAX_MANTISSA, 0)));
}

#[test]
fn prices_compare_within_a_currency_only() {
    let usd: &'static Currency =
        Box::leak(Box::new(Currency::new("USD".to_string(), "US Dollar".to_string())));
    let eur: &'static Currency =
        Box::leak(Box::new(Currency::new("EUR".to_string(), "Euro".to_string())));
    let also_usd: &'static Currency =
        Box::leak(Box::new(Currency::new("USD".to_string(), "Dollar".to_string())));
    let a = Price::new(usd, dec(100, 0));
    let b = Price::new(usd, dec(1055, 1));
    let c = Price::new(eur, dec(100, 0));
    let d = Price::new(also_usd, dec(10000, 2));
    assert_eq!(a.at_most(&b), Some(true));
    assert_eq!(b.at_most(&a), Some(false));
    assert_eq!(a.at_most(&a), Some(true));
    assert_eq!(a.at_most(&c), None);
    assert!(a.same_currency(&b));
    assert!(!a.same_currency(&c));
    assert!(a.same_currency(&d));
    assert!(a.same_price(&d));
    assert!(!a.same_price(&b));
    assert!(!a.same_price(&c));
    assert!(usd.same_as(also_usd));
    assert!(!usd.same_as(eur));
    assert!(a.is_positive());
    assert_eq!(a.currency().iso_code, "USD");
    assert_eq!(a.currency().name, "US Dollar");
    assert_eq!(b.value().mantissa(), 1055);
    assert_eq!(b.value().scale(), 1);
}
