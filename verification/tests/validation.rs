use trade_city::assets::Instrument;
use trade_city::decimal::DecimalValue;
use trade_city::marketdata::{Currency, Price};
use trade_city::orderutils::{
    validate_order, ExecutionState, Order, OrderType, Side, ValidationError,
};

fn eur() -> &'static Currency {
    Box::leak(Box::new(Currency::new("EUR".to_string(), "Euro".to_string())))
}

fn limit(value: DecimalValue) -> OrderType {
    OrderType::Limit(Price::new(eur(), value))
}

#[test]
fn zero_quantity_is_refused() {
    let r = Order::new(Instrument::new(7), Side::Buy, 0, OrderType::AtMarket);
    assert_eq!(r.err(), Some(ValidationError::InvalidQuantity));
}

#[test]
fn negative_quantity_is_refused_on_either_side() {
    let one = limit(DecimalValue::from_integer(1));
    let buy = Order::new(Instrument::new(7), Side::Buy, -5, one);
    assert_eq!(buy.err(), Some(ValidationError::InvalidQuantity));
    let sell = Order::new(Instrument::new(7), Side::Sell, i64::MIN, one);
    assert_eq!(sell.err(), Some(ValidationError::InvalidQuantity));
}

#[test]
fn quantity_is_checked_before_the_limit() {
    let r = Order::new(Instrument::new(7), Side::Sell, 0, limit(DecimalValue::from_integer(-3)));
    assert_eq!(r.err(), Some(ValidationError::InvalidQuantity));
}

#[test]
fn zero_limit_is_refused() {
    let r = Order::new(Instrument::new(7), Side::Buy, 1, limit(DecimalValue::from_integer(0)));
    assert_eq!(r.err(), Some(ValidationError::InvalidLimit));
    let scaled = DecimalValue::new(0, 5).unwrap();
    let r = Order::new(Instrument::new(7), Side::Buy, 1, limit(scaled));
    assert_eq!(r.err(), Some(ValidationError::InvalidLimit));
}

#[test]
fn negative_limit_is_refused() {
    let r = Order::new(Instrument::new(7), Side::Sell, 10, limit(DecimalValue::new(-1, 28).unwrap()));
    assert_eq!(r.err(), Some(ValidationError::InvalidLimit));
}

#[test]
fn positive_quantity_and_limit_are_accepted() {
    let smallest = DecimalValue::new(1, 28).unwrap();
    let o = Order::new(Instrument::new(7), Side::Sell, 1, limit(smallest)).unwrap();
    assert_eq!(o.underlying().id(), 7);
    assert_eq!(o.side(), Side::Sell);
    assert!(o.is_sell_order());
    assert_eq!(o.amount(), 1);
    assert_eq!(o.remaining(), 1);
    assert_eq!(o.id(), None);
    assert!(!o.is_fully_executed());
    assert_eq!(o.state(), ExecutionState::Resting);
    assert!(o.order_type().same_bucket(&limit(smallest)));

    let big = Order::new(Instrument::new(7), Side::Buy, i64::MAX, OrderType::AtMarket).unwrap();
    assert!(!big.is_sell_order());
    assert_eq!(big.amount(), i64::MAX);
    assert!(matches!(big.order_type(), OrderType::AtMarket));
}

#[test]
fn validate_order_says_what_new_does() {
    assert_eq!(validate_order(3, &OrderType::AtMarket), Ok(true));
    assert_eq!(validate_order(-3, &OrderType::AtMarket), Err(ValidationError::InvalidQuantity));
    assert_eq!(
        validate_order(3, &limit(DecimalValue::from_integer(0))),
        Err(ValidationError::InvalidLimit)
    );
    assert_eq!(validate_order(3, &limit(DecimalValue::from_integer(9))), Ok(true));
}

#[test]
fn validation_errors_have_their_texts() {
    assert_eq!(ValidationError::InvalidQuantity.message(), "Amount must be greater than zero.");
    assert_eq!(ValidationError::InvalidLimit.message(), "Limit must be greater than zero.");
}

#[test]
fn buckets_compare_by_value_and_currency() {
    let usd: &'static Currency =
        Box::leak(Box::new(Currency::new("USD".to_string(), "US Dollar".to_string())));
    let a = limit(DecimalValue::new(1005, 1).unwrap());
    let b = limit(DecimalValue::new(100500, 3).unwrap());
    let c = limit(DecimalValue::new(1006, 1).unwrap());
    let d = OrderType::Limit(Price::new(usd, DecimalValue::new(1005, 1).unwrap()));
    assert!(a.same_bucket(&b));
    assert!(!a.same_bucket(&c));
    assert!(!a.same_bucket(&d));
    assert!(!a.same_bucket(&OrderType::AtMarket));
    assert!(OrderType::AtMarket.same_bucket(&OrderType::AtMarket));
}
