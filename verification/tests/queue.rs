use trade_city::assets::Instrument;
use trade_city::decimal::DecimalValue;
use trade_city::marketdata::{Currency, Price};
use trade_city::messaging::Response;
use trade_city::orderbook::{OrderQueue, Orderbook};
use trade_city::orderutils::{Order, OrderType, Side};
use trade_city::trade::Execution;

fn key() -> OrderType {
    let c: &'static Currency =
        Box::leak(Box::new(Currency::new("CHF".to_string(), "Swiss Franc".to_string())));
    OrderType::Limit(Price::new(c, DecimalValue::from_integer(10)))
}

/// Orders with the identities 0, 1, 2, ... as a book gives them out: buys that rest.
fn identified(amounts: &[i64]) -> Vec<Order> {
    let mut book = Orderbook::new(Instrument::new(1));
    for a in amounts {
        let o = Order::new(Instrument::new(1), Side::Buy, *a, key()).unwrap();
        assert!(matches!(book.place_order(o), Response::Placement(_)));
    }
    book.levels()[0].buy_queue().iter().copied().collect()
}

#[test]
fn new_queue_is_empty() {
    let q = OrderQueue::new(key());
    assert!(q.is_empty());
    assert!(q.key().same_bucket(&key()));
    assert_eq!(q.buy_queue().len(), 0);
    assert_eq!(q.sell_queue().len(), 0);
    assert_eq!(q.len(Side::Buy), 0);
    assert!(q.front(Side::Sell).is_none());
}

#[test]
fn orders_leave_in_the_order_they_came() {
    let mut q = OrderQueue::new(key());
    for o in identified(&[1, 2, 3]) {
        q.push(o);
    }
    let sell = Order::new(Instrument::new(1), Side::Sell, 9, key()).unwrap();
    q.push(sell);
    assert!(!q.is_empty());
    assert_eq!(q.len(Side::Buy), 3);
    assert_eq!(q.len(Side::Sell), 1);
    assert_eq!(q.front(Side::Buy).unwrap().amount(), 1);
    assert_eq!(q.pop(Side::Buy).unwrap().amount(), 1);
    assert_eq!(q.pop(Side::Buy).unwrap().amount(), 2);
    assert_eq!(q.pop(Side::Sell).unwrap().amount(), 9);
    assert!(q.pop(Side::Sell).is_none());
    assert_eq!(q.pop(Side::Buy).unwrap().amount(), 3);
    assert!(q.pop(Side::Buy).is_none());
    assert!(q.is_empty());
}

#[test]
fn removal_by_identity_keeps_the_others_in_place() {
    let mut q = OrderQueue::new(key());
    for o in identified(&[10, 20, 30, 40]) {
        q.push(o);
    }
    assert_eq!(q.find(2).unwrap().amount(), 30);
    assert!(q.find(9).is_none());

    let gone = q.remove(1).unwrap();
    assert_eq!(gone.amount(), 20);
    assert_eq!(gone.id(), Some(1));
    assert!(q.find(1).is_none());
    assert!(q.remove(1).is_none());
    let left: Vec<i64> = q.buy_queue().iter().map(|o| o.amount()).collect();
    assert_eq!(left, vec![10, 30, 40]);

    assert_eq!(q.remove(0).unwrap().amount(), 10);
    assert_eq!(q.remove(3).unwrap().amount(), 40);
    let left: Vec<i64> = q.buy_queue().iter().map(|o| o.amount()).collect();
    assert_eq!(left, vec![30]);
}

#[test]
fn removal_looks_at_both_sides() {
    let mut book = Orderbook::new(Instrument::new(1));
    let c: &'static Currency =
        Box::leak(Box::new(Currency::new("CHF".to_string(), "Swiss Franc".to_string())));
    let low = OrderType::Limit(Price::new(c, DecimalValue::from_integer(5)));
    let high = OrderType::Limit(Price::new(c, DecimalValue::from_integer(6)));
    book.place_order(Order::new(Instrument::new(1), Side::Buy, 1, low).unwrap());
    book.place_order(Order::new(Instrument::new(1), Side::Sell, 2, high).unwrap());
    let buy = book.levels()[0].buy_queue()[0];
    let sell = book.levels()[1].sell_queue()[0];

    let mut q = OrderQueue::new(key());
    q.push(buy);
    q.push(sell);
    assert_eq!(q.find(1).unwrap().amount(), 2);
    assert_eq!(q.remove(1).unwrap().amount(), 2);
    assert_eq!(q.len(Side::Sell), 0);
    assert_eq!(q.len(Side::Buy), 1);
}

#[test]
fn lower_sells_and_higher_buys_are_served_first() {
    let c: &'static Currency =
        Box::leak(Box::new(Currency::new("CHF".to_string(), "Swiss Franc".to_string())));
    let low = OrderQueue::new(OrderType::Limit(Price::new(c, DecimalValue::new(99, 1).unwrap())));
    let high = OrderQueue::new(OrderType::Limit(Price::new(c, DecimalValue::from_integer(10))));
    assert!(low.serves_before(&high, Side::Sell));
    assert!(!high.serves_before(&low, Side::Sell));
    assert!(high.serves_before(&low, Side::Buy));
    assert!(!low.serves_before(&high, Side::Buy));
    assert!(!low.serves_before(&low, Side::Buy));
    assert!(!low.serves_before(&low, Side::Sell));
}

#[test]
fn execution_keeps_what_it_is_given() {
    let orders = identified(&[3, 4]);
    let c: &'static Currency =
        Box::leak(Box::new(Currency::new("CHF".to_string(), "Swiss Franc".to_string())));
    let price = Price::new(c, DecimalValue::new(105, 1).unwrap());
    let e = Execution::new(orders[0], orders[1], price, 3);
    assert_eq!(e.sell_order().id(), Some(0));
    assert_eq!(e.buy_order().id(), Some(1));
    assert_eq!(e.quantity(), 3);
    assert!(e.price().same_price(&price));
}
