use trade_city::assets::Instrument;
use trade_city::decimal::DecimalValue;
use trade_city::marketdata::{Currency, Price};
use trade_city::messaging::{RejectionReason, Response};
use trade_city::orderbook::Orderbook;
use trade_city::orderutils::{Order, OrderType, Side};
use trade_city::placement::Placer;

fn usd() -> &'static Currency {
    Box::leak(Box::new(Currency::new("USD".to_string(), "US Dollar".to_string())))
}

fn limit_order(instrument: u64, side: Side, amount: i64, price: i64) -> Order {
    let order_type = OrderType::Limit(Price::new(usd(), DecimalValue::from_integer(price)));
    Order::new(Instrument::new(instrument), side, amount, order_type).unwrap()
}

#[test]
fn nothing_to_do_is_no_order() {
    let mut placer = Placer::new();
    assert_eq!(placer.pending(), 0);
    assert!(placer.front().is_none());
    assert!(matches!(placer.place_next(), Err(Response::NoOrder)));
    placer.register(Orderbook::new(Instrument::new(1)));
    assert!(matches!(placer.place_next(), Err(Response::NoOrder)));
}

#[test]
fn order_without_a_book_is_rejected_and_leaves_the_queue() {
    let mut placer = Placer::new();
    placer.register(Orderbook::new(Instrument::new(1)));
    placer.push_to_queue(limit_order(2, Side::Buy, 5, 10));
    assert_eq!(placer.pending(), 1);
    match placer.place_next() {
        Err(Response::Rejection(text)) => assert_eq!(text, "book not found"),
        other => panic!("expected a rejection, got {:?}", other),
    }
    assert_eq!(placer.pending(), 0);
    assert_eq!(placer.book(1).unwrap().levels().len(), 0);
    assert!(placer.book(2).is_none());
}

#[test]
fn orders_are_routed_in_arrival_order() {
    let mut placer = Placer::new();
    assert!(placer.register(Orderbook::new(Instrument::new(1))));
    assert!(placer.register(Orderbook::new(Instrument::new(2))));
    placer.push_to_queue(limit_order(1, Side::Sell, 5, 10));
    placer.push_to_queue(limit_order(2, Side::Sell, 7, 10));
    placer.push_to_queue(limit_order(1, Side::Buy, 3, 10));
    assert_eq!(placer.pending(), 3);
    assert_eq!(placer.front().unwrap().amount(), 5);

    assert!(matches!(placer.place_next(), Ok(Response::Placement(0))));
    assert!(matches!(placer.place_next(), Ok(Response::Placement(0))));
    match placer.place_next() {
        Ok(Response::Execution(list)) => {
            assert_eq!(list.len(), 1);
            assert_eq!(list[0].quantity(), 3);
            assert_eq!(list[0].sell_order().underlying().id(), 1);
        }
        other => panic!("expected fills, got {:?}", other),
    }
    assert!(matches!(placer.place_next(), Err(Response::NoOrder)));

    let one = placer.book(1).unwrap();
    assert_eq!(one.levels()[0].sell_queue()[0].remaining(), 2);
    assert_eq!(one.next_id(), 2);
    let two = placer.book(2).unwrap();
    assert_eq!(two.levels()[0].sell_queue()[0].remaining(), 7);
    assert_eq!(two.next_id(), 1);
}

#[test]
fn rejections_of_the_book_are_failures() {
    let mut placer = Placer::new();
    placer.register(Orderbook::new(Instrument::new(1)));
    let market = Order::new(Instrument::new(1), Side::Sell, 5, OrderType::AtMarket).unwrap();
    placer.push_to_queue(market);
    match placer.place_next() {
        Err(Response::Rejection(text)) => assert_eq!(text, "unfillable market order"),
        other => panic!("expected a rejection, got {:?}", other),
    }
}

#[test]
fn an_instrument_has_one_book() {
    let mut placer = Placer::new();
    let mut book = Orderbook::new(Instrument::new(1));
    book.place_order(limit_order(1, Side::Buy, 5, 10));
    assert!(placer.register(book));
    assert!(placer.has_book(1));
    assert!(!placer.has_book(3));
    assert!(!placer.register(Orderbook::new(Instrument::new(1))));
    // the first book is still the one registered
    assert_eq!(placer.book(1).unwrap().levels().len(), 1);
}

#[test]
fn rejection_reasons_have_their_texts() {
    assert_eq!(RejectionReason::UnknownInstrument.message(), "book not found");
    assert_eq!(RejectionReason::CrossCurrency.message(), "cross currency");
    assert_eq!(RejectionReason::UnfillableMarketOrder.message(), "unfillable market order");
    match Response::rejection(RejectionReason::CrossCurrency) {
        Response::Rejection(text) => assert_eq!(text, "cross currency"),
        other => panic!("expected a rejection, got {:?}", other),
    }
}
