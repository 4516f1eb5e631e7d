use trade_city::assets::Instrument;
use trade_city::decimal::DecimalValue;
use trade_city::marketdata::{Currency, Price};
use trade_city::messaging::Response;
use trade_city::orderbook::Orderbook;
use trade_city::orderutils::{Order, OrderType, Side};

fn usd() -> &'static Currency {
    Box::leak(Box::new(Currency::new("USD".to_string(), "US Dollar".to_string())))
}

fn limit(currency: &'static Currency, value: i64) -> OrderType {
    OrderType::Limit(Price::new(currency, DecimalValue::from_integer(value)))
}

fn order(side: Side, amount: i64, order_type: OrderType) -> Order {
    Order::new(Instrument::new(1), side, amount, order_type).unwrap()
}

#[test]
fn partial_fills_then_market_order_takes_the_rest() {
    let c = usd();
    let mut book = Orderbook::new(Instrument::new(1));

    let first = book.place_order(order(Side::Sell, 10, limit(c, 100)));
    assert!(matches!(first, Response::Placement(0)));

    let second = book.place_order(order(Side::Buy, 4, limit(c, 100)));
    match second {
        Response::Execution(list) => {
            assert_eq!(list.len(), 1);
            assert_eq!(list[0].quantity(), 4);
            assert!(list[0].price().same_price(&Price::new(c, DecimalValue::from_integer(100))));
            assert_eq!(list[0].sell_order().id(), Some(0));
            assert_eq!(list[0].buy_order().id(), Some(1));
            assert_eq!(list[0].sell_order().remaining(), 6);
            assert_eq!(list[0].buy_order().remaining(), 0);
        }
        other => panic!("expected an execution, got {:?}", other),
    }
    assert_eq!(book.levels().len(), 1);
    assert_eq!(book.levels()[0].sell_queue().len(), 1);
    assert_eq!(book.levels()[0].sell_queue()[0].remaining(), 6);

    let third = book.place_order(order(Side::Buy, 10, OrderType::AtMarket));
    match third {
        Response::Execution(list) => {
            assert_eq!(list.len(), 1);
            assert_eq!(list[0].quantity(), 6);
            assert!(list[0].price().same_price(&Price::new(c, DecimalValue::from_integer(100))));
            assert_eq!(list[0].buy_order().remaining(), 4);
        }
        other => panic!("expected an execution, got {:?}", other),
    }
    assert_eq!(book.levels().len(), 0);
}

#[test]
fn prices_that_do_not_cross_both_rest() {
    let c = usd();
    let mut book = Orderbook::new(Instrument::new(1));
    let buy = book.place_order(order(Side::Buy, 5, limit(c, 50)));
    assert!(matches!(buy, Response::Placement(0)));
    let sell = book.place_order(order(Side::Sell, 5, limit(c, 60)));
    assert!(matches!(sell, Response::Placement(1)));

    assert_eq!(book.levels().len(), 2);
    let fifty = &book.levels()[0];
    assert!(fifty.key().same_bucket(&limit(c, 50)));
    assert_eq!(fifty.buy_queue().len(), 1);
    assert_eq!(fifty.sell_queue().len(), 0);
    let sixty = &book.levels()[1];
    assert!(sixty.key().same_bucket(&limit(c, 60)));
    assert_eq!(sixty.buy_queue().len(), 0);
    assert_eq!(sixty.sell_queue().len(), 1);
}

fn eur() -> &'static Currency {
    Box::leak(Box::new(Currency::new("EUR".to_string(), "Euro".to_string())))
}

fn fills(response: Response) -> Vec<trade_city::trade::Execution> {
    match response {
        Response::Execution(list) => list,
        other => panic!("expected fills, got {:?}", other),
    }
}

fn rejection(response: Response) -> String {
    match response {
        Response::Rejection(text) => text,
        other => panic!("expected a rejection, got {:?}", other),
    }
}

#[test]
fn earlier_order_at_a_price_is_filled_first() {
    let c = usd();
    let mut book = Orderbook::new(Instrument::new(1));
    assert!(matches!(book.place_order(order(Side::Sell, 5, limit(c, 100))), Response::Placement(0)));
    assert!(matches!(book.place_order(order(Side::Sell, 5, limit(c, 100))), Response::Placement(1)));

    let list = fills(book.place_order(order(Side::Buy, 5, limit(c, 100))));
    assert_eq!(list.len(), 1);
    assert_eq!(list[0].sell_order().id(), Some(0));
    assert_eq!(list[0].quantity(), 5);
    assert!(list[0].sell_order().is_fully_executed());

    assert_eq!(book.levels().len(), 1);
    let queue = book.levels()[0].sell_queue();
    assert_eq!(queue.len(), 1);
    assert_eq!(queue[0].id(), Some(1));
    assert_eq!(queue[0].remaining(), 5);
    assert_eq!(queue[0].amount(), 5);
}

#[test]
fn a_large_order_walks_the_queue_in_arrival_order() {
    let c = usd();
    let mut book = Orderbook::new(Instrument::new(1));
    book.place_order(order(Side::Buy, 3, limit(c, 20)));
    book.place_order(order(Side::Buy, 4, limit(c, 20)));
    book.place_order(order(Side::Buy, 5, limit(c, 20)));

    let list = fills(book.place_order(order(Side::Sell, 9, limit(c, 20))));
    assert_eq!(list.len(), 3);
    assert_eq!(
        list.iter().map(|e| (e.buy_order().id(), e.quantity())).collect::<Vec<_>>(),
        vec![(Some(0), 3), (Some(1), 4), (Some(2), 2)]
    );
    assert_eq!(
        list.iter().map(|e| e.sell_order().remaining()).collect::<Vec<_>>(),
        vec![6, 2, 0]
    );
    let queue = book.levels()[0].buy_queue();
    assert_eq!(queue.len(), 1);
    assert_eq!(queue[0].id(), Some(2));
    assert_eq!(queue[0].remaining(), 3);
    assert_eq!(
        queue[0].state(),
        trade_city::orderutils::ExecutionState::PartiallyFilled(3)
    );
}

#[test]
fn incoming_buy_gets_the_resting_price() {
    let c = usd();
    let mut book = Orderbook::new(Instrument::new(1));
    book.place_order(order(Side::Sell, 2, limit(c, 100)));
    let list = fills(book.place_order(order(Side::Buy, 2, limit(c, 105))));
    assert_eq!(list.len(), 1);
    assert!(list[0].price().same_price(&Price::new(c, DecimalValue::from_integer(100))));
    assert!(!list[0].price().same_price(&Price::new(c, DecimalValue::from_integer(105))));
    assert_eq!(book.levels().len(), 0);
}

#[test]
fn incoming_sell_gets_the_resting_price() {
    let c = usd();
    let mut book = Orderbook::new(Instrument::new(1));
    book.place_order(order(Side::Buy, 2, limit(c, 105)));
    let list = fills(book.place_order(order(Side::Sell, 2, limit(c, 100))));
    assert_eq!(list.len(), 1);
    assert!(list[0].price().same_price(&Price::new(c, DecimalValue::from_integer(105))));
    assert_eq!(list[0].buy_order().id(), Some(0));
    assert_eq!(list[0].sell_order().id(), Some(1));
}

#[test]
fn buy_takes_the_lowest_sell_first_and_stops_at_its_limit() {
    let c = usd();
    let mut book = Orderbook::new(Instrument::new(1));
    book.place_order(order(Side::Sell, 1, limit(c, 103)));
    book.place_order(order(Side::Sell, 1, limit(c, 101)));
    book.place_order(order(Side::Sell, 1, limit(c, 102)));
    book.place_order(order(Side::Sell, 1, limit(c, 104)));

    let list = fills(book.place_order(order(Side::Buy, 10, limit(c, 103))));
    assert_eq!(list.len(), 3);
    for (e, price) in list.iter().zip([101, 102, 103]) {
        assert!(e.price().same_price(&Price::new(c, DecimalValue::from_integer(price))));
        assert_eq!(e.quantity(), 1);
    }
    assert_eq!(list[2].buy_order().remaining(), 7);

    // the sell at 104 still rests, and what is left of the buy rests at 103
    assert_eq!(book.levels().len(), 2);
    let sells: usize = book.levels().iter().map(|l| l.sell_queue().len()).sum();
    let buys: usize = book.levels().iter().map(|l| l.buy_queue().len()).sum();
    assert_eq!((sells, buys), (1, 1));
    let resting_buy = book.levels().iter().find(|l| l.buy_queue().len() == 1).unwrap();
    assert!(resting_buy.key().same_bucket(&limit(c, 103)));
    assert_eq!(resting_buy.buy_queue()[0].remaining(), 7);
    assert_eq!(resting_buy.buy_queue()[0].id(), Some(4));
}

#[test]
fn sell_takes_the_highest_buy_first() {
    let c = usd();
    let mut book = Orderbook::new(Instrument::new(1));
    book.place_order(order(Side::Buy, 1, limit(c, 10)));
    book.place_order(order(Side::Buy, 1, limit(c, 12)));
    book.place_order(order(Side::Buy, 1, limit(c, 11)));
    let list = fills(book.place_order(order(Side::Sell, 2, OrderType::AtMarket)));
    assert_eq!(list.len(), 2);
    assert!(list[0].price().same_price(&Price::new(c, DecimalValue::from_integer(12))));
    assert!(list[1].price().same_price(&Price::new(c, DecimalValue::from_integer(11))));
    assert_eq!(book.levels().len(), 1);
    assert!(book.levels()[0].key().same_bucket(&limit(c, 10)));
}

#[test]
fn prices_of_different_scales_share_a_bucket() {
    let c = usd();
    let mut book = Orderbook::new(Instrument::new(1));
    let a = OrderType::Limit(Price::new(c, DecimalValue::new(1005, 1).unwrap()));
    let b = OrderType::Limit(Price::new(c, DecimalValue::new(100500, 3).unwrap()));
    book.place_order(order(Side::Sell, 1, a));
    book.place_order(order(Side::Sell, 1, b));
    assert_eq!(book.levels().len(), 1);
    assert_eq!(book.levels()[0].sell_queue().len(), 2);
    // a buy one hundredth below does not cross
    let below = OrderType::Limit(Price::new(c, DecimalValue::new(10049, 2).unwrap()));
    assert!(matches!(book.place_order(order(Side::Buy, 1, below)), Response::Placement(2)));
    assert_eq!(book.levels().len(), 2);
}

#[test]
fn market_order_into_an_empty_book_is_rejected_and_does_not_rest() {
    let mut book = Orderbook::new(Instrument::new(1));
    let text = rejection(book.place_order(order(Side::Buy, 3, OrderType::AtMarket)));
    assert_eq!(text, "unfillable market order");
    assert_eq!(book.levels().len(), 0);
    assert_eq!(book.next_id(), 1);
}

#[test]
fn market_order_ignores_its_own_side() {
    let c = usd();
    let mut book = Orderbook::new(Instrument::new(1));
    book.place_order(order(Side::Buy, 3, limit(c, 10)));
    let text = rejection(book.place_order(order(Side::Buy, 3, OrderType::AtMarket)));
    assert_eq!(text, "unfillable market order");
    assert_eq!(book.levels().len(), 1);
    assert_eq!(book.levels()[0].buy_queue().len(), 1);
}

#[test]
fn remainder_of_a_market_order_never_rests() {
    let c = usd();
    let mut book = Orderbook::new(Instrument::new(1));
    book.place_order(order(Side::Sell, 2, limit(c, 7)));
    let list = fills(book.place_order(order(Side::Buy, 5, OrderType::AtMarket)));
    assert_eq!(list.len(), 1);
    assert_eq!(list[0].quantity(), 2);
    assert_eq!(list[0].buy_order().remaining(), 3);
    assert_eq!(book.levels().len(), 0);
    for level in book.levels() {
        assert!(matches!(level.key(), OrderType::Limit(_)));
    }
}

#[test]
fn limit_in_another_currency_is_rejected_and_changes_nothing() {
    let mut book = Orderbook::new(Instrument::new(1));
    book.place_order(order(Side::Sell, 2, limit(usd(), 7)));
    let text = rejection(book.place_order(order(Side::Buy, 2, limit(eur(), 7))));
    assert_eq!(text, "cross currency");
    assert_eq!(book.next_id(), 1);
    assert_eq!(book.levels().len(), 1);
    assert_eq!(book.levels()[0].sell_queue()[0].remaining(), 2);
    // the same currency under another name value is the same currency
    let again = limit(usd(), 7);
    assert!(matches!(book.place_order(order(Side::Buy, 2, again)), Response::Execution(_)));
}

#[test]
fn any_currency_may_open_an_empty_book() {
    let mut book = Orderbook::new(Instrument::new(1));
    assert!(matches!(book.place_order(order(Side::Buy, 2, limit(eur(), 7))), Response::Placement(0)));
    let text = rejection(book.place_order(order(Side::Buy, 2, limit(usd(), 7))));
    assert_eq!(text, "cross currency");
}

#[test]
fn order_for_another_instrument_is_rejected() {
    let mut book = Orderbook::new(Instrument::new(2));
    assert_eq!(book.underlying().id(), 2);
    let text = rejection(book.place_order(order(Side::Buy, 2, limit(usd(), 7))));
    assert_eq!(text, "book not found");
    assert_eq!(book.next_id(), 0);
    assert_eq!(book.levels().len(), 0);
}

#[test]
fn executed_and_remaining_add_up_to_the_quantity() {
    let c = usd();
    let mut book = Orderbook::new(Instrument::new(1));
    let amounts = [10i64, 4, 10, 7, 3, 12];
    let orders = vec![
        order(Side::Sell, amounts[0], limit(c, 100)),
        order(Side::Buy, amounts[1], limit(c, 100)),
        order(Side::Buy, amounts[2], OrderType::AtMarket),
        order(Side::Buy, amounts[3], limit(c, 99)),
        order(Side::Buy, amounts[4], limit(c, 101)),
        order(Side::Sell, amounts[5], limit(c, 98)),
    ];
    let mut executed = [0i64; 6];
    let mut last_seen: [Option<i64>; 6] = [None; 6];
    for o in orders {
        if let Response::Execution(list) = book.place_order(o) {
            for e in list {
                for side in [e.sell_order(), e.buy_order()] {
                    let id = side.id().unwrap() as usize;
                    executed[id] += e.quantity();
                    assert!(executed[id] <= amounts[id]);
                    assert_eq!(side.amount(), amounts[id]);
                    assert_eq!(side.remaining() + executed[id], amounts[id]);
                    last_seen[id] = Some(side.remaining());
                }
            }
        }
    }
    assert_eq!(executed, [10, 4, 6, 7, 3, 10]);
    for level in book.levels() {
        for o in level.buy_queue().iter().chain(level.sell_queue().iter()) {
            let id = o.id().unwrap() as usize;
            assert_eq!(o.remaining() + executed[id], amounts[id]);
        }
    }
    // what is left: 2 of the last sell, resting at 98
    assert_eq!(book.levels().len(), 1);
    assert_eq!(book.levels()[0].sell_queue()[0].id(), Some(5));
    assert_eq!(book.levels()[0].sell_queue()[0].remaining(), 2);
}

#[test]
fn replaying_the_same_orders_gives_the_same_fills_and_book() {
    let c = usd();
    let orders = vec![
        order(Side::Sell, 10, limit(c, 100)),
        order(Side::Sell, 5, limit(c, 99)),
        order(Side::Buy, 4, limit(c, 100)),
        order(Side::Buy, 30, OrderType::AtMarket),
        order(Side::Buy, 6, limit(c, 50)),
        order(Side::Sell, 6, limit(c, 60)),
        order(Side::Sell, 2, limit(eur(), 60)),
    ];
    let mut first = Orderbook::new(Instrument::new(1));
    let told_first = first.replay(&orders);
    let mut second = Orderbook::new(Instrument::new(1));
    let told_second = second.replay(&orders);
    assert_eq!(format!("{:?}", told_first), format!("{:?}", told_second));
    assert_eq!(format!("{:?}", first), format!("{:?}", second));

    // and one by one is the same as all at once
    let mut third = Orderbook::new(Instrument::new(1));
    let told_third: Vec<Response> = orders.iter().map(|o| third.place_order(*o)).collect();
    assert_eq!(format!("{:?}", told_first), format!("{:?}", told_third));
    assert_eq!(format!("{:?}", first), format!("{:?}", third));

    assert_eq!(told_first.len(), 7);
    assert!(matches!(told_first[0], Response::Placement(0)));
    assert!(matches!(told_first[1], Response::Placement(1)));
    assert!(matches!(told_first[6], Response::Rejection(_)));
    assert_eq!(first.next_id(), 6);
}

#[test]
fn identities_grow_with_every_order_taken() {
    let c = usd();
    let mut book = Orderbook::new(Instrument::new(1));
    assert!(matches!(book.place_order(order(Side::Buy, 1, limit(c, 1))), Response::Placement(0)));
    assert!(matches!(book.place_order(order(Side::Buy, 1, limit(c, 2))), Response::Placement(1)));
    // a market order that finds nothing still uses up an identity
    assert!(matches!(
        book.place_order(order(Side::Buy, 1, OrderType::AtMarket)),
        Response::Rejection(_)
    ));
    assert!(matches!(book.place_order(order(Side::Buy, 1, limit(c, 3))), Response::Placement(3)));
}

#[test]
fn cancelled_order_leaves_and_the_rest_moves_up() {
    let c = usd();
    let mut book = Orderbook::new(Instrument::new(1));
    book.place_order(order(Side::Sell, 1, limit(c, 100)));
    book.place_order(order(Side::Sell, 2, limit(c, 100)));
    book.place_order(order(Side::Sell, 3, limit(c, 100)));
    book.place_order(order(Side::Buy, 4, limit(c, 90)));

    assert!(matches!(book.cancel_order(1), Response::Cancellation));
    assert!(matches!(book.cancel_order(1), Response::NoOrder));
    assert!(matches!(book.cancel_order(17), Response::NoOrder));
    assert_eq!(book.levels().len(), 2);
    let ids: Vec<Option<u64>> = book.levels()[0].sell_queue().iter().map(|o| o.id()).collect();
    assert_eq!(ids, vec![Some(0), Some(2)]);

    // the last order of a bucket takes the bucket with it
    assert!(matches!(book.cancel_order(3), Response::Cancellation));
    assert_eq!(book.levels().len(), 1);
    assert!(book.levels()[0].key().same_bucket(&limit(c, 100)));

    // a cancelled order is no longer matched, and identities are not used again
    let list = fills(book.place_order(order(Side::Buy, 6, limit(c, 100))));
    assert_eq!(
        list.iter().map(|e| (e.sell_order().id(), e.quantity())).collect::<Vec<_>>(),
        vec![(Some(0), 1), (Some(2), 3)]
    );
    assert_eq!(list[1].buy_order().id(), Some(4));
    assert_eq!(book.next_id(), 5);
}

#[test]
fn best_bucket_is_the_lowest_sell_and_the_highest_buy() {
    let c = usd();
    let mut book = Orderbook::new(Instrument::new(1));
    assert!(book.best(Side::Buy).is_none());
    assert!(book.best(Side::Sell).is_none());
    book.place_order(order(Side::Sell, 1, limit(c, 30)));
    book.place_order(order(Side::Sell, 1, limit(c, 20)));
    book.place_order(order(Side::Sell, 1, limit(c, 25)));
    book.place_order(order(Side::Buy, 1, limit(c, 10)));
    book.place_order(order(Side::Buy, 1, limit(c, 15)));
    book.place_order(order(Side::Buy, 1, limit(c, 5)));
    assert!(book.best(Side::Sell).unwrap().key().same_bucket(&limit(c, 20)));
    assert!(book.best(Side::Buy).unwrap().key().same_bucket(&limit(c, 15)));
}

#[test]
fn resting_buys_stay_below_resting_sells() {
    let c = usd();
    let mut book = Orderbook::new(Instrument::new(1));
    let steps = [
        (Side::Buy, 5, 50),
        (Side::Sell, 5, 60),
        (Side::Buy, 3, 55),
        (Side::Sell, 4, 52),
        (Side::Buy, 9, 61),
        (Side::Sell, 2, 40),
        (Side::Buy, 1, 58),
        (Side::Sell, 7, 58),
    ];
    for (side, amount, price) in steps {
        book.place_order(order(side, amount, limit(c, price)));
        if let (Some(bid), Some(ask)) = (book.best(Side::Buy), book.best(Side::Sell)) {
            let (bid, ask) = match (bid.key(), ask.key()) {
                (OrderType::Limit(b), OrderType::Limit(a)) => (*b, *a),
                _ => panic!("a market order rests"),
            };
            assert_eq!(ask.at_most(&bid), Some(false));
        }
        for level in book.levels() {
            assert!(level.buy_queue().is_empty() || level.sell_queue().is_empty());
            assert!(!level.is_empty());
        }
    }
}
