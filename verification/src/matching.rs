//! The matching rules, stated over sequences of price levels.
//!
//! A level holds the resting orders of one limit price, the buys and the sells
//! each in the order they arrived. An incoming order trades against the best
//! level of the opposite side, oldest order first, one fill at a time, for as
//! long as its limit allows and something of it remains.

use crate::assets::Instrument;
use crate::marketdata::PriceView;
use crate::messaging::{RejectionReason, ResponseView};
use crate::orderutils::{OrderTypeView, OrderView, Side};
use crate::trade::ExecutionView;
use vstd::prelude::*;

verus! {

/// The resting orders of one bucket.
pub struct LevelView {
    pub key: OrderTypeView,
    pub buys: Seq<OrderView>,
    pub sells: Seq<OrderView>,
}

impl LevelView {
    /// The queue of one side, oldest order first.
    pub open spec fn side(self, s: Side) -> Seq<OrderView> {
        match s {
            Side::Buy => self.buys,
            Side::Sell => self.sells,
        }
    }

    /// The level with the queue of side `s` replaced.
    pub open spec fn with_side(self, s: Side, queue: Seq<OrderView>) -> LevelView {
        match s {
            Side::Buy => LevelView { buys: queue, ..self },
            Side::Sell => LevelView { sells: queue, ..self },
        }
    }

    /// No order rests on either side: the book may reclaim the level.
    pub open spec fn is_empty(self) -> bool {
        self.buys.len() == 0 && self.sells.len() == 0
    }

    /// The level's price in units of 10^-28.
    pub open spec fn units(self) -> int {
        match self.key {
            OrderTypeView::Limit(p) => p.units,
            OrderTypeView::AtMarket => 0,
        }
    }

    /// The level's place in the order of service of side `s`: a lower rank is
    /// served first. Sells are served from the lowest price up, buys from the
    /// highest price down.
    pub open spec fn rank(self, s: Side) -> int {
        match s {
            Side::Sell => self.units(),
            Side::Buy => -self.units(),
        }
    }
}

/// The order at `k` is the first of the queue with this identity.
pub open spec fn is_first_with(queue: Seq<OrderView>, id: u64, k: int) -> bool {
    &&& 0 <= k < queue.len()
    &&& queue[k].id == Some(id)
    &&& forall|j: int| 0 <= j < k ==> (#[trigger] queue[j]).id != Some(id)
}

/// The place of the first order of the queue with this identity, if there is
/// one.
pub open spec fn first_with(queue: Seq<OrderView>, id: u64) -> Option<int> {
    if exists|k: int| is_first_with(queue, id, k) {
        Some(choose|k: int| is_first_with(queue, id, k))
    } else {
        None
    }
}

impl LevelView {
    /// The order with this identity, looked for among the buys first.
    pub open spec fn find(self, id: u64) -> Option<OrderView> {
        match first_with(self.buys, id) {
            Some(k) => Some(self.buys[k]),
            None => match first_with(self.sells, id) {
                Some(k) => Some(self.sells[k]),
                None => None,
            },
        }
    }

    /// The level without the order that `find` gives. The orders that stay
    /// keep their places relative to each other.
    pub open spec fn without(self, id: u64) -> LevelView {
        match first_with(self.buys, id) {
            Some(k) => LevelView { buys: self.buys.remove(k), ..self },
            None => match first_with(self.sells, id) {
                Some(k) => LevelView { sells: self.sells.remove(k), ..self },
                None => self,
            },
        }
    }
}

/// The level at `i` has orders on side `s` and no level with orders on that
/// side is served before it.
pub open spec fn is_best(levels: Seq<LevelView>, s: Side, i: int) -> bool {
    &&& 0 <= i < levels.len()
    &&& levels[i].side(s).len() > 0
    &&& forall|j: int|
        0 <= j < levels.len() && (#[trigger] levels[j]).side(s).len() > 0 ==> levels[i].rank(s)
            <= levels[j].rank(s)
}

/// The index of the level of side `s` that is served first, if the side has
/// any order.
pub open spec fn best_level(levels: Seq<LevelView>, s: Side) -> Option<int> {
    if exists|i: int| is_best(levels, s, i) {
        Some(choose|i: int| is_best(levels, s, i))
    } else {
        None
    }
}

/// Whether the incoming order may trade at the level's price: a market order
/// always, a buy limit at or above it, a sell limit at or below it.
pub open spec fn crosses(incoming: OrderView, level: LevelView) -> bool {
    match incoming.order_type {
        OrderTypeView::AtMarket => true,
        OrderTypeView::Limit(p) => match incoming.side {
            Side::Buy => p.units >= level.units(),
            Side::Sell => p.units <= level.units(),
        },
    }
}

/// The quantity of the next fill between an incoming and a resting order: the
/// smaller of what remains of each.
pub open spec fn fill_quantity(incoming: OrderView, resting: OrderView) -> int {
    if incoming.remaining <= resting.remaining {
        incoming.remaining
    } else {
        resting.remaining
    }
}

/// The queue after `quantity` of its head was executed: the head leaves when
/// nothing of it remains, else it stays at the head with less remaining.
pub open spec fn fill_queue(queue: Seq<OrderView>, quantity: int) -> Seq<OrderView> {
    if queue[0].remaining == quantity {
        queue.drop_first()
    } else {
        queue.update(0, queue[0].fill(quantity))
    }
}

/// The level after `quantity` of the head of its side `s` was executed.
pub open spec fn fill_level(level: LevelView, s: Side, quantity: int) -> LevelView {
    level.with_side(s, fill_queue(level.side(s), quantity))
}

/// The levels with `level` in the place of the level at `i`, or without that
/// place if `level` holds no order.
pub open spec fn put_level(levels: Seq<LevelView>, i: int, level: LevelView) -> Seq<LevelView> {
    if level.is_empty() {
        levels.remove(i)
    } else {
        levels.update(i, level)
    }
}

/// The record of a fill of `quantity` at `price` between the incoming order
/// and the resting one, each as it stands after the fill.
pub open spec fn record(
    incoming: OrderView,
    resting: OrderView,
    price: PriceView,
    quantity: int,
) -> ExecutionView {
    match incoming.side {
        Side::Buy => ExecutionView {
            sell_order: resting.fill(quantity),
            buy_order: incoming.fill(quantity),
            price,
            quantity,
        },
        Side::Sell => ExecutionView {
            sell_order: incoming.fill(quantity),
            buy_order: resting.fill(quantity),
            price,
            quantity,
        },
    }
}

/// One fill: the levels and the incoming order after it, and its record.
pub struct Step {
    pub levels: Seq<LevelView>,
    pub incoming: OrderView,
    pub execution: ExecutionView,
}

/// The next fill of `incoming` against `levels`, if there is one: against the
/// oldest order of the best opposite level, at that level's price, for the
/// smaller of the two remaining quantities. A resting order that is filled
/// leaves its queue, and a level left without orders leaves the book.
pub open spec fn match_step(levels: Seq<LevelView>, incoming: OrderView) -> Option<Step> {
    let s = incoming.side.opposite();
    match best_level(levels, s) {
        None => None,
        Some(i) => {
            let head = levels[i].side(s)[0];
            let quantity = fill_quantity(incoming, head);
            match levels[i].key {
                OrderTypeView::AtMarket => None,
                OrderTypeView::Limit(price) => {
                    if quantity <= 0 || !crosses(incoming, levels[i]) {
                        None
                    } else {
                        Some(
                            Step {
                                levels: put_level(levels, i, fill_level(levels[i], s, quantity)),
                                incoming: incoming.fill(quantity),
                                execution: record(incoming, head, price, quantity),
                            },
                        )
                    }
                },
            }
        },
    }
}

/// The outcome of matching: the levels and the incoming order as the fills
/// left them, and the records of the fills in the order they happened.
pub struct Matched {
    pub levels: Seq<LevelView>,
    pub incoming: OrderView,
    pub executions: Seq<ExecutionView>,
}

impl Matched {
    /// The same outcome with `earlier` fills recorded before its own.
    pub open spec fn after(self, earlier: Seq<ExecutionView>) -> Matched {
        Matched { executions: earlier + self.executions, ..self }
    }
}

/// All the fills of `incoming` against `levels`, one after the other, until
/// nothing of it remains or nothing eligible rests.
pub open spec fn match_all(levels: Seq<LevelView>, incoming: OrderView) -> Matched
    decreases incoming.remaining,
{
    match match_step(levels, incoming) {
        None => Matched { levels, incoming, executions: Seq::empty() },
        Some(step) => match_all(step.levels, step.incoming).after(seq![step.execution]),
    }
}

/// The level at `i` is the bucket of `key`.
pub open spec fn is_level_of(levels: Seq<LevelView>, key: OrderTypeView, i: int) -> bool {
    0 <= i < levels.len() && levels[i].key == key
}

/// The index of the bucket of `key`, if the book has one.
pub open spec fn find_level(levels: Seq<LevelView>, key: OrderTypeView) -> Option<int> {
    if exists|i: int| is_level_of(levels, key, i) {
        Some(choose|i: int| is_level_of(levels, key, i))
    } else {
        None
    }
}

/// The level that holds `order` alone.
pub open spec fn level_of_one(order: OrderView) -> LevelView {
    LevelView { key: order.order_type, buys: Seq::empty(), sells: Seq::empty() }.with_side(
        order.side,
        seq![order],
    )
}

/// The levels with `order` resting: at the tail of its side's queue in the
/// bucket of its type, which is made if the book has none.
pub open spec fn rest(levels: Seq<LevelView>, order: OrderView) -> Seq<LevelView> {
    match find_level(levels, order.order_type) {
        Some(i) => levels.update(
            i,
            levels[i].with_side(order.side, levels[i].side(order.side).push(order)),
        ),
        None => levels.push(level_of_one(order)),
    }
}

/// The currency code that the prices of a bucket are in.
pub open spec fn code_of(key: OrderTypeView) -> Option<Seq<char>> {
    match key {
        OrderTypeView::Limit(p) => Some(p.code),
        OrderTypeView::AtMarket => None,
    }
}

/// The bucket at `i` is priced in another currency than `code`.
pub open spec fn is_conflict(levels: Seq<LevelView>, code: Seq<char>, i: int) -> bool {
    &&& 0 <= i < levels.len()
    &&& code_of(levels[i].key) is Some
    &&& code_of(levels[i].key) != Some(code)
}

/// Some bucket's price is in another currency than the limit of `order_type`.
pub open spec fn currency_conflict(levels: Seq<LevelView>, order_type: OrderTypeView) -> bool {
    code_of(order_type) is Some && exists|i: int|
        is_conflict(levels, code_of(order_type)->0, i)
}

/// What an order book is to the matching rules.
pub struct BookView {
    pub underlying: Instrument,
    pub levels: Seq<LevelView>,
    /// The identity that the next order taken will get.
    pub next_id: u64,
}

/// A book after an order was handed in or cancelled, and what the caller is
/// told.
pub struct Outcome {
    pub book: BookView,
    pub response: ResponseView,
}

/// Handing `order` in to `book`.
///
/// An order for another instrument, or with a limit in another currency than
/// the resting orders, is rejected and leaves the book as it was. Any other
/// order takes the book's next identity and is matched. What remains of a
/// limit order then rests; what remains of a market order is dropped. The
/// response lists the fills if there were any; else it is the placement of the
/// order that rests, or the rejection of the market order that found nothing.
pub open spec fn submit(book: BookView, order: OrderView) -> Outcome {
    if order.underlying != book.underlying {
        Outcome { book, response: ResponseView::rejection(RejectionReason::UnknownInstrument) }
    } else if currency_conflict(book.levels, order.order_type) {
        Outcome { book, response: ResponseView::rejection(RejectionReason::CrossCurrency) }
    } else {
        let matched = match_all(book.levels, order.identified(book.next_id));
        let rests = matched.incoming.remaining > 0 && matched.incoming.order_type is Limit;
        Outcome {
            book: BookView {
                underlying: book.underlying,
                levels: if rests {
                    rest(matched.levels, matched.incoming)
                } else {
                    matched.levels
                },
                next_id: (book.next_id + 1) as u64,
            },
            response: if matched.executions.len() > 0 {
                ResponseView::Execution(matched.executions)
            } else if rests {
                ResponseView::Placement(book.next_id)
            } else {
                ResponseView::rejection(RejectionReason::UnfillableMarketOrder)
            },
        }
    }
}

/// The level at `i` holds the order with this identity.
pub open spec fn is_holder(levels: Seq<LevelView>, id: u64, i: int) -> bool {
    0 <= i < levels.len() && levels[i].find(id) is Some
}

/// The index of the level that holds the order with this identity, if it
/// rests in the book.
pub open spec fn holder(levels: Seq<LevelView>, id: u64) -> Option<int> {
    if exists|i: int| is_holder(levels, id, i) {
        Some(choose|i: int| is_holder(levels, id, i))
    } else {
        None
    }
}

/// Cancelling the order with this identity: it leaves its queue, the orders
/// behind it move up, and a level left without orders leaves the book. With
/// no such order resting, the book stays as it is and there was no order.
pub open spec fn cancel(book: BookView, id: u64) -> Outcome {
    match holder(book.levels, id) {
        Some(i) => Outcome {
            book: BookView {
                levels: put_level(book.levels, i, book.levels[i].without(id)),
                ..book
            },
            response: ResponseView::Cancellation,
        },
        None => Outcome { book, response: ResponseView::NoOrder },
    }
}

/// The fills that a response reports.
pub open spec fn fills_of(response: ResponseView) -> Seq<ExecutionView> {
    match response {
        ResponseView::Execution(list) => list,
        _ => Seq::empty(),
    }
}

/// A book after a sequence of orders, with every response and every fill in
/// the order they came.
pub struct History {
    pub book: BookView,
    pub responses: Seq<ResponseView>,
    pub executions: Seq<ExecutionView>,
}

/// Handing the orders in to the book one after the other.
pub open spec fn replay(book: BookView, orders: Seq<OrderView>) -> History
    decreases orders.len(),
{
    if orders.len() == 0 {
        History { book, responses: Seq::empty(), executions: Seq::empty() }
    } else {
        let before = replay(book, orders.drop_last());
        let submitted = submit(before.book, orders.last());
        History {
            book: submitted.book,
            responses: before.responses.push(submitted.response),
            executions: before.executions + fills_of(submitted.response),
        }
    }
}

} // verus!
