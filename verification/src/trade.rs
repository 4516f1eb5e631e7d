//! Records of completed matches.

use crate::marketdata::{Price, PriceView};
use crate::orderutils::{Order, OrderView};
use vstd::prelude::*;

verus! {

/// What an execution is to the matching rules.
pub struct ExecutionView {
    pub sell_order: OrderView,
    pub buy_order: OrderView,
    pub price: PriceView,
    pub quantity: int,
}

/// One matched pair: the two orders as they stood right after the fill, the
/// price they traded at and the quantity that changed hands.
#[derive(Clone, Copy, Debug)]
pub struct Execution {
    sell_order: Order,
    buy_order: Order,
    price: Price,
    quantity: i64,
}

impl View for Execution {
    type V = ExecutionView;

    closed spec fn view(&self) -> ExecutionView {
        ExecutionView {
            sell_order: self.sell_order@,
            buy_order: self.buy_order@,
            price: self.price@,
            quantity: self.quantity as int,
        }
    }
}

impl Execution {
    pub fn new(sell_order: Order, buy_order: Order, price: Price, quantity: i64) -> (r: Execution)
        ensures
            r@ == (ExecutionView {
                sell_order: sell_order@,
                buy_order: buy_order@,
                price: price@,
                quantity: quantity as int,
            }),
    {
        Execution { sell_order, buy_order, price, quantity }
    }

    pub fn sell_order(&self) -> (r: &Order)
        ensures
            r@ == self@.sell_order,
    {
        &self.sell_order
    }

    pub fn buy_order(&self) -> (r: &Order)
        ensures
            r@ == self@.buy_order,
    {
        &self.buy_order
    }

    pub fn price(&self) -> (r: &Price)
        ensures
            r@ == self@.price,
    {
        &self.price
    }

    pub fn quantity(&self) -> (r: i64)
        ensures
            r == self@.quantity,
    {
        self.quantity
    }
}

/// The views of a sequence of executions, in the same order.
pub open spec fn executions_view(s: Seq<Execution>) -> Seq<ExecutionView> {
    s.map_values(|e: Execution| e@)
}

} // verus!
