//! What the matching rules guarantee, proved from their definition.

use crate::assets::Instrument;
use crate::matching::{
    currency_conflict, match_all, match_step, replay, submit, BookView, LevelView,
};
use crate::orderutils::{validation_error, OrderTypeView, OrderView, Side, ValidationError};
use crate::soundness::{
    lemma_match_keeps_wf, lemma_step_keeps_wf, lemma_submit_keeps_wf, lemma_taker_ready, levels_wf,
    taker_wf, valid_pos,
};
use crate::trade::ExecutionView;
use vstd::prelude::*;

verus! {

/// An order of no or negative quantity is refused for its quantity, whatever
/// its type. An order of positive quantity is refused for its limit when that
/// is not positive, and is accepted otherwise.
pub proof fn lemma_validation(amount: int, order_type: OrderTypeView)
    ensures
        amount <= 0 ==> validation_error(amount, order_type) == Some(
            ValidationError::InvalidQuantity,
        ),
        amount > 0 && order_type is Limit && order_type->Limit_0.units <= 0 ==> validation_error(
            amount,
            order_type,
        ) == Some(ValidationError::InvalidLimit),
        amount > 0 && order_type is Limit && order_type->Limit_0.units > 0 ==> validation_error(
            amount,
            order_type,
        ) is None,
        amount > 0 && order_type is AtMarket ==> validation_error(amount, order_type) is None,
{
}

/// The resting order of a fill, given the side of the incoming order.
pub open spec fn resting_of(e: ExecutionView, incoming_side: Side) -> OrderView {
    match incoming_side {
        Side::Buy => e.sell_order,
        Side::Sell => e.buy_order,
    }
}

/// The incoming order of a fill, given its side.
pub open spec fn taker_of(e: ExecutionView, incoming_side: Side) -> OrderView {
    match incoming_side {
        Side::Buy => e.buy_order,
        Side::Sell => e.sell_order,
    }
}

/// What holds of a fill of `incoming`: it trades a positive quantity at the
/// limit price of the resting order, which is no worse for the incoming order
/// than its own limit, between a sell order and a buy order.
pub open spec fn fair_fill(e: ExecutionView, incoming: OrderView) -> bool {
    &&& e.quantity > 0
    &&& resting_of(e, incoming.side).order_type == OrderTypeView::Limit(e.price)
    &&& taker_of(e, incoming.side).id == incoming.id
    &&& e.sell_order.side == Side::Sell
    &&& e.buy_order.side == Side::Buy
    &&& incoming.order_type matches OrderTypeView::Limit(p) ==> match incoming.side {
        Side::Buy => e.price.units <= p.units,
        Side::Sell => e.price.units >= p.units,
    }
}

/// Every fill of a matching is at the resting order's price: the incoming
/// order gets the better price when its own limit is more generous.
pub proof fn lemma_fills_at_resting_price(
    levels: Seq<LevelView>,
    incoming: OrderView,
    underlying: Instrument,
    next_id: int,
    n: int,
)
    requires
        levels_wf(levels, underlying, next_id),
        taker_wf(levels, incoming, underlying, next_id),
        0 <= n < match_all(levels, incoming).executions.len(),
    ensures
        fair_fill(match_all(levels, incoming).executions[n], incoming),
    decreases incoming.remaining,
{
    match match_step(levels, incoming) {
        None => {},
        Some(step) => {
            lemma_step_keeps_wf(levels, incoming, underlying, next_id);
            if n > 0 {
                lemma_fills_at_resting_price(
                    step.levels,
                    step.incoming,
                    underlying,
                    next_id,
                    n - 1,
                );
            }
        },
    }
}

/// Every fill that a well-formed book reports for a new order is at the
/// resting order's price, and no worse for the new order than its limit.
pub proof fn lemma_price_improvement(book: BookView, order: OrderView, n: int)
    requires
        book.wf(),
        order.is_new(),
        submit(book, order).response is Execution,
        0 <= n < submit(book, order).response->Execution_0.len(),
    ensures
        fair_fill(
            submit(book, order).response->Execution_0[n],
            order.identified(book.next_id),
        ),
{
    lemma_taker_ready(book, order);
    lemma_fills_at_resting_price(
        book.levels,
        order.identified(book.next_id),
        book.underlying,
        book.next_id as int,
        n,
    );
}

/// After a new order was handed in to a well-formed book, every resting order
/// is a limit order, and a market order rests nowhere: not even the part of
/// it that found nothing to trade against.
pub proof fn lemma_market_orders_never_rest(
    book: BookView,
    order: OrderView,
    i: int,
    s: Side,
    k: int,
)
    requires
        book.wf(),
        order.is_new(),
        book.next_id < u64::MAX,
        valid_pos(submit(book, order).book.levels, i, s, k),
    ensures
        submit(book, order).book.levels[i].key is Limit,
        submit(book, order).book.levels[i].side(s)[k].order_type is Limit,
        order.order_type is AtMarket ==> submit(book, order).book.levels[i].side(s)[k].id
            != Some(book.next_id),
{
    lemma_submit_keeps_wf(book, order);
    if order.order_type is AtMarket {
        if order.underlying == book.underlying && !currency_conflict(
            book.levels,
            order.order_type,
        ) {
            lemma_match_keeps_wf(
                book.levels,
                order.identified(book.next_id),
                book.underlying,
                book.next_id as int,
            );
        }
    }
}

/// The same orders handed in to the same book give the same responses, the
/// same fills and the same book, every time.
pub proof fn lemma_replay_is_deterministic(
    first: BookView,
    second: BookView,
    orders: Seq<OrderView>,
    again: Seq<OrderView>,
)
    requires
        first == second,
        orders =~= again,
    ensures
        replay(first, orders) == replay(second, again),
{
}

} // verus!
