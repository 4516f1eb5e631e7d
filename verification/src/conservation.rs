//! Conservation of quantity: what was executed of an order and what remains
//! of it always add up to what it was built with.

use crate::assets::Instrument;
use crate::matching::{
    best_level, currency_conflict, fills_of, match_all, match_step, replay, submit, BookView,
    LevelView,
};
use crate::orderutils::{OrderView, Side};
use crate::soundness::{
    ids_unique, keys_distinct, lemma_fill_origin, lemma_rest_origin, lemma_step_keeps_wf,
    lemma_submit_keeps_wf, lemma_taker_ready, levels_wf, taker_wf, valid_pos,
};
use crate::trade::ExecutionView;
use vstd::prelude::*;

verus! {

/// The quantity that a fill executed of the order with this identity.
pub open spec fn traded(e: ExecutionView, id: u64) -> int {
    if e.sell_order.id == Some(id) || e.buy_order.id == Some(id) {
        e.quantity
    } else {
        0
    }
}

/// The quantity that the fills executed of the order with this identity.
pub open spec fn executed_total(fills: Seq<ExecutionView>, id: u64) -> int
    decreases fills.len(),
{
    if fills.len() == 0 {
        0
    } else {
        executed_total(fills.drop_last(), id) + traded(fills.last(), id)
    }
}

/// What remains of the order and what the fills executed of it add up to the
/// quantity it was built with.
pub open spec fn balanced(o: OrderView, fills: Seq<ExecutionView>) -> bool {
    &&& o.id is Some
    &&& 0 <= o.remaining
    &&& o.remaining + executed_total(fills, o.id->0) == o.amount
}

/// Every resting order is balanced against the fills.
pub open spec fn book_balanced(levels: Seq<LevelView>, fills: Seq<ExecutionView>) -> bool {
    forall|i: int, s: Side, k: int| #[trigger]
        valid_pos(levels, i, s, k) ==> balanced(levels[i].side(s)[k], fills)
}

/// Both orders of the fill at `n`, as it recorded them, are balanced against
/// the fills up to and including it.
pub open spec fn record_balanced(fills: Seq<ExecutionView>, n: int) -> bool {
    &&& balanced(fills[n].sell_order, fills.take(n + 1))
    &&& balanced(fills[n].buy_order, fills.take(n + 1))
}

/// Every fill recorded both its orders in balance.
pub open spec fn records_balanced(fills: Seq<ExecutionView>) -> bool {
    forall|n: int| 0 <= n < fills.len() ==> #[trigger] record_balanced(fills, n)
}

/// No fill executed anything of an order with an identity from `bound` on.
pub open spec fn untraded_from(fills: Seq<ExecutionView>, bound: int) -> bool {
    forall|id: u64| id >= bound ==> #[trigger] executed_total(fills, id) == 0
}

/// What one more fill adds to the executed quantity of an order.
proof fn lemma_total_push(fills: Seq<ExecutionView>, e: ExecutionView, id: u64)
    ensures
        executed_total(fills.push(e), id) == executed_total(fills, id) + traded(e, id),
{
    assert(fills.push(e).drop_last() =~= fills);
}

/// One fill keeps the balance of the book, of the incoming order and of the
/// records.
proof fn lemma_step_balanced(
    levels: Seq<LevelView>,
    incoming: OrderView,
    underlying: Instrument,
    next_id: int,
    done: Seq<ExecutionView>,
)
    requires
        levels_wf(levels, underlying, next_id),
        taker_wf(levels, incoming, underlying, next_id),
        match_step(levels, incoming) is Some,
        book_balanced(levels, done),
        balanced(incoming, done),
        records_balanced(done),
        untraded_from(done, next_id + 1),
    ensures
        book_balanced(
            match_step(levels, incoming)->0.levels,
            done.push(match_step(levels, incoming)->0.execution),
        ),
        balanced(
            match_step(levels, incoming)->0.incoming,
            done.push(match_step(levels, incoming)->0.execution),
        ),
        records_balanced(done.push(match_step(levels, incoming)->0.execution)),
        untraded_from(done.push(match_step(levels, incoming)->0.execution), next_id + 1),
{
    let s = incoming.side.opposite();
    let i = best_level(levels, s)->0;
    let step = match_step(levels, incoming)->0;
    let e = step.execution;
    let quantity = e.quantity;
    let head = levels[i].side(s)[0];
    let all = done.push(e);
    assert(valid_pos(levels, i, s, 0));
    let h = head.id->0;
    let n = incoming.id->0;
    // a resting order is the one that was filled, or had no part in the fill
    assert forall|a: int, t: Side, k: int| #[trigger]
        valid_pos(step.levels, a, t, k) implies balanced(step.levels[a].side(t)[k], all) by {
        let (a0, k0) = lemma_fill_origin(levels, i, s, quantity, a, t, k);
        let before = levels[a0].side(t)[k0];
        lemma_total_push(done, e, before.id->0);
        if !(a0 == i && t == s && k0 == 0) {
            assert(before.id->0 != h) by {
                reveal(ids_unique);
            }
        }
    }
    // the fill took the same quantity from both its orders
    lemma_total_push(done, e, n);
    lemma_total_push(done, e, h);
    assert forall|m: int| 0 <= m < all.len() implies #[trigger] record_balanced(all, m) by {
        if m < done.len() {
            assert(record_balanced(done, m));
            assert(all.take(m + 1) =~= done.take(m + 1));
        } else {
            assert(all.take(m + 1) =~= all);
        }
    }
    assert forall|id: u64| id >= next_id + 1 implies #[trigger] executed_total(all, id) == 0 by {
        lemma_total_push(done, e, id);
    }
}

/// Matching keeps the balance of the book, of the incoming order and of the
/// records, whatever the number of fills.
proof fn lemma_match_balanced(
    levels: Seq<LevelView>,
    incoming: OrderView,
    underlying: Instrument,
    next_id: int,
    done: Seq<ExecutionView>,
)
    requires
        levels_wf(levels, underlying, next_id),
        taker_wf(levels, incoming, underlying, next_id),
        book_balanced(levels, done),
        balanced(incoming, done),
        records_balanced(done),
        untraded_from(done, next_id + 1),
    ensures
        book_balanced(
            match_all(levels, incoming).levels,
            done + match_all(levels, incoming).executions,
        ),
        balanced(
            match_all(levels, incoming).incoming,
            done + match_all(levels, incoming).executions,
        ),
        records_balanced(done + match_all(levels, incoming).executions),
        untraded_from(done + match_all(levels, incoming).executions, next_id + 1),
    decreases incoming.remaining,
{
    match match_step(levels, incoming) {
        None => {},
        Some(step) => {
            lemma_step_keeps_wf(levels, incoming, underlying, next_id);
            lemma_step_balanced(levels, incoming, underlying, next_id, done);
            let all = done.push(step.execution);
            lemma_match_balanced(step.levels, step.incoming, underlying, next_id, all);
            assert(done + match_all(levels, incoming).executions =~= all + match_all(
                step.levels,
                step.incoming,
            ).executions);
        },
    }
}

/// What holds between a book and the fills of its past: the book is well
/// formed, every resting order and every record is balanced, and nothing was
/// executed of an order that the book has yet to take.
pub open spec fn conserved(book: BookView, fills: Seq<ExecutionView>) -> bool {
    &&& book.wf()
    &&& book_balanced(book.levels, fills)
    &&& records_balanced(fills)
    &&& untraded_from(fills, book.next_id as int)
}

/// Handing a new order in keeps the balance.
pub proof fn lemma_submit_conserves(book: BookView, order: OrderView, fills: Seq<ExecutionView>)
    requires
        conserved(book, fills),
        order.is_new(),
        book.next_id < u64::MAX,
    ensures
        conserved(submit(book, order).book, fills + fills_of(submit(book, order).response)),
{
    lemma_submit_keeps_wf(book, order);
    let after = submit(book, order);
    let all = fills + fills_of(after.response);
    if order.underlying == book.underlying && !currency_conflict(book.levels, order.order_type) {
        let n = book.next_id as int;
        let incoming = order.identified(book.next_id);
        lemma_taker_ready(book, order);
        lemma_match_balanced(book.levels, incoming, book.underlying, n, fills);
        let matched = match_all(book.levels, incoming);
        assert forall|a: int, t: Side, k: int| #[trigger]
            valid_pos(after.book.levels, a, t, k) implies balanced(
            after.book.levels[a].side(t)[k],
            all,
        ) by {
            if matched.incoming.remaining > 0 && matched.incoming.order_type is Limit {
                lemma_rest_origin(matched.levels, matched.incoming, a, t, k);
            }
        }
    }
}

/// Over any sequence of new orders handed in to an empty book: of every
/// order that rests at the end, and of both orders of every fill as the fill
/// recorded them, what remains and what was executed until then add up to the
/// order's quantity. So what is executed of an order never exceeds it.
pub proof fn lemma_conservation(underlying: Instrument, orders: Seq<OrderView>)
    requires
        forall|i: int| 0 <= i < orders.len() ==> (#[trigger] orders[i]).is_new(),
        orders.len() < u64::MAX,
    ensures
        conserved(
            replay(BookView { underlying, levels: Seq::empty(), next_id: 0 }, orders).book,
            replay(BookView { underlying, levels: Seq::empty(), next_id: 0 }, orders).executions,
        ),
        replay(BookView { underlying, levels: Seq::empty(), next_id: 0 }, orders).book.next_id
            <= orders.len(),
    decreases orders.len(),
{
    let empty = BookView { underlying, levels: Seq::empty(), next_id: 0 };
    if orders.len() == 0 {
        reveal(keys_distinct);
        reveal(ids_unique);
    } else {
        let earlier = orders.drop_last();
        lemma_conservation(underlying, earlier);
        let before = replay(empty, earlier);
        lemma_submit_conserves(before.book, orders.last(), before.executions);
    }
}

} // verus!
