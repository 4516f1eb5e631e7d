//! Time priority: within a queue, an order is not touched while anything of
//! an order that came before it still rests.

use crate::assets::Instrument;
use crate::matching::{
    best_level, currency_conflict, fill_level, match_all, match_step, rest, submit, BookView,
    LevelView,
};
use crate::orderutils::{OrderView, Side};
use crate::soundness::{
    ids_unique, lemma_fill_origin, lemma_match_keeps_wf, lemma_rest_origin, lemma_step_keeps_wf,
    lemma_taker_ready, levels_wf, taker_wf, valid_pos,
};
use vstd::prelude::*;

verus! {

/// An order with this identity rests in the book.
pub open spec fn present(levels: Seq<LevelView>, id: u64) -> bool {
    exists|i: int, s: Side, k: int| #[trigger]
        valid_pos(levels, i, s, k) && levels[i].side(s)[k].id == Some(id)
}

/// The order `later` rests at place `m` of a queue in which the order with
/// the identity `earlier` rests at place `k` before it.
pub open spec fn ahead_at(
    levels: Seq<LevelView>,
    earlier: u64,
    later: OrderView,
    i: int,
    s: Side,
    k: int,
    m: int,
) -> bool {
    &&& valid_pos(levels, i, s, k)
    &&& valid_pos(levels, i, s, m)
    &&& k < m
    &&& levels[i].side(s)[k].id == Some(earlier)
    &&& levels[i].side(s)[m] == later
}

/// The order `later` rests, exactly as given, in a queue in which the order
/// with the identity `earlier` rests before it.
pub open spec fn rests_ahead(levels: Seq<LevelView>, earlier: u64, later: OrderView) -> bool {
    exists|i: int, s: Side, k: int, m: int| ahead_at(levels, earlier, later, i, s, k, m)
}

/// A fill brings no order into the book: an identity that rests after it
/// rested before it.
proof fn lemma_step_present(
    levels: Seq<LevelView>,
    incoming: OrderView,
    underlying: Instrument,
    next_id: int,
    id: u64,
)
    requires
        levels_wf(levels, underlying, next_id),
        taker_wf(levels, incoming, underlying, next_id),
        match_step(levels, incoming) is Some,
        present(match_step(levels, incoming)->0.levels, id),
    ensures
        present(levels, id),
{
    let s = incoming.side.opposite();
    let i = best_level(levels, s)->0;
    let step = match_step(levels, incoming)->0;
    let (a, t, k) = choose|a: int, t: Side, k: int| #[trigger]
        valid_pos(step.levels, a, t, k) && step.levels[a].side(t)[k].id == Some(id);
    // where that order stood before the fill, it had the same identity
    let (a0, k0) = lemma_fill_origin(levels, i, s, step.execution.quantity, a, t, k);
}

/// Matching brings no order into the book.
proof fn lemma_match_present(
    levels: Seq<LevelView>,
    incoming: OrderView,
    underlying: Instrument,
    next_id: int,
    id: u64,
)
    requires
        levels_wf(levels, underlying, next_id),
        taker_wf(levels, incoming, underlying, next_id),
        present(match_all(levels, incoming).levels, id),
    ensures
        present(levels, id),
    decreases incoming.remaining,
{
    match match_step(levels, incoming) {
        None => {},
        Some(step) => {
            lemma_step_keeps_wf(levels, incoming, underlying, next_id);
            lemma_match_present(step.levels, step.incoming, underlying, next_id, id);
            lemma_step_present(levels, incoming, underlying, next_id, id);
        },
    }
}

/// One fill either takes the earlier order out of the book or leaves the
/// later order as it was, still behind the earlier one.
proof fn lemma_step_priority(
    levels: Seq<LevelView>,
    incoming: OrderView,
    underlying: Instrument,
    next_id: int,
    earlier: u64,
    later: OrderView,
)
    requires
        levels_wf(levels, underlying, next_id),
        taker_wf(levels, incoming, underlying, next_id),
        match_step(levels, incoming) is Some,
        rests_ahead(levels, earlier, later),
    ensures
        rests_ahead(match_step(levels, incoming)->0.levels, earlier, later) || !present(
            match_step(levels, incoming)->0.levels,
            earlier,
        ),
{
    let s = incoming.side.opposite();
    let i = best_level(levels, s)->0;
    let step = match_step(levels, incoming)->0;
    let quantity = step.execution.quantity;
    let out = step.levels;
    let (i0, s0, k, m) = choose|i0: int, s0: Side, k: int, m: int|
        ahead_at(levels, earlier, later, i0, s0, k, m);
    let head = levels[i].side(s)[0];
    let dropped = head.remaining == quantity;
    let after = fill_level(levels[i], s, quantity);
    if i0 == i && s0 == s && k == 0 && dropped {
        // the earlier order was filled and left
        if present(out, earlier) {
            let (a, t, j) = choose|a: int, t: Side, j: int| #[trigger]
                valid_pos(out, a, t, j) && out[a].side(t)[j].id == Some(earlier);
            let (a0, j0) = lemma_fill_origin(levels, i, s, quantity, a, t, j);
            // it would have stood at the head of the filled queue, which it left
            assert(a0 == i && t == s && j0 == 0) by {
                reveal(ids_unique);
            }
        }
    } else {
        // the later order stands behind the earlier one as before
        let gone = after.is_empty();
        let a = if gone && i0 > i { i0 - 1 } else { i0 };
        let shift: int = if i0 == i && s0 == s && dropped { 1 } else { 0 };
        assert(ahead_at(out, earlier, later, a, s0, k - shift, m - shift));
    }
}

/// Matching either takes the earlier order out of the book or leaves the
/// later order as it was, still behind the earlier one.
proof fn lemma_match_priority(
    levels: Seq<LevelView>,
    incoming: OrderView,
    underlying: Instrument,
    next_id: int,
    earlier: u64,
    later: OrderView,
)
    requires
        levels_wf(levels, underlying, next_id),
        taker_wf(levels, incoming, underlying, next_id),
        rests_ahead(levels, earlier, later),
    ensures
        rests_ahead(match_all(levels, incoming).levels, earlier, later) || !present(
            match_all(levels, incoming).levels,
            earlier,
        ),
    decreases incoming.remaining,
{
    match match_step(levels, incoming) {
        None => {},
        Some(step) => {
            lemma_step_keeps_wf(levels, incoming, underlying, next_id);
            lemma_step_priority(levels, incoming, underlying, next_id, earlier, later);
            if rests_ahead(step.levels, earlier, later) {
                lemma_match_priority(
                    step.levels,
                    step.incoming,
                    underlying,
                    next_id,
                    earlier,
                    later,
                );
            } else if present(match_all(step.levels, step.incoming).levels, earlier) {
                lemma_match_present(step.levels, step.incoming, underlying, next_id, earlier);
            }
        },
    }
}

/// Price-time priority at one price: when two orders rest in one queue and a
/// new order is handed in, the later of the two is left exactly as it was,
/// still behind the earlier one, unless the earlier one was filled and left
/// the book. The earlier order is served first.
pub proof fn lemma_time_priority(
    book: BookView,
    order: OrderView,
    earlier: u64,
    later: OrderView,
)
    requires
        book.wf(),
        order.is_new(),
        rests_ahead(book.levels, earlier, later),
    ensures
        rests_ahead(submit(book, order).book.levels, earlier, later) || !present(
            submit(book, order).book.levels,
            earlier,
        ),
{
    if order.underlying == book.underlying && !currency_conflict(book.levels, order.order_type) {
        let n = book.next_id as int;
        let incoming = order.identified(book.next_id);
        lemma_taker_ready(book, order);
        lemma_match_priority(book.levels, incoming, book.underlying, n, earlier, later);
        let matched = match_all(book.levels, incoming);
        if rests_ahead(matched.levels, earlier, later) && matched.incoming.remaining > 0
            && matched.incoming.order_type is Limit {
            let (i, s, k, m) = choose|i: int, s: Side, k: int, m: int|
                ahead_at(matched.levels, earlier, later, i, s, k, m);
            let out = rest(matched.levels, matched.incoming);
            assert(ahead_at(out, earlier, later, i, s, k, m));
        } else if matched.incoming.remaining > 0 && matched.incoming.order_type is Limit {
            // the earlier order left during matching; what rests now is the new order
            let out = rest(matched.levels, matched.incoming);
            if present(out, earlier) {
                let (a, t, j) = choose|a: int, t: Side, j: int| #[trigger]
                    valid_pos(out, a, t, j) && out[a].side(t)[j].id == Some(earlier);
                // it is not the new order, whose identity is above all others,
                // so it rested after matching: but it did not
                lemma_rest_origin(matched.levels, matched.incoming, a, t, j);
                lemma_match_keeps_wf(book.levels, incoming, book.underlying, n);
            }
        }
    }
}

} // verus!
