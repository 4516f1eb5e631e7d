//! The book never crosses: every resting buy is priced below every resting
//! sell, because orders that could trade with each other do.

use crate::assets::Instrument;
use crate::matching::{
    best_level, cancel, crosses, currency_conflict, fill_level, holder, is_best, match_all,
    match_step, rest, submit, BookView, LevelView,
};
use crate::orderutils::{OrderView, Side};
use crate::soundness::{
    lemma_match_keeps_wf, lemma_step_keeps_wf, lemma_taker_ready, levels_wf, taker_wf,
};
use vstd::prelude::*;

verus! {

/// The level at `i` has orders resting on side `s`.
pub open spec fn offers(levels: Seq<LevelView>, i: int, s: Side) -> bool {
    0 <= i < levels.len() && levels[i].side(s).len() > 0
}

/// Every level with resting buys is priced below every level with resting
/// sells.
pub open spec fn uncrossed(levels: Seq<LevelView>) -> bool {
    forall|i: int, j: int|
        #[trigger] offers(levels, i, Side::Buy) && #[trigger] offers(levels, j, Side::Sell)
            ==> levels[i].units() < levels[j].units()
}

/// Every level that offers something in `after` is, with the same price, a
/// level that offers it in `before`.
pub open spec fn offers_within(after: Seq<LevelView>, before: Seq<LevelView>) -> bool {
    forall|a: int, s: Side| #[trigger]
        offers(after, a, s) ==> exists|b: int| #[trigger]
            offers(before, b, s) && before[b].units() == after[a].units()
}

/// A fill offers nothing new.
proof fn lemma_step_within(levels: Seq<LevelView>, incoming: OrderView)
    requires
        match_step(levels, incoming) is Some,
    ensures
        offers_within(match_step(levels, incoming)->0.levels, levels),
{
    let s = incoming.side.opposite();
    let i = best_level(levels, s)->0;
    let step = match_step(levels, incoming)->0;
    let out = step.levels;
    let after = fill_level(levels[i], s, step.execution.quantity);
    assert forall|a: int, t: Side| #[trigger] offers(out, a, t) implies exists|b: int| #[trigger]
        offers(levels, b, t) && levels[b].units() == out[a].units() by {
        let a0 = if after.is_empty() && a >= i { a + 1 } else { a };
        assert(offers(levels, a0, t) && levels[a0].units() == out[a].units());
    }
}

/// Matching keeps the book uncrossed, and ends only when nothing of the
/// incoming order remains or nothing more can be filled.
proof fn lemma_match_uncrossed(
    levels: Seq<LevelView>,
    incoming: OrderView,
    underlying: Instrument,
    next_id: int,
)
    requires
        levels_wf(levels, underlying, next_id),
        taker_wf(levels, incoming, underlying, next_id),
        uncrossed(levels),
    ensures
        uncrossed(match_all(levels, incoming).levels),
        match_step(match_all(levels, incoming).levels, match_all(levels, incoming).incoming)
            is None,
    decreases incoming.remaining,
{
    match match_step(levels, incoming) {
        None => {},
        Some(step) => {
            lemma_step_keeps_wf(levels, incoming, underlying, next_id);
            lemma_step_within(levels, incoming);
            lemma_match_uncrossed(step.levels, step.incoming, underlying, next_id);
        },
    }
}

/// What remains of a limit order after matching crosses nothing that rests,
/// so resting it keeps the book uncrossed.
proof fn lemma_rest_uncrossed(
    levels: Seq<LevelView>,
    o: OrderView,
    underlying: Instrument,
    next_id: int,
)
    requires
        levels_wf(levels, underlying, next_id),
        taker_wf(levels, o, underlying, next_id),
        uncrossed(levels),
        o.remaining > 0,
        o.order_type is Limit,
        match_step(levels, o) is None,
    ensures
        uncrossed(rest(levels, o)),
{
    let out = rest(levels, o);
    let s = o.side.opposite();
    let price = o.order_type->Limit_0.units;
    // nothing on the other side can trade with the order: the best level
    // there does not, and every other level is priced no better
    assert forall|j: int| #[trigger] offers(levels, j, s) implies !crosses(o, levels[j]) by {
        lemma_some_best(levels, s, j);
    }
    // a level of the outcome offers what it offered before, or the order
    assert forall|a: int, b: int| #[trigger]
        offers(out, a, Side::Buy) && #[trigger] offers(out, b, Side::Sell) implies out[a].units()
        < out[b].units() by {
        assert(offers(levels, a, Side::Buy) || (o.side == Side::Buy && out[a].units() == price));
        assert(offers(levels, b, Side::Sell) || (o.side == Side::Sell && out[b].units() == price));
    }
}

/// Among the levels with orders on a side, one is served first.
proof fn lemma_some_best(levels: Seq<LevelView>, s: Side, j: int)
    requires
        offers(levels, j, s),
    ensures
        best_level(levels, s) is Some,
{
    let b = lemma_best_among(levels, s, levels.len() as int, j);
    assert(is_best(levels, s, b));
}

/// Among the first `n` levels, of which the one at `j` has orders on side
/// `s`, one with orders on that side is served before all the others.
proof fn lemma_best_among(levels: Seq<LevelView>, s: Side, n: int, j: int) -> (b: int)
    requires
        0 <= j < n <= levels.len(),
        levels[j].side(s).len() > 0,
    ensures
        0 <= b < n,
        levels[b].side(s).len() > 0,
        forall|k: int|
            0 <= k < n && (#[trigger] levels[k]).side(s).len() > 0 ==> levels[b].rank(s)
                <= levels[k].rank(s),
    decreases n,
{
    if n - 1 == j {
        if exists|k: int| 0 <= k < j && (#[trigger] levels[k]).side(s).len() > 0 {
            let k = choose|k: int| 0 <= k < j && (#[trigger] levels[k]).side(s).len() > 0;
            let c = lemma_best_among(levels, s, n - 1, k);
            if levels[j].rank(s) < levels[c].rank(s) {
                j
            } else {
                c
            }
        } else {
            j
        }
    } else {
        let c = lemma_best_among(levels, s, n - 1, j);
        if levels[n - 1].side(s).len() > 0 && levels[n - 1].rank(s) < levels[c].rank(s) {
            n - 1
        } else {
            c
        }
    }
}

/// Handing a new order in to a well-formed, uncrossed book leaves the book
/// uncrossed: after every order, each resting buy is priced below each
/// resting sell.
pub proof fn lemma_submit_keeps_uncrossed(book: BookView, order: OrderView)
    requires
        book.wf(),
        uncrossed(book.levels),
        order.is_new(),
    ensures
        uncrossed(submit(book, order).book.levels),
{
    if order.underlying == book.underlying && !currency_conflict(book.levels, order.order_type) {
        let n = book.next_id as int;
        let incoming = order.identified(book.next_id);
        lemma_taker_ready(book, order);
        lemma_match_keeps_wf(book.levels, incoming, book.underlying, n);
        lemma_match_uncrossed(book.levels, incoming, book.underlying, n);
        let matched = match_all(book.levels, incoming);
        if matched.incoming.remaining > 0 && matched.incoming.order_type is Limit {
            lemma_rest_uncrossed(matched.levels, matched.incoming, book.underlying, n);
        }
    }
}

/// Cancelling an order leaves an uncrossed book uncrossed.
pub proof fn lemma_cancel_keeps_uncrossed(book: BookView, id: u64)
    requires
        uncrossed(book.levels),
    ensures
        uncrossed(cancel(book, id).book.levels),
{
    match holder(book.levels, id) {
        Some(i) => {
            let after = book.levels[i].without(id);
            let out = cancel(book, id).book.levels;
            assert forall|a: int, t: Side| #[trigger] offers(out, a, t) implies exists|b: int|
                #[trigger] offers(book.levels, b, t) && book.levels[b].units() == out[a].units() by {
                let a0 = if after.is_empty() && a >= i { a + 1 } else { a };
                assert(offers(book.levels, a0, t) && book.levels[a0].units() == out[a].units());
            }
        },
        None => {},
    }
}

} // verus!
