//! What holds of every order book, and why matching and resting keep it.

use crate::assets::Instrument;
use crate::matching::{
    best_level, code_of, currency_conflict, fill_level, fill_queue, find_level, first_with, holder,
    is_best, is_conflict, is_holder, is_level_of, level_of_one, match_all, match_step, put_level,
    rest, submit, BookView, LevelView,
};
use crate::orderutils::{OrderTypeView, OrderView, Side};
use vstd::prelude::*;

verus! {

/// What holds of an order that rests on side `side` of the bucket of `key`:
/// it is a valid order of that side and type for the book's instrument,
/// something of it remains, and it has an identity below `next_id`.
pub open spec fn resting_wf(
    o: OrderView,
    key: OrderTypeView,
    side: Side,
    underlying: Instrument,
    next_id: int,
) -> bool {
    &&& o.wf()
    &&& o.remaining > 0
    &&& o.side == side
    &&& o.order_type == key
    &&& o.underlying == underlying
    &&& o.id is Some
    &&& o.id->0 < next_id
}

/// The orders stand in the order they were taken: identities grow from head
/// to tail.
#[verifier::opaque]
pub open spec fn in_arrival_order(q: Seq<OrderView>) -> bool {
    forall|k: int, m: int|
        0 <= k < m < q.len() ==> (#[trigger] q[k]).id->0 < (#[trigger] q[m]).id->0
}

/// Every order of the queue may rest there, and the orders stand in the order
/// they were taken.
pub open spec fn queue_wf(
    q: Seq<OrderView>,
    key: OrderTypeView,
    side: Side,
    underlying: Instrument,
    next_id: int,
) -> bool {
    &&& forall|k: int|
        0 <= k < q.len() ==> resting_wf(#[trigger] q[k], key, side, underlying, next_id)
    &&& in_arrival_order(q)
}

/// The level is the bucket of a limit price, holds at least one order, and
/// both its queues are well formed.
pub open spec fn level_wf(l: LevelView, underlying: Instrument, next_id: int) -> bool {
    &&& l.key is Limit
    &&& !l.is_empty()
    &&& queue_wf(l.buys, l.key, Side::Buy, underlying, next_id)
    &&& queue_wf(l.sells, l.key, Side::Sell, underlying, next_id)
}

/// An order stands at place `k` of side `s` of the level at `i`.
pub open spec fn valid_pos(levels: Seq<LevelView>, i: int, s: Side, k: int) -> bool {
    0 <= i < levels.len() && 0 <= k < levels[i].side(s).len()
}

/// No identity occurs at two places of the book.
#[verifier::opaque]
pub open spec fn ids_unique(levels: Seq<LevelView>) -> bool {
    forall|i: int, s: Side, k: int, j: int, t: Side, m: int|
        #[trigger] valid_pos(levels, i, s, k) && #[trigger] valid_pos(levels, j, t, m)
            && levels[i].side(s)[k].id == levels[j].side(t)[m].id ==> i == j && s == t && k
            == m
}

/// No two levels are the bucket of the same key.
#[verifier::opaque]
pub open spec fn keys_distinct(levels: Seq<LevelView>) -> bool {
    forall|i: int, j: int|
        0 <= i < j < levels.len() ==> (#[trigger] levels[i]).key != (#[trigger] levels[j]).key
}

/// All the buckets are priced in one currency.
pub open spec fn one_currency(levels: Seq<LevelView>) -> bool {
    forall|i: int|
        0 <= i < levels.len() ==> code_of((#[trigger] levels[i]).key) == code_of(levels[0].key)
}

/// Every level is well formed, no two levels are the bucket of the same key, all
/// prices are in one currency, and no identity occurs twice.
pub open spec fn levels_wf(levels: Seq<LevelView>, underlying: Instrument, next_id: int) -> bool {
    &&& forall|i: int|
        0 <= i < levels.len() ==> level_wf(#[trigger] levels[i], underlying, next_id)
    &&& keys_distinct(levels)
    &&& one_currency(levels)
    &&& ids_unique(levels)
}

impl BookView {
    /// The book's levels are well formed for its instrument and its next identity.
    pub open spec fn wf(self) -> bool {
        levels_wf(self.levels, self.underlying, self.next_id as int)
    }
}

/// In a well-formed book, at most one level is the best of a side.
pub proof fn lemma_best_unique(
    levels: Seq<LevelView>,
    underlying: Instrument,
    next_id: int,
    s: Side,
    i: int,
    j: int,
)
    requires
        levels_wf(levels, underlying, next_id),
        is_best(levels, s, i),
        is_best(levels, s, j),
    ensures
        i == j,
{
    reveal(keys_distinct);
}

/// In a well-formed book, a level that is the best of a side is the one
/// that `best_level` names.
pub proof fn lemma_best_is(
    levels: Seq<LevelView>,
    underlying: Instrument,
    next_id: int,
    s: Side,
    i: int,
)
    requires
        levels_wf(levels, underlying, next_id),
        is_best(levels, s, i),
    ensures
        best_level(levels, s) == Some(i),
{
    let c = choose|c: int| is_best(levels, s, c);
    lemma_best_unique(levels, underlying, next_id, s, i, c);
}

/// In a well-formed book, a level with the key is the one that
/// `find_level` names.
pub proof fn lemma_find_is(
    levels: Seq<LevelView>,
    underlying: Instrument,
    next_id: int,
    key: OrderTypeView,
    i: int,
)
    requires
        levels_wf(levels, underlying, next_id),
        is_level_of(levels, key, i),
    ensures
        find_level(levels, key) == Some(i),
{
    reveal(keys_distinct);
}

/// A fill leaves the queue it takes from well formed: the head leaves when
/// nothing of it remains, else it stays at the head with less remaining.
pub proof fn lemma_fill_keeps_queue(
    q: Seq<OrderView>,
    key: OrderTypeView,
    side: Side,
    underlying: Instrument,
    next_id: int,
    quantity: int,
)
    requires
        queue_wf(q, key, side, underlying, next_id),
        q.len() > 0,
        0 < quantity <= q[0].remaining,
    ensures
        queue_wf(fill_queue(q, quantity), key, side, underlying, next_id),
{
    reveal(in_arrival_order);
}

/// What holds of an order while it is matched against a book that will give
/// out `next_id` next: it is a valid order for the book's instrument, it
/// carries that identity, and no bucket is priced in another currency than
/// its limit.
pub open spec fn taker_wf(
    levels: Seq<LevelView>,
    o: OrderView,
    underlying: Instrument,
    next_id: int,
) -> bool {
    &&& o.wf()
    &&& o.underlying == underlying
    &&& o.id is Some
    &&& o.id->0 == next_id
    &&& forall|i: int|
        0 <= i < levels.len() && code_of(o.order_type) is Some ==> code_of(
            (#[trigger] levels[i]).key,
        ) == code_of(o.order_type)
}

/// Taking the level at `i` out of the book leaves no identity twice.
proof fn lemma_remove_keeps_ids(levels: Seq<LevelView>, i: int)
    requires
        ids_unique(levels),
        0 <= i < levels.len(),
    ensures
        ids_unique(levels.remove(i)),
{
    reveal(ids_unique);
    let out = levels.remove(i);
    assert forall|a: int, t: Side, k: int, b: int, u: Side, m: int| #[trigger]
        valid_pos(out, a, t, k) && #[trigger] valid_pos(out, b, u, m) && out[a].side(t)[k].id
            == out[b].side(u)[m].id implies a == b && t == u && k == m by {
        let a0 = if a >= i { a + 1 } else { a };
        let b0 = if b >= i { b + 1 } else { b };
        assert(valid_pos(levels, a0, t, k));
        assert(valid_pos(levels, b0, u, m));
    }
}

/// Replacing one queue by itself without its first `d` orders, each order
/// keeping its identity, leaves no identity twice.
proof fn lemma_shorten_keeps_ids(
    levels: Seq<LevelView>,
    i: int,
    s: Side,
    queue: Seq<OrderView>,
    d: int,
)
    requires
        ids_unique(levels),
        0 <= i < levels.len(),
        0 <= d,
        queue.len() + d == levels[i].side(s).len(),
        forall|k: int|
            0 <= k < queue.len() ==> (#[trigger] queue[k]).id == levels[i].side(s)[k + d].id,
    ensures
        ids_unique(levels.update(i, levels[i].with_side(s, queue))),
{
    reveal(ids_unique);
    let out = levels.update(i, levels[i].with_side(s, queue));
    assert forall|a: int, t: Side, k: int, b: int, u: Side, m: int| #[trigger]
        valid_pos(out, a, t, k) && #[trigger] valid_pos(out, b, u, m) && out[a].side(t)[k].id
            == out[b].side(u)[m].id implies a == b && t == u && k == m by {
        let k0 = if a == i && t == s { k + d } else { k };
        let m0 = if b == i && u == s { m + d } else { m };
        assert(valid_pos(levels, a, t, k0));
        assert(valid_pos(levels, b, u, m0));
    }
}

/// Taking the level at `i` out of a book keeps the book well formed.
pub proof fn lemma_remove_keeps_wf(
    levels: Seq<LevelView>,
    underlying: Instrument,
    next_id: int,
    i: int,
)
    requires
        levels_wf(levels, underlying, next_id),
        0 <= i < levels.len(),
    ensures
        levels_wf(levels.remove(i), underlying, next_id),
{
    let out = levels.remove(i);
    lemma_remove_keeps_ids(levels, i);
    assert(keys_distinct(out)) by {
        reveal(keys_distinct);
    }
}

/// Putting a well-formed level, with the same key, in the place of the level
/// at `i` keeps all of the book well formed but, perhaps, the identities.
proof fn lemma_update_keeps_levels(
    levels: Seq<LevelView>,
    underlying: Instrument,
    next_id: int,
    i: int,
    after: LevelView,
)
    requires
        levels_wf(levels, underlying, next_id),
        0 <= i < levels.len(),
        level_wf(after, underlying, next_id),
        after.key == levels[i].key,
        ids_unique(levels.update(i, after)),
    ensures
        levels_wf(levels.update(i, after), underlying, next_id),
{
    let out = levels.update(i, after);
    assert(keys_distinct(out)) by {
        reveal(keys_distinct);
    }
}

/// A fill at the head of side `s` of the level at `i` keeps the book well formed.
pub proof fn lemma_fill_keeps_wf(
    levels: Seq<LevelView>,
    underlying: Instrument,
    next_id: int,
    i: int,
    s: Side,
    quantity: int,
)
    requires
        levels_wf(levels, underlying, next_id),
        0 <= i < levels.len(),
        levels[i].side(s).len() > 0,
        0 < quantity <= levels[i].side(s)[0].remaining,
    ensures
        levels_wf(put_level(levels, i, fill_level(levels[i], s, quantity)), underlying, next_id),
{
    let level = levels[i];
    let old_q = level.side(s);
    lemma_fill_keeps_queue(old_q, level.key, s, underlying, next_id, quantity);
    let new_q = fill_queue(old_q, quantity);
    let after = fill_level(level, s, quantity);
    if after.is_empty() {
        lemma_remove_keeps_wf(levels, underlying, next_id, i);
    } else {
        let d: int = if old_q[0].remaining == quantity { 1 } else { 0 };
        lemma_shorten_keeps_ids(levels, i, s, new_q, d);
        lemma_update_keeps_levels(levels, underlying, next_id, i, after);
    }
}

/// A fill keeps the book well formed, and takes the same positive quantity
/// from the incoming order as it records.
pub proof fn lemma_step_keeps_wf(
    levels: Seq<LevelView>,
    incoming: OrderView,
    underlying: Instrument,
    next_id: int,
)
    requires
        levels_wf(levels, underlying, next_id),
        taker_wf(levels, incoming, underlying, next_id),
        match_step(levels, incoming) is Some,
    ensures
        levels_wf(match_step(levels, incoming)->0.levels, underlying, next_id),
        taker_wf(
            match_step(levels, incoming)->0.levels,
            match_step(levels, incoming)->0.incoming,
            underlying,
            next_id,
        ),
        0 < match_step(levels, incoming)->0.execution.quantity <= incoming.remaining,
        match_step(levels, incoming)->0.incoming == incoming.fill(
            match_step(levels, incoming)->0.execution.quantity,
        ),
{
    let s = incoming.side.opposite();
    let i = best_level(levels, s)->0;
    let step = match_step(levels, incoming)->0;
    let quantity = step.execution.quantity;
    lemma_fill_keeps_wf(levels, underlying, next_id, i, s, quantity);
}

/// An order appended to a queue, with an identity that no resting order has,
/// leaves no identity twice.
proof fn lemma_append_keeps_ids(
    levels: Seq<LevelView>,
    underlying: Instrument,
    next_id: int,
    i: int,
    o: OrderView,
)
    requires
        levels_wf(levels, underlying, next_id),
        0 <= i < levels.len(),
        o.id is Some,
        o.id->0 >= next_id,
    ensures
        ids_unique(
            levels.update(i, levels[i].with_side(o.side, levels[i].side(o.side).push(o))),
        ),
{
    reveal(ids_unique);
    let out = levels.update(i, levels[i].with_side(o.side, levels[i].side(o.side).push(o)));
    let last = levels[i].side(o.side).len() as int;
    assert forall|a: int, t: Side, k: int, b: int, u: Side, m: int| #[trigger]
        valid_pos(out, a, t, k) && #[trigger] valid_pos(out, b, u, m) && out[a].side(t)[k].id
            == out[b].side(u)[m].id implies a == b && t == u && k == m by {
        let new_a = a == i && t == o.side && k == last;
        let new_b = b == i && u == o.side && m == last;
        if !new_a {
            assert(valid_pos(levels, a, t, k));
        }
        if !new_b {
            assert(valid_pos(levels, b, u, m));
        }
    }
}

/// A new level of one order, with an identity that no resting order has,
/// leaves no identity twice.
proof fn lemma_new_level_keeps_ids(
    levels: Seq<LevelView>,
    underlying: Instrument,
    next_id: int,
    o: OrderView,
)
    requires
        levels_wf(levels, underlying, next_id),
        o.id is Some,
        o.id->0 >= next_id,
    ensures
        ids_unique(levels.push(level_of_one(o))),
{
    reveal(ids_unique);
    let out = levels.push(level_of_one(o));
    let n = levels.len() as int;
    assert forall|a: int, t: Side, k: int, b: int, u: Side, m: int| #[trigger]
        valid_pos(out, a, t, k) && #[trigger] valid_pos(out, b, u, m) && out[a].side(t)[k].id
            == out[b].side(u)[m].id implies a == b && t == u && k == m by {
        if a != n {
            assert(valid_pos(levels, a, t, k));
        }
        if b != n {
            assert(valid_pos(levels, b, u, m));
        }
    }
}

/// Resting what remains of a matched limit order keeps the book well formed,
/// for the identity after the order's own.
pub proof fn lemma_rest_keeps_wf(
    levels: Seq<LevelView>,
    o: OrderView,
    underlying: Instrument,
    next_id: int,
)
    requires
        levels_wf(levels, underlying, next_id),
        taker_wf(levels, o, underlying, next_id),
        o.remaining > 0,
        o.order_type is Limit,
    ensures
        levels_wf(rest(levels, o), underlying, next_id + 1),
{
    let out = rest(levels, o);
    match find_level(levels, o.order_type) {
        Some(i) => {
            let q = levels[i].side(o.side);
            let after = levels[i].with_side(o.side, q.push(o));
            assert(queue_wf(q.push(o), after.key, o.side, underlying, next_id + 1)) by {
                reveal(in_arrival_order);
            }
            lemma_append_keeps_ids(levels, underlying, next_id, i, o);
            lemma_update_keeps_levels(levels, underlying, next_id + 1, i, after);
        },
        None => {
            let one = level_of_one(o);
            assert(level_wf(one, underlying, next_id + 1)) by {
                reveal(in_arrival_order);
            }
            lemma_new_level_keeps_ids(levels, underlying, next_id, o);
            assert(keys_distinct(out)) by {
                reveal(keys_distinct);
                assert forall|a: int, b: int| 0 <= a < b < out.len() implies (
                #[trigger] out[a]).key != (#[trigger] out[b]).key by {
                    if b >= levels.len() {
                        assert(!is_level_of(levels, o.order_type, a));
                    }
                }
            }
        },
    }
}

/// Matching keeps the book well formed, whatever the number of fills.
pub proof fn lemma_match_keeps_wf(
    levels: Seq<LevelView>,
    incoming: OrderView,
    underlying: Instrument,
    next_id: int,
)
    requires
        levels_wf(levels, underlying, next_id),
        taker_wf(levels, incoming, underlying, next_id),
    ensures
        levels_wf(match_all(levels, incoming).levels, underlying, next_id),
        taker_wf(
            match_all(levels, incoming).levels,
            match_all(levels, incoming).incoming,
            underlying,
            next_id,
        ),
        match_all(levels, incoming).incoming.order_type == incoming.order_type,
        match_all(levels, incoming).incoming.side == incoming.side,
    decreases incoming.remaining,
{
    match match_step(levels, incoming) {
        None => {},
        Some(step) => {
            lemma_step_keeps_wf(levels, incoming, underlying, next_id);
            lemma_match_keeps_wf(step.levels, step.incoming, underlying, next_id);
        },
    }
}

/// A new order that a well-formed book does not reject for its currency may
/// be matched against it under the book's next identity.
pub proof fn lemma_taker_ready(book: BookView, order: OrderView)
    requires
        book.wf(),
        order.is_new(),
        order.underlying == book.underlying,
        !currency_conflict(book.levels, order.order_type),
    ensures
        taker_wf(
            book.levels,
            order.identified(book.next_id),
            book.underlying,
            book.next_id as int,
        ),
{
    let o = order.identified(book.next_id);
    assert forall|i: int|
        0 <= i < book.levels.len() && code_of(o.order_type) is Some implies code_of(
        (#[trigger] book.levels[i]).key,
    ) == code_of(o.order_type) by {
        assert(!is_conflict(book.levels, code_of(o.order_type)->0, i));
    }
}

/// Handing a new order in to a well-formed book leaves a well-formed book.
pub proof fn lemma_submit_keeps_wf(book: BookView, order: OrderView)
    requires
        book.wf(),
        order.is_new(),
        book.next_id < u64::MAX,
    ensures
        submit(book, order).book.wf(),
{
    if order.underlying == book.underlying && !currency_conflict(book.levels, order.order_type) {
        lemma_taker_ready(book, order);
        let incoming = order.identified(book.next_id);
        let n = book.next_id as int;
        lemma_match_keeps_wf(book.levels, incoming, book.underlying, n);
        let matched = match_all(book.levels, incoming);
        if matched.incoming.remaining > 0 && matched.incoming.order_type is Limit {
            lemma_rest_keeps_wf(matched.levels, matched.incoming, book.underlying, n);
        }
    }
}

/// Where an order of the book after a fill stood before it. The order is the
/// same as before, unless it is the one that was filled.
pub proof fn lemma_fill_origin(
    levels: Seq<LevelView>,
    i: int,
    s: Side,
    quantity: int,
    a: int,
    t: Side,
    k: int,
) -> (r: (int, int))
    requires
        0 <= i < levels.len(),
        levels[i].side(s).len() > 0,
        valid_pos(put_level(levels, i, fill_level(levels[i], s, quantity)), a, t, k),
    ensures
        valid_pos(levels, r.0, t, r.1),
        r.0 == i && t == s && r.1 == 0 ==> put_level(
            levels,
            i,
            fill_level(levels[i], s, quantity),
        )[a].side(t)[k] == levels[i].side(s)[0].fill(quantity),
        !(r.0 == i && t == s && r.1 == 0) ==> put_level(
            levels,
            i,
            fill_level(levels[i], s, quantity),
        )[a].side(t)[k] == levels[r.0].side(t)[r.1],
{
    let after = fill_level(levels[i], s, quantity);
    let a0 = if after.is_empty() && a >= i { a + 1 } else { a };
    let dropped = levels[i].side(s)[0].remaining == quantity;
    let k0 = if a0 == i && t == s && dropped { k + 1 } else { k };
    (a0, k0)
}

/// Where an order of the book stood before another order came to rest, unless
/// it is that order itself.
pub proof fn lemma_rest_origin(levels: Seq<LevelView>, o: OrderView, a: int, t: Side, k: int)
    requires
        valid_pos(rest(levels, o), a, t, k),
    ensures
        rest(levels, o)[a].side(t)[k] == o || (valid_pos(levels, a, t, k) && rest(
            levels,
            o,
        )[a].side(t)[k] == levels[a].side(t)[k]),
{
}

/// Where the order that `find` gives stands: on which side and at which
/// place of the level.
pub proof fn lemma_find_place(level: LevelView, id: u64) -> (r: (Side, int))
    requires
        level.find(id) is Some,
    ensures
        0 <= r.1 < level.side(r.0).len(),
        level.side(r.0)[r.1] == level.find(id)->0,
        level.side(r.0)[r.1].id == Some(id),
        level.without(id) == level.with_side(r.0, level.side(r.0).remove(r.1)),
{
    match first_with(level.buys, id) {
        Some(k) => (Side::Buy, k),
        None => (Side::Sell, first_with(level.sells, id)->0),
    }
}

/// In a well-formed book, at most one level holds the order with an identity.
pub proof fn lemma_holder_is(
    levels: Seq<LevelView>,
    underlying: Instrument,
    next_id: int,
    id: u64,
    i: int,
)
    requires
        levels_wf(levels, underlying, next_id),
        is_holder(levels, id, i),
    ensures
        holder(levels, id) == Some(i),
{
    let c = choose|c: int| is_holder(levels, id, c);
    let (s, k) = lemma_find_place(levels[i], id);
    let (t, m) = lemma_find_place(levels[c], id);
    assert(valid_pos(levels, i, s, k));
    assert(valid_pos(levels, c, t, m));
    reveal(ids_unique);
}

/// Taking one order out of its queue leaves no identity twice.
proof fn lemma_take_out_keeps_ids(levels: Seq<LevelView>, i: int, s: Side, k: int)
    requires
        ids_unique(levels),
        valid_pos(levels, i, s, k),
    ensures
        ids_unique(levels.update(i, levels[i].with_side(s, levels[i].side(s).remove(k)))),
{
    reveal(ids_unique);
    let out = levels.update(i, levels[i].with_side(s, levels[i].side(s).remove(k)));
    assert forall|a: int, t: Side, j: int, b: int, u: Side, m: int| #[trigger]
        valid_pos(out, a, t, j) && #[trigger] valid_pos(out, b, u, m) && out[a].side(t)[j].id
            == out[b].side(u)[m].id implies a == b && t == u && j == m by {
        let j0 = if a == i && t == s && j >= k { j + 1 } else { j };
        let m0 = if b == i && u == s && m >= k { m + 1 } else { m };
        assert(valid_pos(levels, a, t, j0));
        assert(valid_pos(levels, b, u, m0));
    }
}

/// Taking one order out of a queue leaves the queue well formed.
proof fn lemma_take_out_keeps_queue(
    q: Seq<OrderView>,
    key: OrderTypeView,
    side: Side,
    underlying: Instrument,
    next_id: int,
    k: int,
)
    requires
        queue_wf(q, key, side, underlying, next_id),
        0 <= k < q.len(),
    ensures
        queue_wf(q.remove(k), key, side, underlying, next_id),
{
    reveal(in_arrival_order);
}

/// Cancelling an order keeps the book well formed.
pub proof fn lemma_without_keeps_wf(
    levels: Seq<LevelView>,
    underlying: Instrument,
    next_id: int,
    id: u64,
    i: int,
)
    requires
        levels_wf(levels, underlying, next_id),
        is_holder(levels, id, i),
    ensures
        levels_wf(put_level(levels, i, levels[i].without(id)), underlying, next_id),
{
    let level = levels[i];
    let (s, k) = lemma_find_place(level, id);
    let after = level.without(id);
    if after.is_empty() {
        lemma_remove_keeps_wf(levels, underlying, next_id, i);
    } else {
        lemma_take_out_keeps_queue(level.side(s), level.key, s, underlying, next_id, k);
        lemma_take_out_keeps_ids(levels, i, s, k);
        lemma_update_keeps_levels(levels, underlying, next_id, i, after);
    }
}

} // verus!
