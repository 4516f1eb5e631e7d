//! Price-level queues and the order book that owns them.

use crate::assets::Instrument;
use crate::marketdata::Price;
use crate::matching::{
    best_level, cancel, code_of, currency_conflict, fill_level, fill_quantity, fill_queue,
    find_level, first_with, is_best, is_conflict, is_first_with, is_holder, is_level_of, match_all,
    match_step, put_level, replay, rest, submit, BookView, LevelView,
};
use crate::messaging::{responses_view, RejectionReason, Response};
use crate::orderutils::{Order, OrderType, OrderTypeView, OrderView, Side};
use crate::soundness::{
    ids_unique, keys_distinct, lemma_best_is, lemma_fill_keeps_wf, lemma_find_is, lemma_holder_is,
    lemma_rest_keeps_wf, lemma_taker_ready, lemma_without_keeps_wf, levels_wf, taker_wf,
};
use crate::trade::{executions_view, Execution};
use std::collections::VecDeque;
use vstd::prelude::*;

verus! {

/// The views of a sequence of orders, in the same order.
pub open spec fn orders_view(s: Seq<Order>) -> Seq<OrderView> {
    s.map_values(|o: Order| o@)
}

/// The place of the first order of the queue with this identity, if there is
/// one.
fn position(queue: &VecDeque<Order>, id: u64) -> (r: Option<usize>)
    ensures
        r matches Some(k) ==> k < queue@.len() && first_with(orders_view(queue@), id) == Some(
            k as int,
        ),
        r is None ==> first_with(orders_view(queue@), id) is None,
{
    let ghost q = orders_view(queue@);
    let mut k: usize = 0;
    while k < queue.len()
        invariant
            k <= queue@.len(),
            q == orders_view(queue@),
            forall|j: int| 0 <= j < k ==> (#[trigger] q[j]).id != Some(id),
        decreases queue@.len() - k,
    {
        if queue[k].id() == Some(id) {
            proof {
                assert(is_first_with(q, id, k as int));
            }
            return Some(k);
        }
        k += 1;
    }
    None
}

/// The resting orders of one bucket: the buys and the sells, each in the order
/// they arrived.
#[derive(Debug)]
pub struct OrderQueue {
    key: OrderType,
    buy_queue: VecDeque<Order>,
    sell_queue: VecDeque<Order>,
}

impl View for OrderQueue {
    type V = LevelView;

    closed spec fn view(&self) -> LevelView {
        LevelView {
            key: self.key@,
            buys: orders_view(self.buy_queue@),
            sells: orders_view(self.sell_queue@),
        }
    }
}

impl OrderQueue {
    /// The empty bucket of `key`.
    pub fn new(key: OrderType) -> (r: OrderQueue)
        ensures
            r@ == (LevelView { key: key@, buys: Seq::empty(), sells: Seq::empty() }),
    {
        let r = OrderQueue { key, buy_queue: VecDeque::new(), sell_queue: VecDeque::new() };
        assert(r@.buys =~= Seq::empty());
        assert(r@.sells =~= Seq::empty());
        r
    }

    pub fn key(&self) -> (r: &OrderType)
        ensures
            r@ == self@.key,
    {
        &self.key
    }

    /// The buys, oldest first.
    pub fn buy_queue(&self) -> (r: &VecDeque<Order>)
        ensures
            orders_view(r@) == self@.buys,
    {
        &self.buy_queue
    }

    /// The sells, oldest first.
    pub fn sell_queue(&self) -> (r: &VecDeque<Order>)
        ensures
            orders_view(r@) == self@.sells,
    {
        &self.sell_queue
    }

    /// How many orders rest on `side`.
    pub fn len(&self, side: Side) -> (r: usize)
        ensures
            r == self@.side(side).len(),
    {
        match side {
            Side::Buy => self.buy_queue.len(),
            Side::Sell => self.sell_queue.len(),
        }
    }

    /// Whether no order rests on either side.
    pub fn is_empty(&self) -> (r: bool)
        ensures
            r == self@.is_empty(),
    {
        self.buy_queue.len() == 0 && self.sell_queue.len() == 0
    }

    /// The oldest order of `side`, if there is one.
    pub fn front(&self, side: Side) -> (r: Option<Order>)
        ensures
            r is Some <==> self@.side(side).len() > 0,
            r matches Some(o) ==> o@ == self@.side(side)[0],
    {
        match side {
            Side::Buy => if self.buy_queue.len() > 0 {
                Some(self.buy_queue[0])
            } else {
                None
            },
            Side::Sell => if self.sell_queue.len() > 0 {
                Some(self.sell_queue[0])
            } else {
                None
            },
        }
    }

    /// Appends `order` to the tail of its side.
    pub fn push(&mut self, order: Order)
        ensures
            final(self)@ == old(self)@.with_side(
                order@.side,
                old(self)@.side(order@.side).push(order@),
            ),
    {
        match order.side() {
            Side::Buy => {
                self.buy_queue.push_back(order);
                assert(orders_view(self.buy_queue@) =~= orders_view(old(self).buy_queue@).push(
                    order@,
                ));
            },
            Side::Sell => {
                self.sell_queue.push_back(order);
                assert(orders_view(self.sell_queue@) =~= orders_view(old(self).sell_queue@).push(
                    order@,
                ));
            },
        }
    }

    /// Takes the oldest order of `side` out, if there is one.
    pub fn pop(&mut self, side: Side) -> (r: Option<Order>)
        ensures
            r is Some <==> old(self)@.side(side).len() > 0,
            r matches Some(o) ==> o@ == old(self)@.side(side)[0] && final(self)@ == old(
                self,
            )@.with_side(side, old(self)@.side(side).drop_first()),
            r is None ==> final(self)@ == old(self)@,
    {
        match side {
            Side::Buy => {
                let r = self.buy_queue.pop_front();
                if r.is_some() {
                    assert(orders_view(self.buy_queue@) =~= orders_view(
                        old(self).buy_queue@,
                    ).drop_first());
                }
                r
            },
            Side::Sell => {
                let r = self.sell_queue.pop_front();
                if r.is_some() {
                    assert(orders_view(self.sell_queue@) =~= orders_view(
                        old(self).sell_queue@,
                    ).drop_first());
                }
                r
            },
        }
    }

    /// The order with this identity, if it rests here.
    pub fn find(&self, id: u64) -> (r: Option<Order>)
        ensures
            r is Some <==> self@.find(id) is Some,
            r matches Some(o) ==> Some(o@) == self@.find(id),
    {
        match position(&self.buy_queue, id) {
            Some(k) => Some(self.buy_queue[k]),
            None => match position(&self.sell_queue, id) {
                Some(k) => Some(self.sell_queue[k]),
                None => None,
            },
        }
    }

    /// Takes the order with this identity out, if it rests here. The orders
    /// that stay keep their places relative to each other.
    pub fn remove(&mut self, id: u64) -> (r: Option<Order>)
        ensures
            final(self)@ == old(self)@.without(id),
            r is Some <==> old(self)@.find(id) is Some,
            r matches Some(o) ==> Some(o@) == old(self)@.find(id),
    {
        match position(&self.buy_queue, id) {
            Some(k) => {
                let r = self.buy_queue.remove(k);
                assert(orders_view(self.buy_queue@) =~= orders_view(old(self).buy_queue@).remove(
                    k as int,
                ));
                r
            },
            None => match position(&self.sell_queue, id) {
                Some(k) => {
                    let r = self.sell_queue.remove(k);
                    assert(orders_view(self.sell_queue@) =~= orders_view(
                        old(self).sell_queue@,
                    ).remove(k as int));
                    r
                },
                None => None,
            },
        }
    }

    /// Executes `quantity` of the oldest order of `side` and hands back that
    /// order as it then stands. It leaves the queue when nothing of it
    /// remains.
    pub(crate) fn fill_head(&mut self, side: Side, quantity: i64) -> (r: Order)
        requires
            old(self)@.side(side).len() > 0,
            0 < quantity <= old(self)@.side(side)[0].remaining,
            old(self)@.side(side)[0].id is Some,
        ensures
            final(self)@ == fill_level(old(self)@, side, quantity as int),
            r@ == old(self)@.side(side)[0].fill(quantity as int),
    {
        match side {
            Side::Buy => {
                let head = self.buy_queue.pop_front().unwrap();
                let filled = head.filled(quantity);
                if !filled.is_fully_executed() {
                    self.buy_queue.push_front(filled);
                }
                assert(orders_view(self.buy_queue@) =~= fill_queue(
                    orders_view(old(self).buy_queue@),
                    quantity as int,
                ));
                filled
            },
            Side::Sell => {
                let head = self.sell_queue.pop_front().unwrap();
                let filled = head.filled(quantity);
                if !filled.is_fully_executed() {
                    self.sell_queue.push_front(filled);
                }
                assert(orders_view(self.sell_queue@) =~= fill_queue(
                    orders_view(old(self).sell_queue@),
                    quantity as int,
                ));
                filled
            },
        }
    }

    /// Whether this bucket is served before `other` on `side`: at a lower
    /// price for sells, at a higher price for buys.
    pub fn serves_before(&self, other: &OrderQueue, side: Side) -> (r: bool)
        ensures
            r == (self@.key is Limit && other@.key is Limit && self@.rank(side) < other@.rank(
                side,
            )),
    {
        match (&self.key, &other.key) {
            (OrderType::Limit(p), OrderType::Limit(q)) => match side {
                Side::Sell => p.value().lt(&q.value()),
                Side::Buy => q.value().lt(&p.value()),
            },
            _ => false,
        }
    }
}

/// The views of a sequence of buckets, in the same order.
pub open spec fn levels_view(s: Seq<OrderQueue>) -> Seq<LevelView> {
    s.map_values(|l: OrderQueue| l@)
}

/// The order book of one instrument.
#[derive(Debug)]
pub struct Orderbook {
    underlying: Instrument,
    levels: Vec<OrderQueue>,
    next_id: u64,
}

impl View for Orderbook {
    type V = BookView;

    closed spec fn view(&self) -> BookView {
        BookView {
            underlying: self.underlying,
            levels: levels_view(self.levels@),
            next_id: self.next_id,
        }
    }
}

impl Orderbook {
    /// The book is well formed.
    pub open spec fn wf(&self) -> bool {
        self@.wf()
    }

    /// The empty book of `underlying`.
    pub fn new(underlying: Instrument) -> (r: Orderbook)
        ensures
            r.wf(),
            r@ == (BookView { underlying, levels: Seq::empty(), next_id: 0 }),
    {
        let r = Orderbook { underlying, levels: Vec::new(), next_id: 0 };
        assert(r@.levels =~= Seq::empty());
        proof {
            reveal(keys_distinct);
            reveal(ids_unique);
        }
        r
    }

    pub fn underlying(&self) -> (r: &Instrument)
        ensures
            *r == self@.underlying,
    {
        &self.underlying
    }

    /// The identity that the next order taken will get.
    pub fn next_id(&self) -> (r: u64)
        ensures
            r == self@.next_id,
    {
        self.next_id
    }

    /// The buckets that hold resting orders.
    pub fn levels(&self) -> (r: &Vec<OrderQueue>)
        ensures
            levels_view(r@) == self@.levels,
    {
        &self.levels
    }

    /// The bucket that is served first on `side`, if any order rests there:
    /// the lowest-priced sells, or the highest-priced buys.
    pub fn best(&self, side: Side) -> (r: Option<&OrderQueue>)
        requires
            self.wf(),
        ensures
            r is Some <==> best_level(self@.levels, side) is Some,
            r matches Some(level) ==> level@ == self@.levels[best_level(self@.levels, side)->0],
    {
        match self.best_index(side) {
            Some(i) => Some(&self.levels[i]),
            None => None,
        }
    }

    /// The index of the bucket that is served first on `side`, if any order
    /// rests there.
    fn best_index(&self, side: Side) -> (r: Option<usize>)
        requires
            self.wf(),
        ensures
            r matches Some(i) ==> is_best(self@.levels, side, i as int) && best_level(
                self@.levels,
                side,
            ) == Some(i as int),
            r is None ==> best_level(self@.levels, side) is None,
    {
        let mut best: Option<usize> = None;
        let mut i: usize = 0;
        while i < self.levels.len()
            invariant
                self.wf(),
                i <= self.levels.len(),
                best matches Some(b) ==> b < i && self@.levels[b as int].side(side).len() > 0,
                best matches Some(b) ==> forall|j: int|
                    0 <= j < i && (#[trigger] self@.levels[j]).side(side).len() > 0
                        ==> self@.levels[b as int].rank(side) <= self@.levels[j].rank(side),
                best is None ==> forall|j: int|
                    0 <= j < i ==> (#[trigger] self@.levels[j]).side(side).len() == 0,
            decreases self.levels.len() - i,
        {
            let level = &self.levels[i];
            if level.len(side) > 0 {
                match best {
                    None => {
                        best = Some(i);
                    },
                    Some(b) => {
                        let current = &self.levels[b];
                        if level.serves_before(current, side) {
                            best = Some(i);
                        }
                    },
                }
            }
            i += 1;
        }
        proof {
            if let Some(b) = best {
                lemma_best_is(self@.levels, self@.underlying, self@.next_id as int, side, b as int);
            }
        }
        best
    }

    /// The index of the bucket of `key`, if the book has one.
    fn find_index(&self, key: &OrderType) -> (r: Option<usize>)
        requires
            self.wf(),
        ensures
            r matches Some(i) ==> is_level_of(self@.levels, key@, i as int) && find_level(
                self@.levels,
                key@,
            ) == Some(i as int),
            r is None ==> find_level(self@.levels, key@) is None,
    {
        let mut i: usize = 0;
        while i < self.levels.len()
            invariant
                self.wf(),
                i <= self.levels.len(),
                forall|j: int| 0 <= j < i ==> !is_level_of(self@.levels, key@, j),
            decreases self.levels.len() - i,
        {
            let level = &self.levels[i];
            if level.key.same_bucket(key) {
                proof {
                    lemma_find_is(
                        self@.levels,
                        self@.underlying,
                        self@.next_id as int,
                        key@,
                        i as int,
                    );
                }
                return Some(i);
            }
            i += 1;
        }
        None
    }

    /// The next fill of `incoming`, if there is one: the index of the bucket
    /// it trades against, the price and the quantity.
    fn next_fill(&self, incoming: &Order) -> (r: Option<(usize, Price, i64)>)
        requires
            self.wf(),
            taker_wf(self@.levels, incoming@, self@.underlying, self@.next_id as int),
        ensures
            r is None <==> match_step(self@.levels, incoming@) is None,
            r matches Some((b, price, quantity)) ==> {
                &&& best_level(self@.levels, incoming@.side.opposite()) == Some(b as int)
                &&& b < self@.levels.len()
                &&& self@.levels[b as int].key == OrderTypeView::Limit(price@)
                &&& self@.levels[b as int].side(incoming@.side.opposite()).len() > 0
                &&& quantity == fill_quantity(
                    incoming@,
                    self@.levels[b as int].side(incoming@.side.opposite())[0],
                )
                &&& 0 < quantity <= self@.levels[b as int].side(
                    incoming@.side.opposite(),
                )[0].remaining
            },
    {
        let opposite = match incoming.side() {
            Side::Buy => Side::Sell,
            Side::Sell => Side::Buy,
        };
        let b = match self.best_index(opposite) {
            None => {
                return None;
            },
            Some(b) => b,
        };
        let level = &self.levels[b];
        let price = match level.key {
            OrderType::Limit(p) => p,
            OrderType::AtMarket => {
                return None;
            },
        };
        let head = match level.front(opposite) {
            Some(head) => head,
            None => {
                return None;
            },
        };
        let eligible = match incoming.order_type() {
            OrderType::AtMarket => true,
            OrderType::Limit(limit) => match incoming.side() {
                Side::Buy => price.value().le(&limit.value()),
                Side::Sell => limit.value().le(&price.value()),
            },
        };
        let quantity = if incoming.remaining() <= head.remaining() {
            incoming.remaining()
        } else {
            head.remaining()
        };
        if quantity <= 0 || !eligible {
            return None;
        }
        Some((b, price, quantity))
    }

    /// Executes `quantity` of the oldest order of `side` in the bucket at `b`
    /// and hands back that order as it then stands. A bucket left without
    /// orders leaves the book.
    fn fill_at(&mut self, b: usize, side: Side, quantity: i64) -> (r: Order)
        requires
            old(self).wf(),
            b < old(self)@.levels.len(),
            old(self)@.levels[b as int].side(side).len() > 0,
            0 < quantity <= old(self)@.levels[b as int].side(side)[0].remaining,
        ensures
            final(self).wf(),
            final(self)@ == (BookView {
                levels: put_level(
                    old(self)@.levels,
                    b as int,
                    fill_level(old(self)@.levels[b as int], side, quantity as int),
                ),
                ..old(self)@
            }),
            r@ == old(self)@.levels[b as int].side(side)[0].fill(quantity as int),
    {
        let ghost before = self@.levels;
        proof {
            lemma_fill_keeps_wf(
                before,
                self@.underlying,
                self@.next_id as int,
                b as int,
                side,
                quantity as int,
            );
        }
        let mut level = self.levels.remove(b);
        assert(levels_view(self.levels@) =~= before.remove(b as int));
        let filled = level.fill_head(side, quantity);
        if !level.is_empty() {
            self.levels.insert(b, level);
            assert(levels_view(self.levels@) =~= before.update(b as int, level@));
        }
        filled
    }

    /// Rests what remains of a matched limit order: at the tail of its side's
    /// queue in the bucket of its price, which is made if the book has none.
    fn rest_order(&mut self, order: Order)
        requires
            old(self).wf(),
            taker_wf(old(self)@.levels, order@, old(self)@.underlying, old(self)@.next_id as int),
            order@.remaining > 0,
            order@.order_type is Limit,
        ensures
            final(self)@ == (BookView {
                levels: rest(old(self)@.levels, order@),
                ..old(self)@
            }),
            levels_wf(final(self)@.levels, old(self)@.underlying, old(self)@.next_id + 1),
    {
        let ghost before = self@.levels;
        proof {
            lemma_rest_keeps_wf(before, order@, self@.underlying, self@.next_id as int);
        }
        match self.find_index(order.order_type()) {
            Some(i) => {
                let mut level = self.levels.remove(i);
                level.push(order);
                self.levels.insert(i, level);
                assert(levels_view(self.levels@) =~= before.update(i as int, level@));
            },
            None => {
                let mut level = OrderQueue::new(*order.order_type());
                level.push(order);
                self.levels.push(level);
                assert(levels_view(self.levels@) =~= before.push(level@));
            },
        }
    }

    /// Whether the limit of `order` is in another currency than the resting
    /// orders.
    fn conflicts(&self, order: &Order) -> (r: bool)
        requires
            self.wf(),
        ensures
            r == currency_conflict(self@.levels, order@.order_type),
    {
        if let OrderType::Limit(limit) = order.order_type() {
            if self.levels.len() > 0 {
                let first = &self.levels[0];
                if let OrderType::Limit(price) = first.key {
                    if !limit.same_currency(&price) {
                        assert(is_conflict(self@.levels, code_of(order@.order_type)->0, 0));
                        return true;
                    }
                }
            }
        }
        false
    }

    /// Takes `order` in: matches it against the resting orders of the other
    /// side, best price first and oldest order first, then rests what remains
    /// of a limit order.
    ///
    /// The order gets the book's next identity unless it is rejected for its
    /// instrument or its currency, which leaves the book as it was. The
    /// response lists the fills if there were any; else it is the placement of
    /// the order that rests, or the rejection of the market order that found
    /// nothing to trade against.
    pub fn place_order(&mut self, order: Order) -> (response: Response)
        requires
            old(self).wf(),
            order@.id is None,
            old(self)@.next_id < u64::MAX,
        ensures
            final(self).wf(),
            final(self)@ == submit(old(self)@, order@).book,
            response@ == submit(old(self)@, order@).response,
    {
        order.check_valid();
        if order.underlying().id != self.underlying.id {
            return Response::rejection(RejectionReason::UnknownInstrument);
        }
        if self.conflicts(&order) {
            return Response::rejection(RejectionReason::CrossCurrency);
        }
        let id = self.next_id;
        let mut incoming = order.identified(id);
        let mut executions: Vec<Execution> = Vec::new();
        let ghost start = incoming@;
        let ghost before = self@.levels;
        proof {
            lemma_taker_ready(old(self)@, order@);
        }
        let mut next = self.next_fill(&incoming);
        while next.is_some()
            invariant
                self.wf(),
                self@.underlying == old(self)@.underlying,
                self@.next_id == id,
                taker_wf(self@.levels, incoming@, self@.underlying, id as int),
                next is None <==> match_step(self@.levels, incoming@) is None,
                next matches Some((b, price, quantity)) ==> {
                    &&& best_level(self@.levels, incoming@.side.opposite()) == Some(b as int)
                    &&& b < self@.levels.len()
                    &&& self@.levels[b as int].key == OrderTypeView::Limit(price@)
                    &&& self@.levels[b as int].side(incoming@.side.opposite()).len() > 0
                    &&& quantity == fill_quantity(
                        incoming@,
                        self@.levels[b as int].side(incoming@.side.opposite())[0],
                    )
                    &&& 0 < quantity <= self@.levels[b as int].side(
                        incoming@.side.opposite(),
                    )[0].remaining
                },
                match_all(before, start) == match_all(self@.levels, incoming@).after(
                    executions_view(executions@),
                ),
            decreases incoming@.remaining,
        {
            let (b, price, quantity) = next.unwrap();
            let ghost levels = self@.levels;
            let ghost taker = incoming@;
            let ghost done = executions_view(executions@);
            let execution = match incoming.side() {
                Side::Buy => {
                    let resting = self.fill_at(b, Side::Sell, quantity);
                    incoming = incoming.filled(quantity);
                    Execution::new(resting, incoming, price, quantity)
                },
                Side::Sell => {
                    let resting = self.fill_at(b, Side::Buy, quantity);
                    incoming = incoming.filled(quantity);
                    Execution::new(incoming, resting, price, quantity)
                },
            };
            executions.push(execution);
            proof {
                // this fill is the first of what was left to match
                let step = match_step(levels, taker)->0;
                assert(executions_view(executions@) =~= done.push(execution@));
                let rest_of = match_all(step.levels, step.incoming);
                assert(done + (seq![step.execution] + rest_of.executions) =~= done.push(
                    execution@,
                ) + rest_of.executions);
            }
            next = self.next_fill(&incoming);
        }
        let rests = incoming.remaining() > 0 && match incoming.order_type() {
            OrderType::Limit(_) => true,
            OrderType::AtMarket => false,
        };
        if rests {
            self.rest_order(incoming);
        }
        self.next_id = id + 1;
        if executions.len() > 0 {
            Response::Execution(executions)
        } else if rests {
            Response::Placement(id)
        } else {
            Response::rejection(RejectionReason::UnfillableMarketOrder)
        }
    }

    /// Cancels the order with this identity: it leaves the book, and what
    /// stood behind it in its queue moves up. With no such order resting, the
    /// book stays as it is and the response is that there was no order.
    pub fn cancel_order(&mut self, id: u64) -> (response: Response)
        requires
            old(self).wf(),
        ensures
            final(self).wf(),
            final(self)@ == cancel(old(self)@, id).book,
            response@ == cancel(old(self)@, id).response,
    {
        let ghost before = self@.levels;
        let mut i: usize = 0;
        while i < self.levels.len()
            invariant
                self.wf(),
                self@ == old(self)@,
                before == self@.levels,
                i <= self.levels.len(),
                forall|j: int| 0 <= j < i ==> !is_holder(before, id, j),
            decreases self.levels.len() - i,
        {
            let found = self.levels[i].find(id);
            if found.is_some() {
                proof {
                    lemma_holder_is(before, self@.underlying, self@.next_id as int, id, i as int);
                    lemma_without_keeps_wf(
                        before,
                        self@.underlying,
                        self@.next_id as int,
                        id,
                        i as int,
                    );
                }
                let mut level = self.levels.remove(i);
                assert(levels_view(self.levels@) =~= before.remove(i as int));
                level.remove(id);
                if !level.is_empty() {
                    self.levels.insert(i, level);
                    assert(levels_view(self.levels@) =~= before.update(i as int, level@));
                }
                return Response::Cancellation;
            }
            i += 1;
        }
        Response::NoOrder
    }

    /// Takes the orders in one after the other and hands back the response
    /// to each. The same orders against the same book always give the same
    /// responses and the same book.
    pub fn replay(&mut self, orders: &Vec<Order>) -> (responses: Vec<Response>)
        requires
            old(self).wf(),
            forall|i: int| 0 <= i < orders@.len() ==> (#[trigger] orders@[i])@.id is None,
            old(self)@.next_id + orders@.len() <= u64::MAX,
        ensures
            final(self).wf(),
            final(self)@ == replay(old(self)@, orders_view(orders@)).book,
            responses_view(responses@) == replay(old(self)@, orders_view(orders@)).responses,
    {
        let ghost start = self@;
        let ghost all = orders_view(orders@);
        let mut responses: Vec<Response> = Vec::new();
        let mut i: usize = 0;
        while i < orders.len()
            invariant
                i <= orders@.len(),
                all == orders_view(orders@),
                start.next_id + orders@.len() <= u64::MAX,
                forall|j: int| 0 <= j < orders@.len() ==> (#[trigger] orders@[j])@.id is None,
                self.wf(),
                self@.next_id <= start.next_id + i,
                self@ == replay(start, all.take(i as int)).book,
                responses_view(responses@) == replay(start, all.take(i as int)).responses,
            decreases orders@.len() - i,
        {
            let order = orders[i];
            let response = self.place_order(order);
            responses.push(response);
            proof {
                assert(all.take(i + 1).drop_last() =~= all.take(i as int));
            }
            i += 1;
        }
        assert(all.take(i as int) =~= all);
        responses
    }
}

} // verus!
