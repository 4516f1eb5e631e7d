//! The placer: an intake queue of orders and the books they are routed to.

use crate::matching::{submit, BookView};
use crate::messaging::{RejectionReason, Response, ResponseView};
use crate::orderbook::{orders_view, Orderbook};
use crate::orderutils::{Order, OrderView};
use std::collections::HashMap;
use std::collections::VecDeque;
use vstd::prelude::*;

verus! {

broadcast use vstd::std_specs::hash::group_hash_axioms;

/// What a placer is to the routing rules: the orders waiting, oldest first,
/// and the book of each registered instrument, by the instrument's key.
pub struct PlacerView {
    pub queue: Seq<OrderView>,
    pub books: Map<u64, BookView>,
}

/// A placer after one step, and what the caller is told.
pub struct Processed {
    pub placer: PlacerView,
    pub outcome: Result<ResponseView, ResponseView>,
}

/// A response as the outcome of a step: rejections and the lack of an order
/// are failures, everything else is a success.
pub open spec fn outcome_of(response: ResponseView) -> Result<ResponseView, ResponseView> {
    match response {
        ResponseView::Rejection(_) => Err(response),
        ResponseView::NoOrder => Err(response),
        _ => Ok(response),
    }
}

impl PlacerView {
    /// Every registered book is well formed and stands under the key of its own
    /// instrument, and every waiting order is one that no book has taken.
    pub open spec fn wf(self) -> bool {
        &&& forall|k: u64| #[trigger]
            self.books.dom().contains(k) ==> self.books[k].wf() && self.books[k].underlying.id
                == k
        &&& forall|i: int| 0 <= i < self.queue.len() ==> (#[trigger] self.queue[i]).is_new()
    }

    /// The book that the oldest waiting order goes to, if there is one, has an
    /// identity left to give.
    pub open spec fn has_room(self) -> bool {
        self.queue.len() > 0 && self.books.dom().contains(self.queue[0].underlying.id)
            ==> self.books[self.queue[0].underlying.id].next_id < u64::MAX
    }

    /// One step: nothing to do when no order waits; else the oldest order
    /// leaves the intake queue and is handed to the book of its instrument,
    /// or rejected when there is no such book.
    pub open spec fn process(self) -> Processed {
        if self.queue.len() == 0 {
            Processed { placer: self, outcome: Err(ResponseView::NoOrder) }
        } else {
            let order = self.queue[0];
            let key = order.underlying.id;
            if self.books.dom().contains(key) {
                let submitted = submit(self.books[key], order);
                Processed {
                    placer: PlacerView {
                        queue: self.queue.drop_first(),
                        books: self.books.insert(key, submitted.book),
                    },
                    outcome: outcome_of(submitted.response),
                }
            } else {
                Processed {
                    placer: PlacerView { queue: self.queue.drop_first(), books: self.books },
                    outcome: Err(ResponseView::rejection(RejectionReason::UnknownInstrument)),
                }
            }
        }
    }
}

/// The views of the outcome's response, whichever way it went.
pub open spec fn outcome_view(r: Result<Response, Response>) -> Result<ResponseView, ResponseView> {
    match r {
        Ok(response) => Ok(response@),
        Err(response) => Err(response@),
    }
}

/// Receives orders and routes each to the book of its instrument.
pub struct Placer {
    placer_queue: VecDeque<Order>,
    orderbooks: HashMap<u64, Orderbook>,
}

impl View for Placer {
    type V = PlacerView;

    closed spec fn view(&self) -> PlacerView {
        PlacerView {
            queue: orders_view(self.placer_queue@),
            books: self.orderbooks@.map_values(|b: Orderbook| b@),
        }
    }
}

impl Placer {
    /// The placer is well formed.
    pub open spec fn wf(&self) -> bool {
        self@.wf()
    }

    /// A placer with no order waiting and no book registered.
    pub fn new() -> (r: Placer)
        ensures
            r.wf(),
            r@ == (PlacerView { queue: Seq::empty(), books: Map::empty() }),
    {
        let r = Placer { placer_queue: VecDeque::new(), orderbooks: HashMap::new() };
        assert(r@.queue =~= Seq::empty());
        assert(r@.books =~= Map::empty());
        r
    }

    /// Registers `book` for its instrument. An instrument has one book: with
    /// one registered already, the placer stays as it was and says `false`.
    pub fn register(&mut self, book: Orderbook) -> (r: bool)
        requires
            old(self).wf(),
            book.wf(),
        ensures
            final(self).wf(),
            r == !old(self)@.books.dom().contains(book@.underlying.id),
            r ==> final(self)@ == (PlacerView {
                books: old(self)@.books.insert(book@.underlying.id, book@),
                ..old(self)@
            }),
            !r ==> final(self)@ == old(self)@,
    {
        let key = book.underlying().id;
        if self.orderbooks.contains_key(&key) {
            return false;
        }
        self.orderbooks.insert(key, book);
        assert(self@.books =~= old(self)@.books.insert(key, book@));
        true
    }

    /// Whether a book is registered for the instrument with this key.
    pub fn has_book(&self, key: u64) -> (r: bool)
        ensures
            r == self@.books.dom().contains(key),
    {
        self.orderbooks.contains_key(&key)
    }

    /// The book registered for the instrument with this key, if there is one.
    pub fn book(&self, key: u64) -> (r: Option<&Orderbook>)
        ensures
            r is Some <==> self@.books.dom().contains(key),
            r matches Some(b) ==> b@ == self@.books[key],
    {
        self.orderbooks.get(&key)
    }

    /// The oldest waiting order, if there is one.
    pub fn front(&self) -> (r: Option<Order>)
        ensures
            r is Some <==> self@.queue.len() > 0,
            r matches Some(o) ==> o@ == self@.queue[0],
    {
        if self.placer_queue.len() > 0 {
            Some(self.placer_queue[0])
        } else {
            None
        }
    }

    /// How many orders wait in the intake queue.
    pub fn pending(&self) -> (r: usize)
        ensures
            r == self@.queue.len(),
    {
        self.placer_queue.len()
    }

    /// Appends `order` to the intake queue.
    pub fn push_to_queue(&mut self, order: Order)
        requires
            old(self).wf(),
            order@.id is None,
        ensures
            final(self).wf(),
            final(self)@ == (PlacerView {
                queue: old(self)@.queue.push(order@),
                ..old(self)@
            }),
    {
        order.check_valid();
        self.placer_queue.push_back(order);
        assert(self@.queue =~= old(self)@.queue.push(order@));
    }

    /// Takes the oldest waiting order and hands it to the book of its
    /// instrument.
    pub fn place_next(&mut self) -> (r: Result<Response, Response>)
        requires
            old(self).wf(),
            old(self)@.has_room(),
        ensures
            final(self).wf(),
            final(self)@ == old(self)@.process().placer,
            outcome_view(r) == old(self)@.process().outcome,
    {
        let next_order = self.placer_queue.pop_front();
        if let Some(order) = next_order {
            assert(self@.queue =~= old(self)@.queue.drop_first());
            let key = order.underlying().id;
            if let Some(mut orderbook) = self.orderbooks.remove(&key) {
                let response = orderbook.place_order(order);
                self.orderbooks.insert(key, orderbook);
                assert(self@.books =~= old(self)@.books.insert(key, orderbook@));
                return match response {
                    Response::Rejection(_) => Err(response),
                    Response::NoOrder => Err(response),
                    _ => Ok(response),
                };
            } else {
                assert(self@.books =~= old(self)@.books);
                return Err(Response::rejection(RejectionReason::UnknownInstrument));
            }
        }
        Err(Response::NoOrder)
    }
}

} // verus!
