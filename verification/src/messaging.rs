//! What a caller is told about an order it handed in.

use crate::trade::{executions_view, Execution, ExecutionView};
use vstd::prelude::*;

verus! {

/// Why an order was turned away.
#[derive(Clone, Copy, Debug, PartialEq, Eq, Structural)]
pub enum RejectionReason {
    /// No book is registered for the order's instrument.
    UnknownInstrument,
    /// The order's limit is in another currency than the book's resting orders.
    CrossCurrency,
    /// A market order found nothing to execute against.
    UnfillableMarketOrder,
}

impl RejectionReason {
    /// The text that goes with the reason.
    pub open spec fn spec_message(self) -> Seq<char> {
        match self {
            RejectionReason::UnknownInstrument => "book not found"@,
            RejectionReason::CrossCurrency => "cross currency"@,
            RejectionReason::UnfillableMarketOrder => "unfillable market order"@,
        }
    }

    pub fn message(&self) -> (r: String)
        ensures
            r@ == self.spec_message(),
    {
        match self {
            RejectionReason::UnknownInstrument => "book not found".to_owned(),
            RejectionReason::CrossCurrency => "cross currency".to_owned(),
            RejectionReason::UnfillableMarketOrder => "unfillable market order".to_owned(),
        }
    }
}

/// What a response is to the matching rules.
pub enum ResponseView {
    Placement(u64),
    Execution(Seq<ExecutionView>),
    Cancellation,
    Rejection(Seq<char>),
    NoOrder,
}

impl ResponseView {
    /// The rejection that carries the text of `reason`.
    pub open spec fn rejection(reason: RejectionReason) -> ResponseView {
        ResponseView::Rejection(reason.spec_message())
    }
}

/// The one outcome of handing in an order.
#[derive(Debug)]
pub enum Response {
    /// The order rests in the book under this identity.
    Placement(u64),
    /// The order traded; the fills are listed in the order they happened.
    Execution(Vec<Execution>),
    Cancellation,
    Rejection(String),
    /// There was no order to work on.
    NoOrder,
}

impl View for Response {
    type V = ResponseView;

    open spec fn view(&self) -> ResponseView {
        match self {
            Response::Placement(id) => ResponseView::Placement(*id),
            Response::Execution(list) => ResponseView::Execution(executions_view(list@)),
            Response::Cancellation => ResponseView::Cancellation,
            Response::Rejection(text) => ResponseView::Rejection(text@),
            Response::NoOrder => ResponseView::NoOrder,
        }
    }
}

/// The views of a sequence of responses, in the same order.
pub open spec fn responses_view(s: Seq<Response>) -> Seq<ResponseView> {
    s.map_values(|r: Response| r@)
}

impl Response {
    /// The rejection that carries the text of `reason`.
    pub fn rejection(reason: RejectionReason) -> (r: Response)
        ensures
            r@ == ResponseView::rejection(reason),
    {
        Response::Rejection(reason.message())
    }
}

} // verus!
