//! Orders: one trading intent each, validated when it is built.

use crate::assets::Instrument;
use crate::marketdata::{Price, PriceView};
use vstd::prelude::*;

verus! {

/// The side of the market an order stands on.
#[derive(Clone, Copy, Debug, PartialEq, Eq, Hash, Structural)]
pub enum Side {
    Buy,
    Sell,
}

impl Side {
    pub open spec fn opposite(self) -> Side {
        match self {
            Side::Buy => Side::Sell,
            Side::Sell => Side::Buy,
        }
    }
}

/// Why an order could not be built.
#[derive(Clone, Copy, Debug, PartialEq, Eq, Structural)]
pub enum ValidationError {
    InvalidQuantity,
    InvalidLimit,
}

impl ValidationError {
    /// The text that goes with the error.
    pub open spec fn spec_message(self) -> Seq<char> {
        match self {
            ValidationError::InvalidQuantity => "Amount must be greater than zero."@,
            ValidationError::InvalidLimit => "Limit must be greater than zero."@,
        }
    }

    pub fn message(&self) -> (r: String)
        ensures
            r@ == self.spec_message(),
    {
        match self {
            ValidationError::InvalidQuantity => "Amount must be greater than zero.".to_owned(),
            ValidationError::InvalidLimit => "Limit must be greater than zero.".to_owned(),
        }
    }
}

/// What an order type is to the matching rules.
pub enum OrderTypeView {
    AtMarket,
    Limit(PriceView),
}

/// How an order is priced: at whatever the market offers, or bounded by a
/// limit. It is also the key of the bucket a resting order waits in.
#[derive(Clone, Copy, Debug)]
pub enum OrderType {
    AtMarket,
    Limit(Price),
}

impl View for OrderType {
    type V = OrderTypeView;

    open spec fn view(&self) -> OrderTypeView {
        match self {
            OrderType::AtMarket => OrderTypeView::AtMarket,
            OrderType::Limit(p) => OrderTypeView::Limit(p@),
        }
    }
}

impl OrderType {
    /// Whether both name the same bucket: both at market, or both limits of
    /// the same amount in the same currency.
    pub fn same_bucket(&self, other: &OrderType) -> (r: bool)
        ensures
            r == (self@ == other@),
    {
        match (self, other) {
            (OrderType::AtMarket, OrderType::AtMarket) => true,
            (OrderType::Limit(p), OrderType::Limit(q)) => p.same_price(q),
            _ => false,
        }
    }
}

/// How far an order has been executed.
#[derive(Clone, Copy, Debug, PartialEq, Eq, Structural)]
pub enum ExecutionState {
    Resting,
    PartiallyFilled(i64),
    FullyFilled,
}

/// What an order is to the matching rules.
pub struct OrderView {
    pub underlying: Instrument,
    pub side: Side,
    pub amount: int,
    pub remaining: int,
    pub order_type: OrderTypeView,
    pub id: Option<u64>,
}

impl OrderView {
    /// The quantity is positive, what remains lies between nothing and the
    /// whole, and a limit is positive.
    pub open spec fn wf(self) -> bool {
        &&& 0 < self.amount
        &&& 0 <= self.remaining <= self.amount
        &&& self.order_type matches OrderTypeView::Limit(p) ==> p.units > 0
    }

    /// A valid order that no book has taken yet: it has no identity and
    /// nothing of it is executed.
    pub open spec fn is_new(self) -> bool {
        &&& self.wf()
        &&& self.id is None
        &&& self.remaining == self.amount
    }

    /// The quantity executed so far.
    pub open spec fn executed(self) -> int {
        self.amount - self.remaining
    }

    /// The order after `quantity` more has been executed.
    pub open spec fn fill(self, quantity: int) -> OrderView {
        OrderView { remaining: self.remaining - quantity, ..self }
    }

    /// The order under the identity `id`.
    pub open spec fn identified(self, id: u64) -> OrderView {
        OrderView { id: Some(id), ..self }
    }

    pub open spec fn state(self) -> ExecutionState {
        if self.remaining == 0 {
            ExecutionState::FullyFilled
        } else if self.remaining == self.amount {
            ExecutionState::Resting
        } else {
            ExecutionState::PartiallyFilled(self.remaining as i64)
        }
    }
}

/// One trading intent.
#[derive(Clone, Copy, Debug)]
pub struct Order {
    underlying: Instrument,
    side: Side,
    amount: i64,
    remaining: i64,
    order_type: OrderType,
    id: Option<u64>,
}

impl View for Order {
    type V = OrderView;

    closed spec fn view(&self) -> OrderView {
        OrderView {
            underlying: self.underlying,
            side: self.side,
            amount: self.amount as int,
            remaining: self.remaining as int,
            order_type: self.order_type@,
            id: self.id,
        }
    }
}

/// What a new order of this quantity and type is refused for, if anything.
pub open spec fn validation_error(amount: int, order_type: OrderTypeView) -> Option<
    ValidationError,
> {
    if amount <= 0 {
        Some(ValidationError::InvalidQuantity)
    } else if order_type matches OrderTypeView::Limit(p) && p.units <= 0 {
        Some(ValidationError::InvalidLimit)
    } else {
        None
    }
}

/// Checks the quantity first and the limit second.
pub fn validate_order(amount: i64, order_type: &OrderType) -> (r: Result<bool, ValidationError>)
    ensures
        match validation_error(amount as int, order_type@) {
            Some(e) => r == Err::<bool, ValidationError>(e),
            None => r == Ok::<bool, ValidationError>(true),
        },
{
    if amount <= 0 {
        return Err(ValidationError::InvalidQuantity);
    }
    if let OrderType::Limit(l) = order_type {
        if !l.is_positive() {
            return Err(ValidationError::InvalidLimit);
        }
    }
    Ok(true)
}

impl Order {
    /// The order is valid, and nothing of it is executed before a book has
    /// given it an identity.
    #[verifier::type_invariant]
    spec fn valid(&self) -> bool {
        &&& self@.wf()
        &&& self.id is None ==> self.remaining == self.amount
    }

    /// Builds an order of `amount` on `side`. Nothing of it is executed yet,
    /// and it has no identity until a book takes it.
    pub fn new(underlying: Instrument, side: Side, amount: i64, order_type: OrderType) -> (r:
        Result<Order, ValidationError>)
        ensures
            match validation_error(amount as int, order_type@) {
                Some(e) => r == Err::<Order, ValidationError>(e),
                None => r matches Ok(o) && o@ == (OrderView {
                    underlying,
                    side,
                    amount: amount as int,
                    remaining: amount as int,
                    order_type: order_type@,
                    id: None,
                }) && o@.is_new(),
            },
    {
        let validation_result = validate_order(amount, &order_type);
        if let Err(e) = validation_result {
            return Err(e);
        }
        Ok(Order { underlying, side, amount, remaining: amount, order_type, id: None })
    }

    pub fn underlying(&self) -> (r: &Instrument)
        ensures
            *r == self@.underlying,
    {
        &self.underlying
    }

    pub fn side(&self) -> (r: Side)
        ensures
            r == self@.side,
    {
        self.side
    }

    /// The quantity the order was built with.
    pub fn amount(&self) -> (r: i64)
        ensures
            r == self@.amount,
    {
        self.amount
    }

    /// The quantity not yet executed.
    pub fn remaining(&self) -> (r: i64)
        ensures
            r == self@.remaining,
    {
        self.remaining
    }

    /// The identity a book gave the order, if one has taken it.
    pub fn id(&self) -> (r: Option<u64>)
        ensures
            r == self@.id,
    {
        self.id
    }

    pub fn is_fully_executed(&self) -> (r: bool)
        ensures
            r == (self@.remaining == 0),
    {
        self.remaining == 0
    }

    pub fn is_sell_order(&self) -> (r: bool)
        ensures
            r == (self@.side == Side::Sell),
    {
        self.side == Side::Sell
    }

    pub fn order_type(&self) -> (r: &OrderType)
        ensures
            r@ == self@.order_type,
    {
        &self.order_type
    }

    /// Brings what every order in hand satisfies into a proof.
    pub(crate) fn check_valid(&self)
        ensures
            self@.wf(),
            self@.id is None ==> self@.is_new(),
    {
        proof {
            use_type_invariant(self);
        }
    }

    pub fn state(&self) -> (r: ExecutionState)
        ensures
            r == self@.state(),
    {
        if self.remaining == 0 {
            ExecutionState::FullyFilled
        } else if self.remaining == self.amount {
            ExecutionState::Resting
        } else {
            ExecutionState::PartiallyFilled(self.remaining)
        }
    }

    /// The order after `quantity` more of it has been executed.
    pub(crate) fn filled(&self, quantity: i64) -> (r: Order)
        requires
            0 <= quantity <= self@.remaining,
            self@.id is Some,
        ensures
            r@ == self@.fill(quantity as int),
    {
        proof {
            use_type_invariant(self);
        }
        Order { remaining: self.remaining - quantity, ..*self }
    }

    /// The order under the identity `id`.
    pub(crate) fn identified(&self, id: u64) -> (r: Order)
        ensures
            r@ == self@.identified(id),
    {
        proof {
            use_type_invariant(self);
        }
        Order { id: Some(id), ..*self }
    }
}

} // verus!
