//! Orders, fills and the other plain records that the book works on.

use vstd::prelude::*;

verus! {

/// The side of the book an order belongs to.
#[derive(Clone, Copy, Debug, PartialEq, Eq, Hash, Structural)]
pub enum Side {
    Buy,
    Sell,
}

impl Side {
    /// The side an order on `self` trades against.
    pub open spec fn opposite_spec(self) -> Side {
        match self {
            Side::Buy => Side::Sell,
            Side::Sell => Side::Buy,
        }
    }

    /// The side an order on `self` trades against.
    #[verifier::when_used_as_spec(opposite_spec)]
    pub fn opposite(self) -> (r: Side)
        ensures
            r == self.opposite_spec(),
    {
        match self {
            Side::Buy => Side::Sell,
            Side::Sell => Side::Buy,
        }
    }
}

/// Whether an order carries a price bound.
#[derive(Clone, Copy, Debug, PartialEq, Eq, Hash, Structural)]
pub enum OrderKind {
    Limit,
    Market,
}

/// Where an order stands in its life.
///
/// `Resting` and `PartiallyFilled` are the live states; `Filled` and
/// `Cancelled` are terminal, and an order that reaches one of them leaves
/// the book.
#[derive(Clone, Copy, Debug, PartialEq, Eq, Hash, Structural)]
pub enum OrderStatus {
    Resting,
    PartiallyFilled,
    Filled,
    Cancelled,
}

/// An order as the book records it. The symbol is that of the book which
/// holds the order.
#[derive(Clone, Copy, Debug, PartialEq, Eq)]
pub struct Order {
    pub id: u128,
    pub side: Side,
    pub kind: OrderKind,
    /// Present for a limit order, absent for a market order.
    pub limit_price: Option<i64>,
    pub original_quantity: u64,
    pub remaining_quantity: u64,
    /// Entry stamp of the book; it only ever breaks ties.
    pub sequence: u64,
    pub status: OrderStatus,
}

/// The status of a live order with the given quantities.
pub open spec fn live_status(original: u64, remaining: u64) -> OrderStatus {
    if remaining == original {
        OrderStatus::Resting
    } else {
        OrderStatus::PartiallyFilled
    }
}

impl Order {
    /// A limit order of which `remaining` out of `original` is still open.
    pub open spec fn limit_spec(
        id: u128,
        side: Side,
        price: i64,
        original: u64,
        remaining: u64,
        sequence: u64,
    ) -> Order {
        Order {
            id,
            side,
            kind: OrderKind::Limit,
            limit_price: Some(price),
            original_quantity: original,
            remaining_quantity: remaining,
            sequence,
            status: live_status(original, remaining),
        }
    }

    /// A limit order of which `remaining` out of `original` is still open.
    #[verifier::when_used_as_spec(limit_spec)]
    pub fn limit(
        id: u128,
        side: Side,
        price: i64,
        original: u64,
        remaining: u64,
        sequence: u64,
    ) -> (r: Order)
        ensures
            r == Order::limit_spec(id, side, price, original, remaining, sequence),
    {
        let status = if remaining == original {
            OrderStatus::Resting
        } else {
            OrderStatus::PartiallyFilled
        };
        Order {
            id,
            side,
            kind: OrderKind::Limit,
            limit_price: Some(price),
            original_quantity: original,
            remaining_quantity: remaining,
            sequence,
            status,
        }
    }

    /// What a resting order on `side` at `price` must look like: a limit
    /// order at that price with something left, and a status that says
    /// whether it was ever filled.
    pub open spec fn rests_at(self, side: Side, price: i64) -> bool {
        &&& self.side == side
        &&& self.kind == OrderKind::Limit
        &&& self.limit_price == Some(price)
        &&& 0 < self.remaining_quantity <= self.original_quantity
        &&& self.status == live_status(self.original_quantity, self.remaining_quantity)
    }

    /// The order after `quantity` of it has traded, something being left.
    pub open spec fn reduced_spec(self, quantity: u64) -> Order {
        Order {
            remaining_quantity: (self.remaining_quantity - quantity) as u64,
            status: OrderStatus::PartiallyFilled,
            ..self
        }
    }

    /// The order after `quantity` of it has traded, something being left.
    #[verifier::when_used_as_spec(reduced_spec)]
    pub fn reduced(self, quantity: u64) -> (r: Order)
        requires
            quantity <= self.remaining_quantity,
        ensures
            r == self.reduced_spec(quantity),
    {
        Order {
            remaining_quantity: self.remaining_quantity - quantity,
            status: OrderStatus::PartiallyFilled,
            ..self
        }
    }

    /// The order as it leaves the book, with the terminal status `status`.
    pub open spec fn closed_spec(self, status: OrderStatus) -> Order {
        Order { status, ..self }
    }

    /// The order as it leaves the book, with the terminal status `status`.
    #[verifier::when_used_as_spec(closed_spec)]
    pub fn closed(self, status: OrderStatus) -> (r: Order)
        ensures
            r == self.closed_spec(status),
    {
        Order { status, ..self }
    }
}

/// Where the registry says a live order rests.
#[derive(Clone, Copy, Debug, PartialEq, Eq, Structural)]
pub struct Location {
    pub side: Side,
    pub price: i64,
}

/// The incoming order as the crossing walk sees it.
#[derive(Clone, Copy, Debug, PartialEq, Eq)]
pub struct Taker {
    pub id: u128,
    pub side: Side,
    /// The price bound of a limit order; a market order has none.
    pub limit: Option<i64>,
}

/// One trade between an incoming order and a resting one. It is always
/// priced at the resting order's price.
#[derive(Clone, Copy, Debug, PartialEq, Eq, Structural)]
pub struct Fill {
    /// The order that was waiting in the book (the counterparty).
    pub resting_order_id: u128,
    /// The order that crossed into it.
    pub incoming_order_id: u128,
    /// The side of the incoming order.
    pub incoming_side: Side,
    pub price: i64,
    pub quantity: u64,
    /// The resting order after the trade: `Filled` where the trade took all
    /// it had left, `PartiallyFilled` where something of it still rests.
    pub resting_status: OrderStatus,
}

impl Fill {
    pub open spec fn buyer_order_id_spec(&self) -> u128 {
        match self.incoming_side {
            Side::Buy => self.incoming_order_id,
            Side::Sell => self.resting_order_id,
        }
    }

    pub open spec fn seller_order_id_spec(&self) -> u128 {
        match self.incoming_side {
            Side::Buy => self.resting_order_id,
            Side::Sell => self.incoming_order_id,
        }
    }

    /// The order that bought in this trade.
    #[verifier::when_used_as_spec(buyer_order_id_spec)]
    pub fn buyer_order_id(&self) -> (r: u128)
        ensures
            r == self.buyer_order_id_spec(),
    {
        match self.incoming_side {
            Side::Buy => self.incoming_order_id,
            Side::Sell => self.resting_order_id,
        }
    }

    /// The order that sold in this trade.
    #[verifier::when_used_as_spec(seller_order_id_spec)]
    pub fn seller_order_id(&self) -> (r: u128)
        ensures
            r == self.seller_order_id_spec(),
    {
        match self.incoming_side {
            Side::Buy => self.resting_order_id,
            Side::Sell => self.incoming_order_id,
        }
    }
}

/// The sum of the quantities of a run of fills.
pub open spec fn filled_quantity(fills: Seq<Fill>) -> nat
    decreases fills.len(),
{
    if fills.len() == 0 {
        0
    } else {
        filled_quantity(fills.drop_last()) + fills.last().quantity as nat
    }
}

/// The quantity of a run of fills is that of its parts.
pub proof fn lemma_filled_quantity_concat(a: Seq<Fill>, b: Seq<Fill>)
    ensures
        filled_quantity(a + b) == filled_quantity(a) + filled_quantity(b),
    decreases b.len(),
{
    if b.len() == 0 {
        assert(a + b =~= a);
    } else {
        assert((a + b).drop_last() =~= a + b.drop_last());
        lemma_filled_quantity_concat(a, b.drop_last());
    }
}

/// What a limit order has done by the time `submit_limit_order` returns.
#[derive(Clone, Debug, PartialEq, Eq)]
pub struct LimitOrderResult {
    /// The id under which the remainder rests; `None` where the order was
    /// filled entirely.
    pub resting_order_id: Option<u128>,
    pub remaining_quantity: u64,
    /// The trades, in the order in which they were made.
    pub fills: Vec<Fill>,
}

/// What a market order has done by the time `submit_market_order` returns.
#[derive(Clone, Debug, PartialEq, Eq)]
pub struct MarketOrderResult {
    pub remaining_quantity: u64,
    /// The trades, in the order in which they were made.
    pub fills: Vec<Fill>,
}

/// Why an operation was refused.
#[derive(Clone, Debug, PartialEq, Eq)]
pub enum EngineError {
    /// No book is registered for the symbol.
    SymbolNotFound,
    /// The quantity is zero.
    InvalidQuantity,
    /// The limit price is zero or negative.
    InvalidPrice,
    /// No live order has the id: it was never accepted, or it has been
    /// filled or cancelled.
    OrderNotFound,
    /// The id offered for a new order belongs to a live order.
    DuplicateOrderId,
    /// A market order ran out of opposing orders. The trades made before
    /// that stand; they are listed here with the quantity left unfilled.
    InsufficientLiquidity { remaining_quantity: u64, fills: Vec<Fill> },
}

} // verus!
