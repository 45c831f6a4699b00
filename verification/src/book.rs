//! The order book of one symbol: its bids, its asks, and the registry that
//! says where each live order rests.

use crate::level::{index_of, LevelView};
use crate::matching::{
    crosses, fill_of, head_count, lemma_match_side, lemma_pair_swap, lemma_remove_pair,
    lemma_rest_pair, located, match_side, next_stamp, pair_wf, side_total,
};
use crate::order::{
    EngineError, Fill, LimitOrderResult, Location, MarketOrderResult, Order, OrderStatus, Side,
    Taker,
};
use crate::side::{remove_at, rest_order, slot, OrderBookSide};
use std::collections::HashMap;
use vstd::prelude::*;

verus! {

/// The mathematical content of a book.
pub struct BookView {
    /// The bid levels, the highest price first.
    pub bids: Seq<LevelView>,
    /// The ask levels, the lowest price first.
    pub asks: Seq<LevelView>,
    /// Where each live order rests.
    pub registry: Map<u128, Location>,
    /// The entry stamp that the next resting order gets.
    pub next_sequence: u64,
}

/// What the book and the caller have after an incoming order was executed.
pub struct Execution {
    pub book: BookView,
    /// The trades, in the order in which they were made.
    pub fills: Seq<Fill>,
    /// What the incoming order still wants.
    pub leftover: u64,
    /// The id under which the remainder rests, if it came to rest.
    pub resting: Option<u128>,
}

impl BookView {
    /// The book in which nothing rests.
    pub open spec fn empty() -> BookView {
        BookView {
            bids: Seq::empty(),
            asks: Seq::empty(),
            registry: Map::empty(),
            next_sequence: 0,
        }
    }

    /// The levels of one side.
    pub open spec fn side(self, side: Side) -> Seq<LevelView> {
        match side {
            Side::Buy => self.bids,
            Side::Sell => self.asks,
        }
    }

    /// The book with other levels on one side, and another registry.
    pub open spec fn put(
        self,
        side: Side,
        levels: Seq<LevelView>,
        registry: Map<u128, Location>,
    ) -> BookView {
        match side {
            Side::Buy => BookView { bids: levels, registry, ..self },
            Side::Sell => BookView { asks: levels, registry, ..self },
        }
    }

    /// Both sides are ordered and hold no empty level, every resting order
    /// is live and at the price of its level, and the registry knows each
    /// resting order under its side and price and knows no other id.
    pub open spec fn wf(self) -> bool {
        pair_wf(self.bids, Side::Buy, self.asks, self.registry, self.next_sequence)
    }

    /// Whether a live order has this id.
    pub open spec fn has(self, id: u128) -> bool {
        self.registry.contains_key(id)
    }

    /// The live order with this id.
    pub open spec fn order(self, id: u128) -> Order {
        let loc = self.registry[id];
        let levels = self.side(loc.side);
        let orders = levels[slot(levels, loc.side, loc.price)].orders;
        orders[index_of(orders, id)]
    }

    /// The sum of what all resting orders have left.
    pub open spec fn total(self) -> nat {
        side_total(self.bids) + side_total(self.asks)
    }

    /// The crossing walk of `taker` against the side opposite to its own.
    pub open spec fn crossed(self, taker: Taker, quantity: u64) -> Execution {
        let against = taker.side.opposite();
        let m = match_side(self.side(against), self.registry, taker, quantity);
        Execution {
            book: self.put(against, m.levels, m.registry),
            fills: m.fills,
            leftover: m.leftover,
            resting: None,
        }
    }

    /// A limit order: it crosses as far as its price allows, and what is
    /// left of it comes to rest on its own side at its price.
    pub open spec fn limit(self, side: Side, price: i64, quantity: u64, id: u128) -> Execution {
        let x = self.crossed(Taker { id, side, limit: Some(price) }, quantity);
        if x.leftover > 0 {
            let o = Order::limit_spec(id, side, price, quantity, x.leftover, self.next_sequence);
            let rested = x.book.put(
                side,
                rest_order(x.book.side(side), side, price, o),
                x.book.registry.insert(id, Location { side, price }),
            );
            Execution {
                book: BookView { next_sequence: next_stamp(self.next_sequence), ..rested },
                resting: Some(id),
                ..x
            }
        } else {
            x
        }
    }

    /// A market order: it crosses whatever the opposing side holds, and
    /// nothing of it ever comes to rest.
    pub open spec fn market(self, side: Side, quantity: u64, id: u128) -> Execution {
        self.crossed(Taker { id, side, limit: None }, quantity)
    }

    /// The book after the live order with this id was cancelled.
    pub open spec fn cancelled(self, id: u128) -> BookView {
        let loc = self.registry[id];
        let levels = self.side(loc.side);
        let k = slot(levels, loc.side, loc.price);
        let j = index_of(levels[k].orders, id);
        self.put(loc.side, remove_at(levels, k, j), self.registry.remove(id))
    }
}

/// A well-formed book looks well-formed from either side.
pub proof fn lemma_wf_from(book: BookView, side: Side)
    ensures
        book.wf() <==> pair_wf(
            book.side(side),
            side,
            book.side(side.opposite()),
            book.registry,
            book.next_sequence,
        ),
{
    match side {
        Side::Buy => {},
        Side::Sell => {
            if book.wf() {
                lemma_pair_swap(
                    book.bids,
                    Side::Buy,
                    book.asks,
                    book.registry,
                    book.next_sequence,
                );
            }
            if pair_wf(book.asks, Side::Sell, book.bids, book.registry, book.next_sequence) {
                lemma_pair_swap(
                    book.asks,
                    Side::Sell,
                    book.bids,
                    book.registry,
                    book.next_sequence,
                );
            }
        },
    }
}

/// The crossing walk leaves a well-formed book well-formed, and the
/// registry gains no id by it.
pub proof fn lemma_crossed_wf(book: BookView, taker: Taker, quantity: u64)
    requires
        book.wf(),
    ensures
        book.crossed(taker, quantity).book.wf(),
        book.crossed(taker, quantity).leftover <= quantity,
        book.crossed(taker, quantity).book.next_sequence == book.next_sequence,
        book.crossed(taker, quantity).book.side(taker.side) == book.side(taker.side),
        forall|id: u128| #[trigger]
            book.crossed(taker, quantity).book.has(id) ==> book.has(id) && book.crossed(
                taker,
                quantity,
            ).book.registry[id] == book.registry[id],
{
    let against = taker.side.opposite();
    lemma_wf_from(book, against);
    lemma_match_side(
        book.side(against),
        against,
        book.side(taker.side),
        book.registry,
        book.next_sequence,
        taker,
        quantity,
    );
    lemma_wf_from(book.crossed(taker, quantity).book, against);
}

/// A limit order leaves a well-formed book well-formed, provided its id is
/// not that of a live order.
pub proof fn lemma_limit_wf(book: BookView, side: Side, price: i64, quantity: u64, id: u128)
    requires
        book.wf(),
        !book.has(id),
    ensures
        book.limit(side, price, quantity, id).book.wf(),
        forall|other: u128| #[trigger]
            book.limit(side, price, quantity, id).book.has(other) ==> book.has(other) || other
                == id,
{
    let taker = Taker { id, side, limit: Some(price) };
    let x = book.crossed(taker, quantity);
    lemma_crossed_wf(book, taker, quantity);
    if x.leftover > 0 {
        let o = Order::limit_spec(id, side, price, quantity, x.leftover, book.next_sequence);
        assert(!x.book.has(id));
        lemma_wf_from(x.book, side);
        lemma_rest_pair(
            x.book.side(side),
            side,
            x.book.side(side.opposite()),
            x.book.registry,
            x.book.next_sequence,
            price,
            o,
        );
        lemma_wf_from(book.limit(side, price, quantity, id).book, side);
    }
    assert forall|other: u128| #[trigger]
        book.limit(side, price, quantity, id).book.has(other) implies book.has(other) || other
        == id by {
        if other != id {
            assert(x.book.has(other));
        }
    }
}

/// Cancelling a live order leaves a well-formed book well-formed.
pub proof fn lemma_cancelled_wf(book: BookView, id: u128)
    requires
        book.wf(),
        book.has(id),
    ensures
        book.cancelled(id).wf(),
        !book.cancelled(id).has(id),
{
    let loc = book.registry[id];
    let levels = book.side(loc.side);
    let k = slot(levels, loc.side, loc.price);
    lemma_wf_from(book, loc.side);
    assert(located(levels, loc.side, loc.price, id));
    let j = index_of(levels[k].orders, id);
    lemma_remove_pair(
        levels,
        loc.side,
        book.side(loc.side.opposite()),
        book.registry,
        book.next_sequence,
        k,
        j,
    );
    lemma_wf_from(book.cancelled(id), loc.side);
}

/// The caller of a limit order has what the execution says: the fills, the
/// quantity left, and the id under which the remainder rests.
pub open spec fn limit_done(r: Result<LimitOrderResult, EngineError>, x: Execution) -> bool {
    &&& r matches Ok(done)
    &&& done.fills@ == x.fills
    &&& done.remaining_quantity == x.leftover
    &&& done.resting_order_id == x.resting
}

/// The caller of a market order has what the execution says: the fills,
/// with success where they fill the order, and with `InsufficientLiquidity`
/// and the quantity left where they do not.
pub open spec fn market_done(r: Result<MarketOrderResult, EngineError>, x: Execution) -> bool {
    if x.leftover == 0 {
        &&& r matches Ok(done)
        &&& done.remaining_quantity == 0
        &&& done.fills@ == x.fills
    } else {
        &&& r matches Err(EngineError::InsufficientLiquidity { remaining_quantity, fills })
        &&& remaining_quantity == x.leftover
        &&& fills@ == x.fills
    }
}

/// Whether an incoming order may trade at `price`.
pub fn taker_crosses(taker: Taker, price: i64) -> (r: bool)
    ensures
        r == crosses(taker, price),
{
    match taker.limit {
        None => true,
        Some(limit) => match taker.side {
            Side::Buy => price <= limit,
            Side::Sell => price >= limit,
        },
    }
}

/// Whether the best level of the side crosses for `taker`.
fn crossable(side: &OrderBookSide, taker: Taker) -> (r: bool)
    ensures
        r == (side@.len() > 0 && crosses(taker, side@[0].price)),
{
    match side.best_price() {
        None => false,
        Some(price) => taker_crosses(taker, price),
    }
}

/// Walks `side` for `taker`: trades with the order served first while the
/// best level crosses and something is wanted, and takes every order that
/// is filled entirely out of the side and the registry.
fn cross_side(
    side: &mut OrderBookSide,
    registry: &mut HashMap<u128, Location>,
    taker: Taker,
    quantity: u64,
) -> (r: (Vec<Fill>, u64))
    requires
        old(side).wf(),
    ensures
        final(side).wf(),
        final(side).side_spec() == old(side).side_spec(),
        final(side)@ == match_side(old(side)@, old(registry)@, taker, quantity).levels,
        final(registry)@ == match_side(old(side)@, old(registry)@, taker, quantity).registry,
        r.0@ == match_side(old(side)@, old(registry)@, taker, quantity).fills,
        r.1 == match_side(old(side)@, old(registry)@, taker, quantity).leftover,
{
    let ghost goal = match_side(side@, registry@, taker, quantity);
    let ghost which = side.side_spec();
    let mut fills: Vec<Fill> = Vec::new();
    let mut remaining: u64 = quantity;
    assert(fills@ + goal.fills =~= goal.fills);
    while remaining > 0 && crossable(side, taker)
        invariant
            side.wf(),
            side.side_spec() == which,
            goal.fills == fills@ + match_side(side@, registry@, taker, remaining).fills,
            goal.levels == match_side(side@, registry@, taker, remaining).levels,
            goal.registry == match_side(side@, registry@, taker, remaining).registry,
            goal.leftover == match_side(side@, registry@, taker, remaining).leftover,
        decreases side@.len(), head_count(side@), remaining,
    {
        let ghost before = side@;
        let ghost done = fills@;
        assert(before[0].orders.len() > 0);
        if let (Some(price), Some(head)) = (side.best_price(), side.peek_best()) {
            assert(head.rests_at(which, price));
            if head.remaining_quantity <= remaining {
                side.pop_best();
                registry.remove(&head.id);
                fills.push(
                    Fill {
                        resting_order_id: head.id,
                        incoming_order_id: taker.id,
                        incoming_side: taker.side,
                        price,
                        quantity: head.remaining_quantity,
                        resting_status: OrderStatus::Filled,
                    },
                );
                remaining = remaining - head.remaining_quantity;
                proof {
                    let first = fill_of(taker, head, price, head.remaining_quantity);
                    let rest = match_side(side@, registry@, taker, remaining);
                    assert(done + (seq![first] + rest.fills) =~= done.push(first) + rest.fills);
                }
            } else {
                side.reduce_best(remaining);
                fills.push(
                    Fill {
                        resting_order_id: head.id,
                        incoming_order_id: taker.id,
                        incoming_side: taker.side,
                        price,
                        quantity: remaining,
                        resting_status: OrderStatus::PartiallyFilled,
                    },
                );
                proof {
                    let only = fill_of(taker, head, price, remaining);
                    assert(done + seq![only] =~= done.push(only) + Seq::<Fill>::empty());
                }
                remaining = 0;
            }
        }
    }
    proof {
        assert(fills@ + Seq::<Fill>::empty() =~= fills@);
    }
    (fills, remaining)
}

/// The order book of one symbol.
pub struct OrderBook {
    symbol: String,
    bids: OrderBookSide,
    asks: OrderBookSide,
    registry: HashMap<u128, Location>,
    next_sequence: u64,
}

impl View for OrderBook {
    type V = BookView;

    closed spec fn view(&self) -> BookView {
        BookView {
            bids: self.bids@,
            asks: self.asks@,
            registry: self.registry@,
            next_sequence: self.next_sequence,
        }
    }
}

impl OrderBook {
    /// The symbol that the book is for.
    pub closed spec fn symbol_spec(&self) -> Seq<char> {
        self.symbol@
    }

    /// The two sides are the bids and the asks, and each level keeps its
    /// aggregate in step with its queue.
    pub closed spec fn sides_kept(&self) -> bool {
        &&& self.bids.side_spec() == Side::Buy
        &&& self.asks.side_spec() == Side::Sell
        &&& self.bids.totals_kept()
        &&& self.asks.totals_kept()
    }

    /// The book as every operation finds and leaves it.
    pub open spec fn wf(&self) -> bool {
        &&& self.sides_kept()
        &&& self@.wf()
    }

    /// An empty book for `symbol`.
    pub fn new(symbol: String) -> (r: OrderBook)
        ensures
            r.wf(),
            r@ == BookView::empty(),
            r.symbol_spec() == symbol@,
    {
        let r = OrderBook {
            symbol,
            bids: OrderBookSide::new(Side::Buy),
            asks: OrderBookSide::new(Side::Sell),
            registry: HashMap::new(),
            next_sequence: 0,
        };
        assert(r@.registry =~= Map::<u128, Location>::empty());
        r
    }

    /// The symbol that the book is for.
    pub fn symbol(&self) -> (r: &String)
        ensures
            r@ == self.symbol_spec(),
    {
        &self.symbol
    }

    /// The bid side.
    pub fn bids(&self) -> (r: &OrderBookSide)
        ensures
            r@ == self@.bids,
            self.wf() ==> r.wf() && r.side_spec() == Side::Buy,
    {
        &self.bids
    }

    /// The ask side.
    pub fn asks(&self) -> (r: &OrderBookSide)
        ensures
            r@ == self@.asks,
            self.wf() ==> r.wf() && r.side_spec() == Side::Sell,
    {
        &self.asks
    }

    /// The highest price bid, if there is a bid.
    pub fn best_bid(&self) -> (r: Option<i64>)
        ensures
            self@.bids.len() > 0 ==> r == Some(self@.bids[0].price),
            self@.bids.len() == 0 ==> r.is_none(),
    {
        self.bids.best_price()
    }

    /// The lowest price asked, if there is an ask.
    pub fn best_ask(&self) -> (r: Option<i64>)
        ensures
            self@.asks.len() > 0 ==> r == Some(self@.asks[0].price),
            self@.asks.len() == 0 ==> r.is_none(),
    {
        self.asks.best_price()
    }

    /// The entry stamp that the next resting order gets.
    pub fn next_sequence(&self) -> (r: u64)
        ensures
            r == self@.next_sequence,
    {
        self.next_sequence
    }

    /// Whether a live order has this id.
    pub fn contains(&self, order_id: u128) -> (r: bool)
        ensures
            r == self@.has(order_id),
    {
        self.registry.contains_key(&order_id)
    }

    /// The live order with this id, if there is one.
    pub fn order(&self, order_id: u128) -> (r: Option<Order>)
        requires
            self.wf(),
        ensures
            self@.has(order_id) ==> r == Some(self@.order(order_id)),
            !self@.has(order_id) ==> r.is_none(),
    {
        let loc: Location = match self.registry.get(&order_id) {
            Some(l) => *l,
            None => {
                return None;
            },
        };
        proof {
            lemma_wf_from(self@, loc.side);
            assert(located(self@.side(loc.side), loc.side, loc.price, order_id));
        }
        match loc.side {
            Side::Buy => self.bids.find_order(loc.price, order_id),
            Side::Sell => self.asks.find_order(loc.price, order_id),
        }
    }

    /// Executes a limit order under the id `order_id`.
    ///
    /// The order is refused, and the book left as it was, where the
    /// quantity is zero, the price is not positive, or the id is that of a
    /// live order. Otherwise it crosses as far as its price allows and the
    /// remainder, if any, comes to rest.
    pub fn submit_limit(&mut self, side: Side, price: i64, quantity: u64, order_id: u128) -> (r:
        Result<LimitOrderResult, EngineError>)
        requires
            old(self).wf(),
        ensures
            final(self).wf(),
            final(self).symbol_spec() == old(self).symbol_spec(),
            quantity == 0 ==> (r matches Err(EngineError::InvalidQuantity)) && final(self)@ == old(self)@,
            quantity > 0 && price <= 0 ==> (r matches Err(EngineError::InvalidPrice)) && final(self)@ == old(self)@,
            quantity > 0 && price > 0 && old(self)@.has(order_id) ==> (r matches Err(
                EngineError::DuplicateOrderId,
            )) && final(self)@ == old(self)@,
            quantity > 0 && price > 0 && !old(self)@.has(order_id) ==> limit_done(
                r,
                old(self)@.limit(side, price, quantity, order_id),
            ) && final(self)@ == old(self)@.limit(side, price, quantity, order_id).book,
    {
        if quantity == 0 {
            return Err(EngineError::InvalidQuantity);
        }
        if price <= 0 {
            return Err(EngineError::InvalidPrice);
        }
        if self.registry.contains_key(&order_id) {
            return Err(EngineError::DuplicateOrderId);
        }
        let ghost before = self@;
        let taker = Taker { id: order_id, side, limit: Some(price) };
        proof {
            lemma_wf_from(before, side);
            lemma_wf_from(before, side.opposite());
            lemma_crossed_wf(before, taker, quantity);
            lemma_limit_wf(before, side, price, quantity, order_id);
        }
        let (fills, leftover) = match side {
            Side::Buy => cross_side(&mut self.asks, &mut self.registry, taker, quantity),
            Side::Sell => cross_side(&mut self.bids, &mut self.registry, taker, quantity),
        };
        assert(self@ == before.crossed(taker, quantity).book);
        if leftover == 0 {
            return Ok(LimitOrderResult { resting_order_id: None, remaining_quantity: 0, fills });
        }
        let order = Order::limit(order_id, side, price, quantity, leftover, self.next_sequence);
        proof {
            let x = before.crossed(taker, quantity);
            lemma_wf_from(x.book, side);
            lemma_rest_pair(
                x.book.side(side),
                side,
                x.book.side(side.opposite()),
                x.book.registry,
                x.book.next_sequence,
                price,
                order,
            );
        }
        match side {
            Side::Buy => self.bids.insert_order(order),
            Side::Sell => self.asks.insert_order(order),
        }
        self.registry.insert(order_id, Location { side, price });
        if self.next_sequence < u64::MAX {
            self.next_sequence = self.next_sequence + 1;
        }
        assert(self@ == before.limit(side, price, quantity, order_id).book);
        Ok(LimitOrderResult { resting_order_id: Some(order_id), remaining_quantity: leftover, fills })
    }

    /// Executes a market order under the id `order_id`.
    ///
    /// The order is refused, and the book left as it was, where the
    /// quantity is zero or the id is that of a live order. Otherwise it
    /// trades with whatever the opposing side holds, best price first. If
    /// that does not fill it, the trades stand and the call fails with
    /// `InsufficientLiquidity`, which carries them.
    pub fn submit_market(&mut self, side: Side, quantity: u64, order_id: u128) -> (r: Result<
        MarketOrderResult,
        EngineError,
    >)
        requires
            old(self).wf(),
        ensures
            final(self).wf(),
            final(self).symbol_spec() == old(self).symbol_spec(),
            quantity == 0 ==> (r matches Err(EngineError::InvalidQuantity)) && final(self)@ == old(self)@,
            quantity > 0 && old(self)@.has(order_id) ==> (r matches Err(
                EngineError::DuplicateOrderId,
            )) && final(self)@ == old(self)@,
            quantity > 0 && !old(self)@.has(order_id) ==> market_done(
                r,
                old(self)@.market(side, quantity, order_id),
            ) && final(self)@ == old(self)@.market(side, quantity, order_id).book,
    {
        if quantity == 0 {
            return Err(EngineError::InvalidQuantity);
        }
        if self.registry.contains_key(&order_id) {
            return Err(EngineError::DuplicateOrderId);
        }
        let ghost before = self@;
        let taker = Taker { id: order_id, side, limit: None };
        proof {
            lemma_wf_from(before, side.opposite());
            lemma_crossed_wf(before, taker, quantity);
        }
        let (fills, leftover) = match side {
            Side::Buy => cross_side(&mut self.asks, &mut self.registry, taker, quantity),
            Side::Sell => cross_side(&mut self.bids, &mut self.registry, taker, quantity),
        };
        assert(self@ == before.crossed(taker, quantity).book);
        if leftover == 0 {
            Ok(MarketOrderResult { remaining_quantity: 0, fills })
        } else {
            Err(EngineError::InsufficientLiquidity { remaining_quantity: leftover, fills })
        }
    }

    /// Cancels the live order with this id: takes it out of its level, and
    /// the level out of the side if that empties it. Returns the order as it
    /// was when it left, marked `Cancelled`.
    pub fn cancel(&mut self, order_id: u128) -> (r: Result<Order, EngineError>)
        requires
            old(self).wf(),
        ensures
            final(self).wf(),
            final(self).symbol_spec() == old(self).symbol_spec(),
            !old(self)@.has(order_id) ==> (r matches Err(EngineError::OrderNotFound)) && final(self)@ == old(self)@,
            old(self)@.has(order_id) ==> r == Ok::<Order, EngineError>(
                old(self)@.order(order_id).closed(OrderStatus::Cancelled),
            ) && final(self)@ == old(self)@.cancelled(order_id),
    {
        let loc: Location = match self.registry.get(&order_id) {
            Some(l) => *l,
            None => {
                return Err(EngineError::OrderNotFound);
            },
        };
        let ghost before = self@;
        proof {
            lemma_wf_from(before, loc.side);
            assert(located(before.side(loc.side), loc.side, loc.price, order_id));
            lemma_cancelled_wf(before, order_id);
        }
        let removed = match loc.side {
            Side::Buy => self.bids.remove_order(loc.price, order_id),
            Side::Sell => self.asks.remove_order(loc.price, order_id),
        };
        self.registry.remove(&order_id);
        assert(self@ == before.cancelled(order_id));
        match removed {
            Some(order) => Ok(order.closed(OrderStatus::Cancelled)),
            None => Err(EngineError::OrderNotFound),
        }
    }
}

} // verus!
