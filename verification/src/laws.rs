//! What holds of the book whatever is done to it: quantity is conserved,
//! orders are served by price and then by time, trades are priced by the
//! resting order, no level is ever empty, and a cancelled order is gone.

use crate::book::{
    lemma_cancelled_wf, lemma_crossed_wf, lemma_limit_wf, lemma_wf_from, BookView,
};
use crate::engine::EngineView;
use crate::level::{index_of, LevelView};
use crate::matching::{
    crosses, fills_touch, lemma_match_conserves, lemma_match_side, lemma_priority,
    lemma_side_total_remove_at, lemma_side_total_rest, located, side_total,
};
use crate::order::{filled_quantity, EngineError, Location, Order, Side, Taker};
use crate::side::slot;
use vstd::prelude::*;

verus! {

/// One call on a book.
pub enum Op {
    Limit { side: Side, price: i64, quantity: u64, id: u128 },
    Market { side: Side, quantity: u64, id: u128 },
    Cancel { id: u128 },
}

/// The running sums of a book's history.
pub struct Ledger {
    /// The original quantities of all accepted orders.
    pub accepted: int,
    /// The quantities of all fills.
    pub filled: int,
    /// What the cancelled orders had left when they were cancelled.
    pub cancelled: int,
    /// What market orders wanted beyond what the book could give.
    pub unfilled: int,
}

/// Whether the book refuses the call and stays as it is.
pub open spec fn refused(book: BookView, op: Op) -> bool {
    match op {
        Op::Limit { side, price, quantity, id } => quantity == 0 || price <= 0 || book.has(id),
        Op::Market { side, quantity, id } => quantity == 0 || book.has(id),
        Op::Cancel { id } => !book.has(id),
    }
}

/// The book after the call.
pub open spec fn apply(book: BookView, op: Op) -> BookView {
    if refused(book, op) {
        book
    } else {
        match op {
            Op::Limit { side, price, quantity, id } => book.limit(side, price, quantity, id).book,
            Op::Market { side, quantity, id } => book.market(side, quantity, id).book,
            Op::Cancel { id } => book.cancelled(id),
        }
    }
}

/// The sums after the call.
pub open spec fn record(book: BookView, op: Op, ledger: Ledger) -> Ledger {
    if refused(book, op) {
        ledger
    } else {
        match op {
            Op::Limit { side, price, quantity, id } => Ledger {
                accepted: ledger.accepted + quantity,
                filled: ledger.filled + filled_quantity(
                    book.limit(side, price, quantity, id).fills,
                ),
                ..ledger
            },
            Op::Market { side, quantity, id } => Ledger {
                accepted: ledger.accepted + quantity,
                filled: ledger.filled + filled_quantity(book.market(side, quantity, id).fills),
                unfilled: ledger.unfilled + book.market(side, quantity, id).leftover,
                ..ledger
            },
            Op::Cancel { id } => Ledger {
                cancelled: ledger.cancelled + book.order(id).remaining_quantity,
                ..ledger
            },
        }
    }
}

/// A book with its history.
pub struct Trace {
    pub book: BookView,
    pub ledger: Ledger,
}

/// The book and the sums after a run of calls on an empty book.
pub open spec fn run(ops: Seq<Op>) -> Trace
    decreases ops.len(),
{
    if ops.len() == 0 {
        Trace {
            book: BookView::empty(),
            ledger: Ledger { accepted: 0, filled: 0, cancelled: 0, unfilled: 0 },
        }
    } else {
        let before = run(ops.drop_last());
        Trace {
            book: apply(before.book, ops.last()),
            ledger: record(before.book, ops.last(), before.ledger),
        }
    }
}

/// The empty book is well-formed.
pub proof fn lemma_empty_wf()
    ensures
        BookView::empty().wf(),
{
}

/// No call breaks a well-formed book.
pub proof fn lemma_apply_wf(book: BookView, op: Op)
    requires
        book.wf(),
    ensures
        apply(book, op).wf(),
{
    if !refused(book, op) {
        match op {
            Op::Limit { side, price, quantity, id } => {
                lemma_limit_wf(book, side, price, quantity, id);
            },
            Op::Market { side, quantity, id } => {
                lemma_crossed_wf(book, Taker { id, side, limit: None }, quantity);
            },
            Op::Cancel { id } => {
                lemma_cancelled_wf(book, id);
            },
        }
    }
}

/// Whatever is done to a book, it is well-formed at every instant.
pub proof fn lemma_run_wf(ops: Seq<Op>)
    ensures
        run(ops).book.wf(),
    decreases ops.len(),
{
    if ops.len() > 0 {
        lemma_run_wf(ops.drop_last());
        lemma_apply_wf(run(ops.drop_last()).book, ops.last());
    }
}

/// In a well-formed book no level is empty, and every resting order has
/// something left, and no more than it was submitted with.
pub proof fn lemma_no_empty_level(book: BookView, side: Side, k: int)
    requires
        book.wf(),
        0 <= k < book.side(side).len(),
    ensures
        book.side(side)[k].orders.len() > 0,
        forall|j: int|
            0 <= j < book.side(side)[k].orders.len() ==> 0 < (
            #[trigger] book.side(side)[k].orders[j]).remaining_quantity
                <= book.side(side)[k].orders[j].original_quantity,
{
    lemma_wf_from(book, side);
    let level = book.side(side)[k];
    assert forall|j: int| 0 <= j < level.orders.len() implies 0 < (
    #[trigger] level.orders[j]).remaining_quantity <= level.orders[j].original_quantity by {
        assert(level.orders[j].rests_at(side, level.price));
    }
}

/// The live order that the registry knows under `id` is found where the
/// registry says, and it is a limit order at the price of its level.
pub proof fn lemma_order_found(book: BookView, id: u128)
    requires
        book.wf(),
        book.has(id),
    ensures
        ({
            let loc = book.registry[id];
            let levels = book.side(loc.side);
            let k = slot(levels, loc.side, loc.price);
            let j = index_of(levels[k].orders, id);
            &&& 0 <= k < levels.len()
            &&& 0 <= j < levels[k].orders.len()
            &&& levels[k].price == loc.price
            &&& book.order(id) == levels[k].orders[j]
            &&& book.order(id).id == id
            &&& book.order(id).rests_at(loc.side, loc.price)
        }),
{
    let loc = book.registry[id];
    lemma_wf_from(book, loc.side);
    let levels = book.side(loc.side);
    assert(located(levels, loc.side, loc.price, id));
    let k = slot(levels, loc.side, loc.price);
    let j = index_of(levels[k].orders, id);
    assert(levels[k].orders[j].rests_at(loc.side, levels[k].price));
}

/// One call keeps the books balanced: what rests afterwards, plus twice
/// what the call filled (each fill takes its quantity from two orders),
/// plus what it cancelled, plus what a market order wanted in vain, is what
/// rested before plus what the call brought in.
pub proof fn lemma_apply_conserves(book: BookView, op: Op, ledger: Ledger)
    requires
        book.wf(),
    ensures
        apply(book, op).total() + 2 * record(book, op, ledger).filled + record(
            book,
            op,
            ledger,
        ).cancelled + record(book, op, ledger).unfilled + ledger.accepted == book.total() + 2
            * ledger.filled + ledger.cancelled + ledger.unfilled + record(
            book,
            op,
            ledger,
        ).accepted,
{
    if !refused(book, op) {
        match op {
            Op::Limit { side, price, quantity, id } => {
                let taker = Taker { id, side, limit: Some(price) };
                let x = book.crossed(taker, quantity);
                lemma_match_conserves(
                    book.side(side.opposite()),
                    book.registry,
                    taker,
                    quantity,
                );
                if x.leftover > 0 {
                    let o = Order::limit_spec(
                        id,
                        side,
                        price,
                        quantity,
                        x.leftover,
                        book.next_sequence,
                    );
                    lemma_side_total_rest(x.book.side(side), side, price, o);
                }
            },
            Op::Market { side, quantity, id } => {
                let taker = Taker { id, side, limit: None };
                lemma_match_conserves(
                    book.side(side.opposite()),
                    book.registry,
                    taker,
                    quantity,
                );
            },
            Op::Cancel { id } => {
                lemma_order_found(book, id);
                let loc = book.registry[id];
                let levels = book.side(loc.side);
                let k = slot(levels, loc.side, loc.price);
                let j = index_of(levels[k].orders, id);
                lemma_side_total_remove_at(levels, k, j);
            },
        }
    }
}

/// Conservation. Whatever is done to a book, at every instant: what rests
/// in it, plus twice the quantity of all fills, plus what cancelled orders
/// had left, plus what market orders wanted in vain, is the sum of the
/// original quantities of all accepted orders.
pub proof fn lemma_conservation(ops: Seq<Op>)
    ensures
        run(ops).book.total() + 2 * run(ops).ledger.filled + run(ops).ledger.cancelled + run(
            ops,
        ).ledger.unfilled == run(ops).ledger.accepted,
    decreases ops.len(),
{
    if ops.len() == 0 {
        assert(side_total(Seq::<LevelView>::empty()) == 0);
    } else {
        let before = run(ops.drop_last());
        lemma_conservation(ops.drop_last());
        lemma_run_wf(ops.drop_last());
        lemma_apply_conserves(before.book, ops.last(), before.ledger);
    }
}

/// Conservation while nothing has traded: as long as no fill was made and
/// no market order went short, what rests in the book plus the fills plus
/// what cancelled orders had left is the sum of the original quantities of
/// all accepted orders.
pub proof fn lemma_conservation_before_trades(ops: Seq<Op>)
    requires
        run(ops).ledger.filled == 0,
        run(ops).ledger.unfilled == 0,
    ensures
        run(ops).book.total() + run(ops).ledger.filled + run(ops).ledger.cancelled == run(
            ops,
        ).ledger.accepted,
{
    lemma_conservation(ops);
}

/// Price-time priority. Of two orders resting on the side that an incoming
/// order walks, let the first be ahead of the second: at a better price, or
/// at the same price and earlier in its queue. If the walk trades with the
/// second at all, the first has been filled entirely and is no longer live.
pub proof fn lemma_price_time_priority(
    book: BookView,
    taker: Taker,
    quantity: u64,
    k1: int,
    j1: int,
    k2: int,
    j2: int,
)
    requires
        book.wf(),
        0 <= k1 < book.side(taker.side.opposite()).len(),
        0 <= j1 < book.side(taker.side.opposite())[k1].orders.len(),
        0 <= k2 < book.side(taker.side.opposite()).len(),
        0 <= j2 < book.side(taker.side.opposite())[k2].orders.len(),
        k1 < k2 || (k1 == k2 && j1 < j2),
        fills_touch(
            book.crossed(taker, quantity).fills,
            book.side(taker.side.opposite())[k2].orders[j2].id,
        ),
    ensures
        !book.crossed(taker, quantity).book.has(
            book.side(taker.side.opposite())[k1].orders[j1].id,
        ),
{
    let against = taker.side.opposite();
    lemma_wf_from(book, against);
    lemma_priority(
        book.side(against),
        against,
        book.side(taker.side),
        book.registry,
        book.next_sequence,
        taker,
        quantity,
        k1,
        j1,
        k2,
        j2,
    );
}

/// Time priority by entry stamp. Of two orders resting at the same price on
/// the side that an incoming order walks, let the first carry the smaller
/// entry stamp. If the walk trades with the second at all, the first has
/// been filled entirely and is no longer live.
pub proof fn lemma_time_priority(
    book: BookView,
    taker: Taker,
    quantity: u64,
    k: int,
    j1: int,
    j2: int,
)
    requires
        book.wf(),
        0 <= k < book.side(taker.side.opposite()).len(),
        0 <= j1 < book.side(taker.side.opposite())[k].orders.len(),
        0 <= j2 < book.side(taker.side.opposite())[k].orders.len(),
        book.side(taker.side.opposite())[k].orders[j1].sequence < book.side(
            taker.side.opposite(),
        )[k].orders[j2].sequence,
        fills_touch(
            book.crossed(taker, quantity).fills,
            book.side(taker.side.opposite())[k].orders[j2].id,
        ),
    ensures
        !book.crossed(taker, quantity).book.has(book.side(taker.side.opposite())[k].orders[j1].id),
{
    let against = taker.side.opposite();
    lemma_wf_from(book, against);
    let orders = book.side(against)[k].orders;
    if j2 < j1 {
        assert(orders[j2].sequence <= orders[j1].sequence);
    }
    lemma_price_time_priority(book, taker, quantity, k, j1, k, j2);
}

/// Crossing correctness. Every fill of a crossing walk is made at the limit
/// price of the resting order, which is the price of the level where that
/// order waited on the opposing side, and at a price that the incoming
/// order accepts: a buy limit never pays more than its bound, a sell limit
/// never takes less.
pub proof fn lemma_crossing_correct(book: BookView, taker: Taker, quantity: u64, n: int)
    requires
        book.wf(),
        0 <= n < book.crossed(taker, quantity).fills.len(),
    ensures
        ({
            let f = book.crossed(taker, quantity).fills[n];
            &&& book.has(f.resting_order_id)
            &&& book.registry[f.resting_order_id] == (Location {
                side: taker.side.opposite(),
                price: f.price,
            })
            &&& book.order(f.resting_order_id).limit_price == Some(f.price)
            &&& crosses(taker, f.price)
            &&& taker.side == Side::Buy && taker.limit.is_some() ==> f.price <= taker.limit.unwrap()
            &&& taker.side == Side::Sell && taker.limit.is_some() ==> f.price
                >= taker.limit.unwrap()
            &&& f.incoming_order_id == taker.id
            &&& 0 < f.quantity
        }),
{
    let against = taker.side.opposite();
    lemma_wf_from(book, against);
    lemma_match_side(
        book.side(against),
        against,
        book.side(taker.side),
        book.registry,
        book.next_sequence,
        taker,
        quantity,
    );
    let f = book.crossed(taker, quantity).fills[n];
    lemma_order_found(book, f.resting_order_id);
}

/// A crossing walk stops short of what the incoming order wants only where
/// the opposing side is exhausted or its best price does not cross; and
/// every fill but the last takes all that its resting order had left.
pub proof fn lemma_walk_is_greedy(book: BookView, taker: Taker, quantity: u64)
    requires
        book.wf(),
    ensures
        ({
            let x = book.crossed(taker, quantity);
            let left = x.book.side(taker.side.opposite());
            &&& x.leftover > 0 ==> left.len() == 0 || !crosses(taker, left[0].price)
            &&& forall|n: int|
                0 <= n < x.fills.len() - 1 ==> !x.book.has((#[trigger] x.fills[n]).resting_order_id)
        }),
{
    let against = taker.side.opposite();
    lemma_wf_from(book, against);
    lemma_match_side(
        book.side(against),
        against,
        book.side(taker.side),
        book.registry,
        book.next_sequence,
        taker,
        quantity,
    );
}

/// A cancelled order is gone: after the cancellation no live order has its
/// id, so a second cancellation finds nothing.
pub proof fn lemma_cancelled_is_gone(book: BookView, id: u128)
    requires
        book.wf(),
        book.has(id),
    ensures
        book.cancelled(id).wf(),
        !book.cancelled(id).has(id),
        refused(book.cancelled(id), Op::Cancel { id }),
{
    lemma_cancelled_wf(book, id);
}

/// Cancelling is not idempotent. Of two calls of `cancel_order` with the id
/// of a live order, one after the other, the first succeeds and the second
/// fails with `OrderNotFound` and changes nothing.
pub proof fn lemma_cancel_twice(
    engine: EngineView,
    id: u128,
    between: EngineView,
    first: Result<(), EngineError>,
    after: EngineView,
    second: Result<(), EngineError>,
)
    requires
        engine.wf(),
        engine.live(id),
        engine.cancel_outcome(id, between, first),
        between.cancel_outcome(id, after, second),
    ensures
        first is Ok,
        second matches Err(EngineError::OrderNotFound),
        after == between,
{
    let i = engine.holder(id);
    assert(engine.books[i].has(id));
    lemma_cancelled_wf(engine.books[i], id);
    if between.live(id) {
        let j = between.holder(id);
        assert(between.books[j].has(id));
        if j != i {
            assert(between.books[j] == engine.books[j]);
            assert(!engine.books[j].has(id));
        }
    }
}

} // verus!
