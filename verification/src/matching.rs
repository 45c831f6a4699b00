//! The crossing walk as mathematics: which fills an incoming order produces
//! against a side, what the side and the registry look like afterwards, and
//! why a well-formed book stays well-formed.

use crate::level::{
    lemma_queue_wf_push, lemma_queue_wf_reduce, lemma_queue_wf_remove, lemma_total_remove,
    lemma_total_single, lemma_total_update, queue_has, total_remaining, LevelView,
};
use crate::order::{
    filled_quantity, lemma_filled_quantity_concat, Fill, Location, Order, OrderStatus, Side, Taker,
};
use crate::side::{
    has_level, is_slot, lemma_reduce_best, lemma_remove_at, lemma_rest_order, lemma_slot,
    lemma_slot_exists, lemma_slot_of_level, level_push, levels_wf, reduce_best, remove_at,
    rest_order, side_has, slot,
};
use vstd::prelude::*;

verus! {

/// Whether an incoming order may trade at `price`: a buy limit at or below
/// its bound, a sell limit at or above it, a market order anywhere.
pub open spec fn crosses(taker: Taker, price: i64) -> bool {
    match taker.limit {
        None => true,
        Some(limit) => match taker.side {
            Side::Buy => price <= limit,
            Side::Sell => price >= limit,
        },
    }
}

/// The trade of `quantity` between the incoming order and `resting`, at the
/// price of the level where `resting` waits.
pub open spec fn fill_of(taker: Taker, resting: Order, price: i64, quantity: u64) -> Fill {
    Fill {
        resting_order_id: resting.id,
        incoming_order_id: taker.id,
        incoming_side: taker.side,
        price,
        quantity,
        resting_status: if quantity == resting.remaining_quantity {
            OrderStatus::Filled
        } else {
            OrderStatus::PartiallyFilled
        },
    }
}

/// Every order on the side is in the registry, under its own side and price.
pub open spec fn registered(levels: Seq<LevelView>, registry: Map<u128, Location>) -> bool {
    forall|k: int, j: int|
        0 <= k < levels.len() && 0 <= j < levels[k].orders.len() ==> registry.contains_key(
            (#[trigger] levels[k].orders[j]).id,
        ) && registry[levels[k].orders[j].id] == (Location {
            side: levels[k].side,
            price: levels[k].price,
        })
}

/// The order with this id rests on the side, in the level at `price`.
pub open spec fn located(levels: Seq<LevelView>, side: Side, price: i64, id: u128) -> bool {
    has_level(levels, side, price) && queue_has(levels[slot(levels, side, price)].orders, id)
}

/// No order on the side carries an entry stamp beyond `next`.
pub open spec fn stamped(levels: Seq<LevelView>, next: u64) -> bool {
    forall|k: int, j: int|
        0 <= k < levels.len() && 0 <= j < levels[k].orders.len() ==> (
        #[trigger] levels[k].orders[j]).sequence <= next
}

/// The two sides of a book and its registry fit together: both sides are
/// ordered with no empty level, the registry knows every resting order under
/// its side and price, and it knows no other id.
pub open spec fn pair_wf(
    mine: Seq<LevelView>,
    side: Side,
    other: Seq<LevelView>,
    registry: Map<u128, Location>,
    next: u64,
) -> bool {
    &&& levels_wf(mine, side)
    &&& levels_wf(other, side.opposite())
    &&& registered(mine, registry)
    &&& registered(other, registry)
    &&& forall|id: u128| #[trigger]
        registry.contains_key(id) ==> located(
            if registry[id].side == side {
                mine
            } else {
                other
            },
            registry[id].side,
            registry[id].price,
            id,
        )
    &&& stamped(mine, next)
    &&& stamped(other, next)
}

/// It does not matter from which side one looks at the book.
pub proof fn lemma_pair_swap(
    mine: Seq<LevelView>,
    side: Side,
    other: Seq<LevelView>,
    registry: Map<u128, Location>,
    next: u64,
)
    requires
        pair_wf(mine, side, other, registry, next),
    ensures
        pair_wf(other, side.opposite(), mine, registry, next),
{
    assert forall|id: u128| #[trigger] registry.contains_key(id) implies located(
        if registry[id].side == side.opposite() {
            other
        } else {
            mine
        },
        registry[id].side,
        registry[id].price,
        id,
    ) by {
        assert(located(
            if registry[id].side == side {
                mine
            } else {
                other
            },
            registry[id].side,
            registry[id].price,
            id,
        ));
    }
}

/// An order that rests on a side of a well-formed book is found where the
/// registry says, and nowhere else.
pub proof fn lemma_registered_place(
    mine: Seq<LevelView>,
    side: Side,
    other: Seq<LevelView>,
    registry: Map<u128, Location>,
    next: u64,
    k: int,
    j: int,
)
    requires
        pair_wf(mine, side, other, registry, next),
        0 <= k < mine.len(),
        0 <= j < mine[k].orders.len(),
    ensures
        registry.contains_key(mine[k].orders[j].id),
        registry[mine[k].orders[j].id] == (Location { side, price: mine[k].price }),
        !side_has(other, mine[k].orders[j].id),
        forall|n: int, m: int|
            0 <= n < mine.len() && 0 <= m < mine[n].orders.len() && (n != k || m != j) ==> (
            #[trigger] mine[n].orders[m]).id != mine[k].orders[j].id,
{
    let id = mine[k].orders[j].id;
    assert(mine[k].side == side);
    if side_has(other, id) {
        let n = choose|n: int| 0 <= n < other.len() && queue_has((#[trigger] other[n]).orders, id);
        let m = choose|m: int|
            0 <= m < other[n].orders.len() && (#[trigger] other[n].orders[m]).id == id;
        assert(registry[other[n].orders[m].id].side == other[n].side);
        assert(other[n].side == side.opposite());
    }
    assert forall|n: int, m: int|
        0 <= n < mine.len() && 0 <= m < mine[n].orders.len() && (n != k || m != j) implies (
    #[trigger] mine[n].orders[m]).id != id by {
        if mine[n].orders[m].id == id {
            assert(registry[mine[n].orders[m].id].price == mine[n].price);
            if n < k {
                assert(crate::side::better(side, mine[n].price, mine[k].price));
            } else if k < n {
                assert(crate::side::better(side, mine[k].price, mine[n].price));
            } else {
                if m < j {
                    assert(mine[k].orders[m].id != mine[k].orders[j].id);
                } else {
                    assert(mine[k].orders[j].id != mine[k].orders[m].id);
                }
            }
        }
    }
}

/// The orders that stay on a side stay registered when one order leaves it
/// and the registry forgets that order's id.
proof fn lemma_remove_registered(
    mine: Seq<LevelView>,
    registry: Map<u128, Location>,
    next: u64,
    k: int,
    j: int,
)
    requires
        registered(mine, registry),
        stamped(mine, next),
        0 <= k < mine.len(),
        0 <= j < mine[k].orders.len(),
        forall|n: int, m: int|
            0 <= n < mine.len() && 0 <= m < mine[n].orders.len() && (n != k || m != j) ==> (
            #[trigger] mine[n].orders[m]).id != mine[k].orders[j].id,
    ensures
        registered(remove_at(mine, k, j), registry.remove(mine[k].orders[j].id)),
        stamped(remove_at(mine, k, j), next),
{
    let gone = mine[k].orders[j].id;
    let after = remove_at(mine, k, j);
    let reg = registry.remove(gone);
    let dropped = mine[k].orders.len() <= 1;
    assert forall|n: int, m: int|
        0 <= n < after.len() && 0 <= m < after[n].orders.len() implies reg.contains_key(
        (#[trigger] after[n].orders[m]).id,
    ) && reg[after[n].orders[m].id] == (Location { side: after[n].side, price: after[n].price })
        && after[n].orders[m].sequence <= next by {
        if dropped {
            let n0 = if n < k { n } else { n + 1 };
            assert(after[n] == mine[n0]);
            assert(mine[n0].orders[m].id != gone);
            assert(registry.contains_key(mine[n0].orders[m].id));
            assert(mine[n0].orders[m].sequence <= next);
        } else if n != k {
            assert(after[n] == mine[n]);
            assert(mine[n].orders[m].id != gone);
            assert(registry.contains_key(mine[n].orders[m].id));
            assert(mine[n].orders[m].sequence <= next);
        } else {
            let m0 = if m < j { m } else { m + 1 };
            assert(after[k].orders[m] == mine[k].orders[m0]);
            assert(mine[k].orders[m0].id != gone);
            assert(registry.contains_key(mine[k].orders[m0].id));
            assert(mine[k].orders[m0].sequence <= next);
        }
    }
}

/// A side stays registered when the registry forgets an id that does not
/// rest on it.
proof fn lemma_forget_registered(other: Seq<LevelView>, registry: Map<u128, Location>, gone: u128)
    requires
        registered(other, registry),
        !side_has(other, gone),
    ensures
        registered(other, registry.remove(gone)),
{
    let reg = registry.remove(gone);
    assert forall|n: int, m: int|
        0 <= n < other.len() && 0 <= m < other[n].orders.len() implies reg.contains_key(
        (#[trigger] other[n].orders[m]).id,
    ) && reg[other[n].orders[m].id] == (Location { side: other[n].side, price: other[n].price }) by {
        assert(registry.contains_key(other[n].orders[m].id));
        if other[n].orders[m].id == gone {
            assert(queue_has(other[n].orders, gone));
            assert(side_has(other, gone));
        }
    }
}

/// An order that stays on a side is still found at its price when another
/// order leaves the side.
proof fn lemma_remove_located(
    mine: Seq<LevelView>,
    side: Side,
    k: int,
    j: int,
    price: i64,
    id: u128,
)
    requires
        levels_wf(mine, side),
        0 <= k < mine.len(),
        0 <= j < mine[k].orders.len(),
        located(mine, side, price, id),
        id != mine[k].orders[j].id,
    ensures
        located(remove_at(mine, k, j), side, price, id),
{
    let after = remove_at(mine, k, j);
    let dropped = mine[k].orders.len() <= 1;
    let n = slot(mine, side, price);
    lemma_remove_at(mine, side, k, j);
    if n != k {
        let n1 = if dropped && n > k { n - 1 } else { n };
        assert(after[n1] == mine[n]);
        lemma_slot_of_level(after, side, n1);
    } else {
        let m = choose|m: int|
            0 <= m < mine[k].orders.len() && (#[trigger] mine[k].orders[m]).id == id;
        assert(m != j);
        assert(!dropped);
        lemma_queue_wf_remove(mine[k].orders, side, mine[k].price, j);
        lemma_slot_of_level(mine, side, k);
        lemma_slot_of_level(after, side, k);
        assert(queue_has(after[k].orders, id));
    }
}

/// A well-formed book stays well-formed when an order leaves it and the
/// registry forgets the order's id.
pub proof fn lemma_remove_pair(
    mine: Seq<LevelView>,
    side: Side,
    other: Seq<LevelView>,
    registry: Map<u128, Location>,
    next: u64,
    k: int,
    j: int,
)
    requires
        pair_wf(mine, side, other, registry, next),
        0 <= k < mine.len(),
        0 <= j < mine[k].orders.len(),
    ensures
        pair_wf(
            remove_at(mine, k, j),
            side,
            other,
            registry.remove(mine[k].orders[j].id),
            next,
        ),
{
    let gone = mine[k].orders[j].id;
    let after = remove_at(mine, k, j);
    let reg = registry.remove(gone);
    lemma_remove_at(mine, side, k, j);
    lemma_registered_place(mine, side, other, registry, next, k, j);
    lemma_remove_registered(mine, registry, next, k, j);
    lemma_forget_registered(other, registry, gone);
    assert forall|id: u128| #[trigger] reg.contains_key(id) implies located(
        if reg[id].side == side {
            after
        } else {
            other
        },
        reg[id].side,
        reg[id].price,
        id,
    ) by {
        assert(registry.contains_key(id) && id != gone);
        if registry[id].side == side {
            lemma_remove_located(mine, side, k, j, registry[id].price, id);
        }
    }
}

/// A well-formed book stays well-formed when part of the order served first
/// on a side trades.
pub proof fn lemma_reduce_pair(
    mine: Seq<LevelView>,
    side: Side,
    other: Seq<LevelView>,
    registry: Map<u128, Location>,
    next: u64,
    quantity: u64,
)
    requires
        pair_wf(mine, side, other, registry, next),
        mine.len() > 0,
        0 < quantity < mine[0].orders[0].remaining_quantity,
    ensures
        pair_wf(reduce_best(mine, quantity), side, other, registry, next),
{
    let after = reduce_best(mine, quantity);
    assert(mine[0].orders.len() > 0);
    lemma_reduce_best(mine, side, quantity);
    lemma_queue_wf_reduce(mine[0].orders, side, mine[0].price, quantity);
    assert forall|n: int, m: int|
        0 <= n < after.len() && 0 <= m < after[n].orders.len() implies registry.contains_key(
        (#[trigger] after[n].orders[m]).id,
    ) && registry[after[n].orders[m].id] == (Location {
        side: after[n].side,
        price: after[n].price,
    }) && after[n].orders[m].sequence <= next by {
        if n != 0 {
            assert(after[n] == mine[n]);
            assert(registry.contains_key(mine[n].orders[m].id));
            assert(mine[n].orders[m].sequence <= next);
        } else {
            assert(after[0].orders[m].id == mine[0].orders[m].id);
            assert(after[0].orders[m].sequence == mine[0].orders[m].sequence);
            assert(registry.contains_key(mine[0].orders[m].id));
            assert(mine[0].orders[m].sequence <= next);
        }
    }
    assert forall|id: u128| #[trigger] registry.contains_key(id) implies located(
        if registry[id].side == side {
            after
        } else {
            other
        },
        registry[id].side,
        registry[id].price,
        id,
    ) by {
        let loc = registry[id];
        if loc.side == side {
            let n = slot(mine, side, loc.price);
            assert(located(mine, side, loc.price, id));
            assert(after[n].price == mine[n].price);
            lemma_slot_of_level(mine, side, n);
            lemma_slot_of_level(after, side, n);
            if n != 0 {
                assert(after[n] == mine[n]);
            }
        }
    }
}

/// The entry stamp that follows `sequence`; it stops at the largest one.
pub open spec fn next_stamp(sequence: u64) -> u64 {
    if sequence < u64::MAX {
        (sequence + 1) as u64
    } else {
        sequence
    }
}

/// A well-formed book stays well-formed when a new order with an unused id
/// and the current entry stamp comes to rest on it.
pub proof fn lemma_rest_pair(
    mine: Seq<LevelView>,
    side: Side,
    other: Seq<LevelView>,
    registry: Map<u128, Location>,
    next: u64,
    price: i64,
    o: Order,
)
    requires
        pair_wf(mine, side, other, registry, next),
        o.rests_at(side, price),
        o.sequence == next,
        !registry.contains_key(o.id),
    ensures
        !side_has(mine, o.id),
        has_level(mine, side, price) ==> mine[slot(mine, side, price)].orders.last().sequence
            <= o.sequence,
        pair_wf(
            rest_order(mine, side, price, o),
            side,
            other,
            registry.insert(o.id, Location { side, price }),
            next_stamp(next),
        ),
{
    let after = rest_order(mine, side, price, o);
    let reg = registry.insert(o.id, Location { side, price });
    let k = slot(mine, side, price);
    lemma_slot_exists(mine, side, price);
    if side_has(mine, o.id) {
        let n = choose|n: int| 0 <= n < mine.len() && queue_has((#[trigger] mine[n]).orders, o.id);
        let m = choose|m: int|
            0 <= m < mine[n].orders.len() && (#[trigger] mine[n].orders[m]).id == o.id;
        assert(registry.contains_key(mine[n].orders[m].id));
    }
    if has_level(mine, side, price) {
        let last = mine[k].orders.len() - 1;
        assert(mine[k].orders.len() > 0);
        assert(mine[k].orders[last].sequence <= next);
    }
    lemma_rest_order(mine, side, price, o);
    let had = has_level(mine, side, price);
    assert forall|n: int, m: int|
        0 <= n < after.len() && 0 <= m < after[n].orders.len() implies reg.contains_key(
        (#[trigger] after[n].orders[m]).id,
    ) && reg[after[n].orders[m].id] == (Location { side: after[n].side, price: after[n].price })
        && after[n].orders[m].sequence <= next_stamp(next) by {
        if had {
            if n != k {
                assert(after[n] == mine[n]);
                assert(registry.contains_key(mine[n].orders[m].id));
                assert(mine[n].orders[m].sequence <= next);
            } else if m < mine[k].orders.len() {
                assert(after[k].orders[m] == mine[k].orders[m]);
                assert(registry.contains_key(mine[k].orders[m].id));
                assert(mine[k].orders[m].sequence <= next);
            } else {
                assert(after[k].orders[m] == o);
                assert(mine[k].side == side);
            }
        } else {
            if n < k {
                assert(after[n] == mine[n]);
                assert(registry.contains_key(mine[n].orders[m].id));
                assert(mine[n].orders[m].sequence <= next);
            } else if n > k {
                assert(after[n] == mine[n - 1]);
                assert(registry.contains_key(mine[n - 1].orders[m].id));
                assert(mine[n - 1].orders[m].sequence <= next);
            } else {
                assert(after[k].orders[m] == o);
            }
        }
    }
    assert forall|n: int, m: int|
        0 <= n < other.len() && 0 <= m < other[n].orders.len() implies reg.contains_key(
        (#[trigger] other[n].orders[m]).id,
    ) && reg[other[n].orders[m].id] == (Location { side: other[n].side, price: other[n].price })
        && other[n].orders[m].sequence <= next_stamp(next) by {
        assert(registry.contains_key(other[n].orders[m].id));
        assert(other[n].orders[m].sequence <= next);
    }
    assert forall|id: u128| #[trigger] reg.contains_key(id) implies located(
        if reg[id].side == side {
            after
        } else {
            other
        },
        reg[id].side,
        reg[id].price,
        id,
    ) by {
        if id == o.id {
            assert(slot(after, side, price) == k) by {
                if had {
                    assert(is_slot(after, side, price, k)) by {
                        assert forall|i: int| 0 <= i < k implies crate::side::better(
                            side,
                            (#[trigger] after[i]).price,
                            price,
                        ) by {
                            assert(after[i] == mine[i]);
                        }
                    }
                } else {
                    assert(is_slot(after, side, price, k)) by {
                        assert forall|i: int| 0 <= i < k implies crate::side::better(
                            side,
                            (#[trigger] after[i]).price,
                            price,
                        ) by {
                            assert(after[i] == mine[i]);
                        }
                    }
                }
                lemma_slot(after, side, price, k);
            }
            let last = after[k].orders.len() - 1;
            assert(after[k].orders[last] == o);
            assert(queue_has(after[k].orders, id));
        } else {
            assert(registry.contains_key(id));
            let loc = registry[id];
            if loc.side == side {
                let n = slot(mine, side, loc.price);
                assert(located(mine, side, loc.price, id));
                lemma_slot_of_level(mine, side, n);
                if had {
                    assert(after[n].price == mine[n].price);
                    lemma_slot_of_level(after, side, n);
                    if n != k {
                        assert(after[n] == mine[n]);
                    } else {
                        lemma_queue_wf_push(mine[k].orders, side, price, o);
                        assert(!queue_has(mine[k].orders, o.id));
                    }
                } else {
                    let n1 = if n < k { n } else { n + 1 };
                    assert(after[n1] == mine[n]);
                    lemma_slot_of_level(after, side, n1);
                }
            }
        }
    }
}

/// What rests on a side in all: the sum of what its orders have left.
pub open spec fn side_total(levels: Seq<LevelView>) -> nat
    decreases levels.len(),
{
    if levels.len() == 0 {
        0
    } else {
        side_total(levels.drop_last()) + total_remaining(levels.last().orders)
    }
}

/// The total of a side is the total of its two parts.
pub proof fn lemma_side_total_concat(a: Seq<LevelView>, b: Seq<LevelView>)
    ensures
        side_total(a + b) == side_total(a) + side_total(b),
    decreases b.len(),
{
    if b.len() == 0 {
        assert(a + b =~= a);
    } else {
        assert((a + b).drop_last() =~= a + b.drop_last());
        lemma_side_total_concat(a, b.drop_last());
    }
}

/// The total of a side of one level is the total of that level.
pub proof fn lemma_side_total_single(level: LevelView)
    ensures
        side_total(seq![level]) == total_remaining(level.orders),
{
    assert(seq![level].drop_last() =~= Seq::<LevelView>::empty());
    assert(side_total(Seq::<LevelView>::empty()) == 0);
}

/// Replacing a level changes the total of the side by the difference of the
/// two levels' totals.
pub proof fn lemma_side_total_update(levels: Seq<LevelView>, k: int, level: LevelView)
    requires
        0 <= k < levels.len(),
    ensures
        side_total(levels.update(k, level)) + total_remaining(levels[k].orders) == side_total(
            levels,
        ) + total_remaining(level.orders),
{
    let front = levels.take(k);
    let back = levels.skip(k + 1);
    assert(levels.update(k, level) =~= front + (seq![level] + back));
    assert(levels =~= front + (seq![levels[k]] + back));
    lemma_side_total_concat(seq![level], back);
    lemma_side_total_concat(front, seq![level] + back);
    lemma_side_total_concat(seq![levels[k]], back);
    lemma_side_total_concat(front, seq![levels[k]] + back);
    lemma_side_total_single(levels[k]);
    lemma_side_total_single(level);
}

/// Taking a level out lowers the total of the side by the level's total.
pub proof fn lemma_side_total_remove(levels: Seq<LevelView>, k: int)
    requires
        0 <= k < levels.len(),
    ensures
        side_total(levels.remove(k)) + total_remaining(levels[k].orders) == side_total(levels),
{
    let front = levels.take(k);
    let back = levels.skip(k + 1);
    assert(levels.remove(k) =~= front + back);
    assert(levels =~= front + (seq![levels[k]] + back));
    lemma_side_total_concat(front, back);
    lemma_side_total_concat(seq![levels[k]], back);
    lemma_side_total_concat(front, seq![levels[k]] + back);
    lemma_side_total_single(levels[k]);
}

/// Putting a level in raises the total of the side by the level's total.
pub proof fn lemma_side_total_insert(levels: Seq<LevelView>, k: int, level: LevelView)
    requires
        0 <= k <= levels.len(),
    ensures
        side_total(levels.insert(k, level)) == side_total(levels) + total_remaining(level.orders),
{
    let front = levels.take(k);
    let back = levels.skip(k);
    assert(levels.insert(k, level) =~= front + (seq![level] + back));
    assert(levels =~= front + back);
    lemma_side_total_concat(front, back);
    lemma_side_total_concat(seq![level], back);
    lemma_side_total_concat(front, seq![level] + back);
    lemma_side_total_single(level);
}

/// When an order leaves a side, the side's total falls by what it had left.
pub proof fn lemma_side_total_remove_at(levels: Seq<LevelView>, k: int, j: int)
    requires
        0 <= k < levels.len(),
        0 <= j < levels[k].orders.len(),
    ensures
        side_total(remove_at(levels, k, j)) + levels[k].orders[j].remaining_quantity == side_total(
            levels,
        ),
{
    if levels[k].orders.len() <= 1 {
        assert(levels[k].orders =~= seq![levels[k].orders[j]]);
        lemma_total_single(levels[k].orders[j]);
        lemma_side_total_remove(levels, k);
    } else {
        lemma_total_remove(levels[k].orders, j);
        lemma_side_total_update(
            levels,
            k,
            LevelView { orders: levels[k].orders.remove(j), ..levels[k] },
        );
    }
}

/// When part of the first order of a side trades, the side's total falls by
/// that part.
pub proof fn lemma_side_total_reduce(levels: Seq<LevelView>, quantity: u64)
    requires
        levels.len() > 0,
        levels[0].orders.len() > 0,
        quantity <= levels[0].orders[0].remaining_quantity,
    ensures
        side_total(reduce_best(levels, quantity)) + quantity == side_total(levels),
{
    let head = levels[0].orders[0];
    lemma_total_update(levels[0].orders, 0, head.reduced(quantity));
    lemma_side_total_update(
        levels,
        0,
        LevelView { orders: levels[0].orders.update(0, head.reduced(quantity)), ..levels[0] },
    );
}

/// When an order comes to rest on a side, the side's total rises by what the
/// order has left.
pub proof fn lemma_side_total_rest(levels: Seq<LevelView>, side: Side, price: i64, o: Order)
    ensures
        side_total(rest_order(levels, side, price, o)) == side_total(levels)
            + o.remaining_quantity,
{
    let k = slot(levels, side, price);
    lemma_slot_exists(levels, side, price);
    if has_level(levels, side, price) {
        assert(levels[k].orders.push(o).drop_last() =~= levels[k].orders);
        lemma_side_total_update(levels, k, level_push(levels[k], o));
    } else {
        lemma_total_single(o);
        lemma_side_total_insert(levels, k, LevelView { side, price, orders: seq![o] });
    }
}

/// The outcome of a crossing walk.
pub struct Matched {
    /// The trades, in the order in which they were made.
    pub fills: Seq<Fill>,
    /// The side that was walked, as the walk leaves it.
    pub levels: Seq<LevelView>,
    /// The registry without the orders that the walk filled entirely.
    pub registry: Map<u128, Location>,
    /// What the incoming order still wants.
    pub leftover: u64,
}

/// How many orders wait at the best level of a side.
pub open spec fn head_count(levels: Seq<LevelView>) -> nat {
    if levels.len() > 0 {
        levels[0].orders.len()
    } else {
        0
    }
}

/// The crossing walk of an incoming order that wants `quantity` against the
/// opposing side `levels`.
///
/// While the order wants something and the best level crosses, it trades
/// with the order served first there, for the smaller of the two
/// quantities, at the level's price. A resting order that is filled
/// entirely leaves the side and the registry, and its level with it where
/// it was the last one there.
pub open spec fn match_side(
    levels: Seq<LevelView>,
    registry: Map<u128, Location>,
    taker: Taker,
    quantity: u64,
) -> Matched
    decreases levels.len(), head_count(levels),
{
    if quantity == 0 || levels.len() == 0 || levels[0].orders.len() == 0 || !crosses(
        taker,
        levels[0].price,
    ) {
        Matched { fills: Seq::empty(), levels, registry, leftover: quantity }
    } else {
        let head = levels[0].orders[0];
        if head.remaining_quantity <= quantity {
            let rest = match_side(
                remove_at(levels, 0, 0),
                registry.remove(head.id),
                taker,
                (quantity - head.remaining_quantity) as u64,
            );
            Matched {
                fills: seq![fill_of(taker, head, levels[0].price, head.remaining_quantity)]
                    + rest.fills,
                ..rest
            }
        } else {
            Matched {
                fills: seq![fill_of(taker, head, levels[0].price, quantity)],
                levels: reduce_best(levels, quantity),
                registry,
                leftover: 0,
            }
        }
    }
}

/// Whether one of the fills was made against the order with this id.
pub open spec fn fills_touch(fills: Seq<Fill>, id: u128) -> bool {
    exists|n: int| 0 <= n < fills.len() && (#[trigger] fills[n]).resting_order_id == id
}

/// The quantity of one fill.
pub proof fn lemma_filled_quantity_single(f: Fill)
    ensures
        filled_quantity(seq![f]) == f.quantity,
{
    assert(seq![f].drop_last() =~= Seq::<Fill>::empty());
    assert(filled_quantity(Seq::<Fill>::empty()) == 0);
}

/// A crossing walk moves quantity, it makes and loses none: what the fills
/// carry is what the incoming order no longer wants, and what the side no
/// longer holds.
pub proof fn lemma_match_conserves(
    levels: Seq<LevelView>,
    registry: Map<u128, Location>,
    taker: Taker,
    quantity: u64,
)
    ensures
        match_side(levels, registry, taker, quantity).leftover + filled_quantity(
            match_side(levels, registry, taker, quantity).fills,
        ) == quantity,
        side_total(match_side(levels, registry, taker, quantity).levels) + filled_quantity(
            match_side(levels, registry, taker, quantity).fills,
        ) == side_total(levels),
    decreases levels.len(), head_count(levels),
{
    if quantity == 0 || levels.len() == 0 || levels[0].orders.len() == 0 || !crosses(
        taker,
        levels[0].price,
    ) {
        assert(filled_quantity(Seq::<Fill>::empty()) == 0);
    } else {
        let head = levels[0].orders[0];
        if head.remaining_quantity <= quantity {
            let left = (quantity - head.remaining_quantity) as u64;
            let rest = match_side(remove_at(levels, 0, 0), registry.remove(head.id), taker, left);
            let first = fill_of(taker, head, levels[0].price, head.remaining_quantity);
            lemma_match_conserves(remove_at(levels, 0, 0), registry.remove(head.id), taker, left);
            lemma_side_total_remove_at(levels, 0, 0);
            lemma_filled_quantity_concat(seq![first], rest.fills);
            lemma_filled_quantity_single(first);
        } else {
            lemma_side_total_reduce(levels, quantity);
            lemma_filled_quantity_single(fill_of(taker, head, levels[0].price, quantity));
        }
    }
}

/// What a crossing walk does to a well-formed book.
///
/// The book stays well-formed. The registry only loses ids, all of them of
/// the side that was walked. The walk stops short of the wanted quantity
/// only where the side is exhausted or its best price no longer crosses.
/// Every fill is made for the incoming order, for a positive quantity, at a
/// price that crosses, and that price is the one at which the registry had
/// the resting order. Every fill but the last takes all that its resting
/// order had left.
pub proof fn lemma_match_side(
    mine: Seq<LevelView>,
    side: Side,
    other: Seq<LevelView>,
    registry: Map<u128, Location>,
    next: u64,
    taker: Taker,
    quantity: u64,
)
    requires
        pair_wf(mine, side, other, registry, next),
    ensures
        ({
            let m = match_side(mine, registry, taker, quantity);
            &&& pair_wf(m.levels, side, other, m.registry, next)
            &&& m.leftover <= quantity
            &&& forall|id: u128| #[trigger]
                m.registry.contains_key(id) ==> registry.contains_key(id) && m.registry[id]
                    == registry[id]
            &&& forall|id: u128|
                registry.contains_key(id) && registry[id].side != side
                    ==> #[trigger] m.registry.contains_key(id)
            &&& m.leftover > 0 ==> m.levels.len() == 0 || !crosses(taker, m.levels[0].price)
            &&& forall|n: int|
                0 <= n < m.fills.len() ==> {
                    let f = #[trigger] m.fills[n];
                    &&& f.incoming_order_id == taker.id
                    &&& f.incoming_side == taker.side
                    &&& f.quantity > 0
                    &&& crosses(taker, f.price)
                    &&& registry.contains_key(f.resting_order_id)
                    &&& registry[f.resting_order_id] == (Location { side, price: f.price })
                }
            &&& forall|n: int|
                0 <= n < m.fills.len() - 1 ==> !m.registry.contains_key(
                    (#[trigger] m.fills[n]).resting_order_id,
                )
        }),
    decreases mine.len(), head_count(mine),
{
    let m = match_side(mine, registry, taker, quantity);
    if quantity == 0 || mine.len() == 0 || mine[0].orders.len() == 0 || !crosses(
        taker,
        mine[0].price,
    ) {
    } else {
        let head = mine[0].orders[0];
        let price = mine[0].price;
        lemma_registered_place(mine, side, other, registry, next, 0, 0);
        assert(head.rests_at(side, price));
        if head.remaining_quantity <= quantity {
            let left = (quantity - head.remaining_quantity) as u64;
            let after = remove_at(mine, 0, 0);
            let reg = registry.remove(head.id);
            let rest = match_side(after, reg, taker, left);
            let first = fill_of(taker, head, price, head.remaining_quantity);
            lemma_remove_pair(mine, side, other, registry, next, 0, 0);
            lemma_match_side(after, side, other, reg, next, taker, left);
            assert(m.fills =~= seq![first] + rest.fills);
            assert forall|n: int| 0 <= n < m.fills.len() implies {
                let f = #[trigger] m.fills[n];
                &&& f.incoming_order_id == taker.id
                &&& f.incoming_side == taker.side
                &&& f.quantity > 0
                &&& crosses(taker, f.price)
                &&& registry.contains_key(f.resting_order_id)
                &&& registry[f.resting_order_id] == (Location { side, price: f.price })
            } by {
                if n > 0 {
                    assert(m.fills[n] == rest.fills[n - 1]);
                    assert(reg.contains_key(rest.fills[n - 1].resting_order_id));
                }
            }
            assert forall|n: int| 0 <= n < m.fills.len() - 1 implies !m.registry.contains_key(
                (#[trigger] m.fills[n]).resting_order_id,
            ) by {
                if n > 0 {
                    assert(m.fills[n] == rest.fills[n - 1]);
                } else {
                    if rest.registry.contains_key(head.id) {
                        assert(reg.contains_key(head.id));
                    }
                }
            }
            assert forall|id: u128|
                registry.contains_key(id) && registry[id].side
                    != side implies #[trigger] m.registry.contains_key(id) by {
                assert(reg.contains_key(id));
            }
        } else {
            lemma_reduce_pair(mine, side, other, registry, next, quantity);
            assert(m.fills[0] == fill_of(taker, head, price, quantity));
        }
    }
}

/// Where the order at place `j` of level `k` stands once the order served
/// first on the side has left.
pub open spec fn shifted(levels: Seq<LevelView>, k: int, j: int) -> (int, int) {
    if levels[0].orders.len() <= 1 {
        (k - 1, j)
    } else if k == 0 {
        (0int, j - 1)
    } else {
        (k, j)
    }
}

/// The orders behind the first one keep their order when the first leaves.
pub proof fn lemma_shifted(levels: Seq<LevelView>, k: int, j: int)
    requires
        levels.len() > 0,
        levels[0].orders.len() > 0,
        0 <= k < levels.len(),
        0 <= j < levels[k].orders.len(),
        k != 0 || j != 0,
    ensures
        ({
            let (a, b) = shifted(levels, k, j);
            let after = remove_at(levels, 0, 0);
            &&& 0 <= a < after.len()
            &&& 0 <= b < after[a].orders.len()
            &&& after[a].orders[b] == levels[k].orders[j]
        }),
{
    let after = remove_at(levels, 0, 0);
    if levels[0].orders.len() <= 1 {
        assert(after[k - 1] == levels[k]);
    } else if k == 0 {
        assert(after[0].orders[j - 1] == levels[0].orders[j]);
    } else {
        assert(after[k] == levels[k]);
    }
}

/// The registry half of price-time priority: if the walk trades with the
/// order that stands behind, the registry has lost the one ahead of it.
pub proof fn lemma_priority_registry(
    mine: Seq<LevelView>,
    side: Side,
    other: Seq<LevelView>,
    registry: Map<u128, Location>,
    next: u64,
    taker: Taker,
    quantity: u64,
    k1: int,
    j1: int,
    k2: int,
    j2: int,
)
    requires
        pair_wf(mine, side, other, registry, next),
        0 <= k1 < mine.len(),
        0 <= j1 < mine[k1].orders.len(),
        0 <= k2 < mine.len(),
        0 <= j2 < mine[k2].orders.len(),
        k1 < k2 || (k1 == k2 && j1 < j2),
        fills_touch(match_side(mine, registry, taker, quantity).fills, mine[k2].orders[j2].id),
    ensures
        !match_side(mine, registry, taker, quantity).registry.contains_key(mine[k1].orders[j1].id),
    decreases mine.len(), head_count(mine),
{
    let m = match_side(mine, registry, taker, quantity);
    let first_id = mine[k1].orders[j1].id;
    let second_id = mine[k2].orders[j2].id;
    let n = choose|n: int|
        0 <= n < m.fills.len() && (#[trigger] m.fills[n]).resting_order_id == second_id;
    assert(mine[0].orders.len() > 0);
    let head = mine[0].orders[0];
    assert(second_id != head.id) by {
        lemma_registered_place(mine, side, other, registry, next, 0, 0);
        assert(mine[k2].orders[j2].id != mine[0].orders[0].id);
    }
    if quantity == 0 || !crosses(taker, mine[0].price) {
        assert(m.fills.len() == 0);
    } else if head.remaining_quantity <= quantity {
        let left = (quantity - head.remaining_quantity) as u64;
        let after = remove_at(mine, 0, 0);
        let reg = registry.remove(head.id);
        let rest = match_side(after, reg, taker, left);
        let first = fill_of(taker, head, mine[0].price, head.remaining_quantity);
        assert(m.fills == seq![first] + rest.fills);
        assert(m.registry == rest.registry);
        assert(n > 0);
        assert(m.fills[n] == rest.fills[n - 1]);
        assert(fills_touch(rest.fills, second_id));
        assert(pair_wf(after, side, other, reg, next)) by {
            lemma_remove_pair(mine, side, other, registry, next, 0, 0);
        }
        if k1 == 0 && j1 == 0 {
            assert(!rest.registry.contains_key(head.id)) by {
                lemma_match_side(after, side, other, reg, next, taker, left);
                if rest.registry.contains_key(head.id) {
                    assert(reg.contains_key(head.id));
                }
            }
        } else {
            let (a1, b1) = shifted(mine, k1, j1);
            let (a2, b2) = shifted(mine, k2, j2);
            lemma_shifted(mine, k1, j1);
            lemma_shifted(mine, k2, j2);
            lemma_priority_registry(after, side, other, reg, next, taker, left, a1, b1, a2, b2);
        }
    } else {
        assert(m.fills[n].resting_order_id == head.id);
    }
}

/// Price-time priority. Take two orders resting on the side that an
/// incoming order walks, the first of them ahead of the second: at a better
/// price, or at the same price and earlier in the queue. If the walk trades
/// with the second at all, it has filled the first entirely, and the first
/// is gone from the registry and from the side.
pub proof fn lemma_priority(
    mine: Seq<LevelView>,
    side: Side,
    other: Seq<LevelView>,
    registry: Map<u128, Location>,
    next: u64,
    taker: Taker,
    quantity: u64,
    k1: int,
    j1: int,
    k2: int,
    j2: int,
)
    requires
        pair_wf(mine, side, other, registry, next),
        0 <= k1 < mine.len(),
        0 <= j1 < mine[k1].orders.len(),
        0 <= k2 < mine.len(),
        0 <= j2 < mine[k2].orders.len(),
        k1 < k2 || (k1 == k2 && j1 < j2),
        fills_touch(match_side(mine, registry, taker, quantity).fills, mine[k2].orders[j2].id),
    ensures
        !match_side(mine, registry, taker, quantity).registry.contains_key(mine[k1].orders[j1].id),
        !side_has(match_side(mine, registry, taker, quantity).levels, mine[k1].orders[j1].id),
{
    let m = match_side(mine, registry, taker, quantity);
    let first_id = mine[k1].orders[j1].id;
    lemma_priority_registry(mine, side, other, registry, next, taker, quantity, k1, j1, k2, j2);
    assert(registered(m.levels, m.registry)) by {
        lemma_match_side(mine, side, other, registry, next, taker, quantity);
    }
    if side_has(m.levels, first_id) {
        let a = choose|a: int|
            0 <= a < m.levels.len() && queue_has((#[trigger] m.levels[a]).orders, first_id);
        let b = choose|b: int|
            0 <= b < m.levels[a].orders.len() && (#[trigger] m.levels[a].orders[b]).id == first_id;
        assert(m.registry.contains_key(m.levels[a].orders[b].id));
    }
}

} // verus!
