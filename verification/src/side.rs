//! One side of a book: its price levels, the best price first.

use crate::level::{
    index_of, lemma_queue_wf_push, lemma_queue_wf_reduce, lemma_queue_wf_remove, level_wf,
    queue_has, total_remaining, LevelView, Limit,
};
use crate::order::{Order, Side};
use vstd::prelude::*;

verus! {

/// Whether price `a` is served before price `b` on a side: the higher bid,
/// the lower ask.
pub open spec fn better(side: Side, a: i64, b: i64) -> bool {
    match side {
        Side::Buy => a > b,
        Side::Sell => a < b,
    }
}

/// Levels of `side`, each with a fit queue, strictly ordered from the best
/// price on. A level may be empty here.
pub open spec fn levels_sorted(levels: Seq<LevelView>, side: Side) -> bool {
    &&& forall|k: int|
        0 <= k < levels.len() ==> (#[trigger] levels[k]).side == side && level_wf(levels[k])
    &&& forall|a: int, b: int|
        0 <= a < b < levels.len() ==> better(
            side,
            (#[trigger] levels[a]).price,
            (#[trigger] levels[b]).price,
        )
}

/// The levels of a side as the book holds them: ordered, and none empty.
pub open spec fn levels_wf(levels: Seq<LevelView>, side: Side) -> bool {
    &&& levels_sorted(levels, side)
    &&& forall|k: int| 0 <= k < levels.len() ==> (#[trigger] levels[k]).orders.len() > 0
}

/// Whether `k` is where a level at `price` stands or would stand: every
/// level before it is better than `price`, the one at it is not.
pub open spec fn is_slot(levels: Seq<LevelView>, side: Side, price: i64, k: int) -> bool {
    &&& 0 <= k <= levels.len()
    &&& forall|i: int| 0 <= i < k ==> better(side, (#[trigger] levels[i]).price, price)
    &&& k < levels.len() ==> !better(side, levels[k].price, price)
}

/// The place where a level at `price` stands or would stand.
pub open spec fn slot(levels: Seq<LevelView>, side: Side, price: i64) -> int {
    choose|k: int| is_slot(levels, side, price, k)
}

/// Whether the side has a level at `price`.
pub open spec fn has_level(levels: Seq<LevelView>, side: Side, price: i64) -> bool {
    let k = slot(levels, side, price);
    0 <= k < levels.len() && levels[k].price == price
}

/// Whether an order with this id rests somewhere on the side.
pub open spec fn side_has(levels: Seq<LevelView>, id: u128) -> bool {
    exists|k: int| 0 <= k < levels.len() && queue_has((#[trigger] levels[k]).orders, id)
}

/// The level with one more order at its tail.
pub open spec fn level_push(level: LevelView, o: Order) -> LevelView {
    LevelView { orders: level.orders.push(o), ..level }
}

/// The side after `o` has come to rest at `price`: at the tail of the level
/// at that price, which is created where there was none.
pub open spec fn rest_order(levels: Seq<LevelView>, side: Side, price: i64, o: Order) -> Seq<
    LevelView,
> {
    let k = slot(levels, side, price);
    if has_level(levels, side, price) {
        levels.update(k, level_push(levels[k], o))
    } else {
        levels.insert(k, LevelView { side, price, orders: seq![o] })
    }
}

/// The side after the order at place `j` of level `k` has left it; a level
/// that this empties goes with it.
pub open spec fn remove_at(levels: Seq<LevelView>, k: int, j: int) -> Seq<LevelView> {
    if levels[k].orders.len() <= 1 {
        levels.remove(k)
    } else {
        levels.update(k, LevelView { orders: levels[k].orders.remove(j), ..levels[k] })
    }
}

/// The side after `quantity` of its first order has traded, something of
/// that order being left.
pub open spec fn reduce_best(levels: Seq<LevelView>, quantity: u64) -> Seq<LevelView> {
    levels.update(
        0,
        LevelView {
            orders: levels[0].orders.update(0, levels[0].orders[0].reduced(quantity)),
            ..levels[0]
        },
    )
}

/// There is one place only where a level at a price can stand.
pub proof fn lemma_slot(levels: Seq<LevelView>, side: Side, price: i64, k: int)
    requires
        is_slot(levels, side, price, k),
    ensures
        slot(levels, side, price) == k,
{
    let c = slot(levels, side, price);
    assert(is_slot(levels, side, price, c));
    if c < k {
        assert(better(side, levels[c].price, price));
    } else if k < c {
        assert(better(side, levels[k].price, price));
    }
}

/// On an ordered side the level at a price stands in the slot of that price.
pub proof fn lemma_slot_of_level(levels: Seq<LevelView>, side: Side, k: int)
    requires
        levels_sorted(levels, side),
        0 <= k < levels.len(),
    ensures
        slot(levels, side, levels[k].price) == k,
        has_level(levels, side, levels[k].price),
{
    let price = levels[k].price;
    assert forall|i: int| 0 <= i < k implies better(side, (#[trigger] levels[i]).price, price) by {
        assert(better(side, levels[i].price, levels[k].price));
    }
    lemma_slot(levels, side, price, k);
}

/// An ordered side stays ordered, with no level empty, when a fitting order
/// comes to rest on it.
pub proof fn lemma_rest_order(levels: Seq<LevelView>, side: Side, price: i64, o: Order)
    requires
        levels_wf(levels, side),
        o.rests_at(side, price),
        !side_has(levels, o.id),
        has_level(levels, side, price) ==> levels[slot(levels, side, price)].orders.last().sequence
            <= o.sequence,
    ensures
        levels_wf(rest_order(levels, side, price, o), side),
{
    let k = slot(levels, side, price);
    lemma_slot_exists(levels, side, price);
    let next = rest_order(levels, side, price, o);
    if has_level(levels, side, price) {
        assert(!queue_has(levels[k].orders, o.id));
        lemma_queue_wf_push(levels[k].orders, side, price, o);
        assert forall|i: int| 0 <= i < next.len() implies (#[trigger] next[i]).side == side
            && level_wf(next[i]) && next[i].orders.len() > 0 && next[i].price
            == levels[i].price by {
            if i != k {
                assert(next[i] == levels[i]);
            }
        }
        assert forall|a: int, b: int| 0 <= a < b < next.len() implies better(
            side,
            (#[trigger] next[a]).price,
            (#[trigger] next[b]).price,
        ) by {
            assert(next[a].price == levels[a].price);
            assert(next[b].price == levels[b].price);
        }
    } else {
        let fresh = LevelView { side, price, orders: seq![o] };
        assert(fresh.orders[0] == o);
        assert(level_wf(fresh));
        lemma_insert_level(levels, side, fresh);
        assert forall|i: int| 0 <= i < next.len() implies (#[trigger] next[i]).orders.len()
            > 0 by {
            if i < k {
                assert(next[i] == levels[i]);
            } else if i > k {
                assert(next[i] == levels[i - 1]);
            }
        }
    }
}

/// Every price has its slot on a side.
pub proof fn lemma_slot_exists(levels: Seq<LevelView>, side: Side, price: i64)
    ensures
        is_slot(levels, side, price, slot(levels, side, price)),
    decreases levels.len(),
{
    if levels.len() == 0 {
        assert(is_slot(levels, side, price, 0));
    } else {
        let front = levels.drop_last();
        lemma_slot_exists(front, side, price);
        let c = slot(front, side, price);
        if c < front.len() {
            assert(front[c] == levels[c]);
            assert forall|i: int| 0 <= i < c implies better(
                side,
                (#[trigger] levels[i]).price,
                price,
            ) by {
                assert(front[i] == levels[i]);
            }
            assert(is_slot(levels, side, price, c));
        } else {
            let k = if better(side, levels.last().price, price) {
                levels.len() as int
            } else {
                levels.len() - 1
            };
            assert forall|i: int| 0 <= i < k implies better(
                side,
                (#[trigger] levels[i]).price,
                price,
            ) by {
                if i < front.len() {
                    assert(front[i] == levels[i]);
                }
            }
            assert(is_slot(levels, side, price, k));
        }
    }
}

/// An ordered side stays ordered, with no level empty, when an order leaves it.
pub proof fn lemma_remove_at(levels: Seq<LevelView>, side: Side, k: int, j: int)
    requires
        levels_wf(levels, side),
        0 <= k < levels.len(),
        0 <= j < levels[k].orders.len(),
    ensures
        levels_wf(remove_at(levels, k, j), side),
{
    let next = remove_at(levels, k, j);
    lemma_queue_wf_remove(levels[k].orders, side, levels[k].price, j);
    if levels[k].orders.len() <= 1 {
        assert forall|i: int| 0 <= i < next.len() implies (#[trigger] next[i]).side == side
            && level_wf(next[i]) && next[i].orders.len() > 0 by {
            let n = if i < k { i } else { i + 1 };
            assert(next[i] == levels[n]);
        }
        assert forall|a: int, b: int| 0 <= a < b < next.len() implies better(
            side,
            (#[trigger] next[a]).price,
            (#[trigger] next[b]).price,
        ) by {
            let na = if a < k { a } else { a + 1 };
            let nb = if b < k { b } else { b + 1 };
            assert(next[a] == levels[na] && next[b] == levels[nb]);
        }
    } else {
        assert forall|i: int| 0 <= i < next.len() implies (#[trigger] next[i]).side == side
            && level_wf(next[i]) && next[i].orders.len() > 0 && next[i].price
            == levels[i].price by {
            if i != k {
                assert(next[i] == levels[i]);
            }
        }
        assert forall|a: int, b: int| 0 <= a < b < next.len() implies better(
            side,
            (#[trigger] next[a]).price,
            (#[trigger] next[b]).price,
        ) by {
            assert(next[a].price == levels[a].price);
            assert(next[b].price == levels[b].price);
        }
    }
}

/// An ordered side stays ordered when part of its first order trades.
pub proof fn lemma_reduce_best(levels: Seq<LevelView>, side: Side, quantity: u64)
    requires
        levels_wf(levels, side),
        levels.len() > 0,
        0 < quantity < levels[0].orders[0].remaining_quantity,
    ensures
        levels_wf(reduce_best(levels, quantity), side),
{
    let next = reduce_best(levels, quantity);
    lemma_queue_wf_reduce(levels[0].orders, side, levels[0].price, quantity);
    assert forall|i: int| 0 <= i < next.len() implies (#[trigger] next[i]).side == side
        && level_wf(next[i]) && next[i].orders.len() > 0 && next[i].price == levels[i].price by {
        if i != 0 {
            assert(next[i] == levels[i]);
        }
    }
    assert forall|a: int, b: int| 0 <= a < b < next.len() implies better(
        side,
        (#[trigger] next[a]).price,
        (#[trigger] next[b]).price,
    ) by {
        assert(next[a].price == levels[a].price);
        assert(next[b].price == levels[b].price);
    }
}

/// An ordered side stays ordered when a level at a price that it lacks is put
/// into the slot of that price.
pub proof fn lemma_insert_level(levels: Seq<LevelView>, side: Side, level: LevelView)
    requires
        levels_sorted(levels, side),
        !has_level(levels, side, level.price),
        level.side == side,
        level_wf(level),
    ensures
        levels_sorted(levels.insert(slot(levels, side, level.price), level), side),
        slot(levels.insert(slot(levels, side, level.price), level), side, level.price) == slot(
            levels,
            side,
            level.price,
        ),
{
    let price = level.price;
    let k = slot(levels, side, price);
    lemma_slot_exists(levels, side, price);
    let next = levels.insert(k, level);
    assert forall|i: int| 0 <= i < next.len() implies (#[trigger] next[i]).side == side
        && level_wf(next[i]) by {
        if i < k {
            assert(next[i] == levels[i]);
        } else if i > k {
            assert(next[i] == levels[i - 1]);
        }
    }
    assert forall|a: int, b: int| 0 <= a < b < next.len() implies better(
        side,
        (#[trigger] next[a]).price,
        (#[trigger] next[b]).price,
    ) by {
        if b < k {
            assert(next[a] == levels[a] && next[b] == levels[b]);
        } else if b == k {
            assert(next[a] == levels[a]);
        } else if a == k {
            assert(next[b] == levels[b - 1]);
            if b - 1 > k {
                assert(better(side, levels[k].price, levels[b - 1].price));
            }
        } else if a < k {
            assert(next[a] == levels[a] && next[b] == levels[b - 1]);
        } else {
            assert(next[a] == levels[a - 1] && next[b] == levels[b - 1]);
        }
    }
    assert(is_slot(next, side, price, k)) by {
        assert forall|i: int| 0 <= i < k implies better(side, (#[trigger] next[i]).price, price) by {
            assert(next[i] == levels[i]);
        }
    }
    lemma_slot(next, side, price, k);
}

/// An ordered side stays ordered when a level is taken out of it.
pub proof fn lemma_remove_level(levels: Seq<LevelView>, side: Side, k: int)
    requires
        levels_sorted(levels, side),
        0 <= k < levels.len(),
    ensures
        levels_sorted(levels.remove(k), side),
{
    let next = levels.remove(k);
    assert forall|i: int| 0 <= i < next.len() implies (#[trigger] next[i]).side == side
        && level_wf(next[i]) by {
        let n = if i < k { i } else { i + 1 };
        assert(next[i] == levels[n]);
    }
    assert forall|a: int, b: int| 0 <= a < b < next.len() implies better(
        side,
        (#[trigger] next[a]).price,
        (#[trigger] next[b]).price,
    ) by {
        let na = if a < k { a } else { a + 1 };
        let nb = if b < k { b } else { b + 1 };
        assert(next[a] == levels[na] && next[b] == levels[nb]);
    }
}

/// Whether price `a` is served before price `b` on `side`.
pub fn is_better(side: Side, a: i64, b: i64) -> (r: bool)
    ensures
        r == better(side, a, b),
{
    match side {
        Side::Buy => a > b,
        Side::Sell => a < b,
    }
}

/// One side of a book: the bids or the asks of a symbol.
pub struct OrderBookSide {
    side: Side,
    levels: Vec<Limit>,
}

impl View for OrderBookSide {
    type V = Seq<LevelView>;

    closed spec fn view(&self) -> Seq<LevelView> {
        Seq::new(self.levels@.len(), |k: int| self.levels@[k]@)
    }
}

impl OrderBookSide {
    /// Which side of the book this is.
    pub closed spec fn side_spec(&self) -> Side {
        self.side
    }

    /// Every level keeps its aggregate in step with its queue.
    pub closed spec fn totals_kept(&self) -> bool {
        forall|k: int| 0 <= k < self.levels@.len() ==> (#[trigger] self.levels@[k]).wf()
    }

    /// The side is ordered; it may hold an empty level, as it does between
    /// `insert_or_get` and the arrival of the order.
    pub open spec fn wf_loose(&self) -> bool {
        &&& self.totals_kept()
        &&& levels_sorted(self@, self.side_spec())
    }

    /// The side as the book holds it: ordered, and no level empty.
    pub open spec fn wf(&self) -> bool {
        &&& self.totals_kept()
        &&& levels_wf(self@, self.side_spec())
    }

    /// An empty side.
    pub fn new(side: Side) -> (r: OrderBookSide)
        ensures
            r.wf(),
            r.side_spec() == side,
            r@ == Seq::<LevelView>::empty(),
    {
        let r = OrderBookSide { side, levels: Vec::new() };
        assert(r@ =~= Seq::<LevelView>::empty());
        r
    }

    /// Which side of the book this is.
    pub fn side(&self) -> (r: Side)
        ensures
            r == self.side_spec(),
    {
        self.side
    }

    /// How many price levels the side has.
    pub fn level_count(&self) -> (r: usize)
        ensures
            r == self@.len(),
    {
        self.levels.len()
    }

    /// Whether nothing rests on the side.
    pub fn is_empty(&self) -> (r: bool)
        ensures
            r == (self@.len() == 0),
    {
        self.levels.len() == 0
    }

    /// The price that is served first, if anything rests on the side.
    pub fn best_price(&self) -> (r: Option<i64>)
        ensures
            self@.len() > 0 ==> r == Some(self@[0].price),
            self@.len() == 0 ==> r.is_none(),
    {
        if self.levels.len() > 0 {
            Some(self.levels[0].price())
        } else {
            None
        }
    }

    /// The order that is served first on the side, if anything rests on it.
    pub fn peek_best(&self) -> (r: Option<Order>)
        ensures
            self@.len() > 0 && self@[0].orders.len() > 0 ==> r == Some(self@[0].orders[0]),
            self@.len() == 0 || self@[0].orders.len() == 0 ==> r.is_none(),
    {
        if self.levels.len() > 0 {
            self.levels[0].peek_front()
        } else {
            None
        }
    }

    /// The level at place `i` counted from the best price, if there is one.
    pub fn level_at(&self, i: usize) -> (r: Option<&Limit>)
        ensures
            i >= self@.len() ==> r.is_none(),
            i < self@.len() ==> r.is_some() && r.unwrap()@ == self@[i as int] && (
            self.totals_kept() ==> r.unwrap().wf()),
    {
        if i < self.levels.len() {
            Some(&self.levels[i])
        } else {
            None
        }
    }

    /// The price and the aggregate remaining quantity of every level, from
    /// the best price on.
    pub fn levels_from_best(&self) -> (r: Vec<(i64, u128)>)
        requires
            self.wf(),
        ensures
            r@.len() == self@.len(),
            forall|k: int|
                0 <= k < r@.len() ==> (#[trigger] r@[k]).0 == self@[k].price && r@[k].1
                    == total_remaining(self@[k].orders),
    {
        let n: usize = self.levels.len();
        let mut out: Vec<(i64, u128)> = Vec::new();
        let mut i: usize = 0;
        while i < n
            invariant
                n == self.levels@.len(),
                0 <= i <= n,
                self.totals_kept(),
                out@.len() == i,
                forall|k: int|
                    0 <= k < i ==> (#[trigger] out@[k]).0 == self@[k].price && out@[k].1
                        == total_remaining(self@[k].orders),
            decreases n - i,
        {
            let level = &self.levels[i];
            assert(self.levels@[i as int].wf());
            out.push((level.price(), level.total_quantity()));
            i = i + 1;
        }
        out
    }

    /// Where the level at `price` stands or would stand, and whether it is there.
    pub fn find_level(&self, price: i64) -> (r: (usize, bool))
        ensures
            r.0 <= self@.len(),
            is_slot(self@, self.side_spec(), price, r.0 as int),
            r.0 == slot(self@, self.side_spec(), price),
            r.1 == has_level(self@, self.side_spec(), price),
    {
        let n: usize = self.levels.len();
        let mut i: usize = 0;
        while i < n && is_better(self.side, self.levels[i].price(), price)
            invariant
                n == self.levels@.len(),
                0 <= i <= n,
                forall|j: int| 0 <= j < i ==> better(self.side, (#[trigger] self@[j]).price, price),
            decreases n - i,
        {
            i = i + 1;
        }
        proof {
            assert(is_slot(self@, self.side, price, i as int));
            lemma_slot(self@, self.side, price, i as int);
        }
        let found = i < n && self.levels[i].price() == price;
        (i, found)
    }

    /// The place of the level at `price`; an empty level is created there
    /// where the side had none.
    pub fn insert_or_get(&mut self, price: i64) -> (k: usize)
        requires
            old(self).wf_loose(),
        ensures
            final(self).wf_loose(),
            final(self).side_spec() == old(self).side_spec(),
            k == slot(old(self)@, old(self).side_spec(), price),
            k <= old(self)@.len(),
            has_level(old(self)@, old(self).side_spec(), price) ==> final(self)@ == old(self)@,
            !has_level(old(self)@, old(self).side_spec(), price) ==> final(self)@ == old(
                self,
            )@.insert(
                k as int,
                LevelView { side: old(self).side_spec(), price, orders: Seq::<Order>::empty() },
            ),
            k < final(self)@.len(),
            final(self)@[k as int].price == price,
    {
        let (k, found) = self.find_level(price);
        if !found {
            let level = Limit::new(self.side, price);
            proof {
                lemma_insert_level(self@, self.side, level@);
            }
            self.levels.insert(k, level);
            proof {
                assert(self@ =~= old(self)@.insert(k as int, level@));
            }
        }
        k
    }

    /// Deletes the level at `price` if no order is left at it.
    pub fn remove_if_empty(&mut self, price: i64)
        requires
            old(self).wf_loose(),
        ensures
            final(self).wf_loose(),
            final(self).side_spec() == old(self).side_spec(),
            ({
                let k = slot(old(self)@, old(self).side_spec(), price);
                if has_level(old(self)@, old(self).side_spec(), price) && old(
                    self,
                )@[k].orders.len() == 0 {
                    final(self)@ == old(self)@.remove(k)
                } else {
                    final(self)@ == old(self)@
                }
            }),
    {
        let (k, found) = self.find_level(price);
        if found && self.levels[k].is_empty() {
            proof {
                lemma_remove_level(self@, self.side, k as int);
            }
            self.levels.remove(k);
            proof {
                assert(self@ =~= old(self)@.remove(k as int));
            }
        }
    }

    /// Brings `order` to rest: at the tail of the level at its limit price,
    /// which is created where the side had none.
    pub fn insert_order(&mut self, order: Order)
        requires
            old(self).wf(),
            order.limit_price.is_some(),
            order.rests_at(old(self).side_spec(), order.limit_price.unwrap()),
            !side_has(old(self)@, order.id),
            has_level(old(self)@, old(self).side_spec(), order.limit_price.unwrap()) ==> old(
                self,
            )@[slot(
                old(self)@,
                old(self).side_spec(),
                order.limit_price.unwrap(),
            )].orders.last().sequence <= order.sequence,
        ensures
            final(self).wf(),
            final(self).side_spec() == old(self).side_spec(),
            final(self)@ == rest_order(
                old(self)@,
                old(self).side_spec(),
                order.limit_price.unwrap(),
                order,
            ),
    {
        if let Some(price) = order.limit_price {
            let ghost before = self@;
            let ghost had = has_level(before, self.side, price);
            let k = self.insert_or_get(price);
            let ghost mid = self@;
            proof {
                if had {
                    assert(mid == before);
                    assert(!queue_has(before[k as int].orders, order.id));
                } else {
                    assert(mid[k as int].orders.len() == 0);
                }
                assert(self.levels@[k as int]@ == mid[k as int]);
                assert(!queue_has(mid[k as int].orders, order.id));
                lemma_rest_order(before, self.side, price, order);
            }
            self.levels[k].enqueue(order);
            proof {
                assert(self@ =~= mid.update(k as int, level_push(mid[k as int], order)));
                if !had {
                    assert(Seq::<Order>::empty().push(order) =~= seq![order]);
                }
                assert(self@ =~= rest_order(before, self.side, price, order));
            }
        }
    }

    /// Takes out the order that is served first on the side; a level that
    /// this empties goes with it.
    pub fn pop_best(&mut self) -> (r: Option<Order>)
        requires
            old(self).wf(),
        ensures
            final(self).wf(),
            final(self).side_spec() == old(self).side_spec(),
            old(self)@.len() == 0 ==> r.is_none() && final(self)@ == old(self)@,
            old(self)@.len() > 0 ==> r == Some(old(self)@[0].orders[0]) && final(self)@
                == remove_at(old(self)@, 0, 0),
    {
        if self.levels.len() == 0 {
            return None;
        }
        let ghost before = self@;
        let price: i64 = self.levels[0].price();
        proof {
            assert(before[0].orders.len() > 0);
            lemma_remove_at(before, self.side, 0, 0);
            lemma_slot_of_level(before, self.side, 0);
        }
        let r = self.levels[0].pop_front();
        proof {
            let mid = before.update(
                0,
                LevelView { orders: before[0].orders.remove(0), ..before[0] },
            );
            assert(self@ =~= mid);
            lemma_queue_wf_remove(before[0].orders, self.side, price, 0);
            assert(levels_sorted(mid, self.side)) by {
                assert forall|i: int| 0 <= i < mid.len() implies (#[trigger] mid[i]).side
                    == self.side && level_wf(mid[i]) && mid[i].price == before[i].price by {
                    if i != 0 {
                        assert(mid[i] == before[i]);
                    }
                }
                assert forall|a: int, b: int| 0 <= a < b < mid.len() implies better(
                    self.side,
                    (#[trigger] mid[a]).price,
                    (#[trigger] mid[b]).price,
                ) by {
                    assert(mid[a].price == before[a].price);
                    assert(mid[b].price == before[b].price);
                }
            }
            lemma_slot_of_level(mid, self.side, 0);
        }
        self.remove_if_empty(price);
        proof {
            assert(self@ =~= remove_at(before, 0, 0));
        }
        r
    }

    /// Records that `quantity` of the order served first has traded,
    /// something of it being left.
    pub fn reduce_best(&mut self, quantity: u64)
        requires
            old(self).wf(),
            old(self)@.len() > 0,
            0 < quantity < old(self)@[0].orders[0].remaining_quantity,
        ensures
            final(self).wf(),
            final(self).side_spec() == old(self).side_spec(),
            final(self)@ == reduce_best(old(self)@, quantity),
    {
        let ghost before = self@;
        proof {
            assert(before[0].orders.len() > 0);
            lemma_reduce_best(before, self.side, quantity);
        }
        self.levels[0].reduce_front(quantity);
        proof {
            assert(self@ =~= reduce_best(before, quantity));
        }
    }

    /// The order with this id at `price`, if it rests there.
    pub fn find_order(&self, price: i64, order_id: u128) -> (r: Option<Order>)
        requires
            self.wf(),
        ensures
            ({
                let k = slot(self@, self.side_spec(), price);
                if has_level(self@, self.side_spec(), price) && queue_has(
                    self@[k].orders,
                    order_id,
                ) {
                    r == Some(self@[k].orders[index_of(self@[k].orders, order_id)])
                } else {
                    r.is_none()
                }
            }),
    {
        let (k, found) = self.find_level(price);
        if !found {
            return None;
        }
        let level = &self.levels[k];
        assert(level@ == self@[k as int]);
        let n: usize = level.len();
        let mut j: usize = 0;
        while j < n
            invariant
                n == level@.orders.len(),
                0 <= j <= n,
                level_wf(level@),
                level@ == self@[k as int],
                k == slot(self@, self.side_spec(), price),
                has_level(self@, self.side_spec(), price),
                forall|i: int| 0 <= i < j ==> (#[trigger] level@.orders[i]).id != order_id,
            decreases n - j,
        {
            match level.order_at(j) {
                Some(o) => {
                    if o.id == order_id {
                        proof {
                            crate::level::lemma_index_of(level@.orders, order_id, j as int);
                        }
                        return Some(o);
                    }
                },
                None => {},
            }
            j = j + 1;
        }
        None
    }

    /// Takes the order with this id out of the level at `price`; a level
    /// that this empties goes with it.
    pub fn remove_order(&mut self, price: i64, order_id: u128) -> (r: Option<Order>)
        requires
            old(self).wf(),
        ensures
            final(self).wf(),
            final(self).side_spec() == old(self).side_spec(),
            ({
                let k = slot(old(self)@, old(self).side_spec(), price);
                if has_level(old(self)@, old(self).side_spec(), price) && queue_has(
                    old(self)@[k].orders,
                    order_id,
                ) {
                    let j = index_of(old(self)@[k].orders, order_id);
                    r == Some(old(self)@[k].orders[j]) && final(self)@ == remove_at(
                        old(self)@,
                        k,
                        j,
                    )
                } else {
                    r.is_none() && final(self)@ == old(self)@
                }
            }),
    {
        let ghost before = self@;
        let (k, found) = self.find_level(price);
        if !found {
            return None;
        }
        assert(self.levels@[k as int]@ == before[k as int]);
        let r = self.levels[k].remove(order_id);
        match r {
            Some(o) => {
                proof {
                    let j = index_of(before[k as int].orders, order_id);
                    assert(0 <= j < before[k as int].orders.len());
                    lemma_remove_at(before, self.side, k as int, j);
                    let mid = before.update(
                        k as int,
                        LevelView { orders: before[k as int].orders.remove(j), ..before[k as int] },
                    );
                    assert(self@ =~= mid);
                    lemma_queue_wf_remove(before[k as int].orders, self.side, price, j);
                    assert(levels_sorted(mid, self.side)) by {
                        assert forall|i: int| 0 <= i < mid.len() implies (#[trigger] mid[i]).side
                            == self.side && level_wf(mid[i]) && mid[i].price
                            == before[i].price by {
                            if i != k {
                                assert(mid[i] == before[i]);
                            }
                        }
                        assert forall|a: int, b: int| 0 <= a < b < mid.len() implies better(
                            self.side,
                            (#[trigger] mid[a]).price,
                            (#[trigger] mid[b]).price,
                        ) by {
                            assert(mid[a].price == before[a].price);
                            assert(mid[b].price == before[b].price);
                        }
                    }
                    lemma_slot_of_level(mid, self.side, k as int);
                }
                self.remove_if_empty(price);
                proof {
                    let j = index_of(before[k as int].orders, order_id);
                    assert(self@ =~= remove_at(before, k as int, j));
                }
                Some(o)
            },
            None => {
                proof {
                    assert(self@ =~= before);
                }
                None
            },
        }
    }
}

} // verus!
