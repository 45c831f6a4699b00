//! A price level: the orders resting at one exact price, first come first
//! served, with their aggregate remaining quantity.

use crate::order::{Order, Side};
use std::collections::VecDeque;
use vstd::prelude::*;

verus! {

/// The mathematical content of a price level.
pub struct LevelView {
    pub side: Side,
    pub price: i64,
    /// The resting orders, the one that arrived first at index 0.
    pub orders: Seq<Order>,
}

/// The sum of the remaining quantities of a queue of orders.
pub open spec fn total_remaining(orders: Seq<Order>) -> nat
    decreases orders.len(),
{
    if orders.len() == 0 {
        0
    } else {
        total_remaining(orders.drop_last()) + orders.last().remaining_quantity as nat
    }
}

/// Whether an order with this id waits in the queue.
pub open spec fn queue_has(orders: Seq<Order>, id: u128) -> bool {
    exists|j: int| 0 <= j < orders.len() && (#[trigger] orders[j]).id == id
}

/// The place in the queue of the order with this id, where there is one.
pub open spec fn index_of(orders: Seq<Order>, id: u128) -> int {
    choose|j: int| 0 <= j < orders.len() && (#[trigger] orders[j]).id == id
}

/// A queue of orders that may rest together on `side` at `price`: each is a
/// live limit order at that price, no id occurs twice, and the entry stamps
/// never decrease from front to back.
pub open spec fn queue_wf(orders: Seq<Order>, side: Side, price: i64) -> bool {
    &&& forall|j: int| 0 <= j < orders.len() ==> (#[trigger] orders[j]).rests_at(side, price)
    &&& forall|i: int, j: int|
        0 <= i < j < orders.len() ==> (#[trigger] orders[i]).id != (#[trigger] orders[j]).id
    &&& forall|i: int, j: int|
        0 <= i < j < orders.len() ==> (#[trigger] orders[i]).sequence <= (
        #[trigger] orders[j]).sequence
}

/// A level whose queue is fit for the level's own side and price.
pub open spec fn level_wf(level: LevelView) -> bool {
    queue_wf(level.orders, level.side, level.price)
}

/// The total of a queue is the total of its two halves.
pub proof fn lemma_total_concat(a: Seq<Order>, b: Seq<Order>)
    ensures
        total_remaining(a + b) == total_remaining(a) + total_remaining(b),
    decreases b.len(),
{
    if b.len() == 0 {
        assert(a + b =~= a);
    } else {
        assert((a + b).drop_last() =~= a + b.drop_last());
        lemma_total_concat(a, b.drop_last());
    }
}

/// The total of a queue of one order is what that order has left.
pub proof fn lemma_total_single(o: Order)
    ensures
        total_remaining(seq![o]) == o.remaining_quantity,
{
    assert(seq![o].drop_last() =~= Seq::<Order>::empty());
    assert(total_remaining(Seq::<Order>::empty()) == 0);
}

/// Taking the order at `i` out of a queue lowers the total by what it had left.
pub proof fn lemma_total_remove(orders: Seq<Order>, i: int)
    requires
        0 <= i < orders.len(),
    ensures
        total_remaining(orders.remove(i)) + orders[i].remaining_quantity == total_remaining(orders),
{
    let front = orders.take(i);
    let back = orders.skip(i + 1);
    assert(orders.remove(i) =~= front + back);
    assert(orders =~= front + (seq![orders[i]] + back));
    lemma_total_concat(front, back);
    lemma_total_concat(seq![orders[i]], back);
    lemma_total_concat(front, seq![orders[i]] + back);
    lemma_total_single(orders[i]);
}

/// Replacing the order at `i` changes the total by the difference of what
/// the two orders have left.
pub proof fn lemma_total_update(orders: Seq<Order>, i: int, o: Order)
    requires
        0 <= i < orders.len(),
    ensures
        total_remaining(orders.update(i, o)) + orders[i].remaining_quantity == total_remaining(
            orders,
        ) + o.remaining_quantity,
{
    let front = orders.take(i);
    let back = orders.skip(i + 1);
    assert(orders.update(i, o) =~= front + (seq![o] + back));
    assert(orders =~= front + (seq![orders[i]] + back));
    lemma_total_concat(seq![o], back);
    lemma_total_concat(front, seq![o] + back);
    lemma_total_concat(seq![orders[i]], back);
    lemma_total_concat(front, seq![orders[i]] + back);
    lemma_total_single(orders[i]);
    lemma_total_single(o);
}

/// No order holds more than `u64::MAX`, so a queue holds at most that per order.
pub proof fn lemma_total_bound(orders: Seq<Order>)
    ensures
        total_remaining(orders) <= orders.len() * 0xffff_ffff_ffff_ffff,
    decreases orders.len(),
{
    if orders.len() > 0 {
        lemma_total_bound(orders.drop_last());
    }
}

/// In a queue without repeated ids, the order with a given id has one place.
pub proof fn lemma_index_of(orders: Seq<Order>, id: u128, i: int)
    requires
        0 <= i < orders.len(),
        orders[i].id == id,
        forall|a: int, b: int|
            0 <= a < b < orders.len() ==> (#[trigger] orders[a]).id != (#[trigger] orders[b]).id,
    ensures
        queue_has(orders, id),
        index_of(orders, id) == i,
{
    let k = index_of(orders, id);
    assert(0 <= k < orders.len() && orders[k].id == id);
    if k < i {
        assert(orders[k].id != orders[i].id);
    } else if i < k {
        assert(orders[i].id != orders[k].id);
    }
}

/// A well-formed queue stays well-formed when one order leaves it.
pub proof fn lemma_queue_wf_remove(orders: Seq<Order>, side: Side, price: i64, i: int)
    requires
        queue_wf(orders, side, price),
        0 <= i < orders.len(),
    ensures
        queue_wf(orders.remove(i), side, price),
        forall|id: u128|
            queue_has(orders.remove(i), id) <==> (queue_has(orders, id) && id != orders[i].id),
{
    let rest = orders.remove(i);
    assert forall|j: int| 0 <= j < rest.len() implies (#[trigger] rest[j]).rests_at(
        side,
        price,
    ) by {
        let k = if j < i { j } else { j + 1 };
        assert(rest[j] == orders[k]);
    }
    assert forall|a: int, b: int| 0 <= a < b < rest.len() implies (#[trigger] rest[a]).id != (
    #[trigger] rest[b]).id && rest[a].sequence <= rest[b].sequence by {
        let ka = if a < i { a } else { a + 1 };
        let kb = if b < i { b } else { b + 1 };
        assert(rest[a] == orders[ka]);
        assert(rest[b] == orders[kb]);
    }
    assert forall|id: u128|
        queue_has(rest, id) <==> (queue_has(orders, id) && id != orders[i].id) by {
        if queue_has(rest, id) {
            let j = choose|j: int| 0 <= j < rest.len() && (#[trigger] rest[j]).id == id;
            let k = if j < i { j } else { j + 1 };
            assert(rest[j] == orders[k]);
            assert(orders[k].id == id);
            if k < i {
                assert(orders[k].id != orders[i].id);
            } else {
                assert(orders[i].id != orders[k].id);
            }
        }
        if queue_has(orders, id) && id != orders[i].id {
            let k = choose|k: int| 0 <= k < orders.len() && (#[trigger] orders[k]).id == id;
            let j = if k < i { k } else { k - 1 };
            assert(rest[j] == orders[k]);
        }
    }
}

/// A well-formed queue stays well-formed when a fitting order joins its tail.
pub proof fn lemma_queue_wf_push(orders: Seq<Order>, side: Side, price: i64, o: Order)
    requires
        queue_wf(orders, side, price),
        o.rests_at(side, price),
        !queue_has(orders, o.id),
        orders.len() > 0 ==> orders.last().sequence <= o.sequence,
    ensures
        queue_wf(orders.push(o), side, price),
        forall|id: u128| queue_has(orders.push(o), id) <==> (queue_has(orders, id) || id == o.id),
{
    let more = orders.push(o);
    assert forall|a: int, b: int| 0 <= a < b < more.len() implies (#[trigger] more[a]).id != (
    #[trigger] more[b]).id && more[a].sequence <= more[b].sequence by {
        if b == orders.len() {
            assert(more[a] == orders[a]);
            if a < orders.len() - 1 {
                assert(orders[a].sequence <= orders[orders.len() - 1].sequence);
            }
        } else {
            assert(more[a] == orders[a]);
            assert(more[b] == orders[b]);
        }
    }
    assert forall|id: u128| queue_has(more, id) <==> (queue_has(orders, id) || id == o.id) by {
        if queue_has(more, id) {
            let j = choose|j: int| 0 <= j < more.len() && (#[trigger] more[j]).id == id;
            if j < orders.len() {
                assert(orders[j].id == id);
            }
        }
        if queue_has(orders, id) {
            let j = choose|j: int| 0 <= j < orders.len() && (#[trigger] orders[j]).id == id;
            assert(more[j].id == id);
        }
        if id == o.id {
            assert(more[orders.len() as int].id == id);
        }
    }
}

/// A well-formed queue stays well-formed when part of its first order trades.
pub proof fn lemma_queue_wf_reduce(orders: Seq<Order>, side: Side, price: i64, quantity: u64)
    requires
        queue_wf(orders, side, price),
        orders.len() > 0,
        0 < quantity < orders[0].remaining_quantity,
    ensures
        queue_wf(orders.update(0, orders[0].reduced(quantity)), side, price),
        forall|id: u128|
            queue_has(orders.update(0, orders[0].reduced(quantity)), id) <==> queue_has(orders, id),
{
    let next = orders.update(0, orders[0].reduced(quantity));
    assert forall|j: int| 0 <= j < next.len() implies (#[trigger] next[j]).rests_at(
        side,
        price,
    ) by {
        if j > 0 {
            assert(next[j] == orders[j]);
        } else {
            assert(orders[0].rests_at(side, price));
        }
    }
    assert forall|a: int, b: int| 0 <= a < b < next.len() implies (#[trigger] next[a]).id != (
    #[trigger] next[b]).id && next[a].sequence <= next[b].sequence by {
        assert(next[a].id == orders[a].id && next[a].sequence == orders[a].sequence);
        assert(next[b] == orders[b]);
    }
    assert forall|id: u128| queue_has(next, id) <==> queue_has(orders, id) by {
        if queue_has(next, id) {
            let j = choose|j: int| 0 <= j < next.len() && (#[trigger] next[j]).id == id;
            assert(orders[j].id == id);
        }
        if queue_has(orders, id) {
            let j = choose|j: int| 0 <= j < orders.len() && (#[trigger] orders[j]).id == id;
            assert(next[j].id == id);
        }
    }
}

/// A price level of the book.
pub struct Limit {
    side: Side,
    price: i64,
    orders: VecDeque<Order>,
    total: u128,
}

impl View for Limit {
    type V = LevelView;

    closed spec fn view(&self) -> LevelView {
        LevelView { side: self.side, price: self.price, orders: self.orders@ }
    }
}

impl Limit {
    /// The aggregate the level keeps, as a number.
    pub closed spec fn total_spec(&self) -> nat {
        self.total as nat
    }

    /// The level holds a queue fit for its side and price, and its aggregate
    /// is the sum of what its orders have left.
    pub open spec fn wf(&self) -> bool {
        &&& level_wf(self@)
        &&& self.total_spec() == total_remaining(self@.orders)
    }

    /// An empty level of `side` at `price`.
    pub fn new(side: Side, price: i64) -> (r: Limit)
        ensures
            r.wf(),
            r@.side == side,
            r@.price == price,
            r@.orders == Seq::<Order>::empty(),
            r.total_spec() == 0,
    {
        Limit { side, price, orders: VecDeque::new(), total: 0 }
    }

    /// The side of the book the level stands on.
    pub fn side(&self) -> (r: Side)
        ensures
            r == self@.side,
    {
        self.side
    }

    /// The price of the level.
    pub fn price(&self) -> (r: i64)
        ensures
            r == self@.price,
    {
        self.price
    }

    /// How many orders wait at the level.
    pub fn len(&self) -> (r: usize)
        ensures
            r == self@.orders.len(),
    {
        self.orders.len()
    }

    /// Whether no order waits at the level.
    pub fn is_empty(&self) -> (r: bool)
        ensures
            r == (self@.orders.len() == 0),
    {
        self.orders.len() == 0
    }

    /// The aggregate remaining quantity of the level.
    pub fn total_quantity(&self) -> (r: u128)
        ensures
            r == self.total_spec(),
    {
        self.total
    }

    /// The order at place `i` of the queue, the front being place 0.
    pub fn order_at(&self, i: usize) -> (r: Option<Order>)
        ensures
            i < self@.orders.len() ==> r == Some(self@.orders[i as int]),
            i >= self@.orders.len() ==> r.is_none(),
    {
        if i < self.orders.len() {
            Some(self.orders[i])
        } else {
            None
        }
    }

    /// The order that is served next, if any.
    pub fn peek_front(&self) -> (r: Option<Order>)
        ensures
            self@.orders.len() > 0 ==> r == Some(self@.orders[0]),
            self@.orders.len() == 0 ==> r.is_none(),
    {
        self.order_at(0)
    }

    /// Appends `order` to the tail of the queue.
    pub fn enqueue(&mut self, order: Order)
        requires
            old(self).wf(),
            order.rests_at(old(self)@.side, old(self)@.price),
            !queue_has(old(self)@.orders, order.id),
            old(self)@.orders.len() > 0 ==> old(self)@.orders.last().sequence <= order.sequence,
        ensures
            final(self).wf(),
            final(self)@.side == old(self)@.side,
            final(self)@.price == old(self)@.price,
            final(self)@.orders == old(self)@.orders.push(order),
    {
        let n: usize = self.orders.len();
        proof {
            lemma_total_bound(self.orders@);
            lemma_queue_wf_push(self.orders@, self.side, self.price, order);
            assert(self.orders@.push(order).drop_last() =~= self.orders@);
        }
        self.orders.push_back(order);
        self.total = self.total + order.remaining_quantity as u128;
    }

    /// Takes the order that is served next out of the queue.
    pub fn pop_front(&mut self) -> (r: Option<Order>)
        requires
            old(self).wf(),
        ensures
            final(self).wf(),
            final(self)@.side == old(self)@.side,
            final(self)@.price == old(self)@.price,
            old(self)@.orders.len() == 0 ==> r.is_none() && final(self)@ == old(self)@,
            old(self)@.orders.len() > 0 ==> r == Some(old(self)@.orders[0]) && final(self)@.orders
                == old(self)@.orders.remove(0),
    {
        let r = self.orders.pop_front();
        match r {
            Some(o) => {
                proof {
                    let before = old(self).orders@;
                    assert(self.orders@ =~= before.remove(0));
                    lemma_total_remove(before, 0);
                    lemma_queue_wf_remove(before, self.side, self.price, 0);
                }
                self.total = self.total - o.remaining_quantity as u128;
                Some(o)
            },
            None => None,
        }
    }

    /// Records that `quantity` of the first order has traded, something of
    /// it being left.
    pub fn reduce_front(&mut self, quantity: u64)
        requires
            old(self).wf(),
            old(self)@.orders.len() > 0,
            0 < quantity < old(self)@.orders[0].remaining_quantity,
        ensures
            final(self).wf(),
            final(self)@.side == old(self)@.side,
            final(self)@.price == old(self)@.price,
            final(self)@.orders == old(self)@.orders.update(
                0,
                old(self)@.orders[0].reduced(quantity),
            ),
    {
        let r = self.orders.pop_front();
        match r {
            Some(o) => {
                let rest = o.reduced(quantity);
                self.orders.push_front(rest);
                proof {
                    let before = old(self).orders@;
                    assert(self.orders@ =~= before.update(0, rest));
                    lemma_total_update(before, 0, rest);
                    lemma_queue_wf_reduce(before, self.side, self.price, quantity);
                }
                self.total = self.total - quantity as u128;
            },
            None => {},
        }
    }

    /// Takes the order with this id out of the queue, wherever it stands;
    /// the others keep their order.
    pub fn remove(&mut self, order_id: u128) -> (r: Option<Order>)
        requires
            old(self).wf(),
        ensures
            final(self).wf(),
            final(self)@.side == old(self)@.side,
            final(self)@.price == old(self)@.price,
            !queue_has(old(self)@.orders, order_id) ==> r.is_none() && final(self)@ == old(self)@,
            queue_has(old(self)@.orders, order_id) ==> r == Some(
                old(self)@.orders[index_of(old(self)@.orders, order_id)],
            ) && final(self)@.orders == old(self)@.orders.remove(
                index_of(old(self)@.orders, order_id),
            ),
    {
        let n: usize = self.orders.len();
        let mut i: usize = 0;
        while i < n && self.orders[i].id != order_id
            invariant
                n == self.orders@.len(),
                0 <= i <= n,
                forall|j: int| 0 <= j < i ==> (#[trigger] self.orders@[j]).id != order_id,
            decreases n - i,
        {
            i = i + 1;
        }
        if i < n {
            proof {
                lemma_index_of(self.orders@, order_id, i as int);
                lemma_total_remove(self.orders@, i as int);
                lemma_queue_wf_remove(self.orders@, self.side, self.price, i as int);
            }
            let r = self.orders.remove(i);
            match r {
                Some(o) => {
                    self.total = self.total - o.remaining_quantity as u128;
                    Some(o)
                },
                None => None,
            }
        } else {
            None
        }
    }
}

} // verus!
