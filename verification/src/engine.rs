//! The registry of books and the matching engine that works on it.

use crate::book::{
    lemma_cancelled_wf, lemma_crossed_wf, lemma_limit_wf, limit_done, market_done, BookView,
    OrderBook,
};
use crate::ident::{fresh_order_id, is_random_uuid};
use crate::order::{EngineError, LimitOrderResult, MarketOrderResult, Order, Side, Taker};
use vstd::prelude::*;

verus! {

/// The mathematical content of the registry: the symbols, and the book of
/// each, in the order in which they were registered.
pub struct EngineView {
    pub symbols: Seq<Seq<char>>,
    pub books: Seq<BookView>,
}

impl EngineView {
    /// Every symbol has one book, every book is well-formed, and no order
    /// id is live in two books.
    pub open spec fn wf(self) -> bool {
        &&& self.symbols.len() == self.books.len()
        &&& forall|i: int| 0 <= i < self.books.len() ==> (#[trigger] self.books[i]).wf()
        &&& forall|i: int, j: int|
            0 <= i < j < self.symbols.len() ==> #[trigger] self.symbols[i]
                != #[trigger] self.symbols[j]
        &&& forall|i: int, j: int, id: u128|
            #![trigger self.books[i].has(id), self.books[j].has(id)]
            0 <= i < self.books.len() && 0 <= j < self.books.len() && i != j
                && self.books[i].has(id) ==> !self.books[j].has(id)
    }

    /// Whether the symbol is registered.
    pub open spec fn knows(self, symbol: Seq<char>) -> bool {
        exists|i: int| 0 <= i < self.symbols.len() && #[trigger] self.symbols[i] == symbol
    }

    /// The place of a registered symbol.
    pub open spec fn index(self, symbol: Seq<char>) -> int {
        choose|i: int| 0 <= i < self.symbols.len() && #[trigger] self.symbols[i] == symbol
    }

    /// The book of a registered symbol.
    pub open spec fn book(self, symbol: Seq<char>) -> BookView {
        self.books[self.index(symbol)]
    }

    /// Whether an order with this id is live in some book.
    pub open spec fn live(self, id: u128) -> bool {
        exists|i: int| 0 <= i < self.books.len() && (#[trigger] self.books[i]).has(id)
    }

    /// The place of the book in which the order with this id is live.
    pub open spec fn holder(self, id: u128) -> int {
        choose|i: int| 0 <= i < self.books.len() && (#[trigger] self.books[i]).has(id)
    }

    /// The registry with another book at place `i`.
    pub open spec fn with_book(self, i: int, book: BookView) -> EngineView {
        EngineView { books: self.books.update(i, book), ..self }
    }

    /// The registry with an empty book for one more symbol.
    pub open spec fn with_symbol(self, symbol: Seq<char>) -> EngineView {
        EngineView {
            symbols: self.symbols.push(symbol),
            books: self.books.push(BookView::empty()),
        }
    }

    /// What `submit_limit_order` owes for the id `id`: which refusal on
    /// which input, and otherwise the execution of the order in the book of
    /// its symbol, all other books being left alone.
    pub open spec fn limit_outcome(
        self,
        symbol: Seq<char>,
        side: Side,
        price: i64,
        quantity: u64,
        id: u128,
        after: EngineView,
        r: Result<LimitOrderResult, EngineError>,
    ) -> bool {
        if quantity == 0 {
            (r matches Err(EngineError::InvalidQuantity)) && after == self
        } else if price <= 0 {
            (r matches Err(EngineError::InvalidPrice)) && after == self
        } else if !self.knows(symbol) {
            (r matches Err(EngineError::SymbolNotFound)) && after == self
        } else if self.live(id) {
            (r matches Err(EngineError::DuplicateOrderId)) && after == self
        } else {
            let x = self.book(symbol).limit(side, price, quantity, id);
            limit_done(r, x) && after == self.with_book(self.index(symbol), x.book)
        }
    }

    /// What `submit_market_order` owes for the id `id`.
    pub open spec fn market_outcome(
        self,
        symbol: Seq<char>,
        side: Side,
        quantity: u64,
        id: u128,
        after: EngineView,
        r: Result<MarketOrderResult, EngineError>,
    ) -> bool {
        if quantity == 0 {
            (r matches Err(EngineError::InvalidQuantity)) && after == self
        } else if !self.knows(symbol) {
            (r matches Err(EngineError::SymbolNotFound)) && after == self
        } else if self.live(id) {
            (r matches Err(EngineError::DuplicateOrderId)) && after == self
        } else {
            let x = self.book(symbol).market(side, quantity, id);
            market_done(r, x) && after == self.with_book(self.index(symbol), x.book)
        }
    }

    /// What `cancel_order` owes.
    pub open spec fn cancel_outcome(
        self,
        id: u128,
        after: EngineView,
        r: Result<(), EngineError>,
    ) -> bool {
        if !self.live(id) {
            (r matches Err(EngineError::OrderNotFound)) && after == self
        } else {
            r is Ok && after == self.with_book(
                self.holder(id),
                self.books[self.holder(id)].cancelled(id),
            )
        }
    }
}

/// In a well-formed registry a symbol has one place.
pub proof fn lemma_index(engine: EngineView, i: int)
    requires
        engine.wf(),
        0 <= i < engine.symbols.len(),
    ensures
        engine.knows(engine.symbols[i]),
        engine.index(engine.symbols[i]) == i,
{
    let c = engine.index(engine.symbols[i]);
    if c < i {
        assert(engine.symbols[c] != engine.symbols[i]);
    } else if i < c {
        assert(engine.symbols[i] != engine.symbols[c]);
    }
}

/// In a well-formed registry a live order has one book.
pub proof fn lemma_holder(engine: EngineView, i: int, id: u128)
    requires
        engine.wf(),
        0 <= i < engine.books.len(),
        engine.books[i].has(id),
    ensures
        engine.live(id),
        engine.holder(id) == i,
{
    let c = engine.holder(id);
    assert(engine.books[c].has(id));
    if c != i {
        assert(!engine.books[c].has(id));
    }
}

/// A registry stays well-formed when one of its books is replaced by a
/// well-formed book whose live ids were live in the old one or nowhere.
pub proof fn lemma_with_book(engine: EngineView, i: int, book: BookView, fresh: u128)
    requires
        engine.wf(),
        0 <= i < engine.books.len(),
        book.wf(),
        !engine.live(fresh) || engine.books[i].has(fresh),
        forall|id: u128| #[trigger] book.has(id) ==> engine.books[i].has(id) || id == fresh,
    ensures
        engine.with_book(i, book).wf(),
{
    let after = engine.with_book(i, book);
    assert forall|a: int| 0 <= a < after.books.len() implies (#[trigger] after.books[a]).wf() by {
        if a != i {
            assert(after.books[a] == engine.books[a]);
        }
    }
    assert forall|a: int, b: int, id: u128|
        #![trigger after.books[a].has(id), after.books[b].has(id)]
        0 <= a < after.books.len() && 0 <= b < after.books.len() && a != b
            && after.books[a].has(id) implies !after.books[b].has(id) by {
        if a == i {
            assert(after.books[b] == engine.books[b]);
            if engine.books[b].has(id) {
                if id == fresh {
                    assert(engine.live(fresh));
                    assert(engine.books[i].has(id));
                }
                assert(engine.books[i].has(id));
            }
        } else if b == i {
            assert(after.books[a] == engine.books[a]);
            if book.has(id) {
                if id == fresh {
                    assert(engine.live(fresh));
                    assert(engine.books[i].has(id));
                }
                assert(engine.books[i].has(id));
                assert(!engine.books[a].has(id));
            }
        } else {
            assert(after.books[a] == engine.books[a]);
            assert(after.books[b] == engine.books[b]);
        }
    }
}

/// The books of the exchange, one per registered symbol.
pub struct BookRegistry {
    books: Vec<OrderBook>,
}

impl View for BookRegistry {
    type V = EngineView;

    closed spec fn view(&self) -> EngineView {
        EngineView {
            symbols: Seq::new(self.books@.len(), |i: int| self.books@[i].symbol_spec()),
            books: Seq::new(self.books@.len(), |i: int| self.books@[i]@),
        }
    }
}

impl BookRegistry {
    /// Each book keeps its sides in order.
    pub closed spec fn books_kept(&self) -> bool {
        forall|i: int| 0 <= i < self.books@.len() ==> (#[trigger] self.books@[i]).sides_kept()
    }

    /// The registry as every operation finds and leaves it.
    pub open spec fn wf(&self) -> bool {
        &&& self.books_kept()
        &&& self@.wf()
    }

    /// A registry without symbols.
    pub fn new() -> (r: BookRegistry)
        ensures
            r.wf(),
            r@.symbols.len() == 0,
            r@.books.len() == 0,
    {
        BookRegistry { books: Vec::new() }
    }

    /// How many symbols are registered.
    pub fn len(&self) -> (r: usize)
        ensures
            r == self@.symbols.len(),
            r == self@.books.len(),
    {
        self.books.len()
    }

    /// The place of the book for `symbol`, if the symbol is registered.
    pub fn find(&self, symbol: &str) -> (r: Option<usize>)
        requires
            self.wf(),
        ensures
            r.is_some() == self@.knows(symbol@),
            r.is_some() ==> r.unwrap() == self@.index(symbol@) && r.unwrap() < self@.books.len()
                && self@.symbols[r.unwrap() as int] == symbol@,
    {
        let wanted: String = symbol.to_owned();
        let n: usize = self.books.len();
        let mut i: usize = 0;
        while i < n
            invariant
                n == self.books@.len(),
                0 <= i <= n,
                self.wf(),
                wanted@ == symbol@,
                forall|j: int| 0 <= j < i ==> #[trigger] self@.symbols[j] != symbol@,
            decreases n - i,
        {
            if *self.books[i].symbol() == wanted {
                proof {
                    assert(self@.symbols[i as int] == symbol@);
                    lemma_index(self@, i as int);
                }
                return Some(i);
            }
            i = i + 1;
        }
        None
    }

    /// The place of the book in which the order with this id is live.
    pub fn holder_of(&self, order_id: u128) -> (r: Option<usize>)
        requires
            self.wf(),
        ensures
            r.is_some() == self@.live(order_id),
            r.is_some() ==> r.unwrap() == self@.holder(order_id) && r.unwrap()
                < self@.books.len() && self@.books[r.unwrap() as int].has(order_id),
    {
        let n: usize = self.books.len();
        let mut i: usize = 0;
        while i < n
            invariant
                n == self.books@.len(),
                0 <= i <= n,
                self.wf(),
                forall|j: int| 0 <= j < i ==> !(#[trigger] self@.books[j]).has(order_id),
            decreases n - i,
        {
            if self.books[i].contains(order_id) {
                proof {
                    assert(self@.books[i as int].has(order_id));
                    lemma_holder(self@, i as int, order_id);
                }
                return Some(i);
            }
            i = i + 1;
        }
        None
    }

    /// The book at place `i`, in order of registration.
    pub fn book_at(&self, i: usize) -> (r: Option<&OrderBook>)
        ensures
            i >= self@.books.len() ==> r.is_none(),
            i < self@.books.len() ==> r.is_some() && r.unwrap()@ == self@.books[i as int]
                && r.unwrap().symbol_spec() == self@.symbols[i as int] && (self.wf()
                ==> r.unwrap().wf()),
    {
        if i < self.books.len() {
            assert(self@.books[i as int] == self.books@[i as int]@);
            Some(&self.books[i])
        } else {
            None
        }
    }

    /// The book for `symbol`, if the symbol is registered.
    pub fn book(&self, symbol: &str) -> (r: Option<&OrderBook>)
        requires
            self.wf(),
        ensures
            !self@.knows(symbol@) ==> r.is_none(),
            self@.knows(symbol@) ==> r.is_some() && r.unwrap()@ == self@.book(symbol@)
                && r.unwrap().wf(),
    {
        match self.find(symbol) {
            Some(i) => self.book_at(i),
            None => None,
        }
    }

    /// Registers `symbol` with an empty book. Returns whether the symbol
    /// was new; a symbol that is registered already keeps its book.
    pub fn register(&mut self, symbol: &str) -> (r: bool)
        requires
            old(self).wf(),
        ensures
            final(self).wf(),
            r == !old(self)@.knows(symbol@),
            r ==> final(self)@ == old(self)@.with_symbol(symbol@),
            !r ==> final(self)@ == old(self)@,
    {
        match self.find(symbol) {
            Some(_) => false,
            None => {
                let book = OrderBook::new(symbol.to_owned());
                self.books.push(book);
                proof {
                    let before = old(self)@;
                    let after = before.with_symbol(symbol@);
                    assert(self@.symbols =~= after.symbols);
                    assert(self@.books =~= after.books);
                    assert forall|i: int, j: int|
                        0 <= i < j < after.symbols.len() implies #[trigger] after.symbols[i]
                        != #[trigger] after.symbols[j] by {
                        if j < before.symbols.len() {
                            assert(before.symbols[i] != before.symbols[j]);
                        } else {
                            assert(before.symbols[i] != symbol@);
                        }
                    }
                    assert forall|i: int| 0 <= i < after.books.len() implies (
                    #[trigger] after.books[i]).wf() by {
                        if i < before.books.len() {
                            assert(after.books[i] == before.books[i]);
                        }
                    }
                    assert forall|i: int, j: int, id: u128|
                        #![trigger after.books[i].has(id), after.books[j].has(id)]
                        0 <= i < after.books.len() && 0 <= j < after.books.len() && i != j
                            && after.books[i].has(id) implies !after.books[j].has(id) by {
                        if i < before.books.len() && j < before.books.len() {
                            assert(after.books[i] == before.books[i]);
                            assert(after.books[j] == before.books[j]);
                        }
                    }
                }
                true
            },
        }
    }
}

/// The matching engine: the three operations of the exchange, each on the
/// book of one symbol.
pub struct MatchingEngine {
    registry: BookRegistry,
}

impl View for MatchingEngine {
    type V = EngineView;

    closed spec fn view(&self) -> EngineView {
        self.registry@
    }
}

impl MatchingEngine {
    /// Each book keeps its sides in order.
    pub closed spec fn books_kept(&self) -> bool {
        self.registry.books_kept()
    }

    /// The engine as every operation finds and leaves it.
    pub open spec fn wf(&self) -> bool {
        &&& self.books_kept()
        &&& self@.wf()
    }

    /// An engine without symbols.
    pub fn new() -> (r: MatchingEngine)
        ensures
            r.wf(),
            r@.symbols.len() == 0,
            r@.books.len() == 0,
    {
        MatchingEngine { registry: BookRegistry::new() }
    }

    /// The books of the engine.
    pub fn registry(&self) -> (r: &BookRegistry)
        ensures
            r@ == self@,
            self.wf() ==> r.wf(),
    {
        &self.registry
    }

    /// Registers `symbol` with an empty book. Returns whether the symbol
    /// was new.
    pub fn register_symbol(&mut self, symbol: &str) -> (r: bool)
        requires
            old(self).wf(),
        ensures
            final(self).wf(),
            r == !old(self)@.knows(symbol@),
            r ==> final(self)@ == old(self)@.with_symbol(symbol@),
            !r ==> final(self)@ == old(self)@,
    {
        self.registry.register(symbol)
    }

    /// The book for `symbol`, if the symbol is registered.
    pub fn book(&self, symbol: &str) -> (r: Option<&OrderBook>)
        requires
            self.wf(),
        ensures
            !self@.knows(symbol@) ==> r.is_none(),
            self@.knows(symbol@) ==> r.is_some() && r.unwrap()@ == self@.book(symbol@)
                && r.unwrap().wf(),
    {
        self.registry.book(symbol)
    }

    /// The live order with this id, if there is one.
    pub fn order(&self, order_id: u128) -> (r: Option<Order>)
        requires
            self.wf(),
        ensures
            !self@.live(order_id) ==> r.is_none(),
            self@.live(order_id) ==> r == Some(
                self@.books[self@.holder(order_id)].order(order_id),
            ),
    {
        match self.registry.holder_of(order_id) {
            Some(i) => {
                assert(self.registry.books@[i as int].sides_kept());
                assert(self@.books[i as int].wf());
                self.registry.books[i].order(order_id)
            },
            None => None,
        }
    }

    /// Executes a limit order for `symbol` under the id `order_id`.
    pub fn submit_limit_order_with_id(
        &mut self,
        symbol: &str,
        side: Side,
        price: i64,
        quantity: u64,
        order_id: u128,
    ) -> (r: Result<LimitOrderResult, EngineError>)
        requires
            old(self).wf(),
        ensures
            final(self).wf(),
            old(self)@.limit_outcome(symbol@, side, price, quantity, order_id, final(self)@, r),
    {
        if quantity == 0 {
            return Err(EngineError::InvalidQuantity);
        }
        if price <= 0 {
            return Err(EngineError::InvalidPrice);
        }
        let i: usize = match self.registry.find(symbol) {
            Some(i) => i,
            None => {
                return Err(EngineError::SymbolNotFound);
            },
        };
        if self.registry.holder_of(order_id).is_some() {
            return Err(EngineError::DuplicateOrderId);
        }
        let ghost before = self@;
        proof {
            assert(self.registry.books@[i as int].sides_kept());
            assert(before.books[i as int].wf());
            assert(!before.books[i as int].has(order_id));
            lemma_limit_wf(before.books[i as int], side, price, quantity, order_id);
            lemma_with_book(
                before,
                i as int,
                before.books[i as int].limit(side, price, quantity, order_id).book,
                order_id,
            );
        }
        let r = self.registry.books[i].submit_limit(side, price, quantity, order_id);
        proof {
            let x = before.books[i as int].limit(side, price, quantity, order_id);
            assert(self@.symbols =~= before.symbols);
            assert(self@.books =~= before.with_book(i as int, x.book).books);
        }
        r
    }

    /// Executes a market order for `symbol` under the id `order_id`.
    pub fn submit_market_order_with_id(
        &mut self,
        symbol: &str,
        side: Side,
        quantity: u64,
        order_id: u128,
    ) -> (r: Result<MarketOrderResult, EngineError>)
        requires
            old(self).wf(),
        ensures
            final(self).wf(),
            old(self)@.market_outcome(symbol@, side, quantity, order_id, final(self)@, r),
    {
        if quantity == 0 {
            return Err(EngineError::InvalidQuantity);
        }
        let i: usize = match self.registry.find(symbol) {
            Some(i) => i,
            None => {
                return Err(EngineError::SymbolNotFound);
            },
        };
        if self.registry.holder_of(order_id).is_some() {
            return Err(EngineError::DuplicateOrderId);
        }
        let ghost before = self@;
        proof {
            let taker = Taker { id: order_id, side, limit: None };
            assert(self.registry.books@[i as int].sides_kept());
            assert(before.books[i as int].wf());
            assert(!before.books[i as int].has(order_id));
            lemma_crossed_wf(before.books[i as int], taker, quantity);
            lemma_with_book(
                before,
                i as int,
                before.books[i as int].market(side, quantity, order_id).book,
                order_id,
            );
        }
        let r = self.registry.books[i].submit_market(side, quantity, order_id);
        proof {
            let x = before.books[i as int].market(side, quantity, order_id);
            assert(self@.symbols =~= before.symbols);
            assert(self@.books =~= before.with_book(i as int, x.book).books);
        }
        r
    }

    /// Executes a limit order for `symbol`.
    ///
    /// The order is refused with `InvalidQuantity` where the quantity is
    /// zero, else with `InvalidPrice` where the price is not positive, else
    /// with `SymbolNotFound` where the symbol is not registered; a refused
    /// order changes nothing. Otherwise the order gets a new random id and
    /// is executed under it.
    pub fn submit_limit_order(&mut self, symbol: &str, side: Side, price: i64, quantity: u64) -> (r:
        Result<LimitOrderResult, EngineError>)
        requires
            old(self).wf(),
        ensures
            final(self).wf(),
            exists|id: u128|
                is_random_uuid(id) && #[trigger] old(self)@.limit_outcome(
                    symbol@,
                    side,
                    price,
                    quantity,
                    id,
                    final(self)@,
                    r,
                ),
    {
        let order_id: u128 = fresh_order_id();
        self.submit_limit_order_with_id(symbol, side, price, quantity, order_id)
    }

    /// Executes a market order for `symbol`.
    ///
    /// The order is refused with `InvalidQuantity` where the quantity is
    /// zero, else with `SymbolNotFound` where the symbol is not registered;
    /// a refused order changes nothing. Otherwise the order gets a new
    /// random id and is executed under it.
    pub fn submit_market_order(&mut self, symbol: &str, side: Side, quantity: u64) -> (r: Result<
        MarketOrderResult,
        EngineError,
    >)
        requires
            old(self).wf(),
        ensures
            final(self).wf(),
            exists|id: u128|
                is_random_uuid(id) && #[trigger] old(self)@.market_outcome(
                    symbol@,
                    side,
                    quantity,
                    id,
                    final(self)@,
                    r,
                ),
    {
        let order_id: u128 = fresh_order_id();
        self.submit_market_order_with_id(symbol, side, quantity, order_id)
    }

    /// Cancels the live order with this id, in whichever book it rests.
    /// Fails with `OrderNotFound` where no live order has the id.
    pub fn cancel_order(&mut self, order_id: u128) -> (r: Result<(), EngineError>)
        requires
            old(self).wf(),
        ensures
            final(self).wf(),
            old(self)@.cancel_outcome(order_id, final(self)@, r),
    {
        let i: usize = match self.registry.holder_of(order_id) {
            Some(i) => i,
            None => {
                return Err(EngineError::OrderNotFound);
            },
        };
        let ghost before = self@;
        proof {
            assert(self.registry.books@[i as int].sides_kept());
            assert(before.books[i as int].wf());
            lemma_cancelled_wf(before.books[i as int], order_id);
            assert forall|id: u128| #[trigger]
                before.books[i as int].cancelled(order_id).has(id) implies before.books[i as int].has(
                id,
            ) || id == order_id by {}
            lemma_with_book(
                before,
                i as int,
                before.books[i as int].cancelled(order_id),
                order_id,
            );
        }
        let r = self.registry.books[i].cancel(order_id);
        proof {
            assert(self@.symbols =~= before.symbols);
            assert(self@.books =~= before.with_book(
                i as int,
                before.books[i as int].cancelled(order_id),
            ).books);
        }
        match r {
            Ok(_) => Ok(()),
            Err(e) => Err(e),
        }
    }
}

} // verus!
