use exchange::book::OrderBook;
use exchange::level::Limit;
use exchange::order::{EngineError, Order, OrderKind, OrderStatus, Side};
use exchange::side::{is_better, OrderBookSide};

fn sell(id: u128, price: i64, quantity: u64, sequence: u64) -> Order {
    Order::limit(id, Side::Sell, price, quantity, quantity, sequence)
}

#[test]
fn new_limit_order_is_resting() {
    let o = Order::limit(7, Side::Buy, 12, 30, 30, 4);
    assert_eq!(o.id, 7);
    assert_eq!(o.side, Side::Buy);
    assert_eq!(o.kind, OrderKind::Limit);
    assert_eq!(o.limit_price, Some(12));
    assert_eq!(o.original_quantity, 30);
    assert_eq!(o.remaining_quantity, 30);
    assert_eq!(o.sequence, 4);
    assert_eq!(o.status, OrderStatus::Resting);
    let part = Order::limit(7, Side::Buy, 12, 30, 10, 4);
    assert_eq!(part.status, OrderStatus::PartiallyFilled);
}

#[test]
fn reduced_order_is_partially_filled() {
    let o = sell(1, 40, 30, 0).reduced(10);
    assert_eq!(o.remaining_quantity, 20);
    assert_eq!(o.original_quantity, 30);
    assert_eq!(o.status, OrderStatus::PartiallyFilled);
    assert_eq!(o.closed(OrderStatus::Cancelled).status, OrderStatus::Cancelled);
    assert_eq!(o.closed(OrderStatus::Cancelled).remaining_quantity, 20);
}

#[test]
fn opposite_sides() {
    assert_eq!(Side::Buy.opposite(), Side::Sell);
    assert_eq!(Side::Sell.opposite(), Side::Buy);
}

#[test]
fn new_level_is_empty() {
    let level = Limit::new(Side::Sell, 40);
    assert!(level.is_empty());
    assert_eq!(level.len(), 0);
    assert_eq!(level.price(), 40);
    assert_eq!(level.side(), Side::Sell);
    assert_eq!(level.total_quantity(), 0);
    assert_eq!(level.peek_front(), None);
    assert_eq!(level.order_at(0), None);
}

#[test]
fn level_is_first_in_first_out() {
    let mut level = Limit::new(Side::Sell, 40);
    level.enqueue(sell(1, 40, 5, 0));
    level.enqueue(sell(2, 40, 7, 1));
    level.enqueue(sell(3, 40, 9, 2));
    assert_eq!(level.len(), 3);
    assert_eq!(level.total_quantity(), 21);
    assert_eq!(level.peek_front().unwrap().id, 1);
    assert_eq!(level.order_at(2).unwrap().id, 3);
    assert_eq!(level.pop_front().unwrap().id, 1);
    assert_eq!(level.total_quantity(), 16);
    assert_eq!(level.pop_front().unwrap().id, 2);
    assert_eq!(level.pop_front().unwrap().id, 3);
    assert_eq!(level.pop_front(), None);
    assert!(level.is_empty());
    assert_eq!(level.total_quantity(), 0);
}

#[test]
fn level_removes_from_the_middle() {
    let mut level = Limit::new(Side::Sell, 40);
    level.enqueue(sell(1, 40, 5, 0));
    level.enqueue(sell(2, 40, 7, 1));
    level.enqueue(sell(3, 40, 9, 2));
    assert_eq!(level.remove(9), None);
    let gone = level.remove(2).unwrap();
    assert_eq!((gone.id, gone.remaining_quantity), (2, 7));
    assert_eq!(level.len(), 2);
    assert_eq!(level.total_quantity(), 14);
    assert_eq!(level.order_at(0).unwrap().id, 1);
    assert_eq!(level.order_at(1).unwrap().id, 3);
    assert_eq!(level.remove(2), None);
}

#[test]
fn level_reduces_its_front() {
    let mut level = Limit::new(Side::Sell, 40);
    level.enqueue(sell(1, 40, 5, 0));
    level.enqueue(sell(2, 40, 7, 1));
    level.reduce_front(3);
    let front = level.peek_front().unwrap();
    assert_eq!((front.id, front.remaining_quantity, front.original_quantity), (1, 2, 5));
    assert_eq!(front.status, OrderStatus::PartiallyFilled);
    assert_eq!(level.total_quantity(), 9);
    assert_eq!(level.len(), 2);
}

#[test]
fn higher_bid_and_lower_ask_are_better() {
    assert!(is_better(Side::Buy, 11, 10));
    assert!(!is_better(Side::Buy, 10, 10));
    assert!(!is_better(Side::Buy, 9, 10));
    assert!(is_better(Side::Sell, 9, 10));
    assert!(!is_better(Side::Sell, 10, 10));
    assert!(!is_better(Side::Sell, 11, 10));
}

#[test]
fn side_keeps_its_levels_in_order() {
    let mut side = OrderBookSide::new(Side::Sell);
    assert!(side.is_empty());
    assert_eq!(side.best_price(), None);
    assert_eq!(side.peek_best(), None);
    side.insert_order(sell(1, 42, 5, 0));
    side.insert_order(sell(2, 40, 6, 1));
    side.insert_order(sell(3, 41, 7, 2));
    side.insert_order(sell(4, 40, 8, 3));
    assert_eq!(side.side(), Side::Sell);
    assert_eq!(side.level_count(), 3);
    assert_eq!(side.best_price(), Some(40));
    assert_eq!(side.levels_from_best(), vec![(40, 14), (41, 7), (42, 5)]);
    assert_eq!(side.peek_best().unwrap().id, 2);
    assert_eq!(side.level_at(1).unwrap().price(), 41);
    assert!(side.level_at(3).is_none());
    assert_eq!(side.find_level(41), (1, true));
    assert_eq!(side.find_level(39), (0, false));
    assert_eq!(side.find_level(43), (3, false));
    assert_eq!(side.find_order(40, 4).unwrap().remaining_quantity, 8);
    assert_eq!(side.find_order(41, 4), None);
    assert_eq!(side.find_order(45, 4), None);
}

#[test]
fn side_drops_a_level_with_its_last_order() {
    let mut side = OrderBookSide::new(Side::Buy);
    side.insert_order(Order::limit(1, Side::Buy, 10, 5, 5, 0));
    side.insert_order(Order::limit(2, Side::Buy, 12, 6, 6, 1));
    side.insert_order(Order::limit(3, Side::Buy, 12, 7, 7, 2));
    assert_eq!(side.levels_from_best(), vec![(12, 13), (10, 5)]);
    assert_eq!(side.pop_best().unwrap().id, 2);
    assert_eq!(side.levels_from_best(), vec![(12, 7), (10, 5)]);
    side.reduce_best(4);
    assert_eq!(side.levels_from_best(), vec![(12, 3), (10, 5)]);
    assert_eq!(side.remove_order(10, 9), None);
    assert_eq!(side.remove_order(11, 1), None);
    assert_eq!(side.remove_order(10, 1).unwrap().id, 1);
    assert_eq!(side.levels_from_best(), vec![(12, 3)]);
    assert_eq!(side.pop_best().unwrap().id, 3);
    assert!(side.is_empty());
    assert_eq!(side.pop_best(), None);
}

#[test]
fn insert_or_get_makes_a_level_and_remove_if_empty_takes_it_away() {
    let mut side = OrderBookSide::new(Side::Sell);
    side.insert_order(sell(1, 40, 5, 0));
    assert_eq!(side.insert_or_get(40), 0);
    assert_eq!(side.level_count(), 1);
    assert_eq!(side.insert_or_get(39), 0);
    assert_eq!(side.insert_or_get(45), 2);
    assert_eq!(side.level_count(), 3);
    assert!(side.level_at(0).unwrap().is_empty());
    side.remove_if_empty(40);
    assert_eq!(side.level_count(), 3);
    side.remove_if_empty(39);
    side.remove_if_empty(45);
    side.remove_if_empty(50);
    assert_eq!(side.levels_from_best(), vec![(40, 5)]);
}

#[test]
fn book_executes_and_cancels() {
    let mut book = OrderBook::new("ABC".to_string());
    assert_eq!(book.symbol(), "ABC");
    assert_eq!(book.next_sequence(), 0);
    assert!(!book.contains(1));
    let rest = book.submit_limit(Side::Sell, 40, 10, 1).unwrap();
    assert_eq!(rest.resting_order_id, Some(1));
    assert!(book.contains(1));
    assert_eq!(book.best_ask(), Some(40));
    assert_eq!(book.best_bid(), None);
    assert_eq!(book.submit_limit(Side::Buy, 40, 0, 2), Err(EngineError::InvalidQuantity));
    assert_eq!(book.submit_limit(Side::Buy, 0, 1, 2), Err(EngineError::InvalidPrice));
    assert_eq!(book.submit_limit(Side::Buy, 40, 1, 1), Err(EngineError::DuplicateOrderId));
    assert_eq!(book.submit_market(Side::Buy, 0, 2), Err(EngineError::InvalidQuantity));
    assert_eq!(book.submit_market(Side::Buy, 1, 1), Err(EngineError::DuplicateOrderId));
    let taken = book.submit_market(Side::Buy, 4, 2).unwrap();
    assert_eq!(taken.remaining_quantity, 0);
    assert_eq!(taken.fills.len(), 1);
    assert_eq!(taken.fills[0].quantity, 4);
    assert_eq!(book.order(1).unwrap().remaining_quantity, 6);
    let gone = book.cancel(1).unwrap();
    assert_eq!(gone.id, 1);
    assert_eq!(gone.remaining_quantity, 6);
    assert_eq!(gone.status, OrderStatus::Cancelled);
    assert_eq!(book.cancel(1), Err(EngineError::OrderNotFound));
    assert!(book.asks().is_empty());
    assert!(book.bids().is_empty());
    assert_eq!(book.order(1), None);
}
