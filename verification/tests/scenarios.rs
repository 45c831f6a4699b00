use exchange::engine::MatchingEngine;
use exchange::ident::is_random_uuid_value;
use exchange::order::{EngineError, Fill, OrderStatus, Side};

fn engine_with(symbol: &str) -> MatchingEngine {
    let mut engine = MatchingEngine::new();
    assert!(engine.register_symbol(symbol));
    engine
}

fn levels(engine: &MatchingEngine, symbol: &str, side: Side) -> Vec<(i64, u128)> {
    let book = engine.book(symbol).unwrap();
    match side {
        Side::Buy => book.bids().levels_from_best(),
        Side::Sell => book.asks().levels_from_best(),
    }
}

#[test]
fn limit_buy_rests_on_empty_book() {
    let mut engine = engine_with("ABC");
    let done = engine.submit_limit_order("ABC", Side::Buy, 50, 100).unwrap();
    assert!(done.resting_order_id.is_some());
    assert_eq!(done.remaining_quantity, 100);
    assert!(done.fills.is_empty());
    assert_eq!(levels(&engine, "ABC", Side::Buy), vec![(50, 100)]);
    assert!(levels(&engine, "ABC", Side::Sell).is_empty());
    let resting = engine.order(done.resting_order_id.unwrap()).unwrap();
    assert_eq!(resting.status, OrderStatus::Resting);
    assert_eq!(resting.original_quantity, 100);
    assert_eq!(resting.remaining_quantity, 100);
    assert_eq!(resting.limit_price, Some(50));
}

#[test]
fn limit_buy_takes_the_ask_and_rests_the_remainder() {
    let mut engine = engine_with("ABC");
    let ask = engine.submit_limit_order_with_id("ABC", Side::Sell, 40, 50, 1).unwrap();
    assert_eq!(ask.resting_order_id, Some(1));
    let done = engine.submit_limit_order_with_id("ABC", Side::Buy, 45, 100, 2).unwrap();
    assert_eq!(
        done.fills,
        vec![Fill {
            resting_order_id: 1,
            incoming_order_id: 2,
            incoming_side: Side::Buy,
            price: 40,
            quantity: 50,
            resting_status: OrderStatus::Filled,
        }]
    );
    assert_eq!(done.remaining_quantity, 50);
    assert_eq!(done.resting_order_id, Some(2));
    assert!(engine.order(1).is_none());
    assert!(levels(&engine, "ABC", Side::Sell).is_empty());
    assert_eq!(levels(&engine, "ABC", Side::Buy), vec![(45, 50)]);
    let rest = engine.order(2).unwrap();
    assert_eq!(rest.status, OrderStatus::PartiallyFilled);
    assert_eq!(rest.original_quantity, 100);
    assert_eq!(rest.remaining_quantity, 50);
    assert_eq!(rest.side, Side::Buy);
}

#[test]
fn market_buy_is_served_in_arrival_order() {
    let mut engine = engine_with("ABC");
    engine.submit_limit_order_with_id("ABC", Side::Sell, 40, 20, 1).unwrap();
    engine.submit_limit_order_with_id("ABC", Side::Sell, 40, 30, 2).unwrap();
    let done = engine.submit_market_order_with_id("ABC", Side::Buy, 30, 3).unwrap();
    assert_eq!(done.remaining_quantity, 0);
    assert_eq!(done.fills.len(), 2);
    assert_eq!(
        (done.fills[0].price, done.fills[0].quantity, done.fills[0].resting_order_id),
        (40, 20, 1)
    );
    assert_eq!(done.fills[0].resting_status, OrderStatus::Filled);
    assert_eq!(
        (done.fills[1].price, done.fills[1].quantity, done.fills[1].resting_order_id),
        (40, 10, 2)
    );
    assert_eq!(done.fills[1].resting_status, OrderStatus::PartiallyFilled);
    assert!(engine.order(1).is_none());
    let second = engine.order(2).unwrap();
    assert_eq!(second.remaining_quantity, 20);
    assert_eq!(second.status, OrderStatus::PartiallyFilled);
    assert_eq!(levels(&engine, "ABC", Side::Sell), vec![(40, 20)]);
    assert!(engine.order(3).is_none());
}

#[test]
fn market_buy_on_empty_asks_fails() {
    let mut engine = engine_with("ABC");
    engine.submit_limit_order_with_id("ABC", Side::Buy, 30, 5, 1).unwrap();
    let r = engine.submit_market_order("ABC", Side::Buy, 10);
    assert_eq!(
        r,
        Err(EngineError::InsufficientLiquidity { remaining_quantity: 10, fills: vec![] })
    );
    assert_eq!(levels(&engine, "ABC", Side::Buy), vec![(30, 5)]);
    assert!(levels(&engine, "ABC", Side::Sell).is_empty());
    assert_eq!(engine.book("ABC").unwrap().next_sequence(), 1);
}

#[test]
fn market_order_short_of_liquidity_keeps_its_fills() {
    let mut engine = engine_with("ABC");
    engine.submit_limit_order_with_id("ABC", Side::Buy, 30, 4, 1).unwrap();
    engine.submit_limit_order_with_id("ABC", Side::Buy, 29, 3, 2).unwrap();
    let r = engine.submit_market_order_with_id("ABC", Side::Sell, 10, 3);
    match r {
        Err(EngineError::InsufficientLiquidity { remaining_quantity, fills }) => {
            assert_eq!(remaining_quantity, 3);
            assert_eq!(fills.len(), 2);
            assert_eq!((fills[0].resting_order_id, fills[0].price, fills[0].quantity), (1, 30, 4));
            assert_eq!((fills[1].resting_order_id, fills[1].price, fills[1].quantity), (2, 29, 3));
        }
        other => panic!("unexpected {:?}", other),
    }
    assert!(levels(&engine, "ABC", Side::Buy).is_empty());
    assert!(levels(&engine, "ABC", Side::Sell).is_empty());
    assert!(engine.order(3).is_none());
}

#[test]
fn unknown_symbol_is_refused() {
    let mut engine = engine_with("ABC");
    assert_eq!(
        engine.submit_limit_order("XYZ", Side::Buy, 10, 1),
        Err(EngineError::SymbolNotFound)
    );
    assert_eq!(engine.submit_market_order("XYZ", Side::Sell, 1), Err(EngineError::SymbolNotFound));
    assert!(engine.book("XYZ").is_none());
}

#[test]
fn zero_quantity_is_refused() {
    let mut engine = engine_with("ABC");
    assert_eq!(
        engine.submit_limit_order("ABC", Side::Buy, 10, 0),
        Err(EngineError::InvalidQuantity)
    );
    assert_eq!(engine.submit_market_order("ABC", Side::Buy, 0), Err(EngineError::InvalidQuantity));
    assert_eq!(
        engine.submit_limit_order("XYZ", Side::Buy, -1, 0),
        Err(EngineError::InvalidQuantity)
    );
    assert!(levels(&engine, "ABC", Side::Buy).is_empty());
}

#[test]
fn price_that_is_not_positive_is_refused() {
    let mut engine = engine_with("ABC");
    assert_eq!(engine.submit_limit_order("ABC", Side::Buy, 0, 5), Err(EngineError::InvalidPrice));
    assert_eq!(engine.submit_limit_order("ABC", Side::Sell, -7, 5), Err(EngineError::InvalidPrice));
    assert_eq!(engine.submit_limit_order("XYZ", Side::Sell, 0, 5), Err(EngineError::InvalidPrice));
    assert!(levels(&engine, "ABC", Side::Buy).is_empty());
    assert!(levels(&engine, "ABC", Side::Sell).is_empty());
}

#[test]
fn id_of_a_live_order_is_refused() {
    let mut engine = engine_with("ABC");
    engine.register_symbol("DEF");
    engine.submit_limit_order_with_id("ABC", Side::Buy, 10, 5, 9).unwrap();
    assert_eq!(
        engine.submit_limit_order_with_id("ABC", Side::Sell, 10, 5, 9),
        Err(EngineError::DuplicateOrderId)
    );
    assert_eq!(
        engine.submit_limit_order_with_id("DEF", Side::Buy, 11, 1, 9),
        Err(EngineError::DuplicateOrderId)
    );
    assert_eq!(
        engine.submit_market_order_with_id("ABC", Side::Sell, 5, 9),
        Err(EngineError::DuplicateOrderId)
    );
    assert_eq!(levels(&engine, "ABC", Side::Buy), vec![(10, 5)]);
    assert!(levels(&engine, "DEF", Side::Buy).is_empty());
    engine.cancel_order(9).unwrap();
    assert!(engine.submit_limit_order_with_id("DEF", Side::Buy, 11, 1, 9).is_ok());
}

#[test]
fn cancel_succeeds_once_and_then_fails() {
    let mut engine = engine_with("ABC");
    let id = engine.submit_limit_order("ABC", Side::Sell, 70, 8).unwrap().resting_order_id.unwrap();
    assert_eq!(engine.cancel_order(id), Ok(()));
    assert_eq!(engine.cancel_order(id), Err(EngineError::OrderNotFound));
    assert!(levels(&engine, "ABC", Side::Sell).is_empty());
    assert!(engine.order(id).is_none());
}

#[test]
fn cancel_of_unknown_or_filled_order_fails() {
    let mut engine = engine_with("ABC");
    assert_eq!(engine.cancel_order(5), Err(EngineError::OrderNotFound));
    engine.submit_limit_order_with_id("ABC", Side::Sell, 10, 5, 1).unwrap();
    engine.submit_limit_order_with_id("ABC", Side::Buy, 10, 5, 2).unwrap();
    assert_eq!(engine.cancel_order(1), Err(EngineError::OrderNotFound));
    assert_eq!(engine.cancel_order(2), Err(EngineError::OrderNotFound));
}

#[test]
fn cancel_from_the_middle_keeps_the_queue_in_order() {
    let mut engine = engine_with("ABC");
    engine.submit_limit_order_with_id("ABC", Side::Sell, 40, 1, 1).unwrap();
    engine.submit_limit_order_with_id("ABC", Side::Sell, 40, 2, 2).unwrap();
    engine.submit_limit_order_with_id("ABC", Side::Sell, 40, 4, 3).unwrap();
    engine.cancel_order(2).unwrap();
    assert_eq!(levels(&engine, "ABC", Side::Sell), vec![(40, 5)]);
    let done = engine.submit_market_order_with_id("ABC", Side::Buy, 5, 4).unwrap();
    let served: Vec<u128> = done.fills.iter().map(|f| f.resting_order_id).collect();
    assert_eq!(served, vec![1, 3]);
}

#[test]
fn better_price_is_served_first() {
    let mut engine = engine_with("ABC");
    engine.submit_limit_order_with_id("ABC", Side::Sell, 42, 5, 1).unwrap();
    engine.submit_limit_order_with_id("ABC", Side::Sell, 40, 5, 2).unwrap();
    engine.submit_limit_order_with_id("ABC", Side::Sell, 41, 5, 3).unwrap();
    assert_eq!(levels(&engine, "ABC", Side::Sell), vec![(40, 5), (41, 5), (42, 5)]);
    let done = engine.submit_limit_order_with_id("ABC", Side::Buy, 41, 12, 4).unwrap();
    let served: Vec<(u128, i64, u64)> =
        done.fills.iter().map(|f| (f.resting_order_id, f.price, f.quantity)).collect();
    assert_eq!(served, vec![(2, 40, 5), (3, 41, 5)]);
    assert_eq!(done.remaining_quantity, 2);
    assert_eq!(levels(&engine, "ABC", Side::Sell), vec![(42, 5)]);
    assert_eq!(levels(&engine, "ABC", Side::Buy), vec![(41, 2)]);
}

#[test]
fn bids_are_ordered_from_the_highest_price() {
    let mut engine = engine_with("ABC");
    engine.submit_limit_order_with_id("ABC", Side::Buy, 10, 1, 1).unwrap();
    engine.submit_limit_order_with_id("ABC", Side::Buy, 12, 2, 2).unwrap();
    engine.submit_limit_order_with_id("ABC", Side::Buy, 11, 3, 3).unwrap();
    engine.submit_limit_order_with_id("ABC", Side::Buy, 12, 4, 4).unwrap();
    assert_eq!(levels(&engine, "ABC", Side::Buy), vec![(12, 6), (11, 3), (10, 1)]);
    assert_eq!(engine.book("ABC").unwrap().best_bid(), Some(12));
    assert_eq!(engine.book("ABC").unwrap().best_ask(), None);
    let done = engine.submit_limit_order_with_id("ABC", Side::Sell, 11, 20, 5).unwrap();
    let served: Vec<(u128, i64, u64)> =
        done.fills.iter().map(|f| (f.resting_order_id, f.price, f.quantity)).collect();
    assert_eq!(served, vec![(2, 12, 2), (4, 12, 4), (3, 11, 3)]);
    assert_eq!(done.remaining_quantity, 11);
    assert_eq!(levels(&engine, "ABC", Side::Buy), vec![(10, 1)]);
    assert_eq!(levels(&engine, "ABC", Side::Sell), vec![(11, 11)]);
}

#[test]
fn trade_is_priced_by_the_resting_order() {
    let mut engine = engine_with("ABC");
    engine.submit_limit_order_with_id("ABC", Side::Buy, 55, 3, 1).unwrap();
    let done = engine.submit_limit_order_with_id("ABC", Side::Sell, 50, 3, 2).unwrap();
    assert_eq!(done.fills.len(), 1);
    assert_eq!(done.fills[0].price, 55);
    assert_eq!(done.fills[0].buyer_order_id(), 1);
    assert_eq!(done.fills[0].seller_order_id(), 2);
    assert_eq!(done.resting_order_id, None);
    assert_eq!(done.remaining_quantity, 0);
}

#[test]
fn limit_never_crosses_its_bound() {
    let mut engine = engine_with("ABC");
    engine.submit_limit_order_with_id("ABC", Side::Sell, 51, 3, 1).unwrap();
    let buy = engine.submit_limit_order_with_id("ABC", Side::Buy, 50, 3, 2).unwrap();
    assert!(buy.fills.is_empty());
    assert_eq!(buy.resting_order_id, Some(2));
    let sell = engine.submit_limit_order_with_id("ABC", Side::Sell, 51, 1, 3).unwrap();
    assert!(sell.fills.is_empty());
    assert_eq!(levels(&engine, "ABC", Side::Sell), vec![(51, 4)]);
    assert_eq!(levels(&engine, "ABC", Side::Buy), vec![(50, 3)]);
}

#[test]
fn quantity_is_conserved() {
    let mut engine = engine_with("ABC");
    let mut accepted: u128 = 0;
    let mut filled: u128 = 0;
    let mut cancelled: u128 = 0;
    let mut unfilled: u128 = 0;
    let limits: Vec<(Side, i64, u64, u128)> = vec![
        (Side::Sell, 40, 20, 1),
        (Side::Sell, 41, 30, 2),
        (Side::Buy, 39, 15, 3),
        (Side::Buy, 41, 35, 4),
        (Side::Sell, 38, 40, 5),
    ];
    for (side, price, quantity, id) in limits {
        let done = engine.submit_limit_order_with_id("ABC", side, price, quantity, id).unwrap();
        accepted += quantity as u128;
        filled += done.fills.iter().map(|f| f.quantity as u128).sum::<u128>();
    }
    let left = engine.order(5).unwrap().remaining_quantity;
    engine.cancel_order(5).unwrap();
    cancelled += left as u128;
    match engine.submit_market_order_with_id("ABC", Side::Buy, 50, 6) {
        Err(EngineError::InsufficientLiquidity { remaining_quantity, fills }) => {
            accepted += 50;
            filled += fills.iter().map(|f| f.quantity as u128).sum::<u128>();
            unfilled += remaining_quantity as u128;
        }
        other => panic!("unexpected {:?}", other),
    }
    let resting: u128 = levels(&engine, "ABC", Side::Buy).iter().map(|l| l.1).sum::<u128>()
        + levels(&engine, "ABC", Side::Sell).iter().map(|l| l.1).sum::<u128>();
    assert_eq!(accepted, 190);
    assert_eq!(filled, 65);
    assert_eq!(cancelled, 25);
    assert_eq!(unfilled, 35);
    assert_eq!(resting, 0);
    assert_eq!(resting + 2 * filled + cancelled + unfilled, accepted);
}

#[test]
fn quantity_is_conserved_while_nothing_trades() {
    let mut engine = engine_with("ABC");
    engine.submit_limit_order_with_id("ABC", Side::Sell, 40, 20, 1).unwrap();
    engine.submit_limit_order_with_id("ABC", Side::Buy, 39, 15, 2).unwrap();
    engine.submit_limit_order_with_id("ABC", Side::Buy, 38, 5, 3).unwrap();
    engine.cancel_order(2).unwrap();
    let resting: u128 = levels(&engine, "ABC", Side::Buy).iter().map(|l| l.1).sum::<u128>()
        + levels(&engine, "ABC", Side::Sell).iter().map(|l| l.1).sum::<u128>();
    assert_eq!(resting, 25);
    assert_eq!(resting + 0 + 15, 40);
}

#[test]
fn no_level_is_left_empty() {
    let mut engine = engine_with("ABC");
    engine.submit_limit_order_with_id("ABC", Side::Sell, 40, 2, 1).unwrap();
    engine.submit_limit_order_with_id("ABC", Side::Sell, 41, 2, 2).unwrap();
    engine.submit_limit_order_with_id("ABC", Side::Buy, 40, 2, 3).unwrap();
    assert_eq!(levels(&engine, "ABC", Side::Sell), vec![(41, 2)]);
    engine.cancel_order(2).unwrap();
    assert!(levels(&engine, "ABC", Side::Sell).is_empty());
    assert_eq!(engine.book("ABC").unwrap().asks().level_count(), 0);
    assert_eq!(engine.book("ABC").unwrap().bids().level_count(), 0);
}

#[test]
fn books_of_different_symbols_are_apart() {
    let mut engine = MatchingEngine::new();
    assert!(engine.register_symbol("ABC"));
    assert!(engine.register_symbol("DEF"));
    assert!(!engine.register_symbol("ABC"));
    assert_eq!(engine.registry().len(), 2);
    engine.submit_limit_order_with_id("ABC", Side::Sell, 40, 2, 1).unwrap();
    let done = engine.submit_limit_order_with_id("DEF", Side::Buy, 45, 2, 2).unwrap();
    assert!(done.fills.is_empty());
    assert_eq!(levels(&engine, "ABC", Side::Sell), vec![(40, 2)]);
    assert_eq!(levels(&engine, "DEF", Side::Buy), vec![(45, 2)]);
    assert_eq!(engine.cancel_order(2), Ok(()));
    assert!(levels(&engine, "DEF", Side::Buy).is_empty());
    assert_eq!(levels(&engine, "ABC", Side::Sell), vec![(40, 2)]);
    assert_eq!(engine.book("DEF").unwrap().symbol(), "DEF");
}

#[test]
fn entry_stamps_follow_the_order_of_arrival() {
    let mut engine = engine_with("ABC");
    engine.submit_limit_order_with_id("ABC", Side::Buy, 10, 1, 1).unwrap();
    engine.submit_limit_order_with_id("ABC", Side::Buy, 10, 1, 2).unwrap();
    engine.submit_limit_order_with_id("ABC", Side::Sell, 20, 1, 3).unwrap();
    assert_eq!(engine.order(1).unwrap().sequence, 0);
    assert_eq!(engine.order(2).unwrap().sequence, 1);
    assert_eq!(engine.order(3).unwrap().sequence, 2);
    assert_eq!(engine.book("ABC").unwrap().next_sequence(), 3);
}

#[test]
fn generated_ids_are_random_uuids() {
    let mut engine = engine_with("ABC");
    let a = engine.submit_limit_order("ABC", Side::Buy, 10, 1).unwrap().resting_order_id.unwrap();
    let b = engine.submit_limit_order("ABC", Side::Buy, 10, 1).unwrap().resting_order_id.unwrap();
    assert!(is_random_uuid_value(a));
    assert!(is_random_uuid_value(b));
    assert_eq!((a >> 76) & 0xf, 4);
    assert_eq!((a >> 62) & 0x3, 2);
    assert_ne!(a, b);
    assert_eq!(uuid::Uuid::from_u128(a).get_version_num(), 4);
}
