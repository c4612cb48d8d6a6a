use crypto_orderbook::api::Exchange;
use crypto_orderbook::book::{BookError, OrderBook};
use crypto_orderbook::modifications::OrderModification;
use crypto_orderbook::types::Side;

fn new_id() -> u128 {
    uuid::Uuid::new_v4().as_u128()
}

#[test]
fn test_add_exchange_price_level_different_exchanges() {
    let mut order_book = OrderBook::new("BTC/USD".to_string());
    order_book.add_exchange_price_level(50000, Exchange::Binance, Side::Buy, 10);
    order_book.add_exchange_price_level(50000, Exchange::Coinbase, Side::Buy, 20);
    assert!(order_book.exchange_quantity(Side::Buy, 50000, Exchange::Binance).is_some());
    assert!(order_book.exchange_quantity(Side::Buy, 50000, Exchange::Coinbase).is_some());
    assert_eq!(order_book.exchange_quantity(Side::Buy, 50000, Exchange::Binance), Some(10));
    assert_eq!(order_book.exchange_quantity(Side::Buy, 50000, Exchange::Coinbase), Some(20));
}

#[test]
fn test_add_exchange_price_level_bid() {
    let mut order_book = OrderBook::new("BTC/USD".to_string());
    order_book.add_exchange_price_level(50000, Exchange::Binance, Side::Buy, 10);
    assert!(order_book.exchange_quantity(Side::Buy, 50000, Exchange::Binance).is_some());
    assert_eq!(order_book.exchange_quantity(Side::Buy, 50000, Exchange::Binance), Some(10));
}

#[test]
fn test_add_exchange_price_level_ask() {
    let mut order_book = OrderBook::new("BTC/USD".to_string());
    order_book.add_exchange_price_level(50100, Exchange::Coinbase, Side::Sell, 5);
    assert!(order_book.exchange_quantity(Side::Sell, 50100, Exchange::Coinbase).is_some());
    assert_eq!(order_book.exchange_quantity(Side::Sell, 50100, Exchange::Coinbase), Some(5));
}

#[test]
fn test_add_exchange_price_level_quantity_accumulation() {
    let mut order_book = OrderBook::new("BTC/USD".to_string());
    order_book.add_exchange_price_level(50000, Exchange::Binance, Side::Buy, 10);
    order_book.add_exchange_price_level(50000, Exchange::Binance, Side::Buy, 5);
    order_book.add_exchange_price_level(50000, Exchange::Binance, Side::Buy, 3);
    assert_eq!(order_book.exchange_quantity(Side::Buy, 50000, Exchange::Binance), Some(18));
}

#[test]
fn exchange_quotes_give_best_prices_and_crossings() {
    let mut book = OrderBook::new("BTC/USD".to_string());
    assert_eq!(book.best_bid_all_exchanges(), None);
    book.add_exchange_price_level(50000, Exchange::Binance, Side::Buy, 1);
    book.add_exchange_price_level(50010, Exchange::Kraken, Side::Buy, 1);
    book.add_exchange_price_level(50100, Exchange::Coinbase, Side::Sell, 1);
    book.add_exchange_price_level(50050, Exchange::Binance, Side::Sell, 1);
    assert_eq!(book.best_bid_all_exchanges(), Some((50010, Exchange::Kraken)));
    assert_eq!(book.best_ask_all_exchanges(), Some((50050, Exchange::Binance)));
    assert_eq!(book.exchange_best_bid(Exchange::Binance), Some(50000));
    assert_eq!(book.exchange_best_ask(Exchange::Coinbase), Some(50100));
    assert_eq!(book.exchange_best_ask(Exchange::Kraken), None);
    assert_eq!(
        book.check_for_immediate_purchase(50060, Exchange::Kraken, Side::Buy, 1),
        Some((50050, Exchange::Binance))
    );
    assert_eq!(book.check_for_immediate_purchase(50060, Exchange::Binance, Side::Buy, 1), None);
    assert_eq!(book.check_for_immediate_purchase(50040, Exchange::Kraken, Side::Buy, 1), None);
    assert_eq!(
        book.check_for_immediate_purchase(50005, Exchange::Coinbase, Side::Sell, 1),
        Some((50010, Exchange::Kraken))
    );
}

#[test]
fn test_multiple_price_levels_market_order() {
    let mut order_book = OrderBook::new("BTC/USD".to_string());
    order_book.add_to_limit_order(new_id(), 100, 1, Side::Buy).unwrap();
    order_book.add_to_limit_order(new_id(), 105, 1, Side::Buy).unwrap();
    order_book.add_to_limit_order(new_id(), 110, 1, Side::Buy).unwrap();
    let _match_result = order_book.submit_market_order(new_id(), 2, Side::Sell).unwrap();
    assert_eq!(order_book.resting_order_count(), 1);
}

#[test]
fn test_update_order() {
    let mut order_book = OrderBook::new("BTC/USD".to_string());
    let order_id = order_book.add_to_limit_order(new_id(), 100, 1, Side::Buy).unwrap();

    order_book
        .update_order(OrderModification::UpdatePrice { order_id, new_price: 105 }, order_id)
        .unwrap();
    assert!(order_book.has_level(Side::Buy, 105), "Order should be updated to new price");

    order_book
        .update_order(OrderModification::UpdateQuantity { order_id, new_quantity: 5 }, order_id)
        .unwrap();
    assert!(
        order_book.level_quantity(Side::Buy, 105).is_some_and(|x| x == 5),
        "Order should be updated to new price"
    );

    order_book
        .update_order(
            OrderModification::UpdatePriceAndQuantity { order_id, new_price: 200, new_quantity: 25 },
            order_id,
        )
        .unwrap();
    assert!(
        order_book.level_quantity(Side::Buy, 200).is_some_and(|x| x == 25),
        "Order quantity and price should be updated"
    );

    order_book.update_order(OrderModification::Cancel { order_id }, order_id).unwrap();
    assert!(!order_book.has_level(Side::Buy, 200), "Order should be removed after cancel update");
    assert!(order_book.is_side_empty(Side::Buy), "Order should be removed from orders map");
}

#[test]
fn test_last_trade_execution_tracking() {
    let mut order_book = OrderBook::new("BTC/USD".to_string());
    assert_eq!(order_book.last_traded_at(), 0);

    order_book.add_to_limit_order(new_id(), 100, 5, Side::Buy).unwrap();
    assert_eq!(order_book.last_traded_at(), 0);

    order_book.add_to_limit_order(new_id(), 100, 3, Side::Sell).unwrap();
    let last_trade_time = order_book.last_traded_at();
    assert!(last_trade_time > 0, "Last trade time should be updated after matching limit orders");

    order_book.add_to_limit_order(new_id(), 100, 2, Side::Sell).unwrap();
    let new_last_trade_time = order_book.last_traded_at();
    assert!(new_last_trade_time >= last_trade_time, "Last trade time should be updated with new trades");

    order_book.add_to_limit_order(new_id(), 99, 5, Side::Sell).unwrap();
    order_book.submit_market_order(new_id(), 1, Side::Buy).unwrap();
    let market_trade_time = order_book.last_traded_at();
    assert!(market_trade_time >= new_last_trade_time, "Market order should also update last trade time");
}

#[test]
fn test_order_book_cancel_order() {
    let mut order_book = OrderBook::new("BTC/USD".to_string());
    let order_id_1 = order_book.add_to_limit_order(new_id(), 100, 1, Side::Buy).unwrap();
    let order_id_2 = order_book.add_to_limit_order(new_id(), 105, 1, Side::Buy).unwrap();
    assert!(order_book.has_level(Side::Buy, 100), "Order should contain key 100 in bids");

    order_book
        .update_order(OrderModification::Cancel { order_id: order_id_1 }, order_id_1)
        .unwrap();
    assert!(!order_book.has_level(Side::Buy, 100), "Order should be removed from bids");
    assert!(order_book.has_level(Side::Buy, 105), "Order should contain key 105 in bids");

    order_book
        .update_order(OrderModification::Cancel { order_id: order_id_2 }, order_id_2)
        .unwrap();
    assert!(order_book.is_side_empty(Side::Buy), "Bids should be empty after cancellation");
    assert_eq!(order_book.resting_order_count(), 0, "Order should be removed from orders map");
}

#[test]
fn best_prices_follow_the_levels() {
    let mut book = OrderBook::new("BTC/USD".to_string());
    assert_eq!(book.best_bid(), None);
    assert_eq!(book.best_ask(), None);
    let a = book.add_to_limit_order(new_id(), 100, 1, Side::Buy).unwrap();
    let b = book.add_to_limit_order(new_id(), 120, 1, Side::Buy).unwrap();
    book.add_to_limit_order(new_id(), 110, 1, Side::Buy).unwrap();
    book.add_to_limit_order(new_id(), 150, 1, Side::Sell).unwrap();
    book.add_to_limit_order(new_id(), 140, 1, Side::Sell).unwrap();
    assert_eq!(book.best_bid(), Some(120));
    assert_eq!(book.best_ask(), Some(140));
    // The hint still names 120 after its level goes: the lookup must notice.
    book.update_order(OrderModification::Cancel { order_id: b }, b).unwrap();
    assert_eq!(book.best_bid(), Some(110));
    book.update_order(OrderModification::UpdatePrice { order_id: a, new_price: 130 }, a).unwrap();
    assert_eq!(book.best_bid(), Some(130));
}

#[test]
fn non_crossing_orders_both_rest() {
    let mut book = OrderBook::new("BTC/USD".to_string());
    book.add_to_limit_order(new_id(), 100, 1, Side::Buy).unwrap();
    book.add_to_limit_order(new_id(), 150, 1, Side::Sell).unwrap();
    assert_eq!(book.best_bid(), Some(100));
    assert_eq!(book.best_ask(), Some(150));
    assert_eq!(book.resting_order_count(), 2);
    assert_eq!(book.last_traded_at(), 0);
}

#[test]
fn crossing_order_consumes_equal_resting_order() {
    let mut book = OrderBook::new("BTC/USD".to_string());
    let resting = book.add_to_limit_order(new_id(), 100, 5, Side::Sell).unwrap();
    let taker = book.add_to_limit_order(new_id(), 100, 5, Side::Buy).unwrap();
    assert!(!book.contains_order(resting));
    assert!(!book.contains_order(taker));
    assert!(!book.has_level(Side::Sell, 100));
    assert!(!book.has_level(Side::Buy, 100));
    assert_eq!(book.best_ask(), None);
    assert!(book.last_traded_at() > 0);
}

#[test]
fn crossing_order_rests_its_remainder() {
    let mut book = OrderBook::new("BTC/USD".to_string());
    book.add_to_limit_order(new_id(), 100, 3, Side::Sell).unwrap();
    let taker = book.add_to_limit_order(new_id(), 101, 5, Side::Buy).unwrap();
    assert!(book.contains_order(taker));
    assert_eq!(book.level_quantity(Side::Buy, 101), Some(2));
    assert!(book.is_side_empty(Side::Sell));
}

#[test]
fn partial_fill_leaves_remaining_quantity() {
    let mut book = OrderBook::new("BTC/USD".to_string());
    let resting = book.add_to_limit_order(new_id(), 100, 6, Side::Buy).unwrap();
    assert_eq!(book.submit_market_order(new_id(), 1, Side::Sell), Ok(0));
    assert_eq!(book.level_quantity(Side::Buy, 100), Some(5));
    assert!(book.contains_order(resting));
}

#[test]
fn two_market_sells_consume_two() {
    let mut book = OrderBook::new("ETH/USD".to_string());
    book.add_to_limit_order(new_id(), 2000, 26, Side::Buy).unwrap();
    assert_eq!(book.submit_market_order(new_id(), 1, Side::Sell), Ok(0));
    assert_eq!(book.submit_market_order(new_id(), 1, Side::Sell), Ok(0));
    assert_eq!(book.level_quantity(Side::Buy, 2000), Some(24));
}

#[test]
fn market_order_waits_for_liquidity() {
    let mut book = OrderBook::new("BTC/USD".to_string());
    assert_eq!(book.submit_market_order(new_id(), 4, Side::Buy), Ok(4));
    assert_eq!(book.pending_market_orders(Side::Buy), 1);
    let seller = book.add_to_limit_order(new_id(), 100, 4, Side::Sell).unwrap();
    assert_eq!(book.pending_market_orders(Side::Buy), 0);
    assert!(!book.contains_order(seller));
    assert!(book.is_side_empty(Side::Sell));
    assert!(book.last_traded_at() > 0);
}

#[test]
fn market_order_remainder_waits() {
    let mut book = OrderBook::new("BTC/USD".to_string());
    book.add_to_limit_order(new_id(), 100, 3, Side::Sell).unwrap();
    assert_eq!(book.submit_market_order(new_id(), 5, Side::Buy), Ok(2));
    assert_eq!(book.pending_market_orders(Side::Buy), 1);
    book.add_to_limit_order(new_id(), 101, 1, Side::Sell).unwrap();
    assert_eq!(book.pending_market_orders(Side::Buy), 1);
    assert!(book.is_side_empty(Side::Sell));
    book.add_to_limit_order(new_id(), 102, 7, Side::Sell).unwrap();
    assert_eq!(book.pending_market_orders(Side::Buy), 0);
    assert_eq!(book.level_quantity(Side::Sell, 102), Some(6));
}

#[test]
fn retry_takes_at_most_the_limit() {
    let mut book = OrderBook::with_retry_limit("BTC/USD".to_string(), 1);
    book.submit_market_order(new_id(), 1, Side::Buy).unwrap();
    book.submit_market_order(new_id(), 1, Side::Buy).unwrap();
    book.submit_market_order(new_id(), 1, Side::Buy).unwrap();
    assert_eq!(book.pending_market_orders(Side::Buy), 3);
    book.add_to_limit_order(new_id(), 100, 10, Side::Sell).unwrap();
    assert_eq!(book.pending_market_orders(Side::Buy), 2);
    assert_eq!(book.level_quantity(Side::Sell, 100), Some(9));
    book.retry_unfilled_market_orders();
    assert_eq!(book.pending_market_orders(Side::Buy), 1);
    assert_eq!(book.level_quantity(Side::Sell, 100), Some(8));
}

#[test]
fn cancelling_twice_finds_nothing() {
    let mut book = OrderBook::new("BTC/USD".to_string());
    let id = book.add_to_limit_order(new_id(), 100, 2, Side::Sell).unwrap();
    assert_eq!(book.update_order(OrderModification::Cancel { order_id: id }, id), Ok(()));
    assert!(!book.contains_order(id));
    assert!(!book.has_level(Side::Sell, 100));
    assert_eq!(
        book.update_order(OrderModification::Cancel { order_id: id }, id),
        Err(BookError::OrderNotFound)
    );
}

#[test]
fn moving_an_order_removes_its_old_level() {
    let mut book = OrderBook::new("BTC/USD".to_string());
    let id = book.add_to_limit_order(new_id(), 100, 2, Side::Buy).unwrap();
    let other = book.add_to_limit_order(new_id(), 90, 1, Side::Buy).unwrap();
    book.update_order(
        OrderModification::UpdatePriceAndQuantity { order_id: id, new_price: 95, new_quantity: 7 },
        id,
    )
    .unwrap();
    assert!(!book.has_level(Side::Buy, 100));
    assert_eq!(book.level_quantity(Side::Buy, 95), Some(7));
    assert_eq!(book.level_order_count(Side::Buy, 95), Some(1));
    assert_eq!(book.level_order_count(Side::Buy, 90), Some(1));
    assert!(book.contains_order(other));
    assert_eq!(book.best_bid(), Some(95));
}

#[test]
fn invalid_inputs_are_refused() {
    let mut book = OrderBook::new("BTC/USD".to_string());
    assert_eq!(book.add_to_limit_order(new_id(), 100, 0, Side::Buy), Err(BookError::InvalidQuantity));
    assert_eq!(book.submit_market_order(new_id(), 0, Side::Buy), Err(BookError::InvalidQuantity));
    assert_eq!(book.pending_market_orders(Side::Buy), 0);
    let id = book.add_to_limit_order(new_id(), 100, 1, Side::Buy).unwrap();
    assert_eq!(book.add_to_limit_order(id, 101, 1, Side::Buy), Err(BookError::DuplicateOrderId));
    assert_eq!(
        book.update_order(OrderModification::UpdateQuantity { order_id: id, new_quantity: 0 }, id),
        Err(BookError::InvalidQuantity)
    );
    let missing = new_id();
    assert_eq!(
        book.update_order(OrderModification::UpdatePrice { order_id: missing, new_price: 1 }, missing),
        Err(BookError::OrderNotFound)
    );
    assert_eq!(book.level_quantity(Side::Buy, 100), Some(1));
}

#[test]
fn process_modification_uses_the_modifications_order() {
    let mut book = OrderBook::new("BTC/USD".to_string());
    let id = book.add_to_limit_order(new_id(), 100, 1, Side::Sell).unwrap();
    assert_eq!(
        book.process_modification(OrderModification::UpdateQuantity { order_id: id, new_quantity: 9 }),
        Ok(())
    );
    assert_eq!(book.level_quantity(Side::Sell, 100), Some(9));
    assert_eq!(book.process_modification(OrderModification::Cancel { order_id: id }), Ok(()));
    assert!(book.is_side_empty(Side::Sell));
    assert_eq!(
        book.process_modification(OrderModification::Cancel { order_id: id }),
        Err(BookError::OrderNotFound)
    );
}

#[test]
fn modifications_from_draws() {
    assert_eq!(
        OrderModification::from_draws(0, 7, 1234, 0),
        OrderModification::UpdatePrice { order_id: 7, new_price: 69234 }
    );
    assert_eq!(
        OrderModification::from_draws(5, 7, 0, 250),
        OrderModification::UpdateQuantity { order_id: 7, new_quantity: 550 }
    );
    assert_eq!(
        OrderModification::from_draws(2, 7, 999, 99),
        OrderModification::UpdatePriceAndQuantity { order_id: 7, new_price: 69999, new_quantity: 599 }
    );
    assert_eq!(OrderModification::from_draws(255, 7, 1, 1), OrderModification::Cancel { order_id: 7 });
    for _ in 0..32 {
        match OrderModification::sample() {
            OrderModification::UpdatePrice { new_price, .. } => assert!((69000..70000).contains(&new_price)),
            OrderModification::UpdateQuantity { new_quantity, .. } => {
                assert!((500..600).contains(&new_quantity))
            }
            OrderModification::UpdatePriceAndQuantity { new_price, new_quantity, .. } => {
                assert!((69000..70000).contains(&new_price));
                assert!((500..600).contains(&new_quantity));
            }
            OrderModification::Cancel { .. } => {}
        }
    }
}

#[test]
fn symbol_is_kept() {
    let book = OrderBook::new("BTC/USDT".to_string());
    assert_eq!(book.symbol(), "BTC/USDT");
}

#[test]
fn trades_whose_value_overflows_are_refused() {
    let mut book = OrderBook::new("BTC/USD".to_string());
    let seller = book.add_to_limit_order(new_id(), 10_000_000_000, 2_000_000_000, Side::Sell).unwrap();
    assert_eq!(
        book.add_to_limit_order(new_id(), 10_000_000_000, 2_000_000_000, Side::Buy),
        Err(BookError::TradeValueOverflow)
    );
    assert_eq!(
        book.submit_market_order(new_id(), 2_000_000_000, Side::Buy),
        Err(BookError::TradeValueOverflow)
    );
    assert_eq!(book.pending_market_orders(Side::Buy), 0);
    assert!(book.contains_order(seller));
    assert_eq!(book.level_quantity(Side::Sell, 10_000_000_000), Some(2_000_000_000));
    assert_eq!(book.last_traded_at(), 0);
    assert_eq!(book.submit_market_order(new_id(), 1_000_000_000, Side::Buy), Ok(0));
    assert_eq!(book.level_quantity(Side::Sell, 10_000_000_000), Some(1_000_000_000));
}

#[test]
fn a_match_stamps_the_order_time() {
    let mut book = OrderBook::new("BTC/USD".to_string());
    book.add_order(new_id(), 100, 5, Side::Buy, 40).unwrap();
    assert_eq!(book.last_traded_at(), 0);
    book.add_order(new_id(), 100, 2, Side::Sell, 70).unwrap();
    assert_eq!(book.last_traded_at(), 70);
    book.add_order(new_id(), 100, 1, Side::Sell, 50).unwrap();
    assert_eq!(book.last_traded_at(), 70);
    assert_eq!(book.level_quantity(Side::Buy, 100), Some(2));
}

#[test]
fn a_new_book_has_no_quotes() {
    let book = OrderBook::new("BTC/USD".to_string());
    assert_eq!(book.best_bid_all_exchanges(), None);
    assert_eq!(book.best_ask_all_exchanges(), None);
    assert_eq!(book.exchange_quantity(Side::Buy, 50000, Exchange::Binance), None);
}
