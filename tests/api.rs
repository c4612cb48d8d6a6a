use crypto_orderbook::api::{
    decode_binance, decode_coinbase, decode_kraken, decode_observation, Exchange, ExchangePrice,
    FeedEvent, MAX_FEED_MESSAGE_BYTES,
};

#[test]
fn accessors_read_each_variant() {
    let p = ExchangePrice::Kraken { price: 9524575, exchange_timestamp: Some(1_000), received_at: 1_250 };
    assert_eq!(p.price(), 9524575);
    assert_eq!(p.exchange(), Exchange::Kraken);
    assert_eq!(p.exchange_timestamp(), Some(1_000));
    assert_eq!(p.received_at(), 1_250);
    let c = ExchangePrice::new(Exchange::Coinbase, 5, None, 9);
    assert_eq!(c, ExchangePrice::Coinbase { price: 5, exchange_timestamp: None, received_at: 9 });
}

#[test]
fn latency_runs_from_exchange_stamp_to_arrival() {
    let p = ExchangePrice::Binance { price: 1, exchange_timestamp: Some(1_000), received_at: 1_250 };
    assert_eq!(p.network_latency_ms(), Some(250));
    let none = ExchangePrice::Binance { price: 1, exchange_timestamp: None, received_at: 1_250 };
    assert_eq!(none.network_latency_ms(), None);
    let skewed = ExchangePrice::Binance { price: 1, exchange_timestamp: Some(2_000), received_at: 1_250 };
    assert_eq!(skewed.network_latency_ms(), Some(0));
}

#[test]
fn decoding_refuses_oversized_messages_and_bad_prices() {
    assert_eq!(
        decode_observation(Exchange::Binance, 20, "95245.75", Some(7), 8),
        Some(ExchangePrice::Binance { price: 9524575, exchange_timestamp: Some(7), received_at: 8 })
    );
    assert_eq!(decode_observation(Exchange::Binance, MAX_FEED_MESSAGE_BYTES + 1, "1.00", None, 8), None);
    assert_eq!(decode_observation(Exchange::Kraken, MAX_FEED_MESSAGE_BYTES, "x", None, 8), None);
}

#[test]
fn binance_messages() {
    assert_eq!(
        decode_binance(40, Some("BTCUSDT"), Some("95245.75"), Some(17), 20),
        FeedEvent::Price(ExchangePrice::Binance { price: 9524575, exchange_timestamp: Some(17), received_at: 20 })
    );
    assert_eq!(decode_binance(40, None, Some("1"), None, 20), FeedEvent::Ignored);
    assert_eq!(decode_binance(40, Some("BTCUSDT"), Some("one"), None, 20), FeedEvent::Ignored);
    assert_eq!(decode_binance(100_001, Some("BTCUSDT"), Some("1"), None, 20), FeedEvent::TooLarge);
}

#[test]
fn coinbase_messages() {
    assert_eq!(
        decode_coinbase(60, Some("ticker"), Some("BTC-USD"), Some("50.5"), 3),
        FeedEvent::Price(ExchangePrice::Coinbase { price: 5050, exchange_timestamp: None, received_at: 3 })
    );
    assert_eq!(decode_coinbase(60, Some("subscriptions"), None, None, 3), FeedEvent::Control);
    assert_eq!(decode_coinbase(60, Some("heartbeat"), Some("BTC-USD"), Some("1"), 3), FeedEvent::Ignored);
    assert_eq!(decode_coinbase(60, Some("ticker"), None, Some("1"), 3), FeedEvent::Ignored);
    assert_eq!(decode_coinbase(60, None, None, None, 3), FeedEvent::Ignored);
    assert_eq!(decode_coinbase(100_001, Some("ticker"), Some("BTC-USD"), Some("1"), 3), FeedEvent::TooLarge);
}

#[test]
fn kraken_messages() {
    assert_eq!(
        decode_kraken(80, false, Some(4), Some("0.01"), 9),
        FeedEvent::Price(ExchangePrice::Kraken { price: 1, exchange_timestamp: None, received_at: 9 })
    );
    assert_eq!(decode_kraken(80, true, None, None, 9), FeedEvent::Control);
    assert_eq!(decode_kraken(80, false, Some(3), Some("1"), 9), FeedEvent::Ignored);
    assert_eq!(decode_kraken(80, false, None, None, 9), FeedEvent::Ignored);
    assert_eq!(decode_kraken(100_001, false, Some(4), Some("1"), 9), FeedEvent::TooLarge);
}
