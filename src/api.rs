//! Price observations from the exchange feeds.
use vstd::prelude::*;
use crate::util::{parse_price_cents, parsed_cents};
use vstd::string::StringSliceAdditionalSpecFns;

verus! {

/// Feed messages longer than this many bytes are refused unread.
pub const MAX_FEED_MESSAGE_BYTES: usize = 100000;

/// An exchange that feeds prices.
#[derive(Clone, Copy, Debug, PartialEq, Eq, Hash, Structural)]
pub enum Exchange {
    Binance,
    Kraken,
    Coinbase,
}

/// A price seen on an exchange, with the local time it arrived in
/// milliseconds since the epoch.
#[derive(Clone, Copy, Debug, PartialEq, Eq, Structural)]
pub struct PriceUpdate {
    pub exchange: Exchange,
    pub price: u64,
    pub received_at: u64,
}

/// A price observation of one exchange: the price in cents, the time the
/// exchange stamped on it (milliseconds since the epoch, where it sends
/// one), and the local time it arrived (milliseconds since the epoch).
#[derive(Clone, Copy, Debug, PartialEq, Eq, Structural)]
pub enum ExchangePrice {
    Binance { price: u64, exchange_timestamp: Option<u64>, received_at: u64 },
    Kraken { price: u64, exchange_timestamp: Option<u64>, received_at: u64 },
    Coinbase { price: u64, exchange_timestamp: Option<u64>, received_at: u64 },
}

impl ExchangePrice {
    pub open spec fn spec_price(self) -> u64 {
        match self {
            ExchangePrice::Binance { price, .. } => price,
            ExchangePrice::Kraken { price, .. } => price,
            ExchangePrice::Coinbase { price, .. } => price,
        }
    }

    pub open spec fn spec_received_at(self) -> u64 {
        match self {
            ExchangePrice::Binance { received_at, .. } => received_at,
            ExchangePrice::Kraken { received_at, .. } => received_at,
            ExchangePrice::Coinbase { received_at, .. } => received_at,
        }
    }

    pub open spec fn spec_exchange_timestamp(self) -> Option<u64> {
        match self {
            ExchangePrice::Binance { exchange_timestamp, .. } => exchange_timestamp,
            ExchangePrice::Kraken { exchange_timestamp, .. } => exchange_timestamp,
            ExchangePrice::Coinbase { exchange_timestamp, .. } => exchange_timestamp,
        }
    }

    pub open spec fn spec_exchange(self) -> Exchange {
        match self {
            ExchangePrice::Binance { .. } => Exchange::Binance,
            ExchangePrice::Kraken { .. } => Exchange::Kraken,
            ExchangePrice::Coinbase { .. } => Exchange::Coinbase,
        }
    }

    /// The observation of `exchange` with these fields.
    pub open spec fn spec_new(
        exchange: Exchange,
        price: u64,
        exchange_timestamp: Option<u64>,
        received_at: u64,
    ) -> ExchangePrice {
        match exchange {
            Exchange::Binance => ExchangePrice::Binance { price, exchange_timestamp, received_at },
            Exchange::Kraken => ExchangePrice::Kraken { price, exchange_timestamp, received_at },
            Exchange::Coinbase => ExchangePrice::Coinbase { price, exchange_timestamp, received_at },
        }
    }

    /// The observation of `exchange` with these fields.
    pub fn new(exchange: Exchange, price: u64, exchange_timestamp: Option<u64>, received_at: u64) -> (r:
        ExchangePrice)
        ensures
            r == Self::spec_new(exchange, price, exchange_timestamp, received_at),
            r.spec_exchange() == exchange,
            r.spec_price() == price,
            r.spec_exchange_timestamp() == exchange_timestamp,
            r.spec_received_at() == received_at,
    {
        match exchange {
            Exchange::Binance => ExchangePrice::Binance { price, exchange_timestamp, received_at },
            Exchange::Kraken => ExchangePrice::Kraken { price, exchange_timestamp, received_at },
            Exchange::Coinbase => ExchangePrice::Coinbase { price, exchange_timestamp, received_at },
        }
    }

    /// The price in cents.
    pub fn price(&self) -> (r: u64)
        ensures
            r == self.spec_price(),
    {
        match self {
            ExchangePrice::Binance { price, .. } => *price,
            ExchangePrice::Kraken { price, .. } => *price,
            ExchangePrice::Coinbase { price, .. } => *price,
        }
    }

    /// The local time of arrival, in milliseconds since the epoch.
    pub fn received_at(&self) -> (r: u64)
        ensures
            r == self.spec_received_at(),
    {
        match self {
            ExchangePrice::Binance { received_at, .. } => *received_at,
            ExchangePrice::Kraken { received_at, .. } => *received_at,
            ExchangePrice::Coinbase { received_at, .. } => *received_at,
        }
    }

    /// The exchange's own time stamp, where it sent one.
    pub fn exchange_timestamp(&self) -> (r: Option<u64>)
        ensures
            r == self.spec_exchange_timestamp(),
    {
        match self {
            ExchangePrice::Binance { exchange_timestamp, .. } => *exchange_timestamp,
            ExchangePrice::Kraken { exchange_timestamp, .. } => *exchange_timestamp,
            ExchangePrice::Coinbase { exchange_timestamp, .. } => *exchange_timestamp,
        }
    }

    /// The exchange the price came from.
    pub fn exchange(&self) -> (r: Exchange)
        ensures
            r == self.spec_exchange(),
    {
        match self {
            ExchangePrice::Binance { .. } => Exchange::Binance,
            ExchangePrice::Kraken { .. } => Exchange::Kraken,
            ExchangePrice::Coinbase { .. } => Exchange::Coinbase,
        }
    }

    /// The time from the exchange's stamp to the local arrival, in
    /// milliseconds; 0 where the stamp lies after the arrival (the two
    /// clocks disagree), and `None` without a stamp.
    pub fn network_latency_ms(&self) -> (r: Option<u64>)
        ensures
            r == match self.spec_exchange_timestamp() {
                None => None,
                Some(t) => Some(
                    if t <= self.spec_received_at() {
                        (self.spec_received_at() - t) as u64
                    } else {
                        0
                    },
                ),
            },
    {
        let exchange_ts = match self.exchange_timestamp() {
            Some(t) => t,
            None => {
                return None;
            },
        };
        let received = self.received_at();
        if exchange_ts <= received {
            Some(received - exchange_ts)
        } else {
            Some(0)
        }
    }
}

/// The observation that `decode_observation` makes of these fields.
pub open spec fn decoded(
    exchange: Exchange,
    message_len: usize,
    price_text: Seq<u8>,
    exchange_timestamp: Option<u64>,
    received_at: u64,
) -> Option<ExchangePrice> {
    if message_len > MAX_FEED_MESSAGE_BYTES {
        None
    } else {
        match parsed_cents(price_text) {
            None => None,
            Some(price) => Some(ExchangePrice::spec_new(exchange, price, exchange_timestamp, received_at)),
        }
    }
}

/// Turns the fields read from a feed message into an observation: `None`
/// where the message is too long or the price does not parse.
pub fn decode_observation(
    exchange: Exchange,
    message_len: usize,
    price_text: &str,
    exchange_timestamp: Option<u64>,
    received_at: u64,
) -> (r: Option<ExchangePrice>)
    ensures
        r == decoded(exchange, message_len, price_text.spec_bytes(), exchange_timestamp, received_at),
{
    if message_len > MAX_FEED_MESSAGE_BYTES {
        return None;
    }
    match parse_price_cents(price_text) {
        None => None,
        Some(price) => Some(ExchangePrice::new(exchange, price, exchange_timestamp, received_at)),
    }
}

/// What a feed message amounts to.
#[derive(Clone, Copy, Debug, PartialEq, Eq, Structural)]
pub enum FeedEvent {
    /// A price observation.
    Price(ExchangePrice),
    /// A control message of the feed (a subscription answer, an event).
    Control,
    /// A message longer than `MAX_FEED_MESSAGE_BYTES`, left unread.
    TooLarge,
    /// Anything else: another kind of message, missing fields, a price that
    /// does not parse.
    Ignored,
}

/// The event for a price message whose fields gave `observation`.
pub open spec fn price_event(observation: Option<ExchangePrice>) -> FeedEvent {
    match observation {
        Some(o) => FeedEvent::Price(o),
        None => FeedEvent::Ignored,
    }
}

/// Whether a feed message of `message_len` bytes may be read at all.
pub fn feed_message_fits(message_len: usize) -> (r: bool)
    ensures
        r == (message_len <= MAX_FEED_MESSAGE_BYTES),
{
    message_len <= MAX_FEED_MESSAGE_BYTES
}

/// Whether the text `t` reads exactly `expected` (as bytes).
fn text_is(t: &str, expected: &[u8]) -> (r: bool)
    ensures
        r == (t.spec_bytes() == expected@),
{
    let b = t.as_bytes();
    if b.len() != expected.len() {
        return false;
    }
    let mut i: usize = 0;
    while i < b.len()
        invariant
            i <= b@.len() == expected@.len(),
            b@ == t.spec_bytes(),
            forall|j: int| 0 <= j < i ==> b@[j] == expected@[j],
        decreases b@.len() - i,
    {
        if b[i] != expected[i] {
            return false;
        }
        i = i + 1;
    }
    assert(b@ =~= expected@);
    true
}

/// The bytes of the Coinbase message types this library reads.
pub open spec fn ticker_type() -> Seq<u8> {
    seq![116u8, 105u8, 99u8, 107u8, 101u8, 114u8]
}

pub open spec fn subscriptions_type() -> Seq<u8> {
    seq![115u8, 117u8, 98u8, 115u8, 99u8, 114u8, 105u8, 112u8, 116u8, 105u8, 111u8, 110u8, 115u8]
}

/// A Binance ticker message, given its length, its symbol (`s`), its last
/// price (`c`) and its event time (`E`) where present.
#[verifier::rlimit(40)]
pub fn decode_binance(
    message_len: usize,
    symbol: Option<&str>,
    price_text: Option<&str>,
    exchange_timestamp: Option<u64>,
    received_at: u64,
) -> (r: FeedEvent)
    ensures
        r == if message_len > MAX_FEED_MESSAGE_BYTES {
            FeedEvent::TooLarge
        } else if symbol is None || price_text is None {
            FeedEvent::Ignored
        } else {
            price_event(
                decoded(
                    Exchange::Binance,
                    message_len,
                    price_text->0.spec_bytes(),
                    exchange_timestamp,
                    received_at,
                ),
            )
        },
{
    if !feed_message_fits(message_len) {
        return FeedEvent::TooLarge;
    }
    match (symbol, price_text) {
        (Some(_), Some(p)) => match decode_observation(
            Exchange::Binance,
            message_len,
            p,
            exchange_timestamp,
            received_at,
        ) {
            Some(o) => FeedEvent::Price(o),
            None => FeedEvent::Ignored,
        },
        _ => FeedEvent::Ignored,
    }
}

/// A Coinbase message, given its length, its `type`, and the `product_id`
/// and `price` of a ticker. Coinbase stamps its tickers with an ISO 8601
/// time, which is not read: the observation carries no exchange time.
#[verifier::rlimit(40)]
pub fn decode_coinbase(
    message_len: usize,
    message_type: Option<&str>,
    product_id: Option<&str>,
    price_text: Option<&str>,
    received_at: u64,
) -> (r: FeedEvent)
    ensures
        r == if message_len > MAX_FEED_MESSAGE_BYTES {
            FeedEvent::TooLarge
        } else if message_type is None {
            FeedEvent::Ignored
        } else if message_type->0.spec_bytes() == subscriptions_type() {
            FeedEvent::Control
        } else if message_type->0.spec_bytes() != ticker_type() || product_id is None
            || price_text is None {
            FeedEvent::Ignored
        } else {
            price_event(
                decoded(Exchange::Coinbase, message_len, price_text->0.spec_bytes(), None, received_at),
            )
        },
{
    if !feed_message_fits(message_len) {
        return FeedEvent::TooLarge;
    }
    let t = match message_type {
        Some(t) => t,
        None => {
            return FeedEvent::Ignored;
        },
    };
    let subscriptions: [u8; 13] = [115, 117, 98, 115, 99, 114, 105, 112, 116, 105, 111, 110, 115];
    assert(subscriptions@ =~= subscriptions_type());
    if text_is(t, &subscriptions) {
        return FeedEvent::Control;
    }
    let ticker: [u8; 6] = [116, 105, 99, 107, 101, 114];
    assert(ticker@ =~= ticker_type());
    if !text_is(t, &ticker) {
        return FeedEvent::Ignored;
    }
    match (product_id, price_text) {
        (Some(_), Some(p)) => match decode_observation(
            Exchange::Coinbase,
            message_len,
            p,
            None,
            received_at,
        ) {
            Some(o) => FeedEvent::Price(o),
            None => FeedEvent::Ignored,
        },
        _ => FeedEvent::Ignored,
    }
}

/// A Kraken message, given its length, whether it is an event object, the
/// length of the frame where it is an array, and the first entry of the
/// `c` field of its second element. Ticker frames are arrays of at least
/// four elements; the observation carries no exchange time.
#[verifier::rlimit(40)]
pub fn decode_kraken(
    message_len: usize,
    is_event: bool,
    frame_len: Option<usize>,
    price_text: Option<&str>,
    received_at: u64,
) -> (r: FeedEvent)
    ensures
        r == if message_len > MAX_FEED_MESSAGE_BYTES {
            FeedEvent::TooLarge
        } else if is_event {
            FeedEvent::Control
        } else if frame_len is None || frame_len->0 < 4 || price_text is None {
            FeedEvent::Ignored
        } else {
            price_event(
                decoded(Exchange::Kraken, message_len, price_text->0.spec_bytes(), None, received_at),
            )
        },
{
    if !feed_message_fits(message_len) {
        return FeedEvent::TooLarge;
    }
    if is_event {
        return FeedEvent::Control;
    }
    match (frame_len, price_text) {
        (Some(n), Some(p)) => {
            if n < 4 {
                return FeedEvent::Ignored;
            }
            match decode_observation(Exchange::Kraken, message_len, p, None, received_at) {
                Some(o) => FeedEvent::Price(o),
                None => FeedEvent::Ignored,
            }
        },
        _ => FeedEvent::Ignored,
    }
}

} // verus!
