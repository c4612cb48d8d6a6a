//! The order book: two sides of price levels, an order index, a best-price
//! hint per side, and a retry queue per side for market orders.
use vstd::prelude::*;
use dashmap::DashMap;
use crossbeam_queue::SegQueue;
use pricelevel::UuidGenerator;
use crate::arena::{
    distinct_prices, position_of, prices_match, find_level, lemma_side_map_at, match_on_side, remove_from_side,
    requantify_on_side, rest_on_side, scan_best, side_map, Level,
};
use crate::clock::{current_time_millis, utc_now_millis};
use crate::level::{level_orders, level_queue, live, level_visible_quantity, map_total, match_outcome, new_trade_ids};
use crate::model::{
    best_price, crosses, is_best, later, limit_refused, market_refused, value_fits, lemma_modified_wf, lemma_remove_order_wf, lemma_rest_wf,
    lemma_take_from_wf, limit_order_outcome, market_order_outcome, modified, remove_order, rest,
    retry_count, retry_outcome, retry_run, retry_side_outcome, take_from, BookModel,
};
use crate::modifications::OrderModification;
use crate::laws::{
    lemma_live_distinct,
    lemma_limit_order_keeps_trade_time, lemma_market_order_keeps_trade_time,
    lemma_retry_keeps_trade_time,
};
use crate::index::{index_get, index_insert, index_len, index_new, index_remove, indexed};
use crate::queue::{queue_len, queue_new, queue_pop, queue_push, queued};
use crate::aggregate::{is_best_quote, key_exchange, key_price, ExchangeLevels};
pub use crate::api::Exchange;
use crate::types::Side;

verus! {

/// How many waiting market orders per side one retry takes up, unless the
/// book is built with another number.
pub const DEFAULT_MAX_ORDERS_PER_RETRY: usize = 4;

/// Why an order-book operation was refused.
#[derive(Clone, Copy, Debug, PartialEq, Eq, Structural)]
pub enum BookError {
    /// An order or a modification asked for a quantity of zero.
    InvalidQuantity,
    /// An order with this identifier already rests in the book.
    DuplicateOrderId,
    /// The order index holds no order with this identifier.
    OrderNotFound,
    /// The index names a level that does not hold the order.
    OrderNotInLevels,
    /// The order's quantity times the price it would trade at does not fit
    /// in a `u64`.
    TradeValueOverflow,
}

/// A limit order book for one symbol.
pub struct OrderBook {
    symbol: String,
    bids: Vec<Level>,
    asks: Vec<Level>,
    orders: DashMap<u128, (u64, Side)>,
    cached_best_bid: u64,
    cached_best_ask: u64,
    last_traded_at: u64,
    market_orders_bids: SegQueue<(u128, u64)>,
    market_orders_asks: SegQueue<(u128, u64)>,
    max_orders_per_retry: usize,
    transaction_id_generator: UuidGenerator,
    exchange_bids_price_level: ExchangeLevels,
    exchange_asks_price_level: ExchangeLevels,
}

impl View for OrderBook {
    type V = BookModel;

    closed spec fn view(&self) -> BookModel {
        BookModel {
            bids: side_map(self.bids@),
            asks: side_map(self.asks@),
            index: indexed(self.orders),
            bid_queue: queued(self.market_orders_bids),
            ask_queue: queued(self.market_orders_asks),
            last_traded_at: self.last_traded_at,
        }
    }
}

/// Of the orders `order` lists, oldest first, the ones no longer in the
/// index of `post` come before the ones still there: a younger order was
/// never used up while an older one stayed.
pub open spec fn time_priority_kept(order: Seq<u128>, post: BookModel) -> bool {
    forall|i: int, k: int|
        0 <= i < k < order.len() && !post.index.contains_key(#[trigger] order[k]) ==> !post.index.contains_key(
            #[trigger] order[i],
        )
}

/// `a` keeps the symbol, the retry limit and the quotes of `b`.
spec fn keeps_extras(a: OrderBook, b: OrderBook) -> bool {
    &&& a.symbol == b.symbol
    &&& a.max_orders_per_retry == b.max_orders_per_retry
    &&& a.exchange_bids_price_level == b.exchange_bids_price_level
    &&& a.exchange_asks_price_level == b.exchange_asks_price_level
}

/// Whether `quantity` times `price` fits in a `u64`.
fn trade_value_fits(quantity: u64, price: u64) -> (r: bool)
    ensures
        r == value_fits(quantity, price),
{
    assert((quantity as u128) * (price as u128) <= 0xffff_ffff_ffff_ffff_ffff_ffff_ffff_ffffu128) by (nonlinear_arith)
        requires
            quantity <= 0xffff_ffff_ffff_ffff_u64,
            price <= 0xffff_ffff_ffff_ffff_u64,
    ;
    (quantity as u128) * (price as u128) <= u64::MAX as u128
}

/// Drops each of `filled` from the index.
fn unindex(orders: &mut DashMap<u128, (u64, Side)>, filled: &Vec<u128>)
    ensures
        indexed(*final(orders)) == indexed(*old(orders)).remove_keys(filled@.to_set()),
{
    let ghost pre = indexed(*orders);
    let mut j: usize = 0;
    while j < filled.len()
        invariant
            j <= filled@.len(),
            indexed(*orders) == pre.remove_keys(filled@.take(j as int).to_set()),
        decreases filled@.len() - j,
    {
        let id = filled[j];
        index_remove(orders, id);
        proof {
            assert(filled@.take(j + 1) =~= filled@.take(j as int).push(id));
            filled@.take(j as int).lemma_push_to_set_commute(id);
            assert(indexed(*orders) =~= pre.remove_keys(filled@.take(j + 1).to_set()));
        }
        j = j + 1;
    }
    assert(filled@.take(filled@.len() as int) =~= filled@);
}

/// Takes up to `max` waiting orders from the front of `q`.
fn take_batch(q: &mut SegQueue<(u128, u64)>, max: usize) -> (r: Vec<(u128, u64)>)
    requires
        crate::model::queue_wf(queued(*old(q))),
    ensures
        ({
            let w = queued(*old(q));
            let k = if (max as nat) < w.len() {
                max as int
            } else {
                w.len() as int
            };
            &&& r@ == w.take(k)
            &&& queued(*final(q)) == w.skip(k)
        }),
{
    let ghost w = queued(*q);
    let mut batch: Vec<(u128, u64)> = Vec::new();
    let mut count: usize = 0;
    while count < max
        invariant
            count <= max,
            count <= w.len(),
            crate::model::queue_wf(w),
            batch@ == w.take(count as int),
            queued(*q) == w.skip(count as int),
        ensures
            count <= max,
            count <= w.len(),
            count == max || count == w.len(),
            batch@ == w.take(count as int),
            queued(*q) == w.skip(count as int),
        decreases max - count,
    {
        match queue_pop(q) {
            None => {
                assert(w.skip(count as int).len() == 0);
                break;
            },
            Some(e) => {
                assert(e == w[count as int]);
                if e.1 > 0 {
                    batch.push(e);
                    proof {
                        assert(w.take(count + 1) =~= w.take(count as int).push(e));
                        assert(w.skip(count as int).drop_first() =~= w.skip(count + 1));
                    }
                    count = count + 1;
                }
            },
        }
    }
    batch
}

impl OrderBook {
    /// The symbol the book trades.
    pub closed spec fn symbol_of(&self) -> Seq<char> {
        self.symbol@
    }

    /// The symbol the book trades.
    pub fn symbol(&self) -> (r: &String)
        ensures
            r@ == self.symbol_of(),
    {
        &self.symbol
    }

    /// How many waiting market orders per side one retry takes up.
    pub closed spec fn retry_limit(&self) -> nat {
        self.max_orders_per_retry as nat
    }

    /// The book's invariant: levels at distinct prices, the model's
    /// invariant, and best-price hints that no level lies beyond.
    pub closed spec fn wf(&self) -> bool {
        &&& distinct_prices(self.bids@)
        &&& distinct_prices(self.asks@)
        &&& prices_match(self.bids@)
        &&& prices_match(self.asks@)
        &&& self@.wf()
        &&& forall|p: u64| #[trigger] self@.bids.contains_key(p) ==> p <= self.cached_best_bid
        &&& forall|p: u64| #[trigger] self@.asks.contains_key(p) ==> self.cached_best_ask <= p
        &&& self.exchange_bids_price_level.wf()
        &&& self.exchange_asks_price_level.wf()
    }

    /// The quantities quoted per price and exchange on `side`.
    pub closed spec fn quotes(&self, side: Side) -> Map<(u64, Exchange), u64> {
        match side {
            Side::Buy => self.exchange_bids_price_level@,
            Side::Sell => self.exchange_asks_price_level@,
        }
    }

    /// The orders resting at `p` on `side` in the order a match takes them:
    /// queue order, oldest first.
    pub closed spec fn queue_order(&self, side: Side, p: u64) -> Seq<u128> {
        let levels = match side {
            Side::Buy => self.bids@,
            Side::Sell => self.asks@,
        };
        let lv = levels[position_of(levels, p)];
        live(level_queue(lv.orders), level_orders(lv.orders))
    }

    /// `self` keeps the symbol, the retry limit and the quotes of `other`.
    pub open spec fn keeps_setup_of(self, other: OrderBook) -> bool {
        &&& self.symbol_of() == other.symbol_of()
        &&& self.retry_limit() == other.retry_limit()
        &&& self.quotes(Side::Buy) == other.quotes(Side::Buy)
        &&& self.quotes(Side::Sell) == other.quotes(Side::Sell)
    }

    /// A well-formed book's model is well formed: every level holds an
    /// order, the index places each order where it rests, and no waiting
    /// market order is empty.
    pub proof fn lemma_model_wf(&self)
        requires
            self.wf(),
        ensures
            self@.wf(),
    {
    }

    /// An empty book that retries at most `max_orders_per_retry` waiting
    /// market orders per side at a time.
    pub fn with_retry_limit(symbol: String, max_orders_per_retry: usize) -> (r: OrderBook)
        ensures
            r.wf(),
            r.symbol_of() == symbol@,
            r.retry_limit() == max_orders_per_retry,
            r@.bids.is_empty(),
            r@.asks.is_empty(),
            r@.index.is_empty(),
            r@.bid_queue.len() == 0,
            r@.ask_queue.len() == 0,
            r@.last_traded_at == 0,
            r.quotes(Side::Buy).is_empty(),
            r.quotes(Side::Sell).is_empty(),
    {
        let r = OrderBook {
            symbol,
            bids: Vec::new(),
            asks: Vec::new(),
            orders: index_new(),
            cached_best_bid: 0,
            cached_best_ask: u64::MAX,
            last_traded_at: 0,
            market_orders_bids: queue_new(),
            market_orders_asks: queue_new(),
            max_orders_per_retry,
            transaction_id_generator: new_trade_ids(0),
            exchange_bids_price_level: ExchangeLevels::new(),
            exchange_asks_price_level: ExchangeLevels::new(),
        };
        proof {
            assert(r@.bids =~= Map::empty());
            assert(r@.asks =~= Map::empty());
            assert(r@.index =~= Map::empty());
        }
        r
    }

    /// An empty book with the default retry limit.
    pub fn new(symbol: String) -> (r: OrderBook)
        ensures
            r.wf(),
            r.symbol_of() == symbol@,
            r.retry_limit() == DEFAULT_MAX_ORDERS_PER_RETRY,
            r@.bids.is_empty(),
            r@.asks.is_empty(),
            r@.index.is_empty(),
            r@.bid_queue.len() == 0,
            r@.ask_queue.len() == 0,
            r@.last_traded_at == 0,
            r.quotes(Side::Buy).is_empty(),
            r.quotes(Side::Sell).is_empty(),
    {
        Self::with_retry_limit(symbol, DEFAULT_MAX_ORDERS_PER_RETRY)
    }

    /// The time of the last trade in milliseconds since the epoch; 0 before
    /// the first.
    pub fn last_traded_at(&self) -> (r: u64)
        ensures
            r == self@.last_traded_at,
    {
        self.last_traded_at
    }

    /// Moves the time of the last trade to `now`, never backwards.
    fn stamp_trade(&mut self, now: u64)
        ensures
            final(self)@ == old(self)@.with_last_trade(later(old(self)@.last_traded_at, now)),
            final(self).bids == old(self).bids,
            final(self).asks == old(self).asks,
            final(self).cached_best_bid == old(self).cached_best_bid,
            final(self).cached_best_ask == old(self).cached_best_ask,
            keeps_extras(*final(self), *old(self)),
    {
        if now > self.last_traded_at {
            self.last_traded_at = now;
        }
    }

    /// Raises the bid hint, or lowers the ask hint, to `price` where that
    /// improves it.
    fn update_cached_best(&mut self, side: Side, price: u64)
        ensures
            final(self)@ == old(self)@,
            final(self).bids == old(self).bids,
            final(self).asks == old(self).asks,
            keeps_extras(*final(self), *old(self)),
            side == Side::Buy ==> final(self).cached_best_bid >= old(self).cached_best_bid
                && final(self).cached_best_bid >= price && final(self).cached_best_ask == old(
                self,
            ).cached_best_ask,
            side == Side::Sell ==> final(self).cached_best_ask <= old(self).cached_best_ask
                && final(self).cached_best_ask <= price && final(self).cached_best_bid == old(
                self,
            ).cached_best_bid,
    {
        match side {
            Side::Buy => {
                if price > self.cached_best_bid {
                    self.cached_best_bid = price;
                }
            },
            Side::Sell => {
                if price < self.cached_best_ask {
                    self.cached_best_ask = price;
                }
            },
        }
    }

    /// The best price of `side`: the hint where the level it names still
    /// holds orders, else a scan of the side, which also resets the hint.
    fn best(&mut self, side: Side) -> (r: Option<u64>)
        requires
            old(self).wf(),
        ensures
            final(self).wf(),
            final(self)@ == old(self)@,
            final(self).bids == old(self).bids,
            final(self).asks == old(self).asks,
            keeps_extras(*final(self), *old(self)),
            r == best_price(old(self)@.side(side), side),
            r is None <==> old(self)@.side(side).dom().is_empty(),
    {
        let cached = match side {
            Side::Buy => self.cached_best_bid,
            Side::Sell => self.cached_best_ask,
        };
        let levels: &Vec<Level> = match side {
            Side::Buy => &self.bids,
            Side::Sell => &self.asks,
        };
        let ghost m = self@.side(side);
        assert(m == side_map(levels@));
        let empty_mark: u64 = match side {
            Side::Buy => 0,
            Side::Sell => u64::MAX,
        };
        if cached != empty_mark {
            if let Some(i) = find_level(levels, cached) {
                proof {
                    lemma_side_map_at(levels@, i as int);
                }
                if crate::level::level_order_count(&levels[i as usize].orders) > 0 {
                    proof {
                        assert(is_best(m, side, cached));
                        let c = choose|p: u64| is_best(m, side, p);
                        assert(is_best(m, side, c));
                        assert(m.contains_key(c));
                        assert(m.dom().contains(cached));
                    }
                    return Some(cached);
                }
            }
        }
        let r = scan_best(levels, side);
        match side {
            Side::Buy => {
                self.cached_best_bid = match r {
                    Some(p) => p,
                    None => 0,
                };
            },
            Side::Sell => {
                self.cached_best_ask = match r {
                    Some(p) => p,
                    None => u64::MAX,
                };
            },
        }
        proof {
            if r is Some {
                let c = choose|p: u64| is_best(m, side, p);
                assert(is_best(m, side, c));
                assert(m.dom().contains(c));
            } else {
                assert forall|p: u64| !m.contains_key(p) by {
                    if m.contains_key(p) {
                        assert(!is_best(m, side, p));
                        lemma_best_exists(levels@, side);
                    }
                }
                assert(m.dom() =~= Set::empty());
            }
        }
        r
    }

    /// The highest bid price, or `None` where no bid rests.
    pub fn best_bid(&mut self) -> (r: Option<u64>)
        requires
            old(self).wf(),
        ensures
            final(self).wf(),
            final(self)@ == old(self)@,
            final(self).keeps_setup_of(*old(self)),
            r == best_price(old(self)@.bids, Side::Buy),
            r is None <==> old(self)@.bids.dom().is_empty(),
    {
        self.best(Side::Buy)
    }

    /// The lowest ask price, or `None` where no ask rests.
    pub fn best_ask(&mut self) -> (r: Option<u64>)
        requires
            old(self).wf(),
        ensures
            final(self).wf(),
            final(self)@ == old(self)@,
            final(self).keeps_setup_of(*old(self)),
            r == best_price(old(self)@.asks, Side::Sell),
            r is None <==> old(self)@.asks.dom().is_empty(),
    {
        self.best(Side::Sell)
    }
}

impl OrderBook {
    /// Rests a fresh order on its side and in the index.
    fn rest_order(&mut self, id: u128, price: u64, quantity: u64, side: Side, timestamp: u64)
        requires
            old(self).wf(),
            !old(self)@.index.contains_key(id),
            quantity > 0,
        ensures
            final(self).wf(),
            keeps_extras(*final(self), *old(self)),
            final(self)@ == rest(old(self)@, id, price, quantity, side),
    {
        let ghost pre = self@;
        proof {
            if pre.side(side).contains_key(price) {
                assert(pre.level_wf(side, price));
            }
            lemma_rest_wf(pre, id, price, quantity, side);
        }
        match side {
            Side::Buy => rest_on_side(&mut self.bids, id, price, quantity, side, timestamp),
            Side::Sell => rest_on_side(&mut self.asks, id, price, quantity, side, timestamp),
        }
        index_insert(&mut self.orders, id, (price, side));
        assert(self@ == rest(pre, id, price, quantity, side));
        self.update_cached_best(side, price);
    }

    /// Matches `quantity` for the taker `taker` against the best level `b`
    /// of side `opp`, and stamps the time of the trade.
    fn take_best(&mut self, opp: Side, b: u64, quantity: u64, taker: u128, now: u64) -> (r: (
        u64,
        Ghost<Map<u128, u64>>,
        Ghost<Seq<u128>>,
    ))
        requires
            old(self).wf(),
            best_price(old(self)@.side(opp), opp) == Some(b),
            value_fits(quantity, b),
        ensures
            final(self).wf(),
            keeps_extras(*final(self), *old(self)),
            old(self)@.side(opp).contains_key(b),
            match_outcome(old(self)@.side(opp)[b], quantity, r.1@, r.2@, r.0),
            r.2@.len() <= old(self).queue_order(opp, b).len(),
            r.2@ == old(self).queue_order(opp, b).take(r.2@.len() as int),
            final(self)@ == take_from(old(self)@, opp, b, r.1@, r.2@).with_last_trade(
                later(old(self)@.last_traded_at, now),
            ),
    {
        let ghost pre = self@;
        proof {
            let c = choose|p: u64| is_best(pre.side(opp), opp, p);
            assert(is_best(pre.side(opp), opp, c));
            assert(pre.side(opp).contains_key(b));
            assert(pre.level_wf(opp, b));
        }
        let found = match opp {
            Side::Buy => find_level(&self.bids, b),
            Side::Sell => find_level(&self.asks, b),
        };
        let i = match found {
            Some(i) => i,
            None => {
                return (quantity, Ghost(Map::empty()), Ghost(Seq::empty()));
            },
        };
        proof {
            match opp {
                Side::Buy => lemma_side_map_at(self.bids@, i as int),
                Side::Sell => lemma_side_map_at(self.asks@, i as int),
            }
        }
        let (remaining, filled, Ghost(after)) = match opp {
            Side::Buy => match_on_side(
                &mut self.bids,
                i,
                quantity,
                taker,
                &self.transaction_id_generator,
            ),
            Side::Sell => match_on_side(
                &mut self.asks,
                i,
                quantity,
                taker,
                &self.transaction_id_generator,
            ),
        };
        unindex(&mut self.orders, &filled);
        proof {
            lemma_take_from_wf(pre, opp, b, quantity, after, filled@, remaining);
            assert(self@ == take_from(pre, opp, b, after, filled@));
        }
        self.stamp_trade(now);
        (remaining, Ghost(after), Ghost(filled@))
    }

    /// Adds a limit order submitted at `timestamp` (milliseconds since the
    /// epoch): matched against the opposite best level where it crosses, with
    /// the trade stamped at that time (the time of the last trade never moves
    /// back), and what is left of it rests.
    pub fn add_order(&mut self, id: u128, price: u64, quantity: u64, side: Side, timestamp: u64) -> (r:
        Result<u128, BookError>)
        requires
            old(self).wf(),
        ensures
            final(self).wf(),
            final(self).keeps_setup_of(*old(self)),
            quantity == 0 ==> r == Err::<u128, BookError>(BookError::InvalidQuantity) && final(self)@
                == old(self)@,
            quantity > 0 && old(self)@.index.contains_key(id) ==> r == Err::<u128, BookError>(
                BookError::DuplicateOrderId,
            ) && final(self)@ == old(self)@,
            quantity > 0 && !old(self)@.index.contains_key(id) && limit_refused(
                old(self)@,
                price,
                quantity,
                side,
            ) ==> r == Err::<u128, BookError>(BookError::TradeValueOverflow) && final(self)@ == old(
                self,
            )@,
            quantity > 0 && !old(self)@.index.contains_key(id) && !limit_refused(
                old(self)@,
                price,
                quantity,
                side,
            ) ==> r == Ok::<u128, BookError>(id) && limit_order_outcome(
                old(self)@,
                final(self)@,
                id,
                price,
                quantity,
                side,
                timestamp,
            ),
            quantity > 0 && !old(self)@.index.contains_key(id) && !limit_refused(
                old(self)@,
                price,
                quantity,
                side,
            ) ==> forall|b: u64|
                best_price(old(self)@.side(side.spec_opposite()), side.spec_opposite()) == Some(b)
                    && crosses(side, price, b) ==> #[trigger] time_priority_kept(
                    old(self).queue_order(side.spec_opposite(), b),
                    final(self)@,
                ),
    {
        if quantity == 0 {
            return Err(BookError::InvalidQuantity);
        }
        if index_get(&self.orders, id).is_some() {
            return Err(BookError::DuplicateOrderId);
        }
        let opp = side.opposite();
        let best = self.best(opp);
        let ghost pre = self@;
        let ghost pre_book = *self;
        let crossing = match best {
            Some(b) => match side {
                Side::Buy => b <= price,
                Side::Sell => price <= b,
            },
            None => false,
        };
        if crossing {
            let b = match best {
                Some(b) => b,
                None => 0,
            };
            if !trade_value_fits(quantity, b) {
                return Err(BookError::TradeValueOverflow);
            }
            let (remaining, Ghost(after), Ghost(filled)) = self.take_best(
                opp,
                b,
                quantity,
                id,
                timestamp,
            );
            if remaining > 0 {
                self.rest_order(id, price, remaining, side, timestamp);
            }
            proof {
                let t = later(pre.last_traded_at, timestamp);
                let m0 = take_from(pre, opp, b, after, filled);
                let rested = if remaining > 0 {
                    rest(m0, id, price, remaining, side)
                } else {
                    m0
                };
                assert(self@ == rested.with_last_trade(t));
                assert(match_outcome(pre.side(opp)[b], quantity, after, filled, remaining));
                let order = pre_book.queue_order(opp, b);
                let levels = match opp {
                    Side::Buy => pre_book.bids@,
                    Side::Sell => pre_book.asks@,
                };
                let lv = levels[position_of(levels, b)];
                lemma_live_distinct(level_queue(lv.orders), level_orders(lv.orders));
                assert(pre.side(opp)[b] == level_orders(lv.orders));
                lemma_priority_of_prefix(pre, self@, opp, b, order, filled);
                assert forall|b2: u64|
                    best_price(pre.side(opp), opp) == Some(b2) && crosses(side, price, b2)
                        implies #[trigger] time_priority_kept(pre_book.queue_order(opp, b2), self@) by {
                }
            }
        } else {
            self.rest_order(id, price, quantity, side, timestamp);
        }
        Ok(id)
    }

    /// Puts a market order with quantity still wanted at the back of its
    /// side's queue.
    fn enqueue(&mut self, side: Side, id: u128, quantity: u64)
        requires
            old(self).wf(),
            quantity > 0,
        ensures
            final(self).wf(),
            keeps_extras(*final(self), *old(self)),
            final(self)@ == old(self)@.with_queue(side, old(self)@.queue(side).push((id, quantity))),
    {
        let ghost pre = self@;
        match side {
            Side::Buy => queue_push(&mut self.market_orders_bids, (id, quantity)),
            Side::Sell => queue_push(&mut self.market_orders_asks, (id, quantity)),
        }
        proof {
            let q = pre.queue(side).push((id, quantity));
            assert forall|i: int| 0 <= i < q.len() implies #[trigger] q[i].1 > 0 by {
                if i < pre.queue(side).len() {
                    assert(q[i] == pre.queue(side)[i]);
                }
            }
            assert(self@ == pre.with_queue(side, q));
        }
    }

    /// Submits a market order once at time `now`, without retrying waiting
    /// ones. Returns its unfilled quantity, or `None` where it is refused.
    fn submit_market_order_direct(&mut self, id: u128, quantity: u64, side: Side, now: u64) -> (r:
        Option<u64>)
        requires
            old(self).wf(),
            quantity > 0,
        ensures
            final(self).wf(),
            keeps_extras(*final(self), *old(self)),
            market_order_outcome(old(self)@, final(self)@, id, quantity, side, now, r),
    {
        let opp = side.opposite();
        let best = self.best(opp);
        let ghost pre = self@;
        match best {
            None => {
                self.enqueue(side, id, quantity);
                Some(quantity)
            },
            Some(b) => {
                if !trade_value_fits(quantity, b) {
                    return None;
                }
                let (remaining, Ghost(after), Ghost(filled)) = self.take_best(
                    opp,
                    b,
                    quantity,
                    id,
                    now,
                );
                if remaining > 0 {
                    self.enqueue(side, id, remaining);
                }
                proof {
                    let t = later(pre.last_traded_at, now);
                    let m0 = take_from(pre, opp, b, after, filled);
                    let waiting = if remaining > 0 {
                        m0.queue(side).push((id, remaining))
                    } else {
                        m0.queue(side)
                    };
                    assert(self@ == m0.with_queue(side, waiting).with_last_trade(t));
                    assert(match_outcome(pre.side(opp)[b], quantity, after, filled, remaining));
                }
                Some(remaining)
            },
        }
    }

    /// Submits again at time `now` the oldest waiting market orders of
    /// `side`, up to the retry limit; what is left of each waits again.
    fn retry_market_orders_for_side(&mut self, side: Side, now: u64)
        requires
            old(self).wf(),
        ensures
            final(self).wf(),
            keeps_extras(*final(self), *old(self)),
            retry_side_outcome(old(self)@, final(self)@, side, old(self).retry_limit(), now),
    {
        let ghost pre = self@;
        let ghost w = pre.queue(side);
        let max = self.max_orders_per_retry;
        let batch = match side {
            Side::Buy => take_batch(&mut self.market_orders_bids, max),
            Side::Sell => take_batch(&mut self.market_orders_asks, max),
        };
        let ghost k = retry_count(pre, side, max as nat);
        proof {
            assert(self@ == pre.with_queue(side, w.skip(k as int)));
            assert forall|i: int| 0 <= i < w.skip(k as int).len() implies #[trigger] w.skip(
                k as int,
            )[i].1 > 0 by {
                assert(w.skip(k as int)[i] == w[i + k]);
            }
        }
        let ghost start = *self;
        let ghost mut states: Seq<BookModel> = seq![self@];
        let ghost mut rs: Seq<Option<u64>> = Seq::empty();
        let mut j: usize = 0;
        while j < batch.len()
            invariant
                self.wf(),
                keeps_extras(*self, start),
                keeps_extras(start, *old(self)),
                self.max_orders_per_retry == max,
                k == retry_count(pre, side, max as nat),
                w == pre.queue(side),
                crate::model::queue_wf(w),
                batch@ == w.take(k as int),
                j <= batch@.len(),
                states.len() == j + 1,
                rs.len() == j,
                states[0] == pre.with_queue(side, w.skip(k as int)),
                states[j as int] == self@,
                forall|i: int|
                    0 <= i < j ==> #[trigger] market_order_outcome(
                        states[i],
                        states[i + 1],
                        w[i].0,
                        w[i].1,
                        side,
                        now,
                        rs[i],
                    ),
            decreases batch@.len() - j,
        {
            let (oid, q) = batch[j];
            assert(batch@[j as int] == w[j as int]);
            let r = self.submit_market_order_direct(oid, q, side, now);
            proof {
                let old_states = states;
                let old_rs = rs;
                states = states.push(self@);
                rs = rs.push(r);
                assert forall|i: int| 0 <= i < j + 1 implies #[trigger] market_order_outcome(
                    states[i],
                    states[i + 1],
                    w[i].0,
                    w[i].1,
                    side,
                    now,
                    rs[i],
                ) by {
                    if i < j {
                        assert(states[i] == old_states[i]);
                        assert(states[i + 1] == old_states[i + 1]);
                        assert(rs[i] == old_rs[i]);
                    }
                }
            }
            j = j + 1;
        }
        proof {
            assert(retry_run(pre, side, max as nat, now, states, rs));
            assert(states.last() == self@);
        }
    }

    /// Retries the waiting market orders of both sides at time `now`.
    fn retry_at(&mut self, now: u64)
        requires
            old(self).wf(),
        ensures
            final(self).wf(),
            keeps_extras(*final(self), *old(self)),
            retry_outcome(old(self)@, final(self)@, old(self).retry_limit(), now),
    {
        let ghost pre = self@;
        self.retry_market_orders_for_side(Side::Buy, now);
        let ghost mid = self@;
        self.retry_market_orders_for_side(Side::Sell, now);
        assert(retry_side_outcome(pre, mid, Side::Buy, self.retry_limit(), now));
    }

    /// Submits again the waiting market orders of both sides, up to the retry
    /// limit per side, market buys first, at the time read from the clock.
    pub fn retry_unfilled_market_orders(&mut self)
        requires
            old(self).wf(),
        ensures
            final(self).wf(),
            final(self).keeps_setup_of(*old(self)),
            exists|now: u64| #[trigger] retry_outcome(old(self)@, final(self)@, old(self).retry_limit(), now),
            old(self)@.last_traded_at <= final(self)@.last_traded_at,
    {
        let ghost pre = self@;
        let now = current_time_millis();
        self.retry_at(now);
        proof {
            lemma_retry_keeps_trade_time(pre, self@, self.retry_limit(), now);
        }
    }

    /// Adds a limit order stamped with the time now, then retries the
    /// waiting market orders, which the new liquidity may serve.
    pub fn add_to_limit_order(&mut self, id: u128, price: u64, quantity: u64, side: Side) -> (r:
        Result<u128, BookError>)
        requires
            old(self).wf(),
        ensures
            final(self).wf(),
            final(self).keeps_setup_of(*old(self)),
            quantity == 0 ==> r == Err::<u128, BookError>(BookError::InvalidQuantity) && final(self)@
                == old(self)@,
            quantity > 0 && old(self)@.index.contains_key(id) ==> r == Err::<u128, BookError>(
                BookError::DuplicateOrderId,
            ) && final(self)@ == old(self)@,
            quantity > 0 && !old(self)@.index.contains_key(id) && limit_refused(
                old(self)@,
                price,
                quantity,
                side,
            ) ==> r == Err::<u128, BookError>(BookError::TradeValueOverflow) && final(self)@ == old(
                self,
            )@,
            quantity > 0 && !old(self)@.index.contains_key(id) && !limit_refused(
                old(self)@,
                price,
                quantity,
                side,
            ) ==> r == Ok::<u128, BookError>(id) && exists|now: u64, mid: BookModel|
                #[trigger] limit_order_outcome(old(self)@, mid, id, price, quantity, side, now)
                    && retry_outcome(mid, final(self)@, old(self).retry_limit(), now),
            old(self)@.last_traded_at <= final(self)@.last_traded_at,
    {
        let ghost pre = self@;
        let clock = utc_now_millis();
        let now: u64 = if clock < 0 {
            0
        } else {
            clock as u64
        };
        let r = self.add_order(id, price, quantity, side, now);
        if r.is_err() {
            return r;
        }
        let ghost mid = self@;
        self.retry_at(now);
        proof {
            lemma_limit_order_keeps_trade_time(pre, mid, id, price, quantity, side, now);
            lemma_retry_keeps_trade_time(mid, self@, self.retry_limit(), now);
        }
        r
    }

    /// Submits a market order against the opposite best level at the time
    /// read from the clock, then retries the waiting market orders. Returns
    /// the quantity left unfilled, which waits in the queue; 0 means a
    /// complete fill.
    pub fn submit_market_order(&mut self, id: u128, quantity: u64, side: Side) -> (r: Result<
        u64,
        BookError,
    >)
        requires
            old(self).wf(),
        ensures
            final(self).wf(),
            final(self).keeps_setup_of(*old(self)),
            quantity == 0 ==> r == Err::<u64, BookError>(BookError::InvalidQuantity) && final(self)@
                == old(self)@,
            quantity > 0 && market_refused(old(self)@, quantity, side) ==> r == Err::<
                u64,
                BookError,
            >(BookError::TradeValueOverflow) && final(self)@ == old(self)@,
            quantity > 0 && !market_refused(old(self)@, quantity, side) ==> r is Ok && exists|
                now: u64,
                mid: BookModel,
            |
                #[trigger] market_order_outcome(old(self)@, mid, id, quantity, side, now, Some(r->Ok_0))
                    && retry_outcome(mid, final(self)@, old(self).retry_limit(), now),
            old(self)@.last_traded_at <= final(self)@.last_traded_at,
    {
        if quantity == 0 {
            return Err(BookError::InvalidQuantity);
        }
        let ghost pre = self@;
        let now = current_time_millis();
        let direct = self.submit_market_order_direct(id, quantity, side, now);
        let remaining = match direct {
            Some(rem) => rem,
            None => {
                return Err(BookError::TradeValueOverflow);
            },
        };
        let ghost mid = self@;
        self.retry_at(now);
        let r = Ok(remaining);
        assert(market_order_outcome(pre, mid, id, quantity, side, now, Some(r->Ok_0)));
        proof {
            lemma_market_order_keeps_trade_time(pre, mid, id, quantity, side, now, direct);
            lemma_retry_keeps_trade_time(mid, self@, self.retry_limit(), now);
        }
        r
    }
}

impl OrderBook {
    /// Applies `update` to the resting order `order_id`: a new price moves it
    /// to the level at that price, a new quantity changes it where it rests,
    /// and a cancellation takes it out of its level and the index. A level
    /// left empty goes.
    pub fn update_order(&mut self, update: OrderModification, order_id: u128) -> (r: Result<
        (),
        BookError,
    >)
        requires
            old(self).wf(),
        ensures
            final(self).wf(),
            final(self).keeps_setup_of(*old(self)),
            !old(self)@.index.contains_key(order_id) ==> r == Err::<(), BookError>(
                BookError::OrderNotFound,
            ) && final(self)@ == old(self)@,
            old(self)@.index.contains_key(order_id) && !update.quantity_valid() ==> r == Err::<
                (),
                BookError,
            >(BookError::InvalidQuantity) && final(self)@ == old(self)@,
            old(self)@.index.contains_key(order_id) && update.quantity_valid() ==> r == Ok::<
                (),
                BookError,
            >(()) && final(self)@ == modified(old(self)@, update, order_id),
    {
        let (price, side) = match index_get(&self.orders, order_id) {
            None => {
                return Err(BookError::OrderNotFound);
            },
            Some(loc) => loc,
        };
        let valid = match update {
            OrderModification::UpdateQuantity { new_quantity, .. } => new_quantity > 0,
            OrderModification::UpdatePriceAndQuantity { new_quantity, .. } => new_quantity > 0,
            _ => true,
        };
        if !valid {
            return Err(BookError::InvalidQuantity);
        }
        let ghost pre = self@;
        proof {
            assert(pre.index.contains_key(order_id));
            assert(pre.index[order_id] == (price, side));
            assert(pre.index_wf());
            assert(pre.side(side).contains_key(price));
            assert(pre.level_wf(side, price));
            lemma_modified_wf(pre, update, order_id);
        }
        let found = match side {
            Side::Buy => find_level(&self.bids, price),
            Side::Sell => find_level(&self.asks, price),
        };
        let i = match found {
            Some(i) => i,
            None => {
                return Err(BookError::OrderNotInLevels);
            },
        };
        proof {
            match side {
                Side::Buy => lemma_side_map_at(self.bids@, i as int),
                Side::Sell => lemma_side_map_at(self.asks@, i as int),
            }
        }
        match update {
            OrderModification::UpdateQuantity { new_quantity, .. } => {
                let present = match side {
                    Side::Buy => requantify_on_side(&mut self.bids, i, order_id, new_quantity),
                    Side::Sell => requantify_on_side(&mut self.asks, i, order_id, new_quantity),
                };
                if !present {
                    return Err(BookError::OrderNotInLevels);
                }
                assert(self@ == modified(pre, update, order_id));
            },
            _ => {
                let removed = match side {
                    Side::Buy => remove_from_side(&mut self.bids, i, order_id),
                    Side::Sell => remove_from_side(&mut self.asks, i, order_id),
                };
                let quantity = match removed {
                    Some(q) => q,
                    None => {
                        return Err(BookError::OrderNotInLevels);
                    },
                };
                index_remove(&mut self.orders, order_id);
                proof {
                    lemma_remove_order_wf(pre, order_id);
                    assert(self@ == remove_order(pre, order_id));
                }
                let moved = match update {
                    OrderModification::UpdatePrice { new_price, .. } => Some((new_price, quantity)),
                    OrderModification::UpdatePriceAndQuantity { new_price, new_quantity, .. } => Some(
                        (new_price, new_quantity),
                    ),
                    _ => None,
                };
                if let Some((new_price, new_quantity)) = moved {
                    let now = utc_now_millis();
                    let timestamp: u64 = if now < 0 {
                        0
                    } else {
                        now as u64
                    };
                    self.rest_order(order_id, new_price, new_quantity, side, timestamp);
                }
                assert(self@ == modified(pre, update, order_id));
            },
        }
        Ok(())
    }

    /// Whether a level stands at `price` on `side`.
    pub fn has_level(&self, side: Side, price: u64) -> (r: bool)
        requires
            self.wf(),
        ensures
            r == self@.side(side).contains_key(price),
    {
        let found = match side {
            Side::Buy => find_level(&self.bids, price),
            Side::Sell => find_level(&self.asks, price),
        };
        found.is_some()
    }

    /// The quantity resting at `price` on `side` (as the level's wrapping
    /// counter holds it), or `None` where no level stands there.
    pub fn level_quantity(&self, side: Side, price: u64) -> (r: Option<u64>)
        requires
            self.wf(),
        ensures
            r is Some <==> self@.side(side).contains_key(price),
            r is Some ==> r->0 == map_total(self@.side(side)[price]) % 0x1_0000_0000_0000_0000,
    {
        let levels: &Vec<Level> = match side {
            Side::Buy => &self.bids,
            Side::Sell => &self.asks,
        };
        match find_level(levels, price) {
            Some(i) => {
                proof {
                    lemma_side_map_at(levels@, i as int);
                }
                Some(level_visible_quantity(&levels[i].orders))
            },
            None => None,
        }
    }

    /// The number of orders resting at `price` on `side`, or `None` where no
    /// level stands there.
    pub fn level_order_count(&self, side: Side, price: u64) -> (r: Option<usize>)
        requires
            self.wf(),
        ensures
            r is Some <==> self@.side(side).contains_key(price),
            r is Some ==> r->0 == self@.side(side)[price].len(),
    {
        let levels: &Vec<Level> = match side {
            Side::Buy => &self.bids,
            Side::Sell => &self.asks,
        };
        match find_level(levels, price) {
            Some(i) => {
                proof {
                    lemma_side_map_at(levels@, i as int);
                }
                Some(crate::level::level_order_count(&levels[i].orders))
            },
            None => None,
        }
    }

    /// Whether no level stands on `side`.
    pub fn is_side_empty(&self, side: Side) -> (r: bool)
        requires
            self.wf(),
        ensures
            r == self@.side(side).dom().is_empty(),
    {
        let levels: &Vec<Level> = match side {
            Side::Buy => &self.bids,
            Side::Sell => &self.asks,
        };
        proof {
            if levels@.len() > 0 {
                lemma_side_map_at(levels@, 0);
            } else {
                assert(self@.side(side).dom() =~= Set::empty());
            }
        }
        levels.len() == 0
    }

    /// The number of orders in the index.
    pub fn resting_order_count(&self) -> (r: usize)
        ensures
            r == self@.index.len(),
    {
        index_len(&self.orders)
    }

    /// Whether the index holds order `id`.
    pub fn contains_order(&self, id: u128) -> (r: bool)
        ensures
            r == self@.index.contains_key(id),
    {
        index_get(&self.orders, id).is_some()
    }

    /// The number of market orders of `side` waiting for liquidity.
    pub fn pending_market_orders(&self, side: Side) -> (r: usize)
        ensures
            r == self@.queue(side).len(),
    {
        match side {
            Side::Buy => queue_len(&self.market_orders_bids),
            Side::Sell => queue_len(&self.market_orders_asks),
        }
    }
}

impl OrderBook {
    /// Adds `quantity` to what `exchange` quotes at `price` on `side`
    /// (saturating at the largest `u64`).
    pub fn add_exchange_price_level(&mut self, price: u64, exchange: Exchange, side: Side, quantity: u64)
        requires
            old(self).wf(),
        ensures
            final(self).wf(),
            final(self)@ == old(self)@,
            final(self).symbol_of() == old(self).symbol_of(),
            final(self).retry_limit() == old(self).retry_limit(),
            final(self).quotes(side.spec_opposite()) == old(self).quotes(side.spec_opposite()),
            final(self).quotes(side) == old(self).quotes(side).insert(
                (price, exchange),
                if old(self).quotes(side).contains_key((price, exchange)) {
                    if old(self).quotes(side)[(price, exchange)] + quantity <= u64::MAX {
                        (old(self).quotes(side)[(price, exchange)] + quantity) as u64
                    } else {
                        u64::MAX
                    }
                } else {
                    quantity
                },
            ),
    {
        match side {
            Side::Buy => self.exchange_bids_price_level.add(price, exchange, quantity),
            Side::Sell => self.exchange_asks_price_level.add(price, exchange, quantity),
        }
    }

    /// The quantity `exchange` quotes at `price` on `side`, if any.
    pub fn exchange_quantity(&self, side: Side, price: u64, exchange: Exchange) -> (r: Option<u64>)
        requires
            self.wf(),
        ensures
            r == if self.quotes(side).contains_key((price, exchange)) {
                Some(self.quotes(side)[(price, exchange)])
            } else {
                None
            },
    {
        match side {
            Side::Buy => self.exchange_bids_price_level.quantity(price, exchange),
            Side::Sell => self.exchange_asks_price_level.quantity(price, exchange),
        }
    }

    /// The highest bid price quoted by `exchange`, if it quotes any.
    pub fn exchange_best_bid(&self, exchange: Exchange) -> (r: Option<u64>)
        requires
            self.wf(),
        ensures
            r is Some ==> is_best_quote(self.quotes(Side::Buy), Side::Buy, Some(exchange), (r->0, exchange)),
            r is None ==> forall|q: (u64, Exchange)| #[trigger]
                self.quotes(Side::Buy).contains_key(q) ==> q.1 != exchange,
    {
        match self.exchange_bids_price_level.best(Side::Buy, Some(exchange)) {
            Some((p, _)) => Some(p),
            None => None,
        }
    }

    /// The lowest ask price quoted by `exchange`, if it quotes any.
    pub fn exchange_best_ask(&self, exchange: Exchange) -> (r: Option<u64>)
        requires
            self.wf(),
        ensures
            r is Some ==> is_best_quote(self.quotes(Side::Sell), Side::Sell, Some(exchange), (r->0, exchange)),
            r is None ==> forall|q: (u64, Exchange)| #[trigger]
                self.quotes(Side::Sell).contains_key(q) ==> q.1 != exchange,
    {
        match self.exchange_asks_price_level.best(Side::Sell, Some(exchange)) {
            Some((p, _)) => Some(p),
            None => None,
        }
    }

    /// The highest bid price quoted on any exchange, with an exchange that
    /// quotes it; `None` where no bid is quoted.
    pub fn best_bid_all_exchanges(&self) -> (r: Option<(u64, Exchange)>)
        requires
            self.wf(),
        ensures
            r is Some ==> is_best_quote(self.quotes(Side::Buy), Side::Buy, None, r->0),
            r is None ==> self.quotes(Side::Buy).is_empty(),
    {
        let r = self.exchange_bids_price_level.best(Side::Buy, None);
        proof {
            if r is None {
                assert(self.quotes(Side::Buy) =~= Map::empty());
            }
        }
        r
    }

    /// The lowest ask price quoted on any exchange, with an exchange that
    /// quotes it; `None` where no ask is quoted.
    pub fn best_ask_all_exchanges(&self) -> (r: Option<(u64, Exchange)>)
        requires
            self.wf(),
        ensures
            r is Some ==> is_best_quote(self.quotes(Side::Sell), Side::Sell, None, r->0),
            r is None ==> self.quotes(Side::Sell).is_empty(),
    {
        let r = self.exchange_asks_price_level.best(Side::Sell, None);
        proof {
            if r is None {
                assert(self.quotes(Side::Sell) =~= Map::empty());
            }
        }
        r
    }

    /// For a price seen on `exchange`, the best quote of the opposite side
    /// across exchanges where it comes from another exchange and is better
    /// than that price: an ask below a bid, or a bid above an ask.
    pub fn check_for_immediate_purchase(
        &self,
        price: u64,
        exchange: Exchange,
        side: Side,
        quantity: u64,
    ) -> (r: Option<(u64, Exchange)>)
        requires
            self.wf(),
        ensures
            r is Some ==> is_best_quote(self.quotes(side.spec_opposite()), side.spec_opposite(), None, r->0)
                && key_exchange(r->0) != exchange && match side {
                Side::Buy => key_price(r->0) < price,
                Side::Sell => key_price(r->0) > price,
            },
            r is None ==> self.quotes(side.spec_opposite()).is_empty() || exists|k: (u64, Exchange)|
                #[trigger] is_best_quote(self.quotes(side.spec_opposite()), side.spec_opposite(), None, k)
                    && (key_exchange(k) == exchange || match side {
                    Side::Buy => key_price(k) >= price,
                    Side::Sell => key_price(k) <= price,
                }),
    {
        let best = match side {
            Side::Buy => self.best_ask_all_exchanges(),
            Side::Sell => self.best_bid_all_exchanges(),
        };
        match best {
            Some((p, e)) => {
                let better = match side {
                    Side::Buy => p < price,
                    Side::Sell => p > price,
                };
                if e != exchange && better {
                    Some((p, e))
                } else {
                    None
                }
            },
            None => None,
        }
    }
}

/// Where the orders used up are the front of a level's order, and nothing
/// else of that level leaves the index, time priority is kept.
proof fn lemma_priority_of_prefix(
    pre: BookModel,
    post: BookModel,
    opp: Side,
    b: u64,
    order: Seq<u128>,
    filled: Seq<u128>,
)
    requires
        pre.wf(),
        pre.side(opp).contains_key(b),
        order.no_duplicates(),
        forall|k: int| 0 <= k < order.len() ==> pre.side(opp)[b].contains_key(#[trigger] order[k]),
        filled.len() <= order.len(),
        filled == order.take(filled.len() as int),
        forall|x: u128|
            pre.index.contains_key(x) && !filled.to_set().contains(x) ==> #[trigger] post.index.contains_key(x),
        forall|x: u128| filled.to_set().contains(x) ==> !#[trigger] post.index.contains_key(x),
    ensures
        time_priority_kept(order, post),
{
    assert(pre.level_wf(opp, b));
    assert forall|i: int, k: int|
        0 <= i < k < order.len() && !post.index.contains_key(#[trigger] order[k]) implies !post.index.contains_key(
        #[trigger] order[i],
    ) by {
        assert(pre.side(opp)[b].contains_key(order[k]));
        assert(pre.index.contains_key(order[k]));
        assert(filled.to_set().contains(order[k]));
        let idx = choose|idx: int| 0 <= idx < filled.len() && filled[idx] == order[k];
        assert(filled[idx] == order[idx]);
        assert(idx == k);
        assert(filled[i] == order[i]);
        assert(filled.to_set().contains(filled[i]));
    }
}

/// A side with a level has a best price.
proof fn lemma_best_exists(levels: Seq<Level>, side: Side)
    requires
        levels.len() > 0,
    ensures
        exists|p: u64| is_best(side_map(levels), side, p),
    decreases levels.len(),
{
    let m = side_map(levels);
    if levels.len() == 1 {
        let p = levels[0].price;
        assert forall|q: u64| #[trigger] m.contains_key(q) implies q == p by {
            let j = choose|j: int| 0 <= j < levels.len() && levels[j].price == q;
        }
        assert(m.contains_key(p));
        assert(is_best(m, side, p));
    } else {
        let rest = levels.drop_last();
        lemma_best_exists(rest, side);
        let mr = side_map(rest);
        let b = choose|p: u64| is_best(mr, side, p);
        let last = levels.last().price;
        let pick = match side {
            Side::Buy => if last > b {
                last
            } else {
                b
            },
            Side::Sell => if last < b {
                last
            } else {
                b
            },
        };
        let jb = choose|j: int| 0 <= j < rest.len() && rest[j].price == b;
        assert(levels[jb].price == b);
        assert(levels[levels.len() - 1].price == last);
        assert(m.contains_key(pick));
        assert forall|q: u64| #[trigger] m.contains_key(q) implies match side {
            Side::Buy => q <= pick,
            Side::Sell => pick <= q,
        } by {
            let j = choose|j: int| 0 <= j < levels.len() && levels[j].price == q;
            if j < levels.len() - 1 {
                assert(rest[j].price == q);
                assert(mr.contains_key(q));
            }
        }
        assert(is_best(m, side, pick));
    }
}

} // verus!
