//! Quantities quoted per exchange and price, on one side of the market.
use vstd::prelude::*;
use crate::api::Exchange;
use crate::types::Side;

verus! {

/// The quantity quoted at one price on one exchange.
#[derive(Clone, Copy, Debug, PartialEq, Eq, Structural)]
pub struct Quote {
    pub price: u64,
    pub exchange: Exchange,
    pub quantity: u64,
}

/// The quotes of one side, at most one per price and exchange.
pub struct ExchangeLevels {
    quotes: Vec<Quote>,
}

pub open spec fn has_key(s: Seq<Quote>, k: (u64, Exchange)) -> bool {
    exists|i: int| 0 <= i < s.len() && s[i].price == k.0 && s[i].exchange == k.1
}

pub open spec fn key_position(s: Seq<Quote>, k: (u64, Exchange)) -> int {
    choose|i: int| 0 <= i < s.len() && s[i].price == k.0 && s[i].exchange == k.1
}

/// The quotes as a map from price and exchange to quantity.
pub open spec fn quote_map(s: Seq<Quote>) -> Map<(u64, Exchange), u64> {
    Map::new(|k: (u64, Exchange)| has_key(s, k), |k: (u64, Exchange)| s[key_position(s, k)].quantity)
}

pub open spec fn key_price(k: (u64, Exchange)) -> u64 {
    k.0
}

pub open spec fn key_exchange(k: (u64, Exchange)) -> Exchange {
    k.1
}

/// Whether `best` is a quote no worse than price `p` for `side`.
pub open spec fn covered(side: Side, p: u64, best: Option<(u64, Exchange)>) -> bool {
    best is Some && match side {
        Side::Buy => p <= key_price(best->0),
        Side::Sell => key_price(best->0) <= p,
    }
}

pub open spec fn distinct_keys(s: Seq<Quote>) -> bool {
    forall|i: int, j: int|
        0 <= i < s.len() && 0 <= j < s.len() && i != j ==> (#[trigger] s[i].price != #[trigger] s[j].price
            || s[i].exchange != s[j].exchange)
}

/// Whether `k` is a best quote of `m` for `side` among those of `exchange`
/// (of any exchange where it is `None`): the highest bid or the lowest ask.
pub open spec fn is_best_quote(
    m: Map<(u64, Exchange), u64>,
    side: Side,
    exchange: Option<Exchange>,
    k: (u64, Exchange),
) -> bool {
    &&& m.contains_key(k)
    &&& (exchange is Some ==> k.1 == exchange->0)
    &&& forall|q: (u64, Exchange)| #[trigger]
        m.contains_key(q) && (exchange is None || q.1 == exchange->0) ==> match side {
            Side::Buy => q.0 <= k.0,
            Side::Sell => k.0 <= q.0,
        }
}

proof fn lemma_quote_at(s: Seq<Quote>, i: int)
    requires
        distinct_keys(s),
        0 <= i < s.len(),
    ensures
        quote_map(s).contains_key((s[i].price, s[i].exchange)),
        quote_map(s)[(s[i].price, s[i].exchange)] == s[i].quantity,
{
    let k = (s[i].price, s[i].exchange);
    assert(has_key(s, k));
    let j = key_position(s, k);
    if j != i {
        assert(s[i].price != s[j].price || s[i].exchange != s[j].exchange);
    }
}

impl View for ExchangeLevels {
    type V = Map<(u64, Exchange), u64>;

    closed spec fn view(&self) -> Map<(u64, Exchange), u64> {
        quote_map(self.quotes@)
    }
}

impl ExchangeLevels {
    pub closed spec fn wf(&self) -> bool {
        distinct_keys(self.quotes@)
    }

    /// No quotes.
    pub fn new() -> (r: ExchangeLevels)
        ensures
            r.wf(),
            r@.is_empty(),
    {
        let r = ExchangeLevels { quotes: Vec::new() };
        assert(r@ =~= Map::empty());
        r
    }

    fn position(&self, price: u64, exchange: Exchange) -> (r: Option<usize>)
        requires
            self.wf(),
        ensures
            match r {
                Some(i) => i < self.quotes@.len() && self.quotes@[i as int].price == price
                    && self.quotes@[i as int].exchange == exchange,
                None => !self@.contains_key((price, exchange)),
            },
    {
        let mut i: usize = 0;
        while i < self.quotes.len()
            invariant
                i <= self.quotes@.len(),
                forall|j: int|
                    0 <= j < i ==> #[trigger] self.quotes@[j].price != price
                        || self.quotes@[j].exchange != exchange,
            decreases self.quotes@.len() - i,
        {
            if self.quotes[i].price == price && self.quotes[i].exchange == exchange {
                return Some(i);
            }
            i = i + 1;
        }
        proof {
            if has_key(self.quotes@, (price, exchange)) {
                let j = choose|j: int|
                    0 <= j < self.quotes@.len() && self.quotes@[j].price == price
                        && self.quotes@[j].exchange == exchange;
                assert(self.quotes@[j].price != price || self.quotes@[j].exchange != exchange);
            }
        }
        None
    }

    /// Adds `quantity` to what `exchange` quotes at `price` (saturating at
    /// the largest `u64`).
    pub fn add(&mut self, price: u64, exchange: Exchange, quantity: u64)
        requires
            old(self).wf(),
        ensures
            final(self).wf(),
            final(self)@ == old(self)@.insert(
                (price, exchange),
                if old(self)@.contains_key((price, exchange)) {
                    if old(self)@[(price, exchange)] + quantity <= u64::MAX {
                        (old(self)@[(price, exchange)] + quantity) as u64
                    } else {
                        u64::MAX
                    }
                } else {
                    quantity
                },
            ),
    {
        let ghost pre = self.quotes@;
        let k = (price, exchange);
        match self.position(price, exchange) {
            Some(i) => {
                proof {
                    lemma_quote_at(pre, i as int);
                }
                let old_q = self.quotes[i].quantity;
                let new_q = old_q.saturating_add(quantity);
                let q = Quote { price, exchange, quantity: new_q };
                self.quotes.set(i, q);
                proof {
                    let s2 = self.quotes@;
                    assert(s2 == pre.update(i as int, q));
                    assert(distinct_keys(s2)) by {
                        assert forall|a: int, b: int|
                            0 <= a < s2.len() && 0 <= b < s2.len() && a != b implies (
                            #[trigger] s2[a].price != #[trigger] s2[b].price || s2[a].exchange
                                != s2[b].exchange) by {
                            assert(s2[a].price == pre[a].price && s2[a].exchange == pre[a].exchange);
                            assert(s2[b].price == pre[b].price && s2[b].exchange == pre[b].exchange);
                        }
                    }
                    lemma_quote_at(s2, i as int);
                    assert forall|kk: (u64, Exchange)| has_key(s2, kk) <==> has_key(pre, kk) by {
                        if has_key(pre, kk) {
                            let j = choose|j: int|
                                0 <= j < pre.len() && pre[j].price == kk.0 && pre[j].exchange == kk.1;
                            assert(s2[j].price == kk.0 && s2[j].exchange == kk.1);
                        }
                        if has_key(s2, kk) {
                            let j = choose|j: int|
                                0 <= j < s2.len() && s2[j].price == kk.0 && s2[j].exchange == kk.1;
                            assert(pre[j].price == kk.0 && pre[j].exchange == kk.1);
                        }
                    }
                    assert forall|kk: (u64, Exchange)| #[trigger]
                        quote_map(s2).contains_key(kk) && kk != k implies quote_map(s2)[kk]
                        == quote_map(pre)[kk] by {
                        let j = key_position(s2, kk);
                        assert(j != i);
                        lemma_quote_at(s2, j);
                        lemma_quote_at(pre, j);
                    }
                    assert(quote_map(s2) =~= quote_map(pre).insert(k, new_q));
                }
            },
            None => {
                let q = Quote { price, exchange, quantity };
                self.quotes.push(q);
                proof {
                    let s2 = self.quotes@;
                    assert(s2 == pre.push(q));
                    assert(distinct_keys(s2)) by {
                        assert forall|a: int, b: int|
                            0 <= a < s2.len() && 0 <= b < s2.len() && a != b implies (
                            #[trigger] s2[a].price != #[trigger] s2[b].price || s2[a].exchange
                                != s2[b].exchange) by {
                            if a == pre.len() as int {
                                assert(!has_key(pre, k));
                                assert(s2[b] == pre[b]);
                            } else if b == pre.len() as int {
                                assert(!has_key(pre, k));
                                assert(s2[a] == pre[a]);
                            } else {
                                assert(s2[a] == pre[a]);
                                assert(s2[b] == pre[b]);
                            }
                        }
                    }
                    lemma_quote_at(s2, pre.len() as int);
                    assert forall|kk: (u64, Exchange)| #[trigger]
                        has_key(s2, kk) <==> has_key(pre, kk) || kk == k by {
                        if has_key(pre, kk) {
                            let j = choose|j: int|
                                0 <= j < pre.len() && pre[j].price == kk.0 && pre[j].exchange == kk.1;
                            assert(s2[j] == pre[j]);
                        }
                        if has_key(s2, kk) && kk != k {
                            let j = choose|j: int|
                                0 <= j < s2.len() && s2[j].price == kk.0 && s2[j].exchange == kk.1;
                            assert(j < pre.len());
                            assert(s2[j] == pre[j]);
                        }
                    }
                    assert forall|kk: (u64, Exchange)| #[trigger]
                        quote_map(s2).contains_key(kk) && kk != k implies quote_map(s2)[kk]
                        == quote_map(pre)[kk] by {
                        let j = key_position(s2, kk);
                        assert(s2[j].price == kk.0 && s2[j].exchange == kk.1);
                        assert(j < pre.len());
                        assert(s2[j] == pre[j]);
                        lemma_quote_at(s2, j);
                        lemma_quote_at(pre, j);
                    }
                    assert(quote_map(s2) =~= quote_map(pre).insert(k, quantity));
                }
            },
        }
    }

    /// The quantity `exchange` quotes at `price`, if any.
    pub fn quantity(&self, price: u64, exchange: Exchange) -> (r: Option<u64>)
        requires
            self.wf(),
        ensures
            r == if self@.contains_key((price, exchange)) {
                Some(self@[(price, exchange)])
            } else {
                None
            },
    {
        match self.position(price, exchange) {
            Some(i) => {
                proof {
                    lemma_quote_at(self.quotes@, i as int);
                }
                Some(self.quotes[i].quantity)
            },
            None => None,
        }
    }

    /// A best quote for `side` among those of `exchange` (of all exchanges
    /// where it is `None`), or `None` where there is no such quote.
    pub fn best(&self, side: Side, exchange: Option<Exchange>) -> (r: Option<(u64, Exchange)>)
        requires
            self.wf(),
        ensures
            r is Some ==> is_best_quote(self@, side, exchange, r->0),
            r is None ==> forall|q: (u64, Exchange)| #[trigger]
                self@.contains_key(q) ==> exchange is Some && q.1 != exchange->0,
    {
        let ghost m = self@;
        let mut best: Option<(u64, Exchange)> = None;
        let mut i: usize = 0;
        while i < self.quotes.len()
            invariant
                i <= self.quotes@.len(),
                distinct_keys(self.quotes@),
                m == quote_map(self.quotes@),
                best is Some ==> m.contains_key(best->0) && (exchange is Some ==> key_exchange(best->0)
                    == exchange->0),
                forall|j: int|
                    0 <= j < i && (exchange is None || self.quotes@[j].exchange == exchange->0)
                        ==> #[trigger] covered(side, self.quotes@[j].price, best),
            decreases self.quotes@.len() - i,
        {
            let ghost best0 = best;
            let q = self.quotes[i];
            let counts = match exchange {
                Some(e) => q.exchange == e,
                None => true,
            };
            if counts {
                let better = match best {
                    None => true,
                    Some((p, _)) => match side {
                        Side::Buy => q.price > p,
                        Side::Sell => q.price < p,
                    },
                };
                if better {
                    proof {
                        lemma_quote_at(self.quotes@, i as int);
                    }
                    best = Some((q.price, q.exchange));
                }
            }
            proof {
                assert forall|j: int|
                    0 <= j < i + 1 && (exchange is None || self.quotes@[j].exchange == exchange->0)
                        implies #[trigger] covered(side, self.quotes@[j].price, best) by {
                    if j < i {
                        assert(covered(side, self.quotes@[j].price, best0));
                    }
                }
            }
            i = i + 1;
        }
        proof {
            assert forall|q: (u64, Exchange)| #[trigger]
                m.contains_key(q) && (exchange is None || q.1 == exchange->0) implies best is Some
                && match side {
                Side::Buy => q.0 <= key_price(best->0),
                Side::Sell => key_price(best->0) <= q.0,
            } by {
                let j = choose|j: int|
                    0 <= j < self.quotes@.len() && self.quotes@[j].price == q.0
                        && self.quotes@[j].exchange == q.1;
                assert(self.quotes@[j].price == q.0);
                assert(covered(side, self.quotes@[j].price, best));
            }
        }
        best
    }
}

} // verus!
