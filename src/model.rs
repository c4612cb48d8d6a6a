//! The mathematical picture of an order book, and the steps it takes.
use vstd::prelude::*;
use crate::level::match_outcome;
use crate::modifications::OrderModification;
use crate::types::Side;

verus! {

/// An order book as maps and sequences: per side, price to the orders
/// resting there (identifier to quantity); the order index; per side, the
/// market orders waiting for liquidity; and the time of the last trade.
pub struct BookModel {
    pub bids: Map<u64, Map<u128, u64>>,
    pub asks: Map<u64, Map<u128, u64>>,
    pub index: Map<u128, (u64, Side)>,
    pub bid_queue: Seq<(u128, u64)>,
    pub ask_queue: Seq<(u128, u64)>,
    pub last_traded_at: u64,
}

/// Whether `p` is the best price of `levels` for `side`: the highest bid or
/// the lowest ask.
pub open spec fn is_best(levels: Map<u64, Map<u128, u64>>, side: Side, p: u64) -> bool {
    &&& levels.contains_key(p)
    &&& forall|q: u64| #[trigger]
        levels.contains_key(q) ==> match side {
            Side::Buy => q <= p,
            Side::Sell => p <= q,
        }
}

/// The best price of `levels` for `side`, `None` where there is no level.
pub open spec fn best_price(levels: Map<u64, Map<u128, u64>>, side: Side) -> Option<u64> {
    if exists|p: u64| is_best(levels, side, p) {
        Some(choose|p: u64| is_best(levels, side, p))
    } else {
        None
    }
}

/// Whether an order of `side` at `price` can trade with the opposite best
/// price `best`.
pub open spec fn crosses(side: Side, price: u64, best: u64) -> bool {
    match side {
        Side::Buy => best <= price,
        Side::Sell => price <= best,
    }
}

/// Whether a queue of waiting market orders holds no empty entry.
pub open spec fn queue_wf(q: Seq<(u128, u64)>) -> bool {
    forall|i: int| 0 <= i < q.len() ==> #[trigger] q[i].1 > 0
}

impl BookModel {
    pub open spec fn side(self, s: Side) -> Map<u64, Map<u128, u64>> {
        match s {
            Side::Buy => self.bids,
            Side::Sell => self.asks,
        }
    }

    pub open spec fn queue(self, s: Side) -> Seq<(u128, u64)> {
        match s {
            Side::Buy => self.bid_queue,
            Side::Sell => self.ask_queue,
        }
    }

    pub open spec fn with_side(self, s: Side, levels: Map<u64, Map<u128, u64>>) -> BookModel {
        match s {
            Side::Buy => BookModel { bids: levels, ..self },
            Side::Sell => BookModel { asks: levels, ..self },
        }
    }

    pub open spec fn with_queue(self, s: Side, q: Seq<(u128, u64)>) -> BookModel {
        match s {
            Side::Buy => BookModel { bid_queue: q, ..self },
            Side::Sell => BookModel { ask_queue: q, ..self },
        }
    }

    pub open spec fn with_index(self, index: Map<u128, (u64, Side)>) -> BookModel {
        BookModel { index, ..self }
    }

    pub open spec fn with_last_trade(self, t: u64) -> BookModel {
        BookModel { last_traded_at: t, ..self }
    }

    /// The level at `p` on side `s` holds at least one order, each with a
    /// positive quantity, and the index places each of them there.
    pub open spec fn level_wf(self, s: Side, p: u64) -> bool {
        let l = self.side(s)[p];
        &&& l.dom().finite()
        &&& l.dom().len() > 0
        &&& forall|id: u128| #[trigger]
            l.contains_key(id) ==> l[id] > 0 && self.index.contains_key(id) && self.index[id] == (
                p,
                s,
            )
    }

    /// Every indexed order rests where the index says.
    pub open spec fn index_wf(self) -> bool {
        forall|id: u128| #[trigger]
            self.index.contains_key(id) ==> self.side(self.index[id].1).contains_key(
                self.index[id].0,
            ) && self.side(self.index[id].1)[self.index[id].0].contains_key(id)
    }

    /// The book's invariant.
    pub open spec fn wf(self) -> bool {
        &&& forall|p: u64| #[trigger] self.bids.contains_key(p) ==> self.level_wf(Side::Buy, p)
        &&& forall|p: u64| #[trigger] self.asks.contains_key(p) ==> self.level_wf(Side::Sell, p)
        &&& self.index_wf()
        &&& queue_wf(self.bid_queue)
        &&& queue_wf(self.ask_queue)
    }
}

/// The book after an order rests: it joins the level at its price (made if
/// absent) and the index.
pub open spec fn rest(m: BookModel, id: u128, price: u64, quantity: u64, s: Side) -> BookModel {
    let levels = m.side(s);
    let l = if levels.contains_key(price) {
        levels[price]
    } else {
        Map::empty()
    };
    m.with_side(s, levels.insert(price, l.insert(id, quantity))).with_index(
        m.index.insert(id, (price, s)),
    )
}

/// The book after a match left the level at `p` on side `s` as `after` and
/// used up the orders `filled`: an emptied level goes, and the used orders
/// leave the index.
pub open spec fn take_from(
    m: BookModel,
    s: Side,
    p: u64,
    after: Map<u128, u64>,
    filled: Seq<u128>,
) -> BookModel {
    let levels = m.side(s);
    let levels2 = if after.dom().is_empty() {
        levels.remove(p)
    } else {
        levels.insert(p, after)
    };
    m.with_side(s, levels2).with_index(m.index.remove_keys(filled.to_set()))
}

/// The later of two times.
pub open spec fn later(a: u64, b: u64) -> u64 {
    if a >= b {
        a
    } else {
        b
    }
}

/// Whether matching `quantity` at `price` keeps the traded value (quantity
/// times price) within a `u64`.
pub open spec fn value_fits(quantity: u64, price: u64) -> bool {
    quantity as int * price as int <= u64::MAX
}

/// Whether a limit order is refused because it crosses the opposite best
/// price and its quantity times that price overflows a `u64`.
pub open spec fn limit_refused(pre: BookModel, price: u64, quantity: u64, s: Side) -> bool {
    let opp = s.spec_opposite();
    let best = best_price(pre.side(opp), opp);
    best is Some && crosses(s, price, best.unwrap()) && !value_fits(quantity, best.unwrap())
}

/// Whether a market order is refused because its quantity times the
/// opposite best price overflows a `u64`.
pub open spec fn market_refused(pre: BookModel, quantity: u64, s: Side) -> bool {
    let opp = s.spec_opposite();
    let best = best_price(pre.side(opp), opp);
    best is Some && !value_fits(quantity, best.unwrap())
}

/// What adding a limit order at time `now` does: where it crosses the
/// opposite best price it is matched against that one level, what is left
/// of it rests, and the time of the last trade becomes the later of itself
/// and `now`; otherwise all of it rests.
pub open spec fn limit_order_outcome(
    pre: BookModel,
    post: BookModel,
    id: u128,
    price: u64,
    quantity: u64,
    s: Side,
    now: u64,
) -> bool {
    let opp = s.spec_opposite();
    let best = best_price(pre.side(opp), opp);
    if best is Some && crosses(s, price, best.unwrap()) {
        let b = best.unwrap();
        exists|after: Map<u128, u64>, filled: Seq<u128>, remaining: u64|
            #[trigger] match_outcome(pre.side(opp)[b], quantity, after, filled, remaining) && {
                let mid = take_from(pre, opp, b, after, filled);
                let rested = if remaining > 0 {
                    rest(mid, id, price, remaining, s)
                } else {
                    mid
                };
                post == rested.with_last_trade(later(pre.last_traded_at, now))
            }
    } else {
        post == rest(pre, id, price, quantity, s)
    }
}

/// What submitting a market order at time `now` does, with `r` its unfilled
/// quantity (`None` where it is refused): against an empty opposite side
/// all of it waits in its side's queue; where its quantity times the best
/// price overflows it is refused and nothing changes; otherwise it is
/// matched against the opposite best level, what is left of it waits, and
/// the time of the last trade becomes the later of itself and `now`.
pub open spec fn market_order_outcome(
    pre: BookModel,
    post: BookModel,
    id: u128,
    quantity: u64,
    s: Side,
    now: u64,
    r: Option<u64>,
) -> bool {
    let opp = s.spec_opposite();
    let best = best_price(pre.side(opp), opp);
    if best is None {
        &&& r == Some(quantity)
        &&& post == pre.with_queue(s, pre.queue(s).push((id, quantity)))
    } else if !value_fits(quantity, best.unwrap()) {
        &&& r is None
        &&& post == pre
    } else {
        let b = best.unwrap();
        &&& r is Some
        &&& exists|after: Map<u128, u64>, filled: Seq<u128>|
            #[trigger] match_outcome(pre.side(opp)[b], quantity, after, filled, r->0) && {
                let mid = take_from(pre, opp, b, after, filled);
                let waiting = if r->0 > 0 {
                    mid.queue(s).push((id, r->0))
                } else {
                    mid.queue(s)
                };
                post == mid.with_queue(s, waiting).with_last_trade(later(pre.last_traded_at, now))
            }
    }
}

/// How many waiting orders of side `s` one retry takes up.
pub open spec fn retry_count(m: BookModel, s: Side, max: nat) -> nat {
    if max < m.queue(s).len() {
        max
    } else {
        m.queue(s).len()
    }
}

/// `states` is a run of resubmissions at time `now` of the first
/// `retry_count` waiting market orders of side `s`, each from the state
/// before it.
pub open spec fn retry_run(
    pre: BookModel,
    s: Side,
    max: nat,
    now: u64,
    states: Seq<BookModel>,
    rs: Seq<Option<u64>>,
) -> bool {
    let waiting = pre.queue(s);
    let k = retry_count(pre, s, max);
    &&& states.len() == k + 1
    &&& rs.len() == k
    &&& states[0] == pre.with_queue(s, waiting.skip(k as int))
    &&& forall|i: int|
        0 <= i < k ==> #[trigger] market_order_outcome(
            states[i],
            states[i + 1],
            waiting[i].0,
            waiting[i].1,
            s,
            now,
            rs[i],
        )
}

/// What one retry of side `s` at time `now` does: the oldest waiting
/// orders, up to `max`, leave the queue and are submitted again one after
/// another; what is left of each waits again at the back, and one that is
/// refused is dropped.
pub open spec fn retry_side_outcome(pre: BookModel, post: BookModel, s: Side, max: nat, now: u64) -> bool {
    exists|states: Seq<BookModel>, rs: Seq<Option<u64>>|
        #[trigger] retry_run(pre, s, max, now, states, rs) && states.last() == post
}

/// A retry of both sides at time `now`, market buys first.
pub open spec fn retry_outcome(pre: BookModel, post: BookModel, max: nat, now: u64) -> bool {
    exists|mid: BookModel|
        #[trigger] retry_side_outcome(pre, mid, Side::Buy, max, now) && retry_side_outcome(
            mid,
            post,
            Side::Sell,
            max,
            now,
        )
}

/// The book after the indexed order `id` leaves its level (and the level
/// goes if it is left empty) and the index.
pub open spec fn remove_order(m: BookModel, id: u128) -> BookModel {
    let p = m.index[id].0;
    let s = m.index[id].1;
    let l = m.side(s)[p].remove(id);
    let levels = if l.dom().is_empty() {
        m.side(s).remove(p)
    } else {
        m.side(s).insert(p, l)
    };
    m.with_side(s, levels).with_index(m.index.remove(id))
}

/// The book after `upd` is applied to the indexed order `id`.
pub open spec fn modified(m: BookModel, upd: OrderModification, id: u128) -> BookModel {
    let p = m.index[id].0;
    let s = m.index[id].1;
    match upd {
        OrderModification::Cancel { .. } => remove_order(m, id),
        OrderModification::UpdateQuantity { new_quantity, .. } => m.with_side(
            s,
            m.side(s).insert(p, m.side(s)[p].insert(id, new_quantity)),
        ),
        OrderModification::UpdatePrice { new_price, .. } => rest(
            remove_order(m, id),
            id,
            new_price,
            m.side(s)[p][id],
            s,
        ),
        OrderModification::UpdatePriceAndQuantity { new_price, new_quantity, .. } => rest(
            remove_order(m, id),
            id,
            new_price,
            new_quantity,
            s,
        ),
    }
}


/// A finite set with a member has a positive size.
pub proof fn lemma_nonempty_len<A>(s: Set<A>, a: A)
    requires
        s.finite(),
        s.contains(a),
    ensures
        s.len() > 0,
{
    if s.len() == 0 {
        assert(s =~= Set::empty());
    }
}

/// Taking from a level keeps the book's invariant.
pub proof fn lemma_take_from_wf(
    m: BookModel,
    s: Side,
    p: u64,
    q: u64,
    after: Map<u128, u64>,
    filled: Seq<u128>,
    r: u64,
)
    requires
        m.wf(),
        m.side(s).contains_key(p),
        match_outcome(m.side(s)[p], q, after, filled, r),
    ensures
        take_from(m, s, p, after, filled).wf(),
{
    let l = m.side(s)[p];
    let m2 = take_from(m, s, p, after, filled);
    assert(m.level_wf(s, p));
    assert forall|s2: Side, p2: u64| #[trigger] m2.side(s2).contains_key(p2) implies m2.level_wf(s2, p2) by {
        assert(m.side(s2).contains_key(p2));
        assert(m.level_wf(s2, p2));
        if s2 == s && p2 == p {
            let id0 = after.dom().choose();
            assert(!after.dom().is_empty());
            assert(after.contains_key(id0));
            lemma_nonempty_len(after.dom(), id0);
            assert forall|id: u128| #[trigger] after.contains_key(id) implies after[id] > 0
                && m2.index.contains_key(id) && m2.index[id] == (p2, s2) by {
                assert(l.contains_key(id));
                assert(!filled.to_set().contains(id));
            }
        } else {
            let l2 = m.side(s2)[p2];
            assert(m2.side(s2)[p2] == l2);
            assert forall|id: u128| #[trigger] l2.contains_key(id) implies l2[id] > 0
                && m2.index.contains_key(id) && m2.index[id] == (p2, s2) by {
                if filled.to_set().contains(id) {
                    assert(l.contains_key(id));
                }
            }
        }
    }
    assert forall|id: u128| #[trigger] m2.index.contains_key(id) implies m2.side(
        m2.index[id].1,
    ).contains_key(m2.index[id].0) && m2.side(m2.index[id].1)[m2.index[id].0].contains_key(id) by {
        assert(m.index.contains_key(id));
        assert(!filled.to_set().contains(id));
        if m.index[id].1 == s && m.index[id].0 == p {
            assert(l.contains_key(id));
            assert(after.contains_key(id));
        }
    }
    assert(forall|p2: u64| #[trigger] m2.bids.contains_key(p2) ==> m2.side(Side::Buy).contains_key(p2));
    assert(forall|p2: u64| #[trigger] m2.asks.contains_key(p2) ==> m2.side(Side::Sell).contains_key(p2));
}

/// Resting a fresh order with a positive quantity keeps the invariant.
pub proof fn lemma_rest_wf(m: BookModel, id: u128, price: u64, q: u64, s: Side)
    requires
        m.wf(),
        !m.index.contains_key(id),
        q > 0,
    ensures
        rest(m, id, price, q, s).wf(),
{
    let m2 = rest(m, id, price, q, s);
    assert forall|s2: Side, p2: u64| #[trigger] m2.side(s2).contains_key(p2) implies m2.level_wf(s2, p2) by {
        if s2 == s && p2 == price {
            let l = if m.side(s).contains_key(price) {
                m.side(s)[price]
            } else {
                Map::empty()
            };
            if m.side(s).contains_key(price) {
                assert(m.level_wf(s, price));
            }
            assert(l.dom().finite());
            lemma_nonempty_len(l.insert(id, q).dom(), id);
            assert forall|id2: u128| #[trigger] l.insert(id, q).contains_key(id2) implies l.insert(id, q)[id2] > 0
                && m2.index.contains_key(id2) && m2.index[id2] == (p2, s2) by {
                if id2 != id {
                    assert(l.contains_key(id2));
                }
            }
        } else {
            assert(m.side(s2).contains_key(p2));
            assert(m.level_wf(s2, p2));
            let l2 = m.side(s2)[p2];
            assert forall|id2: u128| #[trigger] l2.contains_key(id2) implies l2[id2] > 0
                && m2.index.contains_key(id2) && m2.index[id2] == (p2, s2) by {
                assert(m.index.contains_key(id2));
            }
        }
    }
    assert forall|id2: u128| #[trigger] m2.index.contains_key(id2) implies m2.side(
        m2.index[id2].1,
    ).contains_key(m2.index[id2].0) && m2.side(m2.index[id2].1)[m2.index[id2].0].contains_key(id2) by {
        if id2 != id {
            assert(m.index.contains_key(id2));
        }
    }
    assert(forall|p2: u64| #[trigger] m2.bids.contains_key(p2) ==> m2.side(Side::Buy).contains_key(p2));
    assert(forall|p2: u64| #[trigger] m2.asks.contains_key(p2) ==> m2.side(Side::Sell).contains_key(p2));
}

/// Removing an indexed order keeps the invariant and drops it from the index.
pub proof fn lemma_remove_order_wf(m: BookModel, id: u128)
    requires
        m.wf(),
        m.index.contains_key(id),
    ensures
        remove_order(m, id).wf(),
        !remove_order(m, id).index.contains_key(id),
{
    let p = m.index[id].0;
    let s = m.index[id].1;
    let l = m.side(s)[p].remove(id);
    let m2 = remove_order(m, id);
    assert(m.index_wf());
    assert(m.side(s).contains_key(p));
    assert(m.level_wf(s, p));
    assert forall|s2: Side, p2: u64| #[trigger] m2.side(s2).contains_key(p2) implies m2.level_wf(s2, p2) by {
        assert(m.side(s2).contains_key(p2));
        assert(m.level_wf(s2, p2));
        if s2 == s && p2 == p {
            let id0 = l.dom().choose();
            assert(!l.dom().is_empty());
            assert(l.contains_key(id0));
            lemma_nonempty_len(l.dom(), id0);
        } else {
            let l2 = m.side(s2)[p2];
            assert forall|id2: u128| #[trigger] l2.contains_key(id2) implies l2[id2] > 0
                && m2.index.contains_key(id2) && m2.index[id2] == (p2, s2) by {
                assert(m.index[id2] == (p2, s2));
            }
        }
    }
    assert forall|id2: u128| #[trigger] m2.index.contains_key(id2) implies m2.side(
        m2.index[id2].1,
    ).contains_key(m2.index[id2].0) && m2.side(m2.index[id2].1)[m2.index[id2].0].contains_key(id2) by {
        assert(m.index.contains_key(id2));
        if m.index[id2].1 == s && m.index[id2].0 == p {
            assert(l.contains_key(id2));
        }
    }
    assert(forall|p2: u64| #[trigger] m2.bids.contains_key(p2) ==> m2.side(Side::Buy).contains_key(p2));
    assert(forall|p2: u64| #[trigger] m2.asks.contains_key(p2) ==> m2.side(Side::Sell).contains_key(p2));
}

/// Applying a valid modification to an indexed order keeps the invariant.
pub proof fn lemma_modified_wf(m: BookModel, upd: OrderModification, id: u128)
    requires
        m.wf(),
        m.index.contains_key(id),
        upd.quantity_valid(),
    ensures
        modified(m, upd, id).wf(),
{
    let p = m.index[id].0;
    let s = m.index[id].1;
    assert(m.index_wf());
    assert(m.side(s).contains_key(p));
    assert(m.level_wf(s, p));
    match upd {
        OrderModification::UpdateQuantity { new_quantity, .. } => {
            let m2 = modified(m, upd, id);
            let l = m.side(s)[p].insert(id, new_quantity);
            assert(l.dom() =~= m.side(s)[p].dom());
            assert forall|s2: Side, p2: u64| #[trigger] m2.side(s2).contains_key(p2) implies m2.level_wf(s2, p2) by {
                assert(m.side(s2).contains_key(p2));
                assert(m.level_wf(s2, p2));
            }
            assert forall|id2: u128| #[trigger] m2.index.contains_key(id2) implies m2.side(
                m2.index[id2].1,
            ).contains_key(m2.index[id2].0) && m2.side(m2.index[id2].1)[m2.index[id2].0].contains_key(id2) by {
                assert(m.side(m.index[id2].1).contains_key(m.index[id2].0));
            }
            assert(forall|p2: u64| #[trigger] m2.bids.contains_key(p2) ==> m2.side(Side::Buy).contains_key(p2));
            assert(forall|p2: u64| #[trigger] m2.asks.contains_key(p2) ==> m2.side(Side::Sell).contains_key(p2));
        },
        OrderModification::Cancel { .. } => {
            lemma_remove_order_wf(m, id);
        },
        OrderModification::UpdatePrice { new_price, .. } => {
            lemma_remove_order_wf(m, id);
            lemma_rest_wf(remove_order(m, id), id, new_price, m.side(s)[p][id], s);
        },
        OrderModification::UpdatePriceAndQuantity { new_price, new_quantity, .. } => {
            lemma_remove_order_wf(m, id);
            lemma_rest_wf(remove_order(m, id), id, new_price, new_quantity, s);
        },
    }
}

} // verus!
