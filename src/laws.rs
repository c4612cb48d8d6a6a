//! Properties of the book that hold across operations.
use vstd::prelude::*;
use crate::level::{live, map_total, match_outcome, walked};
use crate::model::{
    best_price, crosses, is_best, later, rest, take_from, value_fits, lemma_modified_wf, lemma_remove_order_wf, limit_order_outcome,
    market_order_outcome, modified, remove_order, retry_outcome, retry_run, retry_side_outcome,
    BookModel,
};
use crate::modifications::OrderModification;
use crate::types::Side;

verus! {

/// The best price of a side is a price of one of its levels, that level
/// holds at least one order, and no level of the side has a better price:
/// the best bid is the highest bid level, the best ask the lowest ask level.
pub proof fn lemma_best_price_is_extreme_level(m: BookModel, side: Side, p: u64)
    requires
        m.wf(),
        best_price(m.side(side), side) == Some(p),
    ensures
        m.side(side).contains_key(p),
        m.side(side)[p].len() > 0,
        forall|q: u64| #[trigger]
            m.side(side).contains_key(q) ==> match side {
                Side::Buy => q <= p,
                Side::Sell => p <= q,
            },
{
    let c = choose|x: u64| is_best(m.side(side), side, x);
    assert(is_best(m.side(side), side, c));
    assert(m.level_wf(side, p));
}

/// Adding a limit order never moves the time of the last trade backwards.
pub proof fn lemma_limit_order_keeps_trade_time(
    pre: BookModel,
    post: BookModel,
    id: u128,
    price: u64,
    quantity: u64,
    side: Side,
    now: u64,
)
    requires
        limit_order_outcome(pre, post, id, price, quantity, side, now),
    ensures
        pre.last_traded_at <= post.last_traded_at,
{
}

/// A limit order that crosses the opposite best price trades, and the time
/// of the last trade becomes the later of its old value and the time of the
/// order.
pub proof fn lemma_crossing_order_stamps_trade_time(
    pre: BookModel,
    post: BookModel,
    id: u128,
    price: u64,
    quantity: u64,
    side: Side,
    now: u64,
)
    requires
        limit_order_outcome(pre, post, id, price, quantity, side, now),
        best_price(pre.side(side.spec_opposite()), side.spec_opposite()) is Some,
        crosses(
            side,
            price,
            best_price(pre.side(side.spec_opposite()), side.spec_opposite())->0,
        ),
    ensures
        post.last_traded_at == later(pre.last_traded_at, now),
        now <= post.last_traded_at,
{
}

/// A market order that meets liquidity and is not refused trades, and the
/// time of the last trade becomes the later of its old value and the time
/// of the order.
pub proof fn lemma_market_order_stamps_trade_time(
    pre: BookModel,
    post: BookModel,
    id: u128,
    quantity: u64,
    side: Side,
    now: u64,
    r: Option<u64>,
)
    requires
        market_order_outcome(pre, post, id, quantity, side, now, r),
        best_price(pre.side(side.spec_opposite()), side.spec_opposite()) is Some,
        r is Some,
    ensures
        post.last_traded_at == later(pre.last_traded_at, now),
        now <= post.last_traded_at,
{
}

/// Submitting a market order never moves the time of the last trade
/// backwards.
pub proof fn lemma_market_order_keeps_trade_time(
    pre: BookModel,
    post: BookModel,
    id: u128,
    quantity: u64,
    side: Side,
    now: u64,
    r: Option<u64>,
)
    requires
        market_order_outcome(pre, post, id, quantity, side, now, r),
    ensures
        pre.last_traded_at <= post.last_traded_at,
{
}

/// A run of resubmissions never moves the time of the last trade backwards.
proof fn lemma_run_keeps_trade_time(
    pre: BookModel,
    side: Side,
    max: nat,
    now: u64,
    states: Seq<BookModel>,
    rs: Seq<Option<u64>>,
    n: int,
)
    requires
        retry_run(pre, side, max, now, states, rs),
        0 <= n < states.len(),
    ensures
        states[0].last_traded_at <= states[n].last_traded_at,
    decreases n,
{
    if n > 0 {
        lemma_run_keeps_trade_time(pre, side, max, now, states, rs, n - 1);
        let w = pre.queue(side);
        let i = n - 1;
        assert(market_order_outcome(states[i], states[i + 1], w[i].0, w[i].1, side, now, rs[i]));
    }
}

/// Retrying the waiting market orders never moves the time of the last trade
/// backwards.
pub proof fn lemma_retry_keeps_trade_time(pre: BookModel, post: BookModel, max: nat, now: u64)
    requires
        retry_outcome(pre, post, max, now),
    ensures
        pre.last_traded_at <= post.last_traded_at,
{
    let mid = choose|mid: BookModel|
        #[trigger] retry_side_outcome(pre, mid, Side::Buy, max, now) && retry_side_outcome(
            mid,
            post,
            Side::Sell,
            max,
            now,
        );
    let (s1, r1) = choose|states: Seq<BookModel>, rs: Seq<Option<u64>>|
        #[trigger] retry_run(pre, Side::Buy, max, now, states, rs) && states.last() == mid;
    lemma_run_keeps_trade_time(pre, Side::Buy, max, now, s1, r1, s1.len() - 1);
    let (s2, r2) = choose|states: Seq<BookModel>, rs: Seq<Option<u64>>|
        #[trigger] retry_run(mid, Side::Sell, max, now, states, rs) && states.last() == post;
    lemma_run_keeps_trade_time(mid, Side::Sell, max, now, s2, r2, s2.len() - 1);
}

/// After a resting order is cancelled it is in no level and not in the
/// index, so cancelling it again finds nothing.
pub proof fn lemma_cancel_removes_order(m: BookModel, id: u128)
    requires
        m.wf(),
        m.index.contains_key(id),
    ensures
        modified(m, OrderModification::Cancel { order_id: id }, id).wf(),
        !modified(m, OrderModification::Cancel { order_id: id }, id).index.contains_key(id),
        forall|s: Side, p: u64| #[trigger]
            modified(m, OrderModification::Cancel { order_id: id }, id).side(s).contains_key(p)
                ==> !modified(m, OrderModification::Cancel { order_id: id }, id).side(s)[p].contains_key(
                id,
            ),
{
    let m2 = modified(m, OrderModification::Cancel { order_id: id }, id);
    lemma_remove_order_wf(m, id);
    assert forall|s: Side, p: u64| #[trigger] m2.side(s).contains_key(p) implies !m2.side(
        s,
    )[p].contains_key(id) by {
        match s {
            Side::Buy => assert(m2.level_wf(Side::Buy, p)),
            Side::Sell => assert(m2.level_wf(Side::Sell, p)),
        }
    }
}

/// Changing the price and quantity of a resting order moves it to the level
/// at the new price with the new quantity; it leaves its old level, and an
/// old level that held only this order is gone from the side.
pub proof fn lemma_move_order(m: BookModel, id: u128, new_price: u64, new_quantity: u64)
    requires
        m.wf(),
        m.index.contains_key(id),
        new_quantity > 0,
    ensures
        ({
            let upd = OrderModification::UpdatePriceAndQuantity {
                order_id: id,
                new_price,
                new_quantity,
            };
            let p = m.index[id].0;
            let s = m.index[id].1;
            let m2 = modified(m, upd, id);
            &&& m2.wf()
            &&& m2.index[id] == (new_price, s)
            &&& m2.side(s).contains_key(new_price)
            &&& m2.side(s)[new_price][id] == new_quantity
            &&& p != new_price && m2.side(s).contains_key(p) ==> !m2.side(s)[p].contains_key(id)
            &&& p != new_price && m.side(s)[p].len() == 1 ==> !m2.side(s).contains_key(p)
        }),
{
    let upd = OrderModification::UpdatePriceAndQuantity { order_id: id, new_price, new_quantity };
    let p = m.index[id].0;
    let s = m.index[id].1;
    assert(m.index_wf());
    assert(m.side(s).contains_key(p));
    assert(m.level_wf(s, p));
    lemma_modified_wf(m, upd, id);
    lemma_remove_order_wf(m, id);
    let l = m.side(s)[p];
    if m.side(s)[p].len() == 1 {
        assert(l.remove(id).dom() =~= l.dom().remove(id));
        assert(l.remove(id).dom().len() == 0);
        if !l.remove(id).dom().is_empty() {
            let a = l.remove(id).dom().choose();
            crate::model::lemma_nonempty_len(l.remove(id).dom(), a);
        }
        assert(!remove_order(m, id).side(s).contains_key(p));
    }
    if p != new_price && modified(m, upd, id).side(s).contains_key(p) {
        assert(remove_order(m, id).side(s).contains_key(p));
        assert(remove_order(m, id).level_wf(s, p));
    }
}

/// The sum over a level of one order is that order's quantity.
proof fn lemma_total_of_one(a: u128, q: u64)
    ensures
        map_total(Map::<u128, u64>::empty().insert(a, q)) == q,
{
    let m = Map::<u128, u64>::empty().insert(a, q);
    assert(m.dom() =~= set![a]);
    assert(m.dom().contains(a));
    let k = m.dom().choose();
    assert(m.dom().contains(k));
    assert(m.dom().len() == 1);
    assert(k == a);
    assert(m.remove(a).dom() =~= Set::empty());
    assert(map_total(m.remove(a)) == 0);
}

/// An empty level sums to zero.
proof fn lemma_total_of_empty(m: Map<u128, u64>)
    requires
        m.dom().is_empty(),
    ensures
        map_total(m) == 0,
{
    assert(m.dom() =~= Set::empty());
}

/// A limit order that does not cross the opposite best price (or meets an
/// empty opposite side) trades with nothing: it rests, and the time of the
/// last trade stays.
pub proof fn lemma_non_crossing_order_rests(
    pre: BookModel,
    post: BookModel,
    id: u128,
    price: u64,
    quantity: u64,
    side: Side,
    now: u64,
)
    requires
        limit_order_outcome(pre, post, id, price, quantity, side, now),
        best_price(pre.side(side.spec_opposite()), side.spec_opposite()) is None || !crosses(
            side,
            price,
            best_price(pre.side(side.spec_opposite()), side.spec_opposite())->0,
        ),
    ensures
        post == rest(pre, id, price, quantity, side),
        post.side(side.spec_opposite()) == pre.side(side.spec_opposite()),
        post.last_traded_at == pre.last_traded_at,
{
}

/// A limit order that crosses a best level holding one order of the same
/// quantity uses that order up: the resting order leaves the index, the
/// level leaves its side, and nothing of the new order rests.
pub proof fn lemma_equal_cross_consumes_resting(
    pre: BookModel,
    post: BookModel,
    resting: u128,
    id: u128,
    price: u64,
    quantity: u64,
    side: Side,
    b: u64,
    now: u64,
)
    requires
        resting != id,
        limit_order_outcome(pre, post, id, price, quantity, side, now),
        best_price(pre.side(side.spec_opposite()), side.spec_opposite()) == Some(b),
        crosses(side, price, b),
        pre.side(side.spec_opposite())[b] == Map::<u128, u64>::empty().insert(resting, quantity),
    ensures
        !post.side(side.spec_opposite()).contains_key(b),
        !post.index.contains_key(resting),
        !post.index.contains_key(id) || pre.index.contains_key(id),
        post.last_traded_at == later(pre.last_traded_at, now),
{
    let opp = side.spec_opposite();
    let l = pre.side(opp)[b];
    let (after, filled, r) = choose|after: Map<u128, u64>, filled: Seq<u128>, remaining: u64|
        #[trigger] match_outcome(l, quantity, after, filled, remaining) && {
            let mid = take_from(pre, opp, b, after, filled);
            let rested = if remaining > 0 {
                rest(mid, id, price, remaining, side)
            } else {
                mid
            };
            post == rested.with_last_trade(later(pre.last_traded_at, now))
        };
    lemma_total_of_one(resting, quantity);
    if after.contains_key(resting) {
        assert(after =~= Map::<u128, u64>::empty().insert(resting, after[resting]));
        lemma_total_of_one(resting, after[resting]);
    } else {
        assert(after.dom() =~= Set::empty());
        lemma_total_of_empty(after);
    }
    assert(filled.to_set().contains(resting));
}

/// A market order smaller than what rests at the opposite best level is
/// filled in full from that level, which stays with that much less.
pub proof fn lemma_market_order_partial_fill(
    pre: BookModel,
    post: BookModel,
    id: u128,
    quantity: u64,
    side: Side,
    now: u64,
    r: Option<u64>,
    b: u64,
)
    requires
        market_order_outcome(pre, post, id, quantity, side, now, r),
        best_price(pre.side(side.spec_opposite()), side.spec_opposite()) == Some(b),
        value_fits(quantity, b),
        map_total(pre.side(side.spec_opposite())[b]) > quantity,
    ensures
        r == Some(0u64),
        post.side(side.spec_opposite()).contains_key(b),
        map_total(post.side(side.spec_opposite())[b]) == map_total(pre.side(side.spec_opposite())[b])
            - quantity,
        post.queue(side) == pre.queue(side),
{
    let opp = side.spec_opposite();
    let l = pre.side(opp)[b];
    let (after, filled) = choose|after: Map<u128, u64>, filled: Seq<u128>|
        #[trigger] match_outcome(l, quantity, after, filled, r->0) && {
            let mid = take_from(pre, opp, b, after, filled);
            let waiting = if r->0 > 0 {
                mid.queue(side).push((id, r->0))
            } else {
                mid.queue(side)
            };
            post == mid.with_queue(side, waiting).with_last_trade(later(pre.last_traded_at, now))
        };
    if after.dom().is_empty() {
        lemma_total_of_empty(after);
    }
}

/// A market order that meets an empty opposite side waits whole at the back
/// of its side's queue, and nothing else changes.
pub proof fn lemma_market_order_deferred(
    pre: BookModel,
    post: BookModel,
    id: u128,
    quantity: u64,
    side: Side,
    now: u64,
    r: Option<u64>,
)
    requires
        market_order_outcome(pre, post, id, quantity, side, now, r),
        pre.side(side.spec_opposite()).dom().is_empty(),
    ensures
        r == Some(quantity),
        post == pre.with_queue(side, pre.queue(side).push((id, quantity))),
{
    assert forall|p: u64| !is_best(pre.side(side.spec_opposite()), side.spec_opposite(), p) by {
        assert(!pre.side(side.spec_opposite()).dom().contains(p));
    }
}

/// Walking the first `j` entries of a queue meets a prefix of the orders
/// that walking all of it meets.
pub proof fn lemma_live_prefix(q: Seq<u128>, m: Map<u128, u64>, j: int)
    requires
        0 <= j <= q.len(),
    ensures
        live(q.take(j), m).len() <= live(q, m).len(),
        live(q.take(j), m) == live(q, m).take(live(q.take(j), m).len() as int),
    decreases q.len(),
{
    if j == 0 {
        assert(q.take(0) =~= Seq::<u128>::empty());
        assert(live(q, m).take(0) =~= Seq::<u128>::empty());
    } else {
        let t = q.take(j);
        assert(t[0] == q[0]);
        assert(t.drop_first() =~= q.drop_first().take(j - 1));
        if m.contains_key(q[0]) {
            let m2 = m.remove(q[0]);
            lemma_live_prefix(q.drop_first(), m2, j - 1);
            let x = live(q.drop_first().take(j - 1), m2);
            let y = live(q.drop_first(), m2);
            assert(live(t, m) == seq![q[0]] + x);
            assert(live(q, m) == seq![q[0]] + y);
            assert((seq![q[0]] + y).take(x.len() + 1int) =~= seq![q[0]] + y.take(x.len() as int));
        } else {
            lemma_live_prefix(q.drop_first(), m, j - 1);
            assert(live(t, m) == live(q.drop_first().take(j - 1), m));
        }
    }
}

/// Time priority within a level: the orders a match uses up are the first
/// orders the level's queue holds, in the order they were queued.
pub proof fn lemma_match_takes_queue_front(
    q: Seq<u128>,
    before: Map<u128, u64>,
    j: int,
    filled: Seq<u128>,
    after: Map<u128, u64>,
    q2: Seq<u128>,
)
    requires
        walked(q, before, j, filled, after, q2),
    ensures
        filled.len() <= live(q, before).len(),
        filled == live(q, before).take(filled.len() as int),
{
    lemma_live_prefix(q, before, j);
    let met = live(q.take(j), before);
    assert(met.take(filled.len() as int) =~= live(q, before).take(filled.len() as int));
}

/// The orders a walk of a queue meets are distinct orders of the level.
pub proof fn lemma_live_distinct(q: Seq<u128>, m: Map<u128, u64>)
    ensures
        live(q, m).no_duplicates(),
        forall|k: int| 0 <= k < live(q, m).len() ==> m.contains_key(#[trigger] live(q, m)[k]),
    decreases q.len(),
{
    if q.len() > 0 {
        if m.contains_key(q[0]) {
            let m2 = m.remove(q[0]);
            lemma_live_distinct(q.drop_first(), m2);
            let y = live(q.drop_first(), m2);
            let z = seq![q[0]] + y;
            assert(live(q, m) == z);
            assert forall|k: int| 0 <= k < z.len() implies m.contains_key(#[trigger] z[k]) by {
                if k > 0 {
                    assert(z[k] == y[k - 1]);
                }
            }
            assert forall|a: int, b: int| 0 <= a < z.len() && 0 <= b < z.len() && a != b implies z[a]
                != z[b] by {
                if a > 0 && b > 0 {
                    assert(z[a] == y[a - 1] && z[b] == y[b - 1]);
                } else if a == 0 {
                    assert(z[b] == y[b - 1]);
                    assert(m2.contains_key(y[b - 1]));
                } else {
                    assert(z[a] == y[a - 1]);
                    assert(m2.contains_key(y[a - 1]));
                }
            }
        } else {
            lemma_live_distinct(q.drop_first(), m);
        }
    }
}

} // verus!
