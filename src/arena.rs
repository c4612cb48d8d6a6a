//! One side of the book as an arena of price levels, each at its own price.
use vstd::prelude::*;
use pricelevel::{PriceLevel, UuidGenerator};
use crate::level::{
    level_add, level_match, level_order_count, level_orders, level_price, level_queue, live, walked, level_update, match_outcome,
    new_level,
};
use crate::types::Side;

verus! {

/// The orders resting at one price.
pub struct Level {
    pub price: u64,
    pub orders: PriceLevel,
}

/// No two levels share a price.
pub open spec fn distinct_prices(s: Seq<Level>) -> bool {
    forall|i: int, j: int|
        0 <= i < s.len() && 0 <= j < s.len() && i != j ==> #[trigger] s[i].price != #[trigger] s[j].price
}

/// Each level is the `PriceLevel` of its own price.
pub open spec fn prices_match(s: Seq<Level>) -> bool {
    forall|i: int| 0 <= i < s.len() ==> #[trigger] level_price(s[i].orders) == s[i].price
}

/// Whether some level of `s` stands at price `p`.
pub open spec fn has_price(s: Seq<Level>, p: u64) -> bool {
    exists|i: int| 0 <= i < s.len() && s[i].price == p
}

/// A position of the level at price `p`.
pub open spec fn position_of(s: Seq<Level>, p: u64) -> int {
    choose|i: int| 0 <= i < s.len() && s[i].price == p
}

/// The side as a map: price to the orders resting there.
pub open spec fn side_map(s: Seq<Level>) -> Map<u64, Map<u128, u64>> {
    Map::new(|p: u64| has_price(s, p), |p: u64| level_orders(s[position_of(s, p)].orders))
}

pub proof fn lemma_side_map_at(s: Seq<Level>, i: int)
    requires
        distinct_prices(s),
        0 <= i < s.len(),
    ensures
        side_map(s).contains_key(s[i].price),
        side_map(s)[s[i].price] == level_orders(s[i].orders),
        position_of(s, s[i].price) == i,
{
    let p = s[i].price;
    assert(has_price(s, p));
    let j = position_of(s, p);
    assert(s[j].price == p);
    if j != i {
        assert(s[i].price != s[j].price);
    }
}

pub proof fn lemma_side_map_update(s: Seq<Level>, i: int, lv: Level)
    requires
        distinct_prices(s),
        0 <= i < s.len(),
        lv.price == s[i].price,
    ensures
        distinct_prices(s.update(i, lv)),
        side_map(s.update(i, lv)) == side_map(s).insert(lv.price, level_orders(lv.orders)),
{
    let s2 = s.update(i, lv);
    assert(distinct_prices(s2)) by {
        assert forall|a: int, b: int|
            0 <= a < s2.len() && 0 <= b < s2.len() && a != b implies #[trigger] s2[a].price
            != #[trigger] s2[b].price by {
            assert(s2[a].price == s[a].price);
            assert(s2[b].price == s[b].price);
        }
    }
    lemma_side_map_at(s2, i);
    assert forall|p: u64| has_price(s2, p) <==> has_price(s, p) by {
        if has_price(s, p) {
            let j = choose|j: int| 0 <= j < s.len() && s[j].price == p;
            assert(s2[j].price == p);
        }
        if has_price(s2, p) {
            let j = choose|j: int| 0 <= j < s2.len() && s2[j].price == p;
            assert(s[j].price == p);
        }
    }
    assert forall|p: u64| #[trigger] side_map(s2).contains_key(p) && p != lv.price implies side_map(
        s2,
    )[p] == side_map(s)[p] by {
        let j = position_of(s2, p);
        assert(s2[j].price == p);
        assert(j != i);
        lemma_side_map_at(s2, j);
        lemma_side_map_at(s, j);
    }
    assert(side_map(s2) =~= side_map(s).insert(lv.price, level_orders(lv.orders)));
}

pub proof fn lemma_side_map_push(s: Seq<Level>, lv: Level)
    requires
        distinct_prices(s),
        !side_map(s).contains_key(lv.price),
    ensures
        distinct_prices(s.push(lv)),
        side_map(s.push(lv)) == side_map(s).insert(lv.price, level_orders(lv.orders)),
{
    let s2 = s.push(lv);
    assert(distinct_prices(s2)) by {
        assert forall|a: int, b: int|
            0 <= a < s2.len() && 0 <= b < s2.len() && a != b implies #[trigger] s2[a].price
            != #[trigger] s2[b].price by {
            if a == s.len() as int {
                assert(!has_price(s, lv.price));
                assert(s[b].price == s2[b].price);
            } else if b == s.len() as int {
                assert(!has_price(s, lv.price));
                assert(s[a].price == s2[a].price);
            } else {
                assert(s[a].price == s2[a].price);
                assert(s[b].price == s2[b].price);
            }
        }
    }
    lemma_side_map_at(s2, s.len() as int);
    assert forall|p: u64| #[trigger] has_price(s2, p) <==> has_price(s, p) || p == lv.price by {
        if has_price(s, p) {
            let j = choose|j: int| 0 <= j < s.len() && s[j].price == p;
            assert(s2[j].price == p);
        }
        if has_price(s2, p) && p != lv.price {
            let j = choose|j: int| 0 <= j < s2.len() && s2[j].price == p;
            assert(j < s.len());
            assert(s[j].price == p);
        }
    }
    assert forall|p: u64| #[trigger] side_map(s2).contains_key(p) && p != lv.price implies side_map(
        s2,
    )[p] == side_map(s)[p] by {
        let j = position_of(s2, p);
        assert(s2[j].price == p);
        assert(j < s.len());
        lemma_side_map_at(s2, j);
        lemma_side_map_at(s, j);
    }
    assert(side_map(s2) =~= side_map(s).insert(lv.price, level_orders(lv.orders)));
}

pub proof fn lemma_side_map_remove(s: Seq<Level>, i: int)
    requires
        distinct_prices(s),
        0 <= i < s.len(),
    ensures
        distinct_prices(s.remove(i)),
        side_map(s.remove(i)) == side_map(s).remove(s[i].price),
{
    let s2 = s.remove(i);
    let pi = s[i].price;
    let f = |k: int| if k < i { k } else { k + 1 };
    assert forall|k: int| 0 <= k < s2.len() implies #[trigger] s2[k] == s[f(k)] by {}
    assert(distinct_prices(s2)) by {
        assert forall|a: int, b: int|
            0 <= a < s2.len() && 0 <= b < s2.len() && a != b implies #[trigger] s2[a].price
            != #[trigger] s2[b].price by {
            assert(s2[a] == s[f(a)]);
            assert(s2[b] == s[f(b)]);
        }
    }
    assert forall|p: u64| #[trigger] has_price(s2, p) <==> has_price(s, p) && p != pi by {
        if has_price(s, p) && p != pi {
            let j = choose|j: int| 0 <= j < s.len() && s[j].price == p;
            assert(j != i);
            let k = if j < i { j } else { j - 1 };
            assert(s2[k] == s[f(k)]);
            assert(s2[k].price == p);
        }
        if has_price(s2, p) {
            let k = choose|k: int| 0 <= k < s2.len() && s2[k].price == p;
            assert(s2[k] == s[f(k)]);
            assert(f(k) != i);
            assert(s[f(k)].price != s[i].price);
        }
    }
    assert forall|p: u64| #[trigger] side_map(s2).contains_key(p) implies side_map(s2)[p]
        == side_map(s)[p] by {
        let k = position_of(s2, p);
        assert(s2[k].price == p);
        assert(s2[k] == s[f(k)]);
        lemma_side_map_at(s2, k);
        lemma_side_map_at(s, f(k));
    }
    assert(side_map(s2) =~= side_map(s).remove(pi));
}

/// The position of the level at `price`, if there is one.
pub fn find_level(levels: &Vec<Level>, price: u64) -> (r: Option<usize>)
    requires
        distinct_prices(levels@),
    ensures
        match r {
            Some(i) => i < levels@.len() && levels@[i as int].price == price,
            None => !side_map(levels@).contains_key(price),
        },
{
    let mut i: usize = 0;
    while i < levels.len()
        invariant
            i <= levels@.len(),
            forall|j: int| 0 <= j < i ==> #[trigger] levels@[j].price != price,
        decreases levels@.len() - i,
    {
        if levels[i].price == price {
            return Some(i);
        }
        i = i + 1;
    }
    proof {
        if has_price(levels@, price) {
            let j = choose|j: int| 0 <= j < levels@.len() && levels@[j].price == price;
            assert(levels@[j].price != price);
        }
    }
    None
}

/// The best price on the side: the highest for bids, the lowest for asks.
pub fn scan_best(levels: &Vec<Level>, side: Side) -> (r: Option<u64>)
    requires
        distinct_prices(levels@),
    ensures
        r == crate::model::best_price(side_map(levels@), side),
{
    let ghost m = side_map(levels@);
    if levels.len() == 0 {
        proof {
            assert forall|p: u64| !crate::model::is_best(m, side, p) by {
                assert(!has_price(levels@, p));
            }
        }
        return None;
    }
    let mut best: u64 = levels[0].price;
    let mut i: usize = 1;
    while i < levels.len()
        invariant
            1 <= i <= levels@.len(),
            distinct_prices(levels@),
            m == side_map(levels@),
            has_price(levels@, best),
            forall|j: int|
                0 <= j < i ==> match side {
                    Side::Buy => #[trigger] levels@[j].price <= best,
                    Side::Sell => best <= levels@[j].price,
                },
        decreases levels@.len() - i,
    {
        let p = levels[i].price;
        match side {
            Side::Buy => {
                if p > best {
                    best = p;
                }
            },
            Side::Sell => {
                if p < best {
                    best = p;
                }
            },
        }
        proof {
            assert(levels@[i as int].price == p);
        }
        i = i + 1;
    }
    proof {
        assert(m.contains_key(best));
        assert forall|q: u64| #[trigger] m.contains_key(q) implies match side {
            Side::Buy => q <= best,
            Side::Sell => best <= q,
        } by {
            let j = choose|j: int| 0 <= j < levels@.len() && levels@[j].price == q;
            assert(levels@[j].price == q);
        }
        assert(crate::model::is_best(m, side, best));
        let c = choose|p: u64| crate::model::is_best(m, side, p);
        assert(crate::model::is_best(m, side, c));
        assert(m.contains_key(c));
    }
    Some(best)
}

/// Rests a new order at `price`, making the level where there is none.
pub fn rest_on_side(
    levels: &mut Vec<Level>,
    id: u128,
    price: u64,
    quantity: u64,
    side: Side,
    timestamp: u64,
)
    requires
        distinct_prices(old(levels)@),
        prices_match(old(levels)@),
        !side_map(old(levels)@).contains_key(price) || !side_map(old(levels)@)[price].contains_key(
            id,
        ),
    ensures
        distinct_prices(final(levels)@),
        prices_match(final(levels)@),
        side_map(final(levels)@) == side_map(old(levels)@).insert(
            price,
            (if side_map(old(levels)@).contains_key(price) {
                side_map(old(levels)@)[price]
            } else {
                Map::empty()
            }).insert(id, quantity),
        ),
{
    match find_level(levels, price) {
        Some(i) => {
            proof {
                lemma_side_map_at(levels@, i as int);
            }
            let ghost pre = levels@;
            level_add(&mut levels[i].orders, id, price, quantity, side, timestamp);
            proof {
                assert(levels@ == pre.update(i as int, levels@[i as int]));
                lemma_side_map_update(pre, i as int, levels@[i as int]);
            }
        },
        None => {
            let mut orders = new_level(price);
            level_add(&mut orders, id, price, quantity, side, timestamp);
            let ghost pre = levels@;
            let lv = Level { price, orders };
            proof {
                assert(level_orders(lv.orders) =~= Map::<u128, u64>::empty().insert(id, quantity));
                lemma_side_map_push(pre, lv);
            }
            levels.push(lv);
        },
    }
}

/// A finite set of size zero is empty.
proof fn lemma_len_zero<A>(s: Set<A>)
    requires
        s.finite(),
        s.len() == 0,
    ensures
        s.is_empty(),
{
    if !s.is_empty() {
        let a = s.choose();
        crate::model::lemma_nonempty_len(s, a);
    }
}

/// Matches `quantity` against the level at position `i`; a level left empty
/// goes. Returns the unmatched quantity, the orders used up, and the level as
/// the match left it.
pub fn match_on_side(
    levels: &mut Vec<Level>,
    i: usize,
    quantity: u64,
    taker: u128,
    trade_ids: &UuidGenerator,
) -> (r: (u64, Vec<u128>, Ghost<Map<u128, u64>>))
    requires
        distinct_prices(old(levels)@),
        prices_match(old(levels)@),
        i < old(levels)@.len(),
        forall|id: u128| #[trigger]
            level_orders(old(levels)@[i as int].orders).contains_key(id) ==> level_orders(
                old(levels)@[i as int].orders,
            )[id] > 0,
        quantity as int * old(levels)@[i as int].price as int <= u64::MAX,
    ensures
        distinct_prices(final(levels)@),
        prices_match(final(levels)@),
        match_outcome(level_orders(old(levels)@[i as int].orders), quantity, r.2@, r.1@, r.0),
        r.1@.len() <= live(
            level_queue(old(levels)@[i as int].orders),
            level_orders(old(levels)@[i as int].orders),
        ).len(),
        r.1@ == live(
            level_queue(old(levels)@[i as int].orders),
            level_orders(old(levels)@[i as int].orders),
        ).take(r.1@.len() as int),
        side_map(final(levels)@) == if r.2@.dom().is_empty() {
            side_map(old(levels)@).remove(old(levels)@[i as int].price)
        } else {
            side_map(old(levels)@).insert(old(levels)@[i as int].price, r.2@)
        },
{
    let ghost pre = levels@;
    assert(level_price(levels@[i as int].orders) == levels@[i as int].price);
    let (remaining, filled) = level_match(&mut levels[i].orders, quantity, taker, trade_ids);
    let ghost after = level_orders(levels@[i as int].orders);
    proof {
        assert(levels@ == pre.update(i as int, levels@[i as int]));
        lemma_side_map_update(pre, i as int, levels@[i as int]);
        let j = choose|j: int|
            #[trigger] walked(
                level_queue(pre[i as int].orders),
                level_orders(pre[i as int].orders),
                j,
                filled@,
                after,
                level_queue(levels@[i as int].orders),
            );
        crate::laws::lemma_match_takes_queue_front(
            level_queue(pre[i as int].orders),
            level_orders(pre[i as int].orders),
            j,
            filled@,
            after,
            level_queue(levels@[i as int].orders),
        );
    }
    let n = level_order_count(&levels[i].orders);
    if n == 0 {
        proof {
            lemma_len_zero(after.dom());
        }
        let ghost mid = levels@;
        levels.remove(i);
        proof {
            lemma_side_map_remove(mid, i as int);
            assert(side_map(mid).insert(pre[i as int].price, after).remove(pre[i as int].price)
                =~= side_map(pre).remove(pre[i as int].price));
        }
    } else {
        proof {
            if after.dom().is_empty() {
                assert(after.dom() =~= Set::empty());
            }
        }
    }
    (remaining, filled, Ghost(after))
}

/// Takes order `id` out of the level at position `i`; a level left empty
/// goes. Returns its quantity, or `None` where it is not there.
pub fn remove_from_side(levels: &mut Vec<Level>, i: usize, id: u128) -> (r: Option<u64>)
    requires
        distinct_prices(old(levels)@),
        prices_match(old(levels)@),
        i < old(levels)@.len(),
        level_orders(old(levels)@[i as int].orders).dom().finite(),
    ensures
        distinct_prices(final(levels)@),
        prices_match(final(levels)@),
        ({
            let p = old(levels)@[i as int].price;
            let l = level_orders(old(levels)@[i as int].orders);
            match r {
                None => !l.contains_key(id) && side_map(final(levels)@) == side_map(old(levels)@),
                Some(q) => l.contains_key(id) && q == l[id] && side_map(final(levels)@) == if l.remove(
                    id,
                ).dom().is_empty() {
                    side_map(old(levels)@).remove(p)
                } else {
                    side_map(old(levels)@).insert(p, l.remove(id))
                },
            }
        }),
{
    let ghost pre = levels@;
    let r = level_update(&mut levels[i].orders, id, None);
    let ghost after = level_orders(levels@[i as int].orders);
    proof {
        assert(levels@ == pre.update(i as int, levels@[i as int]));
        lemma_side_map_update(pre, i as int, levels@[i as int]);
    }
    if r.is_none() {
        proof {
            lemma_side_map_at(pre, i as int);
            assert(side_map(pre).insert(pre[i as int].price, after) =~= side_map(pre));
        }
        return r;
    }
    let n = level_order_count(&levels[i].orders);
    if n == 0 {
        proof {
            lemma_len_zero(after.dom());
        }
        let ghost mid = levels@;
        levels.remove(i);
        proof {
            lemma_side_map_remove(mid, i as int);
            assert(side_map(mid).insert(pre[i as int].price, after).remove(pre[i as int].price)
                =~= side_map(pre).remove(pre[i as int].price));
        }
    } else {
        proof {
            if after.dom().is_empty() {
                assert(after.dom() =~= Set::empty());
            }
        }
    }
    r
}

/// Sets the quantity of order `id` at the level at position `i`. Returns
/// whether the order is there.
pub fn requantify_on_side(levels: &mut Vec<Level>, i: usize, id: u128, quantity: u64) -> (r: bool)
    requires
        distinct_prices(old(levels)@),
        prices_match(old(levels)@),
        i < old(levels)@.len(),
    ensures
        distinct_prices(final(levels)@),
        prices_match(final(levels)@),
        ({
            let p = old(levels)@[i as int].price;
            let l = level_orders(old(levels)@[i as int].orders);
            &&& r == l.contains_key(id)
            &&& !r ==> side_map(final(levels)@) == side_map(old(levels)@)
            &&& r ==> side_map(final(levels)@) == side_map(old(levels)@).insert(p, l.insert(id, quantity))
        }),
{
    let ghost pre = levels@;
    let r = level_update(&mut levels[i].orders, id, Some(quantity));
    proof {
        assert(levels@ == pre.update(i as int, levels@[i as int]));
        lemma_side_map_update(pre, i as int, levels@[i as int]);
        if r.is_none() {
            lemma_side_map_at(pre, i as int);
            assert(side_map(pre).insert(pre[i as int].price, level_orders(levels@[i as int].orders))
                =~= side_map(pre));
        }
    }
    r.is_some()
}

} // verus!
