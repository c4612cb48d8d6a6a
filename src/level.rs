//! The resting orders at one price, held by `pricelevel::PriceLevel`.
//!
//! A level is seen here as a map from order identifier to the quantity that
//! still rests. Every order placed through this module is a standard
//! good-till-cancelled order with a fresh identifier and a positive quantity;
//! the contracts below describe the level under that discipline.
use vstd::prelude::*;
use pricelevel::{OrderId, OrderType, OrderUpdate, PriceLevel, TimeInForce, UuidGenerator};
use uuid::Uuid;
use crate::types::Side;

verus! {

#[verifier::external_type_specification]
#[verifier::external_body]
pub struct ExPriceLevel(PriceLevel);

#[verifier::external_type_specification]
#[verifier::external_body]
pub struct ExUuidGenerator(UuidGenerator);

/// The orders resting at a level: identifier to remaining quantity.
pub uninterp spec fn level_orders(l: PriceLevel) -> Map<u128, u64>;

/// The identifiers in a level's queue, head first. An identifier stays in the
/// queue after its order is cancelled, and is queued again when its order's
/// quantity changes or a partial fill puts it back.
pub uninterp spec fn level_queue(l: PriceLevel) -> Seq<u128>;

/// The orders of `m` in the order a match meets them when it walks the
/// queue `q`: identifiers whose order is gone are passed over, and an order
/// is met at the first place it is queued.
pub open spec fn live(q: Seq<u128>, m: Map<u128, u64>) -> Seq<u128>
    decreases q.len(),
{
    if q.len() == 0 {
        Seq::empty()
    } else if m.contains_key(q[0]) {
        seq![q[0]] + live(q.drop_first(), m.remove(q[0]))
    } else {
        live(q.drop_first(), m)
    }
}

/// A match walked the first `j` entries of the queue `q`: the orders it met
/// there are the ones it used up (`filled`, in that order), perhaps followed
/// by one that it filled only in part and queued again at the back.
pub open spec fn walked(
    q: Seq<u128>,
    before: Map<u128, u64>,
    j: int,
    filled: Seq<u128>,
    after: Map<u128, u64>,
    q2: Seq<u128>,
) -> bool {
    let met = live(q.take(j), before);
    &&& 0 <= j <= q.len()
    &&& met.take(filled.len() as int) == filled
    &&& {
        ||| met.len() == filled.len() && q2 == q.skip(j)
        ||| met.len() == filled.len() + 1 && after.contains_key(met.last()) && q2 == q.skip(j).push(
            met.last(),
        )
    }
}

/// The price of a level, which every order placed in it carries.
pub uninterp spec fn level_price(l: PriceLevel) -> u64;

/// The sum of the quantities in `m`.
pub open spec fn map_total(m: Map<u128, u64>) -> int
    decreases m.dom().len(),
{
    if m.dom().finite() && m.dom().len() > 0 {
        let k = m.dom().choose();
        m[k] + map_total(m.remove(k))
    } else {
        0
    }
}

/// What one call of `match_order` does to a level of positive quantities:
/// `filled` lists the orders used up, `remaining` is what the taker could
/// not get, and the rest of the level is kept, some of it reduced.
pub open spec fn match_outcome(
    before: Map<u128, u64>,
    quantity: u64,
    after: Map<u128, u64>,
    filled: Seq<u128>,
    remaining: u64,
) -> bool {
    &&& remaining <= quantity
    &&& after.dom().finite()
    &&& after.dom().subset_of(before.dom())
    &&& forall|id: u128| #[trigger] after.contains_key(id) ==> 0 < after[id] <= before[id]
    &&& filled.no_duplicates()
    &&& filled.to_set() == before.dom().difference(after.dom())
    &&& map_total(before) == map_total(after) + (quantity - remaining)
    &&& remaining > 0 ==> after.dom().is_empty()
    &&& quantity > 0 && !before.dom().is_empty() ==> remaining < quantity
}

/// Relies on `PriceLevel::new`: a new level holds no order.
#[verifier::external_body]
pub(crate) fn new_level(price: u64) -> (r: PriceLevel)
    ensures
        level_orders(r).dom().is_empty(),
        level_queue(r).len() == 0,
        level_price(r) == price,
{
    PriceLevel::new(price)
}

/// Relies on `UuidGenerator::new`: a source of trade identifiers.
#[verifier::external_body]
pub(crate) fn new_trade_ids(namespace: u128) -> UuidGenerator {
    UuidGenerator::new(Uuid::from_u128(namespace))
}

/// Relies on `PriceLevel::add_order`: a standard order joins the level.
#[verifier::external_body]
pub(crate) fn level_add(
    l: &mut PriceLevel,
    id: u128,
    price: u64,
    quantity: u64,
    side: Side,
    timestamp: u64,
)
    requires
        !level_orders(*old(l)).contains_key(id),
        price == level_price(*old(l)),
    ensures
        level_orders(*final(l)) == level_orders(*old(l)).insert(id, quantity),
        level_queue(*final(l)) == level_queue(*old(l)).push(id),
        level_price(*final(l)) == level_price(*old(l)),
{
    let side = match side {
        Side::Buy => pricelevel::Side::Buy,
        Side::Sell => pricelevel::Side::Sell,
    };
    l.add_order(OrderType::Standard {
        id: OrderId::Uuid(Uuid::from_u128(id)),
        price,
        quantity,
        side,
        timestamp,
        time_in_force: TimeInForce::Gtc,
        extra_fields: (),
    });
}

/// Relies on `PriceLevel::order_count`: its counter moves with every order
/// admitted and every order removed.
#[verifier::external_body]
pub(crate) fn level_order_count(l: &PriceLevel) -> (r: usize)
    ensures
        r == level_orders(*l).len(),
{
    l.order_count()
}

/// Relies on `PriceLevel::visible_quantity`: a wrapping counter of the
/// quantity that rests.
#[verifier::external_body]
pub(crate) fn level_visible_quantity(l: &PriceLevel) -> (r: u64)
    ensures
        r == map_total(level_orders(*l)) % 0x1_0000_0000_0000_0000,
{
    l.visible_quantity()
}

/// Relies on `PriceLevel::match_order`: orders are taken from the queue until
/// the taker is filled or the level is empty; the identifiers of the orders
/// used up are returned with the taker's unmatched quantity. Each step adds
/// the traded quantity times the price to the level's statistics unchecked,
/// so the taker's quantity times the price must fit in a `u64`.
#[verifier::external_body]
pub(crate) fn level_match(l: &mut PriceLevel, quantity: u64, taker: u128, trade_ids: &UuidGenerator) -> (r: (u64, Vec<u128>))
    requires
        forall|id: u128| #[trigger] level_orders(*old(l)).contains_key(id) ==> level_orders(*old(l))[id] > 0,
        quantity as int * level_price(*old(l)) as int <= u64::MAX,
    ensures
        match_outcome(level_orders(*old(l)), quantity, level_orders(*final(l)), r.1@, r.0),
        exists|j: int|
            #[trigger] walked(
                level_queue(*old(l)),
                level_orders(*old(l)),
                j,
                r.1@,
                level_orders(*final(l)),
                level_queue(*final(l)),
            ),
        level_price(*final(l)) == level_price(*old(l)),
{
    let m = l.match_order(quantity, OrderId::Uuid(Uuid::from_u128(taker)), trade_ids);
    let ids = m.filled_order_ids.iter().map(|i| u128::from_be_bytes(i.as_bytes())).collect();
    (m.remaining_quantity, ids)
}

/// Relies on `PriceLevel::update_order` with `Cancel` (no new quantity) or
/// `UpdateQuantity`: the order leaves the level, or rests on with the new
/// quantity. Returns the quantity of the removed order, or the new quantity;
/// `None` where the order is not at the level.
#[verifier::external_body]
pub(crate) fn level_update(l: &mut PriceLevel, id: u128, new_quantity: Option<u64>) -> (r: Option<u64>)
    ensures
        level_price(*final(l)) == level_price(*old(l)),
        r is Some <==> level_orders(*old(l)).contains_key(id),
        r is None ==> level_orders(*final(l)) == level_orders(*old(l)) && level_queue(*final(l))
            == level_queue(*old(l)),
        r is Some ==> match new_quantity {
            None => r == Some(level_orders(*old(l))[id]) && level_orders(*final(l)) == level_orders(
                *old(l),
            ).remove(id) && level_queue(*final(l)) == level_queue(*old(l)),
            Some(q) => r == Some(q) && level_orders(*final(l)) == level_orders(*old(l)).insert(id, q)
                && level_queue(*final(l)) == level_queue(*old(l)).push(id),
        },
{
    let order_id = OrderId::Uuid(Uuid::from_u128(id));
    let update = match new_quantity {
        None => OrderUpdate::Cancel { order_id },
        Some(new_quantity) => OrderUpdate::UpdateQuantity { order_id, new_quantity },
    };
    match l.update_order(update) {
        Ok(Some(order)) => Some(order.visible_quantity()),
        _ => None,
    }
}

} // verus!
