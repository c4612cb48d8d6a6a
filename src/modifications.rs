//! Modifications of resting orders.
use vstd::prelude::*;
use crate::book::{BookError, OrderBook};
use crate::model::modified;
use uuid::Uuid;

verus! {

/// A modification of a resting order.
#[derive(Clone, Copy, Debug, PartialEq, Eq, Structural)]
pub enum OrderModification {
    UpdatePrice { order_id: u128, new_price: u64 },
    UpdateQuantity { order_id: u128, new_quantity: u64 },
    UpdatePriceAndQuantity { order_id: u128, new_price: u64, new_quantity: u64 },
    Cancel { order_id: u128 },
}

impl OrderModification {
    pub open spec fn spec_order_id(self) -> u128 {
        match self {
            OrderModification::UpdatePrice { order_id, .. } => order_id,
            OrderModification::UpdateQuantity { order_id, .. } => order_id,
            OrderModification::UpdatePriceAndQuantity { order_id, .. } => order_id,
            OrderModification::Cancel { order_id } => order_id,
        }
    }

    /// A modification that sets a quantity sets a positive one.
    pub open spec fn quantity_valid(self) -> bool {
        match self {
            OrderModification::UpdateQuantity { new_quantity, .. } => new_quantity > 0,
            OrderModification::UpdatePriceAndQuantity { new_quantity, .. } => new_quantity > 0,
            _ => true,
        }
    }

    /// The identifier of the order the modification is for.
    pub fn order_id(&self) -> (r: u128)
        ensures
            r == self.spec_order_id(),
    {
        match self {
            OrderModification::UpdatePrice { order_id, .. } => *order_id,
            OrderModification::UpdateQuantity { order_id, .. } => *order_id,
            OrderModification::UpdatePriceAndQuantity { order_id, .. } => *order_id,
            OrderModification::Cancel { order_id } => *order_id,
        }
    }

    /// The modification that four draws select: `kind` modulo 4 picks the
    /// variant (a price change, a quantity change, both, a cancellation),
    /// with a price in 69000..70000 and a quantity in 500..600.
    pub fn from_draws(kind: u8, order_id: u128, price_draw: u64, quantity_draw: u64) -> (r:
        OrderModification)
        ensures
            r == drawn(kind, order_id, price_draw, quantity_draw),
    {
        let new_price = price_draw % 1000 + 69000;
        let new_quantity = quantity_draw % 100 + 500;
        match kind % 4 {
            0 => OrderModification::UpdatePrice { order_id, new_price },
            1 => OrderModification::UpdateQuantity { order_id, new_quantity },
            2 => OrderModification::UpdatePriceAndQuantity { order_id, new_price, new_quantity },
            _ => OrderModification::Cancel { order_id },
        }
    }

    /// A random modification of a random order, for load and soak runs.
    pub fn sample() -> (r: OrderModification)
        ensures
            exists|kind: u8, price_draw: u64, quantity_draw: u64|
                #[trigger] drawn(kind, r.spec_order_id(), price_draw, quantity_draw) == r,
    {
        let kind: u8 = rand::random::<u8>();
        let order_id = random_order_id();
        let price_draw: u64 = rand::random::<u64>();
        let quantity_draw: u64 = rand::random::<u64>();
        let r = Self::from_draws(kind, order_id, price_draw, quantity_draw);
        assert(r.spec_order_id() == order_id);
        r
    }
}

/// The modification `from_draws` builds.
pub open spec fn drawn(kind: u8, order_id: u128, price_draw: u64, quantity_draw: u64) -> OrderModification {
    let new_price = (price_draw % 1000 + 69000) as u64;
    let new_quantity = (quantity_draw % 100 + 500) as u64;
    if kind % 4 == 0 {
        OrderModification::UpdatePrice { order_id, new_price }
    } else if kind % 4 == 1 {
        OrderModification::UpdateQuantity { order_id, new_quantity }
    } else if kind % 4 == 2 {
        OrderModification::UpdatePriceAndQuantity { order_id, new_price, new_quantity }
    } else {
        OrderModification::Cancel { order_id }
    }
}

pub assume_specification<T>[ rand::random::<T> ]() -> (r: T)
    where
        rand::distributions::Standard: rand::distributions::Distribution<T>,
;

/// Relies on `Uuid::new_v4`: a random identifier.
#[verifier::external_body]
fn random_order_id() -> u128 {
    Uuid::new_v4().as_u128()
}

impl OrderBook {
    /// Applies a modification to the order it names.
    pub fn process_modification(&mut self, modification: OrderModification) -> (r: Result<
        (),
        BookError,
    >)
        requires
            old(self).wf(),
        ensures
            final(self).wf(),
            final(self).keeps_setup_of(*old(self)),
            ({
                let id = modification.spec_order_id();
                &&& !old(self)@.index.contains_key(id) ==> r == Err::<(), BookError>(
                    BookError::OrderNotFound,
                ) && final(self)@ == old(self)@
                &&& old(self)@.index.contains_key(id) && !modification.quantity_valid() ==> r
                    == Err::<(), BookError>(BookError::InvalidQuantity) && final(self)@ == old(self)@
                &&& old(self)@.index.contains_key(id) && modification.quantity_valid() ==> r == Ok::<
                    (),
                    BookError,
                >(()) && final(self)@ == modified(old(self)@, modification, id)
            }),
    {
        let id = modification.order_id();
        self.update_order(modification, id)
    }
}

} // verus!
