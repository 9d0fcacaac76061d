use vstd::prelude::*;

use crate::side::Side;

verus! {

/// An order: an identifier, a limit price, a remaining quantity and a side.
#[derive(Clone, Copy, Debug, PartialEq, Eq, Structural)]
pub struct Order {
    pub id: u64,
    pub price: u64,
    pub qty: u64,
    pub side: Side,
}

impl Order {
    pub open spec fn new_spec(id: u64, price: u64, qty: u64, side: Side) -> Order {
        Order { id, price, qty, side }
    }

    #[verifier::when_used_as_spec(new_spec)]
    pub fn new(id: u64, price: u64, qty: u64, side: Side) -> (o: Order)
        ensures
            o == (Order { id, price, qty, side }),
    {
        Order { id, price, qty, side }
    }

    /// The same order with another remaining quantity.
    pub open spec fn with_qty(self, qty: u64) -> Order {
        Order { qty, ..self }
    }
}

} // verus!
