use vstd::prelude::*;

use crate::side::Side;

verus! {

/// A fill between a resting (maker) order and an incoming (taker) order,
/// at the maker's price.
#[derive(Clone, Copy, Debug, PartialEq, Eq, Structural)]
pub struct Trade {
    pub maker_id: u64,
    pub taker_id: u64,
    pub taker_side: Side,
    pub price: u64,
    pub qty: u64,
}

impl Trade {
    pub fn new(maker_id: u64, taker_id: u64, taker_side: Side, price: u64, qty: u64) -> (t: Trade)
        ensures
            t == (Trade { maker_id, taker_id, taker_side, price, qty }),
    {
        Trade { maker_id, taker_id, taker_side, price, qty }
    }
}

} // verus!
