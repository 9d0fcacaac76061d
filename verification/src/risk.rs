use vstd::prelude::*;

verus! {

/// Why a pre-trade risk check refused an order.
#[derive(Debug, Clone, Copy, PartialEq, Eq, Structural)]
pub enum RiskRejection {
    QtyExceedsLimit,
    NotionalExceedsLimit,
    PriceTooFarFromMid,
}

/// Pre-trade limits; a limit that is `None` is not checked.
#[derive(Debug, Clone, Copy, PartialEq, Eq, Structural)]
pub struct RiskGate {
    pub max_order_qty: Option<u64>,
    pub max_notional: Option<u64>,
    pub max_price_deviation: Option<u64>,
}

impl Default for RiskGate {
    /// No limits at all.
    fn default() -> (r: RiskGate)
        ensures
            r == (RiskGate { max_order_qty: None, max_notional: None, max_price_deviation: None }),
    {
        RiskGate { max_order_qty: None, max_notional: None, max_price_deviation: None }
    }
}

impl RiskGate {
    /// Production-leaning limits, in units of the price scale (100 per
    /// currency unit): at most 10,000 units per order, a notional of at
    /// most 100,000,000 (price times quantity), and a price at most 2,000
    /// away from the mid.
    pub fn live_defaults() -> (r: RiskGate)
        ensures
            r == (RiskGate {
                max_order_qty: Some(10_000),
                max_notional: Some(100_000_000),
                max_price_deviation: Some(2_000),
            }),
    {
        RiskGate {
            max_order_qty: Some(10_000),
            max_notional: Some(100_000_000),
            max_price_deviation: Some(2_000),
        }
    }
}

/// `price * qty`, saturated at `u64::MAX`.
pub open spec fn saturating_product(price: u64, qty: u64) -> int {
    if price * qty > u64::MAX {
        u64::MAX as int
    } else {
        price * qty
    }
}

/// The distance between two prices.
pub open spec fn distance(a: u64, b: u64) -> int {
    if a >= b {
        a - b
    } else {
        b - a
    }
}

/// The risk limits' verdict on an order of `qty` at `price` (`None` for a market
/// order) while the book's mid price is `mid`. The checks run in this
/// sequence: quantity limit, notional limit, distance from the mid. A
/// market order meets only the quantity limit, and the distance check is
/// skipped while the book has no mid.
pub open spec fn risk_verdict(gate: RiskGate, price: Option<u64>, qty: u64, mid: Option<u64>) -> Result<
    (),
    RiskRejection,
> {
    if gate.max_order_qty matches Some(max_qty) && qty > max_qty {
        Err(RiskRejection::QtyExceedsLimit)
    } else if price matches Some(p) && gate.max_notional matches Some(max_notional)
        && saturating_product(p, qty) > max_notional {
        Err(RiskRejection::NotionalExceedsLimit)
    } else if price matches Some(p) && gate.max_price_deviation matches Some(max_dev)
        && mid matches Some(m) && distance(p, m) > max_dev {
        Err(RiskRejection::PriceTooFarFromMid)
    } else {
        Ok(())
    }
}

} // verus!
