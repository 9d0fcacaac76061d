//! The integer part of the random order-flow generator: what kind of order
//! comes next, how large it is and where it is priced.
use vstd::prelude::*;

use crate::side::Side;
use rand::Rng;
use rand_chacha::ChaCha8Rng;

verus! {

#[verifier::external_type_specification]
#[verifier::external_body]
pub struct ExChaCha8Rng(ChaCha8Rng);

/// A market order, or a limit order at a price.
#[derive(Debug, Clone, Copy, PartialEq, Eq, Structural)]
pub enum SimOrderKind {
    Market,
    Limit { price: u64 },
}

/// A generated order.
#[derive(Debug, Clone, Copy, PartialEq, Eq, Structural)]
pub struct SimOrder {
    pub side: Side,
    pub kind: SimOrderKind,
    pub qty: u64,
}

/// `Rng::gen_range` over the inclusive range `lo..=hi` of `u64`, drawn from
/// `rng`. The claim is only that the value lies in the range, which the
/// function refuses (panics on) when it is empty.
#[verifier::external_body]
fn draw_u64(rng: &mut ChaCha8Rng, lo: u64, hi: u64) -> (r: u64)
    requires
        lo <= hi,
    ensures
        lo <= r <= hi,
{
    rng.gen_range(lo..=hi)
}

/// `Rng::gen_range` over the inclusive range `lo..=hi` of `i64`, drawn from
/// `rng`. The claim is only that the value lies in the range, which the
/// function refuses (panics on) when it is empty.
#[verifier::external_body]
fn draw_i64(rng: &mut ChaCha8Rng, lo: i64, hi: i64) -> (r: i64)
    requires
        lo <= hi,
    ensures
        lo <= r <= hi,
{
    rng.gen_range(lo..=hi)
}

/// The price `offset` away from `mid`, but never below 1.
pub open spec fn offset_price(mid: u64, offset: i64) -> int {
    if mid + offset >= 1 {
        mid + offset
    } else {
        1
    }
}

/// The price `offset` away from `mid_price`, but never below 1.
pub fn limit_price_at(mid_price: u64, offset: i64) -> (p: u64)
    requires
        mid_price + offset <= i64::MAX,
        mid_price <= i64::MAX,
    ensures
        p == offset_price(mid_price, offset),
{
    let raw: i64 = mid_price as i64 + offset;
    if raw >= 1 {
        raw as u64
    } else {
        1
    }
}

/// Draws the rest of an order whose side and kind are already chosen: its
/// quantity uniformly in `min_qty..=max_qty`, then, for a limit order, its
/// price at a uniform offset of at most `price_spread` from `mid_price`,
/// but never below 1.
pub fn draw_order(
    rng: &mut ChaCha8Rng,
    side: Side,
    is_market: bool,
    mid_price: u64,
    price_spread: u64,
    min_qty: u64,
    max_qty: u64,
) -> (o: SimOrder)
    requires
        min_qty <= max_qty,
        mid_price + price_spread <= i64::MAX,
    ensures
        o.side == side,
        min_qty <= o.qty <= max_qty,
        o.kind is Market <==> is_market,
        o.kind matches SimOrderKind::Limit { price } ==> {
            &&& exists|offset: i64|
                -price_spread <= offset <= price_spread && price == offset_price(mid_price, offset)
            &&& mid_price - price_spread <= price
            &&& 1 <= price
            &&& price <= mid_price + price_spread || price == 1
        },
{
    let qty = draw_u64(rng, min_qty, max_qty);
    let kind = if is_market {
        SimOrderKind::Market
    } else {
        let spread: i64 = price_spread as i64;
        let offset = draw_i64(rng, -spread, spread);
        let price = limit_price_at(mid_price, offset);
        proof {
            assert(-price_spread <= offset <= price_spread && price == offset_price(
                mid_price,
                offset,
            ));
        }
        SimOrderKind::Limit { price }
    };
    SimOrder { side, kind, qty }
}

} // verus!
