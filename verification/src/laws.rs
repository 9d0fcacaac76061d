//! Properties of the engine that relate its operations, stated over their
//! contracts and proved from them.
use vstd::prelude::*;

use crate::book_model::{has_id, position_of, queue_at};
use crate::matching::{
    lemma_match_conserves, lemma_match_makers, lemma_match_priority, market_limit, match_spec,
    side_has_id, traded_qty,
};
use crate::matching_engine::{AmendError, CancelError, MatchingEngine};
use crate::order::Order;
use crate::orderbook::best_price;
use crate::risk::{risk_verdict, RiskGate, RiskRejection};
use crate::side::Side;

verus! {

/// The book of a consistent engine is never crossed: where both sides have
/// a level, the best bid is below the best ask.
pub proof fn law_best_bid_below_best_ask(e: &MatchingEngine)
    requires
        e.wf(),
    ensures
        match (
            best_price(e.book_state()@.bids, Side::Buy),
            best_price(e.book_state()@.asks, Side::Sell),
        ) {
            (Some(b), Some(a)) => b < a,
            _ => true,
        },
{
    let bids = e.book_state()@.bids;
    let asks = e.book_state()@.asks;
    if let (Some(b), Some(a)) = (best_price(bids, Side::Buy), best_price(asks, Side::Sell)) {
        assert(crate::orderbook::is_best(bids, Side::Buy, b));
        assert(crate::orderbook::is_best(asks, Side::Sell, a));
        assert(bids.contains_key(b) && asks.contains_key(a));
    }
}

/// Two orders accepted one after the other get consecutive ids.
pub proof fn law_accepted_ids_are_consecutive(
    e0: MatchingEngine,
    e1: MatchingEngine,
    e2: MatchingEngine,
    price1: u64,
    qty1: u64,
    side1: Side,
    r1: Result<u64, RiskRejection>,
    price2: u64,
    qty2: u64,
    side2: Side,
    r2: Result<u64, RiskRejection>,
)
    requires
        MatchingEngine::limit_post(&e0, &e1, price1, qty1, side1, r1),
        MatchingEngine::limit_post(&e1, &e2, price2, qty2, side2, r2),
        r1 is Ok,
        r2 is Ok,
    ensures
        r2 == Ok::<u64, RiskRejection>((r1->Ok_0 + 1) as u64),
{
}

/// An accepted order's id is above the id of every order resting before it.
pub proof fn law_new_id_is_fresh(
    e0: MatchingEngine,
    e1: MatchingEngine,
    price: u64,
    qty: u64,
    side: Side,
    r: Result<u64, RiskRejection>,
)
    requires
        e0.wf(),
        MatchingEngine::limit_post(&e0, &e1, price, qty, side, r),
        r is Ok,
    ensures
        forall|id: u64| #[trigger] e0.book_state().index@.contains_key(id) ==> id < r->Ok_0,
{
}

/// A cancelled order is gone: cancelling it again is refused.
pub proof fn law_cancel_twice_fails(
    e0: MatchingEngine,
    e1: MatchingEngine,
    e2: MatchingEngine,
    order_id: u64,
    r1: Result<u64, CancelError>,
    r2: Result<u64, CancelError>,
)
    requires
        MatchingEngine::cancel_post(&e0, &e1, order_id, r1),
        MatchingEngine::cancel_post(&e1, &e2, order_id, r2),
        r1 is Ok,
    ensures
        r2 == Err::<u64, CancelError>(CancelError::OrderNotFound),
{
    assert(!e1.book_state().index@.contains_key(order_id));
}

/// A market order is held to the quantity limit only, whatever the price
/// limits and the mid.
pub proof fn law_market_orders_only_check_qty(gate: RiskGate, qty: u64, mid: Option<u64>)
    ensures
        risk_verdict(gate, None, qty, mid) == (if gate.max_order_qty matches Some(max_qty) && qty
            > max_qty {
            Err::<(), RiskRejection>(RiskRejection::QtyExceedsLimit)
        } else {
            Ok(())
        }),
{
}

/// The default limits refuse nothing.
pub proof fn law_default_gate_refuses_nothing(price: Option<u64>, qty: u64, mid: Option<u64>)
    ensures
        risk_verdict(
            RiskGate { max_order_qty: None, max_notional: None, max_price_deviation: None },
            price,
            qty,
            mid,
        ) == Ok::<(), RiskRejection>(()),
{
}

/// While the book has no mid price, no order is refused for its distance
/// from the mid.
pub proof fn law_no_mid_no_distance_check(gate: RiskGate, price: Option<u64>, qty: u64)
    ensures
        risk_verdict(gate, price, qty, None) != Err::<(), RiskRejection>(
            RiskRejection::PriceTooFarFromMid,
        ),
{
}

/// A market order never rests: its own side of the book is untouched, and
/// the quantity it reports filled is the quantity of the trades it made.
pub proof fn law_market_order_never_rests(
    e0: MatchingEngine,
    e1: MatchingEngine,
    qty: u64,
    side: Side,
    r: Result<(u64, u64), RiskRejection>,
)
    requires
        MatchingEngine::market_post(&e0, &e1, qty, side, r),
        r is Ok,
    ensures
        e1.book_state()@.side(side) == e0.book_state()@.side(side),
        e1.trade_log().len() >= e0.trade_log().len(),
        traded_qty(e1.trade_log().subrange(e0.trade_log().len() as int, e1.trade_log().len() as int))
            == r->Ok_0.1,
{
    let taker = Order { id: e0.next_order_id(), price: market_limit(side), qty, side };
    let m = e0.book_state()@.side(side.spec_opposite());
    lemma_match_conserves(m, taker);
    let ts = match_spec(m, taker).1;
    assert(e1.trade_log().subrange(e0.trade_log().len() as int, e1.trade_log().len() as int)
        =~= ts);
}

/// What rests of an accepted limit order is what it did not trade: if its
/// trades fall short of its quantity, the rest joins the back of the queue
/// at its price; otherwise that queue is as it was.
pub proof fn law_limit_rest_is_untraded(
    e0: MatchingEngine,
    e1: MatchingEngine,
    price: u64,
    qty: u64,
    side: Side,
    r: Result<u64, RiskRejection>,
)
    requires
        MatchingEngine::limit_post(&e0, &e1, price, qty, side, r),
        r is Ok,
    ensures
        e1.trade_log().len() >= e0.trade_log().len(),
        ({
            let traded = traded_qty(
                e1.trade_log().subrange(e0.trade_log().len() as int, e1.trade_log().len() as int),
            );
            let before = e0.book_state()@.queue(side, price);
            let after = e1.book_state()@.queue(side, price);
            &&& traded <= qty
            &&& traded < qty ==> after == before.push(
                Order { id: r->Ok_0, price, qty: (qty - traded) as u64, side },
            )
            &&& traded == qty ==> after == before
        }),
{
    let taker = Order { id: e0.next_order_id(), price, qty, side };
    let m = e0.book_state()@.side(side.spec_opposite());
    lemma_match_conserves(m, taker);
    let (m2, ts, rest) = match_spec(m, taker);
    assert(e1.trade_log().subrange(e0.trade_log().len() as int, e1.trade_log().len() as int)
        =~= ts);
    let b1 = e0.book_state()@.with_side(side.spec_opposite(), m2);
    assert(b1.queue(side, price) == e0.book_state()@.queue(side, price));
    if rest > 0 {
        assert(taker.with_qty(rest) == Order { id: r->Ok_0, price, qty: (qty - traded_qty(ts)) as u64, side });
    }
}

/// A limit order only trades at prices its limit allows: a buy limited at
/// `price` never pays more than `price`, a sell limited at `price` never
/// receives less. Every trade it makes names it as the taker.
pub proof fn law_limit_order_trades_within_its_limit(
    e0: MatchingEngine,
    e1: MatchingEngine,
    price: u64,
    qty: u64,
    side: Side,
    r: Result<u64, RiskRejection>,
)
    requires
        MatchingEngine::limit_post(&e0, &e1, price, qty, side, r),
        r is Ok,
    ensures
        e1.trade_log().len() >= e0.trade_log().len(),
        forall|i: int|
            e0.trade_log().len() <= i < e1.trade_log().len() ==> {
                let t = #[trigger] e1.trade_log()[i];
                &&& side == Side::Buy ==> t.price <= price
                &&& side == Side::Sell ==> t.price >= price
                &&& t.taker_id == r->Ok_0
                &&& t.taker_side == side
            },
{
    let taker = Order { id: e0.next_order_id(), price, qty, side };
    let m = e0.book_state()@.side(side.spec_opposite());
    lemma_match_priority(m, taker);
    let ts = match_spec(m, taker).1;
    let n0 = e0.trade_log().len() as int;
    assert(e1.trade_log() == e0.trade_log() + ts);
    assert forall|i: int| n0 <= i < e1.trade_log().len() implies {
        let t = #[trigger] e1.trade_log()[i];
        &&& side == Side::Buy ==> t.price <= price
        &&& side == Side::Sell ==> t.price >= price
        &&& t.taker_id == r->Ok_0
        &&& t.taker_side == side
    } by {
        assert(e1.trade_log()[i] == ts[i - n0]);
        assert(m.contains_key(ts[i - n0].price));
        assert(crate::matching::crosses(side, price, ts[i - n0].price));
    }
}

/// The distance check needs a mid price, which exists only while both
/// sides of the book have a level: a limit order is refused for its
/// distance only when there is a best bid `b`, a best ask `a` and a
/// deviation limit `d`, and `price` is more than `d` away from `(b + a) / 2`.
pub proof fn law_distance_refusal_needs_both_sides(
    e0: MatchingEngine,
    e1: MatchingEngine,
    price: u64,
    qty: u64,
    side: Side,
    r: Result<u64, RiskRejection>,
)
    requires
        MatchingEngine::limit_post(&e0, &e1, price, qty, side, r),
    ensures
        r == Err::<u64, RiskRejection>(RiskRejection::PriceTooFarFromMid) ==> match (
            best_price(e0.book_state()@.bids, Side::Buy),
            best_price(e0.book_state()@.asks, Side::Sell),
            e0.risk_gate().max_price_deviation,
        ) {
            (Some(b), Some(a), Some(d)) => {
                ||| price > (b + a) / 2 && price - (b + a) / 2 > d
                ||| price < (b + a) / 2 && (b + a) / 2 - price > d
            },
            _ => false,
        },
        best_price(e0.book_state()@.bids, Side::Buy) is None || best_price(
            e0.book_state()@.asks,
            Side::Sell,
        ) is None ==> r != Err::<u64, RiskRejection>(RiskRejection::PriceTooFarFromMid),
        ({
            let gate = e0.risk_gate();
            match (
                best_price(e0.book_state()@.bids, Side::Buy),
                best_price(e0.book_state()@.asks, Side::Sell),
                gate.max_price_deviation,
            ) {
                (Some(b), Some(a), Some(d)) => ({
                    &&& gate.max_order_qty matches Some(mq) ==> qty <= mq
                    &&& gate.max_notional matches Some(mn) ==> price * qty <= mn
                    &&& (price > (b + a) / 2 && price - (b + a) / 2 > d) || (price < (b + a) / 2
                        && (b + a) / 2 - price > d)
                }) ==> r == Err::<u64, RiskRejection>(RiskRejection::PriceTooFarFromMid),
                _ => true,
            }
        }),
{
}

/// Amending a resting order to a positive quantity no larger than its own
/// remaining quantity succeeds; a size increase is reported only when the
/// new quantity exceeds that order's own quantity.
pub proof fn law_amend_lowers_any_resting_order(
    e0: MatchingEngine,
    e1: MatchingEngine,
    order_id: u64,
    new_qty: u64,
    r: Result<(), AmendError>,
)
    requires
        e0.wf(),
        MatchingEngine::amend_post(&e0, &e1, order_id, new_qty, r),
    ensures
        ({
            let (p, s) = e0.book_state().index@[order_id];
            let q = e0.book_state()@.side(s)[p];
            &&& forall|j: int|
                e0.book_state().index@.contains_key(order_id) && 0 <= j < q.len() && #[trigger] q[j].id
                    == order_id && 0 < new_qty <= q[j].qty ==> r == Ok::<(), AmendError>(())
            &&& r == Ok::<(), AmendError>(()) ==> {
                &&& e0.book_state().index@.contains_key(order_id)
                &&& exists|j: int|
                    0 <= j < q.len() && #[trigger] q[j].id == order_id && 0 < new_qty <= q[j].qty
            }
            &&& r == Err::<(), AmendError>(AmendError::SizeIncrease) ==> {
                &&& e0.book_state().index@.contains_key(order_id)
                &&& exists|j: int|
                    0 <= j < q.len() && #[trigger] q[j].id == order_id && new_qty > q[j].qty
            }
        }),
{
    let idx = e0.book_state().index@;
    if idx.contains_key(order_id) {
        let (p, s) = idx[order_id];
        let q = e0.book_state()@.side(s)[p];
        assert(e0.book_state()@.side(s).contains_key(p) && has_id(q, order_id));
        assert(crate::book_model::queue_ok(q, p, s));
        let i = position_of(q, order_id);
        assert(0 <= i < q.len() && q[i].id == order_id);
        assert forall|j: int| 0 <= j < q.len() && #[trigger] q[j].id == order_id implies j == i by {}
    }
}

/// A market order fills, each time, all that the front maker has or all
/// that it still wants, whichever is less: so it never meets the same
/// maker twice in a row, and every maker it traded with is gone from the
/// book afterwards, except the last one when the order was filled.
pub proof fn law_market_order_meets_each_maker_once(
    e0: MatchingEngine,
    e1: MatchingEngine,
    qty: u64,
    side: Side,
    r: Result<(u64, u64), RiskRejection>,
)
    requires
        e0.wf(),
        MatchingEngine::market_post(&e0, &e1, qty, side, r),
        r is Ok,
    ensures
        e1.trade_log().len() >= e0.trade_log().len(),
        forall|i: int|
            e0.trade_log().len() <= i && i + 1 < e1.trade_log().len() ==> #[trigger] e1.trade_log()[i].maker_id
                != e1.trade_log()[i + 1].maker_id,
        forall|i: int, p: u64, j: int|
            e0.trade_log().len() <= i < e1.trade_log().len() && (i + 1 < e1.trade_log().len()
                || r->Ok_0.1 < qty) && e1.book_state()@.side(side.spec_opposite()).contains_key(p)
                && 0 <= j < e1.book_state()@.side(side.spec_opposite())[p].len()
                ==> #[trigger] e1.book_state()@.side(side.spec_opposite())[p][j].id
                != #[trigger] e1.trade_log()[i].maker_id,
        forall|i: int, j: int, k: int|
            #![trigger e1.trade_log()[i], e0.book_state()@.side(side.spec_opposite())[e1.trade_log()[i].price][j], e0.book_state()@.side(side.spec_opposite())[e1.trade_log()[i].price][k]]
            e0.trade_log().len() <= i < e1.trade_log().len() && e0.book_state()@.side(
                side.spec_opposite(),
            ).contains_key(e1.trade_log()[i].price) && 0 <= k < j < e0.book_state()@.side(
                side.spec_opposite(),
            )[e1.trade_log()[i].price].len() && e0.book_state()@.side(
                side.spec_opposite(),
            )[e1.trade_log()[i].price][j].id == e1.trade_log()[i].maker_id ==> exists|i2: int|
                e0.trade_log().len() <= i2 < i && #[trigger] e1.trade_log()[i2].maker_id
                    == e0.book_state()@.side(side.spec_opposite())[e1.trade_log()[i].price][k].id,
{
    let taker = Order { id: e0.next_order_id(), price: market_limit(side), qty, side };
    let opp = side.spec_opposite();
    let m = e0.book_state()@.side(opp);
    lemma_match_makers(e0.book_state()@, e0.book_state().index@, taker);
    lemma_match_conserves(m, taker);
    let (m2, ts, rest) = match_spec(m, taker);
    let n0 = e0.trade_log().len() as int;
    assert(e1.trade_log() == e0.trade_log() + ts);
    assert(e1.book_state()@.side(opp) == m2);
    assert forall|i: int| n0 <= i && i + 1 < e1.trade_log().len() implies #[trigger] e1.trade_log()[i].maker_id
        != e1.trade_log()[i + 1].maker_id by {
        assert(e1.trade_log()[i] == ts[i - n0]);
        assert(e1.trade_log()[i + 1] == ts[i - n0 + 1]);
    }
    assert forall|i: int, p: u64, j: int|
        n0 <= i < e1.trade_log().len() && (i + 1 < e1.trade_log().len() || r->Ok_0.1 < qty)
            && m2.contains_key(p) && 0 <= j < m2[p].len() implies #[trigger] e1.book_state()@.side(
        opp,
    )[p][j].id != #[trigger] e1.trade_log()[i].maker_id by {
        assert(e1.trade_log()[i] == ts[i - n0]);
        assert(!side_has_id(m2, ts[i - n0].maker_id));
        if m2[p][j].id == ts[i - n0].maker_id {
            assert(has_id(m2[p], ts[i - n0].maker_id));
        }
    }
    assert forall|i: int, j: int, k: int|
        #![trigger e1.trade_log()[i], m[e1.trade_log()[i].price][j], m[e1.trade_log()[i].price][k]]
        n0 <= i < e1.trade_log().len() && m.contains_key(e1.trade_log()[i].price) && 0 <= k < j
            < m[e1.trade_log()[i].price].len() && m[e1.trade_log()[i].price][j].id
            == e1.trade_log()[i].maker_id implies exists|i2: int|
        n0 <= i2 < i && #[trigger] e1.trade_log()[i2].maker_id == m[e1.trade_log()[i].price][k].id by {
        assert(e1.trade_log()[i] == ts[i - n0]);
        assert(crate::matching::older_orders_met_first(m, ts, i - n0));
        let pi = ts[i - n0].price;
        assert(queue_at(m, pi) == m[pi]);
        assert(queue_at(m, pi)[j].id == ts[i - n0].maker_id);
        assert(queue_at(m, pi)[k] == m[pi][k]);
        let i3 = choose|i3: int| 0 <= i3 < i - n0 && #[trigger] ts[i3].maker_id == queue_at(m, pi)[k].id;
        assert(e1.trade_log()[i3 + n0] == ts[i3]);
    }
}

/// A limit order likewise never meets the same maker twice in a row, and
/// every maker it traded with but the last is gone from the book afterwards.
pub proof fn law_limit_order_meets_each_maker_once(
    e0: MatchingEngine,
    e1: MatchingEngine,
    price: u64,
    qty: u64,
    side: Side,
    r: Result<u64, RiskRejection>,
)
    requires
        e0.wf(),
        MatchingEngine::limit_post(&e0, &e1, price, qty, side, r),
        r is Ok,
    ensures
        e1.trade_log().len() >= e0.trade_log().len(),
        forall|i: int|
            e0.trade_log().len() <= i && i + 1 < e1.trade_log().len() ==> #[trigger] e1.trade_log()[i].maker_id
                != e1.trade_log()[i + 1].maker_id,
        forall|i: int, p: u64, j: int|
            e0.trade_log().len() <= i && i + 1 < e1.trade_log().len() && e1.book_state()@.side(
                side.spec_opposite(),
            ).contains_key(p) && 0 <= j < e1.book_state()@.side(side.spec_opposite())[p].len()
                ==> #[trigger] e1.book_state()@.side(side.spec_opposite())[p][j].id
                != #[trigger] e1.trade_log()[i].maker_id,
        forall|i: int, j: int, k: int|
            #![trigger e1.trade_log()[i], e0.book_state()@.side(side.spec_opposite())[e1.trade_log()[i].price][j], e0.book_state()@.side(side.spec_opposite())[e1.trade_log()[i].price][k]]
            e0.trade_log().len() <= i < e1.trade_log().len() && e0.book_state()@.side(
                side.spec_opposite(),
            ).contains_key(e1.trade_log()[i].price) && 0 <= k < j < e0.book_state()@.side(
                side.spec_opposite(),
            )[e1.trade_log()[i].price].len() && e0.book_state()@.side(
                side.spec_opposite(),
            )[e1.trade_log()[i].price][j].id == e1.trade_log()[i].maker_id ==> exists|i2: int|
                e0.trade_log().len() <= i2 < i && #[trigger] e1.trade_log()[i2].maker_id
                    == e0.book_state()@.side(side.spec_opposite())[e1.trade_log()[i].price][k].id,
{
    let taker = Order { id: e0.next_order_id(), price, qty, side };
    let opp = side.spec_opposite();
    let m = e0.book_state()@.side(opp);
    lemma_match_makers(e0.book_state()@, e0.book_state().index@, taker);
    let (m2, ts, rest) = match_spec(m, taker);
    let n0 = e0.trade_log().len() as int;
    assert(e1.trade_log() == e0.trade_log() + ts);
    let b1 = e0.book_state()@.with_side(opp, m2);
    assert(e1.book_state()@.side(opp) == m2);
    assert forall|i: int| n0 <= i && i + 1 < e1.trade_log().len() implies #[trigger] e1.trade_log()[i].maker_id
        != e1.trade_log()[i + 1].maker_id by {
        assert(e1.trade_log()[i] == ts[i - n0]);
        assert(e1.trade_log()[i + 1] == ts[i - n0 + 1]);
    }
    assert forall|i: int, p: u64, j: int|
        n0 <= i && i + 1 < e1.trade_log().len() && m2.contains_key(p) && 0 <= j < m2[p].len()
            implies #[trigger] e1.book_state()@.side(opp)[p][j].id
        != #[trigger] e1.trade_log()[i].maker_id by {
        assert(e1.trade_log()[i] == ts[i - n0]);
        assert(!side_has_id(m2, ts[i - n0].maker_id));
        if m2[p][j].id == ts[i - n0].maker_id {
            assert(has_id(m2[p], ts[i - n0].maker_id));
        }
    }
    assert forall|i: int, j: int, k: int|
        #![trigger e1.trade_log()[i], m[e1.trade_log()[i].price][j], m[e1.trade_log()[i].price][k]]
        n0 <= i < e1.trade_log().len() && m.contains_key(e1.trade_log()[i].price) && 0 <= k < j
            < m[e1.trade_log()[i].price].len() && m[e1.trade_log()[i].price][j].id
            == e1.trade_log()[i].maker_id implies exists|i2: int|
        n0 <= i2 < i && #[trigger] e1.trade_log()[i2].maker_id == m[e1.trade_log()[i].price][k].id by {
        assert(e1.trade_log()[i] == ts[i - n0]);
        assert(crate::matching::older_orders_met_first(m, ts, i - n0));
        let pi = ts[i - n0].price;
        assert(queue_at(m, pi) == m[pi]);
        assert(queue_at(m, pi)[j].id == ts[i - n0].maker_id);
        assert(queue_at(m, pi)[k] == m[pi][k]);
        let i3 = choose|i3: int| 0 <= i3 < i - n0 && #[trigger] ts[i3].maker_id == queue_at(m, pi)[k].id;
        assert(e1.trade_log()[i3 + n0] == ts[i3]);
    }
}

} // verus!
