//! What matching an incoming order against the book does, stated on the
//! book's mathematical picture.
use vstd::prelude::*;

use crate::book_model::{fill_front, has_id, lemma_fill_front, queue_at, replace_queue, BookModel};
use crate::price_level::{lemma_sum_update, sum_qty};
use crate::order::Order;
use crate::orderbook::best_price;
use crate::side::Side;
use crate::trade::Trade;

verus! {

/// Whether a taker of side `side` with limit `limit` trades with a level
/// priced `level`: a buy reaches asks at or below its limit, a sell reaches
/// bids at or above it.
pub open spec fn crosses(side: Side, limit: u64, level: u64) -> bool {
    match side {
        Side::Buy => limit >= level,
        Side::Sell => limit <= level,
    }
}

/// The quantity that passes when a taker with `want` left meets a maker
/// with `has` left.
pub open spec fn fill_qty(want: u64, has: u64) -> u64 {
    if want <= has {
        want
    } else {
        has
    }
}

/// The limit a market order of the given side carries: it crosses every
/// level.
pub open spec fn market_limit(side: Side) -> u64 {
    match side {
        Side::Buy => u64::MAX,
        Side::Sell => 0,
    }
}

/// Matches `taker` against `m`, the levels of the opposite side: while the
/// taker has quantity left and the best level crosses its limit, the oldest
/// order of that level fills as much as both have, at the level's price.
/// The result is the opposite side afterwards, the trades in the order they
/// happened, and the taker's unfilled quantity.
pub open spec fn match_spec(m: Map<u64, Seq<Order>>, taker: Order) -> (
    Map<u64, Seq<Order>>,
    Seq<Trade>,
    u64,
)
    decreases taker.qty,
{
    if taker.qty == 0 {
        (m, Seq::empty(), 0)
    } else {
        match best_price(m, taker.side.spec_opposite()) {
            None => (m, Seq::empty(), taker.qty),
            Some(p) => {
                if !crosses(taker.side, taker.price, p) || m[p].len() == 0 || m[p][0].qty == 0 {
                    (m, Seq::empty(), taker.qty)
                } else {
                    let maker = m[p][0];
                    let f = fill_qty(taker.qty, maker.qty);
                    let m2 = replace_queue(m, p, fill_front(m[p], f));
                    let t = Trade {
                        maker_id: maker.id,
                        taker_id: taker.id,
                        taker_side: taker.side,
                        price: p,
                        qty: f,
                    };
                    let rest = match_spec(m2, taker.with_qty((taker.qty - f) as u64));
                    (rest.0, seq![t] + rest.1, rest.2)
                }
            },
        }
    }
}

/// A limit order placed on the book: it matches against the opposite side,
/// and what is left of it rests at the back of the queue at its price.
/// The result is the book afterwards and the trades.
pub open spec fn place_spec(b: BookModel, taker: Order) -> (BookModel, Seq<Trade>) {
    let opp = taker.side.spec_opposite();
    let (m2, ts, r) = match_spec(b.side(opp), taker);
    let b1 = b.with_side(opp, m2);
    if r > 0 {
        (
            b1.with_queue(
                taker.side,
                taker.price,
                b1.queue(taker.side, taker.price).push(taker.with_qty(r)),
            ),
            ts,
        )
    } else {
        (b1, ts)
    }
}

/// A market order placed on the book: it matches against every level of
/// the opposite side in turn, and what is left of it is dropped. The result
/// is the book afterwards, the trades and the unfilled quantity.
pub open spec fn market_spec(b: BookModel, taker: Order) -> (BookModel, Seq<Trade>, u64) {
    let opp = taker.side.spec_opposite();
    let (m2, ts, r) = match_spec(b.side(opp), taker);
    (b.with_side(opp, m2), ts, r)
}

/// The summed quantity of a sequence of trades.
pub open spec fn traded_qty(ts: Seq<Trade>) -> int
    decreases ts.len(),
{
    if ts.len() == 0 {
        0
    } else {
        ts[0].qty + traded_qty(ts.drop_first())
    }
}

/// Matching conserves quantity: what trades plus what is left is what the
/// taker brought.
pub proof fn lemma_match_conserves(m: Map<u64, Seq<Order>>, taker: Order)
    ensures
        traded_qty(match_spec(m, taker).1) + match_spec(m, taker).2 == taker.qty,
        match_spec(m, taker).2 <= taker.qty,
    decreases taker.qty,
{
    if taker.qty > 0 {
        if let Some(p) = best_price(m, taker.side.spec_opposite()) {
            if !(!crosses(taker.side, taker.price, p) || m[p].len() == 0 || m[p][0].qty == 0) {
                let maker = m[p][0];
                let f = fill_qty(taker.qty, maker.qty);
                let m2 = replace_queue(m, p, fill_front(m[p], f));
                let next = taker.with_qty((taker.qty - f) as u64);
                lemma_match_conserves(m2, next);
                let rest = match_spec(m2, next);
                let t = Trade {
                    maker_id: maker.id,
                    taker_id: taker.id,
                    taker_side: taker.side,
                    price: p,
                    qty: f,
                };
                assert((seq![t] + rest.1).drop_first() =~= rest.1);
            }
        }
    }
}

/// A match without trades leaves the opposite side as it was.
proof fn lemma_match_empty_keeps(m: Map<u64, Seq<Order>>, taker: Order)
    requires
        match_spec(m, taker).1.len() == 0,
    ensures
        match_spec(m, taker).0 == m,
{
}

/// Every trade of `ts` is at a price that `m` has and that the taker's
/// limit reaches, belongs to the taker, and moves a positive quantity.
pub open spec fn trades_within_limit(m: Map<u64, Seq<Order>>, taker: Order, ts: Seq<Trade>) -> bool {
    forall|i: int|
        0 <= i < ts.len() ==> {
            &&& m.contains_key(#[trigger] ts[i].price)
            &&& crosses(taker.side, taker.price, ts[i].price)
            &&& ts[i].taker_id == taker.id
            &&& ts[i].taker_side == taker.side
            &&& ts[i].qty > 0
        }
}

/// The trades of a taker of side `side` come best price first: rising
/// prices for a buy, falling prices for a sell.
pub open spec fn trades_best_first(side: Side, ts: Seq<Trade>) -> bool {
    forall|i: int, j: int|
        0 <= i < j < ts.len() ==> match side {
            Side::Buy => #[trigger] ts[i].price <= #[trigger] ts[j].price,
            Side::Sell => ts[i].price >= ts[j].price,
        }
}

/// Price priority: every trade of a match is at a price the opposite side
/// had, that the taker's limit reaches, for a positive quantity; a buy meets
/// prices from the lowest up, a sell from the highest down; and matching
/// only takes levels away.
pub proof fn lemma_match_priority(m: Map<u64, Seq<Order>>, taker: Order)
    ensures
        trades_within_limit(m, taker, match_spec(m, taker).1),
        trades_best_first(taker.side, match_spec(m, taker).1),
        forall|k: u64| #[trigger] match_spec(m, taker).0.contains_key(k) ==> m.contains_key(k),
    decreases taker.qty,
{
    let res = match_spec(m, taker);
    if res.1.len() == 0 {
        assert forall|k: u64| #[trigger] res.0.contains_key(k) implies m.contains_key(k) by {
            lemma_match_empty_keeps(m, taker);
        }
        return;
    }
    if taker.qty > 0 {
        if let Some(p) = best_price(m, taker.side.spec_opposite()) {
            if !(!crosses(taker.side, taker.price, p) || m[p].len() == 0 || m[p][0].qty == 0) {
                let maker = m[p][0];
                let f = fill_qty(taker.qty, maker.qty);
                let m2 = replace_queue(m, p, fill_front(m[p], f));
                let next = taker.with_qty((taker.qty - f) as u64);
                lemma_match_priority(m2, next);
                let rest = match_spec(m2, next);
                let t = Trade {
                    maker_id: maker.id,
                    taker_id: taker.id,
                    taker_side: taker.side,
                    price: p,
                    qty: f,
                };
                let ts = seq![t] + rest.1;
                let c = choose|c: u64| crate::orderbook::is_best(m, taker.side.spec_opposite(), c);
                assert(crate::orderbook::is_best(m, taker.side.spec_opposite(), c));
                assert(res == (rest.0, ts, rest.2));
                assert forall|k: u64| #[trigger] rest.0.contains_key(k) implies m.contains_key(k) by {
                    assert(m2.contains_key(k));
                }
                assert forall|i: int| 0 <= i < ts.len() implies {
                    &&& m.contains_key(#[trigger] ts[i].price)
                    &&& crosses(taker.side, taker.price, ts[i].price)
                    &&& ts[i].taker_id == taker.id
                    &&& ts[i].taker_side == taker.side
                    &&& ts[i].qty > 0
                } by {
                    if i > 0 {
                        assert(ts[i] == rest.1[i - 1]);
                        assert(m2.contains_key(rest.1[i - 1].price));
                    } else {
                        assert(ts[i] == t);
                    }
                }
                assert(trades_within_limit(m, taker, ts));
                assert forall|i: int, j: int| 0 <= i < j < ts.len() implies match taker.side {
                    Side::Buy => #[trigger] ts[i].price <= #[trigger] ts[j].price,
                    Side::Sell => ts[i].price >= ts[j].price,
                } by {
                    assert(ts[j] == rest.1[j - 1]);
                    assert(m2.contains_key(rest.1[j - 1].price));
                    let k = ts[j].price;
                    if i > 0 {
                        assert(ts[i] == rest.1[i - 1]);
                    } else if taker.side == Side::Buy {
                        assert(ts[i] == t);
                        assert(c <= k);
                    } else {
                        assert(ts[i] == t);
                        assert(k <= c);
                    }
                }
                assert(trades_best_first(taker.side, ts));
            }
        }
    }
}

/// The summed quantity of the trades of `ts` at price `p`.
pub open spec fn traded_qty_at(ts: Seq<Trade>, p: u64) -> int
    decreases ts.len(),
{
    if ts.len() == 0 {
        0
    } else {
        (if ts[0].price == p {
            ts[0].qty as int
        } else {
            0
        }) + traded_qty_at(ts.drop_first(), p)
    }
}

/// Filling the front order of a queue by `f` lowers the queue's quantity
/// by `f`.
pub proof fn lemma_sum_fill_front(q: Seq<Order>, f: u64)
    requires
        q.len() > 0,
        0 < f <= q[0].qty,
    ensures
        sum_qty(fill_front(q, f)) == sum_qty(q) - f,
{
    if q[0].qty > f {
        lemma_sum_update(q, 0, q[0].with_qty((q[0].qty - f) as u64));
    }
}

/// Every unit a taker fills comes out of the level it traded at: at each
/// price, the quantity resting afterwards plus the quantity traded there is
/// the quantity that rested before.
pub proof fn lemma_match_moves_qty(m: Map<u64, Seq<Order>>, taker: Order)
    ensures
        forall|p: u64|
            #![trigger queue_at(match_spec(m, taker).0, p)]
            sum_qty(queue_at(match_spec(m, taker).0, p)) + traded_qty_at(match_spec(m, taker).1, p)
                == sum_qty(queue_at(m, p)),
    decreases taker.qty,
{
    let res = match_spec(m, taker);
    if res.1.len() == 0 {
        lemma_match_empty_keeps(m, taker);
        return;
    }
    if taker.qty > 0 {
        if let Some(p0) = best_price(m, taker.side.spec_opposite()) {
            if !(!crosses(taker.side, taker.price, p0) || m[p0].len() == 0 || m[p0][0].qty == 0) {
                let maker = m[p0][0];
                let f = fill_qty(taker.qty, maker.qty);
                let q2 = fill_front(m[p0], f);
                let m2 = replace_queue(m, p0, q2);
                let next = taker.with_qty((taker.qty - f) as u64);
                lemma_match_moves_qty(m2, next);
                lemma_sum_fill_front(m[p0], f);
                let rest = match_spec(m2, next);
                let t = Trade {
                    maker_id: maker.id,
                    taker_id: taker.id,
                    taker_side: taker.side,
                    price: p0,
                    qty: f,
                };
                let ts = seq![t] + rest.1;
                assert(res == (rest.0, ts, rest.2));
                assert(ts.drop_first() =~= rest.1);
                assert forall|p: u64| #![trigger queue_at(res.0, p)]
                    sum_qty(queue_at(res.0, p)) + traded_qty_at(res.1, p) == sum_qty(queue_at(m, p)) by {
                    assert(sum_qty(queue_at(rest.0, p)) + traded_qty_at(rest.1, p) == sum_qty(
                        queue_at(m2, p),
                    ));
                    assert(traded_qty_at(ts, p) == (if p == p0 {
                        f as int
                    } else {
                        0
                    }) + traded_qty_at(rest.1, p));
                    if p == p0 {
                        if q2.len() == 0 {
                            assert(sum_qty(queue_at(m2, p)) == 0);
                        } else {
                            assert(queue_at(m2, p) == q2);
                        }
                    } else {
                        assert(queue_at(m2, p) == queue_at(m, p));
                    }
                }
            }
        }
    }
}

/// Whether some order resting on side `m` has the id `x`.
pub open spec fn side_has_id(m: Map<u64, Seq<Order>>, x: u64) -> bool {
    exists|p: u64| m.contains_key(p) && #[trigger] has_id(m[p], x)
}

/// Time priority for trade `i` of `ts`: every order that rested before the
/// match at the trade's price, ahead of (older than) the trade's maker, was
/// met by an earlier trade.
pub open spec fn older_orders_met_first(m: Map<u64, Seq<Order>>, ts: Seq<Trade>, i: int) -> bool {
    forall|j: int, k: int|
        #![trigger queue_at(m, ts[i].price)[j], queue_at(m, ts[i].price)[k]]
        0 <= k < j < queue_at(m, ts[i].price).len() && queue_at(m, ts[i].price)[j].id
            == ts[i].maker_id ==> exists|i2: int|
            0 <= i2 < i && #[trigger] ts[i2].maker_id == queue_at(m, ts[i].price)[k].id
}

/// Each fill takes the smaller of what the taker still wants and what the
/// front maker still has, so a maker is met at most once in a row: every
/// trade's maker was resting before the match, every maker except perhaps
/// the last one is gone afterwards (and the last one too when the taker is
/// left with quantity), two consecutive trades never share a maker,
/// within a price older orders are met first, and matching adds no order.
pub proof fn lemma_match_makers(b: BookModel, index: Map<u64, (u64, Side)>, taker: Order)
    requires
        b.levels_ok(),
        b.indexed_by(index),
    ensures
        ({
            let m = b.side(taker.side.spec_opposite());
            let (m2, ts, rest) = match_spec(m, taker);
            &&& forall|i: int| 0 <= i < ts.len() ==> side_has_id(m, #[trigger] ts[i].maker_id)
            &&& forall|i: int|
                0 <= i < ts.len() && (i + 1 < ts.len() || rest > 0) ==> !side_has_id(
                    m2,
                    #[trigger] ts[i].maker_id,
                )
            &&& forall|i: int|
                0 <= i && i + 1 < ts.len() ==> #[trigger] ts[i].maker_id != ts[i + 1].maker_id
            &&& forall|x: u64| #[trigger] side_has_id(m2, x) ==> side_has_id(m, x)
            &&& forall|i: int| 0 <= i < ts.len() ==> #[trigger] older_orders_met_first(m, ts, i)
        }),
    decreases taker.qty,
{
    let s = taker.side.spec_opposite();
    let m = b.side(s);
    let res = match_spec(m, taker);
    if res.1.len() == 0 {
        lemma_match_empty_keeps(m, taker);
        return;
    }
    if taker.qty > 0 {
        if let Some(p) = best_price(m, s) {
            if !(!crosses(taker.side, taker.price, p) || m[p].len() == 0 || m[p][0].qty == 0) {
                let q = m[p];
                let maker = q[0];
                let f = fill_qty(taker.qty, maker.qty);
                let q2 = fill_front(q, f);
                let m1 = replace_queue(m, p, q2);
                let next = taker.with_qty((taker.qty - f) as u64);
                let index2 = if maker.qty == f {
                    index.remove(maker.id)
                } else {
                    index
                };
                lemma_fill_front(b, index, s, p, f);
                let b2 = b.with_queue(s, p, q2);
                assert(b2.side(s) == m1);
                assert(next.side.spec_opposite() == s);
                lemma_match_makers(b2, index2, next);
                let rest = match_spec(m1, next);
                let t = Trade {
                    maker_id: maker.id,
                    taker_id: taker.id,
                    taker_side: taker.side,
                    price: p,
                    qty: f,
                };
                let ts = seq![t] + rest.1;
                assert(res == (rest.0, ts, rest.2));
                assert(crate::book_model::queue_ok(q, p, s));
                // the maker rests before the match
                assert(has_id(q, maker.id));
                assert(side_has_id(m, maker.id));
                // the step keeps only orders that were there
                assert forall|x: u64| #[trigger] side_has_id(m1, x) implies side_has_id(m, x) by {
                    let k = choose|k: u64| m1.contains_key(k) && #[trigger] has_id(m1[k], x);
                    if k == p {
                        assert(m1[k] == q2);
                        let j = choose|j: int| 0 <= j < q2.len() && #[trigger] q2[j].id == x;
                        if q[0].qty <= f {
                            assert(q[j + 1].id == x);
                        } else {
                            assert(q[j].id == x);
                        }
                        assert(has_id(m[p], x));
                    } else {
                        assert(m1[k] == m[k]);
                    }
                }
                // when the taker goes on, the maker was used up and is gone
                if next.qty > 0 {
                    assert(f == maker.qty);
                    assert(q2 == q.drop_first());
                    assert(!side_has_id(m1, maker.id)) by {
                        if side_has_id(m1, maker.id) {
                            let k = choose|k: u64|
                                m1.contains_key(k) && #[trigger] has_id(m1[k], maker.id);
                            let j = choose|j: int|
                                0 <= j < m1[k].len() && #[trigger] m1[k][j].id == maker.id;
                            if k == p {
                                assert(q[j + 1].id == q[0].id);
                            } else {
                                assert(m1[k] == m[k]);
                                assert(b.side(s)[k][j] == m[k][j]);
                                assert(index[maker.id] == (k, s));
                                assert(b.side(s)[p][0] == maker);
                                assert(index[maker.id] == (p, s));
                            }
                        }
                    }
                } else {
                    assert(rest.1.len() == 0 && rest.2 == 0);
                }
                assert forall|i: int| 0 <= i < ts.len() implies side_has_id(
                    m,
                    #[trigger] ts[i].maker_id,
                ) by {
                    if i > 0 {
                        assert(ts[i] == rest.1[i - 1]);
                        assert(side_has_id(m1, rest.1[i - 1].maker_id));
                    }
                }
                assert forall|i: int|
                    0 <= i < ts.len() && (i + 1 < ts.len() || rest.2 > 0) implies !side_has_id(
                    rest.0,
                    #[trigger] ts[i].maker_id,
                ) by {
                    if i > 0 {
                        assert(ts[i] == rest.1[i - 1]);
                    } else {
                        assert(next.qty > 0);
                        if side_has_id(rest.0, maker.id) {
                            assert(side_has_id(m1, maker.id));
                        }
                    }
                }
                assert forall|i: int| 0 <= i && i + 1 < ts.len() implies #[trigger] ts[i].maker_id
                    != ts[i + 1].maker_id by {
                    assert(ts[i + 1] == rest.1[i]);
                    if i > 0 {
                        assert(ts[i] == rest.1[i - 1]);
                    } else {
                        assert(next.qty > 0);
                        assert(side_has_id(m1, rest.1[0].maker_id));
                    }
                }
                assert forall|x: u64| #[trigger] side_has_id(rest.0, x) implies side_has_id(m, x) by {
                    assert(side_has_id(m1, x));
                }
                assert forall|i: int| 0 <= i < ts.len() implies #[trigger] older_orders_met_first(
                    m,
                    ts,
                    i,
                ) by {
                    let pi = ts[i].price;
                    let qi = queue_at(m, pi);
                    if i == 0 {
                        assert(qi == q);
                        assert forall|j: int, k: int|
                            #![trigger qi[j], qi[k]]
                            0 <= k < j < qi.len() && qi[j].id == ts[i].maker_id implies exists|i2: int|
                            0 <= i2 < i && #[trigger] ts[i2].maker_id == qi[k].id by {
                            assert(q[j].id == q[0].id);
                        }
                    } else {
                        let ti = rest.1[i - 1];
                        assert(ts[i] == ti);
                        assert(older_orders_met_first(m1, rest.1, i - 1));
                        assert(next.qty > 0);
                        assert(side_has_id(m1, ti.maker_id));
                        assert forall|j: int, k: int|
                            #![trigger qi[j], qi[k]]
                            0 <= k < j < qi.len() && qi[j].id == ts[i].maker_id implies exists|i2: int|
                            0 <= i2 < i && #[trigger] ts[i2].maker_id == qi[k].id by {
                            if pi == p {
                                assert(qi == q);
                                if j == 0 {
                                    assert(ti.maker_id == maker.id);
                                    assert(false);
                                }
                                assert(q2.len() > 0);
                                assert(queue_at(m1, pi) == q2);
                                assert(q2[j - 1] == q[j]);
                                if k == 0 {
                                    assert(ts[0].maker_id == qi[0].id);
                                } else {
                                    assert(q2[k - 1] == q[k]);
                                    assert(queue_at(m1, pi)[j - 1].id == ti.maker_id);
                                    let i3 = choose|i3: int|
                                        0 <= i3 < i - 1 && #[trigger] rest.1[i3].maker_id == queue_at(
                                            m1,
                                            pi,
                                        )[k - 1].id;
                                    assert(ts[i3 + 1] == rest.1[i3]);
                                }
                            } else {
                                assert(queue_at(m1, pi) == qi);
                                assert(queue_at(m1, pi)[j].id == ti.maker_id);
                                let i3 = choose|i3: int|
                                    0 <= i3 < i - 1 && #[trigger] rest.1[i3].maker_id == queue_at(
                                        m1,
                                        pi,
                                    )[k].id;
                                assert(ts[i3 + 1] == rest.1[i3]);
                            }
                        }
                    }
                }
            }
        }
    }
}

} // verus!
