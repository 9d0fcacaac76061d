use vstd::prelude::*;

use crate::book_model::{has_id, lemma_remove_at, lemma_set_qty, position_of};
use crate::depth::{lists_levels, DepthSnapshot};
use crate::matching::{
    crosses, fill_qty, lemma_match_conserves, market_limit, market_spec, match_spec, place_spec,
};
use crate::order::Order;
use crate::orderbook::{best_price, lower_qty_in, position_in, take_in, Orderbook};
use crate::risk::{risk_verdict, RiskGate, RiskRejection};
use crate::side::Side;
use crate::trade::Trade;

verus! {

#[derive(Debug, Clone, Copy, PartialEq, Eq, Structural)]
pub enum CancelError {
    OrderNotFound,
}

#[derive(Debug, Clone, Copy, PartialEq, Eq, Structural)]
pub enum AmendError {
    OrderNotFound,
    SizeIncrease,
    InvalidQty,
}

/// An order book, the trades it has produced, the id the next order gets,
/// and the pre-trade risk limits.
pub struct MatchingEngine {
    pub book: Orderbook,
    pub trades: Vec<Trade>,
    next_id: u64,
    risk: RiskGate,
}

impl MatchingEngine {
    /// Prices are integers in hundredths of a currency unit.
    pub const PRICE_SCALE: u64 = 100;

    /// The order book.
    pub closed spec fn book_state(&self) -> Orderbook {
        self.book
    }

    /// The trades produced so far, oldest first.
    pub closed spec fn trade_log(&self) -> Seq<Trade> {
        self.trades@
    }

    /// The id the next accepted order gets.
    pub closed spec fn next_order_id(&self) -> u64 {
        self.next_id
    }

    /// The limits the engine checks orders against.
    pub closed spec fn risk_gate(&self) -> RiskGate {
        self.risk
    }

    /// The engine's invariant: a well-formed book that is not crossed and
    /// whose resting orders all have ids below the next id.
    pub open spec fn wf(&self) -> bool {
        &&& self.book_state().wf()
        &&& self.book_state()@.uncrossed()
        &&& forall|id: u64| #[trigger]
            self.book_state().index@.contains_key(id) ==> id < self.next_order_id()
    }

    /// Nothing observable about `self` differs from `other`.
    pub open spec fn same_as(&self, other: &Self) -> bool {
        &&& self.book_state()@ == other.book_state()@
        &&& self.book_state().index@ == other.book_state().index@
        &&& self.trade_log() == other.trade_log()
        &&& self.next_order_id() == other.next_order_id()
        &&& self.risk_gate() == other.risk_gate()
    }

    /// Where the index places the order with the given id: its price, its
    /// side and its position in the queue there.
    pub open spec fn locate(&self, order_id: u64) -> (u64, Side, int) {
        let (p, s) = self.book_state().index@[order_id];
        (p, s, position_of(self.book_state()@.side(s)[p], order_id))
    }

    /// What placing a limit order of `qty` at `price` on `side` does, taking
    /// `pre` to `post` with result `r`: a risk rejection changes nothing; an
    /// accepted order gets the next id, matches, and what is left of it rests.
    pub open spec fn limit_post(
        pre: &Self,
        post: &Self,
        price: u64,
        qty: u64,
        side: Side,
        r: Result<u64, RiskRejection>,
    ) -> bool {
        &&& r == (match risk_verdict(
            pre.risk_gate(),
            Some(price),
            qty,
            pre.book_state().mid_price_spec(),
        ) {
            Ok(_) => Ok(pre.next_order_id()),
            Err(e) => Err(e),
        })
        &&& r is Err ==> post.same_as(pre)
        &&& r is Ok ==> {
            let (b, ts) = place_spec(
                pre.book_state()@,
                Order { id: pre.next_order_id(), price, qty, side },
            );
            &&& post.book_state()@ == b
            &&& post.trade_log() == pre.trade_log() + ts
            &&& post.next_order_id() == pre.next_order_id() + 1
            &&& post.risk_gate() == pre.risk_gate()
        }
    }

    /// What placing a market order of `qty` on `side` does, taking `pre` to
    /// `post` with result `r`: a risk rejection changes nothing; an accepted
    /// order gets the next id and matches; the result carries the id and the
    /// filled quantity, and the unfilled rest is dropped.
    pub open spec fn market_post(
        pre: &Self,
        post: &Self,
        qty: u64,
        side: Side,
        r: Result<(u64, u64), RiskRejection>,
    ) -> bool {
        let (b, ts, rest) = market_spec(
            pre.book_state()@,
            Order { id: pre.next_order_id(), price: market_limit(side), qty, side },
        );
        &&& r == (match risk_verdict(pre.risk_gate(), None, qty, pre.book_state().mid_price_spec()) {
            Ok(_) => Ok((pre.next_order_id(), (qty - rest) as u64)),
            Err(e) => Err(e),
        })
        &&& r is Err ==> post.same_as(pre)
        &&& r is Ok ==> {
            &&& post.book_state()@ == b
            &&& post.trade_log() == pre.trade_log() + ts
            &&& post.next_order_id() == pre.next_order_id() + 1
            &&& post.risk_gate() == pre.risk_gate()
        }
    }

    /// What cancelling `order_id` does, taking `pre` to `post` with result
    /// `r`: an id that is not resting is refused and nothing changes;
    /// otherwise the order leaves its level and the index, and its
    /// remaining quantity is the result.
    pub open spec fn cancel_post(pre: &Self, post: &Self, order_id: u64, r: Result<u64, CancelError>) -> bool {
        &&& r is Err <==> !pre.book_state().index@.contains_key(order_id)
        &&& r is Err ==> r == Err::<u64, CancelError>(CancelError::OrderNotFound) && post.same_as(pre)
        &&& r is Ok ==> {
            let (p, s, i) = pre.locate(order_id);
            let q = pre.book_state()@.side(s)[p];
            &&& 0 <= i < q.len()
            &&& q[i].id == order_id
            &&& r == Ok::<u64, CancelError>(q[i].qty)
            &&& post.book_state()@ == pre.book_state()@.with_queue(s, p, q.remove(i))
            &&& post.book_state().index@ == pre.book_state().index@.remove(order_id)
            &&& post.trade_log() == pre.trade_log()
            &&& post.next_order_id() == pre.next_order_id()
            &&& post.risk_gate() == pre.risk_gate()
        }
    }

    /// What amending `order_id` to `new_qty` does, taking `pre` to `post`
    /// with result `r`: the result is `amend_verdict`; a refusal changes
    /// nothing; otherwise the order's quantity becomes `new_qty` in place.
    pub open spec fn amend_post(
        pre: &Self,
        post: &Self,
        order_id: u64,
        new_qty: u64,
        r: Result<(), AmendError>,
    ) -> bool {
        &&& r == pre.amend_verdict(order_id, new_qty)
        &&& r is Err ==> post.same_as(pre)
        &&& r is Ok ==> {
            let (p, s, i) = pre.locate(order_id);
            let q = pre.book_state()@.side(s)[p];
            &&& 0 <= i < q.len()
            &&& q[i].id == order_id
            &&& post.book_state()@ == pre.book_state()@.with_queue(
                s,
                p,
                q.update(i, q[i].with_qty(new_qty)),
            )
            &&& post.book_state().index@ == pre.book_state().index@
            &&& post.trade_log() == pre.trade_log()
            &&& post.next_order_id() == pre.next_order_id()
            &&& post.risk_gate() == pre.risk_gate()
        }
    }

    pub fn new(book: Orderbook) -> (e: MatchingEngine)
        ensures
            e.book_state() == book,
            e.trade_log() == Seq::<Trade>::empty(),
            e.next_order_id() == 1,
            e.risk_gate() == (RiskGate { max_order_qty: None, max_notional: None, max_price_deviation: None }),
            e.wf() == (book.wf() && book@.uncrossed() && forall|id: u64| #[trigger]
                book.index@.contains_key(id) ==> id < 1),
    {
        MatchingEngine { book, trades: Vec::new(), next_id: 1, risk: RiskGate::default() }
    }

    /// The id the next accepted order gets.
    pub fn next_id(&self) -> (r: u64)
        ensures
            r == self.next_order_id(),
    {
        self.next_id
    }

    /// Places a limit order: after the risk check it gets the next id,
    /// trades with the opposite side as far as its price allows, and what
    /// is left rests on the book.
    pub fn place_limit_order(&mut self, price: u64, qty: u64, side: Side) -> (r: Result<
        u64,
        RiskRejection,
    >)
        requires
            old(self).wf(),
            old(self).next_order_id() < u64::MAX,
            old(self).book_state().level_total(side, price) + qty <= u64::MAX,
            old(self).book_state().mid_fits(),
        ensures
            final(self).wf(),
            Self::limit_post(&*old(self), &*final(self), price, qty, side, r),
    {
        match self.check_risk(Some(price), qty) {
            Ok(()) => {},
            Err(e) => {
                return Err(e);
            },
        }
        let id: u64 = self.next_id;
        self.next_id = self.next_id + 1;
        let order = Order::new(id, price, qty, side);
        self.match_or_insert(order);
        Ok(id)
    }

    /// Places a market order: after the risk check (of its quantity only)
    /// it gets the next id and trades with the opposite side level by level
    /// until it is filled or the side is empty; the rest is dropped. Hands
    /// back the id and the quantity filled.
    pub fn place_market_order(&mut self, qty: u64, side: Side) -> (r: Result<
        (u64, u64),
        RiskRejection,
    >)
        requires
            old(self).wf(),
            old(self).next_order_id() < u64::MAX,
            old(self).book_state().mid_fits(),
        ensures
            final(self).wf(),
            Self::market_post(&*old(self), &*final(self), qty, side, r),
    {
        match self.check_risk(None, qty) {
            Ok(()) => {},
            Err(e) => {
                return Err(e);
            },
        }
        let id = self.next_id;
        self.next_id = self.next_id + 1;
        let extreme = match side {
            Side::Buy => u64::MAX,
            Side::Sell => 0,
        };
        let mut order = Order::new(id, extreme, qty, side);
        self.match_against_book(&mut order);
        proof {
            lemma_match_conserves(old(self).book@.side(side.spec_opposite()), Order::new_spec(id, extreme, qty, side));
        }
        let filled = qty - order.qty;
        Ok((id, filled))
    }

    fn match_or_insert(&mut self, order_in: Order)
        requires
            old(self).wf(),
            !old(self).book_state().index@.contains_key(order_in.id),
            order_in.id < old(self).next_order_id(),
            old(self).book_state().level_total(order_in.side, order_in.price) + order_in.qty <= u64::MAX,
        ensures
            final(self).wf(),
            final(self).book_state()@ == place_spec(old(self).book_state()@, order_in).0,
            final(self).trade_log() == old(self).trade_log() + place_spec(old(self).book_state()@, order_in).1,
            final(self).next_order_id() == old(self).next_order_id(),
            final(self).risk_gate() == old(self).risk_gate(),
    {
        let mut order = order_in;
        self.match_against_book(&mut order);
        proof {
            lemma_match_conserves(old(self).book@.side(order.side.spec_opposite()), order_in);
        }
        if order.qty > 0 {
            let ghost before = self.book@;
            let ghost index_before = self.book.index@;
            proof {
                assert(self.book.side_levels(order.side) == old(self).book_state().side_levels(order.side))
                    by {
                    assert(self.book.side_levels(order.side).dom() =~= self.book@.side(
                        order.side,
                    ).dom());
                    assert(old(self).book_state().side_levels(order.side).dom() =~= old(
                        self,
                    ).book@.side(order.side).dom());
                };
            }
            self.book.insert_order(order);
            proof {
                let s = order.side;
                let p = order.price;
                assert forall|b: u64, a: u64| #[trigger]
                    self.book@.bids.contains_key(b) && #[trigger] self.book@.asks.contains_key(
                        a,
                    ) implies b < a by {
                    if s == Side::Buy && b == p && !before.bids.contains_key(b) {
                        assert(before.asks.contains_key(a));
                        assert(!crosses(s, p, a));
                    } else if s == Side::Sell && a == p && !before.asks.contains_key(a) {
                        assert(before.bids.contains_key(b));
                        assert(!crosses(s, p, b));
                    } else if s == Side::Buy && b == p {
                        assert(before.asks.contains_key(a));
                        assert(!crosses(s, p, a));
                    } else if s == Side::Sell && a == p {
                        assert(before.bids.contains_key(b));
                        assert(!crosses(s, p, b));
                    } else {
                        assert(before.bids.contains_key(b) && before.asks.contains_key(a));
                    }
                }
                assert forall|id: u64| #[trigger]
                    self.book.index@.contains_key(id) implies id < self.next_order_id() by {
                    if id != order.id {
                        assert(index_before.contains_key(id));
                    }
                }
            }
        }
    }

    fn match_against_book(&mut self, order: &mut Order)
        requires
            old(self).wf(),
        ensures
            final(self).wf(),
            ({
                let opp = old(order).side.spec_opposite();
                let (m, ts, rest) = match_spec(old(self).book_state()@.side(opp), *old(order));
                &&& final(self).book_state()@ == old(self).book_state()@.with_side(opp, m)
                &&& final(self).trade_log() == old(self).trade_log() + ts
                &&& *final(order) == old(order).with_qty(rest)
                &&& rest > 0 ==> forall|k: u64| #[trigger]
                    final(self).book_state()@.side(opp).contains_key(k) ==> !crosses(
                        old(order).side,
                        old(order).price,
                        k,
                    )
            }),
            forall|id: u64| #[trigger]
                final(self).book_state().index@.contains_key(id) ==> old(self).book_state().index@.contains_key(id),
            final(self).book_state().side_levels(old(order).side) == old(self).book_state().side_levels(old(order).side),
            final(self).next_order_id() == old(self).next_order_id(),
            final(self).risk_gate() == old(self).risk_gate(),
    {
        let ghost b0 = old(self).book_state()@;
        let ghost i0 = old(self).book_state().index@;
        let ghost taker0 = *old(order);
        let ghost opp = taker0.side.spec_opposite();
        let ghost total = match_spec(b0.side(opp), taker0);
        let ghost trades0 = old(self).trade_log();
        let resting = order.side.opposite();
        loop
            invariant
                self.wf(),
                taker0 == *old(order),
                opp == taker0.side.spec_opposite(),
                b0 == old(self).book@,
                i0 == old(self).book.index@,
                total == match_spec(b0.side(opp), taker0),
                trades0 == old(self).trades@,
                self.book.side_levels(taker0.side) == old(self).book.side_levels(taker0.side),
                resting == opp,
                order.id == taker0.id,
                order.price == taker0.price,
                order.side == taker0.side,
                self.book@.side(taker0.side) == b0.side(taker0.side),
                self.book@ == b0.with_side(opp, self.book@.side(opp)),
                ({
                    let cur = match_spec(self.book@.side(opp), *order);
                    &&& cur.0 == total.0
                    &&& self.trades@ + cur.1 == trades0 + total.1
                    &&& cur.2 == total.2
                }),
                forall|id: u64| #[trigger] self.book.index@.contains_key(id) ==> i0.contains_key(id),
                self.next_id == old(self).next_id,
                self.risk == old(self).risk,
            ensures
                match_spec(self.book@.side(opp), *order) == (
                    self.book@.side(opp),
                    Seq::<Trade>::empty(),
                    order.qty,
                ),
                order.qty > 0 ==> forall|k: u64| #[trigger]
                    self.book@.side(opp).contains_key(k) ==> !crosses(order.side, order.price, k),
            decreases order.qty,
        {
            if order.qty == 0 {
                break ;
            }
            let best = self.book.best_price_of(resting);
            let level_price = match best {
                None => {
                    proof {
                        assert forall|p: u64| !crate::orderbook::is_best(self.book@.side(opp), opp, p) by {
                            assert(!self.book@.side(opp).dom().contains(p));
                        }
                    }
                    break ;
                },
                Some(p) => p,
            };
            let crosses_level = match order.side {
                Side::Buy => order.price >= level_price,
                Side::Sell => order.price <= level_price,
            };
            let ghost m = self.book@.side(opp);
            proof {
                let c = choose|c: u64| crate::orderbook::is_best(m, opp, c);
                assert(crate::orderbook::is_best(m, opp, c));
            }
            if !crosses_level {
                proof {
                    assert forall|k: u64| #[trigger] m.contains_key(k) implies !crosses(
                        order.side,
                        order.price,
                        k,
                    ) by {
                        let c = choose|c: u64| crate::orderbook::is_best(m, opp, c);
                        assert(m.contains_key(c));
                        assert(c == level_price);
                        if order.side == Side::Buy {
                            assert(opp == Side::Sell);
                            assert(level_price <= k);
                        } else {
                            assert(opp == Side::Buy);
                            assert(k <= level_price);
                        }
                    }
                }
                break ;
            }
            let ghost before_trades = self.trades@;
            let ghost before_book = self.book@;
            let ghost before_order = *order;
            proof {
                assert(m[level_price].len() > 0);
                assert(crate::book_model::rests_at(m[level_price][0], level_price, opp));
            }
            let (maker, f) = self.book.fill_front_order(resting, level_price, order.qty);
            self.trades.push(Trade::new(maker.id, order.id, order.side, level_price, f));
            order.qty = order.qty - f;
            proof {
                let t = Trade {
                    maker_id: maker.id,
                    taker_id: order.id,
                    taker_side: order.side,
                    price: level_price,
                    qty: f,
                };
                assert(f == fill_qty(before_order.qty, maker.qty));
                assert(*order == before_order.with_qty((before_order.qty - f) as u64));
                let rest = match_spec(self.book@.side(opp), *order);
                assert(self.book@.side(opp) == crate::book_model::replace_queue(
                    m,
                    level_price,
                    crate::book_model::fill_front(m[level_price], f),
                ));
                assert(opp == before_order.side.spec_opposite());
                assert(best_price(m, opp) == Some(level_price));
                assert(crosses(before_order.side, before_order.price, level_price));
                assert(m[level_price].len() > 0 && m[level_price][0].qty > 0);
                assert(maker == m[level_price][0]);
                assert(before_order.qty > 0);
                assert(match_spec(m, before_order) == (rest.0, seq![t] + rest.1, rest.2));
                assert(self.trades@ == before_trades.push(t));
                assert(self.trades@ + rest.1 =~= before_trades + (seq![t] + rest.1));
                assert forall|k: u64| #[trigger]
                    self.book@.side(opp).contains_key(k) implies m.contains_key(k) by {}
                assert forall|b: u64, a: u64| #[trigger]
                    self.book@.bids.contains_key(b) && #[trigger] self.book@.asks.contains_key(
                        a,
                    ) implies b < a by {
                    assert(before_book.bids.contains_key(b) && before_book.asks.contains_key(a));
                }
                assert(self.book@ =~= b0.with_side(opp, self.book@.side(opp)));
            }
        }
        proof {
            let rest = match_spec(self.book@.side(opp), *order);
            assert(self.trades@ + rest.1 =~= self.trades@);
            assert(order.qty == total.2);
        }
    }

    /// The outcome of a request to lower the quantity of `order_id` to `new_qty`.
    pub open spec fn amend_verdict(&self, order_id: u64, new_qty: u64) -> Result<(), AmendError> {
        if new_qty == 0 {
            Err(AmendError::InvalidQty)
        } else if !self.book_state().index@.contains_key(order_id) {
            Err(AmendError::OrderNotFound)
        } else {
            let (p, s, i) = self.locate(order_id);
            if new_qty > self.book_state()@.side(s)[p][i].qty {
                Err(AmendError::SizeIncrease)
            } else {
                Ok(())
            }
        }
    }

    /// Takes a resting order off the book; hands back the quantity it still
    /// had. The other orders of its level keep their order.
    pub fn cancel_order(&mut self, order_id: u64) -> (r: Result<u64, CancelError>)
        requires
            old(self).wf(),
        ensures
            final(self).wf(),
            Self::cancel_post(&*old(self), &*final(self), order_id, r),
    {
        let entry = self.book.index.remove(&order_id);
        let (price, side) = match entry {
            Some(e) => e,
            None => {
                proof {
                    assert(self.book.index@ =~= old(self).book.index@);
                }
                return Err(CancelError::OrderNotFound);
            },
        };
        let ghost b0 = old(self).book@;
        let ghost q = b0.side(side)[price];
        proof {
            assert(b0.side(side).contains_key(price) && has_id(q, order_id));
            assert(crate::book_model::queue_ok(q, price, side));
            assert(old(self).book.side_levels(side)[price].total_ok());
        }
        let canceled = match side {
            Side::Buy => take_in(&mut self.book.bids, price, order_id),
            Side::Sell => take_in(&mut self.book.asks, price, order_id),
        };
        proof {
            let i = position_of(q, order_id);
            assert(q[i].id == order_id);
            lemma_remove_at(b0, old(self).book.index@, side, price, i);
            let expect = b0.with_queue(side, price, q.remove(i));
            assert(self.book@.bids =~= expect.bids);
            assert(self.book@.asks =~= expect.asks);
            assert forall|b: u64, a: u64| #[trigger]
                self.book@.bids.contains_key(b) && #[trigger] self.book@.asks.contains_key(a) implies b
                < a by {
                assert(b0.bids.contains_key(b) && b0.asks.contains_key(a));
            }
        }
        Ok(canceled.qty)
    }

    /// Lowers the quantity of a resting order; it keeps its place in the
    /// queue. Raising it, or lowering it to 0, is refused.
    pub fn amend_order_qty(&mut self, order_id: u64, new_qty: u64) -> (r: Result<(), AmendError>)
        requires
            old(self).wf(),
        ensures
            final(self).wf(),
            Self::amend_post(&*old(self), &*final(self), order_id, new_qty, r),
    {
        if new_qty == 0 {
            return Err(AmendError::InvalidQty);
        }
        let (price, side) = match self.book.index.get(&order_id) {
            Some(e) => *e,
            None => {
                return Err(AmendError::OrderNotFound);
            },
        };
        let ghost b0 = old(self).book@;
        let ghost q = b0.side(side)[price];
        proof {
            assert(b0.side(side).contains_key(price) && has_id(q, order_id));
            assert(crate::book_model::queue_ok(q, price, side));
            assert(old(self).book.side_levels(side)[price].total_ok());
        }
        let level = match side {
            Side::Buy => self.book.bids.get(&price),
            Side::Sell => self.book.asks.get(&price),
        };
        let level = level.unwrap();
        let pos = position_in(&level.orders, order_id);
        let current = level.orders[pos].qty;
        if new_qty > current {
            return Err(AmendError::SizeIncrease);
        }
        match side {
            Side::Buy => lower_qty_in(&mut self.book.bids, price, pos, new_qty),
            Side::Sell => lower_qty_in(&mut self.book.asks, price, pos, new_qty),
        }
        proof {
            let i = pos as int;
            lemma_set_qty(b0, old(self).book.index@, side, price, i, new_qty);
            let q2 = q.update(i, q[i].with_qty(new_qty));
            let expect = b0.with_queue(side, price, q2);
            assert(self.book@.bids =~= expect.bids);
            assert(self.book@.asks =~= expect.asks);
            assert forall|b: u64, a: u64| #[trigger]
                self.book@.bids.contains_key(b) && #[trigger] self.book@.asks.contains_key(a) implies b
                < a by {
                assert(b0.bids.contains_key(b) && b0.asks.contains_key(a));
            }
        }
        Ok(())
    }

    /// Replaces the risk limits.
    pub fn set_risk_gate(&mut self, risk: RiskGate)
        requires
            old(self).wf(),
        ensures
            final(self).wf(),
            final(self).risk_gate() == risk,
            final(self).book_state() == old(self).book_state(),
            final(self).trade_log() == old(self).trade_log(),
            final(self).next_order_id() == old(self).next_order_id(),
    {
        self.risk = risk;
    }

    /// The aggregated quantity at each price of the book.
    pub fn depth_snapshot(&self) -> (d: DepthSnapshot)
        ensures
            lists_levels(self.book_state().bids@, d.bids@, Side::Buy),
            lists_levels(self.book_state().asks@, d.asks@, Side::Sell),
    {
        DepthSnapshot::from_book(&self.book)
    }

    /// Hands over the trades produced so far, leaving none.
    pub fn drain_trades(&mut self) -> (r: Vec<Trade>)
        requires
            old(self).wf(),
        ensures
            final(self).wf(),
            r@ == old(self).trade_log(),
            final(self).trade_log() == Seq::<Trade>::empty(),
            final(self).book_state() == old(self).book_state(),
            final(self).next_order_id() == old(self).next_order_id(),
            final(self).risk_gate() == old(self).risk_gate(),
    {
        let mut drained: Vec<Trade> = Vec::new();
        std::mem::swap(&mut drained, &mut self.trades);
        drained
    }

    fn check_risk(&self, price: Option<u64>, qty: u64) -> (r: Result<(), RiskRejection>)
        requires
            self.book.mid_fits(),
        ensures
            r == risk_verdict(self.risk, price, qty, self.book.mid_price_spec()),
    {
        match self.risk.max_order_qty {
            Some(max_qty) => {
                if qty > max_qty {
                    return Err(RiskRejection::QtyExceedsLimit);
                }
            },
            None => {},
        }
        match (price, self.risk.max_notional) {
            (Some(p), Some(max_notional)) => {
                let notional = match p.checked_mul(qty) {
                    Some(n) => n,
                    None => u64::MAX,
                };
                if notional > max_notional {
                    return Err(RiskRejection::NotionalExceedsLimit);
                }
            },
            _ => {},
        }
        match (price, self.risk.max_price_deviation, self.mid_price()) {
            (Some(p), Some(max_dev), Some(mid)) => {
                let deviation = if p >= mid {
                    p - mid
                } else {
                    mid - p
                };
                if deviation > max_dev {
                    return Err(RiskRejection::PriceTooFarFromMid);
                }
            },
            _ => {},
        }
        Ok(())
    }

    fn mid_price(&self) -> (r: Option<u64>)
        requires
            self.book.mid_fits(),
        ensures
            r == self.book.mid_price_spec(),
    {
        match (self.book.best_bid_price(), self.book.best_ask_price()) {
            (Some(bid), Some(ask)) => Some((bid + ask) / 2),
            _ => None,
        }
    }
}

} // verus!
