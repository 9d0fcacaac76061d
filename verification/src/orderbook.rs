use vstd::prelude::*;

use crate::book_model::{
    distinct_ids, fill_front, has_id, lemma_fill_front, lemma_rest, position_of, queue_at,
    replace_queue, BookModel,
};
use crate::order::Order;
use crate::price_level::{lemma_sum_nonneg, lemma_sum_remove, lemma_sum_update, PriceLevel};
use crate::side::Side;
use std::collections::{BTreeMap, HashMap, VecDeque};

verus! {

/// The queues of one side of a book, by price.
pub open spec fn levels_of(m: Map<u64, PriceLevel>) -> Map<u64, Seq<Order>> {
    Map::new(|p: u64| m.contains_key(p), |p: u64| m[p].orders@)
}

/// Every level of one side keeps a running total equal to its orders' sum.
pub open spec fn totals_ok(m: Map<u64, PriceLevel>) -> bool {
    forall|p: u64| #[trigger] m.contains_key(p) ==> m[p].total_ok()
}

/// The running total at `price` in one side of a book, 0 where there is no level.
pub open spec fn total_at(m: Map<u64, PriceLevel>, price: u64) -> int {
    if m.contains_key(price) {
        m[price].total_qty as int
    } else {
        0
    }
}

/// Whether `p` is the best price among the keys of `m` for resting orders of
/// side `resting`: the highest bid, or the lowest ask.
pub open spec fn is_best<V>(m: Map<u64, V>, resting: Side, p: u64) -> bool {
    &&& m.contains_key(p)
    &&& forall|k: u64|
        #![trigger m.contains_key(k)]
        m.contains_key(k) ==> match resting {
            Side::Buy => k <= p,
            Side::Sell => p <= k,
        }
}

/// The best price of one side of a book, if it has any level.
pub open spec fn best_price<V>(m: Map<u64, V>, resting: Side) -> Option<u64> {
    if exists|p: u64| is_best(m, resting, p) {
        Some(choose|p: u64| is_best(m, resting, p))
    } else {
        None
    }
}

pub proof fn lemma_best_price_is(m: Map<u64, Seq<Order>>, resting: Side, p: u64)
    requires
        is_best(m, resting, p),
    ensures
        best_price(m, resting) == Some(p),
{
    let c = choose|c: u64| is_best(m, resting, c);
    assert(is_best(m, resting, c));
    assert(m.contains_key(c) && m.contains_key(p));
}

/// `BTreeMap::first_key_value`: the first entry in key order, whose key is
/// the smallest of the map; `None` for an empty map. The claim is that the
/// key handed back is a key of the map and no key is smaller.
#[verifier::external_body]
fn lowest_key<V>(m: &BTreeMap<u64, V>) -> (r: Option<u64>)
    ensures
        match r {
            Some(k) => m@.contains_key(k) && forall|j: u64| #[trigger] m@.contains_key(j) ==> k <= j,
            None => forall|j: u64| !m@.contains_key(j),
        },
{
    m.first_key_value().map(|(k, _)| *k)
}

/// `BTreeMap::last_key_value`: the last entry in key order, whose key is
/// the largest of the map; `None` for an empty map. The claim is that the
/// key handed back is a key of the map and no key is larger.
#[verifier::external_body]
fn highest_key<V>(m: &BTreeMap<u64, V>) -> (r: Option<u64>)
    ensures
        match r {
            Some(k) => m@.contains_key(k) && forall|j: u64| #[trigger] m@.contains_key(j) ==> j <= k,
            None => forall|j: u64| !m@.contains_key(j),
        },
{
    m.last_key_value().map(|(k, _)| *k)
}

/// Appends `order` to the back of its level in one side of a book,
/// opening the level if there is none.
fn rest_in(levels: &mut BTreeMap<u64, PriceLevel>, order: Order)
    requires
        total_at(old(levels)@, order.price) + order.qty <= u64::MAX,
    ensures
        levels_of(final(levels)@) == replace_queue(
            levels_of(old(levels)@),
            order.price,
            queue_at(levels_of(old(levels)@), order.price).push(order),
        ),
        totals_ok(old(levels)@) ==> totals_ok(final(levels)@),
{
    let price = order.price;
    let removed = levels.remove(&price);
    let mut level = match removed {
        Some(l) => l,
        None => PriceLevel::new(),
    };
    proof {
        if totals_ok(old(levels)@) && old(levels)@.contains_key(price) {
            assert(old(levels)@[price].total_ok());
        }
    }
    level.add_order(order);
    levels.insert(price, level);
    proof {
        let lhs = levels_of(levels@);
        let rhs = replace_queue(
            levels_of(old(levels)@),
            price,
            queue_at(levels_of(old(levels)@), price).push(order),
        );
        assert(lhs =~= rhs);
    }
}

/// Fills the front order of the level at `price` by as much as `want`
/// allows; hands back that order as it was and the quantity filled.
fn fill_in(levels: &mut BTreeMap<u64, PriceLevel>, price: u64, want: u64) -> (r: (Order, u64))
    requires
        old(levels)@.contains_key(price),
        old(levels)@[price].orders@.len() > 0,
        old(levels)@[price].orders@[0].qty > 0,
        old(levels)@[price].total_ok(),
        want > 0,
    ensures
        ({
            let q = old(levels)@[price].orders@;
            &&& r.0 == q[0]
            &&& r.1 == (if want <= q[0].qty {
                want
            } else {
                q[0].qty
            })
            &&& levels_of(final(levels)@) == replace_queue(
                levels_of(old(levels)@),
                price,
                fill_front(q, r.1),
            )
            &&& totals_ok(old(levels)@) ==> totals_ok(final(levels)@)
        }),
{
    let ghost q = old(levels)@[price].orders@;
    let mut level = levels.remove(&price).unwrap();
    let mut front = level.orders.pop_front().unwrap();
    let maker = front;
    let f = if want <= front.qty {
        want
    } else {
        front.qty
    };
    proof {
        lemma_sum_nonneg(q.drop_first());
        assert(level.orders@ == q.drop_first());
    }
    front.qty = front.qty - f;
    level.reduce_qty(f);
    if front.qty > 0 {
        level.orders.push_front(front);
        proof {
            assert(level.orders@ =~= q.update(0, maker.with_qty(front.qty)));
            lemma_sum_update(q, 0, maker.with_qty(front.qty));
        }
    }
    proof {
        assert(level.orders@ == fill_front(q, f));
        assert(level.total_ok());
    }
    if level.orders.len() > 0 {
        levels.insert(price, level);
    }
    proof {
        let rhs = replace_queue(levels_of(old(levels)@), price, fill_front(q, f));
        assert(levels_of(levels@) =~= rhs);
    }
    (maker, f)
}

/// The position of the order with the given id in a queue.
pub(crate) fn position_in(q: &VecDeque<Order>, id: u64) -> (pos: usize)
    requires
        has_id(q@, id),
        distinct_ids(q@),
    ensures
        pos < q@.len(),
        pos == position_of(q@, id),
        q@[pos as int].id == id,
{
    let mut i: usize = 0;
    while i < q.len()
        invariant
            i <= q@.len(),
            forall|j: int| 0 <= j < i ==> #[trigger] q@[j].id != id,
            has_id(q@, id),
            distinct_ids(q@),
        decreases q@.len() - i,
    {
        if q[i].id == id {
            proof {
                let c = choose|c: int| 0 <= c < q@.len() && #[trigger] q@[c].id == id;
                assert(q@[c].id == q@[i as int].id);
            }
            return i;
        }
        i = i + 1;
    }
    proof {
        let c = choose|c: int| 0 <= c < q@.len() && #[trigger] q@[c].id == id;
        assert(q@[c].id != id);
    }
    i
}

/// Takes the order with the given id out of its level at `price`, closing
/// the level if it empties.
pub(crate) fn take_in(levels: &mut BTreeMap<u64, PriceLevel>, price: u64, id: u64) -> (o: Order)
    requires
        old(levels)@.contains_key(price),
        has_id(old(levels)@[price].orders@, id),
        distinct_ids(old(levels)@[price].orders@),
        old(levels)@[price].total_ok(),
    ensures
        ({
            let q = old(levels)@[price].orders@;
            let i = position_of(q, id);
            &&& 0 <= i < q.len()
            &&& o == q[i]
            &&& levels_of(final(levels)@) == replace_queue(
                levels_of(old(levels)@),
                price,
                q.remove(i),
            )
            &&& totals_ok(old(levels)@) ==> totals_ok(final(levels)@)
        }),
{
    let ghost q = old(levels)@[price].orders@;
    let mut level = levels.remove(&price).unwrap();
    let pos = position_in(&level.orders, id);
    let o = level.orders.remove(pos).unwrap();
    proof {
        lemma_sum_remove(q, pos as int);
        lemma_sum_nonneg(q.remove(pos as int));
    }
    level.reduce_qty(o.qty);
    if level.orders.len() > 0 {
        levels.insert(price, level);
    }
    proof {
        let rhs = replace_queue(levels_of(old(levels)@), price, q.remove(pos as int));
        assert(levels_of(levels@) =~= rhs);
    }
    o
}

/// Lowers the quantity of the order at `pos` of the level at `price` to `n`,
/// leaving its place in the queue.
pub(crate) fn lower_qty_in(levels: &mut BTreeMap<u64, PriceLevel>, price: u64, pos: usize, n: u64)
    requires
        old(levels)@.contains_key(price),
        pos < old(levels)@[price].orders@.len(),
        n <= old(levels)@[price].orders@[pos as int].qty,
        old(levels)@[price].total_ok(),
    ensures
        ({
            let q = old(levels)@[price].orders@;
            &&& levels_of(final(levels)@) == levels_of(old(levels)@).insert(
                price,
                q.update(pos as int, q[pos as int].with_qty(n)),
            )
            &&& totals_ok(old(levels)@) ==> totals_ok(final(levels)@)
        }),
{
    let ghost q = old(levels)@[price].orders@;
    let mut level = levels.remove(&price).unwrap();
    let o = level.orders.remove(pos).unwrap();
    let delta = o.qty - n;
    let lowered = Order { qty: n, ..o };
    level.orders.insert(pos, lowered);
    proof {
        assert(level.orders@ =~= q.update(pos as int, q[pos as int].with_qty(n)));
        lemma_sum_update(q, pos as int, q[pos as int].with_qty(n));
        lemma_sum_remove(q, pos as int);
        lemma_sum_nonneg(q.remove(pos as int));
    }
    level.reduce_qty(delta);
    levels.insert(price, level);
    proof {
        let rhs = levels_of(old(levels)@).insert(price, q.update(pos as int, q[pos as int].with_qty(n)));
        assert(levels_of(levels@) =~= rhs);
    }
}

/// Both sides of the book, and an index from each resting order's id to its
/// price and side.
#[derive(Debug)]
pub struct Orderbook {
    pub bids: BTreeMap<u64, PriceLevel>,
    pub asks: BTreeMap<u64, PriceLevel>,
    pub index: HashMap<u64, (u64, Side)>,
}

impl View for Orderbook {
    type V = BookModel;

    open spec fn view(&self) -> BookModel {
        BookModel { bids: levels_of(self.bids@), asks: levels_of(self.asks@) }
    }
}

impl Orderbook {
    /// The book's internal consistency: well-formed non-empty levels whose
    /// totals agree with their orders, and an index of exactly the resting
    /// orders.
    pub open spec fn wf(&self) -> bool {
        &&& self@.levels_ok()
        &&& self@.indexed_by(self.index@)
        &&& totals_ok(self.bids@)
        &&& totals_ok(self.asks@)
    }

    /// The levels of one side.
    pub open spec fn side_levels(&self, s: Side) -> Map<u64, PriceLevel> {
        match s {
            Side::Buy => self.bids@,
            Side::Sell => self.asks@,
        }
    }

    /// The running total at `price` on side `s`, 0 where there is no level.
    pub open spec fn level_total(&self, s: Side, price: u64) -> int {
        total_at(self.side_levels(s), price)
    }

    /// The mid price, rounded down, when both sides have a level.
    pub open spec fn mid_price_spec(&self) -> Option<u64> {
        match (best_price(self@.bids, Side::Buy), best_price(self@.asks, Side::Sell)) {
            (Some(b), Some(a)) => Some(((b + a) / 2) as u64),
            _ => None,
        }
    }

    /// The best bid and the best ask, where both exist, add up within `u64`.
    pub open spec fn mid_fits(&self) -> bool {
        match (best_price(self@.bids, Side::Buy), best_price(self@.asks, Side::Sell)) {
            (Some(b), Some(a)) => b + a <= u64::MAX,
            _ => true,
        }
    }

    pub fn new() -> (b: Orderbook)
        ensures
            b.wf(),
            b.bids@ == Map::<u64, PriceLevel>::empty(),
            b.asks@ == Map::<u64, PriceLevel>::empty(),
            b@.bids == Map::<u64, Seq<Order>>::empty(),
            b@.asks == Map::<u64, Seq<Order>>::empty(),
            b.index@ == Map::<u64, (u64, Side)>::empty(),
    {
        let b = Orderbook { bids: BTreeMap::new(), asks: BTreeMap::new(), index: HashMap::new() };
        proof {
            assert(b@.bids =~= Map::<u64, Seq<Order>>::empty());
            assert(b@.asks =~= Map::<u64, Seq<Order>>::empty());
        }
        b
    }

    /// The highest bid price, if there is a bid.
    pub fn best_bid_price(&self) -> (r: Option<u64>)
        ensures
            r == best_price(self@.bids, Side::Buy),
            r is None <==> self@.bids.dom() == Set::<u64>::empty(),
    {
        let r = highest_key(&self.bids);
        proof {
            match r {
                Some(k) => {
                    assert(is_best(self@.bids, Side::Buy, k));
                    lemma_best_price_is(self@.bids, Side::Buy, k);
                    assert(self@.bids.dom().contains(k));
                },
                None => {
                    assert(self@.bids.dom() =~= Set::<u64>::empty());
                },
            }
        }
        r
    }

    /// The lowest ask price, if there is an ask.
    pub fn best_ask_price(&self) -> (r: Option<u64>)
        ensures
            r == best_price(self@.asks, Side::Sell),
            r is None <==> self@.asks.dom() == Set::<u64>::empty(),
    {
        let r = lowest_key(&self.asks);
        proof {
            match r {
                Some(k) => {
                    assert(is_best(self@.asks, Side::Sell, k));
                    lemma_best_price_is(self@.asks, Side::Sell, k);
                    assert(self@.asks.dom().contains(k));
                },
                None => {
                    assert(self@.asks.dom() =~= Set::<u64>::empty());
                },
            }
        }
        r
    }

    /// The best price of side `resting`: highest bid or lowest ask.
    pub fn best_price_of(&self, resting: Side) -> (r: Option<u64>)
        ensures
            r == best_price(self@.side(resting), resting),
            r is None <==> self@.side(resting).dom() == Set::<u64>::empty(),
    {
        match resting {
            Side::Buy => self.best_bid_price(),
            Side::Sell => self.best_ask_price(),
        }
    }

    /// Rests `order` at the back of the queue at its price and side, and
    /// records it in the index.
    pub fn insert_order(&mut self, order: Order)
        requires
            old(self).level_total(order.side, order.price) + order.qty <= u64::MAX,
        ensures
            final(self)@ == old(self)@.with_queue(
                order.side,
                order.price,
                old(self)@.queue(order.side, order.price).push(order),
            ),
            final(self).index@ == old(self).index@.insert(order.id, (order.price, order.side)),
            old(self).wf() && order.qty > 0 && !old(self).index@.contains_key(order.id)
                ==> final(self).wf(),
    {
        match order.side {
            Side::Buy => rest_in(&mut self.bids, order),
            Side::Sell => rest_in(&mut self.asks, order),
        }
        self.index.insert(order.id, (order.price, order.side));
        proof {
            let expect = old(self)@.with_queue(
                order.side,
                order.price,
                old(self)@.queue(order.side, order.price).push(order),
            );
            assert(self@.bids =~= expect.bids);
            assert(self@.asks =~= expect.asks);
            if old(self).wf() && order.qty > 0 && !old(self).index@.contains_key(order.id) {
                lemma_rest(old(self)@, old(self).index@, order);
            }
        }
    }

    /// Fills the front order of the level at `price` on side `resting` by as
    /// much as `want` allows; hands back that order as it was and the
    /// quantity filled. A used-up order leaves the book and the index.
    pub fn fill_front_order(&mut self, resting: Side, price: u64, want: u64) -> (r: (Order, u64))
        requires
            old(self).wf(),
            old(self)@.side(resting).contains_key(price),
            want > 0,
        ensures
            final(self).wf(),
            final(self).side_levels(resting.spec_opposite()) == old(self).side_levels(
                resting.spec_opposite(),
            ),
            ({
                let q = old(self)@.side(resting)[price];
                &&& r.0 == q[0]
                &&& r.1 == (if want <= q[0].qty {
                    want
                } else {
                    q[0].qty
                })
                &&& final(self)@ == old(self)@.with_queue(resting, price, fill_front(q, r.1))
                &&& final(self).index@ == (if q[0].qty == r.1 {
                    old(self).index@.remove(q[0].id)
                } else {
                    old(self).index@
                })
            }),
    {
        let ghost q = old(self)@.side(resting)[price];
        proof {
            assert(q.len() > 0);
            assert(q[0].qty > 0);
        }
        let r = match resting {
            Side::Buy => fill_in(&mut self.bids, price, want),
            Side::Sell => fill_in(&mut self.asks, price, want),
        };
        let (maker, f) = r;
        if maker.qty == f {
            self.index.remove(&maker.id);
        }
        proof {
            let expect = old(self)@.with_queue(resting, price, fill_front(q, f));
            assert(self@.bids =~= expect.bids);
            assert(self@.asks =~= expect.asks);
            lemma_fill_front(old(self)@, old(self).index@, resting, price, f);
        }
        r
    }
}

} // verus!
