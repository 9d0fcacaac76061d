use vstd::prelude::*;

use crate::order::Order;
use std::collections::VecDeque;

verus! {

/// The summed remaining quantity of a sequence of orders.
pub open spec fn sum_qty(q: Seq<Order>) -> int
    decreases q.len(),
{
    if q.len() == 0 {
        0
    } else {
        q[0].qty + sum_qty(q.drop_first())
    }
}

pub proof fn lemma_sum_nonneg(q: Seq<Order>)
    ensures
        sum_qty(q) >= 0,
    decreases q.len(),
{
    if q.len() > 0 {
        lemma_sum_nonneg(q.drop_first());
    }
}

pub proof fn lemma_sum_push(q: Seq<Order>, o: Order)
    ensures
        sum_qty(q.push(o)) == sum_qty(q) + o.qty,
    decreases q.len(),
{
    if q.len() > 0 {
        assert(q.push(o).drop_first() =~= q.drop_first().push(o));
        lemma_sum_push(q.drop_first(), o);
    } else {
        assert(q.push(o).drop_first() =~= Seq::<Order>::empty());
        assert(q.push(o)[0] == o);
        assert(sum_qty(q.push(o).drop_first()) == 0);
    }
}

pub proof fn lemma_sum_update(q: Seq<Order>, i: int, o: Order)
    requires
        0 <= i < q.len(),
    ensures
        sum_qty(q.update(i, o)) == sum_qty(q) - q[i].qty + o.qty,
    decreases q.len(),
{
    if i > 0 {
        assert(q.update(i, o).drop_first() =~= q.drop_first().update(i - 1, o));
        lemma_sum_update(q.drop_first(), i - 1, o);
    } else {
        assert(q.update(i, o).drop_first() =~= q.drop_first());
    }
}

pub proof fn lemma_sum_remove(q: Seq<Order>, i: int)
    requires
        0 <= i < q.len(),
    ensures
        sum_qty(q.remove(i)) == sum_qty(q) - q[i].qty,
    decreases q.len(),
{
    if i > 0 {
        assert(q.remove(i).drop_first() =~= q.drop_first().remove(i - 1));
        lemma_sum_remove(q.drop_first(), i - 1);
    } else {
        assert(q.remove(i) =~= q.drop_first());
    }
}

/// All resting orders at one price, oldest first, with their summed quantity.
#[derive(Debug)]
pub struct PriceLevel {
    pub orders: VecDeque<Order>,
    pub total_qty: u64,
}

impl PriceLevel {
    /// The level's running total agrees with its orders.
    pub open spec fn total_ok(&self) -> bool {
        self.total_qty == sum_qty(self.orders@)
    }

    pub fn new() -> (l: PriceLevel)
        ensures
            l.orders@ == Seq::<Order>::empty(),
            l.total_qty == 0,
            l.total_ok(),
    {
        PriceLevel { orders: VecDeque::new(), total_qty: 0 }
    }

    /// Appends an order at the back of the queue (it is the youngest).
    pub fn add_order(&mut self, order: Order)
        requires
            old(self).total_qty + order.qty <= u64::MAX,
        ensures
            final(self).orders@ == old(self).orders@.push(order),
            final(self).total_qty == old(self).total_qty + order.qty,
            old(self).total_ok() ==> final(self).total_ok(),
    {
        proof {
            lemma_sum_push(self.orders@, order);
        }
        self.total_qty = self.total_qty + order.qty;
        self.orders.push_back(order);
    }

    /// Lowers the running total by `qty`.
    pub fn reduce_qty(&mut self, qty: u64)
        requires
            qty <= old(self).total_qty,
        ensures
            final(self).orders@ == old(self).orders@,
            final(self).total_qty == old(self).total_qty - qty,
    {
        self.total_qty = self.total_qty - qty;
    }
}

} // verus!
