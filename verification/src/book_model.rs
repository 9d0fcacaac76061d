//! The mathematical picture of an order book: for each side, a map from
//! price to the queue of orders resting there, oldest first.
use vstd::prelude::*;

use crate::order::Order;
use crate::side::Side;

verus! {

/// An order that may rest at `price` on `side`: right price, side and a
/// positive remaining quantity.
pub open spec fn rests_at(o: Order, price: u64, side: Side) -> bool {
    o.price == price && o.side == side && o.qty > 0
}

/// Whether a queue holds an order with the given id.
pub open spec fn has_id(q: Seq<Order>, id: u64) -> bool {
    exists|i: int| 0 <= i < q.len() && #[trigger] q[i].id == id
}

/// The position of the order with the given id in a queue.
pub open spec fn position_of(q: Seq<Order>, id: u64) -> int {
    choose|i: int| 0 <= i < q.len() && #[trigger] q[i].id == id
}

/// No two orders of a queue share an id.
pub open spec fn distinct_ids(q: Seq<Order>) -> bool {
    forall|i: int, j: int| 0 <= i < q.len() && 0 <= j < q.len() && i != j ==> #[trigger] q[i].id
        != #[trigger] q[j].id
}

/// A well-formed queue for the level at `price` on `side` (possibly empty).
pub open spec fn queue_ok(q: Seq<Order>, price: u64, side: Side) -> bool {
    &&& forall|i: int| 0 <= i < q.len() ==> rests_at(#[trigger] q[i], price, side)
    &&& distinct_ids(q)
}

/// The queue after the front order is filled by `f`: the front order
/// leaves once nothing of it remains.
pub open spec fn fill_front(q: Seq<Order>, f: u64) -> Seq<Order> {
    if q[0].qty <= f {
        q.drop_first()
    } else {
        q.update(0, q[0].with_qty((q[0].qty - f) as u64))
    }
}

/// The queue at `price` in one side of a book; empty where there is no level.
pub open spec fn queue_at(m: Map<u64, Seq<Order>>, price: u64) -> Seq<Order> {
    if m.contains_key(price) {
        m[price]
    } else {
        Seq::empty()
    }
}

/// One side of a book with the queue at `price` replaced; an empty queue
/// removes the level.
pub open spec fn replace_queue(m: Map<u64, Seq<Order>>, price: u64, q: Seq<Order>) -> Map<
    u64,
    Seq<Order>,
> {
    if q.len() == 0 {
        m.remove(price)
    } else {
        m.insert(price, q)
    }
}

/// Both sides of a book as maps from price to queue.
pub struct BookModel {
    pub bids: Map<u64, Seq<Order>>,
    pub asks: Map<u64, Seq<Order>>,
}

impl BookModel {
    pub open spec fn side(self, s: Side) -> Map<u64, Seq<Order>> {
        match s {
            Side::Buy => self.bids,
            Side::Sell => self.asks,
        }
    }

    pub open spec fn with_side(self, s: Side, m: Map<u64, Seq<Order>>) -> BookModel {
        match s {
            Side::Buy => BookModel { bids: m, ..self },
            Side::Sell => BookModel { asks: m, ..self },
        }
    }

    /// The queue at `price` on side `s`; empty where there is no level.
    pub open spec fn queue(self, s: Side, price: u64) -> Seq<Order> {
        queue_at(self.side(s), price)
    }

    /// The book with the queue at (`s`, `price`) replaced; an empty queue
    /// removes the level.
    pub open spec fn with_queue(self, s: Side, price: u64, q: Seq<Order>) -> BookModel {
        self.with_side(s, replace_queue(self.side(s), price, q))
    }

    /// Every level is a non-empty well-formed queue.
    pub open spec fn levels_ok(self) -> bool {
        forall|s: Side, p: u64| #[trigger]
            self.side(s).contains_key(p) ==> self.side(s)[p].len() > 0 && queue_ok(
                self.side(s)[p],
                p,
                s,
            )
    }

    /// `index` maps exactly the ids of the resting orders to their price and side.
    pub open spec fn indexed_by(self, index: Map<u64, (u64, Side)>) -> bool {
        &&& forall|s: Side, p: u64, i: int|
            self.side(s).contains_key(p) && 0 <= i < self.side(s)[p].len() ==> {
                let o = #[trigger] self.side(s)[p][i];
                index.contains_key(o.id) && index[o.id] == (p, s)
            }
        &&& forall|id: u64| #[trigger]
            index.contains_key(id) ==> {
                let (p, s) = index[id];
                self.side(s).contains_key(p) && has_id(self.side(s)[p], id)
            }
    }

    /// No bid is at or above any ask.
    pub open spec fn uncrossed(self) -> bool {
        forall|b: u64, a: u64| #[trigger]
            self.bids.contains_key(b) && #[trigger] self.asks.contains_key(a) ==> b < a
    }
}

/// Replacing one queue keeps the book well formed, provided the new queue
/// is well formed, its new ids are fresh, and the index follows the change.
pub proof fn lemma_replace_queue(
    b: BookModel,
    index: Map<u64, (u64, Side)>,
    s: Side,
    p: u64,
    q2: Seq<Order>,
    index2: Map<u64, (u64, Side)>,
)
    requires
        b.levels_ok(),
        b.indexed_by(index),
        queue_ok(q2, p, s),
        forall|id: u64| #[trigger]
            has_id(q2, id) && !has_id(b.queue(s, p), id) ==> !index.contains_key(id),
        forall|id: u64| #[trigger]
            index2.contains_key(id) <==> (index.contains_key(id) && !has_id(b.queue(s, p), id))
                || has_id(q2, id),
        forall|id: u64| #[trigger] has_id(q2, id) ==> index2[id] == (p, s),
        forall|id: u64|
            #![trigger index2[id]]
            index.contains_key(id) && !has_id(b.queue(s, p), id) && !has_id(q2, id) ==> index2[id]
                == index[id],
    ensures
        b.with_queue(s, p, q2).levels_ok(),
        b.with_queue(s, p, q2).indexed_by(index2),
{
    let q = b.queue(s, p);
    let b2 = b.with_queue(s, p, q2);
    assert forall|s1: Side, p1: u64| #[trigger] b2.side(s1).contains_key(p1) implies b2.side(
        s1,
    )[p1].len() > 0 && queue_ok(b2.side(s1)[p1], p1, s1) by {
        if s1 == s && p1 == p {
            assert(b2.side(s1)[p1] == q2);
        } else {
            assert(b.side(s1).contains_key(p1));
            assert(b2.side(s1)[p1] == b.side(s1)[p1]);
        }
    }
    assert forall|s1: Side, p1: u64, i: int|
        b2.side(s1).contains_key(p1) && 0 <= i < b2.side(s1)[p1].len() implies {
        let o = #[trigger] b2.side(s1)[p1][i];
        index2.contains_key(o.id) && index2[o.id] == (p1, s1)
    } by {
        let o = b2.side(s1)[p1][i];
        if s1 == s && p1 == p {
            assert(b2.side(s1)[p1] == q2);
            assert(has_id(q2, o.id));
        } else {
            assert(b.side(s1).contains_key(p1));
            assert(b2.side(s1)[p1] == b.side(s1)[p1]);
            assert(o == b.side(s1)[p1][i]);
            assert(index.contains_key(o.id) && index[o.id] == (p1, s1));
            if has_id(q, o.id) {
                let j = choose|j: int| 0 <= j < q.len() && #[trigger] q[j].id == o.id;
                assert(b.side(s).contains_key(p));
                assert(b.side(s)[p][j] == q[j]);
                assert(index[o.id] == (p, s));
                assert(false);
            }
            if has_id(q2, o.id) {
                assert(!index.contains_key(o.id));
                assert(false);
            }
        }
    }
    assert forall|id: u64| #[trigger] index2.contains_key(id) implies {
        let (p1, s1) = index2[id];
        b2.side(s1).contains_key(p1) && has_id(b2.side(s1)[p1], id)
    } by {
        if has_id(q2, id) {
            assert(index2[id] == (p, s));
            assert(q2.len() > 0);
            assert(b2.side(s)[p] == q2);
        } else {
            assert(index.contains_key(id) && !has_id(q, id));
            assert(index2[id] == index[id]);
            let (p1, s1) = index[id];
            assert(b.side(s1).contains_key(p1) && has_id(b.side(s1)[p1], id));
            if s1 == s && p1 == p {
                assert(b.side(s)[p] == q);
                assert(false);
            }
            assert(b2.side(s1)[p1] == b.side(s1)[p1]);
        }
    }
}


/// Filling the front order of a level by `f` keeps the book well formed;
/// a front order that is used up leaves the index.
pub proof fn lemma_fill_front(b: BookModel, index: Map<u64, (u64, Side)>, s: Side, p: u64, f: u64)
    requires
        b.levels_ok(),
        b.indexed_by(index),
        b.side(s).contains_key(p),
        0 < f <= b.side(s)[p][0].qty,
    ensures
        ({
            let q = b.side(s)[p];
            let index2 = if q[0].qty == f {
                index.remove(q[0].id)
            } else {
                index
            };
            &&& b.with_queue(s, p, fill_front(q, f)).levels_ok()
            &&& b.with_queue(s, p, fill_front(q, f)).indexed_by(index2)
        }),
{
    let q = b.side(s)[p];
    assert(q.len() > 0 && queue_ok(q, p, s));
    let q2 = fill_front(q, f);
    let front = q[0];
    let index2 = if front.qty == f {
        index.remove(front.id)
    } else {
        index
    };
    assert(b.queue(s, p) == q);
    if front.qty == f {
        assert(q2 == q.drop_first());
        assert forall|id: u64| has_id(q2, id) <==> has_id(q, id) && id != front.id by {
            if has_id(q2, id) {
                let j = choose|j: int| 0 <= j < q2.len() && #[trigger] q2[j].id == id;
                assert(q[j + 1].id == id);
                assert(q[j + 1].id != q[0].id);
            }
            if has_id(q, id) && id != front.id {
                let j = choose|j: int| 0 <= j < q.len() && #[trigger] q[j].id == id;
                assert(j != 0);
                assert(q2[j - 1].id == id);
            }
        }
        assert forall|i: int| 0 <= i < q2.len() implies rests_at(#[trigger] q2[i], p, s) by {
            assert(q2[i] == q[i + 1]);
        }
        assert forall|i: int, j: int|
            0 <= i < q2.len() && 0 <= j < q2.len() && i != j implies #[trigger] q2[i].id
            != #[trigger] q2[j].id by {
            assert(q2[i] == q[i + 1] && q2[j] == q[j + 1]);
        }
    } else {
        let nf = front.with_qty((front.qty - f) as u64);
        assert(q2 == q.update(0, nf));
        assert forall|id: u64| has_id(q2, id) <==> has_id(q, id) by {
            if has_id(q2, id) {
                let j = choose|j: int| 0 <= j < q2.len() && #[trigger] q2[j].id == id;
                assert(q[j].id == id);
            }
            if has_id(q, id) {
                let j = choose|j: int| 0 <= j < q.len() && #[trigger] q[j].id == id;
                assert(q2[j].id == id);
            }
        }
        assert forall|i: int| 0 <= i < q2.len() implies rests_at(#[trigger] q2[i], p, s) by {
            if i != 0 {
                assert(q2[i] == q[i]);
            }
        }
        assert forall|i: int, j: int|
            0 <= i < q2.len() && 0 <= j < q2.len() && i != j implies #[trigger] q2[i].id
            != #[trigger] q2[j].id by {
            assert(q2[i].id == q[i].id && q2[j].id == q[j].id);
        }
    }
    assert(has_id(q, front.id));
    lemma_replace_queue(b, index, s, p, q2, index2);
}

/// Appending a fresh order at the back of its level keeps the book well
/// formed, with the order added to the index.
pub proof fn lemma_rest(b: BookModel, index: Map<u64, (u64, Side)>, o: Order)
    requires
        b.levels_ok(),
        b.indexed_by(index),
        o.qty > 0,
        !index.contains_key(o.id),
    ensures
        b.with_queue(o.side, o.price, b.queue(o.side, o.price).push(o)).levels_ok(),
        b.with_queue(o.side, o.price, b.queue(o.side, o.price).push(o)).indexed_by(
            index.insert(o.id, (o.price, o.side)),
        ),
{
    let s = o.side;
    let p = o.price;
    let q = b.queue(s, p);
    let q2 = q.push(o);
    let index2 = index.insert(o.id, (o.price, o.side));
    if b.side(s).contains_key(p) {
        assert(queue_ok(q, p, s));
    }
    assert forall|i: int| 0 <= i < q.len() implies #[trigger] q[i].id != o.id by {
        assert(b.side(s).contains_key(p));
        assert(b.side(s)[p][i] == q[i]);
    }
    assert forall|id: u64| has_id(q2, id) <==> has_id(q, id) || id == o.id by {
        if has_id(q2, id) {
            let j = choose|j: int| 0 <= j < q2.len() && #[trigger] q2[j].id == id;
            if j < q.len() {
                assert(q[j].id == id);
            }
        }
        if has_id(q, id) {
            let j = choose|j: int| 0 <= j < q.len() && #[trigger] q[j].id == id;
            assert(q2[j].id == id);
        }
        if id == o.id {
            assert(q2[q.len() as int].id == id);
        }
    }
    assert forall|i: int| 0 <= i < q2.len() implies rests_at(#[trigger] q2[i], p, s) by {
        if i < q.len() {
            assert(q2[i] == q[i]);
            assert(b.side(s).contains_key(p));
            assert(b.side(s)[p][i] == q[i]);
        }
    }
    assert forall|i: int, j: int|
        0 <= i < q2.len() && 0 <= j < q2.len() && i != j implies #[trigger] q2[i].id
        != #[trigger] q2[j].id by {
        if i < q.len() && j < q.len() {
            assert(b.side(s).contains_key(p));
            assert(b.side(s)[p][i] == q[i]);
            assert(b.side(s)[p][j] == q[j]);
        } else if i < q.len() {
            assert(q2[i].id == q[i].id);
        } else if j < q.len() {
            assert(q2[j].id == q[j].id);
        }
    }
    assert forall|id: u64| #[trigger]
        has_id(q2, id) && !has_id(q, id) implies !index.contains_key(id) by {
        assert(id == o.id);
    }
    lemma_replace_queue(b, index, s, p, q2, index2);
}

/// Taking out the order at position `i` of a level keeps the book well
/// formed, with its id removed from the index.
pub proof fn lemma_remove_at(b: BookModel, index: Map<u64, (u64, Side)>, s: Side, p: u64, i: int)
    requires
        b.levels_ok(),
        b.indexed_by(index),
        b.side(s).contains_key(p),
        0 <= i < b.side(s)[p].len(),
    ensures
        b.with_queue(s, p, b.side(s)[p].remove(i)).levels_ok(),
        b.with_queue(s, p, b.side(s)[p].remove(i)).indexed_by(index.remove(b.side(s)[p][i].id)),
{
    let q = b.side(s)[p];
    let q2 = q.remove(i);
    let gone = q[i];
    assert(queue_ok(q, p, s));
    assert(b.queue(s, p) == q);
    assert forall|k: int| 0 <= k < q2.len() implies #[trigger] q2[k] == (if k < i {
        q[k]
    } else {
        q[k + 1]
    }) by {}
    assert forall|id: u64| has_id(q2, id) <==> has_id(q, id) && id != gone.id by {
        if has_id(q2, id) {
            let j = choose|j: int| 0 <= j < q2.len() && #[trigger] q2[j].id == id;
            if j < i {
                assert(q[j].id == id);
                assert(q[j].id != q[i].id);
            } else {
                assert(q[j + 1].id == id);
                assert(q[j + 1].id != q[i].id);
            }
        }
        if has_id(q, id) && id != gone.id {
            let j = choose|j: int| 0 <= j < q.len() && #[trigger] q[j].id == id;
            if j < i {
                assert(q2[j].id == id);
            } else {
                assert(j != i);
                assert(q2[j - 1].id == id);
            }
        }
    }
    assert forall|k: int| 0 <= k < q2.len() implies rests_at(#[trigger] q2[k], p, s) by {
        if k < i {
            assert(q2[k] == q[k]);
        } else {
            assert(q2[k] == q[k + 1]);
        }
    }
    assert forall|k: int, j: int|
        0 <= k < q2.len() && 0 <= j < q2.len() && k != j implies #[trigger] q2[k].id
        != #[trigger] q2[j].id by {
        let k1 = if k < i {
            k
        } else {
            k + 1
        };
        let j1 = if j < i {
            j
        } else {
            j + 1
        };
        assert(q2[k] == q[k1] && q2[j] == q[j1]);
    }
    assert(has_id(q, gone.id));
    lemma_replace_queue(b, index, s, p, q2, index.remove(gone.id));
}

/// Changing the quantity of one resting order to another positive
/// quantity keeps the book well formed and its index unchanged.
pub proof fn lemma_set_qty(
    b: BookModel,
    index: Map<u64, (u64, Side)>,
    s: Side,
    p: u64,
    i: int,
    n: u64,
)
    requires
        b.levels_ok(),
        b.indexed_by(index),
        b.side(s).contains_key(p),
        0 <= i < b.side(s)[p].len(),
        n > 0,
    ensures
        ({
            let q = b.side(s)[p];
            &&& b.with_queue(s, p, q.update(i, q[i].with_qty(n))).levels_ok()
            &&& b.with_queue(s, p, q.update(i, q[i].with_qty(n))).indexed_by(index)
        }),
{
    let q = b.side(s)[p];
    let q2 = q.update(i, q[i].with_qty(n));
    assert(queue_ok(q, p, s));
    assert(b.queue(s, p) == q);
    assert forall|id: u64| has_id(q2, id) <==> has_id(q, id) by {
        if has_id(q2, id) {
            let j = choose|j: int| 0 <= j < q2.len() && #[trigger] q2[j].id == id;
            assert(q[j].id == id);
        }
        if has_id(q, id) {
            let j = choose|j: int| 0 <= j < q.len() && #[trigger] q[j].id == id;
            assert(q2[j].id == id);
        }
    }
    assert forall|k: int| 0 <= k < q2.len() implies rests_at(#[trigger] q2[k], p, s) by {
        if k != i {
            assert(q2[k] == q[k]);
        }
    }
    assert forall|k: int, j: int|
        0 <= k < q2.len() && 0 <= j < q2.len() && k != j implies #[trigger] q2[k].id
        != #[trigger] q2[j].id by {
        assert(q2[k].id == q[k].id && q2[j].id == q[j].id);
    }
    assert forall|id: u64| #[trigger] index.contains_key(id) && has_id(q, id) implies index[id] == (
    p, s) by {
        let j = choose|j: int| 0 <= j < q.len() && #[trigger] q[j].id == id;
        assert(b.side(s)[p][j] == q[j]);
    }
    lemma_replace_queue(b, index, s, p, q2, index);
}

} // verus!
