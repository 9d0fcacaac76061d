use vstd::prelude::*;

use crate::orderbook::Orderbook;
use crate::price_level::PriceLevel;
use crate::side::Side;
use std::collections::BTreeMap;
use vstd::std_specs::btree::{increasing_seq, spec_keys_iter};
use vstd::std_specs::iter::IteratorSpec;
use vstd::std_specs::cmp::OrdSpec;

verus! {

/// One price of one side of the book with the quantity resting there.
#[derive(Debug, Clone, Copy, PartialEq, Eq, Structural)]
pub struct DepthLevel {
    pub price: u64,
    pub qty: u64,
}

/// The aggregated quantity at each price: bids from the highest price
/// down, asks from the lowest price up.
#[derive(Debug)]
pub struct DepthSnapshot {
    pub bids: Vec<DepthLevel>,
    pub asks: Vec<DepthLevel>,
}

/// `d` lists every level of `levels` once, with its total, best price first
/// for resting orders of side `resting` (highest bid, lowest ask).
pub open spec fn lists_levels(levels: Map<u64, PriceLevel>, d: Seq<DepthLevel>, resting: Side) -> bool {
    &&& forall|i: int|
        0 <= i < d.len() ==> levels.contains_key(#[trigger] d[i].price) && d[i].qty
            == levels[d[i].price].total_qty
    &&& forall|p: u64| #[trigger]
        levels.contains_key(p) ==> exists|i: int| 0 <= i < d.len() && #[trigger] d[i].price == p
    &&& forall|i: int, j: int|
        0 <= i < j < d.len() ==> match resting {
            Side::Sell => #[trigger] d[i].price < #[trigger] d[j].price,
            Side::Buy => d[i].price > d[j].price,
        }
}

/// The keys of a `BTreeMap<u64, _>` come out in strictly increasing order.
proof fn lemma_keys_ascending(ks: Seq<&u64>)
    requires
        increasing_seq(ks),
    ensures
        forall|i: int, j: int| 0 <= i < j < ks.len() ==> *ks[i] < *ks[j],
{
    broadcast use vstd::laws_cmp::lemma_ref_obeys_cmp_spec;

    assert(vstd::laws_cmp::obeys_cmp::<&u64>());
    assert forall|i: int, j: int| 0 <= i < j < ks.len() implies *ks[i] < *ks[j] by {
        assert(OrdSpec::cmp_spec(&ks[i], &ks[j]) is Less);
    }
}

/// The levels of one side, lowest price first.
fn ascending_levels(levels: &BTreeMap<u64, PriceLevel>) -> (r: Vec<DepthLevel>)
    ensures
        lists_levels(levels@, r@, Side::Sell),
{
    let mut r: Vec<DepthLevel> = Vec::new();
    let ghost ks = spec_keys_iter(levels).remaining();
    proof {
        assert(increasing_seq(ks));
    }
    for k in iter: levels.keys()
        invariant
            r@.len() == iter.index(),
            iter.seq() == ks,
            ks == spec_keys_iter(levels).remaining(),
            forall|i: int|
                0 <= i < iter.index() ==> #[trigger] r@[i].price == *ks[i]
                    && levels@.contains_key(r@[i].price) && r@[i].qty
                    == levels@[r@[i].price].total_qty,
    {
        let level = levels.get(k).unwrap();
        r.push(DepthLevel { price: *k, qty: level.total_qty });
    }
    proof {
        assert(r@.len() == ks.len());
        lemma_keys_ascending(ks);
        assert forall|p: u64| #[trigger] levels@.contains_key(p) implies exists|i: int|
            0 <= i < r@.len() && #[trigger] r@[i].price == p by {
            assert(ks.unref().to_set().contains(p));
            let i = choose|i: int| 0 <= i < ks.unref().len() && ks.unref()[i] == p;
            assert(r@[i].price == p);
        }
    }
    r
}

impl DepthSnapshot {
    pub fn from_book(book: &Orderbook) -> (d: DepthSnapshot)
        ensures
            lists_levels(book.bids@, d.bids@, Side::Buy),
            lists_levels(book.asks@, d.asks@, Side::Sell),
    {
        let asks = ascending_levels(&book.asks);
        let ascending_bids = ascending_levels(&book.bids);
        let mut bids: Vec<DepthLevel> = Vec::new();
        let mut i: usize = ascending_bids.len();
        while i > 0
            invariant
                i <= ascending_bids@.len(),
                bids@.len() == ascending_bids@.len() - i,
                forall|j: int|
                    0 <= j < bids@.len() ==> #[trigger] bids@[j] == ascending_bids@[ascending_bids@.len()
                        - 1 - j],
            decreases i,
        {
            i = i - 1;
            bids.push(ascending_bids[i]);
        }
        proof {
            let n = ascending_bids@.len();
            assert forall|p: u64| #[trigger] book.bids@.contains_key(p) implies exists|j: int|
                0 <= j < bids@.len() && #[trigger] bids@[j].price == p by {
                let k = choose|k: int| 0 <= k < n && #[trigger] ascending_bids@[k].price == p;
                assert(bids@[n - 1 - k] == ascending_bids@[k]);
            }
            assert forall|a: int, b: int| 0 <= a < b < bids@.len() implies #[trigger] bids@[a].price
                > #[trigger] bids@[b].price by {
                assert(bids@[a] == ascending_bids@[n - 1 - a]);
                assert(bids@[b] == ascending_bids@[n - 1 - b]);
            }
            assert forall|a: int| 0 <= a < bids@.len() implies book.bids@.contains_key(
                #[trigger] bids@[a].price,
            ) && bids@[a].qty == book.bids@[bids@[a].price].total_qty by {
                assert(bids@[a] == ascending_bids@[n - 1 - a]);
            }
        }
        DepthSnapshot { bids, asks }
    }
}

} // verus!
