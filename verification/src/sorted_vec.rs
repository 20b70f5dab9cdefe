//! `SortedVecBook`: levels in a contiguous vector, ascending on both sides,
//! located by binary search.

use crate::book::OrderBook;
use crate::event::{BookEvent, EventKind, Side};
use crate::ladder::{
    best, better, in_order, is_place, ladder, lemma_levels_of, lemma_listing_is_ladder,
    lemma_lists_reversed, lemma_set_at, levels_of, set_at, set_level, BookModel,
};
use crate::price::{Px, Qty};
use crate::rev_vec::copy_front;
use vstd::prelude::*;

verus! {

/// A book over two vectors, both in ascending price order.
#[derive(Debug)]
pub struct SortedVecBook {
    bids: Vec<(Px, Qty)>,
    asks: Vec<(Px, Qty)>,
    last_trade: Option<(Px, Qty, Side)>,
}

/// The index of the first level at or above `px`.
fn search_ascending(vec: &Vec<(Px, Qty)>, px: Px) -> (i: usize)
    requires
        in_order(Side::Ask, vec@),
    ensures
        is_place(Side::Ask, vec@, px.0, i as int),
{
    let mut lo: usize = 0;
    let mut hi: usize = vec.len();
    while lo < hi
        invariant
            in_order(Side::Ask, vec@),
            lo <= hi <= vec@.len(),
            forall|k: int| 0 <= k < lo ==> (#[trigger] vec@[k]).0.0 < px.0,
            forall|k: int| hi <= k < vec@.len() ==> (#[trigger] vec@[k]).0.0 >= px.0,
        decreases hi - lo,
    {
        let mid: usize = lo + (hi - lo) / 2;
        if vec[mid].0.0 < px.0 {
            assert forall|k: int| 0 <= k <= mid implies (#[trigger] vec@[k]).0.0 < px.0 by {
                if k < mid {
                    assert(better(Side::Ask, vec@[k].0.0, vec@[mid as int].0.0));
                }
            }
            lo = mid + 1;
        } else {
            assert forall|k: int| mid <= k < vec@.len() implies (#[trigger] vec@[k]).0.0
                >= px.0 by {
                if k > mid {
                    assert(better(Side::Ask, vec@[mid as int].0.0, vec@[k].0.0));
                }
            }
            hi = mid;
        }
    }
    lo
}

/// Sets the quantity at `px` in an ascending vector.
fn update_ascending(vec: &mut Vec<(Px, Qty)>, px: Px, qty: Qty)
    requires
        in_order(Side::Ask, old(vec)@),
    ensures
        in_order(Side::Ask, final(vec)@),
        levels_of(final(vec)@) == set_level(levels_of(old(vec)@), px.0, qty.0),
{
    let ghost before = vec@;
    let i: usize = search_ascending(vec, px);
    proof {
        lemma_set_at(Side::Ask, before, px.0, qty.0, i as int);
    }
    if i < vec.len() && vec[i].0.0 == px.0 {
        if qty.is_zero() {
            vec.remove(i);
        } else {
            vec.set(i, (px, qty));
        }
    } else if !qty.is_zero() {
        vec.insert(i, (px, qty));
    }
    assert(vec@ =~= set_at(before, px.0, qty.0, i as int));
}

/// Copies the back of `src`, last element first, over the front of `out`.
fn copy_back(src: &Vec<(Px, Qty)>, out: &mut [(Px, Qty)]) -> (n: usize)
    ensures
        final(out)@.len() == old(out)@.len(),
        n == (if old(out)@.len() <= src@.len() {
            old(out)@.len()
        } else {
            src@.len()
        }),
        final(out)@ == src@.reverse().take(n as int) + old(out)@.skip(n as int),
{
    let ghost before = out@;
    let len: usize = out.len();
    let mut n: usize = 0;
    while n < len && n < src.len()
        invariant
            len == before.len() == out@.len(),
            n <= len,
            n <= src@.len(),
            out@ == src@.reverse().take(n as int) + before.skip(n as int),
        decreases len - n,
    {
        out[n] = src[src.len() - 1 - n];
        n += 1;
        assert(out@ =~= src@.reverse().take(n as int) + before.skip(n as int));
    }
    n
}

/// An ascending vector holds its levels, read forwards for asks and backwards for
/// bids.
proof fn lemma_ascending(side: Side, s: Seq<(Px, Qty)>)
    requires
        in_order(Side::Ask, s),
    ensures
        levels_of(s).dom().finite(),
        levels_of(s).dom().len() == s.len(),
        ladder(side, levels_of(s)) == (match side {
            Side::Bid => s.reverse(),
            Side::Ask => s,
        }),
        best(side, levels_of(s)) == (if s.len() == 0 {
            None
        } else {
            Some(match side {
                Side::Bid => s.last(),
                Side::Ask => s.first(),
            })
        }),
{
    lemma_levels_of(Side::Ask, s);
    lemma_lists_reversed(Side::Ask, levels_of(s), s);
    match side {
        Side::Bid => lemma_listing_is_ladder(Side::Bid, levels_of(s), s.reverse()),
        Side::Ask => lemma_listing_is_ladder(Side::Ask, levels_of(s), s),
    }
}

impl SortedVecBook {
    /// The stored levels of one side.
    pub closed spec fn stored(&self, side: Side) -> Seq<(Px, Qty)> {
        match side {
            Side::Bid => self.bids@,
            Side::Ask => self.asks@,
        }
    }

    /// The stored levels of `side`, which are kept in strictly ascending price
    /// order.
    #[must_use]
    pub fn levels(&self, side: Side) -> (s: &[(Px, Qty)])
        requires
            self.wf(),
        ensures
            s@ == self.stored(side),
            s@ == ladder(Side::Ask, self.model().side(side)),
    {
        proof {
            lemma_ascending(Side::Ask, self.stored(side));
        }
        match side {
            Side::Bid => self.bids.as_slice(),
            Side::Ask => self.asks.as_slice(),
        }
    }
}

impl Default for SortedVecBook {
    fn default() -> (b: Self)
        ensures
            b.wf(),
            b.model() == BookModel::empty(),
    {
        let b = SortedVecBook { bids: Vec::new(), asks: Vec::new(), last_trade: None };
        assert(levels_of(b.bids@) =~= Map::empty());
        assert(levels_of(b.asks@) =~= Map::empty());
        b
    }
}

impl OrderBook for SortedVecBook {
    closed spec fn wf(&self) -> bool {
        in_order(Side::Ask, self.bids@) && in_order(Side::Ask, self.asks@)
    }

    closed spec fn model(&self) -> BookModel {
        BookModel {
            bids: levels_of(self.bids@),
            asks: levels_of(self.asks@),
            last_trade: self.last_trade,
        }
    }

    open spec fn accepts(&self, ev: BookEvent) -> bool {
        true
    }

    open spec fn covers(&self, lo: int, hi: int) -> bool {
        true
    }

    open spec fn fresh_covers(lo: int, hi: int) -> bool {
        true
    }

    proof fn lemma_default(b: Self) {
    }

    proof fn lemma_covers(&self, lo: int, hi: int, ev: BookEvent) {
    }

    proof fn lemma_finite(&self) {
        lemma_ascending(Side::Bid, self.bids@);
        lemma_ascending(Side::Ask, self.asks@);
    }

    #[inline]
    fn apply(&mut self, ev: &BookEvent) {
        match ev.kind {
            EventKind::Level => match ev.side {
                Side::Bid => update_ascending(&mut self.bids, ev.px, ev.qty),
                Side::Ask => update_ascending(&mut self.asks, ev.px, ev.qty),
            },
            EventKind::Trade => {
                self.last_trade = Some((ev.px, ev.qty, ev.side));
            },
            EventKind::Clear => {
                self.bids.clear();
                self.asks.clear();
                self.last_trade = None;
                assert(levels_of(self.bids@) =~= Map::empty());
                assert(levels_of(self.asks@) =~= Map::empty());
            },
        }
    }

    #[inline]
    fn best_bid(&self) -> (r: Option<(Px, Qty)>) {
        proof {
            lemma_ascending(Side::Bid, self.bids@);
        }
        if self.bids.len() > 0 {
            Some(self.bids[self.bids.len() - 1])
        } else {
            None
        }
    }

    #[inline]
    fn best_ask(&self) -> (r: Option<(Px, Qty)>) {
        proof {
            lemma_ascending(Side::Ask, self.asks@);
        }
        if self.asks.len() > 0 {
            Some(self.asks[0])
        } else {
            None
        }
    }

    fn top_n(&self, side: Side, out: &mut [(Px, Qty)]) -> (n: usize) {
        proof {
            lemma_ascending(side, self.stored(side));
        }
        match side {
            Side::Bid => copy_back(&self.bids, out),
            Side::Ask => copy_front(&self.asks, out),
        }
    }

    #[inline]
    fn depth(&self, side: Side) -> (n: usize) {
        proof {
            lemma_ascending(side, self.stored(side));
        }
        match side {
            Side::Bid => self.bids.len(),
            Side::Ask => self.asks.len(),
        }
    }

    #[inline]
    fn last_trade(&self) -> (r: Option<(Px, Qty, Side)>) {
        self.last_trade
    }
}

/// This book takes every event, whatever its price.
pub proof fn law_every_event_is_accepted(b: SortedVecBook, ev: BookEvent, lo: int, hi: int)
    ensures
        b.accepts(ev),
        b.covers(lo, hi),
        SortedVecBook::fresh_covers(lo, hi),
{
}

} // verus!
