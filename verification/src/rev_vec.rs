//! `RevVecBook`: levels in a contiguous vector, best first, located by a linear
//! scan from the best end. Updates near the top touch the front of the vector.

use crate::book::OrderBook;
use crate::event::{BookEvent, EventKind, Side};
use crate::ladder::{
    better, in_order, is_place, ladder, lemma_levels_of, lemma_listing_is_ladder, lemma_set_at,
    levels_of, set_at, set_level, BookModel,
};
use crate::price::{Px, Qty};
use vstd::prelude::*;

verus! {

/// A book over two vectors, each with its best level at index zero.
#[derive(Debug)]
pub struct RevVecBook {
    bids: Vec<(Px, Qty)>,
    asks: Vec<(Px, Qty)>,
    last_trade: Option<(Px, Qty, Side)>,
}

/// Sets the quantity at `px` in a best-first vector, lowest price first when
/// `ascending`, highest first otherwise.
fn update_best_first(vec: &mut Vec<(Px, Qty)>, px: Px, qty: Qty, ascending: bool)
    requires
        in_order(if ascending { Side::Ask } else { Side::Bid }, old(vec)@),
    ensures
        in_order(if ascending { Side::Ask } else { Side::Bid }, final(vec)@),
        levels_of(final(vec)@) == set_level(levels_of(old(vec)@), px.0, qty.0),
{
    let ghost side = if ascending {
        Side::Ask
    } else {
        Side::Bid
    };
    let ghost before = vec@;
    let mut i: usize = 0;
    while i < vec.len() && ((ascending && vec[i].0.0 < px.0) || (!ascending && vec[i].0.0 > px.0))
        invariant
            vec@ == before,
            i <= vec@.len(),
            side == (if ascending { Side::Ask } else { Side::Bid }),
            forall|k: int| 0 <= k < i ==> better(side, (#[trigger] vec@[k]).0.0, px.0),
        decreases vec@.len() - i,
    {
        i += 1;
    }
    proof {
        assert(is_place(side, before, px.0, i as int)) by {
            assert forall|k: int| i <= k < before.len() implies !better(
                side,
                (#[trigger] before[k]).0.0,
                px.0,
            ) by {
                if k > i {
                    assert(better(side, before[i as int].0.0, before[k].0.0));
                }
            }
        }
        lemma_set_at(side, before, px.0, qty.0, i as int);
    }
    if i < vec.len() && vec[i].0.0 == px.0 {
        if qty.is_zero() {
            vec.remove(i);
        } else {
            vec.set(i, (px, qty));
        }
    } else if !qty.is_zero() {
        vec.insert(i, (px, qty));
    }
    assert(vec@ =~= set_at(before, px.0, qty.0, i as int));
}

/// Copies the front of `src` over the front of `out`.
pub(crate) fn copy_front(src: &Vec<(Px, Qty)>, out: &mut [(Px, Qty)]) -> (n: usize)
    ensures
        final(out)@.len() == old(out)@.len(),
        n == (if old(out)@.len() <= src@.len() {
            old(out)@.len()
        } else {
            src@.len()
        }),
        final(out)@ == src@.take(n as int) + old(out)@.skip(n as int),
{
    let ghost before = out@;
    let len: usize = out.len();
    let mut n: usize = 0;
    while n < len && n < src.len()
        invariant
            len == before.len() == out@.len(),
            n <= len,
            n <= src@.len(),
            out@ == src@.take(n as int) + before.skip(n as int),
        decreases len - n,
    {
        out[n] = src[n];
        n += 1;
        assert(out@ =~= src@.take(n as int) + before.skip(n as int));
    }
    n
}

impl RevVecBook {
    /// The stored levels of one side.
    pub closed spec fn stored(&self, side: Side) -> Seq<(Px, Qty)> {
        match side {
            Side::Bid => self.bids@,
            Side::Ask => self.asks@,
        }
    }

    /// The stored levels of `side`, which are kept best first.
    #[must_use]
    pub fn levels(&self, side: Side) -> (s: &[(Px, Qty)])
        requires
            self.wf(),
        ensures
            s@ == self.stored(side),
            s@ == ladder(side, self.model().side(side)),
    {
        proof {
            lemma_levels_of(side, self.stored(side));
            lemma_listing_is_ladder(side, levels_of(self.stored(side)), self.stored(side));
        }
        match side {
            Side::Bid => self.bids.as_slice(),
            Side::Ask => self.asks.as_slice(),
        }
    }
}

impl Default for RevVecBook {
    fn default() -> (b: Self)
        ensures
            b.wf(),
            b.model() == BookModel::empty(),
    {
        let b = RevVecBook { bids: Vec::new(), asks: Vec::new(), last_trade: None };
        assert(levels_of(b.bids@) =~= Map::empty());
        assert(levels_of(b.asks@) =~= Map::empty());
        b
    }
}

impl OrderBook for RevVecBook {
    closed spec fn wf(&self) -> bool {
        in_order(Side::Bid, self.bids@) && in_order(Side::Ask, self.asks@)
    }

    closed spec fn model(&self) -> BookModel {
        BookModel {
            bids: levels_of(self.bids@),
            asks: levels_of(self.asks@),
            last_trade: self.last_trade,
        }
    }

    open spec fn accepts(&self, ev: BookEvent) -> bool {
        true
    }

    open spec fn covers(&self, lo: int, hi: int) -> bool {
        true
    }

    open spec fn fresh_covers(lo: int, hi: int) -> bool {
        true
    }

    proof fn lemma_default(b: Self) {
    }

    proof fn lemma_covers(&self, lo: int, hi: int, ev: BookEvent) {
    }

    proof fn lemma_finite(&self) {
        lemma_levels_of(Side::Bid, self.bids@);
        lemma_listing_is_ladder(Side::Bid, levels_of(self.bids@), self.bids@);
        lemma_levels_of(Side::Ask, self.asks@);
        lemma_listing_is_ladder(Side::Ask, levels_of(self.asks@), self.asks@);
    }

    #[inline]
    fn apply(&mut self, ev: &BookEvent) {
        match ev.kind {
            EventKind::Level => match ev.side {
                Side::Bid => update_best_first(&mut self.bids, ev.px, ev.qty, false),
                Side::Ask => update_best_first(&mut self.asks, ev.px, ev.qty, true),
            },
            EventKind::Trade => {
                self.last_trade = Some((ev.px, ev.qty, ev.side));
            },
            EventKind::Clear => {
                self.bids.clear();
                self.asks.clear();
                self.last_trade = None;
                assert(levels_of(self.bids@) =~= Map::empty());
                assert(levels_of(self.asks@) =~= Map::empty());
            },
        }
    }

    #[inline]
    fn best_bid(&self) -> (r: Option<(Px, Qty)>) {
        proof {
            lemma_levels_of(Side::Bid, self.bids@);
            lemma_listing_is_ladder(Side::Bid, levels_of(self.bids@), self.bids@);
        }
        if self.bids.len() > 0 {
            Some(self.bids[0])
        } else {
            None
        }
    }

    #[inline]
    fn best_ask(&self) -> (r: Option<(Px, Qty)>) {
        proof {
            lemma_levels_of(Side::Ask, self.asks@);
            lemma_listing_is_ladder(Side::Ask, levels_of(self.asks@), self.asks@);
        }
        if self.asks.len() > 0 {
            Some(self.asks[0])
        } else {
            None
        }
    }

    fn top_n(&self, side: Side, out: &mut [(Px, Qty)]) -> (n: usize) {
        proof {
            lemma_levels_of(side, self.stored(side));
            lemma_listing_is_ladder(side, levels_of(self.stored(side)), self.stored(side));
        }
        match side {
            Side::Bid => copy_front(&self.bids, out),
            Side::Ask => copy_front(&self.asks, out),
        }
    }

    #[inline]
    fn depth(&self, side: Side) -> (n: usize) {
        proof {
            lemma_levels_of(side, self.stored(side));
            lemma_listing_is_ladder(side, levels_of(self.stored(side)), self.stored(side));
        }
        match side {
            Side::Bid => self.bids.len(),
            Side::Ask => self.asks.len(),
        }
    }

    #[inline]
    fn last_trade(&self) -> (r: Option<(Px, Qty, Side)>) {
        self.last_trade
    }
}

/// This book takes every event, whatever its price.
pub proof fn law_every_event_is_accepted(b: RevVecBook, ev: BookEvent, lo: int, hi: int)
    ensures
        b.accepts(ev),
        b.covers(lo, hi),
        RevVecBook::fresh_covers(lo, hi),
{
}

} // verus!
