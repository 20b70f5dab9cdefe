//! `BTreeBook`: levels in an ordered map, the baseline that the contiguous books
//! are measured against.

use crate::book::OrderBook;
use crate::event::{BookEvent, EventKind, Side};
use crate::ladder::{
    best, better, ladder, lemma_listing_is_ladder, lemma_lists_reversed, set_level, BookModel,
    Levels,
};
use crate::price::{Px, Qty};
use std::collections::BTreeMap;
use vstd::prelude::*;
use vstd::std_specs::btree::increasing_seq;
use vstd::std_specs::cmp::OrdSpec;
use vstd::std_specs::iter::IteratorSpec;

verus! {

broadcast use {
    vstd::std_specs::btree::group_btree_axioms,
    vstd::laws_cmp::group_laws_cmp,
};


/// A book over two ordered maps from tick to lots.
#[derive(Debug)]
pub struct BTreeBook {
    bids: BTreeMap<i64, i64>,
    asks: BTreeMap<i64, i64>,
    last_trade: Option<(Px, Qty, Side)>,
}

/// The priced quantities of a walk over map entries.
spec fn priced(raw: Seq<(&i64, &i64)>) -> Seq<(Px, Qty)> {
    raw.map_values(|kv: (&i64, &i64)| (Px(*kv.0), Qty(*kv.1)))
}

/// An ascending walk over all entries is the ask ladder; reversed, the bid ladder.
proof fn lemma_walk(side: Side, m: Levels, raw: Seq<(&i64, &i64)>)
    requires
        increasing_seq(raw.map_values(|kv: (&i64, &i64)| *kv.0)),
        forall|i: int|
            #![trigger raw[i]]
            0 <= i < raw.len() ==> m.contains_key(*raw[i].0) && m[*raw[i].0] == *raw[i].1,
        forall|k: i64| #[trigger] m.contains_key(k) ==> raw.contains((&k, &m[k])),
    ensures
        ladder(side, m) == (match side {
            Side::Bid => priced(raw).reverse(),
            Side::Ask => priced(raw),
        }),
        best(side, m) == (if raw.len() == 0 {
            None
        } else {
            Some(match side {
                Side::Bid => priced(raw).last(),
                Side::Ask => priced(raw).first(),
            })
        }),
{
    let keys = raw.map_values(|kv: (&i64, &i64)| *kv.0);
    let w = priced(raw);
    assert forall|i: int, j: int| 0 <= i < j < w.len() implies better(
        Side::Ask,
        #[trigger] w[i].0.0,
        #[trigger] w[j].0.0,
    ) by {
        assert(keys[i].cmp_spec(&keys[j]) is Less);
    }
    assert forall|i: int| #![trigger w[i]] 0 <= i < w.len() implies m.contains_key(w[i].0.0)
        && m[w[i].0.0] == w[i].1.0 by {
        assert(m.contains_key(*raw[i].0));
    }
    assert forall|p: i64| #[trigger] m.contains_key(p) implies exists|i: int|
        0 <= i < w.len() && #[trigger] w[i].0.0 == p by {
        assert(raw.contains((&p, &m[p])));
        let i = choose|i: int| 0 <= i < raw.len() && raw[i] == (&p, &m[p]);
        assert(w[i].0.0 == p);
    }
    lemma_lists_reversed(Side::Ask, m, w);
    lemma_listing_is_ladder(Side::Ask, m, w);
    lemma_listing_is_ladder(Side::Bid, m, w.reverse());
}

/// The first entry of a walk.
fn first_of<'a, I: Iterator<Item = (&'a i64, &'a i64)>>(it: I) -> (r: Option<(Px, Qty)>)
    requires
        it.obeys_prophetic_iter_laws(),
    ensures
        r == (if it.remaining().len() > 0 {
            Some(priced(it.remaining())[0])
        } else {
            None
        }),
{
    let mut it = it;
    match it.next() {
        Some((p, q)) => Some((Px(*p), Qty(*q))),
        None => None,
    }
}

/// Copies the first entries of a walk over the front of `out`.
fn fill<'a, I: Iterator<Item = (&'a i64, &'a i64)>>(it: I, out: &mut [(Px, Qty)]) -> (n: usize)
    requires
        it.obeys_prophetic_iter_laws(),
    ensures
        final(out)@.len() == old(out)@.len(),
        n == (if old(out)@.len() <= it.remaining().len() {
            old(out)@.len()
        } else {
            it.remaining().len()
        }),
        final(out)@ == priced(it.remaining()).take(n as int) + old(out)@.skip(n as int),
{
    let ghost start = it;
    let ghost before = out@;
    let len: usize = out.len();
    let mut it = it;
    let mut n: usize = 0;
    assert(start.remaining().skip(0) =~= start.remaining());
    while n < len
        invariant
            len == before.len() == out@.len(),
            n <= len,
            n <= start.remaining().len(),
            it.obeys_prophetic_iter_laws(),
            it.remaining() == start.remaining().skip(n as int),
            out@ == priced(start.remaining()).take(n as int) + before.skip(n as int),
        ensures
            n == len || n == start.remaining().len(),
            n <= len,
            n <= start.remaining().len(),
            len == before.len() == out@.len(),
            out@ == priced(start.remaining()).take(n as int) + before.skip(n as int),
        decreases len - n,
    {
        match it.next() {
            Some((p, q)) => {
                out[n] = (Px(*p), Qty(*q));
                assert(start.remaining().skip(n as int)[0] == start.remaining()[n as int]);
                n += 1;
                assert(out@ =~= priced(start.remaining()).take(n as int) + before.skip(n as int));
                assert(start.remaining().skip(n as int) =~= start.remaining().skip(
                    n - 1,
                ).drop_first());
            },
            None => {
                break;
            },
        }
    }
    n
}

/// The last entry of a walk.
fn last_of<'a, I: DoubleEndedIterator<Item = (&'a i64, &'a i64)>>(it: I) -> (r: Option<(Px, Qty)>)
    requires
        it.obeys_prophetic_iter_laws(),
    ensures
        r == (if it.remaining().len() > 0 {
            Some(priced(it.remaining()).reverse()[0])
        } else {
            None
        }),
{
    let mut it = it;
    match it.next_back() {
        Some((p, q)) => Some((Px(*p), Qty(*q))),
        None => None,
    }
}

/// Copies the last entries of a walk, last first, over the front of `out`.
fn fill_back<'a, I: DoubleEndedIterator<Item = (&'a i64, &'a i64)>>(it: I, out: &mut [(Px, Qty)]) -> (n: usize)
    requires
        it.obeys_prophetic_iter_laws(),
    ensures
        final(out)@.len() == old(out)@.len(),
        n == (if old(out)@.len() <= it.remaining().len() {
            old(out)@.len()
        } else {
            it.remaining().len()
        }),
        final(out)@ == priced(it.remaining()).reverse().take(n as int) + old(out)@.skip(n as int),
{
    let ghost start = it;
    let ghost before = out@;
    let len: usize = out.len();
    let mut it = it;
    let mut n: usize = 0;
    assert(start.remaining().take(start.remaining().len() as int) =~= start.remaining());
    while n < len
        invariant
            len == before.len() == out@.len(),
            n <= len,
            n <= start.remaining().len(),
            it.obeys_prophetic_iter_laws(),
            it.remaining() == start.remaining().take(start.remaining().len() - n),
            out@ == priced(start.remaining()).reverse().take(n as int) + before.skip(n as int),
        ensures
            n == len || n == start.remaining().len(),
            n <= len,
            n <= start.remaining().len(),
            len == before.len() == out@.len(),
            out@ == priced(start.remaining()).reverse().take(n as int) + before.skip(n as int),
        decreases len - n,
    {
        match it.next_back() {
            Some((p, q)) => {
                out[n] = (Px(*p), Qty(*q));
                n += 1;
                assert(out@ =~= priced(start.remaining()).reverse().take(n as int) + before.skip(
                    n as int,
                ));
                assert(start.remaining().take(start.remaining().len() - n)
                    =~= start.remaining().take(start.remaining().len() - (n - 1)).drop_last());
            },
            None => {
                break;
            },
        }
    }
    n
}

/// The entry with the highest price.
pub(crate) fn highest(m: &BTreeMap<i64, i64>) -> (r: Option<(Px, Qty)>)
    ensures
        r == best(Side::Bid, m@),
        m@.dom().finite(),
{
    let it = m.iter();
    proof {
        lemma_walk(Side::Bid, m@, it.remaining());
    }
    last_of(it)
}

/// The entry with the lowest price.
pub(crate) fn lowest(m: &BTreeMap<i64, i64>) -> (r: Option<(Px, Qty)>)
    ensures
        r == best(Side::Ask, m@),
        m@.dom().finite(),
{
    let it = m.iter();
    proof {
        lemma_walk(Side::Ask, m@, it.remaining());
    }
    first_of(it)
}

impl BTreeBook {
    /// Sets the quantity at one price of one side.
    #[inline]
    fn set(&mut self, side: Side, px: Px, qty: Qty)
        ensures
            final(self).model() == (match side {
                Side::Bid => BookModel {
                    bids: set_level(old(self).model().bids, px.0, qty.0),
                    ..old(self).model()
                },
                Side::Ask => BookModel {
                    asks: set_level(old(self).model().asks, px.0, qty.0),
                    ..old(self).model()
                },
            }),
    {
        let book = match side {
            Side::Bid => &mut self.bids,
            Side::Ask => &mut self.asks,
        };
        if qty.is_zero() {
            book.remove(&px.0);
        } else {
            book.insert(px.0, qty.0);
        }
    }
}

impl Default for BTreeBook {
    fn default() -> (b: Self)
        ensures
            b.wf(),
            b.model() == BookModel::empty(),
    {
        BTreeBook { bids: BTreeMap::new(), asks: BTreeMap::new(), last_trade: None }
    }
}

impl OrderBook for BTreeBook {
    open spec fn wf(&self) -> bool {
        true
    }

    closed spec fn model(&self) -> BookModel {
        BookModel { bids: self.bids@, asks: self.asks@, last_trade: self.last_trade }
    }

    open spec fn accepts(&self, ev: BookEvent) -> bool {
        true
    }

    open spec fn covers(&self, lo: int, hi: int) -> bool {
        true
    }

    open spec fn fresh_covers(lo: int, hi: int) -> bool {
        true
    }

    proof fn lemma_default(b: Self) {
    }

    proof fn lemma_covers(&self, lo: int, hi: int, ev: BookEvent) {
    }

    proof fn lemma_finite(&self) {
    }

    #[inline]
    fn apply(&mut self, ev: &BookEvent) {
        match ev.kind {
            EventKind::Level => self.set(ev.side, ev.px, ev.qty),
            EventKind::Trade => {
                self.last_trade = Some((ev.px, ev.qty, ev.side));
            },
            EventKind::Clear => {
                self.bids.clear();
                self.asks.clear();
                self.last_trade = None;
            },
        }
    }

    #[inline]
    fn best_bid(&self) -> (r: Option<(Px, Qty)>) {
        highest(&self.bids)
    }

    #[inline]
    fn best_ask(&self) -> (r: Option<(Px, Qty)>) {
        lowest(&self.asks)
    }

    fn top_n(&self, side: Side, out: &mut [(Px, Qty)]) -> (n: usize) {
        match side {
            Side::Bid => {
                let it = self.bids.iter();
                proof {
                    lemma_walk(Side::Bid, self.bids@, it.remaining());
                }
                fill_back(it, out)
            },
            Side::Ask => {
                let it = self.asks.iter();
                proof {
                    lemma_walk(Side::Ask, self.asks@, it.remaining());
                }
                fill(it, out)
            },
        }
    }

    #[inline]
    fn depth(&self, side: Side) -> (n: usize) {
        match side {
            Side::Bid => self.bids.len(),
            Side::Ask => self.asks.len(),
        }
    }

    #[inline]
    fn last_trade(&self) -> (r: Option<(Px, Qty, Side)>) {
        self.last_trade
    }
}

/// This book takes every event, whatever its price.
pub proof fn law_every_event_is_accepted(b: BTreeBook, ev: BookEvent, lo: int, hi: int)
    ensures
        b.accepts(ev),
        b.covers(lo, hi),
        BTreeBook::fresh_covers(lo, hi),
{
}

} // verus!
