//! `FlatBook`: levels in a flat array indexed by tick offset from a base.
//!
//! An update is one indexed store, whatever the depth of the book; the price is
//! memory proportional to the span of prices seen, so the structure suits a
//! bounded price range.

use crate::book::{levels_within, OrderBook};
use crate::event::{BookEvent, EventKind, Side};
use crate::ladder::{
    best, better, is_best, ladder, lemma_best_is, lemma_ladder_lists, lists, set_level, BookModel,
    Levels,
};
use crate::price::{Px, Qty};
use vstd::prelude::*;

verus! {

/// The widest span of ticks that the arrays may cover.
pub const MAX_SPAN: usize = 8 * 1024 * 1024;

/// The margin of ticks kept on either side of a price that forces an allocation.
pub const INIT_HALF_SPAN: usize = 4096;

/// A book over two arrays indexed by tick.
#[derive(Debug)]
pub struct FlatBook {
    base: i64,
    inited: bool,
    bid_qty: Vec<Qty>,
    ask_qty: Vec<Qty>,
    best_bid_idx: Option<usize>,
    best_ask_idx: Option<usize>,
    bid_depth: usize,
    ask_depth: usize,
    last_trade: Option<(Px, Qty, Side)>,
}

/// The window of ticks `lo..hi` that is covered once `p` has been covered too.
pub open spec fn grow(window: Option<(int, int)>, p: int) -> (int, int) {
    match window {
        None => (p - INIT_HALF_SPAN, p + INIT_HALF_SPAN + 1),
        Some((lo, hi)) => if lo <= p < hi {
            (lo, hi)
        } else {
            (
                if p - INIT_HALF_SPAN < lo { p - INIT_HALF_SPAN } else { lo },
                if p + 1 + INIT_HALF_SPAN > hi { p + 1 + INIT_HALF_SPAN } else { hi },
            )
        },
    }
}

/// Whether the window can be made to cover `p` within tick and memory limits.
pub open spec fn fits(window: Option<(int, int)>, p: int) -> bool {
    match window {
        None => p - INIT_HALF_SPAN >= i64::MIN,
        Some((lo, hi)) => {
            &&& hi <= i64::MAX
            &&& lo <= p < hi || {
                &&& p - INIT_HALF_SPAN >= i64::MIN
                &&& p + 1 + INIT_HALF_SPAN <= i64::MAX
                &&& grow(window, p).1 - grow(window, p).0 <= MAX_SPAN
            }
        },
    }
}

/// A window that was made for the price `p0` can be made to cover `p` too if and only
/// if the two lie no farther apart than leaves room for the margins. It then covers the
/// ticks from one to the other and the margins, and no more than before where `p` lies
/// within the first margin.
pub proof fn law_span_of_two_prices(p0: int, p: int)
    requires
        i64::MIN + INIT_HALF_SPAN <= p0 <= i64::MAX - INIT_HALF_SPAN - 1,
        i64::MIN + INIT_HALF_SPAN <= p <= i64::MAX - INIT_HALF_SPAN - 1,
    ensures
        ({
            let apart = if p < p0 {
                p0 - p
            } else {
                p - p0
            };
            let (lo, hi) = grow(Some(grow(None, p0)), p);
            &&& fits(None, p0)
            &&& fits(Some(grow(None, p0)), p) <==> apart <= MAX_SPAN - 2 * INIT_HALF_SPAN - 1
            &&& hi - lo == (if apart <= INIT_HALF_SPAN {
                2 * INIT_HALF_SPAN + 1
            } else {
                apart + 2 * INIT_HALF_SPAN + 1
            })
        }),
{
}

/// The levels that an array of quantities starting at tick `base` holds.
spec fn slots(base: i64, qty: Seq<Qty>) -> Levels {
    Map::new(
        |p: i64| base <= p < base + qty.len() && qty[p - base].0 != 0,
        |p: i64| qty[p - base].0,
    )
}

/// Whether `idx` points at the best occupied slot.
spec fn points_at_best(side: Side, qty: Seq<Qty>, idx: Option<usize>) -> bool {
    match idx {
        None => forall|i: int| 0 <= i < qty.len() ==> (#[trigger] qty[i]).0 == 0,
        Some(b) => {
            &&& b < qty.len()
            &&& qty[b as int].0 != 0
            &&& match side {
                Side::Bid => forall|i: int| b < i < qty.len() ==> (#[trigger] qty[i]).0 == 0,
                Side::Ask => forall|i: int| 0 <= i < b ==> (#[trigger] qty[i]).0 == 0,
            }
        },
    }
}

/// Whether one side's array, cached best and count agree.
spec fn side_ok(side: Side, base: i64, qty: Seq<Qty>, idx: Option<usize>, depth: usize) -> bool {
    &&& points_at_best(side, qty, idx)
    &&& depth == slots(base, qty).dom().len()
    &&& forall|i: int|
        0 <= i < qty.len() && (#[trigger] qty[i]).0 != 0 ==> base + i <= i64::MAX
}

/// The levels of an array are finitely many, at most one per slot.
proof fn lemma_slots_finite(base: i64, qty: Seq<Qty>)
    ensures
        slots(base, qty).dom().finite(),
        slots(base, qty).dom().len() <= qty.len(),
    decreases qty.len(),
{
    if qty.len() == 0 {
        assert(slots(base, qty).dom() =~= Set::empty());
    } else {
        let init = qty.drop_last();
        lemma_slots_finite(base, init);
        let last = base + qty.len() - 1;
        let all = slots(base, qty).dom();
        if qty.last().0 != 0 && last <= i64::MAX {
            assert(all =~= slots(base, init).dom().insert(last as i64));
        } else {
            assert(all =~= slots(base, init).dom());
        }
    }
}

/// Storing into one slot sets one level.
proof fn lemma_slots_update(base: i64, qty: Seq<Qty>, i: int, q: Qty)
    requires
        0 <= i < qty.len(),
        base + i <= i64::MAX,
    ensures
        slots(base, qty.update(i, q)) == set_level(slots(base, qty), (base + i) as i64, q.0),
{
    let p = (base + i) as i64;
    assert(slots(base, qty.update(i, q)) =~= set_level(slots(base, qty), p, q.0));
}

/// Widening the array with empty slots keeps the levels.
proof fn lemma_slots_widen(base: i64, qty: Seq<Qty>, new_base: i64, wide: Seq<Qty>)
    requires
        new_base <= base,
        base + qty.len() <= new_base + wide.len(),
        forall|i: int|
            0 <= i < wide.len() ==> (#[trigger] wide[i]).0 == (if base - new_base <= i < base
                - new_base + qty.len() {
                qty[i - (base - new_base)].0
            } else {
                0
            }),
    ensures
        slots(new_base, wide) == slots(base, qty),
{
    assert(slots(new_base, wide) =~= slots(base, qty));
}

/// The cached best slot is the best level of the model.
proof fn lemma_cached_best(side: Side, base: i64, qty: Seq<Qty>, idx: Option<usize>, depth: usize)
    requires
        side_ok(side, base, qty, idx, depth),
    ensures
        best(side, slots(base, qty)) == (match idx {
            Some(b) => Some((Px((base + b) as i64), qty[b as int])),
            None => None,
        }),
{
    let levels = slots(base, qty);
    match idx {
        Some(b) => {
            let p = (base + b) as i64;
            assert(is_best(side, levels, p)) by {
                assert forall|q: i64| levels.contains_key(q) && q != p implies better(side, p, q) by {
                    assert(qty[q - base].0 != 0);
                }
            }
            lemma_best_is(side, levels, p);
        },
        None => {
            if exists|p: i64| is_best(side, levels, p) {
                let p = choose|p: i64| is_best(side, levels, p);
                assert(qty[p - base].0 != 0);
            }
        },
    }
}

/// The highest occupied slot below `i`.
fn probe_down(qty: &Vec<Qty>, i: usize) -> (r: Option<usize>)
    requires
        i <= qty@.len(),
    ensures
        match r {
            Some(b) => b < i && qty@[b as int].0 != 0 && forall|j: int|
                b < j < i ==> (#[trigger] qty@[j]).0 == 0,
            None => forall|j: int| 0 <= j < i ==> (#[trigger] qty@[j]).0 == 0,
        },
{
    let mut j: usize = i;
    while j > 0
        invariant
            j <= i <= qty@.len(),
            forall|k: int| j <= k < i ==> (#[trigger] qty@[k]).0 == 0,
        decreases j,
    {
        j -= 1;
        if !qty[j].is_zero() {
            return Some(j);
        }
    }
    None
}

/// The lowest occupied slot at or above `i`.
fn probe_up(qty: &Vec<Qty>, i: usize) -> (r: Option<usize>)
    requires
        i <= qty@.len(),
    ensures
        match r {
            Some(b) => i <= b < qty@.len() && qty@[b as int].0 != 0 && forall|j: int|
                i <= j < b ==> (#[trigger] qty@[j]).0 == 0,
            None => forall|j: int| i <= j < qty@.len() ==> (#[trigger] qty@[j]).0 == 0,
        },
{
    let mut j: usize = i;
    while j < qty.len()
        invariant
            i <= j <= qty@.len(),
            forall|k: int| i <= k < j ==> (#[trigger] qty@[k]).0 == 0,
        decreases qty@.len() - j,
    {
        if !qty[j].is_zero() {
            return Some(j);
        }
        j += 1;
    }
    None
}

/// An array of `len` empty slots with `qty` copied in at `shift`.
fn widened(qty: &Vec<Qty>, shift: usize, len: usize) -> (r: Vec<Qty>)
    requires
        shift + qty@.len() <= len,
    ensures
        r@.len() == len,
        forall|i: int|
            0 <= i < len ==> (#[trigger] r@[i]).0 == (if shift <= i < shift + qty@.len() {
                qty@[i - shift].0
            } else {
                0
            }),
{
    let mut r: Vec<Qty> = vec![Qty(0); len];
    let mut i: usize = 0;
    while i < qty.len()
        invariant
            i <= qty@.len(),
            shift + qty@.len() <= len,
            r@.len() == len,
            forall|k: int|
                0 <= k < len ==> (#[trigger] r@[k]).0 == (if shift <= k < shift + i {
                    qty@[k - shift].0
                } else {
                    0
                }),
        decreases qty@.len() - i,
    {
        r.set(shift + i, qty[i]);
        i += 1;
    }
    r
}

/// Sets every slot to empty, keeping the allocation.
fn zero_fill(qty: &mut Vec<Qty>)
    ensures
        final(qty)@.len() == old(qty)@.len(),
        forall|i: int| 0 <= i < final(qty)@.len() ==> (#[trigger] final(qty)@[i]).0 == 0,
{
    let n: usize = qty.len();
    let mut i: usize = 0;
    while i < n
        invariant
            i <= n,
            qty@.len() == n,
            n == old(qty)@.len(),
            forall|k: int| 0 <= k < i ==> (#[trigger] qty@[k]).0 == 0,
        decreases n - i,
    {
        qty.set(i, Qty(0));
        i += 1;
    }
}

/// Stores `q` at slot `i` and brings the cached best and the count up to date.
fn set_slot(
    side: Side,
    Ghost(base): Ghost<i64>,
    qty: &mut Vec<Qty>,
    idx: &mut Option<usize>,
    depth: &mut usize,
    i: usize,
    q: Qty,
)
    requires
        i < old(qty)@.len(),
        base + i <= i64::MAX,
        old(qty)@.len() <= MAX_SPAN,
        side_ok(side, base, old(qty)@, *old(idx), *old(depth)),
    ensures
        final(qty)@ == old(qty)@.update(i as int, q),
        side_ok(side, base, final(qty)@, *final(idx), *final(depth)),
        slots(base, final(qty)@) == set_level(slots(base, old(qty)@), (base + i) as i64, q.0),
{
    let ghost p = (base + i) as i64;
    let ghost before = slots(base, qty@);
    proof {
        lemma_slots_finite(base, qty@);
        lemma_slots_update(base, qty@, i as int, q);
        assert(before.contains_key(p) == (qty@[i as int].0 != 0));
        lemma_slots_finite(base, qty@.update(i as int, q));
    }
    let was_occupied = !qty[i].is_zero();
    qty.set(i, q);
    if q.is_zero() {
        if was_occupied {
            *depth = *depth - 1;
            if *idx == Some(i) {
                *idx = match side {
                    Side::Bid => probe_down(qty, i),
                    Side::Ask => probe_up(qty, i + 1),
                };
            }
        } else {
            assert(before.remove(p) =~= before);
        }
    } else {
        if !was_occupied {
            *depth = *depth + 1;
        } else {
            assert(before.insert(p, q.0).dom() =~= before.dom());
        }
        let better_than_cached = match *idx {
            None => true,
            Some(b) => match side {
                Side::Bid => i > b,
                Side::Ask => i < b,
            },
        };
        if better_than_cached {
            *idx = Some(i);
        }
    }
}

impl FlatBook {
    /// The window of ticks `lo..hi` that the arrays cover; none before the first
    /// level event.
    pub closed spec fn window(&self) -> Option<(int, int)> {
        if self.inited {
            Some((self.base as int, self.base + self.bid_qty@.len()))
        } else {
            None
        }
    }

    /// The number of ticks that the arrays cover.
    #[must_use]
    pub fn allocated_span_ticks(&self) -> (n: usize)
        requires
            self.wf(),
        ensures
            n == (match self.window() {
                Some((lo, hi)) => hi - lo,
                None => 0,
            }),
    {
        self.bid_qty.len()
    }

    /// Makes the arrays cover `px`.
    pub fn ensure_range(&mut self, px: Px)
        requires
            old(self).wf(),
            fits(old(self).window(), px.0 as int),
        ensures
            final(self).wf(),
            final(self).model() == old(self).model(),
            final(self).window() == Some(grow(old(self).window(), px.0 as int)),
    {
        let p: i64 = px.ticks();
        if !self.inited {
            let base: i64 = p - INIT_HALF_SPAN as i64;
            let len: usize = 2 * INIT_HALF_SPAN + 1;
            let ghost old_bids = slots(self.base, self.bid_qty@);
            let ghost old_asks = slots(self.base, self.ask_qty@);
            self.base = base;
            self.bid_qty = vec![Qty(0); len];
            self.ask_qty = vec![Qty(0); len];
            self.inited = true;
            assert(slots(base, self.bid_qty@) =~= old_bids);
            assert(slots(base, self.ask_qty@) =~= old_asks);
            return;
        }
        let old_len: i64 = self.bid_qty.len() as i64;
        let old_lo: i64 = self.base;
        let old_hi: i64 = old_lo + old_len;
        if p >= old_lo && p < old_hi {
            return;
        }
        let margin: i64 = INIT_HALF_SPAN as i64;
        let new_lo: i64 = if p - margin < old_lo {
            p - margin
        } else {
            old_lo
        };
        let new_hi: i64 = if p + 1 + margin > old_hi {
            p + 1 + margin
        } else {
            old_hi
        };
        let new_len: usize = (new_hi - new_lo) as usize;
        let shift: usize = (old_lo - new_lo) as usize;
        let new_bid = widened(&self.bid_qty, shift, new_len);
        let new_ask = widened(&self.ask_qty, shift, new_len);
        proof {
            lemma_slots_widen(old_lo, self.bid_qty@, new_lo, new_bid@);
            lemma_slots_widen(old_lo, self.ask_qty@, new_lo, new_ask@);
            assert forall|i: int| 0 <= i < self.bid_qty@.len() implies #[trigger] self.bid_qty@[i].0
                == new_bid@[i + shift].0 by {}
            assert forall|i: int| 0 <= i < self.ask_qty@.len() implies #[trigger] self.ask_qty@[i].0
                == new_ask@[i + shift].0 by {}
        }
        self.bid_qty = new_bid;
        self.ask_qty = new_ask;
        self.base = new_lo;
        self.best_bid_idx = match self.best_bid_idx {
            Some(b) => Some(b + shift),
            None => None,
        };
        self.best_ask_idx = match self.best_ask_idx {
            Some(b) => Some(b + shift),
            None => None,
        };
    }
}

impl Default for FlatBook {
    fn default() -> (b: Self)
        ensures
            b.wf(),
            b.model() == BookModel::empty(),
            b.window() is None,
    {
        let b = FlatBook {
            base: 0,
            inited: false,
            bid_qty: Vec::new(),
            ask_qty: Vec::new(),
            best_bid_idx: None,
            best_ask_idx: None,
            bid_depth: 0,
            ask_depth: 0,
            last_trade: None,
        };
        assert(slots(0, b.bid_qty@) =~= Map::empty());
        assert(slots(0, b.ask_qty@) =~= Map::empty());
        b
    }
}

impl OrderBook for FlatBook {
    closed spec fn wf(&self) -> bool {
        &&& self.bid_qty@.len() == self.ask_qty@.len()
        &&& self.bid_qty@.len() <= MAX_SPAN
        &&& self.inited == (self.bid_qty@.len() > 0)
        &&& side_ok(Side::Bid, self.base, self.bid_qty@, self.best_bid_idx, self.bid_depth)
        &&& side_ok(Side::Ask, self.base, self.ask_qty@, self.best_ask_idx, self.ask_depth)
    }

    closed spec fn model(&self) -> BookModel {
        BookModel {
            bids: slots(self.base, self.bid_qty@),
            asks: slots(self.base, self.ask_qty@),
            last_trade: self.last_trade,
        }
    }

    open spec fn accepts(&self, ev: BookEvent) -> bool {
        ev.kind is Level ==> fits(self.window(), ev.px.0 as int)
    }

    open spec fn covers(&self, lo: int, hi: int) -> bool {
        match self.window() {
            None => Self::fresh_covers(lo, hi),
            Some((a, b)) => {
                &&& b <= i64::MAX
                &&& (a <= lo && hi < b) || {
                    &&& lo - INIT_HALF_SPAN >= i64::MIN
                    &&& hi + 1 + INIT_HALF_SPAN <= i64::MAX
                    &&& hi + 1 + INIT_HALF_SPAN - a <= MAX_SPAN
                    &&& b - (lo - INIT_HALF_SPAN) <= MAX_SPAN
                    &&& hi + 1 + INIT_HALF_SPAN - (lo - INIT_HALF_SPAN) <= MAX_SPAN
                }
            },
        }
    }

    open spec fn fresh_covers(lo: int, hi: int) -> bool {
        &&& lo - INIT_HALF_SPAN >= i64::MIN
        &&& hi + 1 + INIT_HALF_SPAN <= i64::MAX
        &&& hi + 1 + INIT_HALF_SPAN - (lo - INIT_HALF_SPAN) <= MAX_SPAN
    }

    proof fn lemma_default(b: Self) {
    }

    proof fn lemma_covers(&self, lo: int, hi: int, ev: BookEvent) {
    }

    proof fn lemma_finite(&self) {
        lemma_slots_finite(self.base, self.bid_qty@);
        lemma_slots_finite(self.base, self.ask_qty@);
    }

    #[inline]
    fn apply(&mut self, ev: &BookEvent)
        ensures
            final(self).window() == (if ev.kind is Level {
                Some(grow(old(self).window(), ev.px.0 as int))
            } else {
                old(self).window()
            }),
    {
        match ev.kind {
            EventKind::Level => {
                self.ensure_range(ev.px);
                let i: usize = (ev.px.ticks() - self.base) as usize;
                match ev.side {
                    Side::Bid => set_slot(
                        Side::Bid,
                        Ghost(self.base),
                        &mut self.bid_qty,
                        &mut self.best_bid_idx,
                        &mut self.bid_depth,
                        i,
                        ev.qty,
                    ),
                    Side::Ask => set_slot(
                        Side::Ask,
                        Ghost(self.base),
                        &mut self.ask_qty,
                        &mut self.best_ask_idx,
                        &mut self.ask_depth,
                        i,
                        ev.qty,
                    ),
                }
            },
            EventKind::Trade => {
                self.last_trade = Some((ev.px, ev.qty, ev.side));
            },
            EventKind::Clear => {
                zero_fill(&mut self.bid_qty);
                zero_fill(&mut self.ask_qty);
                self.best_bid_idx = None;
                self.best_ask_idx = None;
                self.bid_depth = 0;
                self.ask_depth = 0;
                self.last_trade = None;
                assert(slots(self.base, self.bid_qty@) =~= Map::empty());
                assert(slots(self.base, self.ask_qty@) =~= Map::empty());
            },
        }
    }

    #[inline]
    fn best_bid(&self) -> (r: Option<(Px, Qty)>) {
        proof {
            lemma_cached_best(
                Side::Bid,
                self.base,
                self.bid_qty@,
                self.best_bid_idx,
                self.bid_depth,
            );
        }
        match self.best_bid_idx {
            Some(i) => Some((Px(self.base + i as i64), self.bid_qty[i])),
            None => None,
        }
    }

    #[inline]
    fn best_ask(&self) -> (r: Option<(Px, Qty)>) {
        proof {
            lemma_cached_best(
                Side::Ask,
                self.base,
                self.ask_qty@,
                self.best_ask_idx,
                self.ask_depth,
            );
        }
        match self.best_ask_idx {
            Some(i) => Some((Px(self.base + i as i64), self.ask_qty[i])),
            None => None,
        }
    }

    fn top_n(&self, side: Side, out: &mut [(Px, Qty)]) -> (n: usize) {
        let ghost full = ladder(side, self.model().side(side));
        let ghost before = out@;
        let len: usize = out.len();
        let mut n: usize = 0;
        proof {
            self.lemma_finite();
            lemma_ladder_lists(side, self.model().side(side));
        }
        match side {
            Side::Bid => {
                if let Some(best) = self.best_bid_idx {
                    let mut i: usize = best + 1;
                    while i > 0 && n < len
                        invariant
                            self.wf(),
                            side is Bid,
                            full == ladder(side, self.model().bids),
                            lists(side, self.model().bids, full),
                            len == before.len() == out@.len(),
                            i <= self.bid_qty@.len(),
                            n <= len,
                            n <= full.len(),
                            out@ == full.take(n as int) + before.skip(n as int),
                            forall|k: int|
                                0 <= k < n ==> self.base + i <= (#[trigger] full[k]).0.0,
                            forall|k: int|
                                n <= k < full.len() ==> (#[trigger] full[k]).0.0 < self.base + i,
                        decreases i,
                    {
                        i -= 1;
                        let q = self.bid_qty[i];
                        if !q.is_zero() {
                            let px = Px(self.base + i as i64);
                            proof {
                                assert(self.model().bids.contains_key(px.0));
                                let k = choose|k: int| 0 <= k < full.len() && full[k].0.0 == px.0;
                                assert(k >= n);
                                if k > n {
                                    assert(better(side, full[n as int].0.0, full[k].0.0));
                                }
                                assert(full[n as int] == (px, q));
                                assert forall|k: int| n + 1 <= k < full.len() implies (
                                #[trigger] full[k]).0.0 < self.base + i by {
                                    assert(better(side, full[n as int].0.0, full[k].0.0));
                                }
                            }
                            out[n] = (px, q);
                            n += 1;
                            assert(out@ =~= full.take(n as int) + before.skip(n as int));
                        } else {
                            assert forall|k: int| n <= k < full.len() implies (
                            #[trigger] full[k]).0.0 < self.base + i by {
                                assert(self.model().bids.contains_key(full[k].0.0));
                            }
                        }
                    }
                    proof {
                        if i == 0 && n < full.len() {
                            assert(self.model().bids.contains_key(full[n as int].0.0));
                        }
                    }
                } else {
                    proof {
                        if full.len() > 0 {
                            assert(self.model().bids.contains_key(full[0].0.0));
                        }
                    }
                }
            },
            Side::Ask => {
                if let Some(best) = self.best_ask_idx {
                    let span: usize = self.ask_qty.len();
                    let mut i: usize = best;
                    while i < span && n < len
                        invariant
                            self.wf(),
                            side is Ask,
                            span == self.ask_qty@.len(),
                            full == ladder(side, self.model().asks),
                            lists(side, self.model().asks, full),
                            len == before.len() == out@.len(),
                            i <= span,
                            n <= len,
                            n <= full.len(),
                            out@ == full.take(n as int) + before.skip(n as int),
                            forall|k: int|
                                0 <= k < n ==> (#[trigger] full[k]).0.0 < self.base + i,
                            forall|k: int|
                                n <= k < full.len() ==> self.base + i <= (#[trigger] full[k]).0.0,
                        decreases span - i,
                    {
                        let q = self.ask_qty[i];
                        if !q.is_zero() {
                            let px = Px(self.base + i as i64);
                            proof {
                                assert(self.model().asks.contains_key(px.0));
                                let k = choose|k: int| 0 <= k < full.len() && full[k].0.0 == px.0;
                                assert(k >= n);
                                if k > n {
                                    assert(better(side, full[n as int].0.0, full[k].0.0));
                                }
                                assert(full[n as int] == (px, q));
                                assert forall|k: int| n + 1 <= k < full.len() implies self.base + i
                                    + 1 <= (#[trigger] full[k]).0.0 by {
                                    assert(better(side, full[n as int].0.0, full[k].0.0));
                                }
                            }
                            out[n] = (px, q);
                            n += 1;
                            assert(out@ =~= full.take(n as int) + before.skip(n as int));
                        } else {
                            assert forall|k: int| n <= k < full.len() implies self.base + i + 1 <= (
                            #[trigger] full[k]).0.0 by {
                                assert(self.model().asks.contains_key(full[k].0.0));
                            }
                        }
                        i += 1;
                    }
                    proof {
                        if i == span && n < full.len() {
                            assert(self.model().asks.contains_key(full[n as int].0.0));
                        }
                    }
                } else {
                    proof {
                        if full.len() > 0 {
                            assert(self.model().asks.contains_key(full[0].0.0));
                        }
                    }
                }
            },
        }
        assert(out@ =~= full.take(n as int) + before.skip(n as int));
        n
    }

    #[inline]
    fn depth(&self, side: Side) -> (n: usize) {
        match side {
            Side::Bid => self.bid_depth,
            Side::Ask => self.ask_depth,
        }
    }

    #[inline]
    fn last_trade(&self) -> (r: Option<(Px, Qty, Side)>) {
        self.last_trade
    }
}

/// Whether a new book can take all of `events` in turn.
#[must_use]
pub fn can_hold(events: &[BookEvent]) -> (r: bool)
    ensures
        r == exists|lo: int, hi: int| #[trigger]
            FlatBook::fresh_covers(lo, hi) && levels_within(events@, lo, hi),
{
    let mut range: Option<(i64, i64)> = None;
    let mut i: usize = 0;
    while i < events.len()
        invariant
            i <= events@.len(),
            match range {
                None => forall|k: int| 0 <= k < i ==> !((#[trigger] events@[k]).kind is Level),
                Some((lo, hi)) => {
                    &&& exists|k: int|
                        0 <= k < i && (#[trigger] events@[k]).kind is Level && events@[k].px.0 == lo
                    &&& exists|k: int|
                        0 <= k < i && (#[trigger] events@[k]).kind is Level && events@[k].px.0 == hi
                    &&& forall|k: int|
                        0 <= k < i && (#[trigger] events@[k]).kind is Level ==> lo
                            <= events@[k].px.0 <= hi
                },
            },
        decreases events@.len() - i,
    {
        let ev = events[i];
        if let EventKind::Level = ev.kind {
            assert(events@[i as int].kind is Level);
            range = match range {
                None => Some((ev.px.0, ev.px.0)),
                Some((lo, hi)) => Some(
                    (
                        if ev.px.0 < lo {
                            ev.px.0
                        } else {
                            lo
                        },
                        if ev.px.0 > hi {
                            ev.px.0
                        } else {
                            hi
                        },
                    ),
                ),
            };
        }
        i += 1;
    }
    match range {
        None => {
            assert(FlatBook::fresh_covers(0, 0));
            assert(levels_within(events@, 0, 0));
            true
        },
        Some((lo, hi)) => {
            let margin: i128 = INIT_HALF_SPAN as i128;
            let a: i128 = lo as i128 - margin;
            let b: i128 = hi as i128 + 1 + margin;
            assert(levels_within(events@, lo as int, hi as int));
            let r = a >= i64::MIN as i128 && b <= i64::MAX as i128 && b - a <= MAX_SPAN as i128;
            assert(r == FlatBook::fresh_covers(lo as int, hi as int));
            assert forall|l: int, h: int| #[trigger]
                FlatBook::fresh_covers(l, h) && levels_within(events@, l, h) implies l <= lo && hi
                <= h by {}
            r
        },
    }
}

/// The range that this book covers: any first price that leaves room for a margin of 4096
/// ticks, and then every price that lies no more than eight times two to the twentieth ticks,
/// less both margins, from the first. Within them it takes every event.
pub proof fn law_range_of_prices(p0: int, p: int)
    requires
        i64::MIN + 4_096 <= p0 <= i64::MAX - 4_097,
        i64::MIN + 4_096 <= p <= i64::MAX - 4_097,
    ensures
        fits(None, p0),
        -8_380_415 <= p - p0 <= 8_380_415 ==> fits(Some(grow(None, p0)), p),
        p - p0 > 8_380_415 || p0 - p > 8_380_415 ==> !fits(Some(grow(None, p0)), p),
        grow(None, p0) == (p0 - 4_096, p0 + 4_097),
{
    law_span_of_two_prices(p0, p);
}

} // verus!
