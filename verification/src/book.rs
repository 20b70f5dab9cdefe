//! The `OrderBook` abstraction: one observable state, many representations.

use crate::event::{BookEvent, Side};
use crate::ladder::{
    apply_event, best, is_best, ladder, lemma_best_exists, lemma_best_is, lemma_ladder_lists, lists,
    replay, set_level, BookModel, Levels,
};
use crate::price::{Px, Qty};
use vstd::prelude::*;

verus! {

/// An aggregated price-level book. Implementations differ in how they hold the
/// levels; every method is specified over the same [`BookModel`], so for any
/// stream of events all of them are observed alike.
pub trait OrderBook: Default {
    /// The representation invariant.
    spec fn wf(&self) -> bool;

    /// The observable state.
    spec fn model(&self) -> BookModel;

    /// Whether the representation can take `ev` in its present state.
    spec fn accepts(&self, ev: BookEvent) -> bool;

    /// Whether the representation can take every event with prices in `lo..=hi`,
    /// now and after any such event.
    spec fn covers(&self, lo: int, hi: int) -> bool;

    /// `covers` for a book without history.
    spec fn fresh_covers(lo: int, hi: int) -> bool;

    /// A default book is empty.
    proof fn lemma_default(b: Self)
        requires
            call_ensures(<Self as Default>::default, (), b),
        ensures
            b.wf(),
            b.model() == BookModel::empty(),
            forall|lo: int, hi: int| b.covers(lo, hi) == Self::fresh_covers(lo, hi),
    ;

    /// A covered price range admits its events.
    proof fn lemma_covers(&self, lo: int, hi: int, ev: BookEvent)
        requires
            self.wf(),
            self.covers(lo, hi),
            ev.kind is Level ==> lo <= ev.px.0 <= hi,
        ensures
            self.accepts(ev),
    ;

    /// The levels of a well-formed book are finitely many.
    proof fn lemma_finite(&self)
        requires
            self.wf(),
        ensures
            self.model().bids.dom().finite(),
            self.model().asks.dom().finite(),
    ;

    /// Applies one event.
    fn apply(&mut self, ev: &BookEvent)
        requires
            old(self).wf(),
            old(self).accepts(*ev),
        ensures
            final(self).wf(),
            final(self).model() == apply_event(old(self).model(), *ev),
            forall|lo: int, hi: int|
                #![trigger final(self).covers(lo, hi)]
                old(self).covers(lo, hi) && (ev.kind is Level ==> lo <= ev.px.0 <= hi)
                    ==> final(self).covers(lo, hi),
    ;

    /// The highest bid, if there is one.
    fn best_bid(&self) -> (r: Option<(Px, Qty)>)
        requires
            self.wf(),
        ensures
            r == best(Side::Bid, self.model().bids),
    ;

    /// The lowest ask, if there is one.
    fn best_ask(&self) -> (r: Option<(Px, Qty)>)
        requires
            self.wf(),
        ensures
            r == best(Side::Ask, self.model().asks),
    ;

    /// Copies the best `out.len()` levels of `side` into `out`, best first, and
    /// returns how many there were; the rest of `out` keeps its contents.
    fn top_n(&self, side: Side, out: &mut [(Px, Qty)]) -> (n: usize)
        requires
            self.wf(),
        ensures
            final(out)@.len() == old(out)@.len(),
            n == (if old(out)@.len() <= ladder(side, self.model().side(side)).len() {
                old(out)@.len()
            } else {
                ladder(side, self.model().side(side)).len()
            }),
            final(out)@ == ladder(side, self.model().side(side)).take(n as int)
                + old(out)@.skip(n as int),
    ;

    /// The number of levels on `side`.
    fn depth(&self, side: Side) -> (n: usize)
        requires
            self.wf(),
        ensures
            n == self.model().side(side).dom().len(),
    ;

    /// The last execution since the last clear.
    fn last_trade(&self) -> (r: Option<(Px, Qty, Side)>)
        requires
            self.wf(),
        ensures
            r == self.model().last_trade,
    ;
}

/// Whether `b` can take all of `events` in turn: they stay in a covered range.
pub open spec fn can_replay<B: OrderBook>(b: B, events: Seq<BookEvent>) -> bool {
    exists|lo: int, hi: int| #[trigger] b.covers(lo, hi) && levels_within(events, lo, hi)
}

/// Whether every level event has its price in `lo..=hi`.
pub open spec fn levels_within(events: Seq<BookEvent>, lo: int, hi: int) -> bool {
    forall|i: int|
        0 <= i < events.len() && (#[trigger] events[i]).kind is Level ==> lo <= events[i].px.0
            <= hi
}

/// Applies a stream of events in order.
pub fn replay_all<B: OrderBook>(b: &mut B, events: &[BookEvent])
    requires
        old(b).wf(),
        can_replay(*old(b), events@),
    ensures
        final(b).wf(),
        final(b).model() == replay(old(b).model(), events@),
{
    let ghost start = b.model();
    let ghost (lo, hi): (int, int) = choose|lo: int, hi: int| #[trigger]
        b.covers(lo, hi) && levels_within(events@, lo, hi);
    assert(events@.take(0) =~= Seq::empty());
    let mut i: usize = 0;
    while i < events.len()
        invariant
            i <= events@.len(),
            b.wf(),
            b.covers(lo, hi),
            b.model() == replay(start, events@.take(i as int)),
            levels_within(events@, lo, hi),
        decreases events@.len() - i,
    {
        proof {
            b.lemma_covers(lo, hi, events@[i as int]);
            assert(events@.take(i + 1).drop_last() =~= events@.take(i as int));
        }
        b.apply(&events[i]);
        i += 1;
    }
    assert(events@.take(i as int) =~= events@);
}

/// Any two books that have taken the same stream are observed alike: the same
/// bests, depths, last trade and, level by level, the same ladders.
pub proof fn law_books_agree<A: OrderBook, B: OrderBook>(
    a: &A,
    b: &B,
    events: Seq<BookEvent>,
    side: Side,
    bids: (Option<(Px, Qty)>, Option<(Px, Qty)>),
    asks: (Option<(Px, Qty)>, Option<(Px, Qty)>),
    depths: (usize, usize),
    trades: (Option<(Px, Qty, Side)>, Option<(Px, Qty, Side)>),
)
    requires
        a.wf(),
        b.wf(),
        a.model() == replay(BookModel::empty(), events),
        b.model() == replay(BookModel::empty(), events),
        call_ensures(A::best_bid, (a,), bids.0),
        call_ensures(B::best_bid, (b,), bids.1),
        call_ensures(A::best_ask, (a,), asks.0),
        call_ensures(B::best_ask, (b,), asks.1),
        call_ensures(A::depth, (a, side), depths.0),
        call_ensures(B::depth, (b, side), depths.1),
        call_ensures(A::last_trade, (a,), trades.0),
        call_ensures(B::last_trade, (b,), trades.1),
    ensures
        bids.0 == bids.1,
        asks.0 == asks.1,
        depths.0 == depths.1,
        trades.0 == trades.1,
        ladder(side, a.model().side(side)) == ladder(side, b.model().side(side)),
        depths.0 == ladder(side, a.model().side(side)).len(),
{
    a.lemma_finite();
    lemma_ladder_lists(side, a.model().side(side));
}

/// The best level is the first of the ladder, and the ladder has one entry for
/// each level, strictly from better to worse.
pub proof fn law_ladder_starts_at_best(side: Side, levels: Levels)
    requires
        levels.dom().finite(),
    ensures
        lists(side, levels, ladder(side, levels)),
        ladder(side, levels).len() == levels.dom().len(),
        best(side, levels) == (if levels.dom().len() > 0 {
            Some(ladder(side, levels)[0])
        } else {
            None
        }),
{
    lemma_ladder_lists(side, levels);
}

/// The last quantity written at a price is the one that stands.
pub proof fn law_last_write_wins(m: BookModel, first: BookEvent, second: BookEvent)
    requires
        first.kind is Level,
        second.kind is Level,
        first.side == second.side,
        first.px == second.px,
    ensures
        apply_event(apply_event(m, first), second) == apply_event(m, second),
{
    let l = m.side(first.side);
    assert(set_level(set_level(l, first.px.0, first.qty.0), second.px.0, second.qty.0)
        =~= set_level(l, second.px.0, second.qty.0));
}

/// Levels set at different places do not disturb each other, so the order in
/// which a ladder is built does not matter.
pub proof fn law_distinct_levels_commute(m: BookModel, x: BookEvent, y: BookEvent)
    requires
        x.kind is Level,
        y.kind is Level,
        x.side != y.side || x.px != y.px,
    ensures
        apply_event(apply_event(m, x), y) == apply_event(apply_event(m, y), x),
{
    let l = m.side(x.side);
    assert(set_level(set_level(l, x.px.0, x.qty.0), y.px.0, y.qty.0) =~= set_level(
        set_level(l, y.px.0, y.qty.0),
        x.px.0,
        x.qty.0,
    ) || x.side != y.side);
}

/// Removing a level that is not there changes nothing.
pub proof fn law_remove_absent_is_noop(m: BookModel, ev: BookEvent)
    requires
        ev.kind is Level,
        ev.qty.0 == 0,
        !m.side(ev.side).contains_key(ev.px.0),
    ensures
        apply_event(m, ev) == m,
{
    assert(m.side(ev.side).remove(ev.px.0) =~= m.side(ev.side));
}

/// A level set and then removed leaves the book as it was, if there was none at
/// that price before.
pub proof fn law_remove_undoes_insert(m: BookModel, set: BookEvent, unset: BookEvent)
    requires
        set.kind is Level,
        unset.kind is Level,
        set.side == unset.side,
        set.px == unset.px,
        unset.qty.0 == 0,
        !m.side(set.side).contains_key(set.px.0),
    ensures
        apply_event(apply_event(m, set), unset) == m,
{
    law_last_write_wins(m, set, unset);
    law_remove_absent_is_noop(m, unset);
}

/// A trade moves no level and a level moves no trade.
pub proof fn law_trades_and_levels_are_apart(m: BookModel, ev: BookEvent)
    ensures
        ev.kind is Trade ==> apply_event(m, ev).bids == m.bids && apply_event(m, ev).asks == m.asks,
        ev.kind is Level ==> apply_event(m, ev).last_trade == m.last_trade,
{
}

/// What came before a clear leaves no trace after it.
pub proof fn law_clear_forgets(m: BookModel, before: Seq<BookEvent>, c: BookEvent, after: Seq<BookEvent>)
    requires
        c.kind is Clear,
    ensures
        replay(m, before.push(c) + after) == replay(BookModel::empty(), after),
    decreases after.len(),
{
    let all = before.push(c) + after;
    if after.len() == 0 {
        assert(all =~= before.push(c));
        assert(all.drop_last() =~= before);
    } else {
        law_clear_forgets(m, before, c, after.drop_last());
        assert(all.drop_last() =~= before.push(c) + after.drop_last());
        assert(all.last() == after.last());
    }
}

/// What stands at a price after an event. A level puts its quantity at its own price
/// on its own side, where zero leaves nothing, and leaves every other price, the other
/// side and the last trade alone. A trade leaves all levels alone and is itself the last
/// trade: its price, its quantity and its aggressor. A clear leaves nothing.
pub proof fn law_event_by_price(m: BookModel, ev: BookEvent, p: i64)
    ensures
        ({
            let n = apply_event(m, ev);
            &&& ev.kind is Level && ev.side is Bid ==> {
                &&& p == ev.px.0 ==> (n.bids.contains_key(p) <==> ev.qty.0 != 0)
                &&& p == ev.px.0 && ev.qty.0 != 0 ==> n.bids[p] == ev.qty.0
                &&& p != ev.px.0 ==> (n.bids.contains_key(p) <==> m.bids.contains_key(p))
                &&& p != ev.px.0 ==> n.bids[p] == m.bids[p]
                &&& n.asks == m.asks
                &&& n.last_trade == m.last_trade
            }
            &&& ev.kind is Level && ev.side is Ask ==> {
                &&& p == ev.px.0 ==> (n.asks.contains_key(p) <==> ev.qty.0 != 0)
                &&& p == ev.px.0 && ev.qty.0 != 0 ==> n.asks[p] == ev.qty.0
                &&& p != ev.px.0 ==> (n.asks.contains_key(p) <==> m.asks.contains_key(p))
                &&& p != ev.px.0 ==> n.asks[p] == m.asks[p]
                &&& n.bids == m.bids
                &&& n.last_trade == m.last_trade
            }
            &&& ev.kind is Trade ==> {
                &&& n.bids == m.bids
                &&& n.asks == m.asks
                &&& n.last_trade == Some((ev.px, ev.qty, ev.side))
            }
            &&& ev.kind is Clear ==> {
                &&& !n.bids.contains_key(p)
                &&& !n.asks.contains_key(p)
                &&& n.last_trade is None
            }
        }),
{
}

/// Whether an event decides what stands at a price of a side: it is a level of that
/// price and side, or a clear.
pub open spec fn decides(ev: BookEvent, side: Side, p: i64) -> bool {
    ev.kind is Clear || (ev.kind is Level && ev.side == side && ev.px.0 == p)
}

/// What stands at a price after a stream is what the last event that decides it says: a
/// quantity where that is a level, nothing where it is a level of zero or a clear.
pub proof fn law_last_deciding_event_stands(
    m: BookModel,
    events: Seq<BookEvent>,
    i: int,
    side: Side,
    p: i64,
)
    requires
        0 <= i < events.len(),
        decides(events[i], side, p),
        forall|j: int| i < j < events.len() ==> !decides(#[trigger] events[j], side, p),
    ensures
        ({
            let n = replay(m, events);
            let here = if side is Bid { n.bids } else { n.asks };
            &&& here.contains_key(p) <==> events[i].kind is Level && events[i].qty.0 != 0
            &&& here.contains_key(p) ==> here[p] == events[i].qty.0
        }),
    decreases events.len(),
{
    if i < events.len() - 1 {
        let front = events.drop_last();
        assert(front[i] == events[i]);
        assert(forall|j: int| i < j < front.len() ==> !decides(#[trigger] front[j], side, p)) by {
            assert forall|j: int| i < j < front.len() implies !decides(
                #[trigger] front[j],
                side,
                p,
            ) by {
                assert(front[j] == events[j]);
            }
        }
        law_last_deciding_event_stands(m, front, i, side, p);
        assert(!decides(events[events.len() - 1], side, p));
    }
}

/// A price that no event of a stream decides keeps what stood there.
pub proof fn law_undecided_price_stays(m: BookModel, events: Seq<BookEvent>, side: Side, p: i64)
    requires
        forall|j: int| 0 <= j < events.len() ==> !decides(#[trigger] events[j], side, p),
    ensures
        ({
            let n = replay(m, events);
            let was = if side is Bid { m.bids } else { m.asks };
            let here = if side is Bid { n.bids } else { n.asks };
            &&& here.contains_key(p) <==> was.contains_key(p)
            &&& here[p] == was[p]
        }),
    decreases events.len(),
{
    if events.len() > 0 {
        let front = events.drop_last();
        assert forall|j: int| 0 <= j < front.len() implies !decides(#[trigger] front[j], side, p) by {
            assert(front[j] == events[j]);
        }
        law_undecided_price_stays(m, front, side, p);
        assert(!decides(events[events.len() - 1], side, p));
    }
}

/// The last trade after a stream is the last execution in it, as long as no clear comes
/// later, with the price, the quantity and the aggressor of that event. After a clear
/// that no execution follows there is none, and a stream without either keeps the one
/// from before.
pub proof fn law_last_trade_is_the_last_execution(m: BookModel, events: Seq<BookEvent>, i: int)
    requires
        0 <= i <= events.len(),
        forall|j: int| i <= j < events.len() ==> (#[trigger] events[j]).kind is Level,
    ensures
        replay(m, events).last_trade == (if i == 0 {
            m.last_trade
        } else if events[i - 1].kind is Trade {
            Some((events[i - 1].px, events[i - 1].qty, events[i - 1].side))
        } else if events[i - 1].kind is Clear {
            None
        } else {
            replay(m, events.take(i)).last_trade
        }),
    decreases events.len(),
{
    if i < events.len() {
        let front = events.drop_last();
        assert forall|j: int| i <= j < front.len() implies (#[trigger] front[j]).kind is Level by {
            assert(front[j] == events[j]);
        }
        law_last_trade_is_the_last_execution(m, front, i);
        assert(events[events.len() - 1].kind is Level);
        assert(front.take(i) =~= events.take(i));
        if i > 0 {
            assert(front[i - 1] == events[i - 1]);
        }
    } else {
        assert(events.take(i) =~= events);
    }
}

/// The best bid of a book is the highest price that it holds a bid at, with the quantity
/// that stands there, and the best ask is the lowest price that it holds an ask at. A
/// side reports none exactly when it is empty, whatever the other side holds.
pub proof fn law_bests_are_the_extremes<B: OrderBook>(
    b: &B,
    bid: Option<(Px, Qty)>,
    ask: Option<(Px, Qty)>,
)
    requires
        b.wf(),
        call_ensures(B::best_bid, (b,), bid),
        call_ensures(B::best_ask, (b,), ask),
    ensures
        bid is None <==> forall|p: i64| !b.model().bids.contains_key(p),
        bid matches Some((p, q)) ==> {
            &&& b.model().bids.contains_key(p.0)
            &&& b.model().bids[p.0] == q.0
            &&& forall|o: i64| b.model().bids.contains_key(o) ==> o <= p.0
        },
        ask is None <==> forall|p: i64| !b.model().asks.contains_key(p),
        ask matches Some((p, q)) ==> {
            &&& b.model().asks.contains_key(p.0)
            &&& b.model().asks[p.0] == q.0
            &&& forall|o: i64| b.model().asks.contains_key(o) ==> p.0 <= o
        },
{
    b.lemma_finite();
    lemma_best_is_extreme(Side::Bid, b.model().bids);
    lemma_best_is_extreme(Side::Ask, b.model().asks);
}

/// The best level of a side in plain terms.
pub proof fn lemma_best_is_extreme(side: Side, levels: Levels)
    requires
        levels.dom().finite(),
    ensures
        best(side, levels) is None <==> forall|p: i64| !levels.contains_key(p),
        best(side, levels) matches Some((p, q)) ==> {
            &&& levels.contains_key(p.0)
            &&& levels[p.0] == q.0
            &&& forall|o: i64|
                levels.contains_key(o) ==> (if side is Bid {
                    o <= p.0
                } else {
                    p.0 <= o
                })
        },
{
    if levels.dom().len() > 0 {
        lemma_best_exists(side, levels);
        let p = choose|p: i64| is_best(side, levels, p);
        lemma_best_is(side, levels, p);
        assert(levels.contains_key(p));
    } else {
        assert(levels.dom() =~= Set::empty());
        lemma_ladder_lists(side, levels);
        assert forall|p: i64| !levels.contains_key(p) by {
            assert(!levels.dom().contains(p));
        }
    }
}

/// What a ladder lists: bids from the highest price down, asks from the lowest up, each
/// with the quantity that stands there, and every price of the side once.
pub proof fn law_ladder_by_price(levels: Levels, i: int, j: int, p: i64)
    requires
        levels.dom().finite(),
    ensures
        ({
            let bids = ladder(Side::Bid, levels);
            let asks = ladder(Side::Ask, levels);
            &&& bids.len() == levels.dom().len() == asks.len()
            &&& 0 <= i < j < bids.len() ==> bids[i].0.0 > bids[j].0.0 && asks[i].0.0 < asks[j].0.0
            &&& 0 <= i < bids.len() ==> {
                &&& levels.contains_key(bids[i].0.0)
                &&& bids[i].1.0 == levels[bids[i].0.0]
                &&& levels.contains_key(asks[i].0.0)
                &&& asks[i].1.0 == levels[asks[i].0.0]
            }
            &&& levels.contains_key(p) ==> {
                &&& exists|k: int| 0 <= k < bids.len() && #[trigger] bids[k].0.0 == p
                &&& exists|k: int| 0 <= k < asks.len() && #[trigger] asks[k].0.0 == p
            }
        }),
{
    lemma_ladder_lists(Side::Bid, levels);
    lemma_ladder_lists(Side::Ask, levels);
}

} // verus!
