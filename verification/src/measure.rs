//! Timed touches on a book of a given depth, and paced runs of a stream. Whatever the
//! clock says, a measurement leaves the book at its depth; what it records are the times
//! between the readings that it made; and what it says of each reading is the state of
//! the book then, so that what stands between two readings shows.

use crate::book::{can_replay, law_remove_undoes_insert, levels_within, replay_all, OrderBook};
use crate::clock::{elapsed, median, median_of, spans, Reading, Seen, Stopwatch};
use crate::event::{BookEvent, EventKind, Side};
use crate::ladder::{apply_event, best, ladder, replay, BookModel};
use crate::price::{Px, Qty};
use crate::recorder::{Recorder, CEILING_NS};
use crate::rng::{lemma_later_values, mix, step, value, SplitMix64};
use crate::schedule::{late_ns, lateness, Schedule};
use crate::sweep::{next_qty, rng_side};
use crate::workload::{
    flips, gap_price, law_gap_is_unoccupied, level_price, stairs, touch_price, touched, Locality,
    STEP,
};
use quanta::Clock;
use std::hint::black_box;
use vstd::multiset::Multiset;
use vstd::prelude::*;

verus! {

/// A ladder of levels around a middle price, and where in it touches land.
#[derive(Clone, Copy, PartialEq, Eq, Structural, Debug)]
pub struct Ground {
    /// The middle price.
    pub mid: Px,
    /// Levels on each side.
    pub depth: usize,
    /// Where touches land.
    pub loc: Locality,
}

/// How many touches are made, and how many of them are timed.
#[derive(Clone, Copy, PartialEq, Eq, Structural, Debug)]
pub struct Plan {
    /// Touches before any is timed.
    pub warmup: u64,
    /// Touches that are timed.
    pub samples: u64,
    /// Where the stream of touches starts.
    pub seed: u64,
}

impl Plan {
    /// All touches.
    pub open spec fn total(self) -> nat {
        (self.warmup + self.samples) as nat
    }
}

impl Ground {
    /// There is a level, and all of them are machine prices.
    pub open spec fn wf(self) -> bool {
        &&& 1 <= self.depth <= i64::MAX
        &&& i64::MIN <= self.lowest()
        &&& self.highest() <= i64::MAX
    }

    /// The lowest price of the ladder.
    pub open spec fn lowest(self) -> int {
        self.mid.0 - STEP * self.depth
    }

    /// The highest price of the ladder.
    pub open spec fn highest(self) -> int {
        self.mid.0 + STEP * self.depth
    }

    /// A book has the levels of the ladder and no others.
    pub open spec fn levelled(self, m: BookModel) -> bool {
        let s = stairs(self.mid.0 as int, self.depth as int);
        m.bids.dom() == s.bids.dom() && m.asks.dom() == s.asks.dom()
    }

    /// A book can be measured on.
    pub open spec fn fits<B: OrderBook>(self, b: B) -> bool {
        &&& b.wf()
        &&& b.covers(self.lowest(), self.highest())
        &&& self.levelled(b.model())
    }

    /// The side and the price of a touch that is drawn from `state`, and the state
    /// after it.
    pub open spec fn drawn(self, state: u64) -> (Side, Px, u64) {
        let s = step(state);
        let side = if mix(s) & 1 == 0 {
            Side::Bid
        } else {
            Side::Ask
        };
        let (off, after) = touched(s, self.depth as nat, self.loc);
        (side, Px(level_price(self.mid.0 as int, side, off as int + 1) as i64), after)
    }

    /// Draws the side and the price of a touch.
    fn draw(self, rng: &mut SplitMix64) -> (r: (Side, Px))
        requires
            self.wf(),
        ensures
            (r.0, r.1, final(rng)@) == self.drawn(old(rng)@),
            stairs(self.mid.0 as int, self.depth as int).side(r.0).contains_key(r.1.0),
            self.lowest() <= r.1.0 <= self.highest(),
            match r.0 {
                Side::Bid => r.1.0 < self.mid.0,
                Side::Ask => r.1.0 > self.mid.0,
            },
    {
        let side = rng_side(rng);
        let px = touch_price(rng, self.mid, self.depth, side, self.loc);
        (side, px)
    }
}

/// The quantity that follows `q` in a stream of updates.
pub open spec fn following(q: i64) -> i64 {
    (q.wrapping_add(1) & 0x7FFF) | 1
}

/// The book after `n` updates drawn from `state`, the state then and the last quantity.
pub open spec fn updated(
    g: Ground,
    m: BookModel,
    state: u64,
    q: i64,
    n: nat,
) -> (BookModel, u64, i64)
    decreases n,
{
    if n == 0 {
        (m, state, q)
    } else {
        let before = updated(g, m, state, q, (n - 1) as nat);
        let (side, px, after) = g.drawn(before.1);
        let qty = following(before.2);
        (apply_event(before.0, level_event(side, px, qty)), after, qty)
    }
}

/// The event that sets a level.
pub open spec fn level_event(side: Side, px: Px, qty: i64) -> BookEvent {
    BookEvent { seq: 0, ts: 0, side, px, qty: Qty(qty), kind: EventKind::Level }
}

/// The values of a recorder after one more latency.
pub open spec fn with_latency(m: Multiset<u64>, ns: u64) -> Multiset<u64> {
    if ns >= CEILING_NS {
        m
    } else if ns == 0 {
        m.insert(1)
    } else {
        m.insert(ns)
    }
}

/// The values of a recorder that was given these latencies, one after the other.
pub open spec fn recorded(latencies: Seq<u64>) -> Multiset<u64>
    decreases latencies.len(),
{
    if latencies.len() == 0 {
        Multiset::empty()
    } else {
        with_latency(recorded(latencies.drop_last()), latencies.last())
    }
}

/// Whether `n` more readings were made.
pub open spec fn read_on(before: Seq<Reading>, after: Seq<Reading>, n: nat) -> bool {
    after.len() == before.len() + n && after.take(before.len() as int) == before
}

/// What stood ready at the two readings of pair `i`.
pub open spec fn around(made: Seq<Reading>, i: int) -> (Seen, Seen) {
    (made[2 * i].seen, made[2 * i + 1].seen)
}

/// Whether `n` pairs of readings are all that was read meanwhile, with what `views` says
/// standing ready at each.
pub open spec fn paired(
    before: Seq<Reading>,
    after: Seq<Reading>,
    n: nat,
    views: spec_fn(int) -> (Seen, Seen),
) -> bool {
    &&& read_on(before, after, 2 * n)
    &&& forall|i: int|
        0 <= i < n ==> #[trigger] around(after.skip(before.len() as int), i) == views(i)
}

/// Whether a recorder was given the times between the readings of `n` pairs, which are
/// all that was read meanwhile, with what `views` says standing ready at each.
pub open spec fn took(
    rec: Recorder,
    c: Clock,
    before: Seq<Reading>,
    after: Seq<Reading>,
    n: nat,
    views: spec_fn(int) -> (Seen, Seen),
) -> bool {
    &&& rec.wf()
    &&& paired(before, after, n, views)
    &&& rec@ == recorded(spans(c, after.skip(before.len() as int)))
}

/// One more pair of readings.
proof fn lemma_pair(
    c: Clock,
    before: Seq<Reading>,
    now: Seq<Reading>,
    r0: Reading,
    r1: Reading,
    n: nat,
    views: spec_fn(int) -> (Seen, Seen),
)
    requires
        paired(before, now, n, views),
        views(n as int) == (r0.seen, r1.seen),
    ensures
        paired(before, now.push(r0).push(r1), n + 1, views),
        spans(c, now.push(r0).push(r1).skip(before.len() as int)) == spans(
            c,
            now.skip(before.len() as int),
        ).push(elapsed(c, r0.at, r1.at)),
{
    let k = before.len() as int;
    let after = now.push(r0).push(r1);
    assert(after.take(k) =~= now.take(k));
    let old = now.skip(k);
    let new = after.skip(k);
    assert(new =~= old.push(r0).push(r1));
    assert(old.len() == 2 * n);
    assert(spans(c, new) =~= spans(c, old).push(elapsed(c, r0.at, r1.at)));
    assert forall|i: int| 0 <= i < n + 1 implies #[trigger] around(new, i) == views(i) by {
        if i < n {
            assert(around(old, i) == views(i));
            assert(new[2 * i] == old[2 * i] && new[2 * i + 1] == old[2 * i + 1]);
        } else {
            assert(new[2 * i] == r0 && new[2 * i + 1] == r1);
        }
    }
}

/// One more latency.
proof fn lemma_took(
    old_rec: Recorder,
    rec: Recorder,
    c: Clock,
    before: Seq<Reading>,
    now: Seq<Reading>,
    r0: Reading,
    r1: Reading,
    n: nat,
    views: spec_fn(int) -> (Seen, Seen),
)
    requires
        took(old_rec, c, before, now, n, views),
        rec.wf(),
        rec@ == with_latency(old_rec@, elapsed(c, r0.at, r1.at)),
        views(n as int) == (r0.seen, r1.seen),
    ensures
        took(rec, c, before, now.push(r0).push(r1), n + 1, views),
{
    lemma_pair(c, before, now, r0, r1, n, views);
    let l = spans(c, now.skip(before.len() as int));
    let ns = elapsed(c, r0.at, r1.at);
    assert(l.push(ns).drop_last() =~= l);
    assert(l.push(ns).last() == ns);
}

/// A recorder without values was given no latency.
proof fn lemma_took_none(
    rec: Recorder,
    c: Clock,
    before: Seq<Reading>,
    views: spec_fn(int) -> (Seen, Seen),
)
    requires
        rec.wf(),
        rec@ == Multiset::<u64>::empty(),
    ensures
        took(rec, c, before, before, 0, views),
{
    assert(before.take(before.len() as int) =~= before);
    assert(spans(c, before.skip(before.len() as int)) =~= Seq::<u64>::empty());
}

/// Whether a recorder was given the time between two readings, `r0` and `r1`, which are
/// all that was read meanwhile.
spec fn sampled(
    c: Clock,
    before: Seq<Reading>,
    after: Seq<Reading>,
    r0: Reading,
    r1: Reading,
    old_rec: Recorder,
    rec: Recorder,
) -> bool {
    &&& after == before.push(r0).push(r1)
    &&& rec.wf()
    &&& rec@ == with_latency(old_rec@, elapsed(c, r0.at, r1.at))
}

/// Applies one event between two readings of the clock and records the time between
/// them: the book is as before at the first, and as after at the second.
fn timed<B: OrderBook>(w: &mut Stopwatch<'_>, book: &mut B, ev: &BookEvent, rec: &mut Recorder)
    requires
        old(book).wf(),
        old(book).accepts(*ev),
        old(rec).wf(),
    ensures
        final(book).wf(),
        final(book).model() == apply_event(old(book).model(), *ev),
        forall|lo: int, hi: int|
            #![trigger final(book).covers(lo, hi)]
            old(book).covers(lo, hi) && (ev.kind is Level ==> lo <= ev.px.0 <= hi)
                ==> final(book).covers(lo, hi),
        final(rec).wf(),
        final(w).source() == old(w).source(),
        exists|r0: Reading, r1: Reading|
            {
                &&& #[trigger] sampled(
                    old(w).source(),
                    old(w).readings(),
                    final(w).readings(),
                    r0,
                    r1,
                    *old(rec),
                    *final(rec),
                )
                &&& r0.seen == Seen::Book(old(book).model())
                &&& r1.seen == Seen::Book(final(book).model())
            },
{
    let t0: u64 = w.read(Ghost(Seen::Book(book.model())));
    book.apply(black_box(ev));
    let t1: u64 = w.read(Ghost(Seen::Book(book.model())));
    let ns: u64 = w.delta_ns(t0, t1);
    rec.record(ns);
    proof {
        let r0 = Reading { at: t0, seen: Seen::Book(old(book).model()) };
        let r1 = Reading { at: t1, seen: Seen::Book(book.model()) };
        assert(sampled(
            old(w).source(),
            old(w).readings(),
            w.readings(),
            r0,
            r1,
            *old(rec),
            *rec,
        ));
    }
}

/// Takes a timed event into the account.
proof fn lemma_sampled(
    c: Clock,
    first: Seq<Reading>,
    before: Seq<Reading>,
    after: Seq<Reading>,
    m0: BookModel,
    m1: BookModel,
    old_rec: Recorder,
    rec: Recorder,
    n: nat,
    views: spec_fn(int) -> (Seen, Seen),
)
    requires
        took(old_rec, c, first, before, n, views),
        views(n as int) == (Seen::Book(m0), Seen::Book(m1)),
        exists|r0: Reading, r1: Reading|
            {
                &&& #[trigger] sampled(c, before, after, r0, r1, old_rec, rec)
                &&& r0.seen == Seen::Book(m0)
                &&& r1.seen == Seen::Book(m1)
            },
    ensures
        took(rec, c, first, after, n + 1, views),
{
    let (r0, r1) = choose|r0: Reading, r1: Reading|
        {
            &&& #[trigger] sampled(c, before, after, r0, r1, old_rec, rec)
            &&& r0.seen == Seen::Book(m0)
            &&& r1.seen == Seen::Book(m1)
        };
    lemma_took(old_rec, rec, c, first, before, r0, r1, n, views);
}

/// Setting the quantity of a level that is there changes no level's place.
proof fn lemma_update_keeps_levels(g: Ground, m: BookModel, side: Side, px: Px, qty: i64)
    requires
        g.levelled(m),
        qty != 0,
        stairs(g.mid.0 as int, g.depth as int).side(side).contains_key(px.0),
    ensures
        g.levelled(apply_event(m, level_event(side, px, qty))),
        apply_event(m, level_event(side, px, qty)).last_trade == m.last_trade,
{
    let after = apply_event(m, level_event(side, px, qty));
    match side {
        Side::Bid => {
            assert(m.bids.dom().contains(px.0));
            assert(after.bids.dom() =~= m.bids.dom());
        },
        Side::Ask => {
            assert(m.asks.dom().contains(px.0));
            assert(after.asks.dom() =~= m.asks.dom());
        },
    }
}

/// The book before and after each timed update.
pub open spec fn update_views(g: Ground, m: BookModel, plan: Plan) -> spec_fn(int) -> (Seen, Seen) {
    |i: int|
        (
            Seen::Book(updated(g, m, plan.seed, 1, (plan.warmup + i) as nat).0),
            Seen::Book(updated(g, m, plan.seed, 1, (plan.warmup + i + 1) as nat).0),
        )
}

/// Times changes of a quantity at a level that is there: the cost of finding it. The
/// levels stay where they are, and what the touches leave behind is what their stream
/// says.
pub fn measure_update<B: OrderBook>(
    w: &mut Stopwatch<'_>,
    book: &mut B,
    g: Ground,
    plan: Plan,
) -> (rec: Recorder)
    requires
        g.wf(),
        g.fits(*old(book)),
    ensures
        g.fits(*final(book)),
        final(book).model() == updated(g, old(book).model(), plan.seed, 1, plan.total()).0,
        final(book).model().last_trade == old(book).model().last_trade,
        final(w).source() == old(w).source(),
        took(
            rec,
            old(w).source(),
            old(w).readings(),
            final(w).readings(),
            plan.samples as nat,
            update_views(g, old(book).model(), plan),
        ),
{
    let mut rng = SplitMix64::new(plan.seed);
    let mut q: i64 = 1;
    let mut rec = Recorder::new();
    let ghost c = w.source();
    let ghost first = w.readings();
    let ghost start = book.model();
    let ghost views = update_views(g, start, plan);
    proof {
        lemma_took_none(rec, c, first, views);
    }
    let mut i: u64 = 0;
    while i < plan.warmup
        invariant
            i <= plan.warmup,
            g.wf(),
            g.fits(*book),
            book.model().last_trade == start.last_trade,
            (book.model(), rng@, q) == updated(g, start, plan.seed, 1, i as nat),
        decreases plan.warmup - i,
    {
        let (side, px) = g.draw(&mut rng);
        let qty = next_qty(q);
        q = qty.0;
        let ev = BookEvent::level(0, 0, side, px, qty);
        proof {
            book.lemma_covers(g.lowest(), g.highest(), ev);
            lemma_update_keeps_levels(g, book.model(), side, px, q);
        }
        book.apply(&ev);
        i += 1;
    }
    let mut k: u64 = 0;
    while k < plan.samples
        invariant
            k <= plan.samples,
            g.wf(),
            g.fits(*book),
            book.model().last_trade == start.last_trade,
            (book.model(), rng@, q) == updated(g, start, plan.seed, 1, (plan.warmup + k) as nat),
            w.source() == c,
            views == update_views(g, start, plan),
            took(rec, c, first, w.readings(), k as nat, views),
        decreases plan.samples - k,
    {
        let (side, px) = g.draw(&mut rng);
        let qty = next_qty(q);
        q = qty.0;
        let ev = BookEvent::level(0, 0, side, px, qty);
        proof {
            book.lemma_covers(g.lowest(), g.highest(), ev);
            lemma_update_keeps_levels(g, book.model(), side, px, q);
        }
        let ghost (now, was, m0) = (w.readings(), rec, book.model());
        timed(w, book, &ev, &mut rec);
        proof {
            let m1 = book.model();
            assert(m1 == updated(g, start, plan.seed, 1, (plan.warmup + k + 1) as nat).0);
            lemma_sampled(c, first, now, w.readings(), m0, m1, was, rec, k as nat, views);
        }
        k += 1;
    }
    let _ = black_box(book.best_bid());
    rec
}

/// Which half of a visit to a gap is timed.
#[derive(Clone, Copy, PartialEq, Eq, Structural, Debug)]
pub enum Half {
    /// The new level.
    Insert,
    /// Its removal.
    Remove,
}

/// The quantity of visit `n` to a gap.
pub open spec fn quantity(n: nat) -> i64
    decreases n,
{
    if n == 0 {
        1
    } else {
        following(quantity((n - 1) as nat))
    }
}

/// The event that sets the level of visit `n` to a gap, counted from zero.
pub open spec fn gap_event(g: Ground, seed: u64, n: nat) -> BookEvent {
    let (side, px, _) = g.drawn(state_after_touches(g, seed, n));
    let gap = match side {
        Side::Bid => px.0 + 1,
        Side::Ask => px.0 - 1,
    };
    level_event(side, Px(gap as i64), quantity(n + 1))
}

/// The book before and after the timed half of each visit to a gap: without its level and
/// with it, or the reverse.
pub open spec fn gap_views(
    g: Ground,
    m: BookModel,
    plan: Plan,
    half: Half,
) -> spec_fn(int) -> (Seen, Seen) {
    |i: int|
        {
            let with = apply_event(m, gap_event(g, plan.seed, (plan.warmup + i) as nat));
            match half {
                Half::Insert => (Seen::Book(m), Seen::Book(with)),
                Half::Remove => (Seen::Book(with), Seen::Book(m)),
            }
        }
}

/// Times a new level in a gap of the ladder, or its removal. Each new level is removed
/// again, so that the book is the same after as before.
pub fn measure_gap<B: OrderBook>(
    w: &mut Stopwatch<'_>,
    book: &mut B,
    g: Ground,
    plan: Plan,
    half: Half,
) -> (rec: Recorder)
    requires
        g.wf(),
        g.fits(*old(book)),
    ensures
        g.fits(*final(book)),
        final(book).model() == old(book).model(),
        final(w).source() == old(w).source(),
        took(
            rec,
            old(w).source(),
            old(w).readings(),
            final(w).readings(),
            plan.samples as nat,
            gap_views(g, old(book).model(), plan, half),
        ),
{
    let mut rng = SplitMix64::new(plan.seed);
    let mut q: i64 = 1;
    let mut rec = Recorder::new();
    let ghost c = w.source();
    let ghost first = w.readings();
    let ghost start = book.model();
    let ghost views = gap_views(g, start, plan, half);
    proof {
        lemma_took_none(rec, c, first, views);
    }
    let mut i: u64 = 0;
    while i < plan.warmup
        invariant
            i <= plan.warmup,
            g.wf(),
            g.fits(*book),
            book.model() == start,
            rng@ == state_after_touches(g, plan.seed, i as nat),
            q == quantity(i as nat),
        decreases plan.warmup - i,
    {
        let (side, px) = g.draw(&mut rng);
        let gap = gap_price(px, side);
        let qty = next_qty(q);
        q = qty.0;
        let set = BookEvent::level(0, 0, side, gap, qty);
        let unset = BookEvent::level(0, 0, side, gap, Qty(0));
        proof {
            lemma_gap(g, book.model(), side, px, gap, set, unset);
            book.lemma_covers(g.lowest(), g.highest(), set);
        }
        book.apply(&set);
        proof {
            book.lemma_covers(g.lowest(), g.highest(), unset);
        }
        book.apply(&unset);
        i += 1;
    }
    let mut k: u64 = 0;
    while k < plan.samples
        invariant
            k <= plan.samples,
            g.wf(),
            g.fits(*book),
            book.model() == start,
            rng@ == state_after_touches(g, plan.seed, (plan.warmup + k) as nat),
            q == quantity((plan.warmup + k) as nat),
            w.source() == c,
            views == gap_views(g, start, plan, half),
            took(rec, c, first, w.readings(), k as nat, views),
        decreases plan.samples - k,
    {
        let (side, px) = g.draw(&mut rng);
        let gap = gap_price(px, side);
        let qty = next_qty(q);
        q = qty.0;
        let set = BookEvent::level(0, 0, side, gap, qty);
        let unset = BookEvent::level(0, 0, side, gap, Qty(0));
        proof {
            lemma_gap(g, book.model(), side, px, gap, set, unset);
            book.lemma_covers(g.lowest(), g.highest(), set);
        }
        let ghost (now, was) = (w.readings(), rec);
        let ghost with = apply_event(start, set);
        assert(set == gap_event(g, plan.seed, (plan.warmup + k) as nat));
        match half {
            Half::Insert => {
                timed(w, book, &set, &mut rec);
                proof {
                    lemma_sampled(c, first, now, w.readings(), start, with, was, rec, k as nat, views);
                    book.lemma_covers(g.lowest(), g.highest(), unset);
                }
                book.apply(&unset);
            },
            Half::Remove => {
                book.apply(&set);
                proof {
                    book.lemma_covers(g.lowest(), g.highest(), unset);
                }
                timed(w, book, &unset, &mut rec);
                proof {
                    lemma_sampled(c, first, now, w.readings(), with, start, was, rec, k as nat, views);
                }
            },
        }
        k += 1;
    }
    let _ = black_box(book.best_bid());
    rec
}

/// A level in a gap and its removal leave no trace.
proof fn lemma_gap(
    g: Ground,
    m: BookModel,
    side: Side,
    px: Px,
    gap: Px,
    set: BookEvent,
    unset: BookEvent,
)
    requires
        g.wf(),
        g.levelled(m),
        stairs(g.mid.0 as int, g.depth as int).side(side).contains_key(px.0),
        g.lowest() <= px.0 <= g.highest(),
        match side {
            Side::Bid => gap.0 == px.0 + 1 && px.0 < g.mid.0,
            Side::Ask => gap.0 == px.0 - 1 && px.0 > g.mid.0,
        },
        set.kind is Level,
        unset.kind is Level,
        set.side == side,
        unset.side == side,
        set.px == gap,
        unset.px == gap,
        unset.qty.0 == 0,
    ensures
        apply_event(apply_event(m, set), unset) == m,
        g.lowest() <= gap.0 <= g.highest(),
{
    law_gap_is_unoccupied(g.mid.0 as int, g.depth as int, side, px, gap);
    match side {
        Side::Bid => assert(!m.bids.dom().contains(gap.0)),
        Side::Ask => assert(!m.asks.dom().contains(gap.0)),
    }
    law_remove_undoes_insert(m, set, unset);
}

/// The state after `n` touches drawn from `state`.
pub open spec fn state_after_touches(g: Ground, state: u64, n: nat) -> u64
    decreases n,
{
    if n == 0 {
        state
    } else {
        g.drawn(state_after_touches(g, state, (n - 1) as nat)).2
    }
}

/// The trade that the touch drawn from `state` stands for.
pub open spec fn trade_at(g: Ground, state: u64) -> (Px, Qty, Side) {
    (g.drawn(state).1, Qty(1), g.drawn(state).0)
}

/// The book before and after each timed trade.
pub open spec fn trade_views(g: Ground, m: BookModel, plan: Plan) -> spec_fn(int) -> (Seen, Seen) {
    |i: int|
        (
            Seen::Book(traded(g, m, plan.seed, (plan.warmup + i) as nat)),
            Seen::Book(traded(g, m, plan.seed, (plan.warmup + i + 1) as nat)),
        )
}

/// Times trades, which touch no level: the floor of what an event costs. The last one
/// drawn is the last trade of the book.
pub fn measure_trade<B: OrderBook>(
    w: &mut Stopwatch<'_>,
    book: &mut B,
    g: Ground,
    plan: Plan,
) -> (rec: Recorder)
    requires
        g.wf(),
        g.fits(*old(book)),
    ensures
        g.fits(*final(book)),
        final(book).model() == (BookModel {
            last_trade: if plan.total() == 0 {
                old(book).model().last_trade
            } else {
                Some(trade_at(g, state_after_touches(g, plan.seed, (plan.total() - 1) as nat)))
            },
            ..old(book).model()
        }),
        final(w).source() == old(w).source(),
        took(
            rec,
            old(w).source(),
            old(w).readings(),
            final(w).readings(),
            plan.samples as nat,
            trade_views(g, old(book).model(), plan),
        ),
{
    let mut rng = SplitMix64::new(plan.seed);
    let mut rec = Recorder::new();
    let ghost c = w.source();
    let ghost first = w.readings();
    let ghost start = book.model();
    let ghost views = trade_views(g, start, plan);
    proof {
        lemma_took_none(rec, c, first, views);
    }
    let mut i: u64 = 0;
    while i < plan.warmup
        invariant
            i <= plan.warmup,
            g.wf(),
            g.fits(*book),
            rng@ == state_after_touches(g, plan.seed, i as nat),
            book.model() == traded(g, start, plan.seed, i as nat),
        decreases plan.warmup - i,
    {
        let (side, px) = g.draw(&mut rng);
        let ev = BookEvent::trade(0, 0, side, px, Qty(1));
        proof {
            book.lemma_covers(g.lowest(), g.highest(), ev);
        }
        book.apply(&ev);
        i += 1;
    }
    let mut k: u64 = 0;
    while k < plan.samples
        invariant
            k <= plan.samples,
            g.wf(),
            g.fits(*book),
            rng@ == state_after_touches(g, plan.seed, (plan.warmup + k) as nat),
            book.model() == traded(g, start, plan.seed, (plan.warmup + k) as nat),
            w.source() == c,
            views == trade_views(g, start, plan),
            took(rec, c, first, w.readings(), k as nat, views),
        decreases plan.samples - k,
    {
        let (side, px) = g.draw(&mut rng);
        let ev = BookEvent::trade(0, 0, side, px, Qty(1));
        proof {
            book.lemma_covers(g.lowest(), g.highest(), ev);
        }
        let ghost (now, was, m0) = (w.readings(), rec, book.model());
        timed(w, book, &ev, &mut rec);
        proof {
            let m1 = book.model();
            assert(m1 == traded(g, start, plan.seed, (plan.warmup + k + 1) as nat));
            lemma_sampled(c, first, now, w.readings(), m0, m1, was, rec, k as nat, views);
        }
        k += 1;
    }
    let _ = black_box(book.last_trade());
    rec
}

/// A book after `n` trades drawn from `state`.
pub open spec fn traded(g: Ground, m: BookModel, state: u64, n: nat) -> BookModel {
    BookModel {
        last_trade: if n == 0 {
            m.last_trade
        } else {
            Some(trade_at(g, state_after_touches(g, state, (n - 1) as nat)))
        },
        ..m
    }
}

/// A book, and then its best bid.
pub open spec fn best_views(m: BookModel) -> spec_fn(int) -> (Seen, Seen) {
    |i: int| (Seen::Book(m), Seen::Best(best(Side::Bid, m.bids)))
}

/// Times reads of the best bid.
pub fn measure_best_bid<B: OrderBook>(
    w: &mut Stopwatch<'_>,
    book: &B,
    plan: Plan,
) -> (rec: Recorder)
    requires
        book.wf(),
    ensures
        final(w).source() == old(w).source(),
        took(
            rec,
            old(w).source(),
            old(w).readings(),
            final(w).readings(),
            plan.samples as nat,
            best_views(book.model()),
        ),
{
    let mut i: u64 = 0;
    while i < plan.warmup
        invariant
            i <= plan.warmup,
            book.wf(),
        decreases plan.warmup - i,
    {
        let _ = black_box(black_box(book).best_bid());
        i += 1;
    }
    let mut rec = Recorder::new();
    let ghost c = w.source();
    let ghost first = w.readings();
    let ghost views = best_views(book.model());
    proof {
        lemma_took_none(rec, c, first, views);
    }
    let mut k: u64 = 0;
    while k < plan.samples
        invariant
            k <= plan.samples,
            book.wf(),
            w.source() == c,
            views == best_views(book.model()),
            took(rec, c, first, w.readings(), k as nat, views),
        decreases plan.samples - k,
    {
        let ghost now = w.readings();
        let t0: u64 = w.read(Ghost(Seen::Book(book.model())));
        let r = black_box(book).best_bid();
        let t1: u64 = w.read(Ghost(Seen::Best(r)));
        let _ = black_box(r);
        let ns: u64 = w.delta_ns(t0, t1);
        let ghost before = rec;
        rec.record(ns);
        proof {
            let r0 = Reading { at: t0, seen: Seen::Book(book.model()) };
            let r1 = Reading { at: t1, seen: Seen::Best(r) };
            lemma_took(before, rec, c, first, now, r0, r1, k as nat, views);
        }
        k += 1;
    }
    rec
}

/// A book, and then a buffer with its best bids.
pub open spec fn top_views(m: BookModel, buffer: Seq<(Px, Qty)>) -> spec_fn(int) -> (Seen, Seen) {
    |i: int| (Seen::Book(m), Seen::Levels(filled(ladder(Side::Bid, m.bids), buffer)))
}

/// Times copies of the best bids into a buffer, which holds them afterwards.
pub fn measure_top_n<B: OrderBook>(
    w: &mut Stopwatch<'_>,
    book: &B,
    out: &mut [(Px, Qty)],
    plan: Plan,
) -> (rec: Recorder)
    requires
        book.wf(),
    ensures
        final(out)@ == (if plan.total() == 0 {
            old(out)@
        } else {
            filled(ladder(Side::Bid, book.model().bids), old(out)@)
        }),
        final(w).source() == old(w).source(),
        took(
            rec,
            old(w).source(),
            old(w).readings(),
            final(w).readings(),
            plan.samples as nat,
            top_views(book.model(), old(out)@),
        ),
{
    let ghost start = out@;
    let ghost full = ladder(Side::Bid, book.model().bids);
    let mut i: u64 = 0;
    while i < plan.warmup
        invariant
            i <= plan.warmup,
            book.wf(),
            full == ladder(Side::Bid, book.model().bids),
            out@ == (if i == 0 {
                start
            } else {
                filled(full, start)
            }),
        decreases plan.warmup - i,
    {
        let _ = black_box(book.top_n(Side::Bid, out));
        proof {
            lemma_filled(full, start);
        }
        i += 1;
    }
    let mut rec = Recorder::new();
    let ghost c = w.source();
    let ghost first = w.readings();
    let ghost views = top_views(book.model(), start);
    proof {
        lemma_took_none(rec, c, first, views);
    }
    let mut k: u64 = 0;
    while k < plan.samples
        invariant
            k <= plan.samples,
            book.wf(),
            full == ladder(Side::Bid, book.model().bids),
            out@ == (if plan.warmup + k == 0 {
                start
            } else {
                filled(full, start)
            }),
            w.source() == c,
            views == top_views(book.model(), start),
            took(rec, c, first, w.readings(), k as nat, views),
        decreases plan.samples - k,
    {
        let ghost now = w.readings();
        let t0: u64 = w.read(Ghost(Seen::Book(book.model())));
        let n: usize = black_box(book).top_n(Side::Bid, out);
        let t1: u64 = w.read(Ghost(Seen::Levels(out@)));
        let _ = black_box(n);
        proof {
            lemma_filled(full, start);
        }
        let ns: u64 = w.delta_ns(t0, t1);
        let ghost before = rec;
        rec.record(ns);
        proof {
            let r0 = Reading { at: t0, seen: Seen::Book(book.model()) };
            let r1 = Reading { at: t1, seen: Seen::Levels(out@) };
            lemma_took(before, rec, c, first, now, r0, r1, k as nat, views);
        }
        k += 1;
    }
    rec
}

/// An empty book, and then one that has taken a stream in.
pub open spec fn replay_views(events: Seq<BookEvent>) -> spec_fn(int) -> (Seen, Seen) {
    |i: int|
        (Seen::Book(BookModel::empty()), Seen::Book(replay(BookModel::empty(), events)))
}

/// The median time of `runs` replays of a stream, each into a new book. One more goes
/// before them, and is not timed.
pub fn replay_median<B: OrderBook>(
    w: &mut Stopwatch<'_>,
    events: &[BookEvent],
    runs: usize,
) -> (ns: u64)
    requires
        runs > 0,
        exists|lo: int, hi: int| #[trigger]
            B::fresh_covers(lo, hi) && levels_within(events@, lo, hi),
    ensures
        final(w).source() == old(w).source(),
        paired(old(w).readings(), final(w).readings(), runs as nat, replay_views(events@)),
        ns == median_of(
            spans(old(w).source(), final(w).readings().skip(old(w).readings().len() as int)),
        ),
{
    let mut warm = B::default();
    proof {
        lemma_fresh::<B>(warm, events@);
    }
    replay_all(&mut warm, events);
    let _ = black_box(warm.best_bid());
    let _ = black_box(warm.last_trade());
    let ghost c = w.source();
    let ghost first = w.readings();
    let ghost views = replay_views(events@);
    let mut times: Vec<u64> = Vec::with_capacity(runs);
    proof {
        assert(first.take(first.len() as int) =~= first);
        assert(spans(c, first.skip(first.len() as int)) =~= times@);
    }
    while times.len() < runs
        invariant
            times@.len() <= runs,
            exists|lo: int, hi: int| #[trigger]
                B::fresh_covers(lo, hi) && levels_within(events@, lo, hi),
            w.source() == c,
            views == replay_views(events@),
            paired(first, w.readings(), times@.len(), views),
            times@ == spans(c, w.readings().skip(first.len() as int)),
        decreases runs - times@.len(),
    {
        let ghost now = w.readings();
        let mut b = B::default();
        proof {
            lemma_fresh::<B>(b, events@);
        }
        let t0: u64 = w.read(Ghost(Seen::Book(b.model())));
        replay_all(&mut b, black_box(events));
        let t1: u64 = w.read(Ghost(Seen::Book(b.model())));
        let _ = black_box(b.best_bid());
        let _ = black_box(b.last_trade());
        proof {
            let r0 = Reading { at: t0, seen: Seen::Book(BookModel::empty()) };
            let r1 = Reading { at: t1, seen: Seen::Book(b.model()) };
            lemma_pair(c, first, now, r0, r1, times@.len(), views);
        }
        times.push(w.delta_ns(t0, t1));
    }
    median(times)
}

/// When event `i` is due, within the range of a machine word.
pub open spec fn due_at(s: Schedule, events: Seq<BookEvent>, i: int) -> u64 {
    (s.due(i as nat, events[i].ts) % 0x1_0000_0000_0000_0000) as u64
}

/// The place of the last reading before event `i` is waited for.
pub open spec fn served_before(ends: Seq<int>, i: int) -> int {
    if i <= 0 {
        0
    } else {
        ends[i - 1]
    }
}

/// The book that has taken in the first `i` events.
pub open spec fn fed(events: Seq<BookEvent>, i: int) -> Seen {
    Seen::Book(replay(BookModel::empty(), events.take(i)))
}

/// Whether event `i` was served by the readings up to place `ends[i]`: readings before it
/// was due, one when it was, and the one that finds it done. The book has taken in the
/// events before it at all but the last, and the event itself at the last. The first of
/// all readings stands for the start.
pub open spec fn serves(
    c: Clock,
    s: Schedule,
    events: Seq<BookEvent>,
    r: Seq<Reading>,
    ends: Seq<int>,
    i: int,
) -> bool {
    let from = served_before(ends, i);
    let end = ends[i];
    &&& from + 2 <= end < r.len()
    &&& elapsed(c, r[0].at, r[end - 1].at) >= due_at(s, events, i)
    &&& r[end - 1].seen == fed(events, i)
    &&& r[end].seen == fed(events, i + 1)
    &&& forall|j: int|
        from < j < end - 1 ==> elapsed(c, r[0].at, (#[trigger] r[j]).at) < due_at(s, events, i)
            && r[j].seen == fed(events, i)
}

/// Whether readings are those of a run that serves the first events one after the
/// other, where event `i` is found done at place `ends[i]`.
pub open spec fn served(
    c: Clock,
    s: Schedule,
    events: Seq<BookEvent>,
    r: Seq<Reading>,
    ends: Seq<int>,
) -> bool {
    &&& r.len() == served_before(ends, ends.len() as int) + 1
    &&& r[0].seen == fed(events, 0)
    &&& forall|i: int| 0 <= i < ends.len() ==> #[trigger] serves(c, s, events, r, ends, i)
}

/// How late each event was done.
pub open spec fn latenesses(
    c: Clock,
    s: Schedule,
    events: Seq<BookEvent>,
    r: Seq<Reading>,
    ends: Seq<int>,
) -> Seq<u64> {
    Seq::new(
        ends.len(),
        |i: int|
            lateness(elapsed(c, r[0].at, r[ends[i]].at) as int, due_at(s, events, i) as int) as u64,
    )
}

/// When the last event was done: nanoseconds after the start, none without events.
pub open spec fn last_done(c: Clock, r: Seq<Reading>, ends: Seq<int>) -> u64 {
    if ends.len() == 0 {
        0
    } else {
        elapsed(c, r[0].at, r[ends.last()].at)
    }
}

/// Reads the clock until a time after `base` has come, while `seen` stands ready. False
/// only when as many readings as a machine word counts were all made before it.
fn wait_until(w: &mut Stopwatch<'_>, base: u64, due: u64, Ghost(seen): Ghost<Seen>) -> (come: bool)
    ensures
        final(w).source() == old(w).source(),
        final(w).readings().len() > old(w).readings().len(),
        final(w).readings().take(old(w).readings().len() as int) == old(w).readings(),
        forall|j: int|
            old(w).readings().len() <= j < final(w).readings().len() - 1 ==> elapsed(
                old(w).source(),
                base,
                (#[trigger] final(w).readings()[j]).at,
            ) < due && final(w).readings()[j].seen == seen,
        final(w).readings().last().seen == seen,
        come <==> elapsed(old(w).source(), base, final(w).readings().last().at) >= due,
        !come ==> final(w).readings().len() == old(w).readings().len() + u64::MAX,
{
    let ghost first = w.readings();
    let ghost c = w.source();
    let mut left: u64 = u64::MAX;
    assert(first.take(first.len() as int) =~= first);
    while left > 0
        invariant
            w.source() == c,
            c == old(w).source(),
            first == old(w).readings(),
            w.readings().len() == first.len() + (u64::MAX - left),
            w.readings().take(first.len() as int) == first,
            forall|j: int|
                first.len() <= j < w.readings().len() ==> elapsed(
                    c,
                    base,
                    (#[trigger] w.readings()[j]).at,
                ) < due && w.readings()[j].seen == seen,
        decreases left,
    {
        let ghost before = w.readings();
        let now: u64 = w.read(Ghost(seen));
        proof {
            assert(w.readings().take(first.len() as int) =~= before.take(first.len() as int));
            assert forall|j: int| first.len() <= j < w.readings().len() - 1 implies elapsed(
                c,
                base,
                (#[trigger] w.readings()[j]).at,
            ) < due && w.readings()[j].seen == seen by {
                assert(before[j] == w.readings()[j]);
            }
        }
        if w.delta_ns(base, now) >= due {
            return true;
        }
        std::hint::spin_loop();
        left -= 1;
    }
    false
}

/// One more event is served.
proof fn lemma_served_step(
    c: Clock,
    s: Schedule,
    events: Seq<BookEvent>,
    r: Seq<Reading>,
    ends: Seq<int>,
    more: Seq<Reading>,
)
    requires
        served(c, s, events, r, ends),
        more.len() >= 2,
        elapsed(c, r[0].at, more[more.len() - 2].at) >= due_at(s, events, ends.len() as int),
        more[more.len() - 2].seen == fed(events, ends.len() as int),
        more.last().seen == fed(events, ends.len() as int + 1),
        forall|j: int|
            0 <= j < more.len() - 2 ==> elapsed(c, r[0].at, (#[trigger] more[j]).at) < due_at(
                s,
                events,
                ends.len() as int,
            ) && more[j].seen == fed(events, ends.len() as int),
    ensures
        served(c, s, events, r + more, ends.push(r.len() + more.len() - 1)),
        latenesses(c, s, events, r + more, ends.push(r.len() + more.len() - 1)) == latenesses(
            c,
            s,
            events,
            r,
            ends,
        ).push(
            lateness(
                elapsed(c, r[0].at, more.last().at) as int,
                due_at(s, events, ends.len() as int) as int,
            ) as u64,
        ),
        last_done(c, r + more, ends.push(r.len() + more.len() - 1)) == elapsed(
            c,
            r[0].at,
            more.last().at,
        ),
{
    let n = ends.len() as int;
    let all = r + more;
    let e = ends.push(r.len() + more.len() - 1);
    lemma_places(c, s, events, r, ends, n);
    assert forall|i: int| 0 <= i < e.len() implies #[trigger] serves(c, s, events, all, e, i) by {
        if i < n {
            assert(serves(c, s, events, r, ends, i));
            lemma_places(c, s, events, r, ends, i);
            assert(served_before(e, i) == served_before(ends, i));
            assert(e[i] == ends[i]);
            assert(all[0] == r[0] && all[e[i] - 1] == r[e[i] - 1] && all[e[i]] == r[e[i]]);
            assert forall|j: int| served_before(e, i) < j < e[i] - 1 implies elapsed(
                c,
                all[0].at,
                (#[trigger] all[j]).at,
            ) < due_at(s, events, i) && all[j].seen == fed(events, i) by {
                assert(all[j] == r[j]);
            }
        } else {
            assert(served_before(e, n) == r.len() - 1);
            assert(all[0] == r[0] && all[e[n] - 1] == more[more.len() - 2]);
            assert(all[e[n]] == more.last());
            assert forall|j: int| served_before(e, n) < j < e[n] - 1 implies elapsed(
                c,
                all[0].at,
                (#[trigger] all[j]).at,
            ) < due_at(s, events, n) && all[j].seen == fed(events, n) by {
                assert(all[j] == more[j - r.len()]);
            }
        }
    }
    assert(all[0] == r[0] && all[e[n]] == more.last());
    let before = latenesses(c, s, events, r, ends);
    let after = latenesses(c, s, events, all, e);
    assert forall|i: int| 0 <= i < n implies #[trigger] after[i] == before[i] by {
        assert(serves(c, s, events, r, ends, i));
        lemma_places(c, s, events, r, ends, i);
        assert(e[i] == ends[i] && all[ends[i]] == r[ends[i]]);
    }
    assert(after =~= before.push(after[n]));
}

/// The places of a run are places of its readings.
proof fn lemma_places(
    c: Clock,
    s: Schedule,
    events: Seq<BookEvent>,
    r: Seq<Reading>,
    ends: Seq<int>,
    i: int,
)
    requires
        served(c, s, events, r, ends),
        0 <= i <= ends.len(),
    ensures
        0 <= served_before(ends, i) < r.len(),
    decreases i,
{
    if i > 0 {
        lemma_places(c, s, events, r, ends, i - 1);
        assert(serves(c, s, events, r, ends, i - 1));
    } else if ends.len() > 0 {
        assert(serves(c, s, events, r, ends, 0));
    }
}

/// Serves the events of a stream when they are due and records how late each was done,
/// counted from when it was due, so that a backlog shows. The second result is when the
/// last one was done. One replay goes before it all, and is not timed. None only when as
/// many readings as a machine word counts were all made before one event was due.
pub fn paced_run<B: OrderBook>(
    w: &mut Stopwatch<'_>,
    events: &[BookEvent],
    s: Schedule,
) -> (r: Option<(Recorder, u64)>)
    requires
        s.wf(),
        exists|lo: int, hi: int| #[trigger]
            B::fresh_covers(lo, hi) && levels_within(events@, lo, hi),
    ensures
        final(w).source() == old(w).source(),
        final(w).readings().len() >= old(w).readings().len(),
        final(w).readings().take(old(w).readings().len() as int) == old(w).readings(),
        match r {
            Some((rec, last)) => {
                let c = old(w).source();
                let made = final(w).readings().skip(old(w).readings().len() as int);
                &&& rec.wf()
                &&& exists|ends: Seq<int>|
                    {
                        &&& ends.len() == events@.len()
                        &&& #[trigger] served(c, s, events@, made, ends)
                        &&& rec@ == recorded(latenesses(c, s, events@, made, ends))
                        &&& last == last_done(c, made, ends)
                    }
            },
            None => final(w).readings().len() >= old(w).readings().len() + u64::MAX,
        },
{
    let ghost first = w.readings();
    let ghost c = w.source();
    let mut warm = B::default();
    proof {
        lemma_fresh::<B>(warm, events@);
    }
    replay_all(&mut warm, events);
    let _ = black_box(warm.best_bid());
    let mut book = B::default();
    proof {
        lemma_fresh::<B>(book, events@);
    }
    let ghost (lo, hi): (int, int) = choose|lo: int, hi: int| #[trigger]
        book.covers(lo, hi) && levels_within(events@, lo, hi);
    let mut rec = Recorder::new();
    let ghost origin = Seen::Book(book.model());
    let base: u64 = w.read(Ghost(origin));
    let ghost mut ends: Seq<int> = Seq::empty();
    let mut last: u64 = 0;
    let n: usize = events.len();
    let mut i: usize = 0;
    proof {
        assert(w.readings().take(first.len() as int) =~= first);
        let r0 = Reading { at: base, seen: origin };
        assert(events@.take(0) =~= Seq::empty());
        assert(w.readings().skip(first.len() as int) =~= seq![r0]);
        assert(latenesses(c, s, events@, seq![r0], ends) =~= Seq::<u64>::empty());
    }
    while i < n
        invariant
            i <= n == events@.len(),
            s.wf(),
            book.wf(),
            book.covers(lo, hi),
            book.model() == replay(BookModel::empty(), events@.take(i as int)),
            levels_within(events@, lo, hi),
            w.source() == c,
            c == old(w).source(),
            first == old(w).readings(),
            w.readings().len() > first.len(),
            w.readings().take(first.len() as int) == first,
            w.readings()[first.len() as int].at == base,
            ends.len() == i,
            served(c, s, events@, w.readings().skip(first.len() as int), ends),
            rec.wf(),
            rec@ == recorded(
                latenesses(c, s, events@, w.readings().skip(first.len() as int), ends),
            ),
            last == last_done(c, w.readings().skip(first.len() as int), ends),
        decreases n - i,
    {
        let ghost start = w.readings();
        let ghost made = start.skip(first.len() as int);
        let ev = &events[i];
        let due: u64 = s.offset_ns(i, ev);
        assert(due == due_at(s, events@, i as int));
        if !wait_until(w, base, due, Ghost(Seen::Book(book.model()))) {
            proof {
                assert(w.readings().take(first.len() as int) =~= w.readings().take(
                    start.len() as int,
                ).take(first.len() as int));
            }
            return None;
        }
        let ghost waited = w.readings();
        proof {
            book.lemma_covers(lo, hi, *ev);
        }
        book.apply(black_box(ev));
        let now: u64 = w.read(Ghost(Seen::Book(book.model())));
        let done: u64 = w.delta_ns(base, now);
        let late: u64 = late_ns(done, due);
        rec.record(late);
        last = done;
        proof {
            let all = w.readings();
            let more = all.skip(start.len() as int);
            assert(all.take(first.len() as int) =~= waited.take(start.len() as int).take(
                first.len() as int,
            ));
            assert(waited.take(start.len() as int) == start);
            assert forall|j: int| 0 <= j < start.len() implies all[j] == start[j] by {
                assert(waited.take(start.len() as int)[j] == waited[j]);
            }
            assert(all.skip(first.len() as int) =~= made + more);
            assert(made[0].at == base);
            assert(events@.take(i + 1).drop_last() =~= events@.take(i as int));
            assert(events@.take(i + 1).last() == *ev);
            assert(more.last().seen == fed(events@, i + 1));
            assert(more[more.len() - 2] == waited.last());
            assert forall|j: int| 0 <= j < more.len() - 2 implies elapsed(
                c,
                made[0].at,
                (#[trigger] more[j]).at,
            ) < due_at(s, events@, i as int) && more[j].seen == fed(events@, i as int) by {
                assert(more[j] == waited[start.len() + j]);
            }
            lemma_served_step(c, s, events@, made, ends, more);
            let l = latenesses(c, s, events@, made, ends);
            assert(l.push(late).drop_last() =~= l);
            assert(l.push(late).last() == late);
            ends = ends.push(made.len() + more.len() - 1);
        }
        i += 1;
    }
    let _ = black_box(book.best_bid());
    Some((rec, last))
}

/// A new book takes what any new book takes.
proof fn lemma_fresh<B: OrderBook>(b: B, events: Seq<BookEvent>)
    requires
        call_ensures(<B as Default>::default, (), b),
        exists|lo: int, hi: int| #[trigger]
            B::fresh_covers(lo, hi) && levels_within(events, lo, hi),
    ensures
        b.wf(),
        b.model() == BookModel::empty(),
        can_replay(b, events),
{
    B::lemma_default(b);
    let (lo, hi) = choose|lo: int, hi: int| #[trigger]
        B::fresh_covers(lo, hi) && levels_within(events, lo, hi);
    assert(b.covers(lo, hi) && levels_within(events, lo, hi));
}

/// A buffer after a copy: the front of the ladder, and behind it what was there.
pub open spec fn filled(full: Seq<(Px, Qty)>, buffer: Seq<(Px, Qty)>) -> Seq<(Px, Qty)> {
    if buffer.len() <= full.len() {
        full.take(buffer.len() as int)
    } else {
        full + buffer.skip(full.len() as int)
    }
}

/// A second copy changes nothing.
proof fn lemma_filled(full: Seq<(Px, Qty)>, buffer: Seq<(Px, Qty)>)
    ensures
        filled(full, buffer).len() == buffer.len(),
        filled(full, filled(full, buffer)) == filled(full, buffer),
        ({
            let n = if buffer.len() <= full.len() {
                buffer.len()
            } else {
                full.len()
            };
            full.take(n as int) + buffer.skip(n as int) == filled(full, buffer)
        }),
        ({
            let after = filled(full, buffer);
            let n = if after.len() <= full.len() {
                after.len()
            } else {
                full.len()
            };
            full.take(n as int) + after.skip(n as int) == after
        }),
{
    let after = filled(full, buffer);
    let n = if buffer.len() <= full.len() {
        buffer.len()
    } else {
        full.len()
    };
    assert(full.take(n as int) + buffer.skip(n as int) =~= after);
    assert(filled(full, after) =~= after);
    assert(full.take(n as int) + after.skip(n as int) =~= after);
}

/// A touch of a measurement, read off the values of the random stream: the first one
/// decides the side, a bid where it is even and an ask where it is odd; the level is the
/// one whose offset the next values give, at two ticks a level from the middle.
pub proof fn law_draws_follow_the_stream(g: Ground, state: u64)
    requires
        g.wf(),
    ensures
        ({
            let (side, px, after) = g.drawn(state);
            let off = touched(step(state), g.depth as nat, g.loc).0;
            &&& value(state, 0) % 2 == 0 ==> side is Bid && px.0 == g.mid.0 - 2 * (off + 1)
            &&& value(state, 0) % 2 == 1 ==> side is Ask && px.0 == g.mid.0 + 2 * (off + 1)
            &&& after == touched(step(state), g.depth as nat, g.loc).1
            &&& off < g.depth
        }),
{
    lemma_later_values(state, 0);
    let v = value(state, 0);
    assert(v & 1u64 == v % 2) by (bit_vector);
    lemma_touched_within(g, step(state));
}

proof fn lemma_touched_within(g: Ground, state: u64)
    requires
        g.depth >= 1,
    ensures
        touched(state, g.depth as nat, g.loc).0 < g.depth,
{
    match g.loc {
        Locality::Uniform => {
            vstd::arithmetic::div_mod::lemma_mod_bound(
                mix(step(state)) as int,
                g.depth as int,
            );
        },
        Locality::Concentrated => {
            lemma_flips_within(state, g.depth as nat, 0);
        },
    }
}

proof fn lemma_flips_within(state: u64, depth: nat, k: nat)
    requires
        k < depth,
    ensures
        k <= flips(state, depth, k).0 < depth,
    decreases depth - k,
{
    if k + 1 < depth && mix(step(state)) & 1u64 == 0 {
        lemma_flips_within(step(state), depth, k + 1);
    }
}

/// The quantities of a measurement change with every touch and are never zero: each is odd
/// and at least one and below two to the fifteenth, and differs from the one before.
pub proof fn law_quantities_change(q: i64)
    ensures
        1 <= following(q) <= 0x7FFF,
        following(q) % 2 == 1,
        1 <= q <= 0x7FFF && q % 2 == 1 ==> following(q) != q,
        1 <= q < 0x7FFF && q % 2 == 1 ==> following(q) == q + 2,
{
    let w = q.wrapping_add(1);
    assert(1 <= ((w & 0x7FFF) | 1) <= 0x7FFF && ((w & 0x7FFF) | 1) % 2 == 1) by (bit_vector);
    if 1 <= q <= 0x7FFF {
        assert(w == q + 1);
        assert(1 <= q < 0x7FFF && q % 2 == 1 && w == q + 1 ==> ((w & 0x7FFF) | 1) == q + 2)
            by (bit_vector);
        assert(w == 0x8000 ==> ((w & 0x7FFF) | 1) == 1) by (bit_vector);
    }
}

/// What a recorder holds is what it was given: every latency of a nanosecond or more that a
/// bucket covers, as often as it was given; one of zero counts as one nanosecond, and one
/// that no bucket covers is left out.
pub proof fn law_every_latency_is_recorded(latencies: Seq<u64>, v: u64)
    ensures
        1 < v < CEILING_NS ==> recorded(latencies).count(v) == latencies.to_multiset().count(v),
        v == 1 ==> recorded(latencies).count(v) == latencies.to_multiset().count(1)
            + latencies.to_multiset().count(0),
        v == 0 || v >= CEILING_NS ==> recorded(latencies).count(v) == 0,
    decreases latencies.len(),
{
    broadcast use vstd::multiset::group_multiset_axioms;

    latencies.to_multiset_ensures();
    if latencies.len() > 0 {
        let front = latencies.drop_last();
        law_every_latency_is_recorded(front, v);
        front.to_multiset_ensures();
        assert(latencies =~= front.push(latencies.last()));
        assert(latencies.to_multiset() =~= front.to_multiset().insert(latencies.last()));
    } else {
        assert(latencies.to_multiset() =~= Multiset::empty()) by {
            assert(latencies.to_multiset().len() == 0);
        }
    }
}

/// How late an event is: not at all where it is done before it is due, and otherwise the
/// time between.
pub proof fn law_lateness_is_the_time_past_due(done: int, due: int)
    ensures
        lateness(done, due) >= 0,
        done >= due ==> due + lateness(done, due) == done,
        done < due ==> lateness(done, due) == 0,
{
}

/// What one more update of a measurement does: it sets the level that is drawn to the next
/// quantity, and leaves every other level and the last trade alone.
pub proof fn law_updates_set_the_drawn_level(
    g: Ground,
    m: BookModel,
    state: u64,
    q: i64,
    n: nat,
    p: i64,
)
    ensures
        ({
            let before = updated(g, m, state, q, n);
            let after = updated(g, m, state, q, n + 1);
            let (side, px, rest) = g.drawn(before.1);
            let qty = following(before.2);
            &&& after.1 == rest
            &&& after.2 == qty
            &&& after.0.last_trade == before.0.last_trade
            &&& side is Bid ==> {
                &&& after.0.asks == before.0.asks
                &&& after.0.bids.contains_key(px.0) && after.0.bids[px.0] == qty
                &&& p != px.0 ==> after.0.bids[p] == before.0.bids[p] && (after.0.bids.contains_key(p)
                    <==> before.0.bids.contains_key(p))
            }
            &&& side is Ask ==> {
                &&& after.0.bids == before.0.bids
                &&& after.0.asks.contains_key(px.0) && after.0.asks[px.0] == qty
                &&& p != px.0 ==> after.0.asks[p] == before.0.asks[p] && (after.0.asks.contains_key(p)
                    <==> before.0.asks.contains_key(p))
            }
        }),
{
    law_quantities_change(updated(g, m, state, q, n).2);
}

/// The new level of a visit to a gap lies one tick from the level that is drawn, towards
/// the middle, on its side, with the next quantity.
pub proof fn law_gaps_lie_towards_the_middle(g: Ground, seed: u64, n: nat)
    requires
        g.wf(),
    ensures
        ({
            let (side, px, _) = g.drawn(state_after_touches(g, seed, n));
            let ev = gap_event(g, seed, n);
            &&& ev.kind is Level
            &&& ev.side == side
            &&& side is Bid ==> ev.px.0 == px.0 + 1
            &&& side is Ask ==> ev.px.0 == px.0 - 1
            &&& 1 <= ev.qty.0 <= 0x7FFF
        }),
{
    law_draws_follow_the_stream(g, state_after_touches(g, seed, n));
    law_quantities_change(quantity(n));
}

/// A measured trade is one lot at the price that is drawn, with the side that is drawn as
/// its aggressor, and touches no level.
pub proof fn law_measured_trades_touch_no_level(g: Ground, m: BookModel, state: u64, n: nat)
    requires
        n > 0,
    ensures
        ({
            let t = traded(g, m, state, n);
            let (side, px, _) = g.drawn(state_after_touches(g, state, (n - 1) as nat));
            &&& t.bids == m.bids
            &&& t.asks == m.asks
            &&& t.last_trade == Some((px, Qty(1), side))
        }),
        traded(g, m, state, 0) == m,
{
}

/// A buffer that is filled from a ladder holds its levels from the best on, as many as fit,
/// and behind them what it held before.
pub proof fn law_buffers_hold_the_best(full: Seq<(Px, Qty)>, buffer: Seq<(Px, Qty)>, i: int)
    requires
        0 <= i < buffer.len(),
    ensures
        filled(full, buffer).len() == buffer.len(),
        i < full.len() ==> filled(full, buffer)[i] == full[i],
        i >= full.len() ==> filled(full, buffer)[i] == buffer[i],
{
}

} // verus!
