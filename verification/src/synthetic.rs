//! Synthetic load: event streams that a configuration fully determines.
//!
//! The generator drives a small model of a book so that its events resemble a
//! feed. The specification is a state machine over the generator's random state,
//! clock, levels and output; the executable generator follows it step by step.

use crate::book::lemma_best_is_extreme;
use crate::btree::{highest, lowest};
use crate::event::{BookEvent, EventKind, Side};
use crate::ladder::{apply_event, best, is_best, replay, set_level, touch, BookModel, Levels};
use crate::price::{Px, Qty};
use crate::rng::{lemma_odd_and_even_values, mix, state_after, step, value, SplitMix64};
use std::collections::BTreeMap;
use vstd::prelude::*;

verus! {

broadcast use {vstd::std_specs::btree::group_btree_axioms, vstd::laws_cmp::group_laws_cmp};

/// The version of the streams; it changes when a configuration's stream does.
pub const GENERATOR_VERSION: u32 = 1;

/// Levels near the touch that steady flow updates.
pub const STEADY_DEPTH: i64 = 8;

/// Base interval of steady flow, in nanoseconds.
pub const STEADY_DT: u64 = 1_000;

/// Spread of the steady interval.
pub const STEADY_JITTER: u64 = 250;

/// Trades, per cent of steady events.
pub const TRADE_PCT: u64 = 5;

/// Churn at the band's edge, per cent of steady events.
pub const CHURN_PCT: u64 = 1;

/// Base interval and spread of a calm stretch.
pub const CALM_DT: u64 = 50_000;

/// The shape of the load.
#[derive(Clone, Copy, PartialEq, Eq, Structural, Debug)]
pub enum Profile {
    /// Updates near the touch at a steady pace.
    Steady,
    /// Calm stretches and dense bursts in turn.
    Burst,
    /// Steady flow broken by sweeps through the bids.
    FlashCrash,
}

/// What determines a stream.
#[derive(Clone, Copy, Debug)]
pub struct GenConfig {
    /// The shape of the load.
    pub profile: Profile,
    /// The seed of the random stream.
    pub seed: u64,
    /// The number of events.
    pub events: usize,
    /// The price around which the book is seeded.
    pub mid: Px,
    /// Half of the width of the price band around the middle, and the number of levels
    /// seeded on each side; the touch never leaves the band.
    pub band: i64,
    /// The largest quantity.
    pub max_qty: Qty,
    /// The time of the first event.
    pub start_ts: u64,
}

impl GenConfig {
    /// The farthest that a level lies from the middle price.
    pub open spec fn width(self) -> int {
        if self.band > 0 {
            self.band as int
        } else {
            0
        }
    }

    /// An offset from the middle price, cut to the band.
    pub open spec fn within(self, off: int) -> int {
        if off > self.width() {
            self.width()
        } else {
            off
        }
    }

    /// The largest quantity of a level or a trade.
    pub open spec fn largest(self) -> int {
        if self.max_qty.0 > 1 {
            self.max_qty.0 as int
        } else {
            1
        }
    }

    /// Whether a price lies in the band on the given side of the middle. A band without
    /// room for two sides leaves the middle itself to both.
    pub open spec fn placed(self, side: Side, px: int) -> bool {
        let least: int = if self.band > 0 { 1 } else { 0 };
        match side {
            Side::Bid => self.mid.0 - self.width() <= px <= self.mid.0 - least,
            Side::Ask => self.mid.0 + least <= px <= self.mid.0 + self.width(),
        }
    }

    /// The number of events that seed the book: a clear and a ladder on each side.
    pub open spec fn seeding(self) -> int {
        1 + 2 * self.width()
    }

    /// How many of `n` events follow the seeding; only these take time.
    pub open spec fn flow(self, n: int) -> int {
        if n > self.seeding() {
            n - self.seeding()
        } else {
            0
        }
    }

    /// The longest interval between two events.
    pub open spec fn max_interval(self) -> int {
        if self.profile is Burst {
            2 * CALM_DT - 1
        } else {
            STEADY_DT + STEADY_JITTER - 1
        }
    }

    /// Whether prices, clock and band arithmetic stay within machine integers.
    pub open spec fn admissible(self) -> bool {
        &&& i64::MIN + STEADY_DEPTH <= self.band
        &&& i64::MIN <= self.mid.0 - self.width()
        &&& self.mid.0 + self.width() <= i64::MAX
        &&& self.start_ts + self.max_interval() * self.flow(self.events as int) <= u64::MAX
        &&& self.profile is FlashCrash ==> i64::MIN <= 3 * self.band <= i64::MAX
    }

    /// Whether prices, clock and band arithmetic stay within machine integers.
    pub fn is_admissible(&self) -> (r: bool)
        ensures
            r == self.admissible(),
    {
        let crash: bool = match self.profile {
            Profile::FlashCrash => true,
            _ => false,
        };
        let burst: bool = match self.profile {
            Profile::Burst => true,
            _ => false,
        };
        let width: i128 = if self.band > 0 {
            self.band as i128
        } else {
            0
        };
        let seeding: i128 = 1 + 2 * width;
        let events: i128 = self.events as i128;
        let flow: u128 = if events > seeding {
            (events - seeding) as u128
        } else {
            0
        };
        let interval: u128 = if burst {
            2 * CALM_DT as u128 - 1
        } else {
            STEADY_DT as u128 + STEADY_JITTER as u128 - 1
        };
        let mid: i128 = self.mid.0 as i128;
        let band: i128 = self.band as i128;
        let least: i128 = i64::MIN as i128;
        let most: i128 = i64::MAX as i128;
        assert(interval * flow <= 100_000 * u64::MAX) by (nonlinear_arith)
            requires
                interval <= 100_000,
                flow <= u64::MAX,
        ;
        let last: u128 = self.start_ts as u128 + interval * flow;
        let end: u128 = u64::MAX as u128;
        least + STEADY_DEPTH as i128 <= band && least <= mid - width && mid + width <= most && last
            <= end && (!crash || (least <= 3 * band && 3 * band <= most))
    }
}

/// A state of the generator.
pub struct SimState {
    /// The random state.
    pub rng: u64,
    /// The clock.
    pub ts: int,
    /// The bid levels.
    pub bids: Levels,
    /// The ask levels.
    pub asks: Levels,
    /// The events so far.
    pub out: Seq<BookEvent>,
}

/// Whether no more events are wanted.
pub open spec fn full(c: GenConfig, s: SimState) -> bool {
    s.out.len() >= c.events
}

/// The next random value, below `n`.
pub open spec fn drawn(s: SimState, n: u64) -> u64 {
    mix(step(s.rng)) % n
}

/// The state once a random value has been drawn.
pub open spec fn stirred(s: SimState) -> SimState {
    SimState { rng: step(s.rng), ..s }
}

/// The state once the clock has moved.
pub open spec fn later(s: SimState, dt: int) -> SimState {
    SimState { ts: s.ts + dt, ..s }
}

/// The state once a level event has been emitted.
pub open spec fn with_level(c: GenConfig, s: SimState, side: Side, px: int, qty: int) -> SimState {
    if full(c, s) {
        s
    } else {
        let ev = BookEvent {
            seq: s.out.len() as u64,
            ts: s.ts as u64,
            px: Px(px as i64),
            qty: Qty(qty as i64),
            side,
            kind: EventKind::Level,
        };
        match side {
            Side::Bid => SimState {
                bids: set_level(s.bids, px as i64, qty as i64),
                out: s.out.push(ev),
                ..s
            },
            Side::Ask => SimState {
                asks: set_level(s.asks, px as i64, qty as i64),
                out: s.out.push(ev),
                ..s
            },
        }
    }
}

/// The state once a trade has been emitted.
pub open spec fn with_trade(c: GenConfig, s: SimState, aggressor: Side, px: Px, qty: int) -> SimState {
    if full(c, s) {
        s
    } else {
        let ev = BookEvent {
            seq: s.out.len() as u64,
            ts: s.ts as u64,
            px,
            qty: Qty(qty as i64),
            side: aggressor,
            kind: EventKind::Trade,
        };
        SimState { out: s.out.push(ev), ..s }
    }
}

/// The state once a clear has been emitted.
pub open spec fn with_clear(c: GenConfig, s: SimState) -> SimState {
    if full(c, s) {
        s
    } else {
        let ev = BookEvent {
            seq: s.out.len() as u64,
            ts: s.ts as u64,
            px: Px(0),
            qty: Qty(0),
            side: Side::Bid,
            kind: EventKind::Clear,
        };
        SimState { bids: Map::empty(), asks: Map::empty(), out: s.out.push(ev), ..s }
    }
}

/// A random number in `0..n`, zero without a draw when `n` is not positive.
pub open spec fn rolled(s: SimState, n: int) -> (int, SimState) {
    if n <= 0 {
        (0, s)
    } else {
        (drawn(s, n as u64) as int, stirred(s))
    }
}

/// A random quantity, at least one and at most the largest.
pub open spec fn random_qty(c: GenConfig, s: SimState) -> (int, SimState) {
    let r = rolled(s, c.largest());
    (1 + r.0, r.1)
}

/// An offset from `off` on that grows while coins come up zero, up to `cap`.
pub open spec fn geometric(s: SimState, cap: int, off: int) -> (int, SimState)
    decreases cap - off,
{
    if off >= cap {
        (off, s)
    } else if drawn(s, 2) == 0 {
        geometric(stirred(s), cap, off + 1)
    } else {
        (off, stirred(s))
    }
}

/// The seeded quantity at an offset: halved at each of the first steps.
pub open spec fn seeded_qty(c: GenConfig, offset: int) -> int {
    let shift: u32 = if offset - 1 > u32::MAX {
        0
    } else if offset - 1 > 6 {
        6
    } else {
        (offset - 1) as u32
    };
    let q = c.max_qty.0 >> shift;
    if q > 1 {
        q as int
    } else {
        1
    }
}

/// The seeding of the ladder from offset `off` outwards.
pub open spec fn seeded_from(c: GenConfig, s: SimState, off: int) -> SimState
    decreases c.band - off + 1,
{
    if off > c.band || full(c, s) {
        s
    } else {
        let q = seeded_qty(c, off);
        let a = with_level(c, s, Side::Bid, c.mid.0 - off, q);
        let b = with_level(c, a, Side::Ask, c.mid.0 + off, q);
        seeded_from(c, b, off + 1)
    }
}

/// A random side.
pub open spec fn random_side(s: SimState) -> (Side, SimState) {
    (if drawn(s, 2) == 0 { Side::Bid } else { Side::Ask }, stirred(s))
}

/// The price at an offset from the middle.
pub open spec fn price_at(c: GenConfig, side: Side, off: int) -> int {
    match side {
        Side::Bid => c.mid.0 - off,
        Side::Ask => c.mid.0 + off,
    }
}

/// A trade at the touch of a random side, if that side has one.
pub open spec fn tried_trade(c: GenConfig, s: SimState) -> (bool, SimState) {
    let side = if drawn(s, 2) == 0 { Side::Bid } else { Side::Ask };
    let s1 = stirred(s);
    let levels = if drawn(s, 2) == 0 { s.bids } else { s.asks };
    match best(side, levels) {
        None => (false, s1),
        Some((p, _)) => {
            let (q, s2) = random_qty(c, s1);
            let aggressor = match side {
                Side::Bid => Side::Ask,
                Side::Ask => Side::Bid,
            };
            (true, with_trade(c, s2, aggressor, p, q))
        },
    }
}

/// An update of a level near the touch, one in ten a removal.
pub open spec fn with_update(c: GenConfig, s: SimState) -> SimState {
    let (side, s1) = random_side(s);
    let depth = if c.band < 1 {
        1
    } else if c.band < STEADY_DEPTH {
        c.band as int
    } else {
        STEADY_DEPTH as int
    };
    let (off, s2) = geometric(s1, depth, 1);
    let px = price_at(c, side, c.within(off));
    if drawn(s2, 10) == 0 {
        with_level(c, stirred(s2), side, px, 0)
    } else {
        let (q, s3) = random_qty(c, stirred(s2));
        with_level(c, s3, side, px, q)
    }
}

/// A level set or removed near the edge of the band.
pub open spec fn with_churn(c: GenConfig, s: SimState) -> SimState {
    let (side, s1) = random_side(s);
    let (r, s2) = rolled(s1, c.band - STEADY_DEPTH);
    let px = price_at(c, side, c.within(STEADY_DEPTH + 1 + r));
    if drawn(s2, 2) == 0 {
        let (q, s3) = random_qty(c, stirred(s2));
        with_level(c, s3, side, px, q)
    } else {
        with_level(c, stirred(s2), side, px, 0)
    }
}

/// One event of steady flow.
pub open spec fn steady(c: GenConfig, s: SimState) -> SimState {
    let r = drawn(s, 100);
    let s1 = stirred(s);
    if r < TRADE_PCT {
        let (done, s2) = tried_trade(c, s1);
        if done {
            s2
        } else {
            with_churn(c, s2)
        }
    } else if r < TRADE_PCT + CHURN_PCT {
        with_churn(c, s1)
    } else {
        with_update(c, s1)
    }
}

/// The clock moved by a base interval and a random part.
pub open spec fn paced(s: SimState, base: u64, spread: u64) -> SimState {
    later(stirred(s), base + drawn(s, spread))
}

/// Up to `n` steady events, each followed by an interval.
pub open spec fn stretch(c: GenConfig, s: SimState, n: nat, base: u64, spread: u64) -> SimState
    decreases n,
{
    if n == 0 || full(c, s) {
        s
    } else {
        stretch(c, paced(steady(c, s), base, spread), (n - 1) as nat, base, spread)
    }
}

/// A calm stretch and a burst.
pub open spec fn burst(c: GenConfig, s: SimState) -> SimState {
    let a = stretch(c, stirred(s), (20 + drawn(s, 40)) as nat, CALM_DT, CALM_DT);
    if full(c, a) {
        a
    } else {
        stretch(c, stirred(a), (200 + drawn(a, 120)) as nat, 0, 2)
    }
}

/// Up to `n` best bids traded through and removed, one after the other.
pub open spec fn swept(c: GenConfig, s: SimState, n: nat) -> SimState
    decreases n,
{
    if n == 0 || full(c, s) {
        s
    } else {
        match best(Side::Bid, s.bids) {
            None => s,
            Some((p, q)) => {
                let a = with_trade(c, s, Side::Ask, p, q.0 as int);
                let b = with_level(c, a, Side::Bid, p.0 as int, 0);
                swept(c, paced(b, 0, 3), (n - 1) as nat)
            },
        }
    }
}

/// Bids rebuilt from offset `k` to offset `last`.
pub open spec fn recovered(c: GenConfig, s: SimState, k: int, last: int) -> SimState
    decreases last - k + 1,
{
    if k > last || full(c, s) {
        s
    } else {
        let (q, s1) = random_qty(c, s);
        let s2 = with_level(c, s1, Side::Bid, c.mid.0 - k, q);
        recovered(c, paced(s2, STEADY_DT, STEADY_JITTER), k + 1, last)
    }
}

/// The number of bids that a crash sweeps.
pub open spec fn sweep_len(c: GenConfig) -> int {
    if c.band > 0 && 3 * c.band / 4 > 20 {
        3 * c.band / 4
    } else {
        20
    }
}

/// Steady flow, a sweep through the bids and a partial recovery.
pub open spec fn crash(c: GenConfig, s: SimState) -> SimState {
    let a = stretch(
        c,
        stirred(s),
        (200 + drawn(s, 200)) as nat,
        STEADY_DT,
        STEADY_JITTER,
    );
    if full(c, a) {
        a
    } else {
        let b = swept(c, a, sweep_len(c) as nat);
        if full(c, b) {
            b
        } else {
            recovered(c, b, 1, c.within(sweep_len(c) / 2))
        }
    }
}

/// One cycle of a profile.
#[verifier::opaque]
pub open spec fn cycle(c: GenConfig, s: SimState) -> SimState {
    match c.profile {
        Profile::Steady => paced(steady(c, s), STEADY_DT, STEADY_JITTER),
        Profile::Burst => burst(c, s),
        Profile::FlashCrash => crash(c, s),
    }
}

/// Cycles until the wanted number of events has been emitted.
pub open spec fn run(c: GenConfig, s: SimState) -> SimState
    decreases c.events - s.out.len(),
{
    if full(c, s) {
        s
    } else {
        let t = cycle(c, s);
        if s.out.len() < t.out.len() <= c.events {
            run(c, t)
        } else {
            t
        }
    }
}

/// The state before the first event.
pub open spec fn initial(c: GenConfig) -> SimState {
    SimState {
        rng: c.seed,
        ts: c.start_ts as int,
        bids: Map::empty(),
        asks: Map::empty(),
        out: Seq::empty(),
    }
}

/// The stream of a configuration.
pub open spec fn generated(c: GenConfig) -> Seq<BookEvent> {
    run(c, seeded_from(c, with_clear(c, initial(c)), 1)).out
}

/// Whether a trade prints at the touch that it hits.
pub open spec fn at_touch(m: BookModel, ev: BookEvent) -> bool {
    match ev.side {
        Side::Ask => touch(Side::Bid, m.bids) == Some(ev.px),
        Side::Bid => touch(Side::Ask, m.asks) == Some(ev.px),
    }
}

/// What holds of every state of the generator.
pub open spec fn sound(c: GenConfig, s: SimState) -> bool {
    &&& s.out.len() <= c.events
    &&& c.start_ts <= s.ts <= c.start_ts + c.max_interval() * c.flow(s.out.len() as int)
    &&& s.bids.dom().finite()
    &&& s.asks.dom().finite()
    &&& replay(BookModel::empty(), s.out).bids == s.bids
    &&& replay(BookModel::empty(), s.out).asks == s.asks
    &&& stream_ok(c, s.out)
    &&& s.out.len() > 0 ==> s.out.last().ts <= s.ts
}

/// What holds of every prefix of the stream: it is numbered from zero and in order of
/// time; its first event is a clear, and no other one is; every level lies in the band,
/// on its side of the middle, with a quantity up to the largest; and every trade is at
/// the touch, with a quantity from one to the largest.
pub open spec fn stream_ok(c: GenConfig, out: Seq<BookEvent>) -> bool {
    &&& forall|i: int| 0 <= i < out.len() ==> (#[trigger] out[i]).seq == i
    &&& forall|i: int, j: int|
        0 <= i <= j < out.len() ==> (#[trigger] out[i]).ts <= (#[trigger] out[j]).ts
    &&& forall|i: int| 0 <= i < out.len() ==> c.start_ts <= (#[trigger] out[i]).ts
    &&& forall|i: int|
        0 <= i < out.len() && (#[trigger] out[i]).kind is Level ==> c.placed(
            out[i].side,
            out[i].px.0 as int,
        ) && 0 <= out[i].qty.0 <= c.largest()
    &&& forall|i: int|
        0 <= i < out.len() && (#[trigger] out[i]).kind is Trade ==> at_touch(
            replay(BookModel::empty(), out.take(i)),
            out[i],
        ) && 1 <= out[i].qty.0 <= c.largest()
    &&& forall|i: int| 0 <= i < out.len() ==> ((#[trigger] out[i]).kind is Clear <==> i == 0)
}

/// Emitting one event that fits the stream keeps the state sound.
proof fn lemma_push(c: GenConfig, s: SimState, ev: BookEvent, bids: Levels, asks: Levels)
    requires
        c.admissible(),
        sound(c, s),
        !full(c, s),
        ev.seq == s.out.len(),
        ev.ts == s.ts,
        apply_event(replay(BookModel::empty(), s.out), ev).bids == bids,
        apply_event(replay(BookModel::empty(), s.out), ev).asks == asks,
        bids.dom().finite(),
        asks.dom().finite(),
        ev.kind is Level ==> c.placed(ev.side, ev.px.0 as int) && 0 <= ev.qty.0 <= c.largest(),
        ev.kind is Trade ==> at_touch(replay(BookModel::empty(), s.out), ev) && 1 <= ev.qty.0
            <= c.largest(),
        ev.kind is Clear <==> s.out.len() == 0,
    ensures
        sound(c, SimState { bids, asks, out: s.out.push(ev), ..s }),
{
    let t = s.out.push(ev);
    assert(t.drop_last() =~= s.out);
    assert forall|i: int| 0 <= i < t.len() && (#[trigger] t[i]).kind is Trade implies at_touch(
        replay(BookModel::empty(), t.take(i)),
        t[i],
    ) && 1 <= t[i].qty.0 <= c.largest() by {
        if i < s.out.len() {
            assert(t.take(i) =~= s.out.take(i));
            assert(t[i] == s.out[i]);
        } else {
            assert(t.take(i) =~= s.out);
        }
    }
    assert forall|i: int, j: int| 0 <= i <= j < t.len() implies (#[trigger] t[i]).ts <= (
    #[trigger] t[j]).ts by {
        if j == s.out.len() && i < j {
            assert(s.out[i].ts <= s.out.last().ts);
        }
    }
    lemma_flow(c, s.out.len() as int, t.len() as int);
}

/// More events may take more time.
proof fn lemma_flow(c: GenConfig, m: int, n: int)
    requires
        m <= n,
    ensures
        c.max_interval() * c.flow(m) <= c.max_interval() * c.flow(n),
        m >= c.seeding() && m < n ==> c.max_interval() * c.flow(m) + c.max_interval()
            <= c.max_interval() * c.flow(n),
{
    let k = c.max_interval();
    let a = c.flow(m);
    let b = c.flow(n);
    assert(k * a <= k * b) by (nonlinear_arith)
        requires
            a <= b,
            k >= 0,
    ;
    if m >= c.seeding() && m < n {
        assert(k * a + k <= k * b) by (nonlinear_arith)
            requires
                a + 1 <= b,
                k >= 0,
        ;
    }
}

/// The clock of a sound state fits its machine integer.
proof fn lemma_clock(c: GenConfig, s: SimState)
    requires
        c.admissible(),
        sound(c, s),
    ensures
        0 <= s.ts <= u64::MAX,
        s.ts <= c.start_ts + c.max_interval() * c.flow(c.events as int),
{
    lemma_flow(c, s.out.len() as int, c.events as int);
}

proof fn lemma_with_level(c: GenConfig, s: SimState, side: Side, px: int, qty: int)
    requires
        c.admissible(),
        sound(c, s),
        s.out.len() > 0,
        c.placed(side, px),
        0 <= qty <= c.largest(),
    ensures
        sound(c, with_level(c, s, side, px, qty)),
        with_level(c, s, side, px, qty).out.len() == (if full(c, s) {
            s.out.len()
        } else {
            s.out.len() + 1
        }),
        with_level(c, s, side, px, qty).ts == s.ts,
{
    if !full(c, s) {
        lemma_clock(c, s);
        let t = with_level(c, s, side, px, qty);
        let ev = t.out.last();
        lemma_push(c, s, ev, t.bids, t.asks);
        assert(t.out =~= s.out.push(ev));
    }
}

proof fn lemma_with_trade(c: GenConfig, s: SimState, aggressor: Side, px: Px, qty: int)
    requires
        c.admissible(),
        sound(c, s),
        s.out.len() > 0,
        match aggressor {
            Side::Ask => touch(Side::Bid, s.bids) == Some(px),
            Side::Bid => touch(Side::Ask, s.asks) == Some(px),
        },
        1 <= qty <= c.largest(),
    ensures
        sound(c, with_trade(c, s, aggressor, px, qty)),
        with_trade(c, s, aggressor, px, qty).out.len() == (if full(c, s) {
            s.out.len()
        } else {
            s.out.len() + 1
        }),
        with_trade(c, s, aggressor, px, qty).ts == s.ts,
{
    if !full(c, s) {
        lemma_clock(c, s);
        let t = with_trade(c, s, aggressor, px, qty);
        let ev = t.out.last();
        lemma_push(c, s, ev, s.bids, s.asks);
        assert(t.out =~= s.out.push(ev));
    }
}

proof fn lemma_with_clear(c: GenConfig)
    requires
        c.admissible(),
    ensures
        sound(c, initial(c)),
        sound(c, with_clear(c, initial(c))),
        c.events > 0 ==> with_clear(c, initial(c)).out.len() == 1,
{
    let s = initial(c);
    assert(sound(c, s));
    if !full(c, s) {
        let t = with_clear(c, s);
        let ev = t.out.last();
        lemma_push(c, s, ev, t.bids, t.asks);
        assert(t.out =~= s.out.push(ev));
    }
}

proof fn lemma_geometric(s: SimState, cap: int, off: int)
    requires
        off <= cap,
    ensures
        off <= geometric(s, cap, off).0 <= cap,
        geometric(s, cap, off).1 == (SimState { rng: geometric(s, cap, off).1.rng, ..s }),
    decreases cap - off,
{
    if off < cap && drawn(s, 2) == 0 {
        lemma_geometric(stirred(s), cap, off + 1);
    }
}

proof fn lemma_with_churn(c: GenConfig, s: SimState)
    requires
        c.admissible(),
        sound(c, s),
        s.out.len() > 0,
    ensures
        sound(c, with_churn(c, s)),
        !full(c, s) ==> with_churn(c, s).out.len() == s.out.len() + 1,
        with_churn(c, s).out.len() >= s.out.len(),
        with_churn(c, s).ts == s.ts,
{
    let (side, s1) = random_side(s);
    let (r, s2) = rolled(s1, c.band - STEADY_DEPTH);
    let px = price_at(c, side, c.within(STEADY_DEPTH + 1 + r));
    if drawn(s2, 2) == 0 {
        let (q, s3) = random_qty(c, stirred(s2));
        lemma_with_level(c, s3, side, px, q);
    } else {
        lemma_with_level(c, stirred(s2), side, px, 0);
    }
}

proof fn lemma_with_update(c: GenConfig, s: SimState)
    requires
        c.admissible(),
        sound(c, s),
        s.out.len() > 0,
    ensures
        sound(c, with_update(c, s)),
        !full(c, s) ==> with_update(c, s).out.len() == s.out.len() + 1,
        with_update(c, s).out.len() >= s.out.len(),
        with_update(c, s).ts == s.ts,
{
    let (side, s1) = random_side(s);
    let depth: int = if c.band < 1 {
        1
    } else if c.band < STEADY_DEPTH {
        c.band as int
    } else {
        STEADY_DEPTH as int
    };
    lemma_geometric(s1, depth, 1);
    let (off, s2) = geometric(s1, depth, 1);
    let px = price_at(c, side, c.within(off));
    if drawn(s2, 10) == 0 {
        lemma_with_level(c, stirred(s2), side, px, 0);
    } else {
        let (q, s3) = random_qty(c, stirred(s2));
        lemma_with_level(c, s3, side, px, q);
    }
}

proof fn lemma_tried_trade(c: GenConfig, s: SimState)
    requires
        c.admissible(),
        sound(c, s),
        s.out.len() > 0,
    ensures
        sound(c, tried_trade(c, s).1),
        tried_trade(c, s).1.out.len() == (if tried_trade(c, s).0 && !full(c, s) {
            s.out.len() + 1
        } else {
            s.out.len()
        }),
        tried_trade(c, s).1.ts == s.ts,
{
    let side = if drawn(s, 2) == 0 { Side::Bid } else { Side::Ask };
    let s1 = stirred(s);
    let levels = if drawn(s, 2) == 0 { s.bids } else { s.asks };
    match best(side, levels) {
        None => {},
        Some((p, _)) => {
            let (q, s2) = random_qty(c, s1);
            let aggressor = match side {
                Side::Bid => Side::Ask,
                Side::Ask => Side::Bid,
            };
            lemma_with_trade(c, s2, aggressor, p, q);
        },
    }
}

/// A steady event keeps the state sound and adds one event.
proof fn lemma_steady(c: GenConfig, s: SimState)
    requires
        c.admissible(),
        sound(c, s),
        s.out.len() > 0,
    ensures
        sound(c, steady(c, s)),
        !full(c, s) ==> steady(c, s).out.len() == s.out.len() + 1,
        steady(c, s).out.len() >= s.out.len(),
        steady(c, s).ts == s.ts,
{
    let s1 = stirred(s);
    lemma_tried_trade(c, s1);
    lemma_with_churn(c, tried_trade(c, s1).1);
    lemma_with_churn(c, s1);
    lemma_with_update(c, s1);
}

/// Moving the clock after an event keeps the state sound.
proof fn lemma_paced(c: GenConfig, before: SimState, s: SimState, base: u64, spread: u64)
    requires
        c.admissible(),
        sound(c, before),
        sound(c, s),
        s.ts == before.ts,
        s.out.len() > before.out.len() >= c.seeding(),
        spread > 0,
        base + spread - 1 <= c.max_interval(),
    ensures
        sound(c, paced(s, base, spread)),
        paced(s, base, spread).out == s.out,
        paced(s, base, spread).ts <= u64::MAX,
{
    lemma_flow(c, before.out.len() as int, s.out.len() as int);
    lemma_clock(c, paced(s, base, spread));
}

proof fn lemma_stretch(c: GenConfig, s: SimState, n: nat, base: u64, spread: u64)
    requires
        c.admissible(),
        sound(c, s),
        s.out.len() >= c.seeding(),
        spread > 0,
        base + spread - 1 <= c.max_interval(),
    ensures
        sound(c, stretch(c, s, n, base, spread)),
        stretch(c, s, n, base, spread).out.len() >= s.out.len(),
        n > 0 && !full(c, s) ==> stretch(c, s, n, base, spread).out.len() > s.out.len(),
    decreases n,
{
    if n > 0 && !full(c, s) {
        lemma_steady(c, s);
        lemma_paced(c, s, steady(c, s), base, spread);
        lemma_stretch(c, paced(steady(c, s), base, spread), (n - 1) as nat, base, spread);
    }
}

proof fn lemma_swept(c: GenConfig, s: SimState, n: nat)
    requires
        c.admissible(),
        c.profile is FlashCrash,
        sound(c, s),
        s.out.len() >= c.seeding(),
    ensures
        sound(c, swept(c, s, n)),
        swept(c, s, n).out.len() >= s.out.len(),
    decreases n,
{
    if n > 0 && !full(c, s) {
        match best(Side::Bid, s.bids) {
            None => {},
            Some((p, q)) => {
                lemma_sweep_step(c, s, p, q);
                let a = with_trade(c, s, Side::Ask, p, q.0 as int);
                let b = with_level(c, a, Side::Bid, p.0 as int, 0);
                lemma_swept(c, paced(b, 0, 3), (n - 1) as nat);
            },
        }
    }
}

/// Every level of the generator's book lies in the band, with a quantity from one to
/// the largest.
proof fn lemma_levels_in_band(c: GenConfig, out: Seq<BookEvent>, side: Side, p: i64)
    requires
        stream_ok(c, out),
        replay(BookModel::empty(), out).side(side).contains_key(p),
    ensures
        c.placed(side, p as int),
        1 <= replay(BookModel::empty(), out).side(side)[p] <= c.largest(),
    decreases out.len(),
{
    if out.len() > 0 {
        let init = out.drop_last();
        let ev = out.last();
        assert(out[out.len() - 1] == ev);
        let m = replay(BookModel::empty(), init);
        assert forall|i: int| 0 <= i < init.len() && (#[trigger] init[i]).kind is Trade implies at_touch(
            replay(BookModel::empty(), init.take(i)),
            init[i],
        ) && 1 <= init[i].qty.0 <= c.largest() by {
            assert(init[i] == out[i]);
            assert(init.take(i) =~= out.take(i));
        }
        assert(stream_ok(c, init)) by {
            assert forall|i: int| 0 <= i < init.len() implies (#[trigger] init[i]) == out[i] by {}
        }
        if m.side(side).contains_key(p) {
            lemma_levels_in_band(c, init, side, p);
        }
    }
}

/// One step of a sweep keeps the state sound.
proof fn lemma_sweep_step(c: GenConfig, s: SimState, p: Px, q: Qty)
    requires
        c.admissible(),
        c.profile is FlashCrash,
        sound(c, s),
        s.out.len() >= c.seeding(),
        !full(c, s),
        best(Side::Bid, s.bids) == Some((p, q)),
    ensures
        ({
            let a = with_trade(c, s, Side::Ask, p, q.0 as int);
            let b = with_level(c, a, Side::Bid, p.0 as int, 0);
            &&& sound(c, a)
            &&& sound(c, b)
            &&& b.out.len() > s.out.len()
            &&& b.ts == s.ts
            &&& sound(c, paced(b, 0, 3))
            &&& paced(b, 0, 3).ts <= u64::MAX
            &&& c.placed(Side::Bid, p.0 as int)
            &&& 1 <= q.0 <= c.largest()
        }),
{
    let a = with_trade(c, s, Side::Ask, p, q.0 as int);
    assert(exists|x: i64| is_best(Side::Bid, s.bids, x));
    assert(s.bids.contains_key(p.0));
    lemma_levels_in_band(c, s.out, Side::Bid, p.0);
    lemma_with_trade(c, s, Side::Ask, p, q.0 as int);
    lemma_with_level(c, a, Side::Bid, p.0 as int, 0);
    let b = with_level(c, a, Side::Bid, p.0 as int, 0);
    lemma_paced(c, s, b, 0, 3);
}

proof fn lemma_recovered(c: GenConfig, s: SimState, k: int, last: int)
    requires
        c.admissible(),
        c.profile is FlashCrash,
        sound(c, s),
        s.out.len() >= c.seeding(),
        1 <= k,
        last <= c.width(),
    ensures
        sound(c, recovered(c, s, k, last)),
        recovered(c, s, k, last).out.len() >= s.out.len(),
    decreases last - k + 1,
{
    if k <= last && !full(c, s) {
        let (q, s1) = random_qty(c, s);
        lemma_with_level(c, s1, Side::Bid, c.mid.0 - k, q);
        let s2 = with_level(c, s1, Side::Bid, c.mid.0 - k, q);
        lemma_paced(c, s1, s2, STEADY_DT, STEADY_JITTER);
        lemma_recovered(c, paced(s2, STEADY_DT, STEADY_JITTER), k + 1, last);
    }
}

/// A seeded quantity is a quantity of a level.
proof fn lemma_seeded_qty(c: GenConfig, offset: int)
    requires
        offset >= 1,
    ensures
        1 <= seeded_qty(c, offset) <= c.largest(),
{
    let q = c.max_qty.0;
    let shift: u32 = if offset - 1 > u32::MAX {
        0
    } else if offset - 1 > 6 {
        6
    } else {
        (offset - 1) as u32
    };
    assert(shift <= 6 ==> (q >> shift) <= 1 || (q >> shift) <= q) by (bit_vector);
}

proof fn lemma_seeded_from(c: GenConfig, s: SimState, off: int)
    requires
        c.admissible(),
        sound(c, s),
        s.out.len() > 0,
        off >= 1,
    ensures
        sound(c, seeded_from(c, s, off)),
        seeded_from(c, s, off).out.len() >= s.out.len(),
        s.out.len() == 2 * off - 1 && off <= c.width() + 1 ==> seeded_from(c, s, off).out.len()
            >= c.seeding() || full(c, seeded_from(c, s, off)),
    decreases c.band - off + 1,
{
    if off <= c.band && !full(c, s) {
        let q = seeded_qty(c, off);
        lemma_seeded_qty(c, off);
        lemma_with_level(c, s, Side::Bid, c.mid.0 - off, q);
        let a = with_level(c, s, Side::Bid, c.mid.0 - off, q);
        lemma_with_level(c, a, Side::Ask, c.mid.0 + off, q);
        let b = with_level(c, a, Side::Ask, c.mid.0 + off, q);
        lemma_seeded_from(c, b, off + 1);
    }
}

/// A cycle keeps the state sound and adds at least one event.
proof fn lemma_cycle(c: GenConfig, s: SimState)
    requires
        c.admissible(),
        sound(c, s),
        s.out.len() >= c.seeding(),
        !full(c, s),
    ensures
        sound(c, cycle(c, s)),
        cycle(c, s).out.len() > s.out.len(),
{
    reveal(cycle);
    match c.profile {
        Profile::Steady => {
            lemma_steady(c, s);
            lemma_paced(c, s, steady(c, s), STEADY_DT, STEADY_JITTER);
        },
        Profile::Burst => {
            let n = (20 + drawn(s, 40)) as nat;
            lemma_stretch(c, stirred(s), n, CALM_DT, CALM_DT);
            let a = stretch(c, stirred(s), n, CALM_DT, CALM_DT);
            lemma_stretch(c, stirred(a), (200 + drawn(a, 120)) as nat, 0, 2);
        },
        Profile::FlashCrash => {
            let n = (200 + drawn(s, 200)) as nat;
            lemma_stretch(c, stirred(s), n, STEADY_DT, STEADY_JITTER);
            let a = stretch(c, stirred(s), n, STEADY_DT, STEADY_JITTER);
            lemma_swept(c, a, sweep_len(c) as nat);
            let b = swept(c, a, sweep_len(c) as nat);
            lemma_recovered(c, b, 1, c.within(sweep_len(c) / 2));
        },
    }
}

/// A run keeps the state sound and ends with the wanted number of events.
proof fn lemma_run(c: GenConfig, s: SimState)
    requires
        c.admissible(),
        sound(c, s),
        s.out.len() >= c.seeding() || full(c, s),
    ensures
        sound(c, run(c, s)),
        run(c, s).out.len() == c.events,
    decreases c.events - s.out.len(),
{
    if !full(c, s) {
        lemma_cycle(c, s);
        lemma_run(c, cycle(c, s));
    }
}

/// A stream has the wanted number of events, is numbered from zero without gaps,
/// never goes back in time, starts with its only clear, keeps every level in the band on
/// its side of the middle price, prints every trade at the touch of the book that the
/// events before it build, and keeps every quantity up to the largest.
pub proof fn law_stream(c: GenConfig)
    requires
        c.admissible(),
    ensures
        generated(c).len() == c.events,
        stream_ok(c, generated(c)),
{
    lemma_with_clear(c);
    let s = with_clear(c, initial(c));
    if c.events > 0 {
        lemma_seeded_from(c, s, 1);
    }
    lemma_run(c, seeded_from(c, s, 1));
}

/// The touch of the book that a stream builds never leaves the band: at every point it
/// lies at most the band away from the middle price, on its own side of it.
pub proof fn law_touch_never_leaves_the_band(c: GenConfig, n: int, side: Side)
    requires
        c.admissible(),
        0 <= n <= c.events,
    ensures
        ({
            let levels = replay(BookModel::empty(), generated(c).take(n)).side(side);
            touch(side, levels) matches Some(p) ==> {
                &&& c.placed(side, p.0 as int)
                &&& c.band >= 0 ==> c.mid.0 - c.band <= p.0 <= c.mid.0 + c.band
            }
        }),
{
    law_stream(c);
    let out = generated(c);
    let pre = out.take(n);
    let levels = replay(BookModel::empty(), pre).side(side);
    if let Some(px) = touch(side, levels) {
        let p = px.0;
        assert(exists|x: i64| is_best(side, levels, x));
        assert(levels.contains_key(p));
        assert(stream_ok(c, pre)) by {
            assert forall|i: int| 0 <= i < pre.len() implies (#[trigger] pre[i]) == out[i] by {}
            assert forall|i: int| 0 <= i < pre.len() && (#[trigger] pre[i]).kind is Trade implies at_touch(
                replay(BookModel::empty(), pre.take(i)),
                pre[i],
            ) && 1 <= pre[i].qty.0 <= c.largest() by {
                assert(pre.take(i) =~= out.take(i));
            }
        }
        lemma_levels_in_band(c, pre, side, p);
    }
}

/// Whether `x` is the front of `y`.
spec fn front(x: Seq<BookEvent>, y: Seq<BookEvent>) -> bool {
    x.len() <= y.len() && y.take(x.len() as int) == x
}

proof fn lemma_front(x: Seq<BookEvent>, y: Seq<BookEvent>, z: Seq<BookEvent>)
    requires
        front(x, y),
        front(y, z),
    ensures
        front(x, z),
{
    assert(z.take(x.len() as int) =~= y.take(x.len() as int));
}

proof fn lemma_front_same(x: Seq<BookEvent>)
    ensures
        front(x, x),
{
    assert(x.take(x.len() as int) =~= x);
}

proof fn lemma_front_push(x: Seq<BookEvent>, ev: BookEvent)
    ensures
        front(x, x.push(ev)),
{
    assert(x.push(ev).take(x.len() as int) =~= x);
}

/// Whether two configurations differ only in that `d` wants no more events than `c`.
spec fn wants_fewer(d: GenConfig, c: GenConfig) -> bool {
    &&& d.events <= c.events
    &&& d == (GenConfig { events: d.events, ..c })
}

/// Whether `a` is a state on the way to fewer events where `b` is one on the way to
/// more: the same state, or one that is full and has the front of the other's events.
spec fn cut(d: GenConfig, a: SimState, b: SimState) -> bool {
    ||| a == b && a.out.len() <= d.events
    ||| a.out.len() == d.events && front(a.out, b.out)
}

proof fn lemma_level_adds(c: GenConfig, s: SimState, side: Side, px: int, qty: int)
    ensures
        front(s.out, with_level(c, s, side, px, qty).out),
        full(c, s) ==> with_level(c, s, side, px, qty) == s,
{
    lemma_front_same(s.out);
    if !full(c, s) {
        lemma_front_push(s.out, with_level(c, s, side, px, qty).out.last());
        assert(with_level(c, s, side, px, qty).out =~= s.out.push(
            with_level(c, s, side, px, qty).out.last(),
        ));
    }
}

proof fn lemma_trade_adds(c: GenConfig, s: SimState, aggressor: Side, px: Px, qty: int)
    ensures
        front(s.out, with_trade(c, s, aggressor, px, qty).out),
        full(c, s) ==> with_trade(c, s, aggressor, px, qty) == s,
{
    lemma_front_same(s.out);
    if !full(c, s) {
        lemma_front_push(s.out, with_trade(c, s, aggressor, px, qty).out.last());
        assert(with_trade(c, s, aggressor, px, qty).out =~= s.out.push(
            with_trade(c, s, aggressor, px, qty).out.last(),
        ));
    }
}

proof fn lemma_churn_adds(c: GenConfig, s: SimState)
    ensures
        front(s.out, with_churn(c, s).out),
        full(c, s) ==> with_churn(c, s).out == s.out,
        !full(c, s) ==> with_churn(c, s).out.len() == s.out.len() + 1,
{
    let (side, s1) = random_side(s);
    let (r, s2) = rolled(s1, c.band - STEADY_DEPTH);
    let px = price_at(c, side, c.within(STEADY_DEPTH + 1 + r));
    let (q, s3) = random_qty(c, stirred(s2));
    lemma_level_adds(c, s3, side, px, q);
    lemma_level_adds(c, stirred(s2), side, px, 0);
}

proof fn lemma_steady_adds(c: GenConfig, s: SimState)
    ensures
        front(s.out, steady(c, s).out),
        full(c, s) ==> steady(c, s).out == s.out,
        !full(c, s) ==> steady(c, s).out.len() == s.out.len() + 1,
{
    let s0 = stirred(s);
    // A trade.
    let side = if drawn(s0, 2) == 0 { Side::Bid } else { Side::Ask };
    let levels = if drawn(s0, 2) == 0 { s0.bids } else { s0.asks };
    if let Some((p, _)) = best(side, levels) {
        let (q, s2) = random_qty(c, stirred(s0));
        let aggressor = match side {
            Side::Bid => Side::Ask,
            Side::Ask => Side::Bid,
        };
        lemma_trade_adds(c, s2, aggressor, p, q);
    }
    // Churn.
    lemma_churn_adds(c, tried_trade(c, s0).1);
    lemma_churn_adds(c, s0);
    // An update.
    let (side, s1) = random_side(s0);
    let depth: int = if c.band < 1 {
        1
    } else if c.band < STEADY_DEPTH {
        c.band as int
    } else {
        STEADY_DEPTH as int
    };
    lemma_geometric(s1, depth, 1);
    let (off, s2) = geometric(s1, depth, 1);
    let px = price_at(c, side, c.within(off));
    let (q, s3) = random_qty(c, stirred(s2));
    lemma_level_adds(c, stirred(s2), side, px, 0);
    lemma_level_adds(c, s3, side, px, q);
}

proof fn lemma_churn_same(d: GenConfig, c: GenConfig, s: SimState)
    requires
        wants_fewer(d, c),
        !full(d, s),
    ensures
        with_churn(d, s) == with_churn(c, s),
{
    let (side, s1) = random_side(s);
    let (r, s2) = rolled(s1, c.band - STEADY_DEPTH);
    assert(d.within(STEADY_DEPTH + 1 + r) == c.within(STEADY_DEPTH + 1 + r));
    assert(random_qty(d, stirred(s2)) == random_qty(c, stirred(s2)));
}

proof fn lemma_update_same(d: GenConfig, c: GenConfig, s: SimState)
    requires
        wants_fewer(d, c),
        !full(d, s),
    ensures
        with_update(d, s) == with_update(c, s),
{
    let (side, s1) = random_side(s);
    let depth: int = if c.band < 1 {
        1
    } else if c.band < STEADY_DEPTH {
        c.band as int
    } else {
        STEADY_DEPTH as int
    };
    lemma_geometric(s1, depth, 1);
    let (off, s2) = geometric(s1, depth, 1);
    assert(d.within(off) == c.within(off));
    assert(random_qty(d, stirred(s2)) == random_qty(c, stirred(s2)));
}

proof fn lemma_trade_same(d: GenConfig, c: GenConfig, s: SimState)
    requires
        wants_fewer(d, c),
        !full(d, s),
    ensures
        tried_trade(d, s) == tried_trade(c, s),
        !tried_trade(c, s).0 ==> tried_trade(c, s).1.out == s.out,
{
    assert(random_qty(d, stirred(s)) == random_qty(c, stirred(s)));
}

/// A steady event is the same whatever the number of events that are wanted.
proof fn lemma_steady_same(d: GenConfig, c: GenConfig, s: SimState)
    requires
        wants_fewer(d, c),
        !full(d, s),
    ensures
        steady(d, s) == steady(c, s),
{
    let s1 = stirred(s);
    lemma_trade_same(d, c, s1);
    if !tried_trade(c, s1).0 {
        lemma_churn_same(d, c, tried_trade(c, s1).1);
    }
    lemma_churn_same(d, c, s1);
    lemma_update_same(d, c, s1);
}

/// A sound state is sound whatever the number of events that are wanted.
proof fn lemma_sound_same(d: GenConfig, c: GenConfig, s: SimState)
    requires
        wants_fewer(d, c),
        sound(d, s),
    ensures
        sound(c, s),
{
    assert forall|i: int| 0 <= i < s.out.len() && (#[trigger] s.out[i]).kind is Level implies c.placed(
        s.out[i].side,
        s.out[i].px.0 as int,
    ) && 0 <= s.out[i].qty.0 <= c.largest() by {
        assert(d.placed(s.out[i].side, s.out[i].px.0 as int));
    }
    assert(d.largest() == c.largest());
    assert(d.flow(s.out.len() as int) == c.flow(s.out.len() as int));
    assert(stream_ok(c, s.out));
}

proof fn lemma_stretch_adds(c: GenConfig, s: SimState, n: nat, base: u64, spread: u64)
    ensures
        front(s.out, stretch(c, s, n, base, spread).out),
    decreases n,
{
    lemma_front_same(s.out);
    if n > 0 && !full(c, s) {
        let t = paced(steady(c, s), base, spread);
        lemma_steady_adds(c, s);
        lemma_stretch_adds(c, t, (n - 1) as nat, base, spread);
        lemma_front(s.out, t.out, stretch(c, t, (n - 1) as nat, base, spread).out);
    }
}

proof fn lemma_stretch_cut(
    d: GenConfig,
    c: GenConfig,
    s: SimState,
    n: nat,
    base: u64,
    spread: u64,
)
    requires
        wants_fewer(d, c),
        s.out.len() <= d.events,
    ensures
        cut(d, stretch(d, s, n, base, spread), stretch(c, s, n, base, spread)),
    decreases n,
{
    if full(d, s) {
        lemma_stretch_adds(c, s, n, base, spread);
    } else if n > 0 {
        lemma_steady_same(d, c, s);
        lemma_steady_adds(d, s);
        lemma_stretch_cut(d, c, paced(steady(d, s), base, spread), (n - 1) as nat, base, spread);
    }
}

proof fn lemma_swept_adds(c: GenConfig, s: SimState, n: nat)
    ensures
        front(s.out, swept(c, s, n).out),
    decreases n,
{
    lemma_front_same(s.out);
    if n > 0 && !full(c, s) {
        if let Some((p, q)) = best(Side::Bid, s.bids) {
            let a = with_trade(c, s, Side::Ask, p, q.0 as int);
            let b = with_level(c, a, Side::Bid, p.0 as int, 0);
            lemma_trade_adds(c, s, Side::Ask, p, q.0 as int);
            lemma_level_adds(c, a, Side::Bid, p.0 as int, 0);
            lemma_front(s.out, a.out, b.out);
            lemma_swept_adds(c, paced(b, 0, 3), (n - 1) as nat);
            lemma_front(s.out, b.out, swept(c, paced(b, 0, 3), (n - 1) as nat).out);
        }
    }
}

proof fn lemma_swept_cut(d: GenConfig, c: GenConfig, s: SimState, n: nat)
    requires
        wants_fewer(d, c),
        s.out.len() <= d.events,
    ensures
        cut(d, swept(d, s, n), swept(c, s, n)),
    decreases n,
{
    if full(d, s) {
        lemma_swept_adds(c, s, n);
    } else if n > 0 {
        if let Some((p, q)) = best(Side::Bid, s.bids) {
            let a = with_trade(d, s, Side::Ask, p, q.0 as int);
            assert(a == with_trade(c, s, Side::Ask, p, q.0 as int));
            let b = with_level(d, a, Side::Bid, p.0 as int, 0);
            let e = with_level(c, a, Side::Bid, p.0 as int, 0);
            if full(d, a) {
                lemma_level_adds(c, a, Side::Bid, p.0 as int, 0);
                lemma_swept_adds(c, paced(e, 0, 3), (n - 1) as nat);
                lemma_front(a.out, e.out, swept(c, paced(e, 0, 3), (n - 1) as nat).out);
                assert(swept(d, paced(b, 0, 3), (n - 1) as nat).out == a.out);
            } else {
                assert(b == e);
                lemma_swept_cut(d, c, paced(b, 0, 3), (n - 1) as nat);
            }
        }
    }
}

proof fn lemma_recovered_adds(c: GenConfig, s: SimState, k: int, last: int)
    ensures
        front(s.out, recovered(c, s, k, last).out),
    decreases last - k + 1,
{
    lemma_front_same(s.out);
    if k <= last && !full(c, s) {
        let (q, s1) = random_qty(c, s);
        let s2 = with_level(c, s1, Side::Bid, c.mid.0 - k, q);
        let s3 = paced(s2, STEADY_DT, STEADY_JITTER);
        lemma_level_adds(c, s1, Side::Bid, c.mid.0 - k, q);
        lemma_recovered_adds(c, s3, k + 1, last);
        lemma_front(s.out, s3.out, recovered(c, s3, k + 1, last).out);
    }
}

proof fn lemma_recovered_cut(d: GenConfig, c: GenConfig, s: SimState, k: int, last: int)
    requires
        wants_fewer(d, c),
        s.out.len() <= d.events,
    ensures
        cut(d, recovered(d, s, k, last), recovered(c, s, k, last)),
    decreases last - k + 1,
{
    if full(d, s) {
        lemma_recovered_adds(c, s, k, last);
    } else if k <= last {
        let (q, s1) = random_qty(d, s);
        let s2 = with_level(d, s1, Side::Bid, d.mid.0 - k, q);
        assert(s2 == with_level(c, s1, Side::Bid, c.mid.0 - k, q));
        lemma_recovered_cut(d, c, paced(s2, STEADY_DT, STEADY_JITTER), k + 1, last);
    }
}

proof fn lemma_cycle_adds(c: GenConfig, s: SimState)
    ensures
        front(s.out, cycle(c, s).out),
{
    reveal(cycle);
    match c.profile {
        Profile::Steady => {
            lemma_steady_adds(c, s);
        },
        Profile::Burst => {
            let n = (20 + drawn(s, 40)) as nat;
            lemma_stretch_adds(c, stirred(s), n, CALM_DT, CALM_DT);
            let a = stretch(c, stirred(s), n, CALM_DT, CALM_DT);
            let k = (200 + drawn(a, 120)) as nat;
            lemma_stretch_adds(c, stirred(a), k, 0, 2);
            lemma_front(s.out, a.out, stretch(c, stirred(a), k, 0, 2).out);
        },
        Profile::FlashCrash => {
            let n = (200 + drawn(s, 200)) as nat;
            lemma_stretch_adds(c, stirred(s), n, STEADY_DT, STEADY_JITTER);
            let a = stretch(c, stirred(s), n, STEADY_DT, STEADY_JITTER);
            let b = swept(c, a, sweep_len(c) as nat);
            let last = c.within(sweep_len(c) / 2);
            lemma_swept_adds(c, a, sweep_len(c) as nat);
            lemma_front(s.out, a.out, b.out);
            lemma_recovered_adds(c, b, 1, last);
            lemma_front(s.out, b.out, recovered(c, b, 1, last).out);
        },
    }
}

proof fn lemma_cycle_cut(d: GenConfig, c: GenConfig, s: SimState)
    requires
        wants_fewer(d, c),
        !full(d, s),
    ensures
        cut(d, cycle(d, s), cycle(c, s)),
{
    reveal(cycle);
    match c.profile {
        Profile::Steady => {
            lemma_steady_same(d, c, s);
            lemma_steady_adds(d, s);
        },
        Profile::Burst => {
            let n = (20 + drawn(s, 40)) as nat;
            lemma_stretch_cut(d, c, stirred(s), n, CALM_DT, CALM_DT);
            let a = stretch(d, stirred(s), n, CALM_DT, CALM_DT);
            let b = stretch(c, stirred(s), n, CALM_DT, CALM_DT);
            let k = (200 + drawn(b, 120)) as nat;
            if full(d, a) {
                lemma_stretch_adds(c, stirred(b), k, 0, 2);
                lemma_front_same(b.out);
                lemma_front(a.out, b.out, burst(c, s).out);
            } else {
                lemma_stretch_cut(d, c, stirred(a), k, 0, 2);
            }
        },
        Profile::FlashCrash => {
            let n = (200 + drawn(s, 200)) as nat;
            lemma_stretch_cut(d, c, stirred(s), n, STEADY_DT, STEADY_JITTER);
            let a = stretch(d, stirred(s), n, STEADY_DT, STEADY_JITTER);
            let b = stretch(c, stirred(s), n, STEADY_DT, STEADY_JITTER);
            let k = sweep_len(c) as nat;
            let last = c.within(sweep_len(c) / 2);
            lemma_front_same(b.out);
            if full(d, a) {
                let e = swept(c, b, k);
                lemma_swept_adds(c, b, k);
                lemma_front(a.out, b.out, e.out);
                lemma_recovered_adds(c, e, 1, last);
                lemma_front(a.out, e.out, recovered(c, e, 1, last).out);
            } else {
                lemma_swept_cut(d, c, a, k);
                let f = swept(d, a, k);
                let e = swept(c, a, k);
                if full(d, f) {
                    lemma_front_same(e.out);
                    lemma_recovered_adds(c, e, 1, last);
                    lemma_front(f.out, e.out, recovered(c, e, 1, last).out);
                } else {
                    lemma_recovered_cut(d, c, f, 1, last);
                }
            }
        },
    }
}

proof fn lemma_run_adds(c: GenConfig, s: SimState)
    ensures
        front(s.out, run(c, s).out),
    decreases c.events - s.out.len(),
{
    lemma_front_same(s.out);
    if !full(c, s) {
        let t = cycle(c, s);
        lemma_cycle_adds(c, s);
        if s.out.len() < t.out.len() <= c.events {
            lemma_run_adds(c, t);
            lemma_front(s.out, t.out, run(c, t).out);
        }
    }
}

/// A cycle towards fewer events and one towards more.
proof fn lemma_cycle_both(d: GenConfig, c: GenConfig, s: SimState)
    requires
        wants_fewer(d, c),
        d.admissible(),
        c.admissible(),
        sound(d, s),
        s.out.len() >= c.seeding(),
        !full(d, s),
    ensures
        sound(d, cycle(d, s)),
        s.out.len() < cycle(d, s).out.len() <= d.events,
        s.out.len() < cycle(c, s).out.len() <= c.events,
        cut(d, cycle(d, s), cycle(c, s)),
        run(d, s) == run(d, cycle(d, s)),
        run(c, s) == run(c, cycle(c, s)),
{
    lemma_sound_same(d, c, s);
    assert(d.seeding() == c.seeding());
    lemma_cycle(d, s);
    lemma_cycle(c, s);
    lemma_cycle_cut(d, c, s);
}

#[verifier::spinoff_prover]
proof fn lemma_run_cut(d: GenConfig, c: GenConfig, s: SimState)
    requires
        wants_fewer(d, c),
        d.admissible(),
        c.admissible(),
        sound(d, s),
        s.out.len() >= c.seeding() || full(d, s),
    ensures
        front(run(d, s).out, run(c, s).out),
    decreases d.events - s.out.len(),
{
    if full(d, s) {
        lemma_run_adds(c, s);
    } else {
        lemma_cycle_both(d, c, s);
        let a = cycle(d, s);
        let b = cycle(c, s);
        if a == b {
            lemma_run_cut(d, c, a);
        } else {
            lemma_run_adds(c, b);
            lemma_front(a.out, b.out, run(c, b).out);
            assert(run(d, a) == a);
        }
    }
}

proof fn lemma_seeded_adds(c: GenConfig, s: SimState, off: int)
    ensures
        front(s.out, seeded_from(c, s, off).out),
    decreases c.band - off + 1,
{
    lemma_front_same(s.out);
    if off <= c.band && !full(c, s) {
        let q = seeded_qty(c, off);
        let a = with_level(c, s, Side::Bid, c.mid.0 - off, q);
        let b = with_level(c, a, Side::Ask, c.mid.0 + off, q);
        lemma_level_adds(c, s, Side::Bid, c.mid.0 - off, q);
        lemma_level_adds(c, a, Side::Ask, c.mid.0 + off, q);
        lemma_front(s.out, a.out, b.out);
        lemma_seeded_adds(c, b, off + 1);
        lemma_front(s.out, b.out, seeded_from(c, b, off + 1).out);
    }
}

proof fn lemma_seeded_cut(d: GenConfig, c: GenConfig, s: SimState, off: int)
    requires
        wants_fewer(d, c),
        s.out.len() <= d.events,
    ensures
        cut(d, seeded_from(d, s, off), seeded_from(c, s, off)),
    decreases c.band - off + 1,
{
    if full(d, s) {
        lemma_seeded_adds(c, s, off);
    } else if off <= c.band {
        let q = seeded_qty(c, off);
        assert(q == seeded_qty(d, off));
        let a = with_level(c, s, Side::Bid, c.mid.0 - off, q);
        assert(a == with_level(d, s, Side::Bid, d.mid.0 - off, q));
        let b = with_level(c, a, Side::Ask, c.mid.0 + off, q);
        let e = with_level(d, a, Side::Ask, d.mid.0 + off, q);
        if full(d, a) {
            lemma_level_adds(c, a, Side::Ask, c.mid.0 + off, q);
            lemma_seeded_adds(c, b, off + 1);
            lemma_front(a.out, b.out, seeded_from(c, b, off + 1).out);
            assert(e == a);
            assert(seeded_from(d, a, off + 1) == a);
        } else {
            assert(b == e);
            lemma_seeded_cut(d, c, b, off + 1);
        }
    }
}

/// A shorter stream is the front of a longer one: where two configurations differ only
/// in the number of events, the first events of both are the same.
pub proof fn law_shorter_streams_are_fronts(d: GenConfig, c: GenConfig)
    requires
        c.admissible(),
        d.events <= c.events,
        d == (GenConfig { events: d.events, ..c }),
    ensures
        generated(d) == generated(c).take(d.events as int),
{
    lemma_flow(c, d.events as int, c.events as int);
    assert(d.admissible());
    law_stream(d);
    law_stream(c);
    if d.events == 0 {
        assert(generated(c).take(0) =~= generated(d));
    } else {
        let s = with_clear(c, initial(c));
        assert(s == with_clear(d, initial(d)));
        lemma_with_clear(d);
        lemma_with_clear(c);
        lemma_seeded_from(d, s, 1);
        lemma_seeded_from(c, s, 1);
        lemma_seeded_cut(d, c, s, 1);
        let a = seeded_from(d, s, 1);
        let b = seeded_from(c, s, 1);
        if full(d, a) {
            lemma_front_same(b.out);
            lemma_run_adds(c, b);
            lemma_front(a.out, b.out, run(c, b).out);
        } else {
            lemma_run_cut(d, c, a);
        }
    }
}

/// The generator at work.
struct Sim {
    cfg: GenConfig,
    rng: SplitMix64,
    ts: u64,
    bids: BTreeMap<i64, i64>,
    asks: BTreeMap<i64, i64>,
    out: Vec<BookEvent>,
}

impl Sim {
    spec fn state(&self) -> SimState {
        SimState {
            rng: self.rng@,
            ts: self.ts as int,
            bids: self.bids@,
            asks: self.asks@,
            out: self.out@,
        }
    }

    spec fn ok(&self) -> bool {
        &&& self.cfg.admissible()
        &&& sound(self.cfg, self.state())
    }

    fn new(cfg: &GenConfig) -> (sim: Self)
        requires
            cfg.admissible(),
        ensures
            sim.cfg == *cfg,
            sim.state() == initial(*cfg),
            sim.ok(),
    {
        proof {
            lemma_with_clear(*cfg);
        }
        let sim = Sim {
            cfg: *cfg,
            rng: SplitMix64::new(cfg.seed),
            ts: cfg.start_ts,
            bids: BTreeMap::new(),
            asks: BTreeMap::new(),
            out: Vec::new(),
        };
        assert(sim.state().out =~= Seq::empty());
        sim
    }

    fn full(&self) -> (b: bool)
        ensures
            b == full(self.cfg, self.state()),
    {
        self.out.len() >= self.cfg.events
    }

    fn best_bid(&self) -> (r: Option<(Px, Qty)>)
        ensures
            r == best(Side::Bid, self.state().bids),
    {
        highest(&self.bids)
    }

    fn best_ask(&self) -> (r: Option<(Px, Qty)>)
        ensures
            r == best(Side::Ask, self.state().asks),
    {
        lowest(&self.asks)
    }

    fn level(&mut self, side: Side, px: i64, qty: i64)
        requires
            old(self).ok(),
            old(self).out@.len() > 0,
            old(self).cfg.placed(side, px as int),
            0 <= qty <= old(self).cfg.largest(),
        ensures
            final(self).ok(),
            final(self).cfg == old(self).cfg,
            final(self).state() == with_level(
                old(self).cfg,
                old(self).state(),
                side,
                px as int,
                qty as int,
            ),
            final(self).out@.len() >= old(self).out@.len(),
    {
        proof {
            lemma_with_level(self.cfg, self.state(), side, px as int, qty as int);
        }
        if self.full() {
            return;
        }
        let book = match side {
            Side::Bid => &mut self.bids,
            Side::Ask => &mut self.asks,
        };
        if qty == 0 {
            book.remove(&px);
        } else {
            book.insert(px, qty);
        }
        let seq: u64 = self.out.len() as u64;
        self.out.push(BookEvent::level(seq, self.ts, side, Px(px), Qty(qty)));
    }

    fn trade(&mut self, aggressor: Side, px: Px, qty: i64)
        requires
            old(self).ok(),
            old(self).out@.len() > 0,
            match aggressor {
                Side::Ask => touch(Side::Bid, old(self).state().bids) == Some(px),
                Side::Bid => touch(Side::Ask, old(self).state().asks) == Some(px),
            },
            1 <= qty <= old(self).cfg.largest(),
        ensures
            final(self).ok(),
            final(self).cfg == old(self).cfg,
            final(self).state() == with_trade(
                old(self).cfg,
                old(self).state(),
                aggressor,
                px,
                qty as int,
            ),
            final(self).out@.len() >= old(self).out@.len(),
    {
        proof {
            lemma_with_trade(self.cfg, self.state(), aggressor, px, qty as int);
        }
        if self.full() {
            return;
        }
        let seq: u64 = self.out.len() as u64;
        self.out.push(BookEvent::trade(seq, self.ts, aggressor, px, Qty(qty)));
    }

    fn clear(&mut self)
        requires
            old(self).ok(),
            old(self).state() == initial(old(self).cfg),
        ensures
            final(self).ok(),
            final(self).cfg == old(self).cfg,
            final(self).state() == with_clear(old(self).cfg, old(self).state()),
            final(self).out@.len() > 0 || old(self).cfg.events == 0,
    {
        proof {
            lemma_with_clear(self.cfg);
        }
        if self.full() {
            return;
        }
        self.bids.clear();
        self.asks.clear();
        let seq: u64 = self.out.len() as u64;
        self.out.push(BookEvent::clear(seq, self.ts));
    }

    fn below(&mut self, n: u64) -> (v: u64)
        requires
            old(self).ok(),
            n > 0,
        ensures
            final(self).ok(),
            final(self).cfg == old(self).cfg,
            final(self).state() == stirred(old(self).state()),
            v == drawn(old(self).state(), n),
            v < n,
    {
        self.rng.below(n)
    }

    fn roll_i64(&mut self, n: i64) -> (v: i64)
        requires
            old(self).ok(),
        ensures
            final(self).ok(),
            final(self).cfg == old(self).cfg,
            (v as int, final(self).state()) == rolled(old(self).state(), n as int),
            0 <= v,
            n > 0 ==> v < n,
            n <= 0 ==> v == 0,
    {
        if n <= 0 {
            return 0;
        }
        self.below(n as u64) as i64
    }

    fn rand_qty(&mut self) -> (q: i64)
        requires
            old(self).ok(),
        ensures
            final(self).ok(),
            final(self).cfg == old(self).cfg,
            (q as int, final(self).state()) == random_qty(old(self).cfg, old(self).state()),
            1 <= q <= old(self).cfg.largest(),
    {
        let span: i64 = if self.cfg.max_qty.lots() > 1 {
            self.cfg.max_qty.lots()
        } else {
            1
        };
        1 + self.roll_i64(span)
    }

    fn geo_offset(&mut self, cap: i64) -> (off: i64)
        requires
            old(self).ok(),
            1 <= cap,
        ensures
            final(self).ok(),
            final(self).cfg == old(self).cfg,
            (off as int, final(self).state()) == geometric(old(self).state(), cap as int, 1),
            final(self).out@ == old(self).out@,
            1 <= off <= cap,
    {
        let ghost start = self.state();
        proof {
            lemma_geometric(start, cap as int, 1);
        }
        let mut off: i64 = 1;
        while off < cap
            invariant_except_break
                geometric(self.state(), cap as int, off as int) == geometric(start, cap as int, 1),
            invariant
                self.ok(),
                self.cfg == old(self).cfg,
                1 <= off <= cap,
            ensures
                geometric(start, cap as int, 1) == (off as int, self.state()),
            decreases cap - off,
        {
            if self.below(2) != 0 {
                break;
            }
            off += 1;
        }
        off
    }

    fn decay_qty(&self, offset: i64) -> (q: i64)
        requires
            offset >= 1,
        ensures
            q == seeded_qty(self.cfg, offset as int),
            1 <= q <= self.cfg.largest(),
    {
        proof {
            lemma_seeded_qty(self.cfg, offset as int);
        }
        let shift: u32 = if offset - 1 > u32::MAX as i64 {
            0
        } else if offset - 1 > 6 {
            6
        } else {
            (offset - 1) as u32
        };
        let q: i64 = self.cfg.max_qty.lots() >> shift;
        if q > 1 {
            q
        } else {
            1
        }
    }

    fn seed(&mut self)
        requires
            old(self).ok(),
            old(self).state() == initial(old(self).cfg),
        ensures
            final(self).ok(),
            final(self).cfg == old(self).cfg,
            final(self).state() == seeded_from(
                old(self).cfg,
                with_clear(old(self).cfg, old(self).state()),
                1,
            ),
            final(self).out@.len() >= old(self).cfg.seeding() || full(
                old(self).cfg,
                final(self).state(),
            ),
    {
        self.clear();
        let ghost start = self.state();
        proof {
            if self.cfg.events > 0 {
                lemma_seeded_from(self.cfg, start, 1);
            }
        }
        let mut off: i64 = 1;
        while off <= self.cfg.band && !self.full()
            invariant_except_break
                seeded_from(self.cfg, self.state(), off as int) == seeded_from(self.cfg, start, 1),
            invariant
                self.ok(),
                self.cfg == old(self).cfg,
                off >= 1,
                self.out@.len() > 0 || self.cfg.events == 0,
            ensures
                self.state() == seeded_from(self.cfg, start, 1),
            decreases self.cfg.band - off + 1,
        {
            let q: i64 = self.decay_qty(off);
            let ghost c = self.cfg;
            let ghost s = self.state();
            self.level(Side::Bid, self.cfg.mid.ticks() - off, q);
            self.level(Side::Ask, self.cfg.mid.ticks() + off, q);
            assert(seeded_from(c, s, off as int) == seeded_from(c, self.state(), off + 1));
            if off == self.cfg.band {
                break;
            }
            off += 1;
        }
    }

    fn rand_side(&mut self) -> (side: Side)
        requires
            old(self).ok(),
        ensures
            final(self).ok(),
            final(self).cfg == old(self).cfg,
            (side, final(self).state()) == random_side(old(self).state()),
    {
        if self.below(2) == 0 {
            Side::Bid
        } else {
            Side::Ask
        }
    }

    fn in_band(&self, off: i64) -> (r: i64)
        ensures
            r == self.cfg.within(off as int),
    {
        let width: i64 = if self.cfg.band > 0 {
            self.cfg.band
        } else {
            0
        };
        if off > width {
            width
        } else {
            off
        }
    }

    fn sweep_count(&self) -> (n: i64)
        requires
            i64::MIN <= 3 * self.cfg.band <= i64::MAX,
        ensures
            n == sweep_len(self.cfg),
            20 <= n < i64::MAX,
    {
        if self.cfg.band > 0 && self.cfg.band * 3 / 4 > 20 {
            self.cfg.band * 3 / 4
        } else {
            20
        }
    }

    fn px_at(&self, side: Side, off: i64) -> (px: i64)
        requires
            self.ok(),
            1 <= off,
        ensures
            px == price_at(self.cfg, side, self.cfg.within(off as int)),
            self.cfg.placed(side, px as int),
    {
        let off: i64 = self.in_band(off);
        match side {
            Side::Bid => self.cfg.mid.ticks() - off,
            Side::Ask => self.cfg.mid.ticks() + off,
        }
    }

    fn try_trade(&mut self) -> (done: bool)
        requires
            old(self).ok(),
            old(self).out@.len() > 0,
        ensures
            final(self).ok(),
            final(self).cfg == old(self).cfg,
            (done, final(self).state()) == tried_trade(old(self).cfg, old(self).state()),
            final(self).out@.len() >= old(self).out@.len(),
    {
        if self.below(2) == 0 {
            if let Some((bb, _)) = self.best_bid() {
                let q: i64 = self.rand_qty();
                self.trade(Side::Ask, bb, q);
                return true;
            }
        } else if let Some((ba, _)) = self.best_ask() {
            let q: i64 = self.rand_qty();
            self.trade(Side::Bid, ba, q);
            return true;
        }
        false
    }

    fn level_update(&mut self)
        requires
            old(self).ok(),
            old(self).out@.len() > 0,
        ensures
            final(self).ok(),
            final(self).cfg == old(self).cfg,
            final(self).state() == with_update(old(self).cfg, old(self).state()),
            final(self).out@.len() >= old(self).out@.len(),
    {
        let side = self.rand_side();
        let depth: i64 = if self.cfg.band < 1 {
            1
        } else if self.cfg.band < STEADY_DEPTH {
            self.cfg.band
        } else {
            STEADY_DEPTH
        };
        let off: i64 = self.geo_offset(depth);
        let px: i64 = self.px_at(side, off);
        let qty: i64 = if self.below(10) == 0 {
            0
        } else {
            self.rand_qty()
        };
        self.level(side, px, qty);
    }

    fn edge_churn(&mut self)
        requires
            old(self).ok(),
            old(self).out@.len() > 0,
        ensures
            final(self).ok(),
            final(self).cfg == old(self).cfg,
            final(self).state() == with_churn(old(self).cfg, old(self).state()),
            final(self).out@.len() >= old(self).out@.len(),
    {
        let side = self.rand_side();
        let off: i64 = STEADY_DEPTH + 1 + self.roll_i64(self.cfg.band - STEADY_DEPTH);
        let px: i64 = self.px_at(side, off);
        if self.below(2) == 0 {
            let q: i64 = self.rand_qty();
            self.level(side, px, q);
        } else {
            self.level(side, px, 0);
        }
    }

    fn steady_event(&mut self)
        requires
            old(self).ok(),
            old(self).out@.len() > 0,
        ensures
            final(self).ok(),
            final(self).cfg == old(self).cfg,
            final(self).state() == steady(old(self).cfg, old(self).state()),
            final(self).out@.len() >= old(self).out@.len(),
    {
        let r: u64 = self.below(100);
        if r < TRADE_PCT {
            if !self.try_trade() {
                self.edge_churn();
            }
        } else if r < TRADE_PCT + CHURN_PCT {
            self.edge_churn();
        } else {
            self.level_update();
        }
    }

    fn advance(&mut self, base: u64, spread: u64, Ghost(before): Ghost<SimState>)
        requires
            old(self).ok(),
            sound(old(self).cfg, before),
            before.ts == old(self).ts,
            old(self).cfg.seeding() <= before.out.len() < old(self).out@.len(),
            spread > 0,
            base + spread - 1 <= old(self).cfg.max_interval(),
        ensures
            final(self).ok(),
            final(self).cfg == old(self).cfg,
            final(self).state() == paced(old(self).state(), base, spread),
            final(self).out@ == old(self).out@,
    {
        proof {
            lemma_paced(self.cfg, before, self.state(), base, spread);
        }
        let extra: u64 = self.below(spread);
        self.ts = self.ts + (base + extra);
    }

    fn stretch(&mut self, n: u64, base: u64, spread: u64)
        requires
            old(self).ok(),
            old(self).out@.len() >= old(self).cfg.seeding(),
            spread > 0,
            base + spread - 1 <= old(self).cfg.max_interval(),
        ensures
            final(self).ok(),
            final(self).cfg == old(self).cfg,
            final(self).state() == stretch(
                old(self).cfg,
                old(self).state(),
                n as nat,
                base,
                spread,
            ),
            final(self).out@.len() >= old(self).out@.len(),
    {
        let ghost start = self.state();
        let mut left: u64 = n;
        while left > 0 && !self.full()
            invariant
                self.ok(),
                self.cfg == old(self).cfg,
                self.out@.len() >= self.cfg.seeding(),
                self.out@.len() >= old(self).out@.len(),
                spread > 0,
                base + spread - 1 <= self.cfg.max_interval(),
                stretch(self.cfg, self.state(), left as nat, base, spread) == stretch(
                    self.cfg,
                    start,
                    n as nat,
                    base,
                    spread,
                ),
            decreases left,
        {
            let ghost before = self.state();
            proof {
                lemma_steady(self.cfg, before);
            }
            self.steady_event();
            self.advance(base, spread, Ghost(before));
            left -= 1;
        }
    }

    fn burst_cycle(&mut self)
        requires
            old(self).ok(),
            old(self).out@.len() >= old(self).cfg.seeding(),
            old(self).cfg.profile is Burst,
        ensures
            final(self).ok(),
            final(self).cfg == old(self).cfg,
            final(self).state() == burst(old(self).cfg, old(self).state()),
    {
        let calm: u64 = 20 + self.below(40);
        self.stretch(calm, CALM_DT, CALM_DT);
        if self.full() {
            return;
        }
        let dense: u64 = 200 + self.below(120);
        self.stretch(dense, 0, 2);
    }

    fn sweep(&mut self, n: i64)
        requires
            old(self).ok(),
            old(self).out@.len() >= old(self).cfg.seeding(),
            old(self).cfg.profile is FlashCrash,
            n >= 0,
        ensures
            final(self).ok(),
            final(self).cfg == old(self).cfg,
            final(self).state() == swept(old(self).cfg, old(self).state(), n as nat),
            final(self).out@.len() >= old(self).out@.len(),
    {
        let ghost start = self.state();
        let mut left: i64 = n;
        while left > 0 && !self.full()
            invariant
                self.ok(),
                self.cfg == old(self).cfg,
                self.cfg.profile is FlashCrash,
                self.out@.len() >= self.cfg.seeding(),
                self.out@.len() >= old(self).out@.len(),
                left >= 0,
                swept(self.cfg, self.state(), left as nat) == swept(self.cfg, start, n as nat),
            ensures
                self.ok(),
                self.cfg == old(self).cfg,
                self.out@.len() >= old(self).out@.len(),
                self.state() == swept(self.cfg, start, n as nat),
            decreases left,
        {
            let ghost before = self.state();
            match self.best_bid() {
                None => {
                    break;
                },
                Some((bb, q)) => {
                    proof {
                        lemma_sweep_step(self.cfg, before, bb, q);
                    }
                    self.trade(Side::Ask, bb, q.lots());
                    self.level(Side::Bid, bb.ticks(), 0);
                    self.advance(0, 3, Ghost(before));
                },
            }
            left -= 1;
        }
    }

    fn recover(&mut self, last: i64)
        requires
            old(self).ok(),
            old(self).out@.len() >= old(self).cfg.seeding(),
            old(self).cfg.profile is FlashCrash,
            0 <= last <= old(self).cfg.width(),
            last < i64::MAX,
        ensures
            final(self).ok(),
            final(self).cfg == old(self).cfg,
            final(self).state() == recovered(old(self).cfg, old(self).state(), 1, last as int),
    {
        let ghost start = self.state();
        let mut k: i64 = 1;
        while k <= last && !self.full()
            invariant
                self.ok(),
                self.cfg == old(self).cfg,
                self.cfg.profile is FlashCrash,
                self.out@.len() >= self.cfg.seeding(),
                1 <= k <= last + 1,
                last <= self.cfg.width(),
                last < i64::MAX,
                recovered(self.cfg, self.state(), k as int, last as int) == recovered(
                    self.cfg,
                    start,
                    1,
                    last as int,
                ),
            decreases last - k + 1,
        {
            let q: i64 = self.rand_qty();
            let ghost before = self.state();
            proof {
                lemma_with_level(self.cfg, before, Side::Bid, self.cfg.mid.0 - k, q as int);
            }
            self.level(Side::Bid, self.cfg.mid.ticks() - k, q);
            self.advance(STEADY_DT, STEADY_JITTER, Ghost(before));
            k += 1;
        }
    }

    fn crash_cycle(&mut self)
        requires
            old(self).ok(),
            old(self).out@.len() >= old(self).cfg.seeding(),
            old(self).cfg.profile is FlashCrash,
        ensures
            final(self).ok(),
            final(self).cfg == old(self).cfg,
            final(self).state() == crash(old(self).cfg, old(self).state()),
    {
        let calm: u64 = 200 + self.below(200);
        self.stretch(calm, STEADY_DT, STEADY_JITTER);
        if self.full() {
            return;
        }
        let n: i64 = self.sweep_count();
        self.sweep(n);
        if self.full() {
            return;
        }
        self.recover(self.in_band(n / 2));
    }
}

/// The stream of a configuration.
#[must_use]
pub fn generate(cfg: &GenConfig) -> (events: Vec<BookEvent>)
    requires
        cfg.admissible(),
    ensures
        events@ == generated(*cfg),
        events@.len() == cfg.events,
        stream_ok(*cfg, events@),
{
    proof {
        law_stream(*cfg);
    }
    let mut sim = Sim::new(cfg);
    sim.seed();
    let ghost start = sim.state();
    while !sim.full()
        invariant
            sim.ok(),
            sim.cfg == *cfg,
            sim.out@.len() >= cfg.seeding() || full(*cfg, sim.state()),
            run(*cfg, sim.state()) == run(*cfg, start),
        decreases cfg.events - sim.out@.len(),
    {
        let ghost before = sim.state();
        proof {
            lemma_cycle(*cfg, before);
            reveal(cycle);
        }
        match cfg.profile {
            Profile::Steady => {
                proof {
                    lemma_steady(*cfg, before);
                }
                sim.steady_event();
                sim.advance(STEADY_DT, STEADY_JITTER, Ghost(before));
            },
            Profile::Burst => sim.burst_cycle(),
            Profile::FlashCrash => sim.crash_cycle(),
        }
        assert(sim.state() == cycle(*cfg, before));
    }
    sim.out
}

/// A state whose random state has moved on by `k` draws.
spec fn after_draws(s: SimState, k: int) -> SimState {
    SimState { rng: state_after(s.rng, k as nat), ..s }
}

/// A draw gives the next value of the random stream, and moves it on by one.
proof fn lemma_draw(s: SimState, k: int, n: u64)
    requires
        0 <= k,
    ensures
        drawn(after_draws(s, k), n) == value(s.rng, k) % n,
        stirred(after_draws(s, k)) == after_draws(s, k + 1),
        after_draws(s, 0) == s,
{
    reveal_with_fuel(state_after, 2);
    assert(state_after(s.rng, (k + 1) as nat) == step(state_after(s.rng, k as nat)));
}

proof fn lemma_geometric_counts(s: SimState, at: int, cap: int, off: int, j: int)
    requires
        0 <= at,
        0 <= j,
        off + j <= cap,
        forall|i: int| at <= i < at + j ==> #[trigger] value(s.rng, i) % 2 == 0,
        off + j < cap ==> value(s.rng, at + j) % 2 == 1,
    ensures
        geometric(after_draws(s, at), cap, off) == (
            off + j,
            after_draws(s, at + j + (if off + j < cap { 1int } else { 0 })),
        ),
    decreases j,
{
    lemma_draw(s, at, 2);
    if j > 0 {
        assert(value(s.rng, at) % 2 == 0);
        lemma_geometric_counts(s, at + 1, cap, off + 1, j - 1);
    }
}

proof fn lemma_random_qty(c: GenConfig, s: SimState, k: int)
    requires
        0 <= k,
    ensures
        random_qty(c, after_draws(s, k)) == (
            1 + value(s.rng, k) as int % c.largest(),
            after_draws(s, k + 1),
        ),
        1 <= random_qty(c, after_draws(s, k)).0 <= i64::MAX,
{
    lemma_draw(s, k, c.largest() as u64);
    let v = value(s.rng, k) as int;
    assert(0 <= v % c.largest() < c.largest()) by {
        vstd::arithmetic::div_mod::lemma_mod_bound(v, c.largest());
    }
}

/// An update of steady flow, read off the values of the random stream. The first one
/// decides the side: a bid where it is even, an ask where it is odd. The next ones are
/// coins: the level is one tick away from the middle, and one more for each even value
/// before an odd one, up to the eighth level and the band. One in ten of the next value
/// removes the level; otherwise the value after it sets the quantity, from one to the
/// largest.
pub proof fn law_update_follows_the_draws(c: GenConfig, s: SimState, j: int)
    requires
        c.admissible(),
        !full(c, s),
        ({
            let depth: int = if c.band < 1 { 1 } else if c.band < 8 { c.band as int } else { 8 };
            &&& 0 <= j < depth
            &&& forall|i: int| 1 <= i < 1 + j ==> #[trigger] value(s.rng, i) % 2 == 0
            &&& j + 1 < depth ==> value(s.rng, j + 1) % 2 == 1
        }),
    ensures
        ({
            let depth: int = if c.band < 1 { 1 } else if c.band < 8 { c.band as int } else { 8 };
            let away = if c.band < 1 { 0 } else { j + 1 };
            let next = if j + 1 < depth { j + 2 } else { j + 1 };
            let t = with_update(c, s);
            let ev = t.out.last();
            &&& t.out == s.out.push(ev)
            &&& t.ts == s.ts
            &&& ev.kind is Level
            &&& ev.seq == s.out.len() as u64
            &&& ev.ts == s.ts as u64
            &&& value(s.rng, 0) % 2 == 0 ==> ev.side is Bid && ev.px.0 == c.mid.0 - away
            &&& value(s.rng, 0) % 2 == 1 ==> ev.side is Ask && ev.px.0 == c.mid.0 + away
            &&& value(s.rng, next) % 10 == 0 ==> ev.qty.0 == 0 && t.rng == state_after(
                s.rng,
                (next + 1) as nat,
            )
            &&& value(s.rng, next) % 10 != 0 ==> {
                &&& ev.qty.0 == 1 + value(s.rng, next + 1) as int % c.largest()
                &&& t.rng == state_after(s.rng, (next + 2) as nat)
            }
        }),
{
    let depth: int = if c.band < 1 { 1 } else if c.band < 8 { c.band as int } else { 8 };
    let next = if j + 1 < depth { j + 2 } else { j + 1 };
    lemma_draw(s, 0, 2);
    lemma_geometric_counts(s, 1, depth, 1, j);
    lemma_draw(s, next, 10);
    lemma_random_qty(c, s, next + 1);
    assert(random_side(s).1 == after_draws(s, 1));
}

/// Churn at the edge of the band, read off the values of the random stream. The first one
/// decides the side: a bid where it is even, an ask where it is odd. Where the band has
/// more than eight levels, the next one picks one of those beyond; the next one removes
/// the level where it is odd, and where it is even the one after it sets the quantity.
pub proof fn law_churn_follows_the_draws(c: GenConfig, s: SimState)
    requires
        c.admissible(),
        !full(c, s),
    ensures
        ({
            let wide = c.band > 8;
            let away = if wide {
                9 + value(s.rng, 1) as int % (c.band - 8)
            } else {
                c.width()
            };
            let next: int = if wide { 2 } else { 1 };
            let t = with_churn(c, s);
            let ev = t.out.last();
            &&& t.out == s.out.push(ev)
            &&& t.ts == s.ts
            &&& ev.kind is Level
            &&& ev.seq == s.out.len() as u64
            &&& ev.ts == s.ts as u64
            &&& value(s.rng, 0) % 2 == 0 ==> ev.side is Bid && ev.px.0 == c.mid.0 - away
            &&& value(s.rng, 0) % 2 == 1 ==> ev.side is Ask && ev.px.0 == c.mid.0 + away
            &&& value(s.rng, next) % 2 == 1 ==> ev.qty.0 == 0
            &&& value(s.rng, next) % 2 == 0 ==> ev.qty.0 == 1 + value(s.rng, next + 1) as int
                % c.largest()
        }),
{
    lemma_draw(s, 0, 2);
    assert(random_side(s).1 == after_draws(s, 1));
    if c.band > 8 {
        lemma_draw(s, 1, (c.band - 8) as u64);
        let v = value(s.rng, 1) as int;
        assert(0 <= v % (c.band - 8) < c.band - 8) by {
            vstd::arithmetic::div_mod::lemma_mod_bound(v, c.band - 8);
        }
        lemma_draw(s, 2, 2);
        lemma_random_qty(c, s, 3);
    } else {
        lemma_draw(s, 1, 2);
        lemma_random_qty(c, s, 2);
    }
}

/// A trade of steady flow, read off the values of the random stream. Where the first one
/// is even it hits the highest bid, where it is odd it lifts the lowest ask; the next one
/// sets the quantity, from one to the largest. Where that side is empty there is none.
pub proof fn law_trade_follows_the_draws(c: GenConfig, s: SimState, p: i64)
    requires
        c.admissible(),
        !full(c, s),
        s.bids.dom().finite(),
        s.asks.dom().finite(),
    ensures
        ({
            let sells = value(s.rng, 0) % 2 == 0;
            let (done, t) = tried_trade(c, s);
            let ev = t.out.last();
            &&& t.bids == s.bids && t.asks == s.asks && t.ts == s.ts
            &&& sells ==> (done <==> exists|q: i64| s.bids.contains_key(q))
            &&& !sells ==> (done <==> exists|q: i64| s.asks.contains_key(q))
            &&& !done ==> t == (SimState { rng: step(s.rng), ..s })
            &&& done ==> {
                &&& t.out == s.out.push(ev)
                &&& ev.kind is Trade
                &&& ev.seq == s.out.len() as u64
                &&& ev.ts == s.ts as u64
                &&& ev.qty.0 == 1 + value(s.rng, 1) as int % c.largest()
                &&& sells ==> {
                    &&& ev.side is Ask
                    &&& s.bids.contains_key(ev.px.0)
                    &&& s.bids.contains_key(p) ==> p <= ev.px.0
                }
                &&& !sells ==> {
                    &&& ev.side is Bid
                    &&& s.asks.contains_key(ev.px.0)
                    &&& s.asks.contains_key(p) ==> ev.px.0 <= p
                }
            }
        }),
{
    lemma_draw(s, 0, 2);
    lemma_random_qty(c, s, 1);
    assert(after_draws(s, 1) == stirred(s));
    if value(s.rng, 0) % 2 == 0 {
        lemma_best_is_extreme(Side::Bid, s.bids);
    } else {
        lemma_best_is_extreme(Side::Ask, s.asks);
    }
}

/// What an event of steady flow is: of a hundred values of the random stream, those below
/// five give a trade, or churn where the side that is drawn is empty; five itself gives
/// churn; all others give an update.
pub proof fn law_steady_mix(c: GenConfig, s: SimState)
    ensures
        ({
            let r = value(s.rng, 0) % 100;
            let rest = SimState { rng: step(s.rng), ..s };
            &&& r < 5 && tried_trade(c, rest).0 ==> steady(c, s) == tried_trade(c, rest).1
            &&& r < 5 && !tried_trade(c, rest).0 ==> steady(c, s) == with_churn(
                c,
                tried_trade(c, rest).1,
            )
            &&& r == 5 ==> steady(c, s) == with_churn(c, rest)
            &&& r > 5 ==> steady(c, s) == with_update(c, rest)
        }),
{
    lemma_draw(s, 0, 100);
}

/// Both sides are reached: whatever the book, some random states lead to an update of a
/// bid and others to one of an ask, and so with churn.
pub proof fn law_both_sides_are_reached(c: GenConfig, s: SimState)
    requires
        c.admissible(),
        !full(c, s),
    ensures
        exists|a: u64|
            (#[trigger] with_update(c, SimState { rng: a, ..s })).out.last().side is Bid,
        exists|a: u64|
            (#[trigger] with_update(c, SimState { rng: a, ..s })).out.last().side is Ask,
        exists|a: u64|
            (#[trigger] with_churn(c, SimState { rng: a, ..s })).out.last().side is Bid,
        exists|a: u64|
            (#[trigger] with_churn(c, SimState { rng: a, ..s })).out.last().side is Ask,
{
    lemma_odd_and_even_values();
    let even: u64 = 0x9E37_79B9_7F4A_7C15;
    let odd: u64 = 0;
    let se = SimState { rng: even, ..s };
    let so = SimState { rng: odd, ..s };
    lemma_draw(se, 0, 2);
    lemma_draw(so, 0, 2);
    law_churn_follows_the_draws(c, se);
    law_churn_follows_the_draws(c, so);
    assert(with_churn(c, SimState { rng: even, ..s }).out.last().side is Bid);
    assert(with_churn(c, SimState { rng: odd, ..s }).out.last().side is Ask);
    let depth: int = if c.band < 1 { 1 } else if c.band < 8 { c.band as int } else { 8 };
    let je = count_even(se, depth, 0);
    lemma_count_even(se, depth, 0);
    law_update_follows_the_draws(c, se, je);
    let jo = count_even(so, depth, 0);
    lemma_count_even(so, depth, 0);
    law_update_follows_the_draws(c, so, jo);
    assert(with_update(c, SimState { rng: even, ..s }).out.last().side is Bid);
    assert(with_update(c, SimState { rng: odd, ..s }).out.last().side is Ask);
}

/// The number of even values from draw `1 + from` on, less than `depth`.
spec fn count_even(s: SimState, depth: int, from: int) -> int
    decreases depth - from,
{
    if from + 1 >= depth || value(s.rng, from + 1) % 2 == 1 {
        from
    } else {
        count_even(s, depth, from + 1)
    }
}

proof fn lemma_count_even(s: SimState, depth: int, from: int)
    requires
        0 <= from < depth,
        forall|i: int| 1 <= i < 1 + from ==> #[trigger] value(s.rng, i) % 2 == 0,
    ensures
        ({
            let j = count_even(s, depth, from);
            &&& from <= j < depth
            &&& forall|i: int| 1 <= i < 1 + j ==> #[trigger] value(s.rng, i) % 2 == 0
            &&& j + 1 < depth ==> value(s.rng, j + 1) % 2 == 1
        }),
    decreases depth - from,
{
    if from + 1 >= depth || value(s.rng, from + 1) % 2 == 1 {
    } else {
        lemma_count_even(s, depth, from + 1);
    }
}

/// An interval is its base and a random part below its spread, and moves nothing but the
/// clock.
pub proof fn law_interval_follows_the_draw(s: SimState, base: u64, spread: u64)
    requires
        spread > 0,
    ensures
        paced(s, base, spread) == (SimState {
            ts: s.ts + base + value(s.rng, 0) % spread,
            rng: step(s.rng),
            ..s
        }),
{
    lemma_draw(s, 0, spread);
}

proof fn lemma_steady_time(c: GenConfig, s: SimState)
    requires
        !full(c, s),
    ensures
        steady(c, s).out.last().ts == s.ts as u64,
        steady(c, s).out.drop_last() == s.out,
        steady(c, s).ts == s.ts,
{
    let s1 = stirred(s);
    let (side, s2) = random_side(s1);
    let depth = if c.band < 1 {
        1
    } else if c.band < STEADY_DEPTH {
        c.band as int
    } else {
        STEADY_DEPTH as int
    };
    lemma_geometric(s2, depth, 1);
    assert(steady(c, s).out.drop_last() =~= s.out);
}

/// A stretch of steady flow has as many events as it is meant to have, unless the stream
/// ends before. The first one comes at once, and every later one follows the one before
/// by the base interval and less than the spread.
pub proof fn law_stretch_is_paced(c: GenConfig, s: SimState, n: nat, base: u64, spread: u64, i: int)
    requires
        c.admissible(),
        sound(c, s),
        s.out.len() >= c.seeding(),
        spread > 0,
        base + spread - 1 <= c.max_interval(),
    ensures
        ({
            let t = stretch(c, s, n, base, spread);
            let m = s.out.len() as int;
            &&& t.out.len() == (if m + n <= c.events { m + n } else { c.events as int })
            &&& t.out.take(m) == s.out
            &&& m < t.out.len() ==> t.out[m].ts == s.ts
            &&& m < t.out.len() ==> base <= t.ts - t.out.last().ts < base + spread
            &&& m < i < t.out.len() ==> base <= t.out[i].ts - t.out[i - 1].ts < base + spread
        }),
    decreases n,
{
    let t = stretch(c, s, n, base, spread);
    let m = s.out.len() as int;
    lemma_clock(c, s);
    assert(s.out.take(m) =~= s.out);
    if n > 0 && !full(c, s) {
        let one = steady(c, s);
        let next = paced(one, base, spread);
        lemma_steady(c, s);
        lemma_steady_time(c, s);
        lemma_paced(c, s, one, base, spread);
        assert(next.ts == s.ts + base + drawn(one, spread));
        law_stretch_is_paced(c, next, (n - 1) as nat, base, spread, i);
        assert(t.out.take(m) =~= t.out.take(m + 1).take(m));
        assert(next.out.take(m) =~= s.out);
        assert(t.out[m] == t.out.take(m + 1)[m]);
        assert(next.out.last() == next.out[m]);
        if m + 1 < t.out.len() {
            assert(t.out[m + 1].ts == next.ts);
        } else {
            assert(t.out =~= next.out);
            assert(t == next) by {
                if n - 1 > 0 && !full(c, next) {
                    lemma_stretch(c, next, (n - 1) as nat, base, spread);
                }
            }
        }
    }
}

/// A cycle of bursts: a calm stretch of twenty to fifty-nine events, each fifty to a
/// hundred microseconds after the one before, then two hundred to three hundred and
/// nineteen events that follow each other within a nanosecond, unless the stream ends
/// before.
pub proof fn law_burst_cycle(c: GenConfig, s: SimState, i: int)
    requires
        c.admissible(),
        c.profile is Burst,
        sound(c, s),
        s.out.len() >= c.seeding(),
    ensures
        ({
            let t = cycle(c, s);
            let m = s.out.len() as int;
            let calm = 20 + value(s.rng, 0) as int % 40;
            &&& t.out.take(m) == s.out
            &&& t.out.len() < c.events ==> m + calm + 200 <= t.out.len() < m + calm + 320
            &&& t.out.len() <= c.events
            &&& m < i < m + calm && i < t.out.len() ==> 50_000 <= t.out[i].ts - t.out[i - 1].ts
                < 100_000
            &&& i == m + calm && i < t.out.len() ==> 50_000 <= t.out[i].ts - t.out[i - 1].ts
                < 100_000
            &&& m + calm < i < t.out.len() ==> 0 <= t.out[i].ts - t.out[i - 1].ts <= 1
        }),
{
    reveal(cycle);
    lemma_draw(s, 0, 40);
    let m = s.out.len() as int;
    let calm = (20 + drawn(s, 40)) as nat;
    let s1 = stirred(s);
    assert(sound(c, s1));
    let a = stretch(c, s1, calm, CALM_DT, CALM_DT);
    law_stretch_is_paced(c, s1, calm, CALM_DT, CALM_DT, i);
    lemma_stretch(c, s1, calm, CALM_DT, CALM_DT);
    if !full(c, a) {
        let dense = (200 + drawn(a, 120)) as nat;
        let a1 = stirred(a);
        assert(sound(c, a1));
        law_stretch_is_paced(c, a1, dense, 0, 2, i);
        let t = cycle(c, s);
        assert(t.out.take(m) =~= t.out.take(a.out.len() as int).take(m));
        if 0 < i < a.out.len() {
            assert(t.out[i] == t.out.take(a.out.len() as int)[i]);
            assert(t.out[i - 1] == t.out.take(a.out.len() as int)[i - 1]);
        }
        if i == a.out.len() {
            assert(t.out[i - 1] == t.out.take(a.out.len() as int)[i - 1]);
            assert(a.out.last() == a.out[i - 1]);
        }
    }
}

/// A step of a sweep: the highest bid is sold in full at its price, and its level is
/// removed. The rest of the sweep goes on from the book without it, at most two
/// nanoseconds later. Without a bid there is no step.
pub proof fn law_sweep_takes_the_highest_bid(c: GenConfig, s: SimState, n: nat, p: i64)
    requires
        n > 0,
        s.out.len() + 2 <= c.events,
        s.bids.dom().finite(),
    ensures
        (forall|q: i64| !s.bids.contains_key(q)) ==> swept(c, s, n) == s,
        s.bids.contains_key(p) && (forall|q: i64| s.bids.contains_key(q) ==> q <= p) ==> {
            let sale = BookEvent {
                seq: s.out.len() as u64,
                ts: s.ts as u64,
                px: Px(p),
                qty: Qty(s.bids[p]),
                side: Side::Ask,
                kind: EventKind::Trade,
            };
            let removal = BookEvent {
                seq: (s.out.len() + 1) as u64,
                ts: s.ts as u64,
                px: Px(p),
                qty: Qty(0),
                side: Side::Bid,
                kind: EventKind::Level,
            };
            swept(c, s, n) == swept(
                c,
                SimState {
                    rng: step(s.rng),
                    ts: s.ts + value(s.rng, 0) as int % 3,
                    bids: s.bids.remove(p),
                    asks: s.asks,
                    out: s.out.push(sale).push(removal),
                },
                (n - 1) as nat,
            )
        },
{
    lemma_best_is_extreme(Side::Bid, s.bids);
    lemma_draw(s, 0, 3);
}

/// A step of a recovery: a bid is set `k` ticks below the middle, with a random quantity
/// from one to the largest, and the next step, one tick further down, follows after an
/// interval of steady flow.
pub proof fn law_recovery_sets_bids_downwards(c: GenConfig, s: SimState, k: int, last: int)
    requires
        c.admissible(),
        1 <= k <= last <= c.width(),
        !full(c, s),
    ensures
        ({
            let qty = 1 + value(s.rng, 0) as int % c.largest();
            let set = BookEvent {
                seq: s.out.len() as u64,
                ts: s.ts as u64,
                px: Px((c.mid.0 - k) as i64),
                qty: Qty(qty as i64),
                side: Side::Bid,
                kind: EventKind::Level,
            };
            &&& recovered(c, s, k, last) == recovered(
                c,
                SimState {
                    rng: step(step(s.rng)),
                    ts: s.ts + 1_000 + value(s.rng, 1) as int % 250,
                    bids: s.bids.insert((c.mid.0 - k) as i64, qty as i64),
                    asks: s.asks,
                    out: s.out.push(set),
                },
                k + 1,
                last,
            )
            &&& recovered(c, s, last + 1, last) == s
        }),
{
    lemma_draw(s, 0, 2);
    lemma_random_qty(c, s, 0);
    lemma_draw(s, 1, 250);
    reveal_with_fuel(state_after, 3);
}

/// A cycle of crashes: two hundred to three hundred and ninety-nine steady events a
/// microsecond or a little more apart; a sweep through three quarters of the band and at
/// least twenty bids; and a recovery of half as many, as far as the band goes. A part
/// that fills the stream is the last.
pub proof fn law_crash_cycle(c: GenConfig, s: SimState)
    requires
        c.admissible(),
        c.profile is FlashCrash,
    ensures
        ({
            let calm = (200 + value(s.rng, 0) as int % 200) as nat;
            let swept_bids = if 3 * c.width() / 4 > 20 { 3 * c.width() / 4 } else { 20 };
            let rebuilt = if swept_bids / 2 < c.width() { swept_bids / 2 } else { c.width() };
            let a = stretch(c, SimState { rng: step(s.rng), ..s }, calm, 1_000, 250);
            let b = swept(c, a, swept_bids as nat);
            &&& full(c, a) ==> cycle(c, s) == a
            &&& !full(c, a) && full(c, b) ==> cycle(c, s) == b
            &&& !full(c, a) && !full(c, b) ==> cycle(c, s) == recovered(c, b, 1, rebuilt)
        }),
{
    reveal(cycle);
    lemma_draw(s, 0, 200);
}

/// A cycle of the steady profile is one event and an interval of a microsecond and less
/// than a quarter more.
pub proof fn law_steady_cycle(c: GenConfig, s: SimState)
    requires
        c.profile is Steady,
        !full(c, s),
    ensures
        ({
            let t = cycle(c, s);
            &&& t.out == steady(c, s).out
            &&& t.out.len() == s.out.len() + 1
            &&& t.out.drop_last() == s.out
            &&& t.out.last().ts == s.ts as u64
            &&& s.ts + 1_000 <= t.ts < s.ts + 1_250
        }),
{
    reveal(cycle);
    lemma_steady_adds(c, s);
    lemma_steady_time(c, s);
}

proof fn lemma_seeded_at(c: GenConfig, s: SimState, from: int, off: int)
    requires
        c.admissible(),
        1 <= from <= off <= c.band,
        s.out.len() == 2 * from - 1,
        2 * off < c.events,
    ensures
        ({
            let t = seeded_from(c, s, from);
            &&& t.out.len() > 2 * off
            &&& t.out[2 * off - 1] == (BookEvent {
                seq: (2 * off - 1) as u64,
                ts: s.ts as u64,
                px: Px((c.mid.0 - off) as i64),
                qty: Qty(seeded_qty(c, off) as i64),
                side: Side::Bid,
                kind: EventKind::Level,
            })
            &&& t.out[2 * off] == (BookEvent {
                seq: (2 * off) as u64,
                ts: s.ts as u64,
                px: Px((c.mid.0 + off) as i64),
                qty: Qty(seeded_qty(c, off) as i64),
                side: Side::Ask,
                kind: EventKind::Level,
            })
        }),
    decreases off - from,
{
    let q = seeded_qty(c, from);
    let a = with_level(c, s, Side::Bid, c.mid.0 - from, q);
    let b = with_level(c, a, Side::Ask, c.mid.0 + from, q);
    if from < off {
        lemma_seeded_at(c, b, from + 1, off);
    } else {
        lemma_seeded_adds(c, b, from + 1);
        let t = seeded_from(c, b, from + 1);
        assert(t.out.take(b.out.len() as int)[2 * off] == t.out[2 * off]);
        assert(t.out.take(b.out.len() as int)[2 * off - 1] == t.out[2 * off - 1]);
    }
}

/// How a stream begins: with a clear, then from the middle outwards a bid below and an
/// ask above at each distance up to the band, all at the start time. Both sides have the
/// same quantity at the same distance: the largest one next to the middle, half of that
/// one tick further out and so on six times, and the same from there on, but never less
/// than one.
pub proof fn law_stream_begins_with_a_ladder(c: GenConfig, off: int)
    requires
        c.admissible(),
        1 <= off <= c.band,
        2 * off < c.events,
        off <= u32::MAX,
    ensures
        ({
            let g = generated(c);
            let bid = g[2 * off - 1];
            let ask = g[2 * off];
            &&& g[0].kind is Clear && g[0].ts == c.start_ts
            &&& bid.kind is Level && bid.side is Bid && bid.px.0 == c.mid.0 - off
            &&& ask.kind is Level && ask.side is Ask && ask.px.0 == c.mid.0 + off
            &&& bid.ts == c.start_ts && ask.ts == c.start_ts
            &&& bid.qty == ask.qty
            &&& off == 1 ==> bid.qty.0 == c.largest()
            &&& 1 < off <= 7 ==> bid.qty.0 == (if g[2 * off - 3].qty.0 / 2 > 1 {
                g[2 * off - 3].qty.0 / 2
            } else {
                1
            })
            &&& 7 < off ==> bid.qty == g[2 * off - 3].qty
        }),
{
    let s = with_clear(c, initial(c));
    let t = seeded_from(c, s, 1);
    let g = generated(c);
    lemma_seeded_at(c, s, 1, off);
    lemma_seeded_adds(c, s, 1);
    lemma_run_adds(c, t);
    assert(t.out[0] == t.out.take(1)[0]);
    assert(forall|i: int| 0 <= i < t.out.len() ==> #[trigger] g.take(t.out.len() as int)[i] == g[i]);
    assert(g[0] == g.take(t.out.len() as int)[0]);
    assert(g[2 * off] == g.take(t.out.len() as int)[2 * off]);
    assert(g[2 * off - 1] == g.take(t.out.len() as int)[2 * off - 1]);
    lemma_seeded_qty(c, off);
    let q = c.max_qty.0;
    if off == 1 {
        assert(q >> 0u32 == q) by (bit_vector);
    } else {
        lemma_seeded_at(c, s, 1, off - 1);
        assert(g[2 * off - 3] == g.take(t.out.len() as int)[2 * off - 3]);
        lemma_seeded_qty(c, off - 1);
        if off <= 7 {
            let k = (off - 2) as u32;
            let l = (off - 1) as u32;
            assert(k <= 5 && l == k + 1 && q >= 0 ==> (q >> l) == (q >> k) / 2) by (bit_vector);
            assert(k <= 6 && q < 0 ==> (q >> k) < 0) by (bit_vector);
            assert(l <= 6 && q < 0 ==> (q >> l) < 0) by (bit_vector);
        }
    }
}

/// A stream goes on cycle by cycle until it has the events that are wanted.
pub proof fn law_streams_go_cycle_by_cycle(c: GenConfig, s: SimState)
    requires
        c.admissible(),
        sound(c, s),
        s.out.len() >= c.seeding() || full(c, s),
    ensures
        s.out.len() >= c.events ==> run(c, s) == s,
        s.out.len() < c.events ==> run(c, s) == run(c, cycle(c, s)) && cycle(c, s).out.len()
            > s.out.len(),
{
    if !full(c, s) {
        lemma_cycle(c, s);
    }
}

/// The flow of a stream starts from the seed: the ladder is laid without a draw, so that the
/// first value after it is the first one of the seed, at the start time.
pub proof fn law_flow_starts_from_the_seed(c: GenConfig)
    ensures
        ({
            let s = seeded_from(c, with_clear(c, initial(c)), 1);
            &&& s.rng == c.seed
            &&& s.ts == c.start_ts
            &&& generated(c) == run(c, s).out
        }),
{
    lemma_seeding_draws_nothing(c, with_clear(c, initial(c)), 1);
}

proof fn lemma_seeding_draws_nothing(c: GenConfig, s: SimState, off: int)
    ensures
        seeded_from(c, s, off).rng == s.rng,
        seeded_from(c, s, off).ts == s.ts,
    decreases c.band - off + 1,
{
    if off <= c.band && !full(c, s) {
        let q = seeded_qty(c, off);
        let a = with_level(c, s, Side::Bid, c.mid.0 - off, q);
        let b = with_level(c, a, Side::Ask, c.mid.0 + off, q);
        lemma_seeding_draws_nothing(c, b, off + 1);
    }
}

/// What holds of each event of a stream: it bears its place as its number, a time from the
/// start on and not before that of the event in front of it. A level lies within the band on
/// its own side of the middle, with a quantity from zero to the largest. A trade is at the
/// highest bid, sold, or at the lowest ask, bought, of the book that the events before it
/// make, with a quantity from one to the largest. Only the first event is a clear.
pub proof fn law_each_event_of_a_stream(c: GenConfig, i: int, p: i64)
    requires
        c.admissible(),
        0 <= i < c.events,
    ensures
        ({
            let g = generated(c);
            let ev = g[i];
            let m = replay(BookModel::empty(), g.take(i));
            let most: int = if c.max_qty.0 > 1 { c.max_qty.0 as int } else { 1 };
            &&& ev.seq == i
            &&& ev.ts >= c.start_ts
            &&& i > 0 ==> g[i - 1].ts <= ev.ts
            &&& ev.kind is Clear <==> i == 0
            &&& ev.kind is Level ==> 0 <= ev.qty.0 <= most
            &&& ev.kind is Level && c.band > 0 && ev.side is Bid ==> c.mid.0 - c.band <= ev.px.0
                < c.mid.0
            &&& ev.kind is Level && c.band > 0 && ev.side is Ask ==> c.mid.0 < ev.px.0 <= c.mid.0
                + c.band
            &&& ev.kind is Trade ==> 1 <= ev.qty.0 <= most
            &&& ev.kind is Trade && ev.side is Ask ==> {
                &&& m.bids.contains_key(ev.px.0)
                &&& m.bids.contains_key(p) ==> p <= ev.px.0
            }
            &&& ev.kind is Trade && ev.side is Bid ==> {
                &&& m.asks.contains_key(ev.px.0)
                &&& m.asks.contains_key(p) ==> ev.px.0 <= p
            }
        }),
{
    law_stream(c);
    let g = generated(c);
    let ev = g[i];
    if i > 0 {
        assert(g[i - 1].ts <= g[i].ts);
    }
    if ev.kind is Trade {
        let m = replay(BookModel::empty(), g.take(i));
        assert(at_touch(m, ev));
        if ev.side is Ask {
            assert(exists|x: i64| is_best(Side::Bid, m.bids, x));
        } else {
            assert(exists|x: i64| is_best(Side::Ask, m.asks, x));
        }
    }
}

} // verus!
