//! When events are due, and how late they are served.
//!
//! An event is due at an offset from the start of a run. How late it is served is the
//! time of completion less the time it was due, so that a backlog shows.

use crate::event::BookEvent;
use vstd::prelude::*;

verus! {

/// Nanoseconds in a second.
pub const NS_PER_SEC: u64 = 1_000_000_000;

/// When the events of a run are due.
#[derive(Clone, Copy, PartialEq, Eq, Structural, Debug)]
pub enum Schedule {
    /// So many events a second, whatever their timestamps say.
    FixedRate(u64),
    /// As the timestamps say, from `first_ts` on, `speed` times as fast.
    RealArrival {
        /// The timestamp that stands for the start.
        first_ts: u64,
        /// How many times as fast.
        speed: u64,
    },
}

impl Schedule {
    /// The rate or the speed is above zero.
    pub open spec fn wf(self) -> bool {
        match self {
            Schedule::FixedRate(rate) => rate > 0,
            Schedule::RealArrival { speed, .. } => speed > 0,
        }
    }

    /// When event `i`, which bears this timestamp, is due: nanoseconds after the start.
    pub open spec fn due(self, i: nat, ts: u64) -> int {
        match self {
            Schedule::FixedRate(rate) => (i * NS_PER_SEC) as int / rate as int,
            Schedule::RealArrival { first_ts, speed } => if ts < first_ts {
                0
            } else {
                (ts - first_ts) / speed as int
            },
        }
    }

    /// When event `i` is due. Beyond the range of the result it starts again at zero.
    #[inline]
    pub fn offset_ns(self, i: usize, ev: &BookEvent) -> (ns: u64)
        requires
            self.wf(),
        ensures
            ns == self.due(i as nat, ev.ts) % 0x1_0000_0000_0000_0000,
    {
        match self {
            Schedule::FixedRate(rate) => {
                assert(i * NS_PER_SEC <= u64::MAX * NS_PER_SEC) by (nonlinear_arith)
                    requires
                        i <= u64::MAX,
                        NS_PER_SEC >= 0,
                ;
                let q: u128 = i as u128 * NS_PER_SEC as u128 / rate as u128;
                #[verifier::truncate]
                let ns: u64 = q as u64;
                assert(ns == q % 0x1_0000_0000_0000_0000) by (bit_vector)
                    requires
                        ns == q as u64,
                ;
                ns
            },
            Schedule::RealArrival { first_ts, speed } => {
                let since: u64 = if ev.ts < first_ts {
                    0
                } else {
                    ev.ts - first_ts
                };
                let ns: u64 = since / speed;
                assert(0int / (speed as int) == 0) by (nonlinear_arith)
                    requires
                        speed > 0,
                ;
                ns
            },
        }
    }
}

/// The first timestamp above zero from place `i` on, zero where there is none.
pub open spec fn first_arrival(events: Seq<BookEvent>, i: int) -> u64
    decreases events.len() - i,
{
    if i >= events.len() {
        0
    } else if events[i].ts > 0 {
        events[i].ts
    } else {
        first_arrival(events, i + 1)
    }
}

/// The first timestamp above zero: events of a snapshot bear zero, and do not count.
pub fn first_arrival_ts(events: &[BookEvent]) -> (ts: u64)
    ensures
        ts == first_arrival(events@, 0),
{
    let mut i: usize = 0;
    while i < events.len()
        invariant
            i <= events@.len(),
            first_arrival(events@, 0) == first_arrival(events@, i as int),
        decreases events@.len() - i,
    {
        if events[i].ts > 0 {
            return events[i].ts;
        }
        i += 1;
    }
    0
}

/// The time from a start to the last event, zero where it lies before the start.
pub open spec fn span(events: Seq<BookEvent>, first_ts: u64) -> int {
    if events.len() == 0 || events.last().ts < first_ts {
        0
    } else {
        events.last().ts - first_ts
    }
}

/// The time from a start to the last event.
pub fn span_ns(events: &[BookEvent], first_ts: u64) -> (ns: u64)
    ensures
        ns == span(events@, first_ts),
{
    let n: usize = events.len();
    if n == 0 || events[n - 1].ts < first_ts {
        0
    } else {
        events[n - 1].ts - first_ts
    }
}

/// How many events a second there are from a start to the last event; zero where all
/// come at once.
pub open spec fn natural_rate(events: Seq<BookEvent>, first_ts: u64) -> int {
    let t = span(events, first_ts);
    if t == 0 {
        0
    } else {
        let r = (events.len() * NS_PER_SEC) as int / t;
        if r <= u64::MAX {
            r
        } else {
            0
        }
    }
}

/// How many events a second there are from a start to the last event.
pub fn natural_rate_eps(events: &[BookEvent], first_ts: u64) -> (r: u64)
    ensures
        r == natural_rate(events@, first_ts),
{
    let t: u64 = span_ns(events, first_ts);
    if t == 0 {
        return 0;
    }
    let n: usize = events.len();
    assert(n * NS_PER_SEC <= u64::MAX * NS_PER_SEC) by (nonlinear_arith)
        requires
            n <= u64::MAX,
            NS_PER_SEC >= 0,
    ;
    let q: u128 = n as u128 * NS_PER_SEC as u128 / t as u128;
    if q <= u64::MAX as u128 {
        q as u64
    } else {
        0
    }
}

/// How late an event was served.
pub open spec fn lateness(done: int, due: int) -> int {
    if done < due {
        0
    } else {
        done - due
    }
}

/// How late an event was served: the time of completion less the time it was due.
#[inline]
pub fn late_ns(done: u64, due: u64) -> (ns: u64)
    ensures
        ns == lateness(done as int, due as int),
{
    if done < due {
        0
    } else {
        done - due
    }
}

/// When event `i` is done, where one is due every `interval`, each takes `op`, and none
/// starts before it is due or before the one before it is done.
pub open spec fn done_at(i: nat, interval: nat, op: nat) -> int
    decreases i,
{
    if i == 0 {
        op as int
    } else {
        let free = done_at((i - 1) as nat, interval, op);
        let due = (i * interval) as int;
        (if free < due {
            due
        } else {
            free
        }) + op
    }
}

/// A server that is too slow falls behind by the same amount at every event, and all
/// of it shows in how late the events are served.
pub proof fn law_lateness_adds_up(i: nat, interval: nat, op: nat)
    requires
        op >= interval,
    ensures
        lateness(done_at(i, interval, op), (i * interval) as int) == i * (op - interval) + op,
    decreases i,
{
    lemma_done_at(i, interval, op);
    assert((i + 1) * op - i * interval == i * (op - interval) + op) by (nonlinear_arith);
    assert(i * (op - interval) >= 0) by (nonlinear_arith)
        requires
            op >= interval,
    ;
}

/// A server that is fast enough serves every event within the time that it takes.
pub proof fn law_lateness_stays_small(i: nat, interval: nat, op: nat)
    requires
        op <= interval,
    ensures
        lateness(done_at(i, interval, op), (i * interval) as int) == op,
    decreases i,
{
    if i > 0 {
        let before = (i - 1) as nat;
        law_lateness_stays_small(before, interval, op);
        assert(i * interval == before * interval + interval) by (nonlinear_arith)
            requires
                i == before + 1,
        ;
        lemma_not_early(before, interval, op);
    }
    assert(0 * interval == 0) by (nonlinear_arith);
}

/// Nothing is done before it was due and has taken its time.
proof fn lemma_not_early(i: nat, interval: nat, op: nat)
    ensures
        done_at(i, interval, op) >= i * interval + op,
    decreases i,
{
    assert(0 * interval == 0) by (nonlinear_arith);
}

/// A server that is too slow is never idle.
proof fn lemma_done_at(i: nat, interval: nat, op: nat)
    requires
        op >= interval,
    ensures
        done_at(i, interval, op) == (i + 1) * op,
    decreases i,
{
    if i > 0 {
        let before = (i - 1) as nat;
        lemma_done_at(before, interval, op);
        assert((before + 1) * op == i * op) by (nonlinear_arith)
            requires
                i == before + 1,
        ;
        assert(i * op >= i * interval) by (nonlinear_arith)
            requires
                op >= interval,
        ;
        assert((i + 1) * op == i * op + op) by (nonlinear_arith);
    } else {
        assert((0 + 1) * op == op) by (nonlinear_arith);
    }
}

/// The highest rate that was kept up, among runs that each have their rate and whether
/// it was too much.
pub open spec fn highest_kept(runs: Seq<(u64, bool)>, n: int) -> Option<u64>
    decreases n,
{
    if n <= 0 {
        None
    } else {
        let best = highest_kept(runs, n - 1);
        let (rate, too_much) = runs[n - 1];
        if too_much {
            best
        } else {
            match best {
                Some(b) => if b <= rate {
                    Some(rate)
                } else {
                    best
                },
                None => Some(rate),
            }
        }
    }
}

/// The highest rate that was kept up.
pub fn max_sustainable(runs: &[(u64, bool)]) -> (r: Option<u64>)
    ensures
        r == highest_kept(runs@, runs@.len() as int),
{
    let mut best: Option<u64> = None;
    let mut i: usize = 0;
    while i < runs.len()
        invariant
            i <= runs@.len(),
            best == highest_kept(runs@, i as int),
        decreases runs@.len() - i,
    {
        let (rate, too_much) = runs[i];
        if !too_much {
            best = match best {
                Some(b) => if b <= rate {
                    Some(rate)
                } else {
                    Some(b)
                },
                None => Some(rate),
            };
        }
        i += 1;
    }
    best
}

/// When an event is due. At a fixed rate it is the whole number of nanoseconds in which, at
/// that rate, so many events come before it, whatever its timestamp. By its timestamp it is
/// the time since the first one divided by the speed, and at once where it is earlier.
pub proof fn law_due_times(rate: u64, first_ts: u64, speed: u64, i: nat, ts: u64)
    requires
        rate > 0,
        speed > 0,
    ensures
        ({
            let t = Schedule::FixedRate(rate).due(i, ts);
            &&& rate * t <= i * 1_000_000_000 < rate * (t + 1)
            &&& t == Schedule::FixedRate(rate).due(i, 0)
        }),
        ({
            let t = Schedule::RealArrival { first_ts, speed }.due(i, ts);
            &&& ts >= first_ts ==> speed * t <= ts - first_ts < speed * (t + 1)
            &&& ts < first_ts ==> t == 0
        }),
{
    let n = (i * NS_PER_SEC) as int;
    vstd::arithmetic::div_mod::lemma_fundamental_div_mod(n, rate as int);
    vstd::arithmetic::div_mod::lemma_mod_bound(n, rate as int);
    let q = n / rate as int;
    assert(rate * (q + 1) == rate * q + rate) by (nonlinear_arith);
    if ts >= first_ts {
        let m = ts - first_ts;
        vstd::arithmetic::div_mod::lemma_fundamental_div_mod(m, speed as int);
        vstd::arithmetic::div_mod::lemma_mod_bound(m, speed as int);
        let p = m / speed as int;
        assert(speed * (p + 1) == speed * p + speed) by (nonlinear_arith);
    }
}

/// The first arrival is the timestamp of the first event that bears one: events before it
/// bear zero. Without one it is zero.
pub proof fn law_first_arrival(events: Seq<BookEvent>, from: int, i: int)
    requires
        0 <= from <= i <= events.len(),
        forall|j: int| from <= j < i ==> (#[trigger] events[j]).ts == 0,
    ensures
        i < events.len() && events[i].ts > 0 ==> first_arrival(events, from) == events[i].ts,
        i == events.len() ==> first_arrival(events, from) == 0,
    decreases i - from,
{
    if from < i {
        law_first_arrival(events, from + 1, i);
    }
}

/// The rate of a stream is the whole number of events a second over the time from its start
/// to its last event, and zero where no time passes.
pub proof fn law_natural_rate(events: Seq<BookEvent>, first_ts: u64)
    ensures
        events.len() == 0 || events.last().ts <= first_ts ==> natural_rate(events, first_ts) == 0,
        events.len() > 0 && events.last().ts > first_ts ==> ({
            let t = events.last().ts - first_ts;
            let r = natural_rate(events, first_ts);
            let whole = (events.len() * 1_000_000_000) as int / t;
            &&& span(events, first_ts) == t
            &&& whole <= u64::MAX ==> r * t <= events.len() * 1_000_000_000 < (r + 1) * t
        }),
{
    if events.len() > 0 && events.last().ts > first_ts {
        let t = events.last().ts - first_ts;
        let n = (events.len() * NS_PER_SEC) as int;
        vstd::arithmetic::div_mod::lemma_fundamental_div_mod(n, t);
        vstd::arithmetic::div_mod::lemma_mod_bound(n, t);
        let q = n / t;
        assert(t * q == q * t) by (nonlinear_arith);
        assert((q + 1) * t == q * t + t) by (nonlinear_arith);
    }
}

/// The highest rate that was kept up is that of a run that was not too much, and no such run
/// has a higher one. There is none exactly when every run was too much.
pub proof fn law_highest_kept_is_the_highest(runs: Seq<(u64, bool)>, n: int, i: int)
    requires
        0 <= n <= runs.len(),
    ensures
        0 <= i < n && !runs[i].1 ==> (highest_kept(runs, n) matches Some(r) && runs[i].0 <= r),
        highest_kept(runs, n) matches Some(r) ==> exists|k: int|
            0 <= k < n && !runs[k].1 && (#[trigger] runs[k]).0 == r,
    decreases n,
{
    if n > 0 {
        law_highest_kept_is_the_highest(runs, n - 1, i);
        if let Some(r) = highest_kept(runs, n) {
            if !runs[n - 1].1 && runs[n - 1].0 == r {
                assert(0 <= n - 1 < n && !runs[n - 1].1 && runs[n - 1].0 == r);
            } else {
                let k = choose|k: int| 0 <= k < n - 1 && !runs[k].1 && (#[trigger] runs[k]).0 == r;
                assert(0 <= k < n && !runs[k].1 && runs[k].0 == r);
            }
        }
    }
}

/// An event is never done before it is due and has taken its time, nor before the one before
/// it is done, and it is done as soon as both allow.
pub proof fn law_events_are_served_in_turn(i: nat, interval: nat, op: nat)
    ensures
        done_at(0, interval, op) == op,
        done_at(i + 1, interval, op) >= (i + 1) * interval + op,
        done_at(i + 1, interval, op) >= done_at(i, interval, op) + op,
        done_at(i + 1, interval, op) == (i + 1) * interval + op || done_at(i + 1, interval, op)
            == done_at(i, interval, op) + op,
{
}

} // verus!
