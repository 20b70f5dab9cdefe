//! Counters of messages received and published, and the rates that are logged.

use crate::seqlock::share;
use crate::text::{decimal, push_decimal};
use std::sync::atomic::{AtomicU64, Ordering};
use std::sync::Arc;
use vstd::prelude::*;

verus! {

/// A counter.
pub enum Counter {
    /// Of messages received.
    Recv,
    /// Of messages published.
    Published,
}

/// A load from a counter, and the value that it gave.
pub struct CounterLoad {
    /// The counter.
    pub counter: Counter,
    /// The value.
    pub value: u64,
}

/// Two counters that any number of tasks may raise.
///
/// Shared memory is seen by the verifier as a source of arbitrary values. The contracts
/// speak of records of which counter is raised or read, and in which order; these are
/// kept beside the accesses and are no evidence of them. The law takes the values that
/// are read to be those that the recorded raises make.
pub struct ThroughputMetrics {
    /// Messages received.
    pub recv: Arc<AtomicU64>,
    /// Messages published.
    pub pubed: Arc<AtomicU64>,
    start: Ghost<(u64, u64)>,
}

impl ThroughputMetrics {
    /// The counts of messages received and published that the counters were made with.
    pub closed spec fn start(&self) -> (u64, u64) {
        self.start@
    }

    /// Counters at zero.
    pub fn new() -> (m: Self)
        ensures
            m.start() == (0u64, 0u64),
    {
        ThroughputMetrics {
            recv: Arc::new(AtomicU64::new(0)),
            pubed: Arc::new(AtomicU64::new(0)),
            start: Ghost((0, 0)),
        }
    }

    /// Counts one message received. The result is the record of the counter that was
    /// raised by one.
    pub fn incr_recv(&self) -> (raised: Ghost<Counter>)
        ensures
            raised@ == Counter::Recv,
    {
        self.recv.fetch_add(1, Ordering::Relaxed);
        Ghost(Counter::Recv)
    }

    /// Counts one message published. The result is the record of the counter that was
    /// raised by one.
    pub fn incr_pub(&self) -> (raised: Ghost<Counter>)
        ensures
            raised@ == Counter::Published,
    {
        self.pubed.fetch_add(1, Ordering::Relaxed);
        Ghost(Counter::Published)
    }

    /// The counts now: of messages received, and then of messages published. With them
    /// comes the record of the loads that were made.
    pub fn totals(&self) -> (t: ((u64, u64), Ghost<Seq<CounterLoad>>))
        ensures
            t.1@ == total_loads(t.0),
    {
        let recv: u64 = self.recv.load(Ordering::Relaxed);
        let ghost first = CounterLoad { counter: Counter::Recv, value: recv };
        let published: u64 = self.pubed.load(Ordering::Relaxed);
        let ghost second = CounterLoad { counter: Counter::Published, value: published };
        let ghost log = seq![first, second];
        ((recv, published), Ghost(log))
    }
}

/// The loads that give the totals, in order.
pub open spec fn total_loads(t: (u64, u64)) -> Seq<CounterLoad> {
    seq![
        CounterLoad { counter: Counter::Recv, value: t.0 },
        CounterLoad { counter: Counter::Published, value: t.1 },
    ]
}

/// How often a counter is among those that were raised.
pub open spec fn raises(raised: Seq<Counter>, c: Counter) -> nat
    decreases raised.len(),
{
    if raised.len() == 0 {
        0
    } else {
        raises(raised.drop_last(), c) + (if raised.last() == c {
            1nat
        } else {
            0
        })
    }
}

/// What a counter holds that started at `start` and was raised one by one; it goes
/// round at its end.
pub open spec fn held(start: u64, raised: Seq<Counter>, c: Counter) -> u64 {
    ((start + raises(raised, c)) % 0x1_0000_0000_0000_0000) as u64
}

/// Whether totals were loaded from counters that started at `start`: each load after
/// so many of the raises, at times that do not go back.
pub open spec fn counted_at(
    t: (u64, u64),
    start: (u64, u64),
    raised: Seq<Counter>,
    times: (int, int),
) -> bool {
    let loads = total_loads(t);
    &&& 0 <= times.0 <= times.1 <= raised.len()
    &&& loads[0].value == held(start.0, raised.take(times.0), loads[0].counter)
    &&& loads[1].value == held(start.1, raised.take(times.1), loads[1].counter)
}

proof fn lemma_raises_split(raised: Seq<Counter>, from: int, to: int, c: Counter)
    requires
        0 <= from <= to <= raised.len(),
    ensures
        raises(raised.take(to), c) == raises(raised.take(from), c) + raises(
            raised.subrange(from, to),
            c,
        ),
    decreases to - from,
{
    if from == to {
        assert(raised.subrange(from, to) =~= Seq::empty());
    } else {
        lemma_raises_split(raised, from, to - 1, c);
        assert(raised.take(to).drop_last() =~= raised.take(to - 1));
        assert(raised.subrange(from, to).drop_last() =~= raised.subrange(from, to - 1));
        assert(raised.subrange(from, to).last() == raised.take(to).last());
    }
}

proof fn lemma_gain(start: u64, raised: Seq<Counter>, from: int, to: int, c: Counter)
    requires
        0 <= from <= to <= raised.len(),
    ensures
        gained(held(start, raised.take(to), c), held(start, raised.take(from), c)) == raises(
            raised.subrange(from, to),
            c,
        ) as int % 0x1_0000_0000_0000_0000,
{
    lemma_raises_split(raised, from, to, c);
    let m: int = 0x1_0000_0000_0000_0000;
    let a = start + raises(raised.take(from), c);
    let b = start + raises(raised.take(to), c);
    let d = raises(raised.subrange(from, to), c) as int;
    assert(b == a + d);
    let q = b / m - a / m - d / m;
    assert(b % m - a % m == d % m - m * q) by {
        vstd::arithmetic::div_mod::lemma_fundamental_div_mod(a, m);
        vstd::arithmetic::div_mod::lemma_fundamental_div_mod(b, m);
        vstd::arithmetic::div_mod::lemma_fundamental_div_mod(d, m);
    }
}

/// What a logger reports between two readings of the counters is how many messages
/// were received, and how many published, between the loads.
pub proof fn law_gain_is_what_was_counted(
    start: (u64, u64),
    raised: Seq<Counter>,
    last: (u64, u64),
    now: (u64, u64),
    before: (int, int),
    after: (int, int),
)
    requires
        counted_at(last, start, raised, before),
        counted_at(now, start, raised, after),
        before.0 <= after.0,
        before.1 <= after.1,
    ensures
        gained(now.0, last.0) == raises(
            raised.subrange(before.0, after.0),
            Counter::Recv,
        ) as int % 0x1_0000_0000_0000_0000,
        gained(now.1, last.1) == raises(
            raised.subrange(before.1, after.1),
            Counter::Published,
        ) as int % 0x1_0000_0000_0000_0000,
{
    lemma_gain(start.0, raised, before.0, after.0, Counter::Recv);
    lemma_gain(start.1, raised, before.1, after.1, Counter::Published);
}

impl Clone for ThroughputMetrics {
    /// Another handle on the same counters.
    fn clone(&self) -> (m: Self)
        ensures
            m == *self,
    {
        ThroughputMetrics { recv: share(&self.recv), pubed: share(&self.pubed), start: self.start }
    }
}

/// What a logger of the counters remembers: the totals of its last line.
#[derive(Clone, Copy, PartialEq, Eq, Structural, Debug)]
pub struct Rates {
    /// Messages received by then.
    pub recv: u64,
    /// Messages published by then.
    pub published: u64,
}

/// How many more `now` is than `last`, counted round the end of the counter.
pub open spec fn gained(now: u64, last: u64) -> int {
    if now >= last {
        now - last
    } else {
        now - last + 0x1_0000_0000_0000_0000
    }
}

impl Rates {
    /// Nothing counted yet.
    pub fn new() -> (r: Self)
        ensures
            r == (Rates { recv: 0, published: 0 }),
    {
        Rates { recv: 0, published: 0 }
    }

    /// Takes in the totals of now and gives what was gained since the last time.
    pub fn advance(&mut self, recv: u64, published: u64) -> (gain: (u64, u64))
        ensures
            gain.0 == gained(recv, old(self).recv),
            gain.1 == gained(published, old(self).published),
            *final(self) == (Rates { recv, published }),
    {
        let gain: (u64, u64) = (
            recv.wrapping_sub(self.recv),
            published.wrapping_sub(self.published),
        );
        self.recv = recv;
        self.published = published;
        gain
    }
}

/// The log line of a collector's stream.
pub open spec fn rate_line(
    exchange: Seq<char>,
    stream: Seq<char>,
    gain: (u64, u64),
    total: (u64, u64),
) -> Seq<char> {
    "📊 ["@ + exchange + ":"@ + stream + "] recv/s="@ + decimal(gain.0 as nat) + " | pub/s="@
        + decimal(gain.1 as nat) + " | total_recv="@ + decimal(total.0 as nat) + " | total_pub="@
        + decimal(total.1 as nat)
}

/// The log line of a collector's stream.
pub fn log_line(exchange: &str, stream: &str, gain: (u64, u64), total: (u64, u64)) -> (s: String)
    ensures
        s@ == rate_line(exchange@, stream@, gain, total),
{
    let mut s = String::new();
    s.append("📊 [");
    s.append(exchange);
    s.append(":");
    s.append(stream);
    s.append("] recv/s=");
    push_decimal(&mut s, gain.0);
    s.append(" | pub/s=");
    push_decimal(&mut s, gain.1);
    s.append(" | total_recv=");
    push_decimal(&mut s, total.0);
    s.append(" | total_pub=");
    push_decimal(&mut s, total.1);
    proof {
        assert(s@ =~= rate_line(exchange@, stream@, gain, total));
    }
    s
}

} // verus!
