//! A cheap monotonic clock for measurements at the scale of nanoseconds, over
//! `quanta`, with its own cost measured once.
//!
//! What a clock reads depends on the machine, so the contracts say what is made of
//! the readings: the time between two of them is never negative and is a matter of
//! the ticks between them, and the cost of the clock is the median over pairs of
//! readings in a row.

use crate::ladder::BookModel;
use crate::price::{Px, Qty};
use quanta::Clock;
use vstd::prelude::*;
use vstd::relations::{sorted_by, total_ordering};
use vstd::seq_lib::lemma_sorted_unique;

verus! {

/// How often the clock is read to find its own cost.
pub const OVERHEAD_ITERS: usize = 200_000;

/// `quanta::Clock`, carried through as it is.
#[verifier::external_type_specification]
#[verifier::external_body]
pub struct ExClock(quanta::Clock);

/// `quanta::Clock::new`: a clock, calibrated on first use. Nothing is said of it.
#[verifier::external_body]
fn new_clock() -> (c: Clock) {
    Clock::new()
}

/// `quanta::Clock::raw`: the counter now. Nothing is said of its value.
#[verifier::external_body]
fn read_raw(c: &Clock) -> (r: u64) {
    c.raw()
}

/// The nanoseconds that so many ticks last by the calibration that a clock was made
/// with, as `quanta::Clock::delta` counts them.
pub uninterp spec fn lasting(c: Clock, ticks: u64) -> u64;

/// The nanoseconds from the reading `start` of a clock to its reading `end`: none
/// unless `end` is the greater one, and otherwise those of the ticks between them.
pub open spec fn elapsed(c: Clock, start: u64, end: u64) -> u64 {
    if end <= start {
        0
    } else {
        lasting(c, (end - start) as u64)
    }
}

/// `quanta::Clock::delta`: the time from one reading to another, in nanoseconds. It
/// is zero unless the second reading is the greater one. Otherwise it is a 64-bit
/// number that depends on the ticks between the readings and on the calibration that
/// the clock was made with, which no later call changes. How long a tick lasts is the
/// machine's.
#[verifier::external_body]
fn span(c: &Clock, start: u64, end: u64) -> (nanos: u128)
    ensures
        end <= start ==> nanos == 0,
        end > start ==> nanos == lasting(*c, (end - start) as u64),
{
    c.delta(start, end).as_nanos()
}

/// `std::hint::black_box`: hands its argument back, out of the optimizer's sight.
pub assume_specification<T>[ std::hint::black_box::<T> ](dummy: T) -> (r: T)
    ensures
        r == dummy,
;

/// The order of the samples.
pub open spec fn ascending() -> spec_fn(u64, u64) -> bool {
    |a: u64, b: u64| a <= b
}

/// `<[u64]>::sort_unstable`: the same numbers in ascending order.
#[verifier::external_body]
fn sort(v: &mut Vec<u64>)
    ensures
        sorted_by(final(v)@, ascending()),
        final(v)@.to_multiset() == old(v)@.to_multiset(),
{
    v.sort_unstable()
}

/// `nanos` as a `u64`, the largest one where it does not fit.
pub fn ns_u64(nanos: u128) -> (r: u64)
    ensures
        r == if nanos <= u64::MAX {
            nanos as int
        } else {
            u64::MAX as int
        },
{
    if nanos <= u64::MAX as u128 {
        nanos as u64
    } else {
        u64::MAX
    }
}

/// The number at the middle of `samples` in ascending order, the upper of the two
/// where there are two.
pub open spec fn median_of(samples: Seq<u64>) -> u64 {
    samples.sort_by(ascending())[samples.len() as int / 2]
}

/// The median of `samples`.
pub fn median(samples: Vec<u64>) -> (m: u64)
    requires
        samples@.len() > 0,
    ensures
        m == median_of(samples@),
{
    let mut sorted = samples;
    sort(&mut sorted);
    proof {
        assert(total_ordering(ascending()));
        samples@.lemma_sort_by_ensures(ascending());
        lemma_sorted_unique(sorted@, samples@.sort_by(ascending()), ascending());
        sorted@.to_multiset_ensures();
        samples@.to_multiset_ensures();
    }
    let mid: usize = sorted.len() / 2;
    sorted[mid]
}

/// The nanoseconds between the readings of each pair.
pub open spec fn gaps(c: Clock, pairs: Seq<(u64, u64)>) -> Seq<u64> {
    pairs.map_values(|p: (u64, u64)| elapsed(c, p.0, p.1))
}

/// Whether `ns` is the cost of a clock: the median time between two readings in a
/// row, over as many pairs of readings as the measurement takes, whatever was read.
pub open spec fn is_overhead(c: Clock, ns: u64) -> bool {
    exists|pairs: Seq<(u64, u64)>|
        pairs.len() == OVERHEAD_ITERS && ns == median_of(#[trigger] gaps(c, pairs))
}

/// A clock that knows what reading it costs.
#[derive(Debug)]
pub struct BenchClock {
    clock: Clock,
    overhead_ns: u64,
}

impl BenchClock {
    /// The measured cost of a reading.
    pub closed spec fn overhead(self) -> u64 {
        self.overhead_ns
    }

    /// The clock underneath.
    pub closed spec fn source(self) -> Clock {
        self.clock
    }

    /// A clock, and one measurement of its cost. What is read is the machine's.
    #[must_use]
    pub fn new() -> (c: Self)
        ensures
            is_overhead(c.source(), c.overhead()),
    {
        let clock = new_clock();
        let overhead_ns: u64 = Self::measure_overhead(&clock);
        BenchClock { clock, overhead_ns }
    }

    /// The counter now: the cheapest reading there is.
    #[must_use]
    pub fn raw(&self) -> (r: u64) {
        read_raw(&self.clock)
    }

    /// Nanoseconds from the reading `a` to the reading `b`, zero unless `b` is the
    /// greater one.
    #[must_use]
    pub fn delta_ns(&self, a: u64, b: u64) -> (ns: u64)
        ensures
            ns == elapsed(self.source(), a, b),
            b <= a ==> ns == 0,
    {
        ns_u64(span(&self.clock, a, b))
    }

    /// The measured cost of a reading in nanoseconds: the floor below which a
    /// duration tells nothing. It is reported and never subtracted.
    #[must_use]
    pub fn overhead_ns(&self) -> (ns: u64)
        ensures
            ns == self.overhead(),
    {
        self.overhead_ns
    }

    /// Nanoseconds from the reading `base` to a reading made now. No counter passes
    /// its largest value, so nothing ever lies after that.
    #[must_use]
    pub fn now_since_ns(&self, base: u64) -> (ns: u64)
        ensures
            exists|now: u64| ns == #[trigger] elapsed(self.source(), base, now),
            base == u64::MAX ==> ns == 0,
    {
        let now: u64 = self.raw();
        self.delta_ns(base, now)
    }

    /// The median time between two readings in a row.
    fn measure_overhead(clock: &Clock) -> (ns: u64)
        ensures
            is_overhead(*clock, ns),
    {
        let mut samples: Vec<u64> = Vec::with_capacity(OVERHEAD_ITERS);
        let ghost mut pairs: Seq<(u64, u64)> = Seq::empty();
        for i in 0..OVERHEAD_ITERS
            invariant
                pairs.len() == i,
                samples@ == gaps(*clock, pairs),
        {
            let a: u64 = std::hint::black_box(read_raw(clock));
            let b: u64 = std::hint::black_box(read_raw(clock));
            samples.push(ns_u64(span(clock, a, b)));
            proof {
                pairs = pairs.push((a, b));
            }
        }
        median(samples)
    }
}

/// What stood ready when a clock was read.
pub enum Seen {
    /// A book in this state.
    Book(BookModel),
    /// The best level that was read from a book.
    Best(Option<(Px, Qty)>),
    /// A buffer that levels were copied into.
    Levels(Seq<(Px, Qty)>),
}

/// One reading of a clock.
pub struct Reading {
    /// What was read.
    pub at: u64,
    /// What stood ready then.
    pub seen: Seen,
}

/// The nanoseconds from each even reading to the one after it.
pub open spec fn spans(c: Clock, readings: Seq<Reading>) -> Seq<u64> {
    Seq::new(
        readings.len() / 2,
        |i: int| elapsed(c, readings[2 * i].at, readings[2 * i + 1].at),
    )
}

/// A clock together with an account of what was read from it. The account is kept beside
/// the readings.
pub struct Stopwatch<'a> {
    clock: &'a BenchClock,
    readings: Ghost<Seq<Reading>>,
}

impl<'a> Stopwatch<'a> {
    /// The clock underneath.
    pub closed spec fn source(&self) -> Clock {
        self.clock.source()
    }

    /// What was read, in order, and what stood ready each time.
    pub closed spec fn readings(&self) -> Seq<Reading> {
        self.readings@
    }

    /// A stopwatch over a clock, with nothing read.
    #[must_use]
    pub fn new(clock: &'a BenchClock) -> (w: Self)
        ensures
            w.source() == clock.source(),
            w.readings() == Seq::<Reading>::empty(),
    {
        Stopwatch { clock, readings: Ghost(Seq::empty()) }
    }

    /// Reads the counter while `seen` stands ready.
    #[inline]
    pub(crate) fn read(&mut self, Ghost(seen): Ghost<Seen>) -> (r: u64)
        ensures
            final(self).source() == old(self).source(),
            final(self).readings() == old(self).readings().push(Reading { at: r, seen }),
    {
        let r: u64 = self.clock.raw();
        self.readings = Ghost(self.readings@.push(Reading { at: r, seen }));
        r
    }

    /// Nanoseconds from the reading `a` to the reading `b`.
    #[inline]
    #[must_use]
    pub fn delta_ns(&self, a: u64, b: u64) -> (ns: u64)
        ensures
            ns == elapsed(self.source(), a, b),
    {
        self.clock.delta_ns(a, b)
    }
}

impl Default for BenchClock {
    fn default() -> (c: Self)
        ensures
            is_overhead(c.source(), c.overhead()),
    {
        BenchClock::new()
    }
}

/// The median of some samples is the middle one of them in ascending order, and of an even
/// number the upper one of the two in the middle.
pub proof fn law_median_is_the_middle(samples: Seq<u64>, ordered: Seq<u64>)
    requires
        samples.len() > 0,
        ordered.to_multiset() == samples.to_multiset(),
        forall|i: int, j: int| 0 <= i < j < ordered.len() ==> ordered[i] <= ordered[j],
    ensures
        ordered.len() == samples.len(),
        median_of(samples) == ordered[samples.len() as int / 2],
{
    let f = ascending();
    assert(total_ordering(f));
    samples.lemma_sort_by_ensures(f);
    let s = samples.sort_by(f);
    ordered.to_multiset_ensures();
    samples.to_multiset_ensures();
    s.to_multiset_ensures();
    assert(sorted_by(ordered, f));
    vstd::seq_lib::lemma_sorted_unique(ordered, s, f);
}

/// No time has passed from a reading to an earlier one or to itself, and otherwise the time
/// depends on the difference of the two alone.
pub proof fn law_elapsed_goes_by_the_difference(c: Clock, a: u64, b: u64, x: u64, y: u64)
    ensures
        b <= a ==> elapsed(c, a, b) == 0,
        a < b && x < y && b - a == y - x ==> elapsed(c, a, b) == elapsed(c, x, y),
{
}

} // verus!
