//! A recorder of latencies in nanoseconds, over `hdrhistogram`.
//!
//! The histogram keeps values from one nanosecond to about a minute with three
//! significant figures. The verifier sees it as the multiset of the values that
//! went in. Quantiles and means are floating-point numbers; they are left to the
//! caller, who gets the occupied buckets.

use hdrhistogram::Histogram;
use vstd::multiset::Multiset;
use vstd::prelude::*;

verus! {

/// Smallest value that the recorder tells apart.
pub const LOW_NS: u64 = 1;

/// Largest value that the recorder is asked to hold: a minute.
pub const HIGH_NS: u64 = 60_000_000_000;

/// Significant figures that are kept of a value.
pub const FIGURES: u8 = 3;

/// Values below this one have a bucket of their own at three figures.
pub const EXACT_BELOW: u64 = 2048;

/// An `hdrhistogram::Histogram`, described by [`samples`] and [`made_with`].
#[verifier::external_body]
#[derive(Debug)]
pub struct Latencies {
    inner: Histogram<u64>,
}

/// The values that a histogram has taken in.
pub uninterp spec fn samples(h: Latencies) -> Multiset<u64>;

/// The low bound, the high bound and the figures that a histogram was made with.
pub uninterp spec fn made_with(h: Latencies) -> (u64, u64, u8);

/// The first of `limit`, twice `limit`, four times `limit` and so on that is above
/// `high`.
pub open spec fn first_above(limit: int, high: int) -> int
    decreases
        (if limit > high {
            0
        } else {
            high - limit + 1
        }),
{
    if limit > high || limit <= 0 {
        limit
    } else {
        first_above(2 * limit, high)
    }
}

/// The largest value that shares a bucket with `v`: the buckets have width one
/// below [`EXACT_BELOW`], and twice the width each time that the values double.
pub open spec fn bucket_top(v: int) -> int
    decreases v,
{
    if v < EXACT_BELOW {
        v
    } else {
        2 * bucket_top(v / 2) + 1
    }
}

/// `v` is the greatest value of `m`.
pub open spec fn is_greatest(m: Multiset<u64>, v: u64) -> bool {
    &&& m.contains(v)
    &&& forall|w: u64| #[trigger] m.contains(w) ==> w <= v
}

/// `hdrhistogram::Histogram::new_with_bounds`: an empty histogram with these
/// bounds. It succeeds when the low bound is at least one, the high bound at least
/// twice the low one and there are at most five figures; low bounds other than one
/// are left out here.
#[verifier::external_body]
fn new_with_bounds(low: u64, high: u64, figures: u8) -> (h: Latencies)
    requires
        low == 1,
        2 <= high,
        figures <= 5,
    ensures
        samples(h) == Multiset::<u64>::empty(),
        made_with(h) == (low, high, figures),
{
    Latencies { inner: Histogram::new_with_bounds(low, high, figures).expect("valid bounds") }
}

/// `hdrhistogram::Histogram::record`: takes `value` in when a bucket covers it, and
/// otherwise says so and changes nothing. At three figures the buckets reach up to
/// the first doubling of 2048 above the high bound.
#[verifier::external_body]
fn record_value(h: &mut Latencies, value: u64) -> (ok: bool)
    requires
        made_with(*old(h)).0 == 1,
        made_with(*old(h)).2 == 3,
    ensures
        ok <==> value < first_above(EXACT_BELOW as int, made_with(*old(h)).1 as int),
        samples(*final(h)) == if ok {
            samples(*old(h)).insert(value)
        } else {
            samples(*old(h))
        },
        made_with(*final(h)) == made_with(*old(h)),
{
    h.inner.record(value).is_ok()
}

/// `hdrhistogram::Histogram::len`: how many values went in, counted up to the
/// largest `u64`.
#[verifier::external_body]
fn sample_count(h: &Latencies) -> (n: u64)
    ensures
        n == capped(samples(*h).len()),
{
    h.inner.len()
}

/// `hdrhistogram::Histogram::max`: the top of the bucket of the greatest value, and
/// zero while there is none. High bounds from 2^63 on are left out: their last bucket
/// has no top within a `u64`.
#[verifier::external_body]
fn highest_level(h: &Latencies) -> (r: u64)
    requires
        made_with(*h).0 == 1,
        made_with(*h).1 < 0x8000_0000_0000_0000,
        made_with(*h).2 == 3,
    ensures
        samples(*h).len() == 0 ==> r == 0,
        forall|v: u64| is_greatest(samples(*h), v) ==> r == #[trigger] bucket_top(v as int),
{
    h.inner.max()
}

/// How many values of `m` fall into the bucket that ends at `top`.
pub open spec fn in_bucket(m: Multiset<u64>, top: u64) -> nat {
    m.filter(|v: u64| bucket_top(v as int) == top).len()
}

/// `n`, or the largest `u64` where it is more.
pub open spec fn capped(n: nat) -> u64 {
    if n <= u64::MAX {
        n as u64
    } else {
        u64::MAX
    }
}

/// `list` gives the occupied buckets of `m` in ascending order, each by its top and
/// the number of values in it.
pub open spec fn lists_buckets(list: Seq<(u64, u64)>, m: Multiset<u64>) -> bool {
    &&& forall|i: int, j: int|
        #![trigger list[i], list[j]]
        0 <= i < j < list.len() ==> list[i].0 < list[j].0
    &&& forall|i: int|
        #![trigger list[i]]
        0 <= i < list.len() ==> list[i].1 > 0 && list[i].1 == capped(in_bucket(m, list[i].0))
    &&& forall|v: u64| #[trigger]
        m.contains(v) ==> exists|i: int|
            0 <= i < list.len() && #[trigger] list[i].0 == bucket_top(v as int)
}

/// `hdrhistogram::Histogram::iter_recorded`: the buckets with a value in them, from
/// the lowest up, each with its highest value and its count. High bounds from 2^63 on
/// are left out: their last bucket has no top within a `u64`.
#[verifier::external_body]
fn recorded(h: &Latencies) -> (list: Vec<(u64, u64)>)
    requires
        made_with(*h).0 == 1,
        made_with(*h).1 < 0x8000_0000_0000_0000,
        made_with(*h).2 == 3,
    ensures
        lists_buckets(list@, samples(*h)),
{
    h.inner.iter_recorded().map(|v| (v.value_iterated_to(), v.count_at_value())).collect()
}

/// Records latencies in nanoseconds.
#[derive(Debug)]
pub struct Recorder {
    hist: Latencies,
}

impl View for Recorder {
    type V = Multiset<u64>;

    closed spec fn view(&self) -> Multiset<u64> {
        samples(self.hist)
    }
}

/// One more than the longest latency that has a bucket: the first doubling of 2048
/// above a minute.
pub const CEILING_NS: u64 = 68_719_476_736;

proof fn lemma_ceiling()
    ensures
        first_above(EXACT_BELOW as int, HIGH_NS as int) == CEILING_NS,
{
    reveal_with_fuel(first_above, 26);
}

impl Recorder {
    /// The histogram has the recorder's bounds.
    pub closed spec fn wf(self) -> bool {
        made_with(self.hist) == (LOW_NS, HIGH_NS, FIGURES)
    }

    /// A recorder without values.
    #[must_use]
    pub fn new() -> (r: Self)
        ensures
            r.wf(),
            r@ == Multiset::<u64>::empty(),
    {
        Recorder { hist: new_with_bounds(LOW_NS, HIGH_NS, FIGURES) }
    }

    /// Takes in one latency, a zero as one nanosecond. A latency that no bucket
    /// covers is dropped.
    pub fn record(&mut self, ns: u64)
        requires
            old(self).wf(),
        ensures
            final(self).wf(),
            final(self)@ == if ns >= CEILING_NS {
                old(self)@
            } else if ns == 0 {
                old(self)@.insert(1)
            } else {
                old(self)@.insert(ns)
            },
    {
        proof {
            lemma_ceiling();
        }
        let value: u64 = if ns < 1 {
            1
        } else {
            ns
        };
        let _ = record_value(&mut self.hist, value);
    }

    /// The greatest latency so far, rounded up to the end of its bucket; zero while
    /// there is none.
    #[must_use]
    pub fn max(&self) -> (r: u64)
        requires
            self.wf(),
        ensures
            self@.len() == 0 ==> r == 0,
            forall|v: u64| is_greatest(self@, v) ==> r == #[trigger] bucket_top(v as int),
    {
        highest_level(&self.hist)
    }

    /// How many latencies were taken in, up to the largest `u64`.
    #[must_use]
    pub fn count(&self) -> (n: u64)
        ensures
            n == capped(self@.len()),
    {
        sample_count(&self.hist)
    }

    /// The occupied buckets in ascending order, each by its top and its count: all
    /// that quantiles and means are taken from.
    #[must_use]
    pub fn buckets(&self) -> (list: Vec<(u64, u64)>)
        requires
            self.wf(),
        ensures
            lists_buckets(list@, self@),
    {
        recorded(&self.hist)
    }
}

impl Default for Recorder {
    fn default() -> (r: Self)
        ensures
            r.wf(),
            r@ == Multiset::<u64>::empty(),
    {
        Recorder::new()
    }
}

/// The reported maximum is at least every recorded value and exceeds the greatest
/// one by less than a thousandth of it.
pub proof fn law_max_is_within_a_thousandth(v: u64)
    ensures
        v <= bucket_top(v as int),
        1000 * (bucket_top(v as int) - v) <= v,
{
    lemma_bucket_top(v as int);
}

proof fn lemma_bucket_top(v: int)
    requires
        0 <= v,
    ensures
        v <= bucket_top(v),
        v < EXACT_BELOW ==> bucket_top(v) == v,
        v >= EXACT_BELOW ==> 1024 * (bucket_top(v) + 1 - v) <= v,
    decreases v,
{
    if v >= EXACT_BELOW {
        lemma_bucket_top(v / 2);
    }
}

} // verus!
