//! Books of a given depth and touches of a given locality, for measurements.

use crate::book::OrderBook;
use crate::event::{BookEvent, Side};
use crate::ladder::{set_level, BookModel, Levels};
use crate::price::{Px, Qty};
use crate::rng::{lemma_later_values, mix, step, value, SplitMix64};
use vstd::prelude::*;

verus! {

/// Ticks between adjacent levels: more than one, so that there are gaps.
pub const STEP: i64 = 2;

/// Where in a ladder touches land.
#[derive(Clone, Copy, PartialEq, Eq, Structural, Debug)]
pub enum Locality {
    /// Near the best price, half as often at each step away from it.
    Concentrated,
    /// Anywhere alike.
    Uniform,
}

impl Locality {
    /// A tag for file names.
    #[must_use]
    pub fn tag(self) -> (s: &'static str)
        ensures
            s@ == (match self {
                Locality::Concentrated => "concentrated"@,
                Locality::Uniform => "uniform"@,
            }),
    {
        match self {
            Locality::Concentrated => "concentrated",
            Locality::Uniform => "uniform",
        }
    }
}

/// The price of the level at a distance from the middle, one being the best.
pub open spec fn level_price(mid: int, side: Side, distance: int) -> int {
    match side {
        Side::Bid => mid - STEP * distance,
        Side::Ask => mid + STEP * distance,
    }
}

/// One side of a book with levels at the distances `from` to `to`.
pub open spec fn stair(mid: int, side: Side, from: int, to: int) -> Levels {
    Map::new(
        |p: i64| exists|i: int| from <= i <= to && p == #[trigger] level_price(mid, side, i),
        |p: i64|
            (1_000 + (match side {
                Side::Bid => mid - p,
                Side::Ask => p - mid,
            }) / 2) as i64,
    )
}

/// A book with `depth` levels on each side of `mid`.
pub open spec fn stairs(mid: int, depth: int) -> BookModel {
    BookModel {
        bids: stair(mid, Side::Bid, 1, depth),
        asks: stair(mid, Side::Ask, 1, depth),
        last_trade: None,
    }
}

/// Whether the levels of a depth around `mid` are machine prices that a fresh book
/// of type `B` can take.
pub open spec fn room_for<B: OrderBook>(mid: int, depth: int) -> bool {
    &&& i64::MIN <= mid - STEP * depth
    &&& mid + STEP * depth <= i64::MAX
    &&& 1_000 + depth <= i64::MAX
    &&& B::fresh_covers(mid - STEP * depth, mid + STEP * depth)
}

/// Setting the level next to a stair lengthens it.
proof fn lemma_stair_up(mid: int, side: Side, from: int, to: int)
    requires
        0 < from,
        from <= to + 1,
        i64::MIN <= level_price(mid, side, to + 1) <= i64::MAX,
        1_000 + to + 1 <= i64::MAX,
    ensures
        set_level(
            stair(mid, side, from, to),
            level_price(mid, side, to + 1) as i64,
            (1_000 + to + 1) as i64,
        ) == stair(mid, side, from, to + 1),
{
    let p = level_price(mid, side, to + 1) as i64;
    let a = set_level(stair(mid, side, from, to), p, (1_000 + to + 1) as i64);
    let b = stair(mid, side, from, to + 1);
    assert forall|x: i64| a.contains_key(x) == b.contains_key(x) by {
        if b.contains_key(x) && x != p {
            let i = choose|i: int| from <= i <= to + 1 && x == #[trigger] level_price(mid, side, i);
            assert(from <= i <= to && x == level_price(mid, side, i));
        }
        if stair(mid, side, from, to).contains_key(x) {
            let i = choose|i: int| from <= i <= to && x == #[trigger] level_price(mid, side, i);
            assert(from <= i <= to + 1 && x == level_price(mid, side, i));
        }
        assert(from <= to + 1 <= to + 1 && p == level_price(mid, side, to + 1));
    }
    assert(a =~= b);
}

/// Setting the level before a stair lengthens it too.
proof fn lemma_stair_down(mid: int, side: Side, from: int, to: int)
    requires
        1 < from,
        from - 1 <= to,
        i64::MIN <= level_price(mid, side, from - 1) <= i64::MAX,
        1_000 + from - 1 <= i64::MAX,
    ensures
        set_level(
            stair(mid, side, from, to),
            level_price(mid, side, from - 1) as i64,
            (1_000 + from - 1) as i64,
        ) == stair(mid, side, from - 1, to),
{
    let p = level_price(mid, side, from - 1) as i64;
    let a = set_level(stair(mid, side, from, to), p, (1_000 + from - 1) as i64);
    let b = stair(mid, side, from - 1, to);
    assert forall|x: i64| a.contains_key(x) == b.contains_key(x) by {
        if b.contains_key(x) && x != p {
            let i = choose|i: int| from - 1 <= i <= to && x == #[trigger] level_price(mid, side, i);
            assert(from <= i <= to && x == level_price(mid, side, i));
        }
        if stair(mid, side, from, to).contains_key(x) {
            let i = choose|i: int| from <= i <= to && x == #[trigger] level_price(mid, side, i);
            assert(from - 1 <= i <= to && x == level_price(mid, side, i));
        }
        assert(from - 1 <= from - 1 <= to && p == level_price(mid, side, from - 1));
    }
    assert(a =~= b);
}

/// Sets one level of a stair.
fn put<B: OrderBook>(b: &mut B, mid: Px, side: Side, i: i64, depth: i64)
    requires
        old(b).wf(),
        1 <= i <= depth,
        room_for::<B>(mid.0 as int, depth as int),
        old(b).covers(mid.0 - STEP * depth, mid.0 + STEP * depth),
    ensures
        final(b).wf(),
        final(b).covers(mid.0 - STEP * depth, mid.0 + STEP * depth),
        final(b).model() == (match side {
            Side::Bid => BookModel {
                bids: set_level(
                    old(b).model().bids,
                    level_price(mid.0 as int, side, i as int) as i64,
                    (1_000 + i) as i64,
                ),
                ..old(b).model()
            },
            Side::Ask => BookModel {
                asks: set_level(
                    old(b).model().asks,
                    level_price(mid.0 as int, side, i as int) as i64,
                    (1_000 + i) as i64,
                ),
                ..old(b).model()
            },
        }),
{
    let px: i64 = match side {
        Side::Bid => mid.ticks() - STEP * i,
        Side::Ask => mid.ticks() + STEP * i,
    };
    let ev = BookEvent::level(0, 0, side, Px(px), Qty(1_000 + i));
    proof {
        b.lemma_covers(mid.0 - STEP * depth, mid.0 + STEP * depth, ev);
    }
    b.apply(&ev);
}

/// A book with `depth` levels on each side of `mid`, built from the middle out.
#[must_use]
pub fn build_at_depth<B: OrderBook>(mid: Px, depth: usize) -> (b: B)
    requires
        depth <= i64::MAX,
        room_for::<B>(mid.0 as int, depth as int),
    ensures
        b.wf(),
        b.covers(mid.0 - STEP * depth, mid.0 + STEP * depth),
        b.model() == stairs(mid.0 as int, depth as int),
{
    let mut b = B::default();
    let d: i64 = depth as i64;
    proof {
        B::lemma_default(b);
        assert(stair(mid.0 as int, Side::Bid, 1, 0) =~= Map::empty());
        assert(stair(mid.0 as int, Side::Ask, 1, 0) =~= Map::empty());
    }
    let mut i: i64 = 0;
    while i < d
        invariant
            0 <= i <= d,
            b.wf(),
            room_for::<B>(mid.0 as int, d as int),
            b.covers(mid.0 - STEP * d, mid.0 + STEP * d),
            b.model() == stairs(mid.0 as int, i as int),
        decreases d - i,
    {
        i += 1;
        put(&mut b, mid, Side::Bid, i, d);
        put(&mut b, mid, Side::Ask, i, d);
        proof {
            lemma_stair_up(mid.0 as int, Side::Bid, 1, i - 1);
            lemma_stair_up(mid.0 as int, Side::Ask, 1, i - 1);
        }
    }
    b
}

/// The same book, built in ascending price order.
#[must_use]
pub fn build_at_depth_fast<B: OrderBook>(mid: Px, depth: usize) -> (b: B)
    requires
        depth <= i64::MAX,
        room_for::<B>(mid.0 as int, depth as int),
    ensures
        b.wf(),
        b.covers(mid.0 - STEP * depth, mid.0 + STEP * depth),
        b.model() == stairs(mid.0 as int, depth as int),
{
    let mut b = B::default();
    let d: i64 = depth as i64;
    proof {
        B::lemma_default(b);
        assert(stair(mid.0 as int, Side::Bid, d + 1, d as int) =~= Map::empty());
        assert(stair(mid.0 as int, Side::Ask, 1, 0) =~= Map::empty());
    }
    let mut i: i64 = d;
    while i > 0
        invariant
            0 <= i <= d,
            b.wf(),
            room_for::<B>(mid.0 as int, d as int),
            b.covers(mid.0 - STEP * d, mid.0 + STEP * d),
            b.model() == (BookModel {
                bids: stair(mid.0 as int, Side::Bid, i + 1, d as int),
                asks: stair(mid.0 as int, Side::Ask, 1, 0),
                last_trade: None,
            }),
        decreases i,
    {
        put(&mut b, mid, Side::Bid, i, d);
        proof {
            lemma_stair_down(mid.0 as int, Side::Bid, i + 1, d as int);
        }
        i -= 1;
    }
    let mut k: i64 = 0;
    while k < d
        invariant
            0 <= k <= d,
            b.wf(),
            room_for::<B>(mid.0 as int, d as int),
            b.covers(mid.0 - STEP * d, mid.0 + STEP * d),
            b.model() == (BookModel {
                bids: stair(mid.0 as int, Side::Bid, 1, d as int),
                asks: stair(mid.0 as int, Side::Ask, 1, k as int),
                last_trade: None,
            }),
        decreases d - k,
    {
        k += 1;
        put(&mut b, mid, Side::Ask, k, d);
        proof {
            lemma_stair_up(mid.0 as int, Side::Ask, 1, k - 1);
        }
    }
    b
}

/// The offset that coin flips from `state` lead to: one further for every zero,
/// short of `depth`.
pub open spec fn flips(state: u64, depth: nat, k: nat) -> (nat, u64)
    decreases depth - k,
{
    if k + 1 >= depth {
        (k, state)
    } else if mix(step(state)) & 1u64 == 0 {
        flips(step(state), depth, k + 1)
    } else {
        (k, step(state))
    }
}

/// The offset drawn from `state` and the state after it.
pub open spec fn touched(state: u64, depth: nat, loc: Locality) -> (nat, u64) {
    match loc {
        Locality::Uniform => ((mix(step(state)) as nat % depth), step(state)),
        Locality::Concentrated => flips(state, depth, 0),
    }
}

/// The offset from the best of a level to touch, zero being the best.
#[must_use]
pub fn touch_offset(rng: &mut SplitMix64, depth: usize, loc: Locality) -> (off: usize)
    requires
        depth >= 1,
    ensures
        (off as nat, final(rng)@) == touched(old(rng)@, depth as nat, loc),
        off < depth,
{
    match loc {
        Locality::Uniform => rng.below(depth as u64) as usize,
        Locality::Concentrated => {
            let ghost start = rng@;
            let mut k: usize = 0;
            while k + 1 < depth
                invariant_except_break
                    flips(rng@, depth as nat, k as nat) == flips(start, depth as nat, 0),
                invariant
                    k < depth,
                ensures
                    flips(start, depth as nat, 0) == (k as nat, rng@),
                decreases depth - k,
            {
                if rng.next_u64() & 1u64 != 0 {
                    break;
                }
                k += 1;
            }
            k
        },
    }
}

/// The price of a level to touch.
#[must_use]
pub fn touch_price(
    rng: &mut SplitMix64,
    mid: Px,
    depth: usize,
    side: Side,
    loc: Locality,
) -> (p: Px)
    requires
        1 <= depth <= i64::MAX,
        i64::MIN <= mid.0 - STEP * depth,
        mid.0 + STEP * depth <= i64::MAX,
    ensures
        p.0 == level_price(
            mid.0 as int,
            side,
            touched(old(rng)@, depth as nat, loc).0 as int + 1,
        ),
        final(rng)@ == touched(old(rng)@, depth as nat, loc).1,
        stairs(mid.0 as int, depth as int).side(side).contains_key(p.0),
{
    let off: i64 = touch_offset(rng, depth, loc) as i64;
    let p = match side {
        Side::Bid => Px(mid.ticks() - STEP * (off + 1)),
        Side::Ask => Px(mid.ticks() + STEP * (off + 1)),
    };
    assert(1 <= off + 1 <= depth && p.0 == level_price(mid.0 as int, side, off + 1));
    p
}

/// The price one tick from a level towards the middle.
#[must_use]
pub fn gap_price(existing: Px, side: Side) -> (p: Px)
    requires
        match side {
            Side::Bid => existing.0 < i64::MAX,
            Side::Ask => existing.0 > i64::MIN,
        },
    ensures
        p.0 == (match side {
            Side::Bid => existing.0 + 1,
            Side::Ask => existing.0 - 1,
        }),
{
    match side {
        Side::Bid => Px(existing.ticks() + 1),
        Side::Ask => Px(existing.ticks() - 1),
    }
}

/// The gap next to a level of a stair is no level of it, on either side.
pub proof fn law_gap_is_unoccupied(mid: int, depth: int, side: Side, existing: Px, gap: Px)
    requires
        stairs(mid, depth).side(side).contains_key(existing.0),
        gap.0 == (match side {
            Side::Bid => existing.0 + 1,
            Side::Ask => existing.0 - 1,
        }),
    ensures
        !stairs(mid, depth).bids.contains_key(gap.0),
        !stairs(mid, depth).asks.contains_key(gap.0),
{
    let i = choose|i: int| 1 <= i <= depth && existing.0 == #[trigger] level_price(mid, side, i);
    if stairs(mid, depth).bids.contains_key(gap.0) {
        let j = choose|j: int|
            1 <= j <= depth && gap.0 == #[trigger] level_price(mid, Side::Bid, j);
        assert(false);
    }
    if stairs(mid, depth).asks.contains_key(gap.0) {
        let j = choose|j: int|
            1 <= j <= depth && gap.0 == #[trigger] level_price(mid, Side::Ask, j);
        assert(false);
    }
}

/// What a prepared book holds: on each side one level at every second tick, from two ticks
/// beside the middle out to twice the depth, with a thousand lots and one more for each
/// level outwards; and nothing else.
pub proof fn law_prepared_levels(mid: int, depth: int, p: i64, i: int)
    requires
        1 <= i <= depth,
        i64::MIN <= mid - 2 * depth,
        mid + 2 * depth <= i64::MAX,
        1_000 + depth <= i64::MAX,
    ensures
        ({
            let m = stairs(mid, depth);
            &&& m.bids.contains_key((mid - 2 * i) as i64)
            &&& m.bids[(mid - 2 * i) as i64] == 1_000 + i
            &&& m.asks.contains_key((mid + 2 * i) as i64)
            &&& m.asks[(mid + 2 * i) as i64] == 1_000 + i
            &&& m.bids.contains_key(p) ==> mid - 2 * depth <= p <= mid - 2 && (mid - p) % 2 == 0
            &&& m.asks.contains_key(p) ==> mid + 2 <= p <= mid + 2 * depth && (p - mid) % 2 == 0
            &&& m.last_trade is None
        }),
{
    assert(level_price(mid, Side::Bid, i) == mid - 2 * i);
    assert(level_price(mid, Side::Ask, i) == mid + 2 * i);
    let m = stairs(mid, depth);
    assert(m.bids.contains_key((mid - 2 * i) as i64));
    assert(m.asks.contains_key((mid + 2 * i) as i64));
}

/// The offset of a touch, read off the values of the random stream: spread alike, the next
/// value modulo the depth; concentrated, the number of even values before the first odd
/// one, short of the depth.
pub proof fn law_touch_follows_the_draws(state: u64, depth: nat, j: int)
    requires
        0 <= j < depth,
        forall|i: int| 0 <= i < j ==> #[trigger] value(state, i) % 2 == 0,
        j + 1 < depth ==> value(state, j) % 2 == 1,
    ensures
        touched(state, depth, Locality::Uniform).0 == value(state, 0) as nat % depth,
        touched(state, depth, Locality::Concentrated).0 == j,
{
    lemma_later_values(state, 0);
    lemma_flips(state, depth, 0, j);
}

proof fn lemma_flips(state: u64, depth: nat, k: nat, j: int)
    requires
        0 <= j,
        k + j < depth,
        forall|i: int| 0 <= i < j ==> #[trigger] value(state, i) % 2 == 0,
        k + j + 1 < depth ==> value(state, j) % 2 == 1,
    ensures
        flips(state, depth, k).0 == k + j,
    decreases j,
{
    lemma_later_values(state, 0);
    let v = value(state, 0);
    assert(v & 1u64 == v % 2) by (bit_vector);
    if j > 0 {
        assert(v % 2 == 0);
        assert forall|i: int| 0 <= i < j - 1 implies #[trigger] value(step(state), i) % 2 == 0 by {
            lemma_later_values(state, i);
            assert(value(state, i + 1) % 2 == 0);
        }
        lemma_later_values(state, j - 1);
        lemma_flips(step(state), depth, k + 1, j - 1);
    }
}

} // verus!
