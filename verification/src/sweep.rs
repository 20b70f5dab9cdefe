//! What the measurement programs decide: their options, the streams of touches, how
//! many readers run and where, and what the numbers show.

use crate::event::Side;
use crate::price::Qty;
use crate::rng::{mix, step, SplitMix64};
use crate::seqlock::TopOfBook;
use crate::text::{copy_text, parse_number, read_number, same_text, texts};
use crate::workload::Locality;
use vstd::prelude::*;

verus! {

/// The middle price of the books under measurement.
pub const MID: i64 = 1_000_000;

/// The seed that the streams of touches are made from.
pub const SEED: u64 = 0xB1A5_C0DE_F00D_1234;

/// Words in a record of the ring under measurement.
pub const WORDS: usize = 4;

/// Whether a text is among the flags that take a value.
pub open spec fn takes_value(valued: Seq<&str>, s: Seq<char>) -> bool {
    exists|i: int| 0 <= i < valued.len() && #[trigger] valued[i]@ == s
}

/// The values that a flag has among the arguments from `i` on. A flag that takes a
/// value takes the argument behind it, whatever that is.
pub open spec fn values_of(
    args: Seq<Seq<char>>,
    i: int,
    valued: Seq<&str>,
    flag: Seq<char>,
) -> Seq<Seq<char>>
    decreases args.len() - i + 1,
{
    if i >= args.len() {
        Seq::empty()
    } else if takes_value(valued, args[i]) {
        if args[i] == flag && i + 1 < args.len() {
            seq![args[i + 1]] + values_of(args, i + 2, valued, flag)
        } else {
            values_of(args, i + 2, valued, flag)
        }
    } else {
        values_of(args, i + 1, valued, flag)
    }
}

/// Whether a flag without a value stands among the arguments from `i` on.
pub open spec fn is_set(args: Seq<Seq<char>>, i: int, valued: Seq<&str>, flag: Seq<char>) -> bool
    decreases args.len() - i + 1,
{
    if i >= args.len() {
        false
    } else if takes_value(valued, args[i]) {
        is_set(args, i + 2, valued, flag)
    } else {
        args[i] == flag || is_set(args, i + 1, valued, flag)
    }
}

fn in_list(valued: &[&str], s: &str) -> (r: bool)
    ensures
        r == takes_value(valued@, s@),
{
    let mut i: usize = 0;
    while i < valued.len()
        invariant
            i <= valued@.len(),
            forall|k: int| 0 <= k < i ==> #[trigger] valued@[k]@ != s@,
        decreases valued@.len() - i,
    {
        if same_text(valued[i], s) {
            return true;
        }
        i += 1;
    }
    false
}

/// The values that a flag has among the arguments.
pub fn option_values(args: &[String], valued: &[&str], flag: &str) -> (r: Vec<String>)
    ensures
        texts(r@) == values_of(texts(args@), 0, valued@, flag@),
{
    let ghost all = texts(args@);
    let n: usize = args.len();
    let mut r: Vec<String> = Vec::new();
    let mut i: usize = 0;
    assert(texts(r@) =~= Seq::empty());
    while i < n
        invariant
            i <= n == args@.len(),
            all == texts(args@),
            texts(r@) + values_of(all, i as int, valued@, flag@) =~= values_of(
                all,
                0,
                valued@,
                flag@,
            ),
        decreases n - i,
    {
        assert(all[i as int] == args@[i as int]@);
        let ghost before = r@;
        if in_list(valued, args[i].as_str()) {
            if n - i < 2 {
                assert(values_of(all, i + 2, valued@, flag@) =~= Seq::empty());
                i = n;
            } else {
                assert(all[i + 1] == args@[i + 1]@);
                if same_text(args[i].as_str(), flag) {
                    r.push(copy_text(args[i + 1].as_str()));
                    assert(texts(r@) =~= texts(before).push(all[i + 1]));
                }
                i += 2;
            }
        } else {
            i += 1;
        }
    }
    r
}

/// Whether a flag without a value stands among the arguments.
pub fn option_set(args: &[String], valued: &[&str], flag: &str) -> (r: bool)
    ensures
        r == is_set(texts(args@), 0, valued@, flag@),
{
    let ghost all = texts(args@);
    let n: usize = args.len();
    let mut i: usize = 0;
    while i < n
        invariant
            i <= n == args@.len(),
            all == texts(args@),
            is_set(all, i as int, valued@, flag@) == is_set(all, 0, valued@, flag@),
        decreases n - i,
    {
        assert(all[i as int] == args@[i as int]@);
        if in_list(valued, args[i].as_str()) {
            if n - i < 2 {
                assert(!is_set(all, i + 2, valued@, flag@));
                i = n;
            } else {
                i += 2;
            }
        } else if same_text(args[i].as_str(), flag) {
            return true;
        } else {
            i += 1;
        }
    }
    false
}

/// The last of some texts that is a number up to `max`, `d` where none is.
pub open spec fn last_read(values: Seq<Seq<char>>, n: int, max: int, d: int) -> int
    decreases n,
{
    if n <= 0 {
        d
    } else {
        match read_number(values[n - 1], max) {
            Ok(v) => v,
            Err(_) => last_read(values, n - 1, max, d),
        }
    }
}

/// The number that a flag has among the arguments: the last value that is one, `d`
/// where none is.
pub fn option_number(args: &[String], valued: &[&str], flag: &str, max: u64, d: u64) -> (v: u64)
    ensures
        v == last_read(
            values_of(texts(args@), 0, valued@, flag@),
            values_of(texts(args@), 0, valued@, flag@).len() as int,
            max as int,
            d as int,
        ),
{
    let values = option_values(args, valued, flag);
    let ghost all = texts(values@);
    let mut n: usize = values.len();
    while n > 0
        invariant
            n <= values@.len(),
            all == texts(values@),
            all == values_of(texts(args@), 0, valued@, flag@),
            last_read(all, n as int, max as int, d as int) == last_read(
                all,
                all.len() as int,
                max as int,
                d as int,
            ),
        decreases n,
    {
        n -= 1;
        assert(all[n as int] == values@[n as int]@);
        match parse_number(values[n].as_str(), max) {
            Ok(v) => {
                assert(last_read(all, n + 1, max as int, d as int) == v);
                return v;
            },
            Err(_) => {},
        }
    }
    d
}

/// The quantity that follows `q` in a stream of touches: odd and above zero, so that a
/// touch never removes its level.
#[inline]
pub fn next_qty(q: i64) -> (r: Qty)
    ensures
        r.0 == (q.wrapping_add(1) & 0x7FFF) | 1,
        0 < r.0 <= 0x7FFF,
        r.0 % 2 == 1,
{
    let w: i64 = q.wrapping_add(1);
    let r: i64 = (w & 0x7FFF) | 1;
    assert(0 < r <= 0x7FFF && r % 2 == 1) by (bit_vector)
        requires
            r == (w & 0x7FFF) | 1,
    ;
    Qty(r)
}

/// The side of the next touch: a bid where the random number is even.
#[inline]
pub fn rng_side(rng: &mut SplitMix64) -> (side: Side)
    ensures
        final(rng)@ == step(old(rng)@),
        side == (if mix(final(rng)@) & 1 == 0 {
            Side::Bid
        } else {
            Side::Ask
        }),
{
    if rng.next_u64() & 1 == 0 {
        Side::Bid
    } else {
        Side::Ask
    }
}

/// The seed of the touches on book number `index` at a locality and a depth.
pub fn cell_seed(index: usize, loc: Locality, depth: usize) -> (seed: u64)
    ensures
        seed == SEED ^ (index as u64).wrapping_mul(0x9E37_79B9) ^ (match loc {
            Locality::Concentrated => 0u64,
            Locality::Uniform => 1u64,
        } << 40) ^ (depth as u64).wrapping_mul(0x1000_0001),
{
    let bit: u64 = match loc {
        Locality::Concentrated => 0,
        Locality::Uniform => 1,
    };
    SEED ^ (index as u64).wrapping_mul(0x9E37_79B9) ^ (bit << 40u64) ^ (
    depth as u64).wrapping_mul(0x1000_0001)
}

/// Whether the first of two measurements is there and above the second.
pub open spec fn exceeds(p: (Option<u64>, Option<u64>)) -> bool {
    match p {
        (Some(a), Some(b)) => a > b,
        _ => false,
    }
}

/// The place from which on the first of two measurements is above the second, and
/// never falls back; none where it is not above at the end.
pub fn crossover(pairs: &[(Option<u64>, Option<u64>)]) -> (r: Option<usize>)
    ensures
        match r {
            Some(k) => {
                &&& k < pairs@.len()
                &&& forall|j: int| k <= j < pairs@.len() ==> exceeds(#[trigger] pairs@[j])
                &&& k > 0 ==> !exceeds(pairs@[k - 1])
            },
            None => pairs@.len() == 0 || !exceeds(pairs@.last()),
        },
{
    let n: usize = pairs.len();
    let mut k: usize = n;
    while k > 0
        invariant_except_break
            true,
        invariant
            k <= n == pairs@.len(),
            forall|j: int| k <= j < n ==> exceeds(#[trigger] pairs@[j]),
        ensures
            k > 0 ==> !exceeds(pairs@[k - 1]),
        decreases k,
    {
        let above = match pairs[k - 1] {
            (Some(a), Some(b)) => a > b,
            _ => false,
        };
        if !above {
            break;
        }
        k -= 1;
    }
    if k < n {
        Some(k)
    } else {
        None
    }
}

/// The sizes of the caches, in bytes.
#[derive(Clone, Copy, PartialEq, Eq, Structural, Debug)]
pub struct Caches {
    /// The first level, for data.
    pub l1d: u64,
    /// The second level.
    pub l2: u64,
    /// The last level.
    pub llc: u64,
}

/// The first level that holds so many bytes.
pub fn resident_level(footprint: u64, c: &Caches) -> (s: &'static str)
    ensures
        s@ == (if footprint <= c.l1d {
            "L1"@
        } else if footprint <= c.l2 {
            "L2"@
        } else if footprint <= c.llc {
            "LLC"@
        } else {
            "DRAM"@
        }),
{
    if footprint <= c.l1d {
        "L1"
    } else if footprint <= c.l2 {
        "L2"
    } else if footprint <= c.llc {
        "LLC"
    } else {
        "DRAM"
    }
}

/// Samples that a cell of the cache measurement takes.
pub const CACHE_SAMPLES: u64 = 200_000;

/// How many samples a list that is searched from its end gets at a depth: fewer the
/// deeper it is, but never fewer than twenty thousand.
pub fn scan_samples(depth: u64) -> (n: u64)
    requires
        depth > 0,
    ensures
        n == (if 2_000_000_000int / depth as int <= 20_000 {
            20_000
        } else if 2_000_000_000int / depth as int >= CACHE_SAMPLES {
            CACHE_SAMPLES as int
        } else {
            2_000_000_000int / depth as int
        }),
{
    let n: u64 = 2_000_000_000 / depth;
    if n <= 20_000 {
        20_000
    } else if n >= CACHE_SAMPLES {
        CACHE_SAMPLES
    } else {
        n
    }
}

/// How many touches warm up a cell: a tenth of its samples, at least a thousand.
pub fn warmup_for(samples: u64) -> (n: u64)
    ensures
        n == (if samples / 10 <= 1_000 {
            1_000
        } else {
            samples / 10
        }),
{
    if samples / 10 <= 1_000 {
        1_000
    } else {
        samples / 10
    }
}

/// The top of book that is published as number `stamp`.
pub fn snapshot_for(stamp: u64) -> (t: TopOfBook)
    ensures
        t == (TopOfBook {
            bid_px: (MID - 1) as i64,
            bid_qty: ((stamp & 0xffff) + 1) as i64,
            ask_px: (MID + 1) as i64,
            ask_qty: ((stamp & 0xffff) + 2) as i64,
            stamp,
        }),
{
    let q: u64 = stamp & 0xffff;
    assert(q <= 0xffff) by (bit_vector)
        requires
            q == stamp & 0xffff,
    ;
    TopOfBook {
        bid_px: MID - 1,
        bid_qty: q as i64 + 1,
        ask_px: MID + 1,
        ask_qty: q as i64 + 2,
        stamp,
    }
}

/// The record that is pushed at a position.
pub fn payload_for(pos: u64) -> (r: [u64; WORDS])
    ensures
        forall|k: int|
            0 <= k < WORDS ==> #[trigger] r@[k] == pos.wrapping_mul(4).wrapping_add(k as u64),
{
    let p: u64 = pos.wrapping_mul(4);
    [p.wrapping_add(0), p.wrapping_add(1), p.wrapping_add(2), p.wrapping_add(3)]
}

/// The numbers of readers to measure with, where there is room for `most`.
pub open spec fn rungs(most: usize) -> Seq<usize> {
    (seq![1usize, 2, 4, 8]).filter(|k: usize| k <= most)
}

/// The numbers of readers to measure with, where there is room for `most`.
pub fn ladder(most: usize) -> (r: Vec<usize>)
    ensures
        r@ == rungs(most),
{
    let mut r: Vec<usize> = Vec::new();
    let all: [usize; 4] = [1, 2, 4, 8];
    let ghost s = seq![1usize, 2, 4, 8];
    let ghost keep = |k: usize| k <= most;
    let mut i: usize = 0;
    proof {
        reveal_with_fuel(Seq::filter, 1);
        assert(s.take(0).filter(keep) =~= Seq::<usize>::empty());
    }
    while i < 4
        invariant
            i <= 4,
            all@ =~= s,
            s.len() == 4,
            keep == (|k: usize| k <= most),
            r@ == s.take(i as int).filter(keep),
        decreases 4 - i,
    {
        proof {
            reveal(Seq::filter);
            assert(s.take(i + 1).drop_last() =~= s.take(i as int));
        }
        if all[i] <= most {
            r.push(all[i]);
        }
        i += 1;
    }
    proof {
        assert(s.take(4) =~= s);
    }
    r
}

/// How many readers there is room for: as many as cores are listed, or one less than
/// the machine has, but at least one.
pub fn room_for_readers(listed: usize, cores: usize) -> (n: usize)
    ensures
        n == (if listed > 0 {
            listed as int
        } else if cores <= 2 {
            1
        } else {
            cores - 1
        }),
{
    if listed > 0 {
        listed
    } else if cores <= 2 {
        1
    } else {
        cores - 1
    }
}

/// The core for reader `r`: the listed one, or one behind the writer's.
pub fn reader_core(listed: &[usize], core: usize, r: usize) -> (c: usize)
    requires
        r >= listed@.len() ==> core + 1 + r <= usize::MAX,
    ensures
        c == (if r < listed@.len() {
            listed@[r as int] as int
        } else {
            core + 1 + r
        }),
{
    if r < listed.len() {
        listed[r]
    } else {
        core + 1 + r
    }
}

/// A flag that takes a value has the argument behind it as its value, whatever that is, and
/// the rest is read from there on; an argument that takes none is passed over. A flag
/// without a value counts as set wherever it stands by itself.
pub proof fn law_flags_take_the_argument_behind(
    args: Seq<Seq<char>>,
    i: int,
    valued: Seq<&str>,
    flag: Seq<char>,
    k: int,
)
    requires
        0 <= i < args.len(),
    ensures
        0 <= k < valued.len() && valued[k]@ == args[i] && i + 1 < args.len() ==> {
            &&& args[i] == flag ==> values_of(args, i, valued, flag) == seq![args[i + 1]] + values_of(
                args,
                i + 2,
                valued,
                flag,
            )
            &&& args[i] != flag ==> values_of(args, i, valued, flag) == values_of(
                args,
                i + 2,
                valued,
                flag,
            )
            &&& is_set(args, i, valued, flag) == is_set(args, i + 2, valued, flag)
        },
        (forall|j: int| 0 <= j < valued.len() ==> (#[trigger] valued[j])@ != args[i]) ==> {
            &&& values_of(args, i, valued, flag) == values_of(args, i + 1, valued, flag)
            &&& args[i] == flag ==> is_set(args, i, valued, flag)
            &&& args[i] != flag ==> is_set(args, i, valued, flag) == is_set(
                args,
                i + 1,
                valued,
                flag,
            )
        },
{
    if 0 <= k < valued.len() && valued[k]@ == args[i] {
        assert(takes_value(valued, args[i]));
    }
}

/// Of several values of a flag the last one that is a number counts, and the default where
/// none is.
pub proof fn law_the_last_number_counts(values: Seq<Seq<char>>, n: int, max: int, d: int, i: int)
    requires
        0 <= i <= n <= values.len(),
        forall|j: int| i <= j < n ==> read_number(#[trigger] values[j], max) is Err,
    ensures
        i > 0 ==> (read_number(values[i - 1], max) matches Ok(v) ==> last_read(values, n, max, d)
            == v),
        i == 0 ==> last_read(values, n, max, d) == d,
    decreases n,
{
    if i < n {
        assert(read_number(values[n - 1], max) is Err);
        law_the_last_number_counts(values, n - 1, max, d, i);
    }
}

/// The numbers of readers are one, two, four and eight, as far as there is room.
pub proof fn law_rungs(most: usize, k: usize)
    ensures
        rungs(most).contains(k) <==> (k == 1 || k == 2 || k == 4 || k == 8) && k <= most,
{
    let s = seq![1usize, 2, 4, 8];
    let keep = |k: usize| k <= most;
    assert(rungs(most) == s.filter(keep));
    assert(s[0] == 1 && s[1] == 2 && s[2] == 4 && s[3] == 8);
    if rungs(most).contains(k) {
        s.lemma_filter_contains_rev(keep, k);
        let i = choose|i: int| 0 <= i < rungs(most).len() && rungs(most)[i] == k;
        s.lemma_filter_pred(keep, i);
    }
    if (k == 1 || k == 2 || k == 4 || k == 8) && k <= most {
        let j: int = if k == 1 { 0 } else if k == 2 { 1 } else if k == 4 { 2 } else { 3 };
        assert(s[j] == k && keep(s[j]));
        s.lemma_filter_contains(keep, j);
    }
}

/// A measurement is above another only where both are there and the first is the greater.
pub proof fn law_missing_measurements_do_not_exceed(a: u64, b: u64)
    ensures
        exceeds((Some(a), Some(b))) <==> a > b,
        !exceeds((None, Some(b))),
        !exceeds((Some(a), None)),
        !exceeds((None, None)),
{
}

} // verus!
