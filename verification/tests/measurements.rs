//! What the measurement programs decide.

use lob::book::OrderBook;
use lob::btree::BTreeBook;
use lob::clock::{BenchClock, Stopwatch};
use lob::event::{BookEvent, Side};
use lob::flat::{can_hold, FlatBook};
use lob::measure::{
    measure_best_bid, measure_gap, measure_top_n, measure_trade, measure_update, paced_run,
    replay_median, Ground, Half, Plan,
};
use lob::price::{Px, Qty};
use lob::rev_vec::RevVecBook;
use lob::rng::SplitMix64;
use lob::schedule::{
    first_arrival_ts, late_ns, max_sustainable, natural_rate_eps, span_ns, Schedule,
};
use lob::search::{branchless_lower_bound, branchy_lower_bound, level_array};
use lob::sorted_vec::SortedVecBook;
use lob::streams::{xack, xgroup, Cursors};
use lob::sweep::{
    cell_seed, crossover, ladder, next_qty, option_number, option_set, option_values, payload_for,
    reader_core, resident_level, rng_side, room_for_readers, scan_samples, snapshot_for,
    warmup_for, Caches, SEED,
};
use lob::workload::{build_at_depth, build_at_depth_fast, Locality};

fn strings(list: &[&str]) -> Vec<String> {
    list.iter().map(|s| s.to_string()).collect()
}

#[test]
fn schedule_offsets_are_correct() {
    let ev = BookEvent::level(0, 5_000, Side::Bid, Px(1), Qty(1));
    assert_eq!(Schedule::FixedRate(1_000_000_000).offset_ns(7, &ev), 7);
    let real = Schedule::RealArrival { first_ts: 1_000, speed: 1 };
    assert_eq!(real.offset_ns(0, &ev), 4_000);
    let fast = Schedule::RealArrival { first_ts: 1_000, speed: 2 };
    assert_eq!(fast.offset_ns(0, &ev), 2_000);
    // Three events a second: the offsets are cut, not rounded.
    assert_eq!(Schedule::FixedRate(3).offset_ns(2, &ev), 666_666_666);
}

#[test]
fn first_arrival_skips_zero_ts_prelude() {
    let evs = vec![
        BookEvent::clear(0, 0),
        BookEvent::level(1, 0, Side::Bid, Px(1), Qty(1)),
        BookEvent::level(2, 1_700_000_000_000_000_000, Side::Bid, Px(2), Qty(1)),
        BookEvent::level(3, 1_700_000_000_500_000_000, Side::Ask, Px(3), Qty(1)),
    ];
    let first = first_arrival_ts(&evs);
    assert_eq!(first, 1_700_000_000_000_000_000);
    let sched = Schedule::RealArrival { first_ts: first, speed: 1 };
    assert_eq!(sched.offset_ns(0, &evs[0]), 0);
    assert_eq!(sched.offset_ns(1, &evs[1]), 0);
    assert_eq!(sched.offset_ns(2, &evs[2]), 0);
    assert_eq!(sched.offset_ns(3, &evs[3]), 500_000_000);
    let zero = vec![BookEvent::clear(0, 0)];
    assert_eq!(first_arrival_ts(&zero), 0);
    assert_eq!(span_ns(&evs, first), 500_000_000);
    assert_eq!(natural_rate_eps(&evs, first), 8);
    assert_eq!(natural_rate_eps(&zero, 0), 0);
    assert_eq!(natural_rate_eps(&[], 0), 0);
}

#[test]
fn lateness_adds_up_when_the_server_is_slow() {
    let (interval, op) = (2_000u64, 40_000u64);
    let mut free = 0u64;
    let mut late = Vec::new();
    for i in 0..100u64 {
        let due = i * interval;
        free = free.max(due) + op;
        late.push(late_ns(free, due));
    }
    assert_eq!(late[0], 40_000);
    assert_eq!(late[95], 95 * 38_000 + 40_000);
    assert_eq!(late_ns(5, 9), 0);
}

#[test]
fn the_highest_rate_that_is_kept_up_is_found() {
    assert_eq!(max_sustainable(&[(1, false), (5, false), (2, false), (9, true)]), Some(5));
    assert_eq!(max_sustainable(&[(1, true)]), None);
    assert_eq!(max_sustainable(&[]), None);
}

#[test]
fn branchless_lower_bound_matches_partition_point() {
    let mut rng = SplitMix64::new(0xBADC_0FFE_E0DD_F00D);
    for _ in 0..3000 {
        let len = usize::try_from(rng.below(96) + 1).expect("len fits usize");
        let mut v: Vec<i64> = (0..len)
            .map(|_| i64::try_from(rng.next_u64() % 200).expect("fits i64") - 100)
            .collect();
        v.sort_unstable();
        for _ in 0..24 {
            let key = i64::try_from(rng.next_u64() % 260).expect("fits i64") - 130;
            let expect = v.partition_point(|&x| x < key);
            let got = branchless_lower_bound(&v, key);
            assert_eq!(got, expect, "mismatch: arr={v:?} key={key}");
        }
    }
    assert_eq!(branchless_lower_bound(&[], 5), 0);
    assert_eq!(branchless_lower_bound(&[7], 7), 0);
    assert_eq!(branchless_lower_bound(&[7], 8), 1);
}

#[test]
fn all_variants_agree_on_level_array() {
    let arr = level_array(256);
    for key in -2..=520 {
        let std_idx = arr.partition_point(|&v| v < key);
        assert_eq!(branchy_lower_bound(&arr, key), std_idx, "branchy key={key}");
        assert_eq!(branchless_lower_bound(&arr, key), std_idx, "branchless key={key}");
    }
}

#[test]
fn resident_level_classifies_boundaries() {
    let c = Caches { l1d: 48 * 1024, l2: 1280 * 1024, llc: 8192 * 1024 };
    assert_eq!(resident_level(4 * 1024, &c), "L1");
    assert_eq!(resident_level(256 * 1024, &c), "L2");
    assert_eq!(resident_level(4 * 1024 * 1024, &c), "LLC");
    assert_eq!(resident_level(32 * 1024 * 1024, &c), "DRAM");
    assert_eq!(resident_level(48 * 1024, &c), "L1");
}

#[test]
fn snapshot_varies_with_stamp() {
    assert_ne!(snapshot_for(1), snapshot_for(2));
    assert_eq!(snapshot_for(7).stamp, 7);
    let top = snapshot_for(0x1_0003);
    assert_eq!((top.bid_px, top.bid_qty, top.ask_px, top.ask_qty), (999_999, 4, 1_000_001, 5));
}

#[test]
fn payload_varies_with_position() {
    assert_ne!(payload_for(1), payload_for(2));
    assert_eq!(payload_for(3)[0], 12);
    assert_eq!(payload_for(3), [12, 13, 14, 15]);
}

#[test]
fn options_take_the_last_value_that_reads() {
    let valued = ["--samples", "--core", "--out"];
    let args = strings(&["--samples", "5", "--samples", "x", "--no-real", "--core", "--samples"]);
    assert_eq!(option_number(&args, &valued, "--samples", u64::MAX, 9), 5);
    assert_eq!(option_number(&args, &valued, "--core", u64::MAX, 9), 9);
    assert_eq!(option_values(&args, &valued, "--core"), strings(&["--samples"]));
    assert!(option_set(&args, &valued, "--no-real"));
    assert!(!option_set(&args, &valued, "--fast"));
    // A flag that stands as a value is no flag.
    assert!(!option_set(&strings(&["--out", "--no-real"]), &valued, "--no-real"));
    assert_eq!(option_number(&strings(&["--core"]), &valued, "--core", u64::MAX, 3), 3);
    assert_eq!(option_number(&strings(&["--core", "300"]), &valued, "--core", 255, 3), 3);
}

#[test]
fn touches_never_remove_their_level() {
    assert_eq!(next_qty(1), Qty(3));
    assert_eq!(next_qty(2), Qty(3));
    assert_eq!(next_qty(0x7FFF), Qty(1));
    assert_eq!(next_qty(i64::MAX), Qty(1));
    let mut a = SplitMix64::new(9);
    let mut b = SplitMix64::new(9);
    for _ in 0..64 {
        let even = a.next_u64() % 2 == 0;
        assert_eq!(rng_side(&mut b), if even { Side::Bid } else { Side::Ask });
    }
}

#[test]
fn seeds_of_cells_are_as_computed_by_hand() {
    assert_eq!(cell_seed(0, Locality::Concentrated, 0), SEED);
    assert_eq!(cell_seed(0, Locality::Uniform, 0), SEED ^ (1u64 << 40));
    assert_eq!(cell_seed(1, Locality::Concentrated, 2), SEED ^ 0x9E37_79B9 ^ 0x2000_0002);
}

#[test]
fn a_crossover_lasts_to_the_end() {
    let over = (Some(5), Some(4));
    let under = (Some(4), Some(5));
    let gone = (None, Some(5));
    assert_eq!(crossover(&[over, under, over, over]), Some(2));
    assert_eq!(crossover(&[over, over]), Some(0));
    assert_eq!(crossover(&[over, under]), None);
    assert_eq!(crossover(&[over, gone]), None);
    assert_eq!(crossover(&[]), None);
}

#[test]
fn the_numbers_of_samples_and_readers_are_bounded() {
    assert_eq!(scan_samples(256), 200_000);
    assert_eq!(scan_samples(16_384), 122_070);
    assert_eq!(scan_samples(1_000_000), 20_000);
    assert_eq!(warmup_for(200_000), 20_000);
    assert_eq!(warmup_for(100), 1_000);
    assert_eq!(ladder(3), vec![1, 2]);
    assert_eq!(ladder(0), Vec::<usize>::new());
    assert_eq!(ladder(64), vec![1, 2, 4, 8]);
    assert_eq!(room_for_readers(0, 1), 1);
    assert_eq!(room_for_readers(0, 8), 7);
    assert_eq!(room_for_readers(3, 8), 3);
    assert_eq!(reader_core(&[6, 12], 1, 1), 12);
    assert_eq!(reader_core(&[6, 12], 1, 2), 4);
}

#[test]
fn a_flat_book_holds_a_bounded_range() {
    let level = |px: i64| BookEvent::level(0, 0, Side::Bid, Px(px), Qty(1));
    assert!(can_hold(&[level(0), level(1_000_000)]));
    assert!(!can_hold(&[level(0), level(9_000_000)]));
    assert!(!can_hold(&[level(i64::MIN)]));
    assert!(can_hold(&[BookEvent::clear(0, 0)]));
    assert!(can_hold(&[BookEvent::trade(0, 0, Side::Bid, Px(i64::MIN), Qty(1))]));
}

#[test]
fn cursors_follow_their_streams() {
    let mut c = Cursors::new(strings(&["a", "b"]));
    let head = ["XREAD", "COUNT", "500", "BLOCK", "200", "STREAMS"];
    assert_eq!(c.xread(), strings(&[&head[..], &["a", "b", "0", "0"]].concat()));
    c.advance("b", "7-1");
    c.advance("nowhere", "9-9");
    assert_eq!(c.xread(), strings(&[&head[..], &["a", "b", "0", "7-1"]].concat()));
    c.advance("b", "8-0");
    c.advance("a", "1-0");
    assert_eq!(c.xread(), strings(&[&head[..], &["a", "b", "1-0", "8-0"]].concat()));
}

#[test]
fn group_commands_name_the_group() {
    assert_eq!(xgroup("s"), strings(&["XGROUP", "CREATE", "s", "arb", "0", "MKSTREAM"]));
    assert_eq!(xack("s", "1-0"), strings(&["XACK", "s", "arb", "1-0"]));
}

fn ground(depth: usize) -> Ground {
    Ground { mid: Px(1_000_000), depth, loc: Locality::Uniform }
}

fn sides<B: OrderBook>(b: &B) -> Vec<(Px, Qty)> {
    let mut out = Vec::new();
    for side in [Side::Bid, Side::Ask] {
        let mut buf = vec![(Px(0), Qty(0)); b.depth(side)];
        b.top_n(side, &mut buf);
        out.extend(buf);
    }
    out
}

fn a_measurement_leaves_the_depth<B: OrderBook>() {
    let clock = BenchClock::new();
    let mut w = Stopwatch::new(&clock);
    let g = ground(16);
    let plan = Plan { warmup: 50, samples: 200, seed: 7 };
    let prices = |b: &B| sides(b).iter().map(|l| l.0).collect::<Vec<_>>();

    let mut b = build_at_depth::<B>(g.mid, g.depth);
    let before = sides(&b);
    let at = prices(&b);
    assert_eq!(measure_gap(&mut w, &mut b, g, plan, Half::Insert).count(), 200);
    assert_eq!(measure_gap(&mut w, &mut b, g, plan, Half::Remove).count(), 200);
    assert_eq!(sides(&b), before);
    assert_eq!(measure_trade(&mut w, &mut b, g, plan).count(), 200);
    assert_eq!(sides(&b), before);
    assert!(b.last_trade().is_some());
    assert_eq!(measure_update(&mut w, &mut b, g, plan).count(), 200);
    assert_eq!(prices(&b), at);
    assert_ne!(sides(&b), before);
    assert_eq!(measure_best_bid(&mut w, &b, plan).count(), 200);
    let mut buf = [(Px(0), Qty(0)); 3];
    assert_eq!(measure_top_n(&mut w, &b, &mut buf, plan).count(), 200);
    assert_eq!(buf[..], sides(&b)[..3]);
}

#[test]
fn measurements_leave_every_book_at_its_depth() {
    a_measurement_leaves_the_depth::<BTreeBook>();
    a_measurement_leaves_the_depth::<SortedVecBook>();
    a_measurement_leaves_the_depth::<RevVecBook>();
    a_measurement_leaves_the_depth::<FlatBook>();
}

#[test]
fn a_stream_of_updates_is_the_same_for_every_book() {
    let clock = BenchClock::new();
    let mut w = Stopwatch::new(&clock);
    let g = Ground { mid: Px(500), depth: 9, loc: Locality::Concentrated };
    let plan = Plan { warmup: 10, samples: 90, seed: 42 };
    let mut a = build_at_depth::<BTreeBook>(g.mid, g.depth);
    let mut b = build_at_depth_fast::<FlatBook>(g.mid, g.depth);
    measure_update(&mut w, &mut a, g, plan);
    measure_update(&mut w, &mut b, g, plan);
    assert_eq!(sides(&a), sides(&b));
    // What is timed and what is not makes no difference to the book.
    let mut c = build_at_depth::<RevVecBook>(g.mid, g.depth);
    measure_update(&mut w, &mut c, g, Plan { warmup: 100, samples: 0, seed: 42 });
    assert_eq!(sides(&a), sides(&c));
}

#[test]
fn a_replay_takes_time() {
    let clock = BenchClock::new();
    let mut w = Stopwatch::new(&clock);
    let mut evs = vec![BookEvent::clear(0, 0)];
    for i in 1..=64i64 {
        evs.push(BookEvent::level(i as u64, 0, Side::Bid, Px(1_000 - i), Qty(10 + i)));
        evs.push(BookEvent::level(i as u64, 0, Side::Ask, Px(1_000 + i), Qty(10 + i)));
    }
    assert!(replay_median::<RevVecBook>(&mut w, &evs, 9) > 0);
    assert!(replay_median::<BTreeBook>(&mut w, &evs, 5) > 0);
}

#[test]
fn a_paced_run_waits_for_its_events() {
    let clock = BenchClock::new();
    let mut w = Stopwatch::new(&clock);
    let mut evs = vec![BookEvent::clear(0, 0)];
    for i in 1..=50i64 {
        evs.push(BookEvent::level(i as u64, 0, Side::Bid, Px(1_000 - i), Qty(10 + i)));
    }
    // One event every 20 microseconds: the last of 51 is due after a millisecond.
    let s = Schedule::FixedRate(50_000);
    let (rec, last) = paced_run::<BTreeBook>(&mut w, &evs, s).unwrap();
    assert_eq!(rec.count(), 51);
    assert!(last >= 1_000_000);
    // At a rate that nothing keeps up with, nobody waits.
    let s = Schedule::FixedRate(u64::MAX);
    let (rec, last) = paced_run::<FlatBook>(&mut w, &evs, s).unwrap();
    assert_eq!(rec.count(), 51);
    assert!(last > 0);
    // The lateness of the last event is the time of the whole run.
    assert!(rec.max() >= last);
    let none: [BookEvent; 0] = [];
    let (rec, last) = paced_run::<RevVecBook>(&mut w, &none, s).unwrap();
    assert_eq!((rec.count(), last), (0, 0));
}

#[test]
fn a_stopwatch_counts_as_its_clock_does() {
    let clock = BenchClock::new();
    let w = Stopwatch::new(&clock);
    let a = clock.raw();
    let b = clock.raw();
    assert!(b >= a);
    assert_eq!(w.delta_ns(a, b), clock.delta_ns(a, b));
    assert_eq!(w.delta_ns(b, a), 0);
}

#[test]
fn a_flat_book_spans_two_prices_and_their_margins() {
    for (p0, p) in [(0i64, 4096i64), (0, -4096), (500, 500), (7, 7 + 4097), (-9, -9 - 8_380_415)] {
        let mut b = FlatBook::default();
        b.apply(&BookEvent::level(0, 0, Side::Bid, Px(p0), Qty(3)));
        b.ensure_range(Px(p));
        let apart = (p - p0).unsigned_abs() as usize;
        let want = if apart <= 4096 { 8193 } else { apart + 8193 };
        assert_eq!(b.allocated_span_ticks(), want);
        assert_eq!(b.best_bid(), Some((Px(p0), Qty(3))));
        assert_eq!((b.depth(Side::Bid), b.depth(Side::Ask)), (1, 0));
    }
    let at = |p: i64| BookEvent::level(0, 0, Side::Bid, Px(p), Qty(1));
    assert!(can_hold(&[at(0), at(8_380_415)]));
    assert!(!can_hold(&[at(0), at(8_380_416)]));
}
