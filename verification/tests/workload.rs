//! Books and touches for measurement.

use lob::book::OrderBook;
use lob::btree::BTreeBook;
use lob::event::{BookEvent, Side};
use lob::flat::FlatBook;
use lob::price::{Px, Qty};
use lob::rev_vec::RevVecBook;
use lob::rng::SplitMix64;
use lob::sorted_vec::SortedVecBook;
use lob::workload::{
    build_at_depth, build_at_depth_fast, gap_price, touch_offset, touch_price, Locality, STEP,
};

#[test]
fn build_at_depth_produces_exact_depth_both_sides() {
    for &depth in &[1usize, 2, 8, 64, 512] {
        let b: RevVecBook = build_at_depth(Px(1_000_000), depth);
        assert_eq!(b.depth(Side::Bid), depth);
        assert_eq!(b.depth(Side::Ask), depth);
        assert_eq!(b.best_bid().map(|(p, _)| p), Some(Px(1_000_000 - STEP)));
        assert_eq!(b.best_ask().map(|(p, _)| p), Some(Px(1_000_000 + STEP)));
    }
}

#[test]
fn build_fast_matches_build_at_depth() {

    fn ladder<B: OrderBook>(b: &B, side: Side) -> Vec<(Px, Qty)> {
        let mut out = vec![(Px(0), Qty(0)); b.depth(side)];
        let n = b.top_n(side, &mut out);
        out.truncate(n);
        out
    }
    fn check<B: OrderBook>(mid: Px, depth: usize) {
        let slow: B = build_at_depth(mid, depth);
        let fast: B = build_at_depth_fast(mid, depth);
        for side in [Side::Bid, Side::Ask] {
            assert_eq!(slow.depth(side), depth);
            assert_eq!(fast.depth(side), depth);
            assert_eq!(ladder(&slow, side), ladder(&fast, side), "ladder mismatch d={depth}");
        }
        assert_eq!(slow.best_bid(), fast.best_bid());
        assert_eq!(slow.best_ask(), fast.best_ask());
    }

    let mid = Px(1_000_000);
    for &depth in &[1usize, 2, 7, 64, 300] {
        check::<SortedVecBook>(mid, depth);
        check::<RevVecBook>(mid, depth);
        check::<BTreeBook>(mid, depth);
        check::<FlatBook>(mid, depth);
    }
}

#[test]
fn gap_price_is_an_unoccupied_in_band_price() {
    let mid = Px(1_000_000);
    let b: RevVecBook = build_at_depth(mid, 16);
    let best = touch_price(&mut SplitMix64::new(0), mid, 16, Side::Bid, Locality::Concentrated);
    let gap = gap_price(best, Side::Bid);
    assert_eq!(gap, Px(mid.0 - STEP + 1));
    let mut b = b;
    let before = b.depth(Side::Bid);
    b.apply(&BookEvent::level(0, 0, Side::Bid, gap, Qty(5)));
    assert_eq!(b.depth(Side::Bid), before + 1);
    b.apply(&BookEvent::level(0, 0, Side::Bid, gap, Qty(0)));
    assert_eq!(b.depth(Side::Bid), before);
}

#[test]
fn locality_generator_offset_distribution() {
    const DEPTH: usize = 64;
    const N: u64 = 400_000;

    let mut rng = SplitMix64::new(0xD157_5EED);
    let mut uni = vec![0u64; DEPTH];
    for _ in 0..N {
        uni[touch_offset(&mut rng, DEPTH, Locality::Uniform)] += 1;
    }
    let expect = N / DEPTH as u64;
    for (k, &c) in uni.iter().enumerate() {
        assert!(c > expect / 2, "uniform bucket {k} underfilled: {c}");
        assert!(c < expect * 2, "uniform bucket {k} overfilled: {c}");
    }

    let mut rng = SplitMix64::new(0x00C0_FFEE);
    let mut con = vec![0u64; DEPTH];
    for _ in 0..N {
        con[touch_offset(&mut rng, DEPTH, Locality::Concentrated)] += 1;
    }
    let frac0 = con[0] as f64 / N as f64;
    let head: u64 = con[0..4].iter().sum();
    let frac_head = head as f64 / N as f64;
    assert!((0.45..0.55).contains(&frac0), "P(offset=0) = {frac0}, expected ~0.5");
    assert!(frac_head > 0.90, "P(offset<=3) = {frac_head}, expected > 0.9");

    let mean_con: f64 = con.iter().enumerate().map(|(k, &c)| k as f64 * c as f64).sum::<f64>() / N as f64;
    assert!(mean_con < 2.0, "concentrated mean offset = {mean_con}, expected < 2");
}

#[test]
fn a_gap_is_free_on_both_sides() {
    let mid = Px(1_000);
    let b: BTreeBook = build_at_depth(mid, 5);
    let mut levels = Vec::new();
    for side in [Side::Bid, Side::Ask] {
        let mut buf = vec![(Px(0), Qty(0)); b.depth(side)];
        b.top_n(side, &mut buf);
        levels.extend(buf.iter().map(|l| (side, l.0)));
    }
    assert_eq!(levels.len(), 10);
    for &(side, px) in &levels {
        let gap = gap_price(px, side);
        assert!(levels.iter().all(|l| l.1 != gap));
    }
}
