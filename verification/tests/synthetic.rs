//! Synthetic streams.

use lob::book::OrderBook;
use lob::btree::BTreeBook;
use lob::corpus::Corpus;
use lob::event::{BookEvent, EventKind, Side};
use lob::price::{Px, Qty};
use lob::rev_vec::RevVecBook;
use lob::sorted_vec::SortedVecBook;
use lob::synthetic::{generate, GenConfig, Profile};

fn cfg(profile: Profile, events: usize) -> GenConfig {
    GenConfig {
        profile,
        seed: 1,
        events,
        mid: Px(65_000),
        band: 64,
        max_qty: Qty(1_024),
        start_ts: 0,
    }
}

fn bytes_of(events: &[BookEvent]) -> Vec<u8> {
    let mut b = Vec::new();
    Corpus::write_to(&mut b, events).expect("write_to");
    b
}

#[test]
fn synthetic_determinism_byte_identical() {
    for p in [Profile::Steady, Profile::Burst, Profile::FlashCrash] {
        let a = generate(&cfg(p, 5_000));
        let b = generate(&cfg(p, 5_000));
        assert_eq!(bytes_of(&a), bytes_of(&b), "{p:?} not deterministic");
    }
}

#[test]
fn exact_count() {
    for p in [Profile::Steady, Profile::Burst, Profile::FlashCrash] {
        for n in [0usize, 1, 3, 130, 5_000] {
            assert_eq!(generate(&cfg(p, n)).len(), n, "{p:?} n={n}");
        }
    }
}

#[test]
fn ts_is_monotonic_and_seq_is_dense() {
    for p in [Profile::Steady, Profile::Burst, Profile::FlashCrash] {
        let evs = generate(&cfg(p, 5_000));
        for (i, w) in evs.windows(2).enumerate() {
            assert!(w[1].ts >= w[0].ts, "{p:?} ts went backwards at {i}");
        }
        for (i, e) in evs.iter().enumerate() {
            assert_eq!(e.seq, i as u64, "{p:?} seq not dense at {i}");
        }
    }
}

#[test]
fn steady_stays_within_band() {
    let c = cfg(Profile::Steady, 20_000);
    let evs = generate(&c);
    let mut book = BTreeBook::default();
    for e in &evs {
        book.apply(e);
        if let Some((px, _)) = book.best_bid() {
            assert!((px.ticks() - c.mid.ticks()).abs() <= c.band);
        }
        if let Some((px, _)) = book.best_ask() {
            assert!((px.ticks() - c.mid.ticks()).abs() <= c.band);
        }
    }
}

#[test]
fn burst_has_dense_ts_window() {
    const B: usize = 100;
    const W: u64 = 1_000;
    let evs = generate(&cfg(Profile::Burst, 5_000));
    let found = evs.windows(B).any(|w| w[B - 1].ts - w[0].ts <= W);
    assert!(found, "no window of {B} events within {W}ns");
}

#[test]
fn flashcrash_collapses_bid() {
    const K: i64 = 20;
    const D: usize = 10;
    const W: u64 = 5_000;
    let evs = generate(&cfg(Profile::FlashCrash, 20_000));
    let mut book = BTreeBook::default();
    let mut bb = Vec::with_capacity(evs.len());
    let mut depth = Vec::with_capacity(evs.len());
    let mut ts = Vec::with_capacity(evs.len());
    for e in &evs {
        book.apply(e);
        bb.push(book.best_bid().map(|(p, _)| p.ticks()));
        depth.push(book.depth(Side::Bid));
        ts.push(e.ts);
    }

    let mut found = false;
    'scan: for i in 0..evs.len() {
        let Some(hi) = bb[i] else { continue };
        let (di, ti) = (depth[i], ts[i]);
        for j in (i + 1)..evs.len() {
            if ts[j] - ti > W {
                break;
            }
            if let Some(lo) = bb[j] {
                if hi - lo >= K && di.saturating_sub(depth[j]) >= D {
                    found = true;
                    break 'scan;
                }
            }
        }
    }
    assert!(found, "no flash-crash collapse within the window");
}

#[test]
fn tri_impl_replay_agrees() {
    for p in [Profile::Steady, Profile::Burst, Profile::FlashCrash] {
        let evs = generate(&cfg(p, 10_000));
        let mut bt = BTreeBook::default();
        let mut sv = SortedVecBook::default();
        let mut rv = RevVecBook::default();
        for e in &evs {
            bt.apply(e);
            sv.apply(e);
            rv.apply(e);
        }
        assert_eq!(bt.best_bid(), sv.best_bid(), "{p:?} best_bid bt/sv");
        assert_eq!(bt.best_bid(), rv.best_bid(), "{p:?} best_bid bt/rv");
        assert_eq!(bt.best_ask(), sv.best_ask(), "{p:?} best_ask bt/sv");
        assert_eq!(bt.best_ask(), rv.best_ask(), "{p:?} best_ask bt/rv");
        for side in [Side::Bid, Side::Ask] {
            assert_eq!(bt.depth(side), sv.depth(side), "{p:?} depth bt/sv");
            assert_eq!(bt.depth(side), rv.depth(side), "{p:?} depth bt/rv");
        }
    }
}

#[test]
fn the_touch_never_leaves_a_narrow_band() {
    for profile in [Profile::Steady, Profile::Burst, Profile::FlashCrash] {
        for band in [0i64, 1, 2, 5, 8, 9, 10, 20] {
            for seed in [0u64, 1, 77] {
                let c = GenConfig { band, seed, ..cfg(profile, 3_000) };
                let mut book = BTreeBook::default();
                for e in &generate(&c) {
                    book.apply(e);
                    for side in [book.best_bid(), book.best_ask()] {
                        if let Some((px, _)) = side {
                            assert!((px.ticks() - c.mid.ticks()).abs() <= band, "{profile:?} {band}");
                        }
                    }
                    if band > 0 {
                        if let Some((px, _)) = book.best_bid() {
                            assert!(px < c.mid);
                        }
                        if let Some((px, _)) = book.best_ask() {
                            assert!(px > c.mid);
                        }
                    }
                }
            }
        }
    }
}

#[test]
fn a_band_of_nothing_keeps_the_touch_at_the_middle() {
    let c = GenConfig {
        profile: Profile::Steady,
        seed: 0,
        events: 2,
        mid: Px(65_000),
        band: 0,
        max_qty: Qty(1),
        start_ts: 0,
    };
    let evs = generate(&c);
    assert_eq!(evs.len(), 2);
    assert_eq!(evs[1].px, Px(65_000));
}

#[test]
fn shorter_streams_are_the_fronts_of_longer_ones() {
    for profile in [Profile::Steady, Profile::Burst, Profile::FlashCrash] {
        let long = generate(&cfg(profile, 4_000));
        for n in [0usize, 1, 2, 64, 130, 999, 2_500, 4_000] {
            let short = generate(&cfg(profile, n));
            assert_eq!(bytes_of(&short), bytes_of(&long[..n]), "{profile:?} {n}");
        }
    }
}

#[test]
fn quantities_stay_up_to_the_largest_and_there_is_one_clear() {
    for profile in [Profile::Steady, Profile::Burst, Profile::FlashCrash] {
        for max in [-3i64, 1, 7, 1_024] {
            let c = GenConfig { max_qty: Qty(max), ..cfg(profile, 3_000) };
            for (i, e) in generate(&c).iter().enumerate() {
                assert!(e.qty.0 <= max.max(1) && e.qty.0 >= 0);
                assert_eq!(e.kind == EventKind::Clear, i == 0);
                assert!(e.kind != EventKind::Trade || e.qty.0 >= 1);
            }
        }
    }
}
