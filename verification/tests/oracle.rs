//! The books against each other: whatever the events, all are observed alike.

use lob::book::OrderBook;
use lob::btree::BTreeBook;
use lob::event::{BookEvent, Side};
use lob::price::{Px, Qty};
use lob::rev_vec::RevVecBook;
use lob::sorted_vec::SortedVecBook;

fn shared_scenario() -> Vec<BookEvent> {
    vec![
        BookEvent::clear(0, 0),
        BookEvent::level(1, 1, Side::Bid, Px(100), Qty(5)),
        BookEvent::level(2, 2, Side::Bid, Px(99), Qty(3)),
        BookEvent::level(3, 3, Side::Bid, Px(101), Qty(2)),
        BookEvent::level(4, 4, Side::Ask, Px(103), Qty(4)),
        BookEvent::level(5, 5, Side::Ask, Px(102), Qty(1)),
        BookEvent::trade(6, 6, Side::Ask, Px(102), Qty(1)),
        BookEvent::level(7, 7, Side::Ask, Px(102), Qty(0)),
        BookEvent::level(8, 8, Side::Bid, Px(101), Qty(0)),
    ]
}

#[derive(PartialEq, Eq, Debug)]
struct Obs {
    best_bid: Option<(Px, Qty)>,
    best_ask: Option<(Px, Qty)>,
    depth_bid: usize,
    depth_ask: usize,
    bids: Vec<(Px, Qty)>,
    asks: Vec<(Px, Qty)>,
    last_trade: Option<(Px, Qty, Side)>,
}

fn observe<B: OrderBook>(b: &B) -> Obs {
    let (db, da) = (b.depth(Side::Bid), b.depth(Side::Ask));
    let mut bids = vec![(Px(0), Qty(0)); db];
    let mut asks = vec![(Px(0), Qty(0)); da];
    let nb = b.top_n(Side::Bid, &mut bids);
    let na = b.top_n(Side::Ask, &mut asks);
    assert_eq!(nb, db, "top_n(Bid)={nb} but depth(Bid)={db}");
    assert_eq!(na, da, "top_n(Ask)={na} but depth(Ask)={da}");
    Obs {
        best_bid: b.best_bid(),
        best_ask: b.best_ask(),
        depth_bid: db,
        depth_ask: da,
        bids,
        asks,
        last_trade: b.last_trade(),
    }
}

struct SplitMix64(u64);
impl SplitMix64 {
    fn new(seed: u64) -> Self {
        Self(seed)
    }
    fn next_u64(&mut self) -> u64 {
        self.0 = self.0.wrapping_add(0x9E37_79B9_7F4A_7C15);
        let mut z = self.0;
        z = (z ^ (z >> 30)).wrapping_mul(0xBF58_476D_1CE4_E5B9);
        z = (z ^ (z >> 27)).wrapping_mul(0x94D0_49BB_1331_11EB);
        z ^ (z >> 31)
    }
    fn below(&mut self, n: u64) -> u64 {
        self.next_u64() % n
    }
}

const PRICE_BASE: i64 = 10_000;
const PRICE_BAND: i64 = 64;
const MAX_QTY: i64 = 50;

fn rand_px(rng: &mut SplitMix64) -> Px {
    let band = u64::try_from(2 * PRICE_BAND).unwrap();
    let off = i64::try_from(rng.below(band)).unwrap();
    Px(PRICE_BASE - PRICE_BAND + off)
}

fn rand_qty(rng: &mut SplitMix64, lo: i64, hi: i64) -> Qty {
    let span = u64::try_from(hi - lo + 1).unwrap();
    Qty(lo + i64::try_from(rng.below(span)).unwrap())
}

fn gen_event(rng: &mut SplitMix64, seq: u64) -> BookEvent {
    let roll = rng.below(1000);
    if roll < 5 {
        BookEvent::clear(seq, seq)
    } else if roll < 55 {
        let side = if rng.below(2) == 0 { Side::Bid } else { Side::Ask };
        BookEvent::trade(seq, seq, side, rand_px(rng), rand_qty(rng, 1, MAX_QTY))
    } else {
        let side = if rng.below(2) == 0 { Side::Bid } else { Side::Ask };
        BookEvent::level(seq, seq, side, rand_px(rng), rand_qty(rng, 0, MAX_QTY))
    }
}

fn assert_agree(seed: u64, k: u64, a: &BTreeBook, b: &SortedVecBook, c: &RevVecBook) {
    let (oa, ob, oc) = (observe(a), observe(b), observe(c));
    assert_eq!(oa, ob, "BTree vs SortedVec diverged at seed={seed} k={k}");
    assert_eq!(oa, oc, "BTree vs RevVec   diverged at seed={seed} k={k}");
}

fn drive_and_check(tag: u64, events: &[BookEvent]) {
    let mut a = BTreeBook::default();
    let mut b = SortedVecBook::default();
    let mut c = RevVecBook::default();
    for (k, ev) in events.iter().enumerate() {
        a.apply(ev);
        b.apply(ev);
        c.apply(ev);
        assert_agree(tag, k as u64, &a, &b, &c);
    }
}

#[test]
fn oracle_shared_scenario() {
    drive_and_check(0, &shared_scenario());
}

#[test]
fn oracle_randomized() {
    const SEEDS: [u64; 8] = [1, 2, 3, 5, 8, 13, 21, 0xDEAD_BEEF];
    let iters: u64 = 20_000;

    for &seed in &SEEDS {
        let mut rng = SplitMix64::new(seed);
        let mut a = BTreeBook::default();
        let mut b = SortedVecBook::default();
        let mut c = RevVecBook::default();
        for k in 0..iters {
            let ev = gen_event(&mut rng, k);
            a.apply(&ev);
            b.apply(&ev);
            c.apply(&ev);
            assert_eq!(a.best_bid(), b.best_bid(), "best_bid BTree/Sorted seed={seed} k={k}");
            assert_eq!(a.best_bid(), c.best_bid(), "best_bid BTree/Rev    seed={seed} k={k}");
            assert_eq!(a.best_ask(), b.best_ask(), "best_ask BTree/Sorted seed={seed} k={k}");
            assert_eq!(a.best_ask(), c.best_ask(), "best_ask BTree/Rev    seed={seed} k={k}");
            if k % 64 == 0 {
                assert_agree(seed, k, &a, &b, &c);
            }
        }
        assert_agree(seed, iters, &a, &b, &c);
    }
}

#[test]
fn oracle_negative_and_extreme_prices() {
    let prices = [Px(-5), Px(0), Px(i64::MAX - 1), Px(i64::MIN + 1)];
    let mut events = Vec::new();
    let mut seq = 0u64;
    for &px in &prices {
        for side in [Side::Bid, Side::Ask] {
            events.push(BookEvent::level(seq, seq, side, px, Qty(1 + i64::try_from(seq % 7).unwrap())));
            seq += 1;
        }
    }
    events.push(BookEvent::level(seq, seq, Side::Bid, Px(i64::MIN + 1), Qty(0)));
    seq += 1;
    events.push(BookEvent::level(seq, seq, Side::Ask, Px(i64::MAX - 1), Qty(0)));
    drive_and_check(3, &events);
}

#[test]
fn oracle_crossed_book() {
    let events = [
        BookEvent::level(1, 1, Side::Ask, Px(100), Qty(3)),
        BookEvent::level(2, 2, Side::Ask, Px(101), Qty(4)),
        BookEvent::level(3, 3, Side::Bid, Px(105), Qty(2)),
        BookEvent::level(4, 4, Side::Bid, Px(102), Qty(1)),
        BookEvent::level(5, 5, Side::Ask, Px(99), Qty(5)),
        BookEvent::level(6, 6, Side::Bid, Px(110), Qty(7)),
    ];
    drive_and_check(4, &events);
}

#[test]
fn oracle_remove_absent_is_noop() {
    let events = [
        BookEvent::level(1, 1, Side::Bid, Px(100), Qty(0)),
        BookEvent::level(2, 2, Side::Ask, Px(200), Qty(0)),
        BookEvent::level(3, 3, Side::Bid, Px(100), Qty(5)),
        BookEvent::level(4, 4, Side::Bid, Px(99), Qty(3)),
        BookEvent::level(5, 5, Side::Ask, Px(101), Qty(4)),
        BookEvent::level(6, 6, Side::Bid, Px(98), Qty(0)),
        BookEvent::level(7, 7, Side::Bid, Px(50), Qty(0)),
        BookEvent::level(8, 8, Side::Ask, Px(500), Qty(0)),
    ];
    drive_and_check(5, &events);
}

#[test]
fn oracle_clear_then_rebuild() {
    let events = [
        BookEvent::level(1, 1, Side::Bid, Px(100), Qty(5)),
        BookEvent::level(2, 2, Side::Bid, Px(99), Qty(3)),
        BookEvent::level(3, 3, Side::Ask, Px(101), Qty(4)),
        BookEvent::trade(4, 4, Side::Bid, Px(101), Qty(2)),
        BookEvent::clear(5, 5),
        BookEvent::level(6, 6, Side::Bid, Px(200), Qty(8)),
        BookEvent::level(7, 7, Side::Ask, Px(205), Qty(9)),
        BookEvent::level(8, 8, Side::Ask, Px(203), Qty(1)),
        BookEvent::trade(9, 9, Side::Ask, Px(203), Qty(1)),
    ];
    drive_and_check(6, &events);
}

#[test]
fn oracle_realloc_churn() {
    const N: i64 = 600;
    let mut events = Vec::new();
    let mut seq = 0u64;
    for k in 0..N {
        events.push(BookEvent::level(seq, seq, Side::Bid, Px(10_000 - k), Qty(k + 1)));
        seq += 1;
        events.push(BookEvent::level(seq, seq, Side::Ask, Px(10_001 + k), Qty(k + 1)));
        seq += 1;
    }
    for k in (0..N).step_by(3) {
        events.push(BookEvent::level(seq, seq, Side::Bid, Px(10_000 - k), Qty(0)));
        seq += 1;
        events.push(BookEvent::level(seq, seq, Side::Ask, Px(10_001 + k), Qty(0)));
        seq += 1;
    }
    drive_and_check(7, &events);
}
