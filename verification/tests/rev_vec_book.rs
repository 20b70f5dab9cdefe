//! The best-first vector book.

use lob::book::OrderBook;
use lob::event::{BookEvent, Side};
use lob::price::{Px, Qty};
use lob::rev_vec::RevVecBook;

fn run(events: &[BookEvent]) -> RevVecBook {
    let mut b = RevVecBook::default();
    for ev in events {
        b.apply(ev);
    }
    b
}

fn ladder(b: &RevVecBook, side: Side) -> Vec<(Px, Qty)> {
    let mut out = vec![(Px(0), Qty(0)); b.depth(side)];
    let n = b.top_n(side, &mut out);
    assert_eq!(n, b.depth(side), "top_n count must equal depth");
    out
}

fn assert_strictly_descending(vec: &[(Px, Qty)]) {
    for w in vec.windows(2) {
        assert!(w[0].0 > w[1].0, "not strictly descending / has duplicate: {vec:?}");
    }
}

fn assert_strictly_ascending(vec: &[(Px, Qty)]) {
    for w in vec.windows(2) {
        assert!(w[0].0 < w[1].0, "not strictly ascending / has duplicate: {vec:?}");
    }
}

#[test]
fn best_is_at_index_zero_after_churn() {
    let b = run(&[
        BookEvent::level(1, 1, Side::Bid, Px(100), Qty(5)),
        BookEvent::level(2, 2, Side::Bid, Px(98), Qty(3)),
        BookEvent::level(3, 3, Side::Bid, Px(102), Qty(7)),
        BookEvent::level(4, 4, Side::Bid, Px(100), Qty(9)),
        BookEvent::level(5, 5, Side::Bid, Px(98), Qty(0)),
        BookEvent::level(6, 6, Side::Bid, Px(101), Qty(1)),
        BookEvent::level(7, 7, Side::Ask, Px(110), Qty(4)),
        BookEvent::level(8, 8, Side::Ask, Px(105), Qty(2)),
        BookEvent::level(9, 9, Side::Ask, Px(108), Qty(6)),
        BookEvent::level(10, 10, Side::Ask, Px(105), Qty(0)),
    ]);
    assert_eq!(b.levels(Side::Bid).first().copied(), b.best_bid());
    assert_eq!(b.levels(Side::Ask).first().copied(), b.best_ask());
    assert_eq!(b.best_bid(), Some((Px(102), Qty(7))));
    assert_eq!(b.best_ask(), Some((Px(108), Qty(6))));
    assert_eq!(b.depth(Side::Bid), 3);
    assert_eq!(b.depth(Side::Ask), 2);
}

#[test]
fn directional_invariants_hold_after_churn() {
    let b = run(&[
        BookEvent::level(1, 1, Side::Bid, Px(99), Qty(1)),
        BookEvent::level(2, 2, Side::Bid, Px(103), Qty(2)),
        BookEvent::level(3, 3, Side::Bid, Px(97), Qty(3)),
        BookEvent::level(4, 4, Side::Bid, Px(101), Qty(4)),
        BookEvent::level(5, 5, Side::Bid, Px(95), Qty(5)),
    ]);
    assert_strictly_descending(b.levels(Side::Bid));
    assert_eq!(
        ladder(&b, Side::Bid),
        vec![
            (Px(103), Qty(2)),
            (Px(101), Qty(4)),
            (Px(99), Qty(1)),
            (Px(97), Qty(3)),
            (Px(95), Qty(5)),
        ]
    );

    let a = run(&[
        BookEvent::level(1, 1, Side::Ask, Px(110), Qty(1)),
        BookEvent::level(2, 2, Side::Ask, Px(104), Qty(2)),
        BookEvent::level(3, 3, Side::Ask, Px(108), Qty(3)),
        BookEvent::level(4, 4, Side::Ask, Px(102), Qty(4)),
    ]);
    assert_strictly_ascending(a.levels(Side::Ask));
    assert_eq!(
        ladder(&a, Side::Ask),
        vec![
            (Px(102), Qty(4)),
            (Px(104), Qty(2)),
            (Px(108), Qty(3)),
            (Px(110), Qty(1)),
        ]
    );
}

#[test]
fn worked_insertion_check_bids() {
    let base = [
        BookEvent::level(1, 1, Side::Bid, Px(101), Qty(1)),
        BookEvent::level(2, 2, Side::Bid, Px(100), Qty(2)),
        BookEvent::level(3, 3, Side::Bid, Px(99), Qty(3)),
    ];

    let mut b = run(&base);
    b.apply(&BookEvent::level(4, 4, Side::Bid, Px(100), Qty(9)));
    assert_eq!(
        b.levels(Side::Bid),
        vec![(Px(101), Qty(1)), (Px(100), Qty(9)), (Px(99), Qty(3))]
    );
    assert_strictly_descending(b.levels(Side::Bid));

    let mut b = run(&base);
    b.apply(&BookEvent::level(4, 4, Side::Bid, Px(102), Qty(7)));
    assert_eq!(
        b.levels(Side::Bid),
        vec![(Px(102), Qty(7)), (Px(101), Qty(1)), (Px(100), Qty(2)), (Px(99), Qty(3))]
    );
    assert_eq!(b.best_bid(), Some((Px(102), Qty(7))));
    assert_strictly_descending(b.levels(Side::Bid));

    let mut b = run(&base);
    b.apply(&BookEvent::level(4, 4, Side::Bid, Px(98), Qty(4)));
    assert_eq!(
        b.levels(Side::Bid),
        vec![(Px(101), Qty(1)), (Px(100), Qty(2)), (Px(99), Qty(3)), (Px(98), Qty(4))]
    );
    assert_strictly_descending(b.levels(Side::Bid));
}

#[test]
fn worked_insertion_check_asks() {
    let base = [
        BookEvent::level(1, 1, Side::Ask, Px(99), Qty(1)),
        BookEvent::level(2, 2, Side::Ask, Px(100), Qty(2)),
        BookEvent::level(3, 3, Side::Ask, Px(101), Qty(3)),
    ];

    let mut a = run(&base);
    a.apply(&BookEvent::level(4, 4, Side::Ask, Px(100), Qty(9)));
    assert_eq!(
        a.levels(Side::Ask),
        vec![(Px(99), Qty(1)), (Px(100), Qty(9)), (Px(101), Qty(3))]
    );
    assert_strictly_ascending(a.levels(Side::Ask));

    let mut a = run(&base);
    a.apply(&BookEvent::level(4, 4, Side::Ask, Px(98), Qty(7)));
    assert_eq!(
        a.levels(Side::Ask),
        vec![(Px(98), Qty(7)), (Px(99), Qty(1)), (Px(100), Qty(2)), (Px(101), Qty(3))]
    );
    assert_eq!(a.best_ask(), Some((Px(98), Qty(7))));
    assert_strictly_ascending(a.levels(Side::Ask));

    let mut a = run(&base);
    a.apply(&BookEvent::level(4, 4, Side::Ask, Px(102), Qty(4)));
    assert_eq!(
        a.levels(Side::Ask),
        vec![(Px(99), Qty(1)), (Px(100), Qty(2)), (Px(101), Qty(3)), (Px(102), Qty(4))]
    );
    assert_strictly_ascending(a.levels(Side::Ask));
}

#[test]
fn rev_vec_realloc_churn_preserves_ladder() {
    const N: usize = 600;
    let mut b = RevVecBook::default();
    for k in 0..N {
        let k = i64::try_from(k).unwrap();
        b.apply(&BookEvent::level(1, 1, Side::Ask, Px(10_000 + k), Qty(k + 1)));
    }
    assert_eq!(b.depth(Side::Ask), N);
    assert_strictly_ascending(b.levels(Side::Ask));
    assert_eq!(b.best_ask(), Some((Px(10_000), Qty(1))));

    for k in (0..N).step_by(2) {
        let k = i64::try_from(k).unwrap();
        b.apply(&BookEvent::level(0, 0, Side::Ask, Px(10_000 + k), Qty(0)));
    }
    assert_eq!(b.depth(Side::Ask), N / 2);
    assert_strictly_ascending(b.levels(Side::Ask));
    assert_eq!(b.best_ask(), Some((Px(10_001), Qty(2))));
    let full = ladder(&b, Side::Ask);
    for (i, (px, _)) in full.iter().enumerate() {
        let i = i64::try_from(i).unwrap();
        assert_eq!(px.ticks(), 10_000 + (2 * i + 1));
    }
}
