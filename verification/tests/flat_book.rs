//! The array-backed book.

use lob::book::OrderBook;
use lob::event::{BookEvent, Side};
use lob::flat::FlatBook;
use lob::price::{Px, Qty};

fn run(events: &[BookEvent]) -> FlatBook {
    let mut b = FlatBook::default();
    for ev in events {
        b.apply(ev);
    }
    b
}

fn ladder(b: &FlatBook, side: Side) -> Vec<(Px, Qty)> {
    let mut out = vec![(Px(0), Qty(0)); b.depth(side)];
    let n = b.top_n(side, &mut out);
    assert_eq!(n, b.depth(side), "top_n count must equal depth");
    out
}

#[test]
fn best_and_probe_after_churn() {
    let b = run(&[
        BookEvent::level(1, 1, Side::Bid, Px(100), Qty(5)),
        BookEvent::level(2, 2, Side::Bid, Px(98), Qty(3)),
        BookEvent::level(3, 3, Side::Bid, Px(102), Qty(7)),
        BookEvent::level(4, 4, Side::Bid, Px(102), Qty(0)),
        BookEvent::level(5, 5, Side::Ask, Px(110), Qty(4)),
        BookEvent::level(6, 6, Side::Ask, Px(105), Qty(2)),
        BookEvent::level(7, 7, Side::Ask, Px(105), Qty(0)),
    ]);
    assert_eq!(b.best_bid(), Some((Px(100), Qty(5))));
    assert_eq!(b.best_ask(), Some((Px(110), Qty(4))));
    assert_eq!(b.depth(Side::Bid), 2);
    assert_eq!(b.depth(Side::Ask), 1);
    assert_eq!(
        ladder(&b, Side::Bid),
        vec![(Px(100), Qty(5)), (Px(98), Qty(3))]
    );
}

#[test]
fn update_in_place_is_o1() {
    let b = run(&[
        BookEvent::level(1, 1, Side::Bid, Px(100), Qty(5)),
        BookEvent::level(2, 2, Side::Bid, Px(100), Qty(9)),
    ]);
    assert_eq!(b.best_bid(), Some((Px(100), Qty(9))));
    assert_eq!(b.depth(Side::Bid), 1);
}

#[test]
fn remove_absent_is_noop() {
    let b = run(&[
        BookEvent::level(1, 1, Side::Bid, Px(100), Qty(0)),
        BookEvent::level(2, 2, Side::Bid, Px(100), Qty(5)),
        BookEvent::level(3, 3, Side::Bid, Px(99), Qty(0)),
    ]);
    assert_eq!(b.best_bid(), Some((Px(100), Qty(5))));
    assert_eq!(b.depth(Side::Bid), 1);
}

#[test]
fn clear_retains_capacity() {
    let mut b = run(&[BookEvent::level(1, 1, Side::Bid, Px(100), Qty(5))]);
    let span = b.allocated_span_ticks();
    assert!(span > 0);
    b.apply(&BookEvent::clear(2, 2));
    assert_eq!(b.best_bid(), None);
    assert_eq!(b.depth(Side::Bid), 0);
    assert_eq!(b.allocated_span_ticks(), span);
    b.apply(&BookEvent::level(3, 3, Side::Ask, Px(105), Qty(2)));
    assert_eq!(b.best_ask(), Some((Px(105), Qty(2))));
}
