//! The tree-backed book.

use lob::book::OrderBook;
use lob::btree::BTreeBook;
use lob::event::{BookEvent, Side};
use lob::price::{Px, Qty};

fn run(events: &[BookEvent]) -> BTreeBook {
    let mut b = BTreeBook::default();
    for ev in events {
        b.apply(ev);
    }
    b
}

fn hand_verified_events() -> Vec<BookEvent> {
    vec![
        BookEvent::clear(0, 0),
        BookEvent::level(1, 1, Side::Bid, Px(100), Qty(5)),
        BookEvent::level(2, 2, Side::Bid, Px(99), Qty(3)),
        BookEvent::level(3, 3, Side::Bid, Px(101), Qty(2)),
        BookEvent::level(4, 4, Side::Ask, Px(103), Qty(4)),
        BookEvent::level(5, 5, Side::Ask, Px(102), Qty(1)),
        BookEvent::trade(6, 6, Side::Ask, Px(102), Qty(1)),
        BookEvent::level(7, 7, Side::Ask, Px(102), Qty(0)),
        BookEvent::level(8, 8, Side::Bid, Px(101), Qty(0)),
    ]
}

#[test]
fn empty_book_observable_state() {
    let b = BTreeBook::default();
    assert_eq!(b.best_bid(), None);
    assert_eq!(b.best_ask(), None);
    assert_eq!(b.depth(Side::Bid), 0);
    assert_eq!(b.depth(Side::Ask), 0);
    assert_eq!(b.last_trade(), None);
    let mut buf = [(Px(0), Qty(0)); 4];
    assert_eq!(b.top_n(Side::Bid, &mut buf), 0);
    assert_eq!(b.top_n(Side::Ask, &mut buf), 0);
}

#[test]
fn single_level_each_side() {
    let b = run(&[
        BookEvent::level(1, 1, Side::Bid, Px(100), Qty(5)),
        BookEvent::level(2, 2, Side::Ask, Px(101), Qty(7)),
    ]);
    assert_eq!(b.best_bid(), Some((Px(100), Qty(5))));
    assert_eq!(b.best_ask(), Some((Px(101), Qty(7))));
    assert_eq!(b.depth(Side::Bid), 1);
    assert_eq!(b.depth(Side::Ask), 1);
}

#[test]
fn best_is_highest_bid_and_lowest_ask() {
    let b = run(&[
        BookEvent::level(1, 1, Side::Bid, Px(98), Qty(1)),
        BookEvent::level(2, 2, Side::Bid, Px(100), Qty(2)),
        BookEvent::level(3, 3, Side::Bid, Px(99), Qty(3)),
        BookEvent::level(4, 4, Side::Ask, Px(105), Qty(4)),
        BookEvent::level(5, 5, Side::Ask, Px(103), Qty(5)),
        BookEvent::level(6, 6, Side::Ask, Px(104), Qty(6)),
    ]);
    assert_eq!(b.best_bid(), Some((Px(100), Qty(2))));
    assert_eq!(b.best_ask(), Some((Px(103), Qty(5))));
}

#[test]
fn absolute_set_last_write_wins() {
    let b = run(&[
        BookEvent::level(1, 1, Side::Bid, Px(100), Qty(5)),
        BookEvent::level(2, 2, Side::Bid, Px(100), Qty(9)),
    ]);
    assert_eq!(b.best_bid(), Some((Px(100), Qty(9))));
    assert_eq!(b.depth(Side::Bid), 1);
}

#[test]
fn removal_and_missing_removal_is_noop() {
    let b = run(&[
        BookEvent::level(1, 1, Side::Bid, Px(100), Qty(5)),
        BookEvent::level(2, 2, Side::Bid, Px(99), Qty(3)),
        BookEvent::level(3, 3, Side::Bid, Px(100), Qty(0)),
        BookEvent::level(4, 4, Side::Bid, Px(50), Qty(0)),
    ]);
    assert_eq!(b.depth(Side::Bid), 1);
    assert_eq!(b.best_bid(), Some((Px(99), Qty(3))));
}

#[test]
fn trade_does_not_mutate_levels() {
    let b = run(&[
        BookEvent::level(1, 1, Side::Bid, Px(100), Qty(5)),
        BookEvent::level(2, 2, Side::Ask, Px(101), Qty(4)),
        BookEvent::trade(3, 3, Side::Ask, Px(101), Qty(2)),
    ]);
    assert_eq!(b.last_trade(), Some((Px(101), Qty(2), Side::Ask)));
    assert_eq!(b.best_bid(), Some((Px(100), Qty(5))));
    assert_eq!(b.best_ask(), Some((Px(101), Qty(4))));
    assert_eq!(b.depth(Side::Bid), 1);
    assert_eq!(b.depth(Side::Ask), 1);
}

#[test]
fn top_n_short_buffer() {
    let b = run(&[
        BookEvent::level(1, 1, Side::Bid, Px(100), Qty(5)),
        BookEvent::level(2, 2, Side::Bid, Px(99), Qty(3)),
        BookEvent::level(3, 3, Side::Bid, Px(98), Qty(1)),
    ]);
    let mut buf = [(Px(0), Qty(0)); 2];
    assert_eq!(b.top_n(Side::Bid, &mut buf), 2);
    assert_eq!(buf, [(Px(100), Qty(5)), (Px(99), Qty(3))]);
}

#[test]
fn top_n_long_buffer_leaves_tail() {
    let b = run(&[
        BookEvent::level(1, 1, Side::Ask, Px(101), Qty(4)),
        BookEvent::level(2, 2, Side::Ask, Px(102), Qty(6)),
    ]);
    let sentinel = (Px(-1), Qty(-1));
    let mut buf = [sentinel; 5];
    assert_eq!(b.top_n(Side::Ask, &mut buf), 2);
    assert_eq!(buf[0], (Px(101), Qty(4)));
    assert_eq!(buf[1], (Px(102), Qty(6)));
    assert_eq!(&buf[2..], &[sentinel; 3]);
}

#[test]
fn clear_resets_everything() {
    let b = run(&[
        BookEvent::level(1, 1, Side::Bid, Px(100), Qty(5)),
        BookEvent::level(2, 2, Side::Ask, Px(101), Qty(4)),
        BookEvent::trade(3, 3, Side::Ask, Px(101), Qty(2)),
        BookEvent::clear(4, 4),
    ]);
    assert_eq!(b.best_bid(), None);
    assert_eq!(b.best_ask(), None);
    assert_eq!(b.last_trade(), None);
    assert_eq!(b.depth(Side::Bid), 0);
    assert_eq!(b.depth(Side::Ask), 0);
}

#[test]
fn hand_verified_scenario() {
    let events = hand_verified_events();
    let mut b = BTreeBook::default();

    b.apply(&events[0]);
    assert_eq!(b.best_bid(), None);
    assert_eq!(b.best_ask(), None);

    b.apply(&events[1]);
    assert_eq!(b.best_bid(), Some((Px(100), Qty(5))));

    b.apply(&events[2]);
    assert_eq!(b.best_bid(), Some((Px(100), Qty(5))));
    assert_eq!(b.depth(Side::Bid), 2);

    b.apply(&events[3]);
    assert_eq!(b.best_bid(), Some((Px(101), Qty(2))));
    assert_eq!(b.depth(Side::Bid), 3);

    b.apply(&events[4]);
    assert_eq!(b.best_ask(), Some((Px(103), Qty(4))));

    b.apply(&events[5]);
    assert_eq!(b.best_ask(), Some((Px(102), Qty(1))));
    assert_eq!(b.depth(Side::Ask), 2);

    b.apply(&events[6]);
    assert_eq!(b.last_trade(), Some((Px(102), Qty(1), Side::Ask)));
    assert_eq!(b.depth(Side::Bid), 3);
    assert_eq!(b.depth(Side::Ask), 2);

    b.apply(&events[7]);
    assert_eq!(b.best_ask(), Some((Px(103), Qty(4))));
    assert_eq!(b.depth(Side::Ask), 1);

    b.apply(&events[8]);
    assert_eq!(b.best_bid(), Some((Px(100), Qty(5))));
    assert_eq!(b.depth(Side::Bid), 2);

    let mut buf = [(Px(0), Qty(0)); 3];
    assert_eq!(b.top_n(Side::Bid, &mut buf), 2);
    assert_eq!(&buf[..2], &[(Px(100), Qty(5)), (Px(99), Qty(3))]);

    let mut buf1 = [(Px(0), Qty(0)); 1];
    assert_eq!(b.top_n(Side::Ask, &mut buf1), 1);
    assert_eq!(&buf1[..1], &[(Px(103), Qty(4))]);

    b.apply(&BookEvent::clear(9, 9));
    assert_eq!(b.best_bid(), None);
    assert_eq!(b.best_ask(), None);
    assert_eq!(b.last_trade(), None);
    assert_eq!(b.depth(Side::Bid), 0);
    assert_eq!(b.depth(Side::Ask), 0);
}
