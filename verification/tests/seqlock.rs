//! The snapshot cell.

use lob::seqlock::{Reader, SeqLock, TopOfBook, Writer};

fn snap(stamp: u64) -> TopOfBook {
    TopOfBook { bid_px: 10, bid_qty: 20, ask_px: 11, ask_qty: 21, stamp }
}

#[test]
fn new_then_load_returns_init() {
    let init = snap(7);
    assert_eq!(SeqLock::new(init).load().0, Some(init));
}

#[test]
fn store_then_load_returns_stored() {
    let cell = SeqLock::new(TopOfBook::default());
    let x = snap(42);
    cell.store(x);
    assert_eq!(cell.load().0, Some(x));
}

#[test]
fn round_trips_several_distinct_snapshots() {
    let cell = SeqLock::new(TopOfBook::default());
    let snapshots = [
        TopOfBook { bid_px: 1, bid_qty: 2, ask_px: 3, ask_qty: 4, stamp: 1 },
        TopOfBook { bid_px: -100, bid_qty: 0, ask_px: 100, ask_qty: 5, stamp: 2 },
        TopOfBook { bid_px: i64::MIN, bid_qty: i64::MAX, ask_px: 0, ask_qty: -1, stamp: u64::MAX },
    ];
    for x in snapshots {
        cell.store(x);
        assert_eq!(cell.load().0, Some(x));
    }
}

#[test]
fn default_snapshot_is_all_zero() {
    let cell = SeqLock::new(TopOfBook::default());
    assert_eq!(
        cell.load().0,
        Some(TopOfBook { bid_px: 0, bid_qty: 0, ask_px: 0, ask_qty: 0, stamp: 0 })
    );
}

#[test]
fn a_reader_gets_what_the_writer_stored() {
    let mut w = Writer::new(snap(1));
    let mut r = Reader::new(w.share());
    assert_eq!(w.last(), snap(1));
    assert_eq!(r.load(), Some(snap(1)));
    for stamp in 2..50 {
        w.store(snap(stamp));
        assert_eq!(w.last(), snap(stamp));
        assert_eq!(r.load(), Some(snap(stamp)));
        assert_eq!(r.peek().0, w.share().load().0);
    }
}
