//! The pipeline from end to end.

use lob::book::OrderBook;
use lob::btree::BTreeBook;
use lob::engine::{Engine, Observed};
use lob::event::{BookEvent, Side};
use lob::price::{Px, Qty};
use lob::synthetic::{generate, GenConfig, Profile};

fn corpus(events: usize) -> Vec<BookEvent> {
    generate(&GenConfig {
        profile: Profile::Steady,
        seed: 7,
        events,
        mid: Px(65_000),
        band: 64,
        max_qty: Qty(1_024),
        start_ts: 0,
    })
}

fn assert_ordered(seqs: &[u64], tss: &[u64]) {
    for w in seqs.windows(2) {
        assert_eq!(w[1], w[0] + 1, "seq must be contiguous and strictly increasing");
    }
    for w in tss.windows(2) {
        assert!(w[1] >= w[0], "ts must be monotonic (non-decreasing)");
    }
}

#[test]
fn ordered_complete_delivery_single_thread() {
    let evs = corpus(5_000);
    let (mut producer, handle) = Engine::<BTreeBook>::new(8_192);
    let mut consumer = handle.consumer();

    let mut seqs = Vec::with_capacity(evs.len());
    let mut tss = Vec::with_capacity(evs.len());
    for ev in &evs {
        producer.process(ev);
        if let Observed::Event(got) = consumer.poll() {
            seqs.push(got.seq);
            tss.push(got.ts);
        }
    }
    while let Observed::Event(got) = consumer.poll() {
        seqs.push(got.seq);
        tss.push(got.ts);
    }

    assert_eq!(seqs.len(), evs.len(), "every event delivered exactly once");
    assert_eq!(seqs.first().copied(), Some(0));
    assert_ordered(&seqs, &tss);
    assert_eq!(consumer.resyncs, 0, "a roomy ring must never overrun");
}

#[test]
fn seqlock_snapshot_matches_book_at_quiescence() {
    let evs = corpus(5_000);
    let (mut producer, handle) = Engine::<BTreeBook>::new(8_192);
    let mut consumer = handle.consumer();

    for ev in &evs {
        producer.process(ev);
        let _ = consumer.poll();
    }
    while let Observed::Event(_) = consumer.poll() {}

    let snap = consumer.snapshot().0.expect("the cell is at rest");
    assert_eq!(snap, producer.top_of_book(), "consumer and producer share one seqlock");
    assert_eq!(snap.stamp, evs.len() as u64, "stamp counts every processed event");

    let book = producer.book();
    let (bp, bq) = book.best_bid().unwrap_or((Px(0), Qty(0)));
    let (ap, aq) = book.best_ask().unwrap_or((Px(0), Qty(0)));
    assert_eq!((snap.bid_px, snap.bid_qty), (bp.ticks(), bq.lots()));
    assert_eq!((snap.ask_px, snap.ask_qty), (ap.ticks(), aq.lots()));
}

#[test]
fn overrun_triggers_seqlock_resync_then_ordered() {
    const CAP: usize = 8;
    let evs = corpus(5_000);
    let (mut producer, handle) = Engine::<BTreeBook>::new(CAP);
    let mut consumer = handle.consumer();

    for ev in &evs {
        producer.process(ev);
    }

    let mut seqs = Vec::new();
    let mut tss = Vec::new();
    let mut overrun_snapshots = 0u64;
    loop {
        match consumer.poll() {
            Observed::Event(ev) => {
                seqs.push(ev.seq);
                tss.push(ev.ts);
            }
            Observed::Overrun { snapshot, .. } => {
                assert!(snapshot.stamp > 0, "resync snapshot must be a published state");
                assert!(snapshot.ask_px >= snapshot.bid_px, "bid must not cross ask");
                overrun_snapshots += 1;
            }
            Observed::Idle => break,
            other => panic!("unexpected {other:?}"),
        }
    }

    assert!(consumer.resyncs > 0, "a tiny ring must lap the stalled consumer");
    assert_eq!(consumer.resyncs, overrun_snapshots, "every overrun resynced");
    assert!(!seqs.is_empty(), "the consumer still delivers the resident tail");
    assert_ordered(&seqs, &tss);
    assert_eq!(seqs.last().copied(), Some(evs.len() as u64 - 1), "tail reaches the end");

    let snap = producer.top_of_book();
    assert_eq!(consumer.last_mid, (snap.bid_px + snap.ask_px) / 2);
}

#[test]
fn final_state_matches_independent_replay() {
    let evs = corpus(10_000);
    let (mut producer, _handle) = Engine::<BTreeBook>::new(8_192);
    for ev in &evs {
        producer.process(ev);
    }

    let mut reference = BTreeBook::default();
    for ev in &evs {
        reference.apply(ev);
    }

    let book = producer.book();
    assert_eq!(book.best_bid(), reference.best_bid(), "best_bid diverged");
    assert_eq!(book.best_ask(), reference.best_ask(), "best_ask diverged");
    for side in [Side::Bid, Side::Ask] {
        assert_eq!(book.depth(side), reference.depth(side), "depth diverged");
    }
    assert_eq!(book.last_trade(), reference.last_trade(), "last_trade diverged");
    assert_eq!(producer.stamp(), evs.len() as u64, "one stamp per processed event");
}
