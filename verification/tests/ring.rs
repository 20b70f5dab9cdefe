//! The broadcast ring.

use lob::ring::{Recv, SpmcRing};

fn witness<const W: usize>(pos: u64) -> [u64; W] {
    core::array::from_fn(|k| pos * W as u64 + k as u64)
}

fn check_witness<const W: usize>(pos: u64, rec: [u64; W]) {
    for (k, &v) in rec.iter().enumerate() {
        assert_eq!(v, pos * W as u64 + k as u64, "torn record at pos {pos}");
    }
}

#[test]
fn empty_when_caught_up() {
    let (_producer, handle) = SpmcRing::<2>::with_capacity(4).split();
    let mut c = handle.consumer();
    assert_eq!(c.try_recv(), Recv::Empty);
}

#[test]
fn push_recv_round_trip() {
    let (mut producer, handle) = SpmcRing::<4>::with_capacity(8).split();
    let mut c = handle.consumer();
    for pos in 0..5 {
        producer.push(witness::<4>(pos));
    }
    for pos in 0..5 {
        match c.try_recv() {
            Recv::Item(rec) => check_witness(pos, rec),
            other => panic!("expected Item at pos {pos}, got {other:?}"),
        }
    }
    assert_eq!(c.try_recv(), Recv::Empty);
}

#[test]
fn wrap_past_capacity_with_fast_consumer_no_overrun() {
    let (mut producer, handle) = SpmcRing::<2>::with_capacity(4).split();
    let mut c = handle.consumer();
    for pos in 0..100 {
        producer.push(witness::<2>(pos));
        match c.try_recv() {
            Recv::Item(rec) => check_witness(pos, rec),
            other => panic!("expected Item at pos {pos}, got {other:?}"),
        }
    }
    assert_eq!(c.try_recv(), Recv::Empty);
}

#[test]
fn stalled_consumer_detects_overrun_then_resumes_in_order() {
    const CAP: usize = 4;
    const EXTRA: u64 = 3;
    let total = CAP as u64 + EXTRA;
    let (mut producer, handle) = SpmcRing::<2>::with_capacity(CAP).split();
    let mut c = handle.consumer();

    for pos in 0..total {
        producer.push(witness::<2>(pos));
    }

    match c.try_recv() {
        Recv::Overrun { skipped } => assert_eq!(skipped, EXTRA, "exact skip count"),
        other => panic!("expected Overrun, got {other:?}"),
    }

    for pos in EXTRA..total {
        match c.try_recv() {
            Recv::Item(rec) => check_witness(pos, rec),
            other => panic!("expected Item at pos {pos}, got {other:?}"),
        }
    }
    assert_eq!(c.try_recv(), Recv::Empty);
}

#[test]
fn live_consumer_starts_at_current_position() {
    let (mut producer, handle) = SpmcRing::<2>::with_capacity(8).split();
    producer.push(witness::<2>(0));
    producer.push(witness::<2>(1));
    let mut c = handle.consumer();
    assert_eq!(c.cursor(), 2);
    producer.push(witness::<2>(2));
    match c.try_recv() {
        Recv::Item(rec) => check_witness(2, rec),
        other => panic!("expected Item at pos 2, got {other:?}"),
    }
}

#[test]
fn from_oldest_replays_resident_history() {
    let (mut producer, handle) = SpmcRing::<2>::with_capacity(4).split();
    for pos in 0..6 {
        producer.push(witness::<2>(pos));
    }
    let mut c = handle.consumer_from_oldest();
    assert_eq!(c.cursor(), 2);
    for pos in 2..6 {
        match c.try_recv() {
            Recv::Item(rec) => check_witness(pos, rec),
            other => panic!("expected Item at pos {pos}, got {other:?}"),
        }
    }
    assert_eq!(c.try_recv(), Recv::Empty);
}

#[test]
fn two_consumers_are_independent() {
    let (mut producer, handle) = SpmcRing::<1>::with_capacity(8).split();
    let mut a = handle.consumer();
    let mut b = handle.consumer();
    for pos in 0..3 {
        producer.push(witness::<1>(pos));
    }
    for pos in 0..3 {
        assert_eq!(a.try_recv(), Recv::Item(witness::<1>(pos)));
    }
    assert_eq!(a.try_recv(), Recv::Empty);
    assert_eq!(b.cursor(), 0);
    for pos in 0..3 {
        assert_eq!(b.try_recv(), Recv::Item(witness::<1>(pos)));
    }
}

#[test]
fn what_is_received_at_rest() {
    for n in [0u64, 1, 7, 8, 9, 30] {
        for start in 0..=n {
            // A consumer that joins when `start` records have been pushed.
            let (mut tx, handle) = SpmcRing::<2>::with_capacity(8).split();
            for p in 0..start {
                tx.push([p, p + 100]);
            }
            let mut rx = handle.consumer();
            assert_eq!(rx.cursor(), start);
            for p in start..n {
                tx.push([p, p + 100]);
            }
            let r = rx.try_recv();
            if start == n {
                assert_eq!((r, rx.cursor()), (Recv::Empty, start));
            } else if n - start <= 8 {
                assert_eq!((r, rx.cursor()), (Recv::Item([start, start + 100]), start + 1));
            } else {
                assert_eq!((r, rx.cursor()), (Recv::Overrun { skipped: n - 8 - start }, n - 8));
            }
        }
    }
}
