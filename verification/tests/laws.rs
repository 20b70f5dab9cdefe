use lob::book::{replay_all, OrderBook};
use lob::btree::BTreeBook;
use lob::corpus::{Corpus, HEADER_SIZE, RECORD_SIZE};
use lob::decimal::{frac_digits, scale_to_int, to_ticks, ConvError};
use lob::engine::{mid_price, Engine, Observed};
use lob::event::{BookEvent, Side};
use lob::flat::FlatBook;
use lob::http::{dechunk, parse_http_body, HttpError};
use lob::pack::{pack, unpack};
use lob::price::{Px, Qty};
use lob::rev_vec::RevVecBook;
use lob::ring::{self, Recv, SpmcRing};
use lob::rng::SplitMix64;
use lob::seqlock::{self, SeqLock, TopOfBook};
use lob::sorted_vec::SortedVecBook;
use lob::synthetic::{generate, GenConfig, Profile};
use lob::workload::gap_price;

type State = (
    Option<(Px, Qty)>,
    Option<(Px, Qty)>,
    Vec<(Px, Qty)>,
    Vec<(Px, Qty)>,
    usize,
    usize,
    Option<(Px, Qty, Side)>,
);

fn side_of<B: OrderBook>(b: &B, side: Side) -> Vec<(Px, Qty)> {
    let mut buf = vec![(Px(0), Qty(0)); 64];
    let n = b.top_n(side, &mut buf);
    buf.truncate(n);
    buf
}

fn state<B: OrderBook>(b: &B) -> State {
    (
        b.best_bid(),
        b.best_ask(),
        side_of(b, Side::Bid),
        side_of(b, Side::Ask),
        b.depth(Side::Bid),
        b.depth(Side::Ask),
        b.last_trade(),
    )
}

fn book<B: OrderBook>(events: &[BookEvent]) -> State {
    let mut b = B::default();
    replay_all(&mut b, events);
    state(&b)
}

fn after(events: &[BookEvent]) -> State {
    let a = book::<BTreeBook>(events);
    assert_eq!(a, book::<SortedVecBook>(events));
    assert_eq!(a, book::<RevVecBook>(events));
    assert_eq!(a, book::<FlatBook>(events));
    a
}

fn set(side: Side, px: i64, qty: i64) -> BookEvent {
    BookEvent::level(0, 0, side, Px(px), Qty(qty))
}

fn some_book() -> Vec<BookEvent> {
    vec![set(Side::Bid, 99, 5), set(Side::Bid, 98, 4), set(Side::Ask, 101, 3)]
}

fn then(more: &[BookEvent]) -> Vec<BookEvent> {
    let mut v = some_book();
    v.extend_from_slice(more);
    v
}

#[test]
fn law_all_books_agree() {
    let s = after(&then(&[set(Side::Ask, 100, 1), set(Side::Bid, 99, 0)]));
    assert_eq!(s.0, Some((Px(98), Qty(4))));
    assert_eq!(s.1, Some((Px(100), Qty(1))));
    assert_eq!(s.3, vec![(Px(100), Qty(1)), (Px(101), Qty(3))]);
}

#[test]
fn law_the_ladder_starts_at_the_best() {
    let s = after(&some_book());
    assert_eq!(s.0, s.2.first().copied());
    assert_eq!(s.1, s.3.first().copied());
    assert_eq!((s.2.len(), s.3.len()), (s.4, s.5));
}

#[test]
fn law_the_last_write_wins() {
    assert_eq!(
        after(&then(&[set(Side::Bid, 97, 1), set(Side::Bid, 97, 8)])),
        after(&then(&[set(Side::Bid, 97, 8)]))
    );
}

#[test]
fn law_levels_apart_commute() {
    let (x, y) = (set(Side::Bid, 97, 1), set(Side::Ask, 97, 2));
    assert_eq!(after(&then(&[x, y])), after(&then(&[y, x])));
    let z = set(Side::Bid, 96, 3);
    assert_eq!(after(&then(&[x, z])), after(&then(&[z, x])));
}

#[test]
fn law_removing_what_is_absent_changes_nothing() {
    assert_eq!(after(&then(&[set(Side::Ask, 99, 0)])), after(&some_book()));
}

#[test]
fn law_removing_undoes_setting() {
    assert_eq!(
        after(&then(&[set(Side::Ask, 99, 7), set(Side::Ask, 99, 0)])),
        after(&some_book())
    );
}

#[test]
fn law_trades_leave_levels_alone() {
    let t = BookEvent::trade(0, 0, Side::Ask, Px(99), Qty(5));
    let s = after(&then(&[t]));
    assert_eq!(s.6, Some((Px(99), Qty(5), Side::Ask)));
    assert_eq!(s.2, after(&some_book()).2);
    assert_eq!(after(&then(&[t, set(Side::Bid, 1, 1)])).6, s.6);
}

#[test]
fn law_a_clear_forgets() {
    let tail = [set(Side::Bid, 5, 5)];
    let mut v = some_book();
    v.push(BookEvent::clear(9, 9));
    v.extend_from_slice(&tail);
    assert_eq!(after(&v), after(&tail));
}

#[test]
fn law_a_corpus_reads_back() {
    let events = then(&[BookEvent::clear(7, 8), BookEvent::trade(1, 2, Side::Ask, Px(-3), Qty(4))]);
    let mut bytes = Vec::new();
    Corpus::write_to(&mut bytes, &events).unwrap();
    assert_eq!(bytes.len(), HEADER_SIZE + events.len() * RECORD_SIZE);
    assert!(Corpus::from_bytes(&bytes).unwrap().events() == &events[..]);
}

#[test]
fn law_reserved_bytes_do_not_count() {
    let mut bytes = Vec::new();
    Corpus::write_to(&mut bytes, &some_book()).unwrap();
    let mut other = bytes.clone();
    for b in &mut other[24..HEADER_SIZE] {
        *b = 0xff;
    }
    let n = HEADER_SIZE + RECORD_SIZE;
    other[n - 1] = 0x77;
    assert!(
        Corpus::from_bytes(&bytes).unwrap().events() == Corpus::from_bytes(&other).unwrap().events()
    );
}

#[test]
fn law_packing_is_undone() {
    let a = BookEvent::trade(u64::MAX, 1, Side::Ask, Px(i64::MIN), Qty(-1));
    let b = BookEvent::trade(u64::MAX, 1, Side::Bid, Px(i64::MIN), Qty(-1));
    assert!(unpack(&pack(&a)).unwrap() == a);
    assert!(pack(&a) != pack(&b));
}

#[test]
fn law_the_random_state_moves_by_a_constant() {
    let mut r = SplitMix64::new(42);
    let mut s = SplitMix64::new(42u64.wrapping_add(0x9E37_79B9_7F4A_7C15u64.wrapping_mul(3)));
    let _ = (r.next_u64(), r.next_u64(), r.next_u64());
    assert_eq!(r.next_u64(), s.next_u64());
}

#[test]
fn law_a_stream_stays_within_its_band() {
    for profile in [Profile::Steady, Profile::Burst, Profile::FlashCrash] {
        let c = GenConfig {
            profile,
            seed: 9,
            events: 2_000,
            mid: Px(1_000),
            band: 12,
            max_qty: Qty(9),
            start_ts: 3,
        };
        let events = generate(&c);
        assert_eq!(events.len(), 2_000);
        assert!(generate(&c) == events);
        let mut ts = 0;
        for (i, e) in events.iter().enumerate() {
            assert_eq!(e.seq, i as u64);
            assert!(e.ts >= ts);
            ts = e.ts;
            if e.kind == lob::event::EventKind::Level {
                assert!((e.px.0 - 1_000).abs() <= 12);
            }
        }
    }
}

#[test]
fn law_a_gap_is_no_level() {
    assert_eq!(gap_price(Px(98), Side::Bid), Px(99));
    assert_eq!(gap_price(Px(102), Side::Ask), Px(101));
}

#[test]
fn law_a_snapshot_is_never_torn() {
    let t = TopOfBook { bid_px: 1, bid_qty: 2, ask_px: 3, ask_qty: 4, stamp: 5 };
    let yields = |first, second| seqlock::Attempt { first, fields: t, second }.settle();
    assert_eq!(yields(4, 4), Some(t));
    assert_eq!(yields(4, 6), None);
    assert_eq!(yields(5, 5), None);
    assert_eq!(yields(5, 6), None);
    let cell = SeqLock::new(TopOfBook::default());
    let _ = cell.store(t);
    assert_eq!(cell.try_load().0, Some(t));
}

#[test]
fn law_overruns_are_counted() {
    let lapped: ring::Attempt<2> = ring::Attempt::Lapped { write: 9, stamp: 11, fresh: 13 };
    assert_eq!(lapped.settle(3, 4), (Recv::Overrun { skipped: 6 }, 9));
    let clean = ring::Attempt::Clean { write: 9, words: [1, 2] };
    assert_eq!(clean.settle(3, 4), (Recv::Item([1, 2]), 4));
    let level: ring::Attempt<2> = ring::Attempt::CaughtUp { write: 3 };
    assert_eq!(level.settle(3, 4), (Recv::Empty, 3));
    assert_eq!(ring::oldest(3, 4), 0);
    assert_eq!(ring::oldest(9, 4), 5);
}

#[test]
fn law_whoever_keeps_up_misses_nothing() {
    let (mut tx, handle) = SpmcRing::<1>::with_capacity(4).split();
    let mut rx = handle.consumer_from_oldest();
    for i in 0..20 {
        tx.push([i]);
        assert_eq!(rx.try_recv(), Recv::Item([i]));
    }
    assert_eq!(rx.try_recv(), Recv::Empty);
    assert_eq!((tx.position(), rx.cursor()), (20, 20));
}

#[test]
fn law_consumers_see_what_was_processed() {
    let (mut tx, handle) = Engine::<BTreeBook>::new(8);
    let mut rx = handle.consumer();
    for e in some_book() {
        tx.process(&e);
        match rx.poll() {
            Observed::Event(got) => assert!(got == e),
            _ => panic!("an event"),
        }
    }
    assert!(matches!(rx.poll(), Observed::Idle));
    assert_eq!(rx.snapshot().0.unwrap(), tx.top_of_book());
    assert_eq!(mid_price(-3, 0), -1);
    assert_eq!(mid_price(i64::MAX, i64::MAX), i64::MAX);
}

#[test]
fn law_ticks_are_exact() {
    assert_eq!(to_ticks("65000.10", "0.01").unwrap(), 6_500_010);
    assert_eq!(to_ticks("-1.50", "0.5").unwrap(), -3);
    assert_eq!(to_ticks("3", "0.25").unwrap(), 12);
    assert_eq!(to_ticks("0.000", "0.001").unwrap(), 0);
    assert_eq!(to_ticks(".5", "0.1").unwrap(), 5);
    assert_eq!(to_ticks("1.005", "0.01").unwrap_err(), ConvError::OffTickGrid);
    assert_eq!(to_ticks("1", "0").unwrap_err(), ConvError::OffTickGrid);
    assert_eq!(to_ticks("9223372036854775808", "1").unwrap_err(), ConvError::Overflow);
    assert_eq!(to_ticks("1e5", "1").unwrap_err(), ConvError::NotDecimal);
    assert_eq!(to_ticks("", "1").unwrap_err(), ConvError::NotDecimal);
    assert_eq!(to_ticks("1.2.3", "1").unwrap_err(), ConvError::NotDecimal);
    assert_eq!(ConvError::Overflow.message(), "tick count does not fit in i64");
    assert_eq!(frac_digits("1.250"), 3);
    assert_eq!(frac_digits("12"), 0);
    assert_eq!(scale_to_int("-12.5", 3).unwrap(), -12_500);
    assert_eq!(scale_to_int("1.25", 1).unwrap_err(), ConvError::NotDecimal);
    assert_eq!(scale_to_int("1", 39).unwrap_err(), ConvError::Overflow);
}

#[test]
fn http_bodies_are_taken_out_of_responses() {
    let ok = b"HTTP/1.1 200 OK\r\nContent-Length: 2\r\n\r\nhi";
    assert_eq!(parse_http_body(ok).unwrap(), b"hi");
    let chunked =
        b"HTTP/1.1 200 OK\r\nTRANSFER-Encoding: Chunked\r\n\r\n2\r\nhi\r\nA;x=y\r\n0123456789\r\n0\r\n\r\n";
    assert_eq!(parse_http_body(chunked).unwrap(), b"hi0123456789");
    assert!(matches!(
        parse_http_body(b"HTTP/1.1 404 Not Found\r\n\r\n"),
        Err(HttpError::NotOk { .. })
    ));
    assert!(matches!(parse_http_body(b"HTTP/1.1 200 OK\r\n"), Err(HttpError::NoTerminator)));
    assert!(matches!(dechunk(b"2"), Err(HttpError::MissingSizeLine)));
    assert!(matches!(dechunk(b"zz\r\n"), Err(HttpError::BadChunkSize)));
    assert!(matches!(dechunk(b"\xff\r\n"), Err(HttpError::BadChunkSize)));
    assert!(matches!(dechunk(b"5\r\nhi\r\n"), Err(HttpError::TruncatedChunk)));
    assert_eq!(dechunk(b"0\r\n").unwrap(), b"");
}

#[test]
fn a_corpus_of_events_holds_them() {
    let evs = vec![
        BookEvent::level(1, 10, Side::Bid, Px(99), Qty(5)),
        BookEvent::clear(2, 20),
    ];
    let c = Corpus::from_events(evs.clone());
    assert_eq!(c.events(), &evs[..]);
}
