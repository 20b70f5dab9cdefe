//! The corpus format.

use lob::corpus::{Corpus, CorpusError, HEADER_SIZE, RECORD_SIZE};
use lob::event::{BookEvent, EventKind, Side};
use lob::price::{Px, Qty};

fn ev_eq(a: &BookEvent, b: &BookEvent) -> bool {
    if a.seq != b.seq || a.ts != b.ts || a.kind != b.kind {
        return false;
    }
    match a.kind {
        EventKind::Clear => true,
        _ => a.px == b.px && a.qty == b.qty && a.side == b.side,
    }
}

fn slices_eq(a: &[BookEvent], b: &[BookEvent]) -> bool {
    a.len() == b.len() && a.iter().zip(b).all(|(x, y)| ev_eq(x, y))
}

fn sample_events() -> Vec<BookEvent> {
    vec![
        BookEvent::clear(0, 1_000),
        BookEvent::level(1, 1_100, Side::Bid, Px(65_000), Qty(5)),
        BookEvent::level(2, 1_200, Side::Ask, Px(65_010), Qty(3)),
        BookEvent::trade(3, 1_300, Side::Ask, Px(65_010), Qty(1)),
        BookEvent::level(4, 1_400, Side::Bid, Px(65_000), Qty(0)),
        BookEvent::level(5, 1_500, Side::Ask, Px(-7), Qty(9)),
    ]
}

fn write_bytes(events: &[BookEvent]) -> Vec<u8> {
    let mut buf = Vec::new();
    Corpus::write_to(&mut buf, events).expect("write_to");
    buf
}

#[test]
fn round_trip_field_equality() {
    let events = sample_events();
    let buf = write_bytes(&events);
    let loaded = Corpus::from_bytes(&buf).expect("from_bytes");
    assert!(slices_eq(loaded.events(), &events));
}

#[test]
fn empty_corpus_round_trips() {
    let buf = write_bytes(&[]);
    assert_eq!(buf.len(), HEADER_SIZE);
    let loaded = Corpus::from_bytes(&buf).expect("from_bytes");
    assert!(loaded.is_empty());
    assert_eq!(loaded.len(), 0);
}

#[test]
fn large_corpus_round_trips() {
    let n: usize = 1_000_000;
    let mut events = Vec::with_capacity(n);
    for i in 0..n {
        let v = i64::try_from(i).expect("fits i64");
        events.push(BookEvent::level(
            i as u64,
            (i as u64) * 10,
            if i % 2 == 0 { Side::Bid } else { Side::Ask },
            Px(65_000 + (v % 100)),
            Qty((v % 50) + 1),
        ));
    }
    let buf = write_bytes(&events);
    assert_eq!(buf.len(), HEADER_SIZE + n * RECORD_SIZE);
    let loaded = Corpus::from_bytes(&buf).expect("from_bytes");
    assert_eq!(loaded.len(), n);
    assert!(slices_eq(loaded.events(), &events));
}

#[test]
fn corpus_determinism_byte_identical() {
    let events = sample_events();
    assert_eq!(write_bytes(&events), write_bytes(&events));
}

#[test]
fn reject_bad_magic() {
    let mut buf = write_bytes(&sample_events());
    buf[0] = b'X';
    assert!(matches!(
        Corpus::from_bytes(&buf),
        Err(CorpusError::BadMagic)
    ));
}

#[test]
fn reject_bad_version() {
    let mut buf = write_bytes(&sample_events());
    buf[8..12].copy_from_slice(&999u32.to_le_bytes());
    assert!(matches!(
        Corpus::from_bytes(&buf),
        Err(CorpusError::UnsupportedVersion(999))
    ));
}

#[test]
fn reject_bad_record_size() {
    let mut buf = write_bytes(&sample_events());
    buf[12..16].copy_from_slice(&41u32.to_le_bytes());
    assert!(matches!(
        Corpus::from_bytes(&buf),
        Err(CorpusError::BadRecordSize(41))
    ));
}

#[test]
fn reject_truncated_tail() {
    let mut buf = write_bytes(&sample_events());
    buf.truncate(buf.len() - 7);
    assert!(matches!(
        Corpus::from_bytes(&buf),
        Err(CorpusError::Truncated { .. })
    ));
}

#[test]
fn reject_too_short_for_header() {
    let buf = [0u8; HEADER_SIZE - 1];
    assert!(matches!(
        Corpus::from_bytes(&buf),
        Err(CorpusError::Truncated { .. })
    ));
}

#[test]
fn reject_bad_side_discriminant() {
    let mut buf = write_bytes(&sample_events());
    let side_off = HEADER_SIZE + RECORD_SIZE + 32;
    buf[side_off] = 7;
    match Corpus::from_bytes(&buf) {
        Err(CorpusError::BadDiscriminant { record, field, byte }) => {
            assert_eq!((record, field, byte), (1, "side", 7));
        }
        other => panic!("expected BadDiscriminant, got {other:?}"),
    }
}

#[test]
fn reject_bad_kind_discriminant() {
    let mut buf = write_bytes(&sample_events());
    let kind_off = HEADER_SIZE + RECORD_SIZE + 33;
    buf[kind_off] = 9;
    match Corpus::from_bytes(&buf) {
        Err(CorpusError::BadDiscriminant { record, field, byte }) => {
            assert_eq!((record, field, byte), (1, "kind", 9));
        }
        other => panic!("expected BadDiscriminant, got {other:?}"),
    }
}

#[test]
fn pad_bytes_ignored_on_read() {
    let mut buf = write_bytes(&sample_events());
    for off in 34..40 {
        buf[HEADER_SIZE + off] = 0xFF;
    }
    let loaded = Corpus::from_bytes(&buf).expect("from_bytes");
    assert!(slices_eq(loaded.events(), &sample_events()));
}

#[test]
fn error_display_is_specific() {
    let e = CorpusError::BadDiscriminant {
        record: 1,
        field: "side",
        byte: 7,
    };
    assert!(e.message().contains("side"));
}
