//! Events as ring records.

use lob::event::{BookEvent, Side};
use lob::pack::{pack, unpack, UnpackError};
use lob::price::{Px, Qty};

fn events() -> Vec<BookEvent> {
    vec![
        BookEvent::level(0, 100, Side::Bid, Px(65_000), Qty(12)),
        BookEvent::level(1, 200, Side::Ask, Px(-7), Qty(0)),
        BookEvent::trade(2, 300, Side::Ask, Px(64_999), Qty(5)),
        BookEvent::trade(3, 400, Side::Bid, Px(65_001), Qty(1)),
        BookEvent::clear(4, 500),
        BookEvent::level(u64::MAX, u64::MAX, Side::Ask, Px(i64::MIN), Qty(i64::MAX)),
        BookEvent::level(6, 600, Side::Bid, Px(i64::MAX), Qty(i64::MIN)),
    ]
}

#[test]
fn round_trip_is_identity() {
    for ev in events() {
        let back = unpack(&pack(&ev)).expect("valid record unpacks");
        assert_eq!(back.seq, ev.seq);
        assert_eq!(back.ts, ev.ts);
        assert_eq!(back.px, ev.px);
        assert_eq!(back.qty, ev.qty);
        assert_eq!(back.side, ev.side);
        assert_eq!(back.kind, ev.kind);
    }
}

#[test]
fn bad_side_is_rejected() {
    let mut rec = pack(&BookEvent::clear(0, 0));
    rec[4] = (rec[4] & !0xFF) | 7;
    assert!(matches!(unpack(&rec), Err(UnpackError::BadSide(7))));
}

#[test]
fn bad_kind_is_rejected() {
    let mut rec = pack(&BookEvent::clear(0, 0));
    rec[4] = (rec[4] & 0xFF) | (9 << 8);
    assert!(matches!(unpack(&rec), Err(UnpackError::BadKind(9))));
}
