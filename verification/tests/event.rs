//! Events and their constructors.

use lob::event::{BookEvent, EventKind, Side};
use lob::price::{Px, Qty};

use core::mem::{align_of, size_of};

#[test]
fn book_event_layout_is_locked() {
    assert_eq!(size_of::<BookEvent>(), 40);
    assert_eq!(align_of::<BookEvent>(), 8);
}

#[test]
fn side_opposite() {
    assert_eq!(Side::Bid.opposite(), Side::Ask);
    assert_eq!(Side::Ask.opposite(), Side::Bid);
}

#[test]
fn constructors_set_kind_and_fields() {
    let l = BookEvent::level(1, 10, Side::Bid, Px(100), Qty(5));
    assert_eq!(l.kind, EventKind::Level);
    assert_eq!((l.side, l.px, l.qty), (Side::Bid, Px(100), Qty(5)));

    let t = BookEvent::trade(2, 20, Side::Ask, Px(101), Qty(2));
    assert_eq!(t.kind, EventKind::Trade);
    assert_eq!(t.side, Side::Ask);

    let c = BookEvent::clear(3, 30);
    assert_eq!(c.kind, EventKind::Clear);
}
