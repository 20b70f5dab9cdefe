//! The level-two event model: what a feed says about a book.

use crate::price::{Px, Qty};
use vstd::prelude::*;

verus! {

/// A side of the book.
#[derive(Clone, Copy, PartialEq, Eq, Structural, Hash, Debug)]
pub enum Side {
    /// Buy interest.
    Bid,
    /// Sell interest.
    Ask,
}

impl Side {
    /// The other side.
    #[inline]
    #[must_use]
    pub fn opposite(self) -> (r: Side)
        ensures
            r != self,
            r == (match self {
                Side::Bid => Side::Ask,
                Side::Ask => Side::Bid,
            }),
    {
        match self {
            Side::Bid => Side::Ask,
            Side::Ask => Side::Bid,
        }
    }
}

/// What an event does to a book.
///
/// `Level` sets the aggregate quantity at a price, zero removing the level.
/// `Trade` prints an execution and leaves the levels alone. `Clear` empties the
/// book.
#[derive(Clone, Copy, PartialEq, Eq, Structural, Debug)]
pub enum EventKind {
    /// Absolute quantity at one price.
    Level,
    /// An execution print.
    Trade,
    /// Reset to the empty book.
    Clear,
}

/// One feed event. `side` is the aggressor for a trade; a clear carries no
/// meaningful price, quantity or side.
#[derive(Clone, Copy, PartialEq, Eq, Structural, Debug)]
pub struct BookEvent {
    /// Position in the feed.
    pub seq: u64,
    /// Exchange time in nanoseconds.
    pub ts: u64,
    /// Price.
    pub px: Px,
    /// Quantity.
    pub qty: Qty,
    /// Side of the level, or aggressor of the trade.
    pub side: Side,
    /// Kind of event.
    pub kind: EventKind,
}

impl BookEvent {
    /// A level update; a zero quantity removes the level.
    #[inline]
    #[must_use]
    pub fn level(seq: u64, ts: u64, side: Side, px: Px, qty: Qty) -> (e: Self)
        ensures
            e == (BookEvent { seq, ts, px, qty, side, kind: EventKind::Level }),
    {
        BookEvent { seq, ts, px, qty, side, kind: EventKind::Level }
    }

    /// An execution print; `aggressor` is the taker side.
    #[inline]
    #[must_use]
    pub fn trade(seq: u64, ts: u64, aggressor: Side, px: Px, qty: Qty) -> (e: Self)
        ensures
            e == (BookEvent { seq, ts, px, qty, side: aggressor, kind: EventKind::Trade }),
    {
        BookEvent { seq, ts, px, qty, side: aggressor, kind: EventKind::Trade }
    }

    /// A reset of the book, with neutral price, quantity and side.
    #[inline]
    #[must_use]
    pub fn clear(seq: u64, ts: u64) -> (e: Self)
        ensures
            e == (BookEvent {
                seq,
                ts,
                px: Px(0),
                qty: Qty(0),
                side: Side::Bid,
                kind: EventKind::Clear,
            }),
    {
        BookEvent { seq, ts, px: Px::zero(), qty: Qty::zero(), side: Side::Bid, kind: EventKind::Clear }
    }
}

} // verus!
