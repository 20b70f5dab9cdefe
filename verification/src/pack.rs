//! Events as ring records: five words, whose discriminants are checked on the way
//! back.

use crate::event::{BookEvent, EventKind, Side};
use crate::price::{Px, Qty};
use vstd::prelude::*;

verus! {

/// Words in a record.
pub const W: usize = 5;

/// The code of a side.
pub open spec fn side_code(side: Side) -> u64 {
    match side {
        Side::Bid => 0,
        Side::Ask => 1,
    }
}

/// The code of an event kind.
pub open spec fn kind_code(kind: EventKind) -> u64 {
    match kind {
        EventKind::Level => 0,
        EventKind::Trade => 1,
        EventKind::Clear => 2,
    }
}

/// The words of an event: sequence number, time, price and quantity as bit
/// patterns, and the side in the low byte of the last word with the kind in the
/// byte above it.
pub open spec fn packed(ev: BookEvent) -> Seq<u64> {
    seq![
        ev.seq,
        ev.ts,
        ev.px.0 as u64,
        ev.qty.0 as u64,
        side_code(ev.side) | (kind_code(ev.kind) << 8u64),
    ]
}

/// The record of an event.
#[inline]
#[must_use]
pub fn pack(ev: &BookEvent) -> (rec: [u64; W])
    ensures
        rec@ == packed(*ev),
{
    let side: u64 = match ev.side {
        Side::Bid => 0,
        Side::Ask => 1,
    };
    let kind: u64 = match ev.kind {
        EventKind::Level => 0,
        EventKind::Trade => 1,
        EventKind::Clear => 2,
    };
    let rec: [u64; W] = [
        ev.seq,
        ev.ts,
        ev.px.ticks() as u64,
        ev.qty.lots() as u64,
        side | (kind << 8u64),
    ];
    assert(rec@ =~= packed(*ev));
    rec
}

/// Why a record is no event.
#[derive(Debug, Clone, Copy, PartialEq, Eq, Structural)]
pub enum UnpackError {
    /// The low byte is no side.
    BadSide(u64),
    /// The byte above it is no kind.
    BadKind(u64),
}

/// The event of a record, or what is wrong with it, the side first.
pub open spec fn unpacked(rec: Seq<u64>) -> Result<BookEvent, UnpackError> {
    let side = rec[4] & 0xFFu64;
    let kind = (rec[4] >> 8u64) & 0xFFu64;
    if side > 1 {
        Err(UnpackError::BadSide(side))
    } else if kind > 2 {
        Err(UnpackError::BadKind(kind))
    } else {
        Ok(
            BookEvent {
                seq: rec[0],
                ts: rec[1],
                px: Px(rec[2] as i64),
                qty: Qty(rec[3] as i64),
                side: if side == 0 { Side::Bid } else { Side::Ask },
                kind: if kind == 0 {
                    EventKind::Level
                } else if kind == 1 {
                    EventKind::Trade
                } else {
                    EventKind::Clear
                },
            },
        )
    }
}

/// The event of a record, or what is wrong with it.
pub fn unpack(rec: &[u64; W]) -> (r: Result<BookEvent, UnpackError>)
    ensures
        r == unpacked(rec@),
{
    let side = match rec[4] & 0xFFu64 {
        0 => Side::Bid,
        1 => Side::Ask,
        b => return Err(UnpackError::BadSide(b)),
    };
    let kind = match (rec[4] >> 8u64) & 0xFFu64 {
        0 => EventKind::Level,
        1 => EventKind::Trade,
        2 => EventKind::Clear,
        b => return Err(UnpackError::BadKind(b)),
    };
    Ok(
        BookEvent {
            seq: rec[0],
            ts: rec[1],
            px: Px(rec[2] as i64),
            qty: Qty(rec[3] as i64),
            side,
            kind,
        },
    )
}

/// Packing loses nothing: every event comes back from its record.
pub proof fn law_unpack_undoes_pack(ev: BookEvent)
    ensures
        unpacked(packed(ev)) == Ok::<BookEvent, UnpackError>(ev),
{
    let s = side_code(ev.side);
    let k = kind_code(ev.kind);
    assert((s | (k << 8u64)) & 0xFFu64 == s && ((s | (k << 8u64)) >> 8u64) & 0xFFu64 == k)
        by (bit_vector)
        requires
            s <= 1,
            k <= 2,
    ;
    let px = ev.px.0;
    let qty = ev.qty.0;
    assert((px as u64) as i64 == px) by (bit_vector);
    assert((qty as u64) as i64 == qty) by (bit_vector);
}

/// Two events with the same record are the same event.
pub proof fn law_pack_is_injective(a: BookEvent, b: BookEvent)
    requires
        packed(a) == packed(b),
    ensures
        a == b,
{
    law_unpack_undoes_pack(a);
    law_unpack_undoes_pack(b);
}

/// Where the parts of an event stand in its record: the sequence number, the time, the
/// price and the quantity in a word each, and in the last word the side in the lowest byte
/// and the kind in the byte above, with nothing else.
pub proof fn law_record_layout(ev: BookEvent)
    ensures
        ({
            let r = packed(ev);
            &&& r.len() == 5
            &&& r[0] == ev.seq
            &&& r[1] == ev.ts
            &&& r[2] == ev.px.0 as u64
            &&& r[3] == ev.qty.0 as u64
            &&& ev.side is Bid && ev.kind is Level ==> r[4] == 0
            &&& ev.side is Ask && ev.kind is Level ==> r[4] == 1
            &&& ev.side is Bid && ev.kind is Trade ==> r[4] == 256
            &&& ev.side is Ask && ev.kind is Trade ==> r[4] == 257
            &&& ev.side is Bid && ev.kind is Clear ==> r[4] == 512
            &&& ev.side is Ask && ev.kind is Clear ==> r[4] == 513
        }),
{
    assert(0u64 | (0u64 << 8u64) == 0) by (bit_vector);
    assert(1u64 | (0u64 << 8u64) == 1) by (bit_vector);
    assert(0u64 | (1u64 << 8u64) == 256) by (bit_vector);
    assert(1u64 | (1u64 << 8u64) == 257) by (bit_vector);
    assert(0u64 | (2u64 << 8u64) == 512) by (bit_vector);
    assert(1u64 | (2u64 << 8u64) == 513) by (bit_vector);
}

/// Which records are no events: those whose lowest byte of the last word is neither zero
/// nor one, and then those whose next byte is above two; the byte is named.
pub proof fn law_refused_records(rec: Seq<u64>, side: u64, kind: u64, rest: u64)
    requires
        rec.len() == 5,
        side < 256,
        kind < 256,
        rest < 0x1_0000_0000_0000,
        rec[4] == rest * 65_536 + kind * 256 + side,
    ensures
        side > 1 ==> unpacked(rec) == Err::<BookEvent, UnpackError>(UnpackError::BadSide(side)),
        side <= 1 && kind > 2 ==> unpacked(rec) == Err::<BookEvent, UnpackError>(
            UnpackError::BadKind(kind),
        ),
        side <= 1 && kind <= 2 ==> unpacked(rec) is Ok,
{
    let w = rec[4];
    assert(w & 0xFFu64 == side && (w >> 8u64) & 0xFFu64 == kind) by (bit_vector)
        requires
            side < 256,
            kind < 256,
            rest < 0x1_0000_0000_0000u64,
            w == rest * 65_536 + kind * 256 + side,
    ;
}

} // verus!
