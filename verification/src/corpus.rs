//! The corpus: events in a flat binary file, and their validated replay.
//!
//! A corpus is a header of 32 bytes and a record of 40 bytes for each event, all
//! little-endian. The header holds a magic number, the format version, the record
//! size, the number of records and a reserved word; a record holds sequence
//! number, timestamp, price, quantity, a side byte, a kind byte and padding.

use crate::event::{BookEvent, EventKind, Side};
use crate::price::{Px, Qty};
use crate::text::{decimal, push_decimal};
use vstd::bytes::{
    lemma_auto_spec_u32_to_from_le_bytes, lemma_auto_spec_u64_to_from_le_bytes,
    spec_u32_from_le_bytes, spec_u32_to_le_bytes, spec_u64_from_le_bytes, spec_u64_to_le_bytes,
    u32_from_le_bytes, u32_to_le_bytes, u64_from_le_bytes, u64_to_le_bytes,
};
use vstd::prelude::*;
use vstd::slice::slice_subrange;

verus! {

/// The first bytes of every corpus.
pub const MAGIC: [u8; 8] = [77, 68, 70, 69, 69, 68, 0, 0];

/// The format version.
pub const VERSION: u32 = 1;

/// Bytes in a record.
pub const RECORD_SIZE: usize = 40;

/// Bytes in the header.
pub const HEADER_SIZE: usize = 32;

/// What is wrong with a corpus.
#[derive(Debug)]
pub enum CorpusError {
    /// The magic number is missing.
    BadMagic,
    /// The version is another one.
    UnsupportedVersion(u32),
    /// The record size is another one.
    BadRecordSize(u32),
    /// The number of bytes is not the one that was announced.
    Truncated {
        /// Bytes announced.
        expected: u64,
        /// Bytes present.
        found: u64,
    },
    /// A side or kind byte stands for nothing.
    BadDiscriminant {
        /// Index of the record.
        record: u64,
        /// `"side"` or `"kind"`.
        field: &'static str,
        /// The byte.
        byte: u8,
    },
}

impl CorpusError {
    /// The text of the error.
    pub open spec fn text(self) -> Seq<char> {
        match self {
            CorpusError::BadMagic => "bad magic: not an MDFEED corpus"@,
            CorpusError::UnsupportedVersion(v) => "unsupported corpus version "@ + decimal(
                v as nat,
            ) + " (expected 1)"@,
            CorpusError::BadRecordSize(s) => "bad record_size "@ + decimal(s as nat)
                + " (expected 40)"@,
            CorpusError::Truncated { expected, found } => "truncated corpus: header declares "@
                + decimal(expected as nat) + " payload bytes, found "@ + decimal(found as nat),
            CorpusError::BadDiscriminant { record, field, byte } => "bad "@ + field@
                + " discriminant "@ + decimal(byte as nat) + " in record "@ + decimal(
                record as nat,
            ),
        }
    }

    /// A description of the error for people.
    #[must_use]
    pub fn message(&self) -> (s: String)
        ensures
            s@ == self.text(),
    {
        let mut s = String::new();
        match self {
            CorpusError::BadMagic => {
                s.append("bad magic: not an MDFEED corpus");
            },
            CorpusError::UnsupportedVersion(v) => {
                s.append("unsupported corpus version ");
                push_decimal(&mut s, *v as u64);
                s.append(" (expected 1)");
            },
            CorpusError::BadRecordSize(size) => {
                s.append("bad record_size ");
                push_decimal(&mut s, *size as u64);
                s.append(" (expected 40)");
            },
            CorpusError::Truncated { expected, found } => {
                s.append("truncated corpus: header declares ");
                push_decimal(&mut s, *expected);
                s.append(" payload bytes, found ");
                push_decimal(&mut s, *found);
            },
            CorpusError::BadDiscriminant { record, field, byte } => {
                s.append("bad ");
                s.append(field);
                s.append(" discriminant ");
                push_decimal(&mut s, *byte as u64);
                s.append(" in record ");
                push_decimal(&mut s, *record);
            },
        }
        assert(s@ =~= self.text());
        s
    }
}

/// The byte of a side.
pub open spec fn side_byte(side: Side) -> u8 {
    match side {
        Side::Bid => 0,
        Side::Ask => 1,
    }
}

/// The byte of an event kind.
pub open spec fn kind_byte(kind: EventKind) -> u8 {
    match kind {
        EventKind::Level => 0,
        EventKind::Trade => 1,
        EventKind::Clear => 2,
    }
}

/// The record of an event.
pub open spec fn record_of(e: BookEvent) -> Seq<u8> {
    spec_u64_to_le_bytes(e.seq) + spec_u64_to_le_bytes(e.ts) + spec_u64_to_le_bytes(e.px.0 as u64)
        + spec_u64_to_le_bytes(e.qty.0 as u64) + seq![side_byte(e.side), kind_byte(e.kind)]
        + seq![0u8, 0u8, 0u8, 0u8, 0u8, 0u8]
}

/// The header of a corpus of `count` events.
pub open spec fn header_of(count: u64) -> Seq<u8> {
    MAGIC@ + spec_u32_to_le_bytes(VERSION) + spec_u32_to_le_bytes(RECORD_SIZE as u32)
        + spec_u64_to_le_bytes(count) + spec_u64_to_le_bytes(0)
}

/// The records of all events.
pub open spec fn records_of(events: Seq<BookEvent>) -> Seq<u8>
    decreases events.len(),
{
    if events.len() == 0 {
        Seq::empty()
    } else {
        records_of(events.drop_last()) + record_of(events.last())
    }
}

/// The bytes of a corpus.
pub open spec fn encode(events: Seq<BookEvent>) -> Seq<u8> {
    header_of(events.len() as u64) + records_of(events)
}

/// An event with what a clear does not carry set to neutral values.
pub open spec fn normalise(e: BookEvent) -> BookEvent {
    match e.kind {
        EventKind::Clear => BookEvent { px: Px(0), qty: Qty(0), side: Side::Bid, ..e },
        _ => e,
    }
}

/// The event of a record, or the first discriminant in it that stands for nothing.
pub open spec fn decode_record(rec: Seq<u8>, idx: u64) -> Result<BookEvent, CorpusError> {
    if rec[32] > 1 {
        Err(CorpusError::BadDiscriminant { record: idx, field: "side", byte: rec[32] })
    } else if rec[33] > 2 {
        Err(CorpusError::BadDiscriminant { record: idx, field: "kind", byte: rec[33] })
    } else {
        Ok(
            normalise(
                BookEvent {
                    seq: spec_u64_from_le_bytes(rec.subrange(0, 8)),
                    ts: spec_u64_from_le_bytes(rec.subrange(8, 16)),
                    px: Px(spec_u64_from_le_bytes(rec.subrange(16, 24)) as i64),
                    qty: Qty(spec_u64_from_le_bytes(rec.subrange(24, 32)) as i64),
                    side: if rec[32] == 0 { Side::Bid } else { Side::Ask },
                    kind: if rec[33] == 0 {
                        EventKind::Level
                    } else if rec[33] == 1 {
                        EventKind::Trade
                    } else {
                        EventKind::Clear
                    },
                },
            ),
        )
    }
}

/// The events of the first `n` records, or the first error among them.
pub open spec fn decode_records(payload: Seq<u8>, n: nat) -> Result<Seq<BookEvent>, CorpusError>
    decreases n,
{
    if n == 0 {
        Ok(Seq::empty())
    } else {
        let m = (n - 1) as nat;
        match decode_records(payload, m) {
            Err(e) => Err(e),
            Ok(s) => match decode_record(
                payload.subrange(m * RECORD_SIZE, n * RECORD_SIZE),
                m as u64,
            ) {
                Err(e) => Err(e),
                Ok(ev) => Ok(s.push(ev)),
            },
        }
    }
}

/// The events of a corpus, or what is wrong with it: header before payload,
/// length before contents, and the first bad record before later ones.
pub open spec fn decode(buf: Seq<u8>) -> Result<Seq<BookEvent>, CorpusError> {
    let version = spec_u32_from_le_bytes(buf.subrange(8, 12));
    let record_size = spec_u32_from_le_bytes(buf.subrange(12, 16));
    let count = spec_u64_from_le_bytes(buf.subrange(16, 24));
    let payload = buf.skip(HEADER_SIZE as int);
    if buf.len() < HEADER_SIZE {
        Err(CorpusError::Truncated { expected: HEADER_SIZE as u64, found: buf.len() as u64 })
    } else if buf.take(8) != MAGIC@ {
        Err(CorpusError::BadMagic)
    } else if version != VERSION {
        Err(CorpusError::UnsupportedVersion(version))
    } else if record_size != RECORD_SIZE {
        Err(CorpusError::BadRecordSize(record_size))
    } else if count * RECORD_SIZE > u64::MAX {
        Err(CorpusError::Truncated { expected: u64::MAX, found: payload.len() as u64 })
    } else if payload.len() != count * RECORD_SIZE {
        Err(
            CorpusError::Truncated {
                expected: (count * RECORD_SIZE) as u64,
                found: payload.len() as u64,
            },
        )
    } else {
        decode_records(payload, count as nat)
    }
}

/// A corpus in memory.
#[derive(Debug)]
pub struct Corpus {
    events: Vec<BookEvent>,
}

impl View for Corpus {
    type V = Seq<BookEvent>;

    closed spec fn view(&self) -> Seq<BookEvent> {
        self.events@
    }
}

impl Default for Corpus {
    fn default() -> (c: Self)
        ensures
            c@ == Seq::<BookEvent>::empty(),
    {
        Corpus { events: Vec::new() }
    }
}

/// The side of a byte.
pub fn side_from_u8(b: u8, rec: u64) -> (r: Result<Side, CorpusError>)
    ensures
        r == (if b == 0 {
            Ok(Side::Bid)
        } else if b == 1 {
            Ok(Side::Ask)
        } else {
            Err(CorpusError::BadDiscriminant { record: rec, field: "side", byte: b })
        }),
{
    match b {
        0 => Ok(Side::Bid),
        1 => Ok(Side::Ask),
        _ => Err(CorpusError::BadDiscriminant { record: rec, field: "side", byte: b }),
    }
}

/// The event kind of a byte.
pub fn kind_from_u8(b: u8, rec: u64) -> (r: Result<EventKind, CorpusError>)
    ensures
        r == (if b == 0 {
            Ok(EventKind::Level)
        } else if b == 1 {
            Ok(EventKind::Trade)
        } else if b == 2 {
            Ok(EventKind::Clear)
        } else {
            Err(CorpusError::BadDiscriminant { record: rec, field: "kind", byte: b })
        }),
{
    match b {
        0 => Ok(EventKind::Level),
        1 => Ok(EventKind::Trade),
        2 => Ok(EventKind::Clear),
        _ => Err(CorpusError::BadDiscriminant { record: rec, field: "kind", byte: b }),
    }
}

/// An event of the given parts; a clear keeps only its sequence number and time.
pub fn event_from_parts(
    seq: u64,
    ts: u64,
    side: Side,
    px: Px,
    qty: Qty,
    kind: EventKind,
) -> (e: BookEvent)
    ensures
        e == normalise(BookEvent { seq, ts, px, qty, side, kind }),
{
    match kind {
        EventKind::Level => BookEvent::level(seq, ts, side, px, qty),
        EventKind::Trade => BookEvent::trade(seq, ts, side, px, qty),
        EventKind::Clear => BookEvent::clear(seq, ts),
    }
}

/// Reads one record.
fn read_record(rec: &[u8], idx: u64) -> (r: Result<BookEvent, CorpusError>)
    requires
        rec@.len() == RECORD_SIZE,
    ensures
        r == decode_record(rec@, idx),
{
    let seq: u64 = u64_from_le_bytes(slice_subrange(rec, 0, 8));
    let ts: u64 = u64_from_le_bytes(slice_subrange(rec, 8, 16));
    let px = Px(u64_from_le_bytes(slice_subrange(rec, 16, 24)) as i64);
    let qty = Qty(u64_from_le_bytes(slice_subrange(rec, 24, 32)) as i64);
    let side = match side_from_u8(rec[32], idx) {
        Ok(side) => side,
        Err(e) => return Err(e),
    };
    let kind = match kind_from_u8(rec[33], idx) {
        Ok(kind) => kind,
        Err(e) => return Err(e),
    };
    Ok(event_from_parts(seq, ts, side, px, qty, kind))
}

/// Whether the first eight bytes are the magic number.
fn has_magic(buf: &[u8]) -> (b: bool)
    requires
        buf@.len() >= 8,
    ensures
        b == (buf@.take(8) == MAGIC@),
{
    let mut i: usize = 0;
    while i < 8
        invariant
            i <= 8,
            buf@.len() >= 8,
            forall|k: int| 0 <= k < i ==> buf@[k] == MAGIC@[k],
        decreases 8 - i,
    {
        if buf[i] != MAGIC[i] {
            assert(buf@.take(8)[i as int] != MAGIC@[i as int]);
            return false;
        }
        i += 1;
    }
    assert(buf@.take(8) =~= MAGIC@);
    true
}

impl Corpus {
    /// A corpus of events that are in memory already.
    #[must_use]
    pub fn from_events(events: Vec<BookEvent>) -> (c: Self)
        ensures
            c@ == events@,
    {
        Corpus { events }
    }

    /// Validates the bytes of a corpus and reads its events.
    pub fn from_bytes(buf: &[u8]) -> (r: Result<Self, CorpusError>)
        ensures
            match r {
                Ok(c) => decode(buf@) == Ok::<Seq<BookEvent>, CorpusError>(c@),
                Err(e) => decode(buf@) == Err::<Seq<BookEvent>, CorpusError>(e),
            },
    {
        if buf.len() < HEADER_SIZE {
            return Err(
                CorpusError::Truncated { expected: HEADER_SIZE as u64, found: buf.len() as u64 },
            );
        }
        if !has_magic(buf) {
            return Err(CorpusError::BadMagic);
        }
        let version: u32 = u32_from_le_bytes(slice_subrange(buf, 8, 12));
        if version != VERSION {
            return Err(CorpusError::UnsupportedVersion(version));
        }
        let record_size: u32 = u32_from_le_bytes(slice_subrange(buf, 12, 16));
        if record_size as usize != RECORD_SIZE {
            return Err(CorpusError::BadRecordSize(record_size));
        }
        let count: u64 = u64_from_le_bytes(slice_subrange(buf, 16, 24));
        let payload = slice_subrange(buf, HEADER_SIZE, buf.len());
        assert(payload@ =~= buf@.skip(HEADER_SIZE as int));
        let expected: u64 = match count.checked_mul(RECORD_SIZE as u64) {
            Some(n) => n,
            None => {
                return Err(
                    CorpusError::Truncated { expected: u64::MAX, found: payload.len() as u64 },
                );
            },
        };
        if payload.len() as u64 != expected {
            return Err(CorpusError::Truncated { expected, found: payload.len() as u64 });
        }
        let total: usize = payload.len() / RECORD_SIZE;
        let mut events: Vec<BookEvent> = Vec::with_capacity(total);
        let mut i: usize = 0;
        while i < total
            invariant
                i <= total,
                total == count,
                payload@.len() == count * RECORD_SIZE,
                count * RECORD_SIZE <= usize::MAX,
                payload@ == buf@.skip(HEADER_SIZE as int),
                decode(buf@) == decode_records(payload@, count as nat),
                decode_records(payload@, i as nat) == Ok::<Seq<BookEvent>, CorpusError>(events@),
            decreases total - i,
        {
            let rec = slice_subrange(payload, i * RECORD_SIZE, i * RECORD_SIZE + RECORD_SIZE);
            match read_record(rec, i as u64) {
                Ok(ev) => events.push(ev),
                Err(e) => {
                    proof {
                        lemma_error_sticks(payload@, (i + 1) as nat, count as nat);
                    }
                    return Err(e);
                },
            }
            i += 1;
        }
        Ok(Corpus { events })
    }

    /// Appends the bytes of a corpus of `events` to `w`.
    pub fn write_to(w: &mut Vec<u8>, events: &[BookEvent]) -> (r: Result<(), CorpusError>)
        ensures
            r is Ok,
            final(w)@ == old(w)@ + encode(events@),
    {
        let ghost start = w@;
        let mut magic: Vec<u8> = slice_to_vec_u8(&MAGIC);
        w.append(&mut magic);
        w.append(&mut u32_to_le_bytes(VERSION));
        w.append(&mut u32_to_le_bytes(RECORD_SIZE as u32));
        w.append(&mut u64_to_le_bytes(events.len() as u64));
        w.append(&mut u64_to_le_bytes(0));
        assert(w@ =~= start + header_of(events@.len() as u64) + records_of(events@.take(0)));
        let mut i: usize = 0;
        while i < events.len()
            invariant
                i <= events@.len(),
                w@ == start + header_of(events@.len() as u64) + records_of(events@.take(i as int)),
            decreases events@.len() - i,
        {
            let ghost before = w@;
            write_record(w, &events[i]);
            proof {
                let next = events@.take(i + 1);
                assert(next.drop_last() =~= events@.take(i as int));
                assert(w@ =~= start + header_of(events@.len() as u64) + records_of(next));
            }
            i += 1;
        }
        assert(events@.take(i as int) =~= events@);
        assert(w@ =~= start + encode(events@));
        Ok(())
    }

    /// The events, in order.
    #[must_use]
    pub fn events(&self) -> (s: &[BookEvent])
        ensures
            s@ == self@,
    {
        self.events.as_slice()
    }

    /// The number of events.
    #[must_use]
    pub fn len(&self) -> (n: usize)
        ensures
            n == self@.len(),
    {
        self.events.len()
    }

    /// Whether there are no events.
    #[must_use]
    pub fn is_empty(&self) -> (b: bool)
        ensures
            b == (self@.len() == 0),
    {
        self.events.len() == 0
    }

    /// Walks the events in order.
    pub fn iter(&self) -> (it: std::slice::Iter<'_, BookEvent>)
        ensures
            vstd::std_specs::iter::IteratorSpec::remaining(&it).unref() == self@,
    {
        self.events.iter()
    }
}

/// A copy of a slice of bytes.
fn slice_to_vec_u8(s: &[u8]) -> (v: Vec<u8>)
    ensures
        v@ == s@,
{
    vstd::slice::slice_to_vec(s)
}

/// Appends one record.
fn write_record(w: &mut Vec<u8>, e: &BookEvent)
    ensures
        final(w)@ == old(w)@ + record_of(*e),
{
    let ghost start = w@;
    w.append(&mut u64_to_le_bytes(e.seq));
    w.append(&mut u64_to_le_bytes(e.ts));
    w.append(&mut u64_to_le_bytes(e.px.ticks() as u64));
    w.append(&mut u64_to_le_bytes(e.qty.lots() as u64));
    w.push(
        match e.side {
            Side::Bid => 0,
            Side::Ask => 1,
        },
    );
    w.push(
        match e.kind {
            EventKind::Level => 0,
            EventKind::Trade => 1,
            EventKind::Clear => 2,
        },
    );
    w.push(0);
    w.push(0);
    w.push(0);
    w.push(0);
    w.push(0);
    w.push(0);
    assert(w@ =~= start + record_of(*e));
}

/// Once a record is bad, more records do not change the outcome.
proof fn lemma_error_sticks(payload: Seq<u8>, m: nat, n: nat)
    requires
        m <= n,
        decode_records(payload, m) is Err,
    ensures
        decode_records(payload, n) == decode_records(payload, m),
    decreases n - m,
{
    if m < n {
        lemma_error_sticks(payload, m, (n - 1) as nat);
    }
}

/// A record and the records before it have the sizes that the format gives them.
proof fn lemma_records_len(events: Seq<BookEvent>)
    ensures
        records_of(events).len() == events.len() * RECORD_SIZE,
    decreases events.len(),
{
    lemma_auto_spec_u64_to_from_le_bytes();
    if events.len() > 0 {
        lemma_records_len(events.drop_last());
    }
}

/// What is written of one event is read back, but for what a clear does not
/// carry.
proof fn lemma_record_round_trip(e: BookEvent, idx: u64)
    ensures
        record_of(e).len() == RECORD_SIZE,
        decode_record(record_of(e), idx) == Ok::<BookEvent, CorpusError>(normalise(e)),
{
    lemma_auto_spec_u64_to_from_le_bytes();
    let r = record_of(e);
    let px = e.px.0;
    let qty = e.qty.0;
    assert((px as u64) as i64 == px) by (bit_vector);
    assert((qty as u64) as i64 == qty) by (bit_vector);
    assert(r.subrange(0, 8) =~= spec_u64_to_le_bytes(e.seq));
    assert(r.subrange(8, 16) =~= spec_u64_to_le_bytes(e.ts));
    assert(r.subrange(16, 24) =~= spec_u64_to_le_bytes(e.px.0 as u64));
    assert(r.subrange(24, 32) =~= spec_u64_to_le_bytes(e.qty.0 as u64));
    assert(r[32] == side_byte(e.side) && r[33] == kind_byte(e.kind));
}

/// What is written of a run of events is read back.
proof fn lemma_records_round_trip(events: Seq<BookEvent>, payload: Seq<u8>)
    requires
        records_of(events).is_prefix_of(payload),
        events.len() <= u64::MAX,
    ensures
        decode_records(payload, events.len()) == Ok::<Seq<BookEvent>, CorpusError>(
            events.map_values(|e: BookEvent| normalise(e)),
        ),
    decreases events.len(),
{
    let norm = |e: BookEvent| normalise(e);
    if events.len() == 0 {
        assert(events.map_values(norm) =~= Seq::empty());
    } else {
        let init = events.drop_last();
        let m = init.len();
        lemma_records_len(init);
        lemma_records_len(events);
        assert(records_of(init).is_prefix_of(payload)) by {
            assert(records_of(init) =~= payload.take(records_of(init).len() as int)) by {
                assert(records_of(events) =~= payload.take(records_of(events).len() as int));
                assert forall|k: int| 0 <= k < records_of(init).len() implies records_of(init)[k]
                    == payload[k] by {
                    assert(records_of(events)[k] == payload[k]);
                }
            }
        }
        lemma_records_round_trip(init, payload);
        lemma_record_round_trip(events.last(), m as u64);
        let rec = payload.subrange(m * RECORD_SIZE, events.len() * RECORD_SIZE);
        assert(rec =~= record_of(events.last())) by {
            assert forall|k: int| 0 <= k < RECORD_SIZE implies rec[k] == record_of(
                events.last(),
            )[k] by {
                assert(records_of(events)[m * RECORD_SIZE + k] == payload[m * RECORD_SIZE + k]);
            }
        }
        assert(init.map_values(norm).push(norm(events.last())) =~= events.map_values(norm));
    }
}

/// What is written is read back: encoding a run of events and decoding the bytes
/// gives the same events, clears keeping only what they carry.
pub proof fn law_round_trip(events: Seq<BookEvent>)
    requires
        HEADER_SIZE + events.len() * RECORD_SIZE <= u64::MAX,
    ensures
        decode(encode(events)) == Ok::<Seq<BookEvent>, CorpusError>(
            events.map_values(|e: BookEvent| normalise(e)),
        ),
{
    lemma_auto_spec_u32_to_from_le_bytes();
    lemma_auto_spec_u64_to_from_le_bytes();
    lemma_records_len(events);
    let buf = encode(events);
    let payload = buf.skip(HEADER_SIZE as int);
    assert(payload =~= records_of(events));
    assert(buf.take(8) =~= MAGIC@);
    assert(buf.subrange(8, 12) =~= spec_u32_to_le_bytes(VERSION));
    assert(buf.subrange(12, 16) =~= spec_u32_to_le_bytes(RECORD_SIZE as u32));
    assert(buf.subrange(16, 24) =~= spec_u64_to_le_bytes(events.len() as u64));
    assert(records_of(events).is_prefix_of(payload));
    lemma_records_round_trip(events, payload);
}

/// Events that the constructors made are read back as they are.
pub proof fn law_round_trip_exact(events: Seq<BookEvent>)
    requires
        HEADER_SIZE + events.len() * RECORD_SIZE <= u64::MAX,
        forall|i: int| 0 <= i < events.len() ==> normalise(#[trigger] events[i]) == events[i],
    ensures
        decode(encode(events)) == Ok::<Seq<BookEvent>, CorpusError>(events),
{
    law_round_trip(events);
    assert(events.map_values(|e: BookEvent| normalise(e)) =~= events);
}

/// The size of a corpus is fixed by the number of its events.
pub proof fn law_encoded_size(events: Seq<BookEvent>)
    ensures
        encode(events).len() == HEADER_SIZE + events.len() * RECORD_SIZE,
{
    lemma_auto_spec_u32_to_from_le_bytes();
    lemma_auto_spec_u64_to_from_le_bytes();
    lemma_records_len(events);
}

/// Whether two buffers agree wherever the format gives a byte a meaning: not in
/// the reserved word of the header, not in the padding of a record.
pub open spec fn same_but_reserved(a: Seq<u8>, b: Seq<u8>) -> bool {
    &&& a.len() == b.len()
    &&& forall|i: int|
        #![trigger a[i]]
        #![trigger b[i]]
        0 <= i < a.len() && !(24 <= i < 32) && !(i >= HEADER_SIZE && (i - HEADER_SIZE) % 40 >= 34)
            ==> a[i] == b[i]
}

proof fn lemma_records_ignore_padding(a: Seq<u8>, b: Seq<u8>, n: nat)
    requires
        a.len() == b.len(),
        n * RECORD_SIZE <= a.len(),
        forall|i: int| #![trigger a[i]] #![trigger b[i]] 0 <= i < a.len() && i % 40 < 34 ==> a[i] == b[i],
    ensures
        decode_records(a, n) == decode_records(b, n),
    decreases n,
{
    if n > 0 {
        let m = (n - 1) as nat;
        lemma_records_ignore_padding(a, b, m);
        let ra = a.subrange(m * RECORD_SIZE, n * RECORD_SIZE);
        let rb = b.subrange(m * RECORD_SIZE, n * RECORD_SIZE);
        assert forall|k: int| 0 <= k < 34 implies #[trigger] ra[k] == rb[k] by {
            assert((m * 40 + k) % 40 == k) by (nonlinear_arith)
                requires
                    0 <= k < 40,
                    m >= 0,
            ;
            assert(a[m * RECORD_SIZE + k] == b[m * RECORD_SIZE + k]);
        }
        assert(ra.subrange(0, 8) =~= rb.subrange(0, 8));
        assert(ra.subrange(8, 16) =~= rb.subrange(8, 16));
        assert(ra.subrange(16, 24) =~= rb.subrange(16, 24));
        assert(ra.subrange(24, 32) =~= rb.subrange(24, 32));
    }
}

/// Reserved and padding bytes have no effect on what is read.
pub proof fn law_reserved_bytes_ignored(a: Seq<u8>, b: Seq<u8>)
    requires
        same_but_reserved(a, b),
    ensures
        decode(a) == decode(b),
{
    if a.len() >= HEADER_SIZE {
        assert(a.take(8) =~= b.take(8));
        assert(a.subrange(8, 12) =~= b.subrange(8, 12));
        assert(a.subrange(12, 16) =~= b.subrange(12, 16));
        assert(a.subrange(16, 24) =~= b.subrange(16, 24));
        let pa = a.skip(HEADER_SIZE as int);
        let pb = b.skip(HEADER_SIZE as int);
        let count = spec_u64_from_le_bytes(a.subrange(16, 24));
        assert forall|i: int| #![trigger pa[i]] #![trigger pb[i]] 0 <= i < pa.len() && i % 40 < 34 implies pa[i]
            == pb[i] by {
            assert(a[i + HEADER_SIZE] == b[i + HEADER_SIZE]);
        }
        if count * RECORD_SIZE == pa.len() {
            lemma_records_ignore_padding(pa, pb, count as nat);
        }
    }
}

/// Where each byte of a record stands: the sequence number, the time, the price and the
/// quantity in eight bytes each, the lowest first; then a byte for the side, zero for a bid
/// and one for an ask; a byte for the kind, zero for a level, one for a trade and two for a
/// clear; and six zeros.
pub proof fn law_record_layout(e: BookEvent, i: int)
    ensures
        ({
            let r = record_of(e);
            &&& r.len() == 40
            &&& spec_u64_from_le_bytes(r.subrange(0, 8)) == e.seq
            &&& spec_u64_from_le_bytes(r.subrange(8, 16)) == e.ts
            &&& spec_u64_from_le_bytes(r.subrange(16, 24)) == e.px.0 as u64
            &&& spec_u64_from_le_bytes(r.subrange(24, 32)) == e.qty.0 as u64
            &&& e.side is Bid ==> r[32] == 0
            &&& e.side is Ask ==> r[32] == 1
            &&& e.kind is Level ==> r[33] == 0
            &&& e.kind is Trade ==> r[33] == 1
            &&& e.kind is Clear ==> r[33] == 2
            &&& 34 <= i < 40 ==> r[i] == 0
        }),
{
    lemma_auto_spec_u64_to_from_le_bytes();
    let r = record_of(e);
    assert(r.subrange(0, 8) =~= spec_u64_to_le_bytes(e.seq));
    assert(r.subrange(8, 16) =~= spec_u64_to_le_bytes(e.ts));
    assert(r.subrange(16, 24) =~= spec_u64_to_le_bytes(e.px.0 as u64));
    assert(r.subrange(24, 32) =~= spec_u64_to_le_bytes(e.qty.0 as u64));
}

/// Where each byte of a corpus stands: the magic number "MDFEED" and two zeros, the version
/// one and the record size forty in four bytes each, the number of events and a zero in
/// eight bytes each, and then the records, one after the other.
pub proof fn law_corpus_layout(events: Seq<BookEvent>, k: int)
    requires
        events.len() <= u64::MAX,
        0 <= k < events.len(),
    ensures
        ({
            let b = encode(events);
            &&& b.len() == 32 + 40 * events.len()
            &&& b.take(8) == seq![77u8, 68u8, 70u8, 69u8, 69u8, 68u8, 0u8, 0u8]
            &&& spec_u32_from_le_bytes(b.subrange(8, 12)) == 1
            &&& spec_u32_from_le_bytes(b.subrange(12, 16)) == 40
            &&& spec_u64_from_le_bytes(b.subrange(16, 24)) == events.len()
            &&& spec_u64_from_le_bytes(b.subrange(24, 32)) == 0
            &&& b.subrange(32 + 40 * k, 72 + 40 * k) == record_of(events[k])
        }),
{
    lemma_auto_spec_u32_to_from_le_bytes();
    lemma_auto_spec_u64_to_from_le_bytes();
    lemma_records_len(events);
    let b = encode(events);
    assert(b.take(8) =~= MAGIC@);
    assert(MAGIC@ =~= seq![77u8, 68u8, 70u8, 69u8, 69u8, 68u8, 0u8, 0u8]);
    assert(b.subrange(8, 12) =~= spec_u32_to_le_bytes(VERSION));
    assert(b.subrange(12, 16) =~= spec_u32_to_le_bytes(RECORD_SIZE as u32));
    assert(b.subrange(16, 24) =~= spec_u64_to_le_bytes(events.len() as u64));
    assert(b.subrange(24, 32) =~= spec_u64_to_le_bytes(0));
    lemma_record_at(events, k);
    assert(b.subrange(32 + 40 * k, 72 + 40 * k) =~= records_of(events).subrange(40 * k, 40 * k + 40));
}

proof fn lemma_record_at(events: Seq<BookEvent>, k: int)
    requires
        0 <= k < events.len(),
    ensures
        records_of(events).len() == 40 * events.len(),
        records_of(events).subrange(40 * k, 40 * k + 40) == record_of(events[k]),
    decreases events.len(),
{
    lemma_records_len(events);
    lemma_records_len(events.drop_last());
    law_record_layout(events.last(), 0);
    let front = records_of(events.drop_last());
    if k < events.len() - 1 {
        lemma_record_at(events.drop_last(), k);
        assert(records_of(events).subrange(40 * k, 40 * k + 40) =~= front.subrange(
            40 * k,
            40 * k + 40,
        ));
    } else {
        assert(records_of(events).subrange(40 * k, 40 * k + 40) =~= record_of(events.last()));
    }
}

/// What a clear does not carry is neutral once it was read, and nothing else is touched.
pub proof fn law_only_clears_are_made_neutral(e: BookEvent)
    ensures
        !(e.kind is Clear) ==> normalise(e) == e,
        e.kind is Clear ==> {
            let n = normalise(e);
            &&& n.kind is Clear
            &&& n.seq == e.seq
            &&& n.ts == e.ts
            &&& n.px.0 == 0
            &&& n.qty.0 == 0
            &&& n.side is Bid
        },
{
}

/// Which buffers are refused, and why: one that is shorter than a header; one that does not
/// begin with the magic number; one of another version than one; one with another record
/// size than forty; one whose length is not that of the records that it announces. Of
/// several faults the first in this order is named.
pub proof fn law_refused_headers(b: Seq<u8>)
    requires
        b.len() <= u64::MAX,
    ensures
        ({
            let magic = seq![77u8, 68u8, 70u8, 69u8, 69u8, 68u8, 0u8, 0u8];
            let version = spec_u32_from_le_bytes(b.subrange(8, 12));
            let size = spec_u32_from_le_bytes(b.subrange(12, 16));
            let count = spec_u64_from_le_bytes(b.subrange(16, 24));
            let known = b.len() >= 32 && b.take(8) == magic;
            &&& b.len() < 32 ==> decode(b) == Err::<Seq<BookEvent>, CorpusError>(
                CorpusError::Truncated { expected: 32, found: b.len() as u64 },
            )
            &&& b.len() >= 32 && b.take(8) != magic ==> decode(b) == Err::<
                Seq<BookEvent>,
                CorpusError,
            >(CorpusError::BadMagic)
            &&& known && version != 1 ==> decode(b) == Err::<Seq<BookEvent>, CorpusError>(
                CorpusError::UnsupportedVersion(version),
            )
            &&& known && version == 1 && size != 40 ==> decode(b) == Err::<
                Seq<BookEvent>,
                CorpusError,
            >(CorpusError::BadRecordSize(size))
            &&& known && version == 1 && size == 40 && b.len() - 32 != 40 * count ==> (decode(
                b,
            ) matches Err(CorpusError::Truncated { expected, found }) && found == b.len() - 32 && (40
                * count <= u64::MAX ==> expected == 40 * count))
            &&& decode(b) matches Ok(events) ==> {
                &&& known
                &&& version == 1
                &&& size == 40
                &&& events.len() == count
                &&& b.len() == 32 + 40 * count
            }
        }),
{
    assert(MAGIC@ =~= seq![77u8, 68u8, 70u8, 69u8, 69u8, 68u8, 0u8, 0u8]);
    let count = spec_u64_from_le_bytes(b.subrange(16, 24));
    lemma_decoded_len(b.skip(32), count as nat);
}

proof fn lemma_decoded_len(payload: Seq<u8>, n: nat)
    ensures
        decode_records(payload, n) matches Ok(s) ==> s.len() == n,
    decreases n,
{
    if n > 0 {
        lemma_decoded_len(payload, (n - 1) as nat);
    }
}

/// Which records are refused: one whose side byte is neither zero nor one, and then one
/// whose kind byte is above two; the byte and the place of the record are named.
pub proof fn law_refused_records(rec: Seq<u8>, place: u64)
    requires
        rec.len() == 40,
    ensures
        rec[32] > 1 ==> decode_record(rec, place) == Err::<BookEvent, CorpusError>(
            CorpusError::BadDiscriminant { record: place, field: "side", byte: rec[32] },
        ),
        rec[32] <= 1 && rec[33] > 2 ==> decode_record(rec, place) == Err::<BookEvent, CorpusError>(
            CorpusError::BadDiscriminant { record: place, field: "kind", byte: rec[33] },
        ),
        rec[32] <= 1 && rec[33] <= 2 ==> decode_record(rec, place) is Ok,
{
}

} // verus!
