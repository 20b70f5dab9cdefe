//! A recording session: the events recorded so far, and how the next message is
//! joined to them.

use crate::capture::{
    level_texts, Fault, FaultModel, Field, Missing, Scales, Snapshot, SnapshotModel, NS_PER_MS,
};
use crate::decimal::{tick_count, to_ticks, ConvError};
use crate::event::{BookEvent, EventKind, Side};
use crate::json::{
    bool_field, has_field, items_field, lacks, law_fields_are_read_by_name,
    law_missing_fields_are_not_read, lemma_values, parse, parsed, str_field, str_item, u64_field,
    values_of, Doc, Json, Number,
};
use crate::ladder::{replay, set_level, BookModel, Levels};
use crate::market::{or_false, unwrap_or_false};
use crate::price::{Px, Qty};
use crate::text::{copy_text, same_text};
use vstd::prelude::*;
use vstd::string::StringSliceAdditionalSpecFns;
use vstd::utf8::encode_utf8;

verus! {

/// Events recorded, and the fault that stopped the recording if there was one.
pub struct Emission {
    /// The events.
    pub events: Seq<BookEvent>,
    /// The fault.
    pub fault: Option<FaultModel>,
}

/// The number of ticks that a text is.
pub open spec fn ticks_of(text: Seq<char>, tick: Seq<char>) -> Result<int, ConvError> {
    tick_count(encode_utf8(text), encode_utf8(tick))
}

/// One more event of a kind, with a price and a quantity in ticks, unless there was
/// a fault. Events are numbered from zero, and their time is in nanoseconds.
pub open spec fn emit(
    e: Emission,
    scales: (Seq<char>, Seq<char>),
    kind: EventKind,
    ts_ms: u64,
    side: Side,
    px: Seq<char>,
    qty: Seq<char>,
) -> Emission {
    let (px_field, qty_field) = if kind == EventKind::Trade {
        (Field::TradePx, Field::TradeQty)
    } else {
        (Field::Px, Field::Qty)
    };
    if e.fault is Some {
        e
    } else {
        match ticks_of(px, scales.0) {
            Err(c) => Emission {
                events: e.events,
                fault: Some(FaultModel::Convert(px_field, px, c)),
            },
            Ok(p) => match ticks_of(qty, scales.1) {
                Err(c) => Emission {
                    events: e.events,
                    fault: Some(FaultModel::Convert(qty_field, qty, c)),
                },
                Ok(q) => Emission {
                    events: e.events.push(
                        BookEvent {
                            seq: e.events.len() as u64,
                            ts: (ts_ms * NS_PER_MS) as u64,
                            px: Px(p as i64),
                            qty: Qty(q as i64),
                            side,
                            kind,
                        },
                    ),
                    fault: None,
                },
            },
        }
    }
}

/// The first `n` levels of a side, one after the other.
pub open spec fn emit_levels(
    e: Emission,
    scales: (Seq<char>, Seq<char>),
    side: Side,
    levels: Seq<(Seq<char>, Seq<char>)>,
    n: int,
) -> Emission
    decreases n,
{
    if n <= 0 {
        e
    } else {
        emit(
            emit_levels(e, scales, side, levels, n - 1),
            scales,
            EventKind::Level,
            0,
            side,
            levels[n - 1].0,
            levels[n - 1].1,
        )
    }
}

/// A reset and the levels of a snapshot.
pub open spec fn emit_snapshot(
    events: Seq<BookEvent>,
    scales: (Seq<char>, Seq<char>),
    snap: SnapshotModel,
) -> Emission {
    let reset = Emission {
        events: events.push(
            BookEvent {
                seq: events.len() as u64,
                ts: 0,
                px: Px(0),
                qty: Qty(0),
                side: Side::Bid,
                kind: EventKind::Clear,
            },
        ),
        fault: None,
    };
    let bids = emit_levels(reset, scales, Side::Bid, snap.bids, snap.bids.len() as int);
    emit_levels(bids, scales, Side::Ask, snap.asks, snap.asks.len() as int)
}

/// One changed level: a pair of texts.
pub open spec fn emit_entry(
    e: Emission,
    scales: (Seq<char>, Seq<char>),
    ts_ms: u64,
    side: Side,
    entry: Doc,
) -> Emission {
    if e.fault is Some {
        e
    } else {
        match (str_item(entry, 0), str_item(entry, 1)) {
            (Some(px), Some(qty)) => emit(e, scales, EventKind::Level, ts_ms, side, px, qty),
            (None, _) => Emission {
                events: e.events,
                fault: Some(FaultModel::Missing(Missing::DiffPx)),
            },
            (_, None) => Emission {
                events: e.events,
                fault: Some(FaultModel::Missing(Missing::DiffQty)),
            },
        }
    }
}

/// The first `n` changed levels of a side.
pub open spec fn emit_entries(
    e: Emission,
    scales: (Seq<char>, Seq<char>),
    ts_ms: u64,
    side: Side,
    entries: Seq<Doc>,
    n: int,
) -> Emission
    decreases n,
{
    if n <= 0 {
        e
    } else {
        emit_entry(
            emit_entries(e, scales, ts_ms, side, entries, n - 1),
            scales,
            ts_ms,
            side,
            entries[n - 1],
        )
    }
}

/// The changed levels of a side of a change, none where there is no list of them.
pub open spec fn emit_side(
    e: Emission,
    scales: (Seq<char>, Seq<char>),
    ts_ms: u64,
    side: Side,
    key: Seq<char>,
    diff: Doc,
) -> Emission {
    match items_field(diff, key) {
        Some(entries) => emit_entries(e, scales, ts_ms, side, entries, entries.len() as int),
        None => e,
    }
}

/// The changed levels of a change, bids first.
pub open spec fn emit_diff(
    events: Seq<BookEvent>,
    scales: (Seq<char>, Seq<char>),
    ts_ms: u64,
    diff: Doc,
) -> Emission {
    let start = Emission { events, fault: None };
    emit_side(
        emit_side(start, scales, ts_ms, Side::Bid, "b"@, diff),
        scales,
        ts_ms,
        Side::Ask,
        "a"@,
        diff,
    )
}

/// A fault stays: nothing that follows adds an event.
proof fn lemma_fault_stays(
    e: Emission,
    scales: (Seq<char>, Seq<char>),
    ts_ms: u64,
    side: Side,
    entries: Seq<Doc>,
    levels: Seq<(Seq<char>, Seq<char>)>,
    n: int,
)
    requires
        e.fault is Some,
    ensures
        emit_entries(e, scales, ts_ms, side, entries, n) == e,
        emit_levels(e, scales, side, levels, n) == e,
    decreases n,
{
    if n > 0 {
        lemma_fault_stays(e, scales, ts_ms, side, entries, levels, n - 1);
    }
}

/// A fault among the first entries is the fault of all.
proof fn lemma_entries_fail(
    e: Emission,
    scales: (Seq<char>, Seq<char>),
    ts_ms: u64,
    side: Side,
    entries: Seq<Doc>,
    k: int,
    n: int,
)
    requires
        0 <= k <= n,
        emit_entries(e, scales, ts_ms, side, entries, k).fault is Some,
    ensures
        emit_entries(e, scales, ts_ms, side, entries, n) == emit_entries(
            e,
            scales,
            ts_ms,
            side,
            entries,
            k,
        ),
    decreases n - k,
{
    if k < n {
        lemma_entries_fail(e, scales, ts_ms, side, entries, k, n - 1);
    }
}

/// A fault among the first levels is the fault of all.
proof fn lemma_levels_fail(
    e: Emission,
    scales: (Seq<char>, Seq<char>),
    side: Side,
    levels: Seq<(Seq<char>, Seq<char>)>,
    k: int,
    n: int,
)
    requires
        0 <= k <= n,
        emit_levels(e, scales, side, levels, k).fault is Some,
    ensures
        emit_levels(e, scales, side, levels, n) == emit_levels(e, scales, side, levels, k),
    decreases n - k,
{
    if k < n {
        lemma_levels_fail(e, scales, side, levels, k, n - 1);
    }
}

/// `after` is what became of the events, and `r` whether there was a fault.
pub open spec fn came_to(after: Emission, events: Seq<BookEvent>, r: Result<(), Fault>) -> bool {
    &&& events == after.events
    &&& match r {
        Ok(_) => after.fault is None,
        Err(f) => after.fault == Some(f@),
    }
}

/// Writes events in ticks.
#[derive(Debug)]
pub struct Emitter {
    events: Vec<BookEvent>,
    scales: Scales,
}

impl Emitter {
    /// The events so far.
    pub closed spec fn recorded(self) -> Seq<BookEvent> {
        self.events@
    }

    /// The sizes of tick and step.
    pub closed spec fn scale(self) -> (Seq<char>, Seq<char>) {
        self.scales@
    }

    /// No events yet.
    pub fn new(scales: Scales) -> (e: Self)
        ensures
            e.recorded() == Seq::<BookEvent>::empty(),
            e.scale() == scales@,
    {
        Emitter { events: Vec::new(), scales }
    }

    /// How many events there are, which is the number of the next one.
    pub fn seq(&self) -> (n: u64)
        ensures
            n == self.recorded().len(),
    {
        self.events.len() as u64
    }

    /// The events.
    pub fn into_events(self) -> (v: Vec<BookEvent>)
        ensures
            v@ == self.recorded(),
    {
        self.events
    }

    /// Records an event of a kind.
    fn add(&mut self, kind: EventKind, ts_ms: u64, side: Side, px: &str, qty: &str) -> (r: Result<
        (),
        Fault,
    >)
        requires
            ts_ms <= u64::MAX / NS_PER_MS,
        ensures
            final(self).scale() == old(self).scale(),
            came_to(
                emit(
                    (Emission { events: old(self).recorded(), fault: None }),
                    old(self).scale(),
                    kind,
                    ts_ms,
                    side,
                    px@,
                    qty@,
                ),
                final(self).recorded(),
                r,
            ),
    {
        let trade: bool = match kind {
            EventKind::Trade => true,
            _ => false,
        };
        let p: i64 = match to_ticks(px, self.scales.tick_size.as_str()) {
            Ok(p) => p,
            Err(error) => {
                let what = if trade {
                    Field::TradePx
                } else {
                    Field::Px
                };
                return Err(Fault::Convert { what, text: copy_text(px), error });
            },
        };
        let q: i64 = match to_ticks(qty, self.scales.step_size.as_str()) {
            Ok(q) => q,
            Err(error) => {
                let what = if trade {
                    Field::TradeQty
                } else {
                    Field::Qty
                };
                return Err(Fault::Convert { what, text: copy_text(qty), error });
            },
        };
        let seq: u64 = self.seq();
        self.events.push(
            BookEvent { seq, ts: ts_ms * NS_PER_MS, px: Px(p), qty: Qty(q), side, kind },
        );
        Ok(())
    }

    /// Records a level.
    pub fn level(&mut self, ts_ms: u64, side: Side, px: &str, qty: &str) -> (r: Result<(), Fault>)
        requires
            ts_ms <= u64::MAX / NS_PER_MS,
        ensures
            final(self).scale() == old(self).scale(),
            came_to(
                emit(
                    (Emission { events: old(self).recorded(), fault: None }),
                    old(self).scale(),
                    EventKind::Level,
                    ts_ms,
                    side,
                    px@,
                    qty@,
                ),
                final(self).recorded(),
                r,
            ),
    {
        self.add(EventKind::Level, ts_ms, side, px, qty)
    }

    /// Records a trade.
    pub fn trade(&mut self, ts_ms: u64, aggressor: Side, px: &str, qty: &str) -> (r: Result<
        (),
        Fault,
    >)
        requires
            ts_ms <= u64::MAX / NS_PER_MS,
        ensures
            final(self).scale() == old(self).scale(),
            came_to(
                emit(
                    (Emission { events: old(self).recorded(), fault: None }),
                    old(self).scale(),
                    EventKind::Trade,
                    ts_ms,
                    aggressor,
                    px@,
                    qty@,
                ),
                final(self).recorded(),
                r,
            ),
    {
        self.add(EventKind::Trade, ts_ms, aggressor, px, qty)
    }

    /// Records the levels of a side.
    fn levels(&mut self, side: Side, levels: &Vec<(String, String)>) -> (r: Result<(), Fault>)
        ensures
            final(self).scale() == old(self).scale(),
            came_to(
                emit_levels(
                    (Emission { events: old(self).recorded(), fault: None }),
                    old(self).scale(),
                    side,
                    level_texts(levels@),
                    levels@.len() as int,
                ),
                final(self).recorded(),
                r,
            ),
    {
        let ghost start = Emission { events: self.recorded(), fault: None };
        let ghost list = level_texts(levels@);
        let mut i: usize = 0;
        while i < levels.len()
            invariant
                i <= levels@.len(),
                list == level_texts(levels@),
                self.scale() == old(self).scale(),
                start == (Emission { events: old(self).recorded(), fault: None }),
                came_to(
                    emit_levels(start, self.scale(), side, list, i as int),
                    self.recorded(),
                    Ok(()),
                ),
            decreases levels@.len() - i,
        {
            let l = &levels[i];
            assert(list[i as int] == (l.0@, l.1@));
            assert(emit_levels(start, self.scale(), side, list, i as int) == (Emission {
                events: self.recorded(),
                fault: None,
            }));
            match self.level(0, side, l.0.as_str(), l.1.as_str()) {
                Ok(_) => {},
                Err(f) => {
                    proof {
                        lemma_levels_fail(
                            start,
                            self.scale(),
                            side,
                            list,
                            i + 1,
                            levels@.len() as int,
                        );
                    }
                    return Err(f);
                },
            }
            i += 1;
        }
        Ok(())
    }

    /// Records a reset and the levels of a snapshot.
    pub fn seed_snapshot(&mut self, snap: &Snapshot) -> (r: Result<(), Fault>)
        ensures
            final(self).scale() == old(self).scale(),
            came_to(
                emit_snapshot(old(self).recorded(), old(self).scale(), snap@),
                final(self).recorded(),
                r,
            ),
    {
        let seq: u64 = self.seq();
        self.events.push(BookEvent::clear(seq, 0));
        let ghost reset = Emission { events: self.recorded(), fault: None };
        match self.levels(Side::Bid, &snap.bids) {
            Ok(_) => {},
            Err(f) => {
                proof {
                    let bids = emit_levels(
                        reset,
                        self.scale(),
                        Side::Bid,
                        snap@.bids,
                        snap@.bids.len() as int,
                    );
                    lemma_fault_stays(
                        bids,
                        self.scale(),
                        0,
                        Side::Ask,
                        Seq::empty(),
                        snap@.asks,
                        snap@.asks.len() as int,
                    );
                }
                return Err(f);
            },
        }
        self.levels(Side::Ask, &snap.asks)
    }

    /// Records the changed levels of a side of a change.
    fn side(&mut self, ts_ms: u64, side: Side, key: &str, diff: &Json) -> (r: Result<(), Fault>)
        requires
            ts_ms <= u64::MAX / NS_PER_MS,
        ensures
            final(self).scale() == old(self).scale(),
            came_to(
                emit_side(
                    (Emission { events: old(self).recorded(), fault: None }),
                    old(self).scale(),
                    ts_ms,
                    side,
                    key@,
                    diff@,
                ),
                final(self).recorded(),
                r,
            ),
    {
        let ghost start = Emission { events: self.recorded(), fault: None };
        let entries = match diff.get_array(key) {
            Some(entries) => entries,
            None => return Ok(()),
        };
        let ghost docs = values_of(entries@);
        proof {
            lemma_values(entries@);
        }
        let mut i: usize = 0;
        while i < entries.len()
            invariant
                i <= entries@.len(),
                docs.len() == entries@.len(),
                forall|k: int| 0 <= k < entries@.len() ==> #[trigger] docs[k] == entries@[k]@,
                items_field(diff@, key@) == Some(docs),
                ts_ms <= u64::MAX / NS_PER_MS,
                self.scale() == old(self).scale(),
                start == (Emission { events: old(self).recorded(), fault: None }),
                came_to(
                    emit_entries(start, self.scale(), ts_ms, side, docs, i as int),
                    self.recorded(),
                    Ok(()),
                ),
            decreases entries@.len() - i,
        {
            let entry = &entries[i];
            assert(docs[i as int] == entry@);
            let ghost now = Emission { events: self.recorded(), fault: None };
            assert(emit_entries(start, self.scale(), ts_ms, side, docs, i as int) == now);
            let px = match entry.str_at(0) {
                Some(px) => px,
                None => {
                    proof {
                        lemma_entries_fail(
                            start,
                            self.scale(),
                            ts_ms,
                            side,
                            docs,
                            i + 1,
                            docs.len() as int,
                        );
                    }
                    return Err(Fault::Missing(Missing::DiffPx));
                },
            };
            let qty = match entry.str_at(1) {
                Some(qty) => qty,
                None => {
                    proof {
                        lemma_entries_fail(
                            start,
                            self.scale(),
                            ts_ms,
                            side,
                            docs,
                            i + 1,
                            docs.len() as int,
                        );
                    }
                    return Err(Fault::Missing(Missing::DiffQty));
                },
            };
            match self.level(ts_ms, side, px, qty) {
                Ok(_) => {},
                Err(f) => {
                    proof {
                        lemma_entries_fail(
                            start,
                            self.scale(),
                            ts_ms,
                            side,
                            docs,
                            i + 1,
                            docs.len() as int,
                        );
                    }
                    return Err(f);
                },
            }
            i += 1;
        }
        Ok(())
    }

    /// Records the changed levels of a change, bids first.
    pub fn apply_diff(&mut self, ts_ms: u64, diff: &Json) -> (r: Result<(), Fault>)
        requires
            ts_ms <= u64::MAX / NS_PER_MS,
        ensures
            final(self).scale() == old(self).scale(),
            came_to(
                emit_diff(old(self).recorded(), old(self).scale(), ts_ms, diff@),
                final(self).recorded(),
                r,
            ),
    {
        match self.side(ts_ms, Side::Bid, "b", diff) {
            Ok(_) => {},
            Err(f) => {
                proof {
                    let start = Emission { events: old(self).recorded(), fault: None };
                    let bids = emit_side(start, self.scale(), ts_ms, Side::Bid, "b"@, diff@);
                    match items_field(diff@, "a"@) {
                        Some(entries) => {
                            lemma_fault_stays(
                                bids,
                                self.scale(),
                                ts_ms,
                                Side::Ask,
                                entries,
                                Seq::empty(),
                                entries.len() as int,
                            );
                        },
                        None => {},
                    }
                }
                return Err(f);
            },
        }
        self.side(ts_ms, Side::Ask, "a", diff)
    }
}

/// How the stream of changes is joined to a snapshot.
#[derive(Clone, Copy, PartialEq, Eq, Structural, Debug)]
pub struct DepthSync {
    /// The id of the last update in the snapshot.
    pub last_update_id: u64,
    /// The id of the last update that was applied.
    pub prev_u: u64,
    /// Whether a change was applied since the snapshot.
    pub synced: bool,
}

/// What becomes of a change.
#[derive(Clone, Copy, PartialEq, Eq, Structural, Debug)]
pub enum Join {
    /// It is applied.
    Apply,
    /// It is older than the snapshot.
    Stale,
    /// Something is missing before it.
    Gap,
}

/// What becomes of a change with the updates from `first` to `last`. Before the
/// first change since the snapshot, those that end by it are stale, and the one that
/// is applied must begin no later than right after it. Then each must begin right
/// after the one before.
pub open spec fn join_of(s: DepthSync, first: u64, last: u64) -> Join {
    if s.synced {
        if first == s.prev_u + 1 {
            Join::Apply
        } else {
            Join::Gap
        }
    } else if last <= s.last_update_id {
        Join::Stale
    } else if first <= s.last_update_id + 1 {
        Join::Apply
    } else {
        Join::Gap
    }
}

/// The id of the last update that the recording has.
pub open spec fn covered(s: DepthSync) -> u64 {
    if s.synced {
        s.prev_u
    } else {
        s.last_update_id
    }
}

impl DepthSync {
    /// The state right after a snapshot.
    pub fn after_snapshot(&mut self, last_update_id: u64)
        ensures
            *final(self) == (DepthSync {
                last_update_id,
                prev_u: old(self).prev_u,
                synced: false,
            }),
    {
        self.last_update_id = last_update_id;
        self.synced = false;
    }

    /// What becomes of a change.
    pub fn join(&self, first: u64, last: u64) -> (j: Join)
        ensures
            j == join_of(*self, first, last),
    {
        if self.synced {
            if first > 0 && first - 1 == self.prev_u {
                Join::Apply
            } else {
                Join::Gap
            }
        } else if last <= self.last_update_id {
            Join::Stale
        } else if first == 0 || first - 1 <= self.last_update_id {
            Join::Apply
        } else {
            Join::Gap
        }
    }

    /// Notes that a change that ends with `last` was applied.
    pub fn applied(&mut self, last: u64)
        ensures
            *final(self) == (DepthSync {
                last_update_id: old(self).last_update_id,
                prev_u: last,
                synced: true,
            }),
    {
        self.prev_u = last;
        self.synced = true;
    }
}

/// No update is lost: a change that is applied begins no later than right after the
/// last update that the recording has, and exactly there once one was applied since
/// the snapshot; a change that is left out as stale has no update that the recording
/// lacks.
pub proof fn law_no_update_is_lost(s: DepthSync, first: u64, last: u64)
    ensures
        join_of(s, first, last) == Join::Apply ==> first <= covered(s) + 1,
        join_of(s, first, last) == Join::Apply && s.synced ==> first == covered(s) + 1,
        join_of(s, first, last) == Join::Apply && !s.synced ==> last > covered(s),
        join_of(s, first, last) == Join::Stale ==> last <= covered(s),
        join_of(s, first, last) == Join::Gap && !s.synced ==> first > covered(s) + 1,
{
}

/// What a session does next.
#[derive(Clone, Copy, PartialEq, Eq, Structural, Debug)]
pub enum Next {
    /// The message changed nothing; it goes on with the next one.
    Skip,
    /// It goes on with the next message.
    Go,
    /// There are enough events.
    Stop,
    /// A new snapshot is needed.
    Resnapshot,
}

/// What follows a message, by the number of events.
pub open spec fn next_after(count: nat, max_events: Option<u64>) -> Next {
    match max_events {
        Some(max) => if count >= max {
            Next::Stop
        } else {
            Next::Go
        },
        None => Next::Go,
    }
}

/// Where a session stands after a message.
pub struct Stand {
    /// The events, and the fault that stopped the session if there was one.
    pub emission: Emission,
    /// How the stream is joined to the snapshot.
    pub sync: DepthSync,
    /// What it does next, unless there was a fault.
    pub next: Next,
}

/// Where a session stands after a change.
pub open spec fn on_depth(
    events: Seq<BookEvent>,
    sync: DepthSync,
    scales: (Seq<char>, Seq<char>),
    max_events: Option<u64>,
    v: Doc,
) -> Stand {
    let same = Emission { events, fault: None };
    match (u64_field(v, "u"@), u64_field(v, "U"@), u64_field(v, "E"@)) {
        (Some(last), Some(first), Some(ts_ms)) => match join_of(sync, first, last) {
            Join::Stale => Stand { emission: same, sync, next: Next::Skip },
            Join::Gap => Stand { emission: same, sync, next: Next::Resnapshot },
            Join::Apply => {
                let emission = emit_diff(events, scales, ts_ms, v);
                Stand {
                    emission,
                    sync: if emission.fault is Some {
                        sync
                    } else {
                        DepthSync {
                            last_update_id: sync.last_update_id,
                            prev_u: last,
                            synced: true,
                        }
                    },
                    next: next_after(emission.events.len(), max_events),
                }
            },
        },
        _ => Stand { emission: same, sync, next: Next::Skip },
    }
}

/// Where a session stands after a trade.
pub open spec fn on_trade(
    events: Seq<BookEvent>,
    sync: DepthSync,
    scales: (Seq<char>, Seq<char>),
    max_events: Option<u64>,
    v: Doc,
) -> Stand {
    let same = Emission { events, fault: None };
    match (u64_field(v, "E"@), str_field(v, "p"@), str_field(v, "q"@)) {
        (Some(ts_ms), Some(px), Some(qty)) => {
            let side = if or_false(bool_field(v, "m"@)) {
                Side::Ask
            } else {
                Side::Bid
            };
            let emission = emit(same, scales, EventKind::Trade, ts_ms, side, px, qty);
            Stand { emission, sync, next: next_after(emission.events.len(), max_events) }
        },
        _ => Stand { emission: same, sync, next: Next::Skip },
    }
}

/// Where a session stands after a message: a change, a trade where trades are
/// wanted, or anything else, which changes nothing.
pub open spec fn on_doc(
    events: Seq<BookEvent>,
    sync: DepthSync,
    scales: (Seq<char>, Seq<char>),
    with_trades: bool,
    max_events: Option<u64>,
    v: Doc,
) -> Stand {
    let kind = str_field(v, "e"@);
    if kind == Some("depthUpdate"@) {
        on_depth(events, sync, scales, max_events, v)
    } else if kind == Some("trade"@) && with_trades {
        on_trade(events, sync, scales, max_events, v)
    } else {
        Stand {
            emission: Emission { events, fault: None },
            sync,
            next: next_after(events.len(), max_events),
        }
    }
}

/// The time of a message, if it has one, is one that can be given in nanoseconds.
pub open spec fn time_fits(v: Doc) -> bool {
    match u64_field(v, "E"@) {
        Some(ts_ms) => ts_ms <= u64::MAX / NS_PER_MS,
        None => true,
    }
}

/// Whether a change is applied.
pub open spec fn is_applied(sync: DepthSync, v: Doc) -> bool {
    match (u64_field(v, "u"@), u64_field(v, "U"@), u64_field(v, "E"@)) {
        (Some(last), Some(first), Some(_)) => join_of(sync, first, last) == Join::Apply,
        _ => false,
    }
}

/// Whether a trade has all that is recorded of it.
pub open spec fn is_whole(v: Doc) -> bool {
    u64_field(v, "E"@) is Some && str_field(v, "p"@) is Some && str_field(v, "q"@) is Some
}

/// Whether a session makes use of the time of a message: it applies the change, or
/// records the trade.
pub open spec fn uses_time(sync: DepthSync, with_trades: bool, v: Doc) -> bool {
    let kind = str_field(v, "e"@);
    if kind == Some("depthUpdate"@) {
        is_applied(sync, v)
    } else {
        kind == Some("trade"@) && with_trades && is_whole(v)
    }
}

/// Whether the time of a message can be given in nanoseconds.
pub fn has_fitting_time(v: &Json) -> (r: bool)
    ensures
        r == time_fits(v@),
{
    match v.get_u64("E") {
        Some(ts_ms) => ts_ms <= u64::MAX / NS_PER_MS,
        None => true,
    }
}

/// A recording session.
#[derive(Debug)]
pub struct Session {
    emitter: Emitter,
    sync: DepthSync,
    with_trades: bool,
    max_events: Option<u64>,
}

impl Session {
    /// The events so far.
    pub closed spec fn recorded(self) -> Seq<BookEvent> {
        self.emitter.recorded()
    }

    /// The sizes of tick and step.
    pub closed spec fn scale(self) -> (Seq<char>, Seq<char>) {
        self.emitter.scale()
    }

    /// How the stream is joined to the snapshot.
    pub closed spec fn joined(self) -> DepthSync {
        self.sync
    }

    /// Whether trades are recorded, and after how many events it stops.
    pub closed spec fn limits(self) -> (bool, Option<u64>) {
        (self.with_trades, self.max_events)
    }

    /// A session that begins with a snapshot.
    pub fn start(
        scales: Scales,
        snap: &Snapshot,
        with_trades: bool,
        max_events: Option<u64>,
    ) -> (r: Result<Session, Fault>)
        ensures
            ({
                let after = emit_snapshot(Seq::<BookEvent>::empty(), scales@, snap@);
                match r {
                    Ok(s) => {
                        &&& after.fault is None
                        &&& s.recorded() == after.events
                        &&& s.scale() == scales@
                        &&& s.joined() == (DepthSync {
                            last_update_id: snap.last_update_id,
                            prev_u: 0,
                            synced: false,
                        })
                        &&& s.limits() == (with_trades, max_events)
                    },
                    Err(f) => after.fault == Some(f@),
                }
            }),
    {
        let mut emitter = Emitter::new(scales);
        match emitter.seed_snapshot(snap) {
            Ok(_) => {},
            Err(f) => return Err(f),
        }
        let sync = DepthSync { last_update_id: snap.last_update_id, prev_u: 0, synced: false };
        Ok(Session { emitter, sync, with_trades, max_events })
    }

    /// What follows, by the number of events.
    fn next(&self) -> (n: Next)
        ensures
            n == next_after(self.recorded().len(), self.max_events),
    {
        match self.max_events {
            Some(max) => if self.emitter.seq() >= max {
                Next::Stop
            } else {
                Next::Go
            },
            None => Next::Go,
        }
    }

    /// Whether a message can be taken in: where its time is used, it can be given in
    /// nanoseconds.
    pub fn can_take(&self, v: &Json) -> (r: bool)
        ensures
            r == (uses_time(self.joined(), self.limits().0, v@) ==> time_fits(v@)),
    {
        if has_fitting_time(v) {
            return true;
        }
        match v.get_str("e") {
            Some(kind) => if same_text(kind, "depthUpdate") {
                match (v.get_u64("u"), v.get_u64("U"), v.get_u64("E")) {
                    (Some(last), Some(first), Some(_)) => match self.sync.join(first, last) {
                        Join::Apply => false,
                        _ => true,
                    },
                    _ => true,
                }
            } else if same_text(kind, "trade") && self.with_trades {
                match (v.get_u64("E"), v.get_str("p"), v.get_str("q")) {
                    (Some(_), Some(_), Some(_)) => false,
                    _ => true,
                }
            } else {
                true
            },
            None => true,
        }
    }

    /// Takes a message in.
    pub fn on_message(&mut self, v: &Json) -> (r: Result<Next, Fault>)
        requires
            uses_time(old(self).joined(), old(self).limits().0, v@) ==> time_fits(v@),
        ensures
            ({
                let after = on_doc(
                    old(self).recorded(),
                    old(self).joined(),
                    old(self).scale(),
                    old(self).limits().0,
                    old(self).limits().1,
                    v@,
                );
                &&& final(self).recorded() == after.emission.events
                &&& final(self).joined() == after.sync
                &&& match r {
                    Ok(next) => after.emission.fault is None && next == after.next,
                    Err(f) => after.emission.fault == Some(f@),
                }
            }),
            final(self).scale() == old(self).scale(),
            final(self).limits() == old(self).limits(),
    {
        match v.get_str("e") {
            Some(kind) => if same_text(kind, "depthUpdate") {
                return self.depth(v);
            } else if same_text(kind, "trade") && self.with_trades {
                return self.trade(v);
            },
            None => {},
        }
        Ok(self.next())
    }

    /// Takes a change in.
    fn depth(&mut self, v: &Json) -> (r: Result<Next, Fault>)
        requires
            is_applied(old(self).joined(), v@) ==> time_fits(v@),
        ensures
            ({
                let after = on_depth(
                    old(self).recorded(),
                    old(self).joined(),
                    old(self).scale(),
                    old(self).limits().1,
                    v@,
                );
                &&& final(self).recorded() == after.emission.events
                &&& final(self).joined() == after.sync
                &&& match r {
                    Ok(next) => after.emission.fault is None && next == after.next,
                    Err(f) => after.emission.fault == Some(f@),
                }
            }),
            final(self).scale() == old(self).scale(),
            final(self).limits() == old(self).limits(),
    {
        match (v.get_u64("u"), v.get_u64("U"), v.get_u64("E")) {
            (Some(last), Some(first), Some(ts_ms)) => match self.sync.join(first, last) {
                Join::Stale => Ok(Next::Skip),
                Join::Gap => Ok(Next::Resnapshot),
                Join::Apply => {
                    match self.emitter.apply_diff(ts_ms, v) {
                        Ok(_) => {},
                        Err(f) => return Err(f),
                    }
                    self.sync.applied(last);
                    Ok(self.next())
                },
            },
            _ => Ok(Next::Skip),
        }
    }

    /// Takes a trade in.
    fn trade(&mut self, v: &Json) -> (r: Result<Next, Fault>)
        requires
            is_whole(v@) ==> time_fits(v@),
        ensures
            ({
                let after = on_trade(
                    old(self).recorded(),
                    old(self).joined(),
                    old(self).scale(),
                    old(self).limits().1,
                    v@,
                );
                &&& final(self).recorded() == after.emission.events
                &&& final(self).joined() == after.sync
                &&& match r {
                    Ok(next) => after.emission.fault is None && next == after.next,
                    Err(f) => after.emission.fault == Some(f@),
                }
            }),
            final(self).scale() == old(self).scale(),
            final(self).limits() == old(self).limits(),
    {
        match (v.get_u64("E"), v.get_str("p"), v.get_str("q")) {
            (Some(ts_ms), Some(px), Some(qty)) => {
                let side = if unwrap_or_false(v.get_bool("m")) {
                    Side::Ask
                } else {
                    Side::Bid
                };
                match self.emitter.trade(ts_ms, side, px, qty) {
                    Ok(_) => Ok(self.next()),
                    Err(f) => Err(f),
                }
            },
            _ => Ok(Next::Skip),
        }
    }

    /// Seeds the recording anew with a snapshot after a gap.
    pub fn resnapshot(&mut self, snap: &Snapshot) -> (r: Result<Next, Fault>)
        ensures
            ({
                let after = emit_snapshot(old(self).recorded(), old(self).scale(), snap@);
                &&& final(self).recorded() == after.events
                &&& match r {
                    Ok(next) => {
                        &&& after.fault is None
                        &&& final(self).joined() == (DepthSync {
                            last_update_id: snap.last_update_id,
                            prev_u: old(self).joined().prev_u,
                            synced: false,
                        })
                        &&& next == next_after(after.events.len(), old(self).limits().1)
                    },
                    Err(f) => after.fault == Some(f@) && final(self).joined() == old(
                        self,
                    ).joined(),
                }
            }),
            final(self).scale() == old(self).scale(),
            final(self).limits() == old(self).limits(),
    {
        match self.emitter.seed_snapshot(snap) {
            Ok(_) => {},
            Err(f) => return Err(f),
        }
        self.sync.after_snapshot(snap.last_update_id);
        Ok(self.next())
    }

    /// The events.
    pub fn into_events(self) -> (v: Vec<BookEvent>)
        ensures
            v@ == self.recorded(),
    {
        self.emitter.into_events()
    }
}

/// Events are numbered from zero.
pub open spec fn numbered(events: Seq<BookEvent>) -> bool {
    forall|i: int| 0 <= i < events.len() ==> (#[trigger] events[i]).seq == i
}

/// `after` begins with `before`, and is numbered where `before` is.
pub open spec fn continues(before: Seq<BookEvent>, after: Seq<BookEvent>) -> bool {
    &&& before.len() <= after.len()
    &&& after.take(before.len() as int) == before
    &&& numbered(before) && after.len() <= u64::MAX ==> numbered(after)
}

proof fn lemma_continues_trans(a: Seq<BookEvent>, b: Seq<BookEvent>, c: Seq<BookEvent>)
    requires
        continues(a, b),
        continues(b, c),
    ensures
        continues(a, c),
{
    assert(c.take(a.len() as int) =~= b.take(a.len() as int)) by {
        assert forall|i: int| 0 <= i < a.len() implies c[i] == b[i] by {
            assert(c.take(b.len() as int)[i] == b[i]);
        }
    }
}

proof fn lemma_continues_push(a: Seq<BookEvent>, e: BookEvent)
    requires
        e.seq == a.len() as u64,
    ensures
        continues(a, a.push(e)),
        continues(a, a),
{
    assert(a.push(e).take(a.len() as int) =~= a);
    assert(a.take(a.len() as int) =~= a);
}

proof fn lemma_emit_continues(
    e: Emission,
    scales: (Seq<char>, Seq<char>),
    kind: EventKind,
    ts_ms: u64,
    side: Side,
    px: Seq<char>,
    qty: Seq<char>,
)
    ensures
        continues(e.events, emit(e, scales, kind, ts_ms, side, px, qty).events),
{
    let after = emit(e, scales, kind, ts_ms, side, px, qty).events;
    if after.len() > e.events.len() {
        lemma_continues_push(e.events, after.last());
        assert(after =~= e.events.push(after.last()));
    }
    assert(e.events.take(e.events.len() as int) =~= e.events);
}

proof fn lemma_levels_continue(
    e: Emission,
    scales: (Seq<char>, Seq<char>),
    side: Side,
    levels: Seq<(Seq<char>, Seq<char>)>,
    n: int,
)
    ensures
        continues(e.events, emit_levels(e, scales, side, levels, n).events),
    decreases n,
{
    if n > 0 {
        lemma_levels_continue(e, scales, side, levels, n - 1);
        let before = emit_levels(e, scales, side, levels, n - 1);
        lemma_emit_continues(
            before,
            scales,
            EventKind::Level,
            0,
            side,
            levels[n - 1].0,
            levels[n - 1].1,
        );
        lemma_continues_trans(
            e.events,
            before.events,
            emit_levels(e, scales, side, levels, n).events,
        );
    } else {
        assert(e.events.take(e.events.len() as int) =~= e.events);
    }
}

proof fn lemma_entries_continue(
    e: Emission,
    scales: (Seq<char>, Seq<char>),
    ts_ms: u64,
    side: Side,
    entries: Seq<Doc>,
    n: int,
)
    ensures
        continues(e.events, emit_entries(e, scales, ts_ms, side, entries, n).events),
    decreases n,
{
    assert(e.events.take(e.events.len() as int) =~= e.events);
    if n > 0 {
        lemma_entries_continue(e, scales, ts_ms, side, entries, n - 1);
        let before = emit_entries(e, scales, ts_ms, side, entries, n - 1);
        match (str_item(entries[n - 1], 0), str_item(entries[n - 1], 1)) {
            (Some(px), Some(qty)) => {
                lemma_emit_continues(before, scales, EventKind::Level, ts_ms, side, px, qty);
                lemma_continues_trans(
                    e.events,
                    before.events,
                    emit(before, scales, EventKind::Level, ts_ms, side, px, qty).events,
                );
            },
            _ => {},
        }
    }
}

/// A snapshot and a message only ever add to the recording, and its events stay
/// numbered from zero without a gap.
pub proof fn law_recording_only_grows(
    events: Seq<BookEvent>,
    sync: DepthSync,
    scales: (Seq<char>, Seq<char>),
    with_trades: bool,
    max_events: Option<u64>,
    v: Doc,
    snap: SnapshotModel,
)
    ensures
        continues(
            events,
            on_doc(events, sync, scales, with_trades, max_events, v).emission.events,
        ),
        continues(events, emit_snapshot(events, scales, snap).events),
{
    let same = Emission { events, fault: None };
    assert(events.take(events.len() as int) =~= events);
    let kind = str_field(v, "e"@);
    if kind == Some("depthUpdate"@) {
        match (u64_field(v, "u"@), u64_field(v, "U"@), u64_field(v, "E"@)) {
            (Some(last), Some(first), Some(ts_ms)) => {
                let bids = emit_side(same, scales, ts_ms, Side::Bid, "b"@, v);
                let both = emit_side(bids, scales, ts_ms, Side::Ask, "a"@, v);
                match items_field(v, "b"@) {
                    Some(entries) => {
                        lemma_entries_continue(
                            same,
                            scales,
                            ts_ms,
                            Side::Bid,
                            entries,
                            entries.len() as int,
                        );
                    },
                    None => {},
                }
                assert(bids.events.take(bids.events.len() as int) =~= bids.events);
                match items_field(v, "a"@) {
                    Some(entries) => {
                        lemma_entries_continue(
                            bids,
                            scales,
                            ts_ms,
                            Side::Ask,
                            entries,
                            entries.len() as int,
                        );
                    },
                    None => {},
                }
                lemma_continues_trans(events, bids.events, both.events);
            },
            _ => {},
        }
    } else if kind == Some("trade"@) && with_trades {
        match (u64_field(v, "E"@), str_field(v, "p"@), str_field(v, "q"@)) {
            (Some(ts_ms), Some(px), Some(qty)) => {
                let side = if or_false(bool_field(v, "m"@)) {
                    Side::Ask
                } else {
                    Side::Bid
                };
                lemma_emit_continues(same, scales, EventKind::Trade, ts_ms, side, px, qty);
            },
            _ => {},
        }
    }
    let clear = BookEvent {
        seq: events.len() as u64,
        ts: 0,
        px: Px(0),
        qty: Qty(0),
        side: Side::Bid,
        kind: EventKind::Clear,
    };
    let reset = Emission { events: events.push(clear), fault: None };
    lemma_continues_push(events, clear);
    let bids = emit_levels(reset, scales, Side::Bid, snap.bids, snap.bids.len() as int);
    let both = emit_levels(bids, scales, Side::Ask, snap.asks, snap.asks.len() as int);
    lemma_levels_continue(reset, scales, Side::Bid, snap.bids, snap.bids.len() as int);
    lemma_levels_continue(bids, scales, Side::Ask, snap.asks, snap.asks.len() as int);
    lemma_continues_trans(events, reset.events, bids.events);
    lemma_continues_trans(events, bids.events, both.events);
}

/// The levels that the first `n` entries of a snapshot's side make: each sets the
/// quantity at its price, and a quantity of zero removes the level.
pub open spec fn side_book(
    levels: Seq<(Seq<char>, Seq<char>)>,
    scales: (Seq<char>, Seq<char>),
    n: int,
) -> Levels
    decreases n,
{
    if n <= 0 {
        Map::empty()
    } else {
        set_level(
            side_book(levels, scales, n - 1),
            ticks_of(levels[n - 1].0, scales.0)->Ok_0 as i64,
            ticks_of(levels[n - 1].1, scales.1)->Ok_0 as i64,
        )
    }
}

/// Without a fault, all the levels so far had none.
proof fn lemma_no_fault_before(
    e: Emission,
    scales: (Seq<char>, Seq<char>),
    side: Side,
    levels: Seq<(Seq<char>, Seq<char>)>,
    k: int,
    n: int,
)
    requires
        0 <= k <= n,
        emit_levels(e, scales, side, levels, n).fault is None,
    ensures
        emit_levels(e, scales, side, levels, k).fault is None,
{
    if emit_levels(e, scales, side, levels, k).fault is Some {
        lemma_levels_fail(e, scales, side, levels, k, n);
    }
}

/// Replaying the levels of a side sets that side and leaves the other.
proof fn lemma_levels_replay(
    m: BookModel,
    e: Emission,
    scales: (Seq<char>, Seq<char>),
    side: Side,
    levels: Seq<(Seq<char>, Seq<char>)>,
    n: int,
)
    requires
        0 <= n,
        emit_levels(e, scales, side, levels, n).fault is None,
        replay(m, e.events).side(side) == Map::<i64, i64>::empty(),
    ensures
        ({
            let before = replay(m, e.events);
            let after = replay(m, emit_levels(e, scales, side, levels, n).events);
            &&& after.side(side) == side_book(levels, scales, n)
            &&& forall|s: Side| s != side ==> after.side(s) == #[trigger] before.side(s)
            &&& after.last_trade == before.last_trade
        }),
    decreases n,
{
    if n > 0 {
        lemma_no_fault_before(e, scales, side, levels, n - 1, n);
        lemma_levels_replay(m, e, scales, side, levels, n - 1);
        let before = emit_levels(e, scales, side, levels, n - 1);
        let after = emit_levels(e, scales, side, levels, n);
        assert(after.events.drop_last() =~= before.events);
    }
}

/// The recording of a snapshot, replayed after whatever was recorded before, is the
/// book of the snapshot.
pub proof fn law_snapshot_replays_to_its_book(
    m: BookModel,
    events: Seq<BookEvent>,
    scales: (Seq<char>, Seq<char>),
    snap: SnapshotModel,
)
    requires
        emit_snapshot(events, scales, snap).fault is None,
    ensures
        replay(m, emit_snapshot(events, scales, snap).events) == (BookModel {
            bids: side_book(snap.bids, scales, snap.bids.len() as int),
            asks: side_book(snap.asks, scales, snap.asks.len() as int),
            last_trade: None,
        }),
{
    let clear = BookEvent {
        seq: events.len() as u64,
        ts: 0,
        px: Px(0),
        qty: Qty(0),
        side: Side::Bid,
        kind: EventKind::Clear,
    };
    let reset = Emission { events: events.push(clear), fault: None };
    assert(reset.events.drop_last() =~= events);
    assert(replay(m, reset.events) == BookModel::empty());
    let bids = emit_levels(reset, scales, Side::Bid, snap.bids, snap.bids.len() as int);
    let both = emit_levels(bids, scales, Side::Ask, snap.asks, snap.asks.len() as int);
    if bids.fault is Some {
        lemma_fault_stays(
            bids,
            scales,
            0,
            Side::Ask,
            Seq::empty(),
            snap.asks,
            snap.asks.len() as int,
        );
    }
    lemma_levels_replay(m, reset, scales, Side::Bid, snap.bids, snap.bids.len() as int);
    assert(replay(m, reset.events).side(Side::Ask) == Map::<i64, i64>::empty());
    lemma_levels_replay(m, bids, scales, Side::Ask, snap.asks, snap.asks.len() as int);
    assert(replay(m, bids.events).side(Side::Bid) == replay(m, both.events).side(Side::Bid));
}

/// Reads a text frame: none where it is no JSON.
pub fn read_frame(text: &str) -> (r: Option<Json>)
    ensures
        crate::json::opt_json(r) == parsed(text.spec_bytes()),
{
    parse(text.as_bytes())
}

/// Whether an entry of a list of levels is a pair of texts, price and quantity, that are
/// whole numbers `px` of ticks and `qty` of steps.
pub open spec fn entry_says(entry: Doc, scales: (Seq<char>, Seq<char>), px: int, qty: int) -> bool {
    &&& entry matches Doc::Arr(items)
    &&& items.len() >= 2
    &&& items[0] matches Doc::Str(p)
    &&& items[1] matches Doc::Str(q)
    &&& ticks_of(p, scales.0) == Ok::<int, ConvError>(px)
    &&& ticks_of(q, scales.1) == Ok::<int, ConvError>(qty)
}

/// Whether an entry of a list of levels can be recorded.
pub open spec fn entry_is_good(entry: Doc, scales: (Seq<char>, Seq<char>)) -> bool {
    exists|px: int, qty: int| #[trigger] entry_says(entry, scales, px, qty)
}

/// Whether an event is the level of `side` that an entry sets at `ts_ms`, under the number
/// `place`.
pub open spec fn is_level_of_entry(
    ev: BookEvent,
    place: int,
    scales: (Seq<char>, Seq<char>),
    ts_ms: u64,
    side: Side,
    entry: Doc,
) -> bool {
    &&& ev.kind is Level
    &&& ev.side == side
    &&& ev.ts == ts_ms * 1_000_000
    &&& ev.seq == place as u64
    &&& entry_says(entry, scales, ev.px.0 as int, ev.qty.0 as int)
}

/// Whether the events from place `from` on are levels of `side` at `ts_ms`, one for each
/// entry, in order.
pub open spec fn records_entries(
    events: Seq<BookEvent>,
    from: int,
    scales: (Seq<char>, Seq<char>),
    ts_ms: u64,
    side: Side,
    entries: Seq<Doc>,
) -> bool {
    forall|k: int|
        #![trigger entries[k]]
        0 <= k < entries.len() ==> is_level_of_entry(
            events[from + k],
            from + k,
            scales,
            ts_ms,
            side,
            entries[k],
        )
}

proof fn lemma_entries_list(
    e: Emission,
    scales: (Seq<char>, Seq<char>),
    ts_ms: u64,
    side: Side,
    entries: Seq<Doc>,
    n: int,
)
    requires
        0 <= n <= entries.len(),
        ts_ms <= u64::MAX / 1_000_000,
        e.fault is None,
    ensures
        ({
            let after = emit_entries(e, scales, ts_ms, side, entries, n);
            &&& after.fault is None <==> forall|k: int|
                0 <= k < n ==> entry_is_good(#[trigger] entries[k], scales)
            &&& after.fault is None ==> {
                &&& after.events.len() == e.events.len() + n
                &&& after.events.take(e.events.len() as int) == e.events
                &&& records_entries(
                    after.events,
                    e.events.len() as int,
                    scales,
                    ts_ms,
                    side,
                    entries.take(n),
                )
            }
        }),
    decreases n,
{
    let after = emit_entries(e, scales, ts_ms, side, entries, n);
    let from = e.events.len() as int;
    if n == 0 {
        assert(e.events.take(from) =~= e.events);
    } else {
        lemma_entries_list(e, scales, ts_ms, side, entries, n - 1);
        let before = emit_entries(e, scales, ts_ms, side, entries, n - 1);
        let entry = entries[n - 1];
        if before.fault is None {
            if after.fault is None {
                let ev = after.events.last();
                assert(str_item(entry, 0) is Some && str_item(entry, 1) is Some);
                assert(entry_says(entry, scales, ev.px.0 as int, ev.qty.0 as int));
                assert(entry_is_good(entries[n - 1], scales));
                assert(after.events.take(from) =~= before.events.take(from));
                assert(is_level_of_entry(ev, from + n - 1, scales, ts_ms, side, entry));
                assert forall|k: int| #![trigger entries.take(n)[k]] 0 <= k < n implies
                    is_level_of_entry(
                    after.events[from + k],
                    from + k,
                    scales,
                    ts_ms,
                    side,
                    entries.take(n)[k],
                ) by {
                    if k < n - 1 {
                        assert(entries.take(n - 1)[k] == entries[k]);
                        assert(after.events[from + k] == before.events[from + k]);
                    }
                }
            } else if entry_is_good(entry, scales) {
                let (px, qty) = choose|px: int, qty: int| entry_says(entry, scales, px, qty);
                assert(entry_says(entry, scales, px, qty));
            }
        }
    }
}

/// What a change that is applied adds to a recording. There is no fault exactly when
/// every entry of its two lists is a price and a quantity on the grids of tick and step.
/// Then it adds one level for every entry, those of the bids first and in the order of
/// the lists: each bears its side, the time of the change, the next number, and the
/// ticks and steps of its entry. A zero quantity is recorded like any other.
pub proof fn law_change_records_every_entry(
    events: Seq<BookEvent>,
    scales: (Seq<char>, Seq<char>),
    ts_ms: u64,
    diff: Doc,
    bids: Seq<Doc>,
    asks: Seq<Doc>,
)
    requires
        has_field(diff, "b"@, Doc::Arr(bids)),
        has_field(diff, "a"@, Doc::Arr(asks)),
        ts_ms <= u64::MAX / 1_000_000,
    ensures
        ({
            let after = emit_diff(events, scales, ts_ms, diff);
            &&& after.fault is None <==> {
                &&& forall|k: int| 0 <= k < bids.len() ==> entry_is_good(#[trigger] bids[k], scales)
                &&& forall|k: int| 0 <= k < asks.len() ==> entry_is_good(#[trigger] asks[k], scales)
            }
            &&& after.fault is None ==> {
                let n = events.len() as int;
                &&& after.events.len() == n + bids.len() + asks.len()
                &&& after.events.take(n) == events
                &&& records_entries(after.events, n, scales, ts_ms, Side::Bid, bids)
                &&& records_entries(
                    after.events,
                    n + bids.len(),
                    scales,
                    ts_ms,
                    Side::Ask,
                    asks,
                )
            }
        }),
{
    law_fields_are_read_by_name(diff, "b"@, Doc::Arr(bids));
    law_fields_are_read_by_name(diff, "a"@, Doc::Arr(asks));
    let start = Emission { events, fault: None };
    let n = events.len() as int;
    lemma_entries_list(start, scales, ts_ms, Side::Bid, bids, bids.len() as int);
    let half = emit_entries(start, scales, ts_ms, Side::Bid, bids, bids.len() as int);
    assert(bids.take(bids.len() as int) =~= bids);
    assert(asks.take(asks.len() as int) =~= asks);
    let after = emit_diff(events, scales, ts_ms, diff);
    assert(after == emit_entries(half, scales, ts_ms, Side::Ask, asks, asks.len() as int));
    if half.fault is None {
        lemma_entries_list(half, scales, ts_ms, Side::Ask, asks, asks.len() as int);
        if after.fault is None {
            let m = half.events.len() as int;
            assert(after.events.take(n) =~= after.events.take(m).take(n));
            assert forall|k: int| #![trigger bids[k]] 0 <= k < bids.len() implies
                is_level_of_entry(
                after.events[n + k],
                n + k,
                scales,
                ts_ms,
                Side::Bid,
                bids[k],
            ) by {
                assert(after.events[n + k] == after.events.take(m)[n + k]);
            }
        }
    } else {
        lemma_fault_stays(
            half,
            scales,
            ts_ms,
            Side::Ask,
            asks,
            Seq::empty(),
            asks.len() as int,
        );
    }
}

/// A side that a change has no list for adds nothing.
pub proof fn law_missing_list_adds_nothing(
    events: Seq<BookEvent>,
    scales: (Seq<char>, Seq<char>),
    ts_ms: u64,
    diff: Doc,
    entries: Seq<Doc>,
)
    requires
        ts_ms <= u64::MAX / 1_000_000,
        emit_diff(events, scales, ts_ms, diff).fault is None,
    ensures
        ({
            let after = emit_diff(events, scales, ts_ms, diff).events;
            let n = events.len() as int;
            &&& lacks(diff, "b"@) && lacks(diff, "a"@) ==> after == events
            &&& lacks(diff, "a"@) && has_field(diff, "b"@, Doc::Arr(entries)) ==> {
                &&& after.len() == n + entries.len()
                &&& records_entries(after, n, scales, ts_ms, Side::Bid, entries)
            }
            &&& lacks(diff, "b"@) && has_field(diff, "a"@, Doc::Arr(entries)) ==> {
                &&& after.len() == n + entries.len()
                &&& records_entries(after, n, scales, ts_ms, Side::Ask, entries)
            }
        }),
{
    let start = Emission { events, fault: None };
    assert(entries.take(entries.len() as int) =~= entries);
    if lacks(diff, "b"@) {
        law_missing_fields_are_not_read(diff, "b"@);
        if has_field(diff, "a"@, Doc::Arr(entries)) {
            law_fields_are_read_by_name(diff, "a"@, Doc::Arr(entries));
            lemma_entries_list(start, scales, ts_ms, Side::Ask, entries, entries.len() as int);
        }
    }
    if lacks(diff, "a"@) {
        law_missing_fields_are_not_read(diff, "a"@);
        if has_field(diff, "b"@, Doc::Arr(entries)) {
            law_fields_are_read_by_name(diff, "b"@, Doc::Arr(entries));
            lemma_entries_list(start, scales, ts_ms, Side::Bid, entries, entries.len() as int);
        }
    }
}

/// What a session makes of a change with the updates from `first` to `last`. One that
/// reaches back to the last update recorded is applied: all its entries are recorded at
/// its time, and the recording then has the updates up to `last`. One whose updates are
/// all known already, before the first change since the snapshot, is passed over. Before
/// any other a new snapshot is asked for, and nothing is recorded.
pub proof fn law_change_is_joined(
    events: Seq<BookEvent>,
    sync: DepthSync,
    scales: (Seq<char>, Seq<char>),
    with_trades: bool,
    max_events: Option<u64>,
    v: Doc,
    numbers: (Number, Number, Number),
    first: u64,
    last: u64,
    ts_ms: u64,
)
    requires
        has_field(v, "e"@, Doc::Str("depthUpdate"@)),
        has_field(v, "U"@, Doc::Num(numbers.0)),
        has_field(v, "u"@, Doc::Num(numbers.1)),
        has_field(v, "E"@, Doc::Num(numbers.2)),
        numbers.0.unsigned == Some(first),
        numbers.1.unsigned == Some(last),
        numbers.2.unsigned == Some(ts_ms),
    ensures
        ({
            let after = on_doc(events, sync, scales, with_trades, max_events, v);
            let known = !sync.synced && last <= sync.last_update_id;
            let reaches = if sync.synced {
                first == sync.prev_u + 1
            } else {
                first <= sync.last_update_id + 1
            };
            &&& known ==> {
                &&& after.emission.events == events
                &&& after.emission.fault is None
                &&& after.sync == sync
                &&& after.next is Skip
            }
            &&& !known && !reaches ==> {
                &&& after.emission.events == events
                &&& after.emission.fault is None
                &&& after.sync == sync
                &&& after.next is Resnapshot
            }
            &&& !known && reaches ==> {
                let added = emit_diff(events, scales, ts_ms, v);
                &&& after.emission == added
                &&& added.fault is None ==> {
                    &&& after.sync.synced
                    &&& after.sync.prev_u == last
                    &&& after.sync.last_update_id == sync.last_update_id
                    &&& after.next is Stop <==> (max_events matches Some(max) && added.events.len()
                        >= max)
                    &&& !(after.next is Stop) ==> after.next is Go
                }
                &&& added.fault is Some ==> after.sync == sync
            }
        }),
{
    law_fields_are_read_by_name(v, "e"@, Doc::Str("depthUpdate"@));
    law_fields_are_read_by_name(v, "U"@, Doc::Num(numbers.0));
    law_fields_are_read_by_name(v, "u"@, Doc::Num(numbers.1));
    law_fields_are_read_by_name(v, "E"@, Doc::Num(numbers.2));
}

/// What a session makes of an execution, where it records them: one trade at the time of
/// the message, with its price in ticks and its quantity in steps, a sale where the buyer
/// was the maker and a purchase otherwise. It has no part in how changes are joined.
pub proof fn law_execution_is_recorded(
    events: Seq<BookEvent>,
    sync: DepthSync,
    scales: (Seq<char>, Seq<char>),
    max_events: Option<u64>,
    v: Doc,
    number: Number,
    ts_ms: u64,
    texts: (Seq<char>, Seq<char>),
    px: int,
    qty: int,
)
    requires
        has_field(v, "e"@, Doc::Str("trade"@)),
        has_field(v, "E"@, Doc::Num(number)),
        has_field(v, "p"@, Doc::Str(texts.0)),
        has_field(v, "q"@, Doc::Str(texts.1)),
        number.unsigned == Some(ts_ms),
        ts_ms <= u64::MAX / 1_000_000,
        ticks_of(texts.0, scales.0) == Ok::<int, ConvError>(px),
        ticks_of(texts.1, scales.1) == Ok::<int, ConvError>(qty),
    ensures
        ({
            let after = on_doc(events, sync, scales, true, max_events, v);
            let without = on_doc(events, sync, scales, false, max_events, v);
            let ev = after.emission.events.last();
            &&& after.emission.fault is None
            &&& after.emission.events.len() == events.len() + 1
            &&& after.emission.events.drop_last() == events
            &&& ev.kind is Trade
            &&& ev.ts == ts_ms * 1_000_000
            &&& ev.seq == events.len() as u64
            &&& ev.px.0 == px
            &&& ev.qty.0 == qty
            &&& has_field(v, "m"@, Doc::Bool(true)) ==> ev.side is Ask
            &&& has_field(v, "m"@, Doc::Bool(false)) || lacks(v, "m"@) ==> ev.side is Bid
            &&& after.sync == sync
            &&& without.emission.events == events
            &&& without.emission.fault is None
            &&& without.sync == sync
        }),
{
    reveal_strlit("trade");
    reveal_strlit("depthUpdate");
    assert("trade"@.len() != "depthUpdate"@.len());
    law_fields_are_read_by_name(v, "e"@, Doc::Str("trade"@));
    law_fields_are_read_by_name(v, "E"@, Doc::Num(number));
    law_fields_are_read_by_name(v, "p"@, Doc::Str(texts.0));
    law_fields_are_read_by_name(v, "q"@, Doc::Str(texts.1));
    if has_field(v, "m"@, Doc::Bool(true)) {
        law_fields_are_read_by_name(v, "m"@, Doc::Bool(true));
    }
    if has_field(v, "m"@, Doc::Bool(false)) {
        law_fields_are_read_by_name(v, "m"@, Doc::Bool(false));
    }
    if lacks(v, "m"@) {
        law_missing_fields_are_not_read(v, "m"@);
    }
    assert(on_doc(events, sync, scales, true, max_events, v).emission.events.drop_last()
        =~= events);
}

proof fn lemma_levels_list(
    e: Emission,
    scales: (Seq<char>, Seq<char>),
    side: Side,
    levels: Seq<(Seq<char>, Seq<char>)>,
    n: int,
)
    requires
        0 <= n <= levels.len(),
        e.fault is None,
    ensures
        ({
            let after = emit_levels(e, scales, side, levels, n);
            &&& after.fault is None <==> forall|k: int|
                0 <= k < n ==> level_is_good(#[trigger] levels[k], scales)
            &&& after.fault is None ==> {
                &&& after.events.len() == e.events.len() + n
                &&& after.events.take(e.events.len() as int) == e.events
                &&& records_levels(
                    after.events,
                    e.events.len() as int,
                    scales,
                    side,
                    levels.take(n),
                )
            }
        }),
    decreases n,
{
    let after = emit_levels(e, scales, side, levels, n);
    let from = e.events.len() as int;
    if n == 0 {
        assert(e.events.take(from) =~= e.events);
    } else {
        lemma_levels_list(e, scales, side, levels, n - 1);
        let before = emit_levels(e, scales, side, levels, n - 1);
        assert(level_is_good(levels[n - 1], scales) || !level_is_good(levels[n - 1], scales));
        if before.fault is None && after.fault is None {
            assert(after.events.take(from) =~= before.events.take(from));
            assert forall|k: int| #![trigger levels.take(n)[k]] 0 <= k < n implies {
                let ev = after.events[from + k];
                let level = levels.take(n)[k];
                &&& ev.kind is Level
                &&& ev.side == side
                &&& ev.ts == 0
                &&& ev.seq == (from + k) as u64
                &&& ticks_of(level.0, scales.0) == Ok::<int, ConvError>(ev.px.0 as int)
                &&& ticks_of(level.1, scales.1) == Ok::<int, ConvError>(ev.qty.0 as int)
            } by {
                if k < n - 1 {
                    assert(levels.take(n - 1)[k] == levels[k]);
                    assert(after.events[from + k] == before.events[from + k]);
                }
            }
        }
    }
}

/// Whether a level of a snapshot is on the grids of tick and step.
pub open spec fn level_is_good(
    level: (Seq<char>, Seq<char>),
    scales: (Seq<char>, Seq<char>),
) -> bool {
    ticks_of(level.0, scales.0) is Ok && ticks_of(level.1, scales.1) is Ok
}

/// Whether the events from place `from` on are levels of `side` without a time, one for
/// each level of a snapshot, in order.
pub open spec fn records_levels(
    events: Seq<BookEvent>,
    from: int,
    scales: (Seq<char>, Seq<char>),
    side: Side,
    levels: Seq<(Seq<char>, Seq<char>)>,
) -> bool {
    forall|k: int|
        #![trigger levels[k]]
        0 <= k < levels.len() ==> {
            let ev = events[from + k];
            &&& ev.kind is Level
            &&& ev.side == side
            &&& ev.ts == 0
            &&& ev.seq == (from + k) as u64
            &&& ticks_of(levels[k].0, scales.0) == Ok::<int, ConvError>(ev.px.0 as int)
            &&& ticks_of(levels[k].1, scales.1) == Ok::<int, ConvError>(ev.qty.0 as int)
        }
}

/// What a snapshot adds to a recording: a clear, then one level for each of its bids and
/// each of its asks, in their order, with their ticks and steps. There is a fault exactly
/// when some level is off the grids of tick and step.
pub proof fn law_snapshot_records_every_level(
    events: Seq<BookEvent>,
    scales: (Seq<char>, Seq<char>),
    snap: SnapshotModel,
)
    ensures
        ({
            let after = emit_snapshot(events, scales, snap);
            let n = events.len() as int;
            &&& after.fault is None <==> {
                &&& forall|k: int|
                    0 <= k < snap.bids.len() ==> level_is_good(#[trigger] snap.bids[k], scales)
                &&& forall|k: int|
                    0 <= k < snap.asks.len() ==> level_is_good(#[trigger] snap.asks[k], scales)
            }
            &&& after.fault is None ==> {
                &&& after.events.len() == n + 1 + snap.bids.len() + snap.asks.len()
                &&& after.events.take(n) == events
                &&& after.events[n].kind is Clear
                &&& after.events[n].ts == 0
                &&& after.events[n].seq == n as u64
                &&& records_levels(after.events, n + 1, scales, Side::Bid, snap.bids)
                &&& records_levels(
                    after.events,
                    n + 1 + snap.bids.len(),
                    scales,
                    Side::Ask,
                    snap.asks,
                )
            }
        }),
{
    let clear = BookEvent {
        seq: events.len() as u64,
        ts: 0,
        px: Px(0),
        qty: Qty(0),
        side: Side::Bid,
        kind: EventKind::Clear,
    };
    let n = events.len() as int;
    let reset = Emission { events: events.push(clear), fault: None };
    let half = emit_levels(reset, scales, Side::Bid, snap.bids, snap.bids.len() as int);
    let after = emit_levels(half, scales, Side::Ask, snap.asks, snap.asks.len() as int);
    assert(snap.bids.take(snap.bids.len() as int) =~= snap.bids);
    assert(snap.asks.take(snap.asks.len() as int) =~= snap.asks);
    lemma_levels_list(reset, scales, Side::Bid, snap.bids, snap.bids.len() as int);
    if half.fault is None {
        lemma_levels_list(half, scales, Side::Ask, snap.asks, snap.asks.len() as int);
        if after.fault is None {
            let m = half.events.len() as int;
            assert(after.events.take(m) == half.events);
            assert(half.events.take(n + 1) == reset.events);
            assert(after.events.take(n) =~= reset.events.take(n)) by {
                assert forall|i: int| 0 <= i < n implies after.events[i] == reset.events[i] by {
                    assert(after.events[i] == after.events.take(m)[i]);
                    assert(half.events[i] == half.events.take(n + 1)[i]);
                }
            }
            assert(reset.events.take(n) =~= events);
            assert(after.events[n] == after.events.take(m)[n]);
            assert(half.events[n] == half.events.take(n + 1)[n]);
            assert forall|k: int| #![trigger snap.bids[k]] 0 <= k < snap.bids.len() implies {
                let ev = after.events[n + 1 + k];
                &&& ev.kind is Level
                &&& ev.side == Side::Bid
                &&& ev.ts == 0
                &&& ev.seq == (n + 1 + k) as u64
                &&& ticks_of(snap.bids[k].0, scales.0) == Ok::<int, ConvError>(ev.px.0 as int)
                &&& ticks_of(snap.bids[k].1, scales.1) == Ok::<int, ConvError>(ev.qty.0 as int)
            } by {
                assert(after.events[n + 1 + k] == after.events.take(m)[n + 1 + k]);
            }
        }
    } else {
        lemma_fault_stays(
            half,
            scales,
            0,
            Side::Ask,
            Seq::empty(),
            snap.asks,
            snap.asks.len() as int,
        );
    }
}

/// What a fault says. A price that is off the grid, or no number, is named as such with its
/// text and the reason, that of a trade as a trade's; only where the price is fine the
/// quantity is. A fault that was there before stays, and neither adds an event.
pub proof fn law_faults_name_what_is_wrong(
    e: Emission,
    scales: (Seq<char>, Seq<char>),
    ts_ms: u64,
    side: Side,
    px: Seq<char>,
    qty: Seq<char>,
    c: ConvError,
)
    ensures
        ({
            let level = emit(e, scales, EventKind::Level, ts_ms, side, px, qty);
            let trade = emit(e, scales, EventKind::Trade, ts_ms, side, px, qty);
            &&& e.fault is Some ==> level == e && trade == e
            &&& e.fault is None && ticks_of(px, scales.0) == Err::<int, ConvError>(c) ==> {
                &&& level.events == e.events
                &&& level.fault == Some(FaultModel::Convert(Field::Px, px, c))
                &&& trade.events == e.events
                &&& trade.fault == Some(FaultModel::Convert(Field::TradePx, px, c))
            }
            &&& e.fault is None && ticks_of(px, scales.0) is Ok && ticks_of(qty, scales.1) == Err::<
                int,
                ConvError,
            >(c) ==> {
                &&& level.events == e.events
                &&& level.fault == Some(FaultModel::Convert(Field::Qty, qty, c))
                &&& trade.events == e.events
                &&& trade.fault == Some(FaultModel::Convert(Field::TradeQty, qty, c))
            }
        }),
{
}

/// A change with an entry that cannot be recorded stops there: the entries before it are
/// recorded, and neither it nor any later one is.
pub proof fn law_recording_stops_at_the_first_bad_entry(
    e: Emission,
    scales: (Seq<char>, Seq<char>),
    ts_ms: u64,
    side: Side,
    entries: Seq<Doc>,
    k: int,
)
    requires
        e.fault is None,
        ts_ms <= u64::MAX / 1_000_000,
        0 <= k < entries.len(),
        forall|j: int| 0 <= j < k ==> entry_is_good(#[trigger] entries[j], scales),
        !entry_is_good(entries[k], scales),
    ensures
        ({
            let after = emit_entries(e, scales, ts_ms, side, entries, entries.len() as int);
            let n = e.events.len() as int;
            &&& after.fault is Some
            &&& after.events.len() == n + k
            &&& after.events.take(n) == e.events
            &&& records_entries(after.events, n, scales, ts_ms, side, entries.take(k))
            &&& entries[k] matches Doc::Arr(items) ==> {
                &&& items.len() == 0 || !(items[0] is Str) ==> after.fault == Some(
                    FaultModel::Missing(Missing::DiffPx),
                )
                &&& items.len() > 0 && items[0] is Str && (items.len() == 1 || !(items[1] is Str))
                    ==> after.fault == Some(FaultModel::Missing(Missing::DiffQty))
            }
        }),
{
    lemma_entries_list(e, scales, ts_ms, side, entries, k);
    lemma_entries_list(e, scales, ts_ms, side, entries, k + 1);
    let before = emit_entries(e, scales, ts_ms, side, entries, k);
    let at = emit_entries(e, scales, ts_ms, side, entries, k + 1);
    assert(at == emit_entry(before, scales, ts_ms, side, entries[k]));
    lemma_entries_fail(e, scales, ts_ms, side, entries, k + 1, entries.len() as int);
}

/// A message of any other kind records nothing and changes nothing, and neither does a
/// change without its update ids or its time.
pub proof fn law_other_messages_change_nothing(
    events: Seq<BookEvent>,
    sync: DepthSync,
    scales: (Seq<char>, Seq<char>),
    with_trades: bool,
    max_events: Option<u64>,
    v: Doc,
    kind: Seq<char>,
)
    ensures
        ({
            let after = on_doc(events, sync, scales, with_trades, max_events, v);
            let same = after.emission.events == events && after.emission.fault is None && after.sync
                == sync;
            &&& has_field(v, "e"@, Doc::Str(kind)) && kind != "depthUpdate"@ && kind != "trade"@
                ==> same
            &&& lacks(v, "e"@) ==> same
            &&& has_field(v, "e"@, Doc::Str("depthUpdate"@)) && (lacks(v, "u"@) || lacks(v, "U"@)
                || lacks(v, "E"@)) ==> same && after.next is Skip
            &&& has_field(v, "e"@, Doc::Str("trade"@)) && (lacks(v, "p"@) || lacks(v, "q"@) || lacks(
                v,
                "E"@,
            )) ==> same
        }),
{
    reveal_strlit("trade");
    reveal_strlit("depthUpdate");
    assert("trade"@.len() != "depthUpdate"@.len());
    if has_field(v, "e"@, Doc::Str(kind)) {
        law_fields_are_read_by_name(v, "e"@, Doc::Str(kind));
    }
    if has_field(v, "e"@, Doc::Str("depthUpdate"@)) {
        law_fields_are_read_by_name(v, "e"@, Doc::Str("depthUpdate"@));
    }
    if has_field(v, "e"@, Doc::Str("trade"@)) {
        law_fields_are_read_by_name(v, "e"@, Doc::Str("trade"@));
    }
    if lacks(v, "e"@) {
        law_missing_fields_are_not_read(v, "e"@);
    }
    if lacks(v, "u"@) {
        law_missing_fields_are_not_read(v, "u"@);
    }
    if lacks(v, "U"@) {
        law_missing_fields_are_not_read(v, "U"@);
    }
    if lacks(v, "E"@) {
        law_missing_fields_are_not_read(v, "E"@);
    }
    if lacks(v, "p"@) {
        law_missing_fields_are_not_read(v, "p"@);
    }
    if lacks(v, "q"@) {
        law_missing_fields_are_not_read(v, "q"@);
    }
}

/// A session stops once it has as many events as it is meant to have, and without such a
/// number goes on.
pub proof fn law_sessions_stop_at_their_limit(count: nat, max: u64)
    ensures
        count >= max ==> next_after(count, Some(max)) is Stop,
        count < max ==> next_after(count, Some(max)) is Go,
        next_after(count, None) is Go,
{
}

/// What becomes of a change is decided by its ids alone. Once one was applied, it is applied
/// exactly when it begins right after the last one, and otherwise there is a gap. Before, it
/// is stale exactly when it ends by the snapshot, and applied exactly when it ends after the
/// snapshot and begins no later than right after it.
pub proof fn law_join_is_decided_by_the_ids(s: DepthSync, first: u64, last: u64)
    ensures
        s.synced ==> (join_of(s, first, last) is Apply <==> first == s.prev_u + 1),
        s.synced ==> (join_of(s, first, last) is Gap <==> first != s.prev_u + 1),
        !s.synced ==> (join_of(s, first, last) is Stale <==> last <= s.last_update_id),
        !s.synced ==> (join_of(s, first, last) is Apply <==> last > s.last_update_id && first
            <= s.last_update_id + 1),
        !s.synced ==> (join_of(s, first, last) is Gap <==> last > s.last_update_id && first
            > s.last_update_id + 1),
{
}

/// A message can be taken in wherever its time fits into nanoseconds, and wherever it has
/// none.
pub proof fn law_fitting_times_are_taken(s: &Session, v: &Json, r: bool, n: Number, ts_ms: u64)
    requires
        call_ensures(Session::can_take, (s, v), r),
    ensures
        has_field(v@, "E"@, Doc::Num(n)) && n.unsigned == Some(ts_ms) && ts_ms * 1_000_000
            <= u64::MAX ==> r,
        lacks(v@, "E"@) ==> r,
{
    if has_field(v@, "E"@, Doc::Num(n)) {
        law_fields_are_read_by_name(v@, "E"@, Doc::Num(n));
    }
    if lacks(v@, "E"@) {
        law_missing_fields_are_not_read(v@, "E"@);
    }
}

} // verus!
