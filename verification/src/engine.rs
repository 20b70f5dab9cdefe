//! The pipeline: one producer that applies events to a book, publishes its top and
//! broadcasts the events; consumers that follow the broadcast and fall back on the
//! published top when they are lapped.

use crate::book::{lemma_best_is_extreme, OrderBook};
use crate::event::{BookEvent, Side};
use crate::ladder::{apply_event, best, replay, BookModel};
use crate::pack::{law_unpack_undoes_pack, pack, packed, unpack, unpacked, UnpackError, W};
use crate::price::{Px, Qty};
use crate::ring::{
    is_power_of_two, received, stores_per_push, Consumer, Producer, Recv, RingHandle, RingLoad,
    SpmcRing,
};
use crate::ring_model::{law_no_torn_record, law_receive_at_rest, loads_seen_at, stream_ok};
use crate::seqlock::{
    self, last_began, law_reads_back_what_was_written, made_with, result_of, share, CellLoad,
    Reader, SeqLock, TopOfBook, Writer,
};
use std::marker::PhantomData;
use std::sync::Arc;
use vstd::prelude::*;

verus! {

/// The published top of a book, zeros standing for an empty side.
pub open spec fn top_of(m: BookModel, stamp: u64) -> TopOfBook {
    let bid = match best(Side::Bid, m.bids) {
        Some(level) => level,
        None => (Px(0), Qty(0)),
    };
    let ask = match best(Side::Ask, m.asks) {
        Some(level) => level,
        None => (Px(0), Qty(0)),
    };
    TopOfBook { bid_px: bid.0.0, bid_qty: bid.1.0, ask_px: ask.0.0, ask_qty: ask.1.0, stamp }
}

/// The top of the book after the first `n` events, stamped with their number.
pub open spec fn top_after(events: Seq<BookEvent>, n: int) -> TopOfBook {
    top_of(replay(BookModel::empty(), events.take(n)), n as u64)
}

/// The top of an empty book.
proof fn lemma_empty_top()
    ensures
        top_of(BookModel::empty(), 0) == (TopOfBook {
            bid_px: 0,
            bid_qty: 0,
            ask_px: 0,
            ask_qty: 0,
            stamp: 0,
        }),
{
}

/// The pipelines that are driven by a book of type `B`.
#[derive(Debug)]
pub struct Engine<B: OrderBook> {
    book: PhantomData<B>,
}

impl<B: OrderBook> Engine<B> {
    /// A pipeline with an empty book and a ring of the given capacity.
    #[must_use]
    pub fn new(ring_capacity: usize) -> (r: (EngineProducer<B>, EngineHandle))
        requires
            is_power_of_two(ring_capacity as nat),
        ensures
            r.0.wf(),
            r.0.state() == BookModel::empty(),
            r.0.processed() == 0,
            r.0.published() == top_of(BookModel::empty(), 0),
            r.0.stored() == Seq::<TopOfBook>::empty(),
            r.0.cell().start() == made_with(top_of(BookModel::empty(), 0)),
            r.1.cell() == r.0.cell(),
            r.0.sent() == Seq::<BookEvent>::empty(),
            r.0.slots() == ring_capacity,
            forall|lo: int, hi: int|
                r.0.book_covers(lo, hi) == B::fresh_covers(lo, hi),
            r.1.wf(),
            r.1.slots() == ring_capacity,
    {
        let top = Writer::new(TopOfBook::default());
        let cell = top.share();
        proof {
            lemma_empty_top();
        }
        let (out, ring) = SpmcRing::<W>::with_capacity(ring_capacity).split();
        let book = B::default();
        proof {
            B::lemma_default(book);
        }
        let producer = EngineProducer {
            book,
            top,
            out,
            stamp: 0,
            sent: Ghost(Seq::empty()),
        };
        assert(producer.out.sent() =~= Seq::new(0, |i: int| packed(producer.sent@[i])));
        (producer, EngineHandle { ring, top: cell })
    }
}

/// The producing side of a pipeline.
pub struct EngineProducer<B: OrderBook> {
    book: B,
    top: Writer,
    out: Producer<W>,
    stamp: u64,
    sent: Ghost<Seq<BookEvent>>,
}

impl<B: OrderBook> EngineProducer<B> {
    /// What holds of every producer: its book is what the events processed make of an
    /// empty one, the ring has carried the records of exactly these events, and after
    /// each of them the top of the book was stored.
    pub closed spec fn wf(&self) -> bool {
        &&& self.book.model() == replay(BookModel::empty(), self.sent@)
        &&& forall|i: int|
            0 <= i < self.sent@.len() ==> #[trigger] self.top.stored()[i] == top_after(
                self.sent@,
                i + 1,
            )
        &&& self.book.wf()
        &&& self.out.wf()
        &&& self.top.wf()
        &&& self.top.stored().len() == self.sent@.len()
        &&& self.out.sent() == Seq::new(self.sent@.len(), |i: int| packed(self.sent@[i]))
        &&& self.stamp == self.sent@.len()
    }

    /// The observable state of the book.
    pub closed spec fn state(&self) -> BookModel {
        self.book.model()
    }

    /// Whether the book takes `ev`.
    pub closed spec fn accepts(&self, ev: BookEvent) -> bool {
        self.book.accepts(ev)
    }

    /// Whether the book takes every event with a price in `lo..=hi` from now on.
    pub closed spec fn book_covers(&self, lo: int, hi: int) -> bool {
        self.book.covers(lo, hi)
    }

    /// A covered range admits its events.
    pub proof fn lemma_covers(&self, lo: int, hi: int, ev: BookEvent)
        requires
            self.wf(),
            self.book_covers(lo, hi),
            ev.kind is Level ==> lo <= ev.px.0 <= hi,
        ensures
            self.accepts(ev),
    {
        self.book.lemma_covers(lo, hi, ev);
    }

    /// The events processed.
    pub closed spec fn sent(&self) -> Seq<BookEvent> {
        self.sent@
    }

    /// The number of events processed.
    pub closed spec fn processed(&self) -> u64 {
        self.stamp
    }

    /// The top that was published last.
    pub closed spec fn published(&self) -> TopOfBook {
        self.top.latest()
    }

    /// The tops that were stored into the cell, in order.
    pub closed spec fn stored(&self) -> Seq<TopOfBook> {
        self.top.stored()
    }

    /// The cell that the tops are published in.
    pub closed spec fn cell(&self) -> SeqLock {
        self.top.cell()
    }

    /// The number of ring slots.
    pub closed spec fn slots(&self) -> nat {
        self.out.slots()
    }

    /// The records that the ring has carried.
    pub closed spec fn records(&self) -> Seq<Seq<u64>> {
        self.out.sent()
    }

    /// The ring has carried one record for each event, the book is what the events make
    /// of an empty one, and the tops stored are those after each event.
    pub proof fn law_every_event_is_carried_and_its_top_stored(&self)
        requires
            self.wf(),
        ensures
            self.records() == Seq::new(self.sent().len(), |i: int| packed(self.sent()[i])),
            self.processed() == self.sent().len(),
            self.state() == replay(BookModel::empty(), self.sent()),
            self.stored() == Seq::new(self.sent().len(), |i: int| top_after(self.sent(), i + 1)),
    {
        assert(self.stored() =~= Seq::new(
            self.sent().len(),
            |i: int| top_after(self.sent(), i + 1),
        ));
    }

    /// The records are a stream that the laws of the ring speak of.
    proof fn lemma_stream_ok(&self)
        requires
            self.wf(),
            self.sent().len() < 0x8000_0000_0000_0000,
        ensures
            stream_ok(self.slots(), W as nat, self.records()),
    {
        self.out.law_stores_are_those_of_the_records();
        let k = choose|k: nat| self.slots() == #[trigger] vstd::arithmetic::power2::pow2(k);
        vstd::arithmetic::power2::lemma_pow2_pos(k);
    }

    /// The top that was published last is the last one stored.
    proof fn lemma_published(&self)
        ensures
            self.published() == seqlock::published(
                self.cell().start().fields,
                self.stored(),
                self.stored().len(),
            ),
    {
    }

    /// Applies an event, publishes the new top under the next stamp, and broadcasts
    /// the event.
    #[inline]
    pub fn process(&mut self, ev: &BookEvent)
        requires
            old(self).wf(),
            old(self).accepts(*ev),
            old(self).processed() < u64::MAX,
        ensures
            final(self).wf(),
            final(self).state() == apply_event(old(self).state(), *ev),
            final(self).processed() == old(self).processed() + 1,
            final(self).stored() == old(self).stored().push(
                top_of(final(self).state(), final(self).processed()),
            ),
            final(self).published() == top_of(final(self).state(), final(self).processed()),
            final(self).cell() == old(self).cell(),
            final(self).sent() == old(self).sent().push(*ev),
            final(self).slots() == old(self).slots(),
            forall|lo: int, hi: int|
                #![trigger final(self).book_covers(lo, hi)]
                old(self).book_covers(lo, hi) && (ev.kind is Level ==> lo <= ev.px.0 <= hi)
                    ==> final(self).book_covers(lo, hi),
    {
        self.book.apply(ev);
        let (bp, bq) = match self.book.best_bid() {
            Some(level) => level,
            None => (Px(0), Qty(0)),
        };
        let (ap, aq) = match self.book.best_ask() {
            Some(level) => level,
            None => (Px(0), Qty(0)),
        };
        self.stamp = self.stamp + 1;
        let top = TopOfBook {
            bid_px: bp.ticks(),
            bid_qty: bq.lots(),
            ask_px: ap.ticks(),
            ask_qty: aq.lots(),
            stamp: self.stamp,
        };
        self.top.store(top);
        self.out.push(pack(ev));
        self.sent = Ghost(self.sent@.push(*ev));
        proof {
            let before = old(self).sent@;
            let n = before.len() as int;
            assert(self.sent@.drop_last() =~= before);
            assert(self.sent@.take(n + 1) =~= self.sent@);
            assert forall|i: int| 0 <= i < self.sent@.len() implies #[trigger] self.top.stored()[i]
                == top_after(self.sent@, i + 1) by {
                if i < n {
                    assert(self.top.stored()[i] == old(self).top.stored()[i]);
                    assert(self.sent@.take(i + 1) =~= before.take(i + 1));
                }
            }
        }
        assert(self.out.sent() =~= Seq::new(self.sent@.len(), |i: int| packed(self.sent@[i])));
    }

    /// The book.
    #[must_use]
    pub fn book(&self) -> (b: &B)
        requires
            self.wf(),
        ensures
            b.wf(),
            b.model() == self.state(),
    {
        &self.book
    }

    /// The number of events processed.
    #[must_use]
    pub fn stamp(&self) -> (n: u64)
        ensures
            n == self.processed(),
    {
        self.stamp
    }

    /// The top that was published last.
    #[must_use]
    pub fn top_of_book(&self) -> (t: TopOfBook)
        requires
            self.wf(),
        ensures
            t == self.published(),
    {
        self.top.last()
    }
}

/// What a consumer has observed.
#[derive(Debug, Clone, Copy)]
pub enum Observed {
    /// The next event.
    Event(BookEvent),
    /// Events were overwritten before they could be read, and the published top
    /// was taken instead.
    Overrun {
        /// How many events.
        skipped: u64,
        /// The published top.
        snapshot: TopOfBook,
    },
    /// Nothing new.
    Idle,
    /// Events were overwritten, and the published top never came to rest.
    Unsettled {
        /// How many events.
        skipped: u64,
    },
    /// A record that is no event.
    Corrupt(UnpackError),
}

/// A consuming side of a pipeline.
pub struct EngineConsumer {
    inbox: Consumer<W>,
    top: Reader,
    /// Events received.
    pub seen: u64,
    /// Times the consumer was lapped and took the published top.
    pub resyncs: u64,
    /// The middle price of the last top that was taken.
    pub last_mid: i64,
}

/// The middle of two prices, towards zero.
pub open spec fn mid(a: i64, b: i64) -> i64 {
    let sum = a + b;
    (if sum >= 0 { sum / 2 } else { -((-sum) / 2) }) as i64
}

/// The middle of two prices, towards zero.
pub fn mid_price(a: i64, b: i64) -> (m: i64)
    ensures
        m == mid(a, b),
        2 * m - 1 <= a + b <= 2 * m + 1,
{
    ((a as i128 + b as i128) / 2) as i64
}

/// A consumer's counters.
pub struct Tally {
    /// Events received.
    pub seen: u64,
    /// Resyncs.
    pub resyncs: u64,
    /// Last middle price.
    pub last_mid: i64,
}

/// What a consumer makes of what it received and, when it was lapped, of the top
/// that it took.
pub open spec fn digest(t: Tally, r: Recv<W>, top: Option<TopOfBook>) -> (Observed, Tally) {
    match r {
        Recv::Item(rec) => match unpacked(rec@) {
            Ok(ev) => (Observed::Event(ev), Tally { seen: (t.seen + 1) as u64, ..t }),
            Err(e) => (Observed::Corrupt(e), t),
        },
        Recv::Overrun { skipped } => match top {
            Some(snapshot) => (
                Observed::Overrun { skipped, snapshot },
                Tally {
                    resyncs: (t.resyncs + 1) as u64,
                    last_mid: mid(snapshot.bid_px, snapshot.ask_px),
                    ..t
                },
            ),
            None => (Observed::Unsettled { skipped }, t),
        },
        Recv::Empty => (Observed::Idle, t),
    }
}

impl EngineConsumer {
    /// What holds of every consumer.
    pub closed spec fn wf(&self) -> bool {
        self.inbox.wf()
    }

    /// The number of ring slots.
    pub closed spec fn slots(&self) -> nat {
        self.inbox.slots()
    }

    /// The ring position that is read next.
    pub closed spec fn next(&self) -> u64 {
        self.inbox.next()
    }

    /// The cell that the tops are published in.
    pub closed spec fn cell(&self) -> SeqLock {
        self.top.cell()
    }

    /// The loads from the ring that were made, in order.
    pub closed spec fn ring_log(&self) -> Seq<RingLoad> {
        self.inbox.log()
    }

    /// The loads from the cell that were made, in order.
    pub closed spec fn cell_log(&self) -> Seq<CellLoad> {
        self.top.log()
    }

    /// The counters.
    pub closed spec fn tally(&self) -> Tally {
        Tally { seen: self.seen, resyncs: self.resyncs, last_mid: self.last_mid }
    }

    /// Brings the counters up to date with what was received.
    pub fn take(&mut self, r: Recv<W>, top: Option<TopOfBook>) -> (o: Observed)
        requires
            old(self).tally().seen < u64::MAX,
            old(self).tally().resyncs < u64::MAX,
        ensures
            (o, final(self).tally()) == digest(old(self).tally(), r, top),
            final(self).next() == old(self).next(),
            final(self).slots() == old(self).slots(),
            final(self).cell() == old(self).cell(),
            final(self).ring_log() == old(self).ring_log(),
            final(self).cell_log() == old(self).cell_log(),
            old(self).wf() ==> final(self).wf(),
    {
        match r {
            Recv::Item(rec) => match unpack(&rec) {
                Ok(ev) => {
                    self.seen = self.seen + 1;
                    Observed::Event(ev)
                },
                Err(e) => Observed::Corrupt(e),
            },
            Recv::Overrun { skipped } => match top {
                Some(snapshot) => {
                    self.last_mid = mid_price(snapshot.bid_px, snapshot.ask_px);
                    self.resyncs = self.resyncs + 1;
                    Observed::Overrun { skipped, snapshot }
                },
                None => Observed::Unsettled { skipped },
            },
            Recv::Empty => Observed::Idle,
        }
    }

    /// Takes one step: the next event, or the published top when events were lost.
    #[inline]
    pub fn poll(&mut self) -> (o: Observed)
        requires
            old(self).wf(),
            old(self).tally().seen < u64::MAX,
            old(self).tally().resyncs < u64::MAX,
        ensures
            final(self).wf(),
            final(self).slots() == old(self).slots(),
            final(self).cell() == old(self).cell(),
            exists|s: Step| #[trigger] poll_step(s, old(self), o, final(self)),
    {
        let ghost start = *self;
        let r = self.inbox.try_recv();
        let ghost l = choose|l: Seq<RingLoad>| #[trigger]
            received(start.next(), start.slots(), l, r, self.next()) && self.ring_log()
                == start.ring_log() + l;
        let ghost mut k: Seq<CellLoad> = Seq::empty();
        let top = match r {
            Recv::Overrun { .. } => {
                let top = self.top.load();
                proof {
                    k = choose|k: Seq<CellLoad>| #[trigger]
                        result_of(k, top) && self.cell_log() == start.cell_log() + k;
                }
                top
            },
            _ => None,
        };
        let o = self.take(r, top);
        proof {
            assert(start.cell_log() + Seq::<CellLoad>::empty() =~= start.cell_log());
            assert(poll_step(Step { r, top, ring: l, cell: k }, &start, o, self));
        }
        o
    }

    /// The published top, as this consumer sees it now. With it comes the record of the
    /// loads that it was made of.
    #[must_use]
    pub fn snapshot(&self) -> (t: (Option<TopOfBook>, Ghost<Seq<CellLoad>>))
        ensures
            result_of(t.1@, t.0),
    {
        self.top.peek()
    }

    /// The ring position that is read next.
    #[must_use]
    pub fn cursor(&self) -> (c: u64)
        ensures
            c == self.next(),
    {
        self.inbox.cursor()
    }
}

/// What a step of a consumer took in.
pub struct Step {
    /// What it received.
    pub r: Recv<W>,
    /// The top that it took.
    pub top: Option<TopOfBook>,
    /// The loads from the ring.
    pub ring: Seq<RingLoad>,
    /// The loads from the cell.
    pub cell: Seq<CellLoad>,
}

/// Whether a step of a consumer is the one that its loads call for. What it received is
/// what the loads from the ring come to. A top is taken when events were lost, and only
/// then: it is what the loads from the cell come to.
pub open spec fn poll_step(
    s: Step,
    before: &EngineConsumer,
    o: Observed,
    after: &EngineConsumer,
) -> bool {
    &&& received(before.next(), before.slots(), s.ring, s.r, after.next())
    &&& after.ring_log() == before.ring_log() + s.ring
    &&& s.r is Overrun ==> result_of(s.cell, s.top)
    &&& !(s.r is Overrun) ==> s.top is None && s.cell.len() == 0
    &&& after.cell_log() == before.cell_log() + s.cell
    &&& (o, after.tally()) == digest(before.tally(), s.r, s.top)
}

/// A source of consumers.
pub struct EngineHandle {
    ring: RingHandle<W>,
    top: Arc<SeqLock>,
}

impl Clone for EngineHandle {
    fn clone(&self) -> (r: Self)
        ensures
            self.wf() ==> r.wf(),
            r.slots() == self.slots(),
            r.cell() == self.cell(),
    {
        EngineHandle { ring: self.ring.clone(), top: share(&self.top) }
    }
}

impl EngineHandle {
    /// The cell that the tops are published in.
    pub closed spec fn cell(&self) -> SeqLock {
        *self.top
    }

    /// What holds of every handle.
    pub closed spec fn wf(&self) -> bool {
        self.ring.wf()
    }

    /// The number of ring slots.
    pub closed spec fn slots(&self) -> nat {
        self.ring.slots()
    }

    /// A consumer that joins at the present write position, with its counters at
    /// zero.
    #[must_use]
    pub fn consumer(&self) -> (c: EngineConsumer)
        requires
            self.wf(),
        ensures
            c.wf(),
            c.slots() == self.slots(),
            c.cell() == self.cell(),
            c.ring_log() == seq![RingLoad::Write { value: c.next() }],
            c.cell_log() == Seq::<CellLoad>::empty(),
            c.tally() == (Tally { seen: 0, resyncs: 0, last_mid: 0 }),
    {
        EngineConsumer {
            inbox: self.ring.consumer(),
            top: Reader::new(share(&self.top)),
            seen: 0,
            resyncs: 0,
            last_mid: 0,
        }
    }
}

/// Whatever a producer does meanwhile, an event that a consumer observes is the
/// event that was processed at the consumer's position, and no record is corrupt.
pub proof fn law_consumers_see_what_was_processed<B: OrderBook>(
    p: EngineProducer<B>,
    s: Step,
    before: EngineConsumer,
    o: Observed,
    after: EngineConsumer,
    times: Seq<nat>,
)
    requires
        p.wf(),
        p.sent().len() < 0x8000_0000_0000_0000,
        before.slots() == p.slots(),
        poll_step(s, &before, o, &after),
        loads_seen_at(s.ring, p.slots(), W as nat, p.records(), times),
    ensures
        o matches Observed::Event(ev) ==> {
            &&& before.next() < p.sent().len()
            &&& ev == p.sent()[before.next() as int]
            &&& after.next() == before.next() + 1
        },
        !(o is Corrupt),
{
    let c = before.next();
    p.lemma_stream_ok();
    law_no_torn_record(c, p.slots(), p.records(), s.ring, s.r, after.next(), times);
    if let Recv::Item(words) = s.r {
        p.law_every_event_is_carried_and_its_top_stored();
        law_unpack_undoes_pack(p.sent()[c as int]);
    }
}

/// What a consumer observes while its producer is idle. When it has read all, nothing,
/// and nothing changes. When it is at most a ring's length behind, the event at its
/// cursor, and one more is seen. Otherwise the number of events that it has lost and the
/// top that was published last, whose middle price it keeps, and one more resync is
/// counted; its next event is the oldest that is left.
pub proof fn law_poll_at_rest<B: OrderBook>(
    p: EngineProducer<B>,
    s: Step,
    before: EngineConsumer,
    o: Observed,
    after: EngineConsumer,
    ring_times: Seq<nat>,
    cell_times: Seq<nat>,
)
    requires
        p.wf(),
        p.sent().len() < 0x8000_0000_0000_0000,
        before.slots() == p.slots(),
        before.next() <= p.sent().len(),
        before.tally().seen < u64::MAX,
        before.tally().resyncs < u64::MAX,
        poll_step(s, &before, o, &after),
        loads_seen_at(s.ring, p.slots(), W as nat, p.records(), ring_times),
        ring_times.first() == stores_per_push(W as nat) * p.sent().len(),
        s.r is Overrun ==> {
            &&& seqlock::loads_seen_at(s.cell, p.cell().start().fields, p.stored(), cell_times)
            &&& last_began(cell_times) == 7 * p.stored().len()
        },
    ensures
        ({
            let n = p.sent().len();
            let c = before.next();
            let t = before.tally();
            let top = p.published();
            &&& c == n ==> o is Idle && after.next() == c && after.tally() == t
            &&& c < n <= c + p.slots() ==> {
                &&& o == Observed::Event(p.sent()[c as int])
                &&& after.next() == c + 1
                &&& after.tally() == (Tally { seen: (t.seen + 1) as u64, ..t })
            }
            &&& c + p.slots() < n ==> {
                &&& o == (Observed::Overrun {
                    skipped: (n - p.slots() - c) as u64,
                    snapshot: top,
                })
                &&& after.next() == n - p.slots()
                &&& after.tally() == (Tally {
                    resyncs: (t.resyncs + 1) as u64,
                    last_mid: mid(top.bid_px, top.ask_px),
                    ..t
                })
            }
        }),
{
    let c = before.next();
    p.lemma_stream_ok();
    p.law_every_event_is_carried_and_its_top_stored();
    law_receive_at_rest(c, p.slots(), p.records(), s.ring, s.r, after.next(), ring_times);
    if let Recv::Item(words) = s.r {
        law_unpack_undoes_pack(p.sent()[c as int]);
    }
    if s.r is Overrun {
        law_reads_back_what_was_written(
            s.cell,
            s.top,
            p.cell().start().fields,
            p.stored(),
            cell_times,
        );
        p.lemma_published();
    }
}

/// What a top of book says, side by side. The bid is the highest price that the book
/// holds a bid at and the quantity there, whatever the ask side holds; the ask is the
/// lowest price that it holds an ask at and the quantity there, whatever the bid side
/// holds. Zeros stand only for a side that is empty.
pub proof fn law_top_side_by_side(m: BookModel, stamp: u64, p: i64)
    requires
        m.bids.dom().finite(),
        m.asks.dom().finite(),
    ensures
        ({
            let t = top_of(m, stamp);
            &&& t.stamp == stamp
            &&& m.bids.contains_key(p) ==> {
                &&& t.bid_px >= p
                &&& m.bids.contains_key(t.bid_px)
                &&& t.bid_qty == m.bids[t.bid_px]
            }
            &&& (forall|q: i64| !m.bids.contains_key(q)) ==> t.bid_px == 0 && t.bid_qty == 0
            &&& m.asks.contains_key(p) ==> {
                &&& t.ask_px <= p
                &&& m.asks.contains_key(t.ask_px)
                &&& t.ask_qty == m.asks[t.ask_px]
            }
            &&& (forall|q: i64| !m.asks.contains_key(q)) ==> t.ask_px == 0 && t.ask_qty == 0
        }),
{
    lemma_best_is_extreme(Side::Bid, m.bids);
    lemma_best_is_extreme(Side::Ask, m.asks);
}

/// What a producer has published once it has processed an event: under the number of
/// events as the stamp, the highest bid of its book with the quantity there whenever
/// there is a bid, and the lowest ask with the quantity there whenever there is an ask.
pub proof fn law_published_top_is_that_of_the_book<B: OrderBook>(p: EngineProducer<B>, px: i64)
    requires
        p.wf(),
        p.sent().len() > 0,
    ensures
        ({
            let t = p.published();
            let m = p.state();
            &&& t.stamp == p.sent().len()
            &&& m.bids.contains_key(px) ==> {
                &&& t.bid_px >= px
                &&& m.bids.contains_key(t.bid_px)
                &&& t.bid_qty == m.bids[t.bid_px]
            }
            &&& (forall|q: i64| !m.bids.contains_key(q)) ==> t.bid_px == 0 && t.bid_qty == 0
            &&& m.asks.contains_key(px) ==> {
                &&& t.ask_px <= px
                &&& m.asks.contains_key(t.ask_px)
                &&& t.ask_qty == m.asks[t.ask_px]
            }
            &&& (forall|q: i64| !m.asks.contains_key(q)) ==> t.ask_px == 0 && t.ask_qty == 0
        }),
{
    let n = p.sent().len();
    p.book.lemma_finite();
    p.law_every_event_is_carried_and_its_top_stored();
    p.lemma_published();
    assert(p.sent().take(n as int) =~= p.sent());
    assert(p.stored()[n - 1] == top_after(p.sent(), n as int));
    law_top_side_by_side(p.state(), n as u64, px);
}

/// The middle of two prices is half their sum, rounded towards zero, and does not depend
/// on which of them comes first.
pub proof fn law_mid_is_halfway(a: i64, b: i64)
    ensures
        mid(a, b) == mid(b, a),
        a + b >= 0 ==> 2 * mid(a, b) <= a + b <= 2 * mid(a, b) + 1,
        a + b <= 0 ==> 2 * mid(a, b) - 1 <= a + b <= 2 * mid(a, b),
{
}

/// What a step of a consumer counts. An event, and only that, is one more event seen. A
/// top that was taken, and only that, is one more resync and sets the middle price. The
/// number of events lost and the top are handed on as they are.
pub proof fn law_counters_follow_what_was_observed(t: Tally, r: Recv<W>, top: Option<TopOfBook>)
    requires
        t.seen < u64::MAX,
        t.resyncs < u64::MAX,
    ensures
        ({
            let (o, n) = digest(t, r, top);
            &&& n.seen == t.seen + (if o is Event { 1int } else { 0 })
            &&& n.resyncs == t.resyncs + (if o is Overrun { 1int } else { 0 })
            &&& !(o is Overrun) ==> n.last_mid == t.last_mid
            &&& o matches Observed::Overrun { skipped, snapshot } ==> {
                &&& top == Some(snapshot)
                &&& r == (Recv::<W>::Overrun { skipped })
                &&& n.last_mid == mid(snapshot.bid_px, snapshot.ask_px)
            }
            &&& o matches Observed::Unsettled { skipped } ==> {
                &&& top is None
                &&& r == (Recv::<W>::Overrun { skipped })
            }
            &&& o is Idle <==> r is Empty
            &&& (o is Overrun || o is Unsettled) <==> r is Overrun
            &&& r matches Recv::Item(rec) ==> (o matches Observed::Event(ev) ==> unpacked(rec@) == Ok::<
                BookEvent,
                UnpackError,
            >(ev))
            &&& r matches Recv::Item(rec) ==> (o is Event <==> unpacked(rec@) is Ok)
        }),
{
}

} // verus!
