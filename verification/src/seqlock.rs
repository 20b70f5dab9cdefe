//! A snapshot cell for one writer and many readers.
//!
//! A version counter is even while the cell is at rest and odd while a write is in
//! progress. The writer makes it odd, stores the fields, and makes it even again;
//! it waits for nobody. A reader takes the version, the fields and the version
//! again, and keeps the fields only when both versions are the same even number.
//!
//! Shared memory is seen by the verifier as a source of arbitrary values. The contracts
//! speak of records of the stores and loads, in order, and say what is made of the loads
//! on record. Such a record is kept beside the accesses, and nothing but the few lines
//! that hold both ties one to the other. The laws at the end take the loads on record to
//! come from the memory that the recorded stores build, one store after the other, and
//! show that no torn snapshot is ever kept.

use std::sync::atomic::{fence, AtomicI64, AtomicU32, AtomicU64, Ordering};
use std::sync::Arc;
use vstd::prelude::*;

verus! {

/// `std::sync::atomic::fence`: an ordering of the memory accesses around it. It
/// computes nothing, and it panics when asked for a relaxed ordering.
pub assume_specification[ std::sync::atomic::fence ](order: Ordering)
    requires
        !(order is Relaxed),
;

/// `std::hint::spin_loop`: tells the processor that a loop waits. It computes nothing.
pub assume_specification[ std::hint::spin_loop ]();

/// `std::sync::Arc::clone`: another handle on the same value.
#[verifier::external_body]
pub(crate) fn share<T>(a: &Arc<T>) -> (r: Arc<T>)
    ensures
        r == *a,
{
    Arc::clone(a)
}

/// The best prices and quantities of a book, and the number of the write that
/// published them.
#[derive(Clone, Copy, PartialEq, Eq, Structural, Debug)]
pub struct TopOfBook {
    /// Best bid price in ticks, zero without one.
    pub bid_px: i64,
    /// Quantity at the best bid.
    pub bid_qty: i64,
    /// Best ask price in ticks, zero without one.
    pub ask_px: i64,
    /// Quantity at the best ask.
    pub ask_qty: i64,
    /// Number of the write.
    pub stamp: u64,
}

impl Default for TopOfBook {
    fn default() -> (t: Self)
        ensures
            t == (TopOfBook { bid_px: 0, bid_qty: 0, ask_px: 0, ask_qty: 0, stamp: 0 }),
    {
        TopOfBook { bid_px: 0, bid_qty: 0, ask_px: 0, ask_qty: 0, stamp: 0 }
    }
}

/// One store into the cell.
pub enum CellStore {
    /// Into the version.
    Version(u32),
    /// Into the best bid price.
    BidPx(i64),
    /// Into the best bid quantity.
    BidQty(i64),
    /// Into the best ask price.
    AskPx(i64),
    /// Into the best ask quantity.
    AskQty(i64),
    /// Into the stamp.
    Stamp(u64),
}

/// The stores of one write, in order, when the version was `s`.
pub open spec fn write_stores(s: u32, t: TopOfBook) -> Seq<CellStore> {
    seq![
        CellStore::Version(s.wrapping_add(1)),
        CellStore::BidPx(t.bid_px),
        CellStore::BidQty(t.bid_qty),
        CellStore::AskPx(t.ask_px),
        CellStore::AskQty(t.ask_qty),
        CellStore::Stamp(t.stamp),
        CellStore::Version(s.wrapping_add(2)),
    ]
}

/// One load from the cell, and the value that it gave.
pub enum CellLoad {
    /// From the version.
    Version(u32),
    /// From the best bid price.
    BidPx(i64),
    /// From the best bid quantity.
    BidQty(i64),
    /// From the best ask price.
    AskPx(i64),
    /// From the best ask quantity.
    AskQty(i64),
    /// From the stamp.
    Stamp(u64),
}

/// What one attempt to read has loaded: the version, the fields, the version.
pub struct Attempt {
    /// The version before the fields.
    pub first: u32,
    /// The fields.
    pub fields: TopOfBook,
    /// The version after the fields.
    pub second: u32,
}

impl Attempt {
    /// The snapshot that the attempt yields, if it yields one.
    pub open spec fn yields(self) -> Option<TopOfBook> {
        if self.first % 2 == 0 && self.first == self.second {
            Some(self.fields)
        } else {
            None
        }
    }

    /// The loads that an attempt consists of, in order.
    pub open spec fn loads(self) -> Seq<CellLoad> {
        seq![
            CellLoad::Version(self.first),
            CellLoad::BidPx(self.fields.bid_px),
            CellLoad::BidQty(self.fields.bid_qty),
            CellLoad::AskPx(self.fields.ask_px),
            CellLoad::AskQty(self.fields.ask_qty),
            CellLoad::Stamp(self.fields.stamp),
            CellLoad::Version(self.second),
        ]
    }

    /// The snapshot, if no write was in progress before the fields were loaded and
    /// none began until they were.
    pub fn settle(&self) -> (r: Option<TopOfBook>)
        ensures
            r == self.yields(),
    {
        if self.first % 2 == 0 && self.first == self.second {
            Some(self.fields)
        } else {
            None
        }
    }
}

/// What the cell holds.
pub struct CellMemory {
    /// The version.
    pub version: u32,
    /// The fields.
    pub fields: TopOfBook,
}

/// What a cell that is made with `init` holds: it is at rest.
pub open spec fn made_with(init: TopOfBook) -> CellMemory {
    CellMemory { version: 0, fields: init }
}

/// Whether a reader that makes the attempts `tries`, one after the other, ends with
/// `r`: all but the last met a write, and the last one yields `r`.
pub open spec fn ends_with(tries: Seq<Attempt>, r: Option<TopOfBook>) -> bool {
    &&& tries.len() > 0
    &&& forall|i: int| 0 <= i < tries.len() - 1 ==> (#[trigger] tries[i]).yields() is None
    &&& tries.last().yields() == r
}

/// The loads of some attempts, made one after the other.
pub open spec fn all_loads(tries: Seq<Attempt>) -> Seq<CellLoad>
    decreases tries.len(),
{
    if tries.len() == 0 {
        Seq::empty()
    } else {
        all_loads(tries.drop_last()) + tries.last().loads()
    }
}

/// Whether `r` is what a reader makes of the loads `l`: they are those of attempts, and
/// `r` is what the first of them yields that met no write. It is nothing only after as
/// many attempts as a machine word counts.
pub open spec fn result_of(l: Seq<CellLoad>, r: Option<TopOfBook>) -> bool {
    exists|tries: Seq<Attempt>|
        {
            &&& #[trigger] ends_with(tries, r)
            &&& l == all_loads(tries)
            &&& r is None ==> tries.len() == u64::MAX
        }
}

/// The cell.
pub struct SeqLock {
    seq: AtomicU32,
    bid_px: AtomicI64,
    bid_qty: AtomicI64,
    ask_px: AtomicI64,
    ask_qty: AtomicI64,
    stamp: AtomicU64,
    start: Ghost<CellMemory>,
}

impl SeqLock {
    /// What the cell held when it was made.
    pub closed spec fn start(&self) -> CellMemory {
        self.start@
    }

    /// A cell at rest that holds `init`.
    #[must_use]
    pub fn new(init: TopOfBook) -> (cell: Self)
        ensures
            cell.start() == made_with(init),
    {
        SeqLock {
            seq: AtomicU32::new(0),
            bid_px: AtomicI64::new(init.bid_px),
            bid_qty: AtomicI64::new(init.bid_qty),
            ask_px: AtomicI64::new(init.ask_px),
            ask_qty: AtomicI64::new(init.ask_qty),
            stamp: AtomicU64::new(init.stamp),
            start: Ghost(made_with(init)),
        }
    }

    /// Publishes `t`. One thread at a time may call this; it never waits for
    /// readers. The result is the record of the stores that were made.
    pub fn store(&self, t: TopOfBook) -> (log: Ghost<Seq<CellStore>>)
        ensures
            exists|s: u32| log@ == #[trigger] write_stores(s, t),
    {
        let s: u32 = self.seq.load(Ordering::Relaxed);
        let odd: u32 = s.wrapping_add(1);
        self.seq.store(odd, Ordering::Relaxed);
        let ghost mut log = seq![CellStore::Version(odd)];
        fence(Ordering::Release);
        self.bid_px.store(t.bid_px, Ordering::Relaxed);
        proof {
            log = log.push(CellStore::BidPx(t.bid_px));
        }
        self.bid_qty.store(t.bid_qty, Ordering::Relaxed);
        proof {
            log = log.push(CellStore::BidQty(t.bid_qty));
        }
        self.ask_px.store(t.ask_px, Ordering::Relaxed);
        proof {
            log = log.push(CellStore::AskPx(t.ask_px));
        }
        self.ask_qty.store(t.ask_qty, Ordering::Relaxed);
        proof {
            log = log.push(CellStore::AskQty(t.ask_qty));
        }
        self.stamp.store(t.stamp, Ordering::Relaxed);
        proof {
            log = log.push(CellStore::Stamp(t.stamp));
        }
        let even: u32 = s.wrapping_add(2);
        self.seq.store(even, Ordering::Release);
        proof {
            log = log.push(CellStore::Version(even));
            assert(log =~= write_stores(s, t));
        }
        Ghost(log)
    }

    /// Loads the version, the fields and the version again. With them comes the record
    /// of the loads that were made.
    fn attempt(&self) -> (r: (Attempt, Ghost<Seq<CellLoad>>))
        ensures
            r.1@ == r.0.loads(),
    {
        let first: u32 = self.seq.load(Ordering::Acquire);
        let ghost mut log = seq![CellLoad::Version(first)];
        let bid_px: i64 = self.bid_px.load(Ordering::Relaxed);
        proof {
            log = log.push(CellLoad::BidPx(bid_px));
        }
        let bid_qty: i64 = self.bid_qty.load(Ordering::Relaxed);
        proof {
            log = log.push(CellLoad::BidQty(bid_qty));
        }
        let ask_px: i64 = self.ask_px.load(Ordering::Relaxed);
        proof {
            log = log.push(CellLoad::AskPx(ask_px));
        }
        let ask_qty: i64 = self.ask_qty.load(Ordering::Relaxed);
        proof {
            log = log.push(CellLoad::AskQty(ask_qty));
        }
        let stamp: u64 = self.stamp.load(Ordering::Relaxed);
        proof {
            log = log.push(CellLoad::Stamp(stamp));
        }
        fence(Ordering::Acquire);
        let second: u32 = self.seq.load(Ordering::Relaxed);
        proof {
            log = log.push(CellLoad::Version(second));
        }
        let fields = TopOfBook { bid_px, bid_qty, ask_px, ask_qty, stamp };
        let a = Attempt { first, fields, second };
        assert(log =~= a.loads());
        (a, Ghost(log))
    }

    /// One attempt to read; `None` when a write was in the way. With it comes the record
    /// of the loads that it was made of.
    #[must_use]
    pub fn try_load(&self) -> (r: (Option<TopOfBook>, Ghost<Seq<CellLoad>>))
        ensures
            exists|a: Attempt| r.1@ == #[trigger] a.loads() && r.0 == a.yields(),
    {
        let (a, log) = self.attempt();
        (a.settle(), log)
    }

    /// Reads a snapshot, trying again while a write is in the way: the result is that
    /// of the first attempt that met none. `None` only when as many attempts as a
    /// machine word counts have all met a write. With it comes the record of the loads
    /// that it was made of.
    #[must_use]
    pub fn load(&self) -> (r: (Option<TopOfBook>, Ghost<Seq<CellLoad>>))
        ensures
            result_of(r.1@, r.0),
    {
        let mut left: u64 = u64::MAX;
        let ghost mut tries: Seq<Attempt> = Seq::empty();
        let ghost mut log: Seq<CellLoad> = Seq::empty();
        while left > 0
            invariant
                tries.len() == u64::MAX - left,
                log == all_loads(tries),
                forall|i: int| 0 <= i < tries.len() ==> (#[trigger] tries[i]).yields() is None,
            decreases left,
        {
            let (r, Ghost(l)) = self.try_load();
            proof {
                let a = choose|a: Attempt| l == #[trigger] a.loads() && r == a.yields();
                assert(tries.push(a).drop_last() =~= tries);
                tries = tries.push(a);
                log = log + l;
            }
            if r.is_some() {
                assert(ends_with(tries, r));
                return (r, Ghost(log));
            }
            std::hint::spin_loop();
            left -= 1;
        }
        assert(ends_with(tries, None));
        (None, Ghost(log))
    }
}

/// The stores of the writes of `tops`, one after the other, where write `i` found the
/// version `versions[i]`.
pub open spec fn all_writes(versions: Seq<u32>, tops: Seq<TopOfBook>) -> Seq<CellStore>
    decreases tops.len(),
{
    if tops.len() == 0 {
        Seq::empty()
    } else {
        all_writes(versions.drop_last(), tops.drop_last()) + write_stores(
            versions.last(),
            tops.last(),
        )
    }
}

/// The writing end of a cell. There is one to a cell.
pub struct Writer {
    cell: Arc<SeqLock>,
    last: TopOfBook,
    stored: Ghost<Seq<TopOfBook>>,
    versions: Ghost<Seq<u32>>,
    log: Ghost<Seq<CellStore>>,
}

impl Writer {
    /// The cell.
    pub closed spec fn cell(&self) -> SeqLock {
        *self.cell
    }

    /// The snapshots that were stored, in order.
    pub closed spec fn stored(&self) -> Seq<TopOfBook> {
        self.stored@
    }

    /// The snapshot that was stored last, or the one that the cell was made with.
    pub open spec fn latest(&self) -> TopOfBook {
        published(self.cell().start().fields, self.stored(), self.stored().len())
    }

    /// What holds of every writer: it has made the stores of its snapshots, and it knows
    /// the last one.
    pub closed spec fn wf(&self) -> bool {
        &&& self.last == self.latest()
        &&& self.versions@.len() == self.stored@.len()
        &&& self.log@ == all_writes(self.versions@, self.stored@)
    }

    /// A new cell that holds `init`, and its writing end.
    pub fn new(init: TopOfBook) -> (w: Self)
        ensures
            w.wf(),
            w.cell().start() == made_with(init),
            w.stored() == Seq::<TopOfBook>::empty(),
    {
        Writer {
            cell: Arc::new(SeqLock::new(init)),
            last: init,
            stored: Ghost(Seq::empty()),
            versions: Ghost(Seq::empty()),
            log: Ghost(Seq::empty()),
        }
    }

    /// Publishes `t`.
    pub fn store(&mut self, t: TopOfBook)
        requires
            old(self).wf(),
        ensures
            final(self).wf(),
            final(self).cell() == old(self).cell(),
            final(self).stored() == old(self).stored().push(t),
            final(self).latest() == t,
    {
        let Ghost(stores) = self.cell.store(t);
        let ghost s = choose|s: u32| stores == #[trigger] write_stores(s, t);
        self.log = Ghost(self.log@ + stores);
        self.versions = Ghost(self.versions@.push(s));
        self.stored = Ghost(self.stored@.push(t));
        self.last = t;
        proof {
            assert(self.versions@.drop_last() =~= old(self).versions@);
            assert(self.stored@.drop_last() =~= old(self).stored@);
        }
    }

    /// The snapshot that was stored last, or the one that the cell was made with. Since
    /// nobody else stores into the cell, it is the one that the cell holds.
    #[must_use]
    pub fn last(&self) -> (t: TopOfBook)
        requires
            self.wf(),
        ensures
            t == self.latest(),
    {
        self.last
    }

    /// The cell, for readers.
    #[must_use]
    pub fn share(&self) -> (cell: Arc<SeqLock>)
        ensures
            *cell == self.cell(),
    {
        share(&self.cell)
    }
}

/// A reading end of a cell, which keeps account of its loads.
pub struct Reader {
    cell: Arc<SeqLock>,
    log: Ghost<Seq<CellLoad>>,
}

impl Reader {
    /// The cell.
    pub closed spec fn cell(&self) -> SeqLock {
        *self.cell
    }

    /// The loads that were made, in order.
    pub closed spec fn log(&self) -> Seq<CellLoad> {
        self.log@
    }

    /// A reading end of `cell`, with no load made.
    pub fn new(cell: Arc<SeqLock>) -> (r: Self)
        ensures
            r.cell() == *cell,
            r.log() == Seq::<CellLoad>::empty(),
    {
        Reader { cell, log: Ghost(Seq::empty()) }
    }

    /// Reads a snapshot.
    pub fn load(&mut self) -> (r: Option<TopOfBook>)
        ensures
            exists|l: Seq<CellLoad>| #[trigger]
                result_of(l, r) && final(self).log() == old(self).log() + l,
            final(self).cell() == old(self).cell(),
    {
        let (r, Ghost(l)) = self.cell.load();
        self.log = Ghost(self.log@ + l);
        assert(result_of(l, r) && self.log() == old(self).log() + l);
        r
    }

    /// Reads a snapshot, and hands the record of its loads back in place of keeping it.
    pub fn peek(&self) -> (r: (Option<TopOfBook>, Ghost<Seq<CellLoad>>))
        ensures
            result_of(r.1@, r.0),
    {
        self.cell.load()
    }
}

/// The memory after one more store.
pub open spec fn after_store(m: CellMemory, st: CellStore) -> CellMemory {
    match st {
        CellStore::Version(v) => CellMemory { version: v, ..m },
        CellStore::BidPx(v) => CellMemory { fields: TopOfBook { bid_px: v, ..m.fields }, ..m },
        CellStore::BidQty(v) => CellMemory { fields: TopOfBook { bid_qty: v, ..m.fields }, ..m },
        CellStore::AskPx(v) => CellMemory { fields: TopOfBook { ask_px: v, ..m.fields }, ..m },
        CellStore::AskQty(v) => CellMemory { fields: TopOfBook { ask_qty: v, ..m.fields }, ..m },
        CellStore::Stamp(v) => CellMemory { fields: TopOfBook { stamp: v, ..m.fields }, ..m },
    }
}

/// The version after `n` whole writes.
pub open spec fn version_after(n: nat) -> u32 {
    ((2 * n) % 0x1_0000_0000) as u32
}

/// The memory after the first `time` stores of a writer that publishes `tops` one
/// after the other into a cell that held `init`.
pub open spec fn memory_at(init: TopOfBook, tops: Seq<TopOfBook>, time: nat) -> CellMemory
    decreases time,
{
    if time == 0 {
        made_with(init)
    } else {
        let before = (time - 1) as nat;
        let n = before / 7;
        after_store(
            memory_at(init, tops, before),
            write_stores(version_after(n), tops[n as int])[(before % 7) as int],
        )
    }
}

/// The snapshot that the cell holds after `n` whole writes.
pub open spec fn published(init: TopOfBook, tops: Seq<TopOfBook>, n: nat) -> TopOfBook {
    if n == 0 {
        init
    } else {
        tops[n - 1]
    }
}

/// Whether a load from the memory `m` gives its value.
pub open spec fn loaded_from(m: CellMemory, l: CellLoad) -> bool {
    match l {
        CellLoad::Version(v) => v == m.version,
        CellLoad::BidPx(v) => v == m.fields.bid_px,
        CellLoad::BidQty(v) => v == m.fields.bid_qty,
        CellLoad::AskPx(v) => v == m.fields.ask_px,
        CellLoad::AskQty(v) => v == m.fields.ask_qty,
        CellLoad::Stamp(v) => v == m.fields.stamp,
    }
}

/// Whether the loads of an attempt came from the memory, at times that do not go back:
/// load `i` at `times[i]`.
pub open spec fn seen_at(a: Attempt, init: TopOfBook, tops: Seq<TopOfBook>, times: Seq<nat>) -> bool {
    &&& times.len() == a.loads().len()
    &&& forall|i: int, j: int| 0 <= i <= j < times.len() ==> times[i] <= times[j]
    &&& times.last() <= 7 * tops.len()
    &&& forall|i: int|
        #![trigger times[i]]
        0 <= i < times.len() ==> loaded_from(memory_at(init, tops, times[i]), a.loads()[i])
}

/// What each load of an attempt gave.
proof fn lemma_seen(a: Attempt, init: TopOfBook, tops: Seq<TopOfBook>, times: Seq<nat>)
    requires
        seen_at(a, init, tops, times),
    ensures
        times.len() == 7,
        times[6] <= 7 * tops.len(),
        a.first == memory_at(init, tops, times[0]).version,
        a.fields.bid_px == memory_at(init, tops, times[1]).fields.bid_px,
        a.fields.bid_qty == memory_at(init, tops, times[2]).fields.bid_qty,
        a.fields.ask_px == memory_at(init, tops, times[3]).fields.ask_px,
        a.fields.ask_qty == memory_at(init, tops, times[4]).fields.ask_qty,
        a.fields.stamp == memory_at(init, tops, times[5]).fields.stamp,
        a.second == memory_at(init, tops, times[6]).version,
{
    assert forall|i: int| #![trigger times[i]] 0 <= i < 7 implies loaded_from(
        memory_at(init, tops, times[i]),
        a.loads()[i],
    ) by {}
}

/// The fields during write `n`, of which `r` stores have been made.
spec fn fields_during(old: TopOfBook, new: TopOfBook, r: int) -> TopOfBook {
    TopOfBook {
        bid_px: if r >= 2 { new.bid_px } else { old.bid_px },
        bid_qty: if r >= 3 { new.bid_qty } else { old.bid_qty },
        ask_px: if r >= 4 { new.ask_px } else { old.ask_px },
        ask_qty: if r >= 5 { new.ask_qty } else { old.ask_qty },
        stamp: if r >= 6 { new.stamp } else { old.stamp },
    }
}

/// The memory at any time, in closed form.
proof fn lemma_memory(init: TopOfBook, tops: Seq<TopOfBook>, time: nat)
    requires
        time <= 7 * tops.len(),
    ensures
        ({
            let n = time / 7;
            let r = (time % 7) as int;
            let m = memory_at(init, tops, time);
            &&& m.version == (2 * n + (if r >= 1 { 1int } else { 0 })) % 0x1_0000_0000
            &&& m.fields == (if r == 0 {
                published(init, tops, n)
            } else {
                fields_during(published(init, tops, n), tops[n as int], r)
            })
        }),
    decreases time,
{
    if time > 0 {
        let before = (time - 1) as nat;
        lemma_memory(init, tops, before);
        let n = before / 7;
        let r = (before % 7) as int;
        let s = version_after(n);
        assert(s == (2 * n) % 0x1_0000_0000);
        assert(s.wrapping_add(1) == (2 * n + 1) % 0x1_0000_0000) by {
            vstd::arithmetic::div_mod::lemma_add_mod_noop((2 * n) as int, 1, 0x1_0000_0000);
        }
        assert(s.wrapping_add(2) == (2 * n + 2) % 0x1_0000_0000) by {
            vstd::arithmetic::div_mod::lemma_add_mod_noop((2 * n) as int, 2, 0x1_0000_0000);
        }
        assert(time == 7 * n + r + 1);
        if r == 6 {
            assert(time / 7 == n + 1 && time % 7 == 0);
        } else {
            assert(time / 7 == n && time % 7 == r + 1);
        }
    }
}

/// A snapshot that an attempt yields is one that was published whole, and it is the one
/// that the cell held all the while.
proof fn lemma_no_torn_attempt(a: Attempt, init: TopOfBook, tops: Seq<TopOfBook>, times: Seq<nat>)
    requires
        seen_at(a, init, tops, times),
        times[6] / 7 - times[0] / 7 < 0x8000_0000,
    ensures
        a.yields() matches Some(t) ==> {
            &&& t == published(init, tops, times[0] / 7)
            &&& times[0] % 7 == 0
            &&& times[6] == times[0]
        },
{
    lemma_seen(a, init, tops, times);
    if a.yields() is Some {
        lemma_memory(init, tops, times[0]);
        lemma_memory(init, tops, times[6]);
        let m: int = 0x1_0000_0000;
        let v0 = (2 * (times[0] / 7) + (if times[0] % 7 >= 1 { 1int } else { 0 }));
        let v6 = (2 * (times[6] / 7) + (if times[6] % 7 >= 1 { 1int } else { 0 }));
        assert(times[0] <= times[6]);
        assert(v0 % 2 == 0) by {
            assert((v0 % m) % 2 == v0 % 2) by {
                vstd::arithmetic::div_mod::lemma_mod_mod(v0, 2, 0x8000_0000);
            }
        }
        assert(0 <= v6 - v0 < m);
        assert(v0 == v6) by {
            vstd::arithmetic::div_mod::lemma_fundamental_div_mod(v0, m);
            vstd::arithmetic::div_mod::lemma_fundamental_div_mod(v6, m);
            assert(v6 - v0 == m * (v6 / m - v0 / m)) by (nonlinear_arith)
                requires
                    v0 == m * (v0 / m) + v0 % m,
                    v6 == m * (v6 / m) + v6 % m,
                    v0 % m == v6 % m,
            ;
            let k = v6 / m - v0 / m;
            assert(k == 0) by (nonlinear_arith)
                requires
                    0 <= m * k < m,
                    m > 0,
            ;
        }
        assert(times[0] / 7 == times[6] / 7);
        assert(times[0] == times[6]);
        assert forall|i: int| 0 <= i < 7 implies #[trigger] times[i] == times[0] by {
            assert(times[0] <= times[i] && times[i] <= times[6]);
        }
    }
}

/// At rest, an attempt always succeeds and yields the last snapshot published.
proof fn lemma_attempt_at_rest(
    a: Attempt,
    init: TopOfBook,
    tops: Seq<TopOfBook>,
    times: Seq<nat>,
)
    requires
        seen_at(a, init, tops, times),
        times[0] == 7 * tops.len(),
    ensures
        a.yields() == Some(published(init, tops, tops.len())),
{
    lemma_seen(a, init, tops, times);
    assert forall|i: int| 0 <= i < 7 implies #[trigger] times[i] == 7 * tops.len() by {
        assert(times[0] <= times[i] && times[i] <= times[6]);
    }
    lemma_memory(init, tops, times[0]);
    let v0 = 2 * tops.len();
    assert((v0 % 0x1_0000_0000) % 2 == 0) by {
        vstd::arithmetic::div_mod::lemma_mod_mod(v0 as int, 2, 0x8000_0000);
    }
}

/// Whether loads came from the memory, at times that do not go back: load `i` at
/// `times[i]`.
pub open spec fn loads_seen_at(
    l: Seq<CellLoad>,
    init: TopOfBook,
    tops: Seq<TopOfBook>,
    times: Seq<nat>,
) -> bool {
    &&& times.len() == l.len()
    &&& forall|i: int, j: int| 0 <= i <= j < times.len() ==> times[i] <= times[j]
    &&& times.last() <= 7 * tops.len()
    &&& forall|i: int|
        #![trigger times[i]]
        0 <= i < times.len() ==> loaded_from(memory_at(init, tops, times[i]), l[i])
}

/// The time at which the last attempt among some loads began.
pub open spec fn last_began(times: Seq<nat>) -> nat {
    times[times.len() - 7]
}

/// The last attempt did not sleep through as many writes as make the version counter,
/// which has a machine word, come round again.
pub open spec fn within_a_round(times: Seq<nat>) -> bool {
    times.last() / 7 - last_began(times) / 7 < 0x8000_0000
}

proof fn lemma_last_attempt(tries: Seq<Attempt>)
    requires
        tries.len() > 0,
    ensures
        all_loads(tries).len() == 7 * tries.len(),
        all_loads(tries).skip(7 * (tries.len() - 1)) == tries.last().loads(),
    decreases tries.len(),
{
    let init = tries.drop_last();
    if init.len() > 0 {
        lemma_last_attempt(init);
    } else {
        assert(all_loads(init) =~= Seq::<CellLoad>::empty());
    }
    assert(all_loads(tries) == all_loads(init) + tries.last().loads());
    assert(all_loads(tries).skip(7 * (tries.len() - 1)) =~= tries.last().loads());
}

/// The last attempt of a load was seen at the last of its times.
proof fn lemma_last_seen(
    l: Seq<CellLoad>,
    r: Option<TopOfBook>,
    init: TopOfBook,
    tops: Seq<TopOfBook>,
    times: Seq<nat>,
) -> (a: Attempt)
    requires
        result_of(l, r),
        loads_seen_at(l, init, tops, times),
    ensures
        l.len() >= 7,
        a.yields() == r,
        seen_at(a, init, tops, times.skip(times.len() - 7)),
{
    let tries = choose|tries: Seq<Attempt>|
        {
            &&& #[trigger] ends_with(tries, r)
            &&& l == all_loads(tries)
            &&& r is None ==> tries.len() == u64::MAX
        };
    let a = tries.last();
    lemma_last_attempt(tries);
    let k = l.len() - 7;
    let late = times.skip(k);
    assert(l.skip(k) == a.loads());
    assert forall|i: int| #![trigger late[i]] 0 <= i < late.len() implies loaded_from(
        memory_at(init, tops, late[i]),
        a.loads()[i],
    ) by {
        assert(late[i] == times[k + i]);
        assert(a.loads()[i] == l[k + i]);
    }
    a
}

/// No torn snapshot: what a load gives, whatever its loads met, is a snapshot that was
/// published whole, and it is the one that the cell held all through the last attempt.
/// An attempt that sleeps through a whole round of the version counter is left out.
pub proof fn law_no_torn_snapshot(
    l: Seq<CellLoad>,
    r: Option<TopOfBook>,
    init: TopOfBook,
    tops: Seq<TopOfBook>,
    times: Seq<nat>,
)
    requires
        result_of(l, r),
        loads_seen_at(l, init, tops, times),
        within_a_round(times),
    ensures
        r matches Some(t) ==> {
            &&& t == published(init, tops, last_began(times) / 7)
            &&& last_began(times) % 7 == 0
            &&& times.last() == last_began(times)
        },
{
    let a = lemma_last_seen(l, r, init, tops, times);
    let late = times.skip(times.len() - 7);
    assert(late[0] == last_began(times) && late[6] == times.last());
    lemma_no_torn_attempt(a, init, tops, late);
}

/// At rest, a load succeeds and gives the last snapshot published.
pub proof fn law_reads_back_what_was_written(
    l: Seq<CellLoad>,
    r: Option<TopOfBook>,
    init: TopOfBook,
    tops: Seq<TopOfBook>,
    times: Seq<nat>,
)
    requires
        result_of(l, r),
        loads_seen_at(l, init, tops, times),
        last_began(times) == 7 * tops.len(),
    ensures
        r == Some(published(init, tops, tops.len())),
{
    let a = lemma_last_seen(l, r, init, tops, times);
    let late = times.skip(times.len() - 7);
    assert(late[0] == last_began(times));
    lemma_attempt_at_rest(a, init, tops, late);
}

/// A load of a cell gives, whole, what the cell was made with or what one call of the
/// writer stored; and where no write is in progress from its last attempt on, it gives
/// exactly the last. As before, an attempt that sleeps through a whole round of the
/// version counter is left out.
pub proof fn law_loads_give_what_was_stored(
    w: Writer,
    l: Seq<CellLoad>,
    r: Option<TopOfBook>,
    times: Seq<nat>,
)
    requires
        w.wf(),
        result_of(l, r),
        loads_seen_at(l, w.cell().start().fields, w.stored(), times),
        within_a_round(times),
    ensures
        r matches Some(t) ==> t == w.cell().start().fields || w.stored().contains(t),
        last_began(times) == 7 * w.stored().len() ==> r == Some(w.latest()),
{
    let init = w.cell().start().fields;
    law_no_torn_snapshot(l, r, init, w.stored(), times);
    if let Some(t) = r {
        let n = last_began(times) / 7;
        assert(times.last() <= 7 * w.stored().len());
        if n > 0 {
            assert(w.stored()[n - 1] == t);
        }
    }
    if last_began(times) == 7 * w.stored().len() {
        law_reads_back_what_was_written(l, r, init, w.stored(), times);
    }
}

/// The stores of a writer are the ones that the memory is built from.
pub proof fn law_writer_follows_the_protocol(n: nat, t: TopOfBook)
    ensures
        write_stores(version_after(n), t).len() == 7,
        write_stores(version_after(n), t)[0] == CellStore::Version(
            ((2 * n + 1) % 0x1_0000_0000) as u32,
        ),
        write_stores(version_after(n), t)[6] == CellStore::Version(version_after(n + 1)),
{
    let s = version_after(n);
    assert(s.wrapping_add(1) == (2 * n + 1) % 0x1_0000_0000) by {
        vstd::arithmetic::div_mod::lemma_add_mod_noop((2 * n) as int, 1, 0x1_0000_0000);
    }
    assert(s.wrapping_add(2) == (2 * n + 2) % 0x1_0000_0000) by {
        vstd::arithmetic::div_mod::lemma_add_mod_noop((2 * n) as int, 2, 0x1_0000_0000);
    }
    assert(2 * (n + 1) == 2 * n + 2);
}

} // verus!
