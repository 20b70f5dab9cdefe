//! A broadcast ring for one producer and any number of independent consumers.
//!
//! The producer streams records of `W` words and never looks at its consumers: it
//! overwrites the oldest slot when the ring is full. Each consumer reads the whole
//! stream from a cursor of its own. Each slot carries a stamp: the position of the
//! record that it holds, with the top bit set while a record is being written. A
//! consumer keeps a record only when the stamp equals its cursor before and after
//! the words were loaded; otherwise it has been lapped, and it moves on to the
//! oldest record that the ring still holds.
//!
//! As for the snapshot cell, what is loaded from shared memory is arbitrary to the
//! verifier. The contracts speak of records of the producer's stores and of a consumer's
//! loads, in order, and say what is made of the loads on record. The records are kept
//! beside the accesses and are no evidence of them. `ring_model` adds the memory.

use crate::seqlock::share;
use std::sync::atomic::{fence, AtomicU64, Ordering};
use std::sync::Arc;
use vstd::arithmetic::power2::pow2;
use vstd::prelude::*;

verus! {

/// The top bit of a stamp, set while its slot is being overwritten.
pub const WRITING: u64 = 0x8000_0000_0000_0000;

/// The stamp of a slot that was never written.
pub const EMPTY: u64 = 0xFFFF_FFFF_FFFF_FFFF;

/// Whether `n` is a power of two.
pub open spec fn is_power_of_two(n: nat) -> bool {
    exists|k: nat| n == #[trigger] pow2(k)
}

/// The slot of a position.
pub open spec fn slot_of(capacity: nat, position: nat) -> nat {
    position % capacity
}

/// One store into the ring.
pub enum RingStore {
    /// Into a stamp.
    Stamp {
        /// The slot.
        slot: nat,
        /// The stamp.
        value: u64,
    },
    /// Into a word.
    Word {
        /// The slot.
        slot: nat,
        /// The word's index.
        index: nat,
        /// The word.
        value: u64,
    },
    /// Into the write position.
    Write {
        /// The position.
        value: u64,
    },
}

/// A store into the stamp of the slot with index `i`.
spec fn stamp_store(i: usize, value: u64) -> RingStore {
    RingStore::Stamp { slot: i as nat, value }
}

/// A store into word `k` of the slot with index `i`.
spec fn word_store(i: usize, k: usize, value: u64) -> RingStore {
    RingStore::Word { slot: i as nat, index: k as nat, value }
}

/// The number of stores that a push of `width` words makes.
pub open spec fn stores_per_push(width: nat) -> nat {
    width + 3
}

/// The stores of the push at position `p`, in order: the stamp marked busy, the
/// words, the stamp, the write position.
pub open spec fn push_stores(capacity: nat, p: u64, rec: Seq<u64>) -> Seq<RingStore> {
    let slot = slot_of(capacity, p as nat);
    seq![RingStore::Stamp { slot, value: p | WRITING }] + Seq::new(
        rec.len(),
        |k: int| RingStore::Word { slot, index: k as nat, value: rec[k] },
    ) + seq![RingStore::Stamp { slot, value: p }, RingStore::Write { value: p.wrapping_add(1) }]
}

/// The stores of all pushes.
pub open spec fn all_stores(capacity: nat, sent: Seq<Seq<u64>>) -> Seq<RingStore>
    decreases sent.len(),
{
    if sent.len() == 0 {
        Seq::empty()
    } else {
        all_stores(capacity, sent.drop_last()) + push_stores(
            capacity,
            ((sent.len() - 1) % 0x1_0000_0000_0000_0000) as u64,
            sent.last(),
        )
    }
}

/// One load from the ring, and the value that it gave.
pub enum RingLoad {
    /// From a stamp.
    Stamp {
        /// The slot.
        slot: nat,
        /// The stamp.
        value: u64,
    },
    /// From a word.
    Word {
        /// The slot.
        slot: nat,
        /// The word's index.
        index: nat,
        /// The word.
        value: u64,
    },
    /// From the write position.
    Write {
        /// The position.
        value: u64,
    },
}

/// A load from the stamp of the slot with index `i`.
spec fn stamp_load(i: usize, value: u64) -> RingLoad {
    RingLoad::Stamp { slot: i as nat, value }
}

/// A load from word `k` of the slot with index `i`.
spec fn word_load(i: usize, k: usize, value: u64) -> RingLoad {
    RingLoad::Word { slot: i as nat, index: k as nat, value }
}

/// The loads of the words of a slot, in order.
pub open spec fn word_loads(slot: nat, words: Seq<u64>) -> Seq<RingLoad> {
    Seq::new(words.len(), |k: int| RingLoad::Word { slot, index: k as nat, value: words[k] })
}

/// What became of one attempt to receive.
#[derive(Debug, Clone, Copy, PartialEq, Eq)]
pub enum Recv<const W: usize> {
    /// The record at the cursor.
    Item([u64; W]),
    /// Nothing new.
    Empty,
    /// Records were overwritten before they could be read.
    Overrun {
        /// How many.
        skipped: u64,
    },
}

/// What one attempt to receive has loaded.
pub enum Attempt<const W: usize> {
    /// The write position had not passed the cursor.
    CaughtUp {
        /// The write position.
        write: u64,
    },
    /// The slot's stamp was not the cursor, before or after the words.
    Lapped {
        /// The write position at first.
        write: u64,
        /// The stamp.
        stamp: u64,
        /// The write position afterwards.
        fresh: u64,
    },
    /// The stamp was the cursor before and after the words.
    Clean {
        /// The write position.
        write: u64,
        /// The words.
        words: [u64; W],
    },
}

impl<const W: usize> Attempt<W> {
    /// Whether the attempt is one that the protocol makes at `cursor`.
    pub open spec fn follows(self, cursor: u64) -> bool {
        match self {
            Attempt::CaughtUp { write } => cursor >= write,
            Attempt::Lapped { write, stamp, .. } => cursor < write && stamp != cursor,
            Attempt::Clean { write, .. } => cursor < write,
        }
    }

    /// Whether the attempt at `cursor` consists of the loads `log`, in order: the write
    /// position; where that has passed the cursor, the stamp of the cursor's slot; where
    /// that is the cursor, the words and the stamp again; and where a stamp was another
    /// one, the write position again.
    pub open spec fn consists_of(self, cursor: u64, capacity: nat, log: Seq<RingLoad>) -> bool {
        let slot = slot_of(capacity, cursor as nat);
        match self {
            Attempt::CaughtUp { write } => log == seq![RingLoad::Write { value: write }],
            Attempt::Lapped { write, stamp, fresh } => {
                ||| log == seq![
                    RingLoad::Write { value: write },
                    RingLoad::Stamp { slot, value: stamp },
                    RingLoad::Write { value: fresh },
                ]
                ||| exists|words: Seq<u64>|
                    words.len() == W && log == seq![
                        RingLoad::Write { value: write },
                        RingLoad::Stamp { slot, value: cursor },
                    ] + #[trigger] word_loads(slot, words) + seq![
                        RingLoad::Stamp { slot, value: stamp },
                        RingLoad::Write { value: fresh },
                    ]
            },
            Attempt::Clean { write, words } => log == seq![
                RingLoad::Write { value: write },
                RingLoad::Stamp { slot, value: cursor },
            ] + word_loads(slot, words@) + seq![RingLoad::Stamp { slot, value: cursor }],
        }
    }

    /// The outcome of the attempt and the cursor after it.
    pub open spec fn settled(self, cursor: u64, capacity: nat) -> (Recv<W>, u64) {
        match self {
            Attempt::CaughtUp { .. } => (Recv::Empty, cursor),
            Attempt::Lapped { fresh, .. } => {
                let oldest = oldest_resident(fresh, capacity);
                (
                    Recv::Overrun {
                        skipped: if oldest > cursor { (oldest - cursor) as u64 } else { 0 },
                    },
                    oldest,
                )
            },
            Attempt::Clean { words, .. } => (Recv::Item(words), (cursor + 1) as u64),
        }
    }

    /// The outcome of the attempt and the cursor after it.
    pub fn settle(&self, cursor: u64, capacity: usize) -> (r: (Recv<W>, u64))
        requires
            self.follows(cursor),
        ensures
            r == self.settled(cursor, capacity as nat),
    {
        match self {
            Attempt::CaughtUp { .. } => (Recv::Empty, cursor),
            Attempt::Lapped { fresh, .. } => {
                let oldest: u64 = fresh.saturating_sub(capacity as u64);
                (Recv::Overrun { skipped: oldest.saturating_sub(cursor) }, oldest)
            },
            Attempt::Clean { words, .. } => (Recv::Item(*words), cursor + 1),
        }
    }
}

/// Whether a consumer at `cursor` that makes the loads `l` ends with the outcome `r` and
/// the cursor `next`: the loads are those of an attempt, and the outcome is what that
/// attempt comes to.
pub open spec fn received<const W: usize>(
    cursor: u64,
    capacity: nat,
    l: Seq<RingLoad>,
    r: Recv<W>,
    next: u64,
) -> bool {
    exists|a: Attempt<W>| #[trigger]
        a.consists_of(cursor, capacity, l) && a.follows(cursor) && (r, next) == a.settled(
            cursor,
            capacity,
        )
}

/// The oldest position that a ring still holds when `write` is the next one.
pub open spec fn oldest_resident(write: u64, capacity: nat) -> u64 {
    if write > capacity {
        (write - capacity) as u64
    } else {
        0
    }
}

/// One slot.
#[derive(Debug)]
struct Slot<const W: usize> {
    stamp: AtomicU64,
    words: Vec<AtomicU64>,
}

impl<const W: usize> Slot<W> {
    spec fn wf(&self) -> bool {
        self.words@.len() == W
    }

    fn new() -> (s: Self)
        ensures
            s.wf(),
    {
        let mut words: Vec<AtomicU64> = Vec::with_capacity(W);
        let mut k: usize = 0;
        while k < W
            invariant
                k <= W,
                words@.len() == k,
            decreases W - k,
        {
            words.push(AtomicU64::new(0));
            k += 1;
        }
        Slot { stamp: AtomicU64::new(EMPTY), words }
    }
}

/// The ring before it is split into its two ends.
#[derive(Debug)]
pub struct SpmcRing<const W: usize> {
    slots: Vec<Slot<W>>,
    mask: u64,
    write: AtomicU64,
}

/// A position masked by one less than a power of two is its remainder.
proof fn lemma_mask(capacity: u64, position: u64)
    requires
        is_power_of_two(capacity as nat),
    ensures
        capacity > 0,
        (position & sub_one(capacity)) == position % capacity,
{
    let k = choose|k: nat| capacity as nat == #[trigger] pow2(k);
    vstd::arithmetic::power2::lemma_pow2_pos(k);
    if k >= 64 {
        vstd::arithmetic::power2::lemma_pow2_strictly_increases(63, k);
        vstd::arithmetic::power2::lemma2_to64();
        if k > 64 {
            vstd::arithmetic::power2::lemma_pow2_strictly_increases(64, k);
        }
        vstd::arithmetic::power2::lemma2_to64_rest();
    }
    vstd::bits::lemma_u64_low_bits_mask_is_mod(position, k);
}

spec fn sub_one(x: u64) -> u64 {
    (x - 1) as u64
}

impl<const W: usize> SpmcRing<W> {
    /// The representation invariant.
    pub closed spec fn wf(&self) -> bool {
        &&& self.slots@.len() <= u64::MAX
        &&& is_power_of_two(self.slots@.len())
        &&& self.mask == self.slots@.len() - 1
        &&& forall|i: int| 0 <= i < self.slots@.len() ==> (#[trigger] self.slots@[i]).wf()
    }

    /// The number of slots.
    pub closed spec fn slots(&self) -> nat {
        self.slots@.len()
    }

    /// An empty ring of `cap` slots.
    #[must_use]
    pub fn with_capacity(cap: usize) -> (r: Self)
        requires
            is_power_of_two(cap as nat),
        ensures
            r.wf(),
            r.slots() == cap,
    {
        proof {
            lemma_mask(cap as u64, 0);
        }
        let mut slots: Vec<Slot<W>> = Vec::with_capacity(cap);
        let mut i: usize = 0;
        while i < cap
            invariant
                i <= cap,
                slots@.len() == i,
                forall|k: int| 0 <= k < i ==> (#[trigger] slots@[k]).wf(),
            decreases cap - i,
        {
            slots.push(Slot::new());
            i += 1;
        }
        SpmcRing { slots, mask: (cap - 1) as u64, write: AtomicU64::new(0) }
    }

    /// The number of slots: how far a consumer may trail before it is lapped.
    #[must_use]
    pub fn capacity(&self) -> (n: usize)
        ensures
            n == self.slots(),
    {
        self.slots.len()
    }

    /// The index of a position's slot.
    fn index(&self, position: u64) -> (i: usize)
        requires
            self.wf(),
        ensures
            i == slot_of(self.slots(), position as nat),
            i < self.slots@.len(),
    {
        let n: usize = self.slots.len();
        proof {
            lemma_mask(n as u64, position);
            assert(self.mask == sub_one(n as u64));
        }
        (position & self.mask) as usize
    }

    /// The two ends of the ring.
    #[must_use]
    pub fn split(self) -> (r: (Producer<W>, RingHandle<W>))
        requires
            self.wf(),
        ensures
            r.0.wf(),
            r.0.slots() == self.slots(),
            r.0.sent() == Seq::<Seq<u64>>::empty(),
            r.1.wf(),
            r.1.slots() == self.slots(),
    {
        let ring = Arc::new(self);
        let other = share(&ring);
        (
            Producer { ring: other, next: 0, sent: Ghost(Seq::empty()), log: Ghost(Seq::empty()) },
            RingHandle { ring },
        )
    }
}

/// The writing end. There is one to a ring.
pub struct Producer<const W: usize> {
    ring: Arc<SpmcRing<W>>,
    next: u64,
    sent: Ghost<Seq<Seq<u64>>>,
    log: Ghost<Seq<RingStore>>,
}

impl<const W: usize> Producer<W> {
    /// The number of slots.
    pub closed spec fn slots(&self) -> nat {
        self.ring.slots()
    }

    /// The records pushed so far.
    pub closed spec fn sent(&self) -> Seq<Seq<u64>> {
        self.sent@
    }

    /// The stores made so far.
    pub closed spec fn log(&self) -> Seq<RingStore> {
        self.log@
    }

    /// What holds of every producer: its stores are those of its records, pushed
    /// one after the other.
    pub closed spec fn wf(&self) -> bool {
        &&& self.ring.wf()
        &&& self.next == self.sent@.len() % 0x1_0000_0000_0000_0000
        &&& self.log@ == all_stores(self.ring.slots(), self.sent@)
        &&& forall|i: int| 0 <= i < self.sent@.len() ==> (#[trigger] self.sent@[i]).len() == W
    }

    /// The stores of a well-formed producer are those of its records.
    pub proof fn law_stores_are_those_of_the_records(&self)
        requires
            self.wf(),
        ensures
            self.log() == all_stores(self.slots(), self.sent()),
            is_power_of_two(self.slots()),
            forall|i: int| 0 <= i < self.sent().len() ==> (#[trigger] self.sent()[i]).len() == W,
    {
    }

    fn store_stamp(&mut self, i: usize, value: u64, last: bool)
        requires
            old(self).ring.wf(),
            i < old(self).ring.slots(),
        ensures
            final(self).ring == old(self).ring,
            final(self).next == old(self).next,
            final(self).sent == old(self).sent,
            final(self).log@ == old(self).log@.push(stamp_store(i, value)),
    {
        if last {
            self.ring.slots[i].stamp.store(value, Ordering::Release);
        } else {
            self.ring.slots[i].stamp.store(value, Ordering::Relaxed);
            fence(Ordering::Release);
        }
        self.log = Ghost(self.log@.push(stamp_store(i, value)));
    }

    fn store_word(&mut self, i: usize, k: usize, value: u64)
        requires
            old(self).ring.wf(),
            i < old(self).ring.slots(),
            k < W,
        ensures
            final(self).ring == old(self).ring,
            final(self).next == old(self).next,
            final(self).sent == old(self).sent,
            final(self).log@ == old(self).log@.push(word_store(i, k, value)),
    {
        self.ring.slots[i].words[k].store(value, Ordering::Relaxed);
        self.log = Ghost(self.log@.push(word_store(i, k, value)));
    }

    fn store_write(&mut self, value: u64)
        requires
            old(self).ring.wf(),
        ensures
            final(self).ring == old(self).ring,
            final(self).next == old(self).next,
            final(self).sent == old(self).sent,
            final(self).log@ == old(self).log@.push(RingStore::Write { value }),
    {
        self.ring.write.store(value, Ordering::Release);
        self.log = Ghost(self.log@.push(RingStore::Write { value }));
    }

    /// Appends `rec` to the stream, over the oldest record when the ring is full.
    /// It makes a fixed number of stores and waits for nobody.
    pub fn push(&mut self, rec: [u64; W])
        requires
            old(self).wf(),
        ensures
            final(self).wf(),
            final(self).slots() == old(self).slots(),
            final(self).sent() == old(self).sent().push(rec@),
    {
        let ghost before = self.log@;
        let ghost cap = self.ring.slots();
        let p: u64 = self.next;
        let i: usize = self.ring.index(p);
        self.store_stamp(i, p | WRITING, false);
        let ghost head = self.log@;
        let mut k: usize = 0;
        assert(self.log@ =~= head + Seq::new(
            0,
            |j: int| RingStore::Word { slot: i as nat, index: j as nat, value: rec@[j] },
        ));
        while k < W
            invariant
                k <= W,
                i < self.ring.slots(),
                self.ring == old(self).ring,
                self.ring.wf(),
                self.next == old(self).next,
                self.sent == old(self).sent,
                self.log@ == head + Seq::new(
                    k as nat,
                    |j: int| RingStore::Word { slot: i as nat, index: j as nat, value: rec@[j] },
                ),
            decreases W - k,
        {
            self.store_word(i, k, rec[k]);
            k += 1;
            assert(self.log@ =~= head + Seq::new(
                k as nat,
                |j: int| RingStore::Word { slot: i as nat, index: j as nat, value: rec@[j] },
            ));
        }
        self.store_stamp(i, p, true);
        self.store_write(p.wrapping_add(1));
        proof {
            assert(self.log@ =~= before + push_stores(cap, p, rec@));
        }
        self.sent = Ghost(self.sent@.push(rec@));
        self.next = p.wrapping_add(1);
        proof {
            assert(self.sent@.drop_last() =~= old(self).sent@);
            vstd::arithmetic::div_mod::lemma_add_mod_noop(
                old(self).sent@.len() as int,
                1,
                0x1_0000_0000_0000_0000,
            );
        }
    }

    /// The number of records pushed so far, which is the next position.
    #[must_use]
    pub fn position(&self) -> (p: u64)
        requires
            self.wf(),
        ensures
            p == self.sent().len() % 0x1_0000_0000_0000_0000,
    {
        self.next
    }
}

/// A source of consumers.
#[derive(Debug)]
pub struct RingHandle<const W: usize> {
    ring: Arc<SpmcRing<W>>,
}

impl<const W: usize> Clone for RingHandle<W> {
    fn clone(&self) -> (r: Self)
        ensures
            self.wf() ==> r.wf(),
            r.slots() == self.slots(),
    {
        RingHandle { ring: share(&self.ring) }
    }
}

impl<const W: usize> RingHandle<W> {
    /// The number of slots.
    pub closed spec fn slots(&self) -> nat {
        self.ring.slots()
    }

    /// What holds of every handle.
    pub closed spec fn wf(&self) -> bool {
        self.ring.wf()
    }

    /// A consumer that joins at the present write position.
    #[must_use]
    pub fn consumer(&self) -> (c: Consumer<W>)
        requires
            self.wf(),
        ensures
            c.wf(),
            c.slots() == self.slots(),
            c.log() == seq![RingLoad::Write { value: c.next() }],
    {
        let cursor: u64 = self.ring.write.load(Ordering::Acquire);
        let ghost log = seq![RingLoad::Write { value: cursor }];
        Consumer { ring: share(&self.ring), cursor, log: Ghost(log) }
    }

    /// A consumer that joins at the oldest record that the ring still holds.
    #[must_use]
    pub fn consumer_from_oldest(&self) -> (c: Consumer<W>)
        requires
            self.wf(),
        ensures
            c.wf(),
            c.slots() == self.slots(),
            exists|w: u64|
                c.next() == #[trigger] oldest_resident(w, self.slots()) && c.log()
                    == seq![RingLoad::Write { value: w }],
    {
        let w: u64 = self.ring.write.load(Ordering::Acquire);
        let ghost log = seq![RingLoad::Write { value: w }];
        let cursor: u64 = oldest(w, self.ring.capacity());
        Consumer { ring: share(&self.ring), cursor, log: Ghost(log) }
    }
}

/// The oldest position that a ring still holds when `write` is the next one.
pub fn oldest(write: u64, capacity: usize) -> (o: u64)
    ensures
        o == oldest_resident(write, capacity as nat),
{
    write.saturating_sub(capacity as u64)
}

/// A reading end, which keeps account of its loads.
pub struct Consumer<const W: usize> {
    ring: Arc<SpmcRing<W>>,
    cursor: u64,
    log: Ghost<Seq<RingLoad>>,
}

impl<const W: usize> Consumer<W> {
    /// The number of slots.
    pub closed spec fn slots(&self) -> nat {
        self.ring.slots()
    }

    /// The position that is read next.
    pub closed spec fn next(&self) -> u64 {
        self.cursor
    }

    /// The loads that were made, in order.
    pub closed spec fn log(&self) -> Seq<RingLoad> {
        self.log@
    }

    /// What holds of every consumer.
    pub closed spec fn wf(&self) -> bool {
        self.ring.wf()
    }

    /// Loads the write position. With it comes the record of the load.
    fn load_write(&self) -> (r: (u64, Ghost<RingLoad>))
        ensures
            r.1@ == (RingLoad::Write { value: r.0 }),
    {
        let value: u64 = self.ring.write.load(Ordering::Acquire);
        (value, Ghost(RingLoad::Write { value }))
    }

    /// Loads the stamp of slot `i`, before its words or after them.
    fn load_stamp(&self, i: usize, after: bool) -> (r: (u64, Ghost<RingLoad>))
        requires
            self.wf(),
            i < self.slots(),
        ensures
            r.1@ == stamp_load(i, r.0),
    {
        if after {
            fence(Ordering::Acquire);
            let value: u64 = self.ring.slots[i].stamp.load(Ordering::Relaxed);
            (value, Ghost(stamp_load(i, value)))
        } else {
            let value: u64 = self.ring.slots[i].stamp.load(Ordering::Acquire);
            (value, Ghost(stamp_load(i, value)))
        }
    }

    /// Loads word `k` of slot `i`.
    fn load_word(&self, i: usize, k: usize) -> (r: (u64, Ghost<RingLoad>))
        requires
            self.wf(),
            i < self.slots(),
            k < W,
        ensures
            r.1@ == word_load(i, k, r.0),
    {
        let value: u64 = self.ring.slots[i].words[k].load(Ordering::Relaxed);
        (value, Ghost(word_load(i, k, value)))
    }

    /// Loads the words of slot `i`, in order.
    fn load_words(&self, i: usize) -> (r: ([u64; W], Ghost<Seq<RingLoad>>))
        requires
            self.wf(),
            i < self.slots(),
        ensures
            r.1@ == word_loads(i as nat, r.0@),
    {
        let mut words: [u64; W] = [0u64; W];
        let ghost mut log: Seq<RingLoad> = Seq::empty();
        let mut k: usize = 0;
        assert(log =~= word_loads(i as nat, words@.take(0)));
        while k < W
            invariant
                k <= W,
                self.wf(),
                i < self.slots(),
                log == word_loads(i as nat, words@.take(k as int)),
            decreases W - k,
        {
            let ghost before = words@;
            let (word, Ghost(l)) = self.load_word(i, k);
            words[k] = word;
            proof {
                log = log.push(l);
                assert(words@.take(k + 1) =~= before.take(k as int).push(word));
                assert(log =~= word_loads(i as nat, words@.take(k + 1)));
            }
            k += 1;
        }
        assert(words@.take(k as int) =~= words@);
        (words, Ghost(log))
    }

    /// Loads what one attempt to receive needs: the write position; the stamp of
    /// the cursor's slot; its words; the stamp again; and, where a stamp was
    /// another one, the write position again. With it comes the record of the loads
    /// that were made.
    fn attempt(&self) -> (r: (Attempt<W>, Ghost<Seq<RingLoad>>))
        requires
            self.wf(),
        ensures
            r.0.follows(self.cursor),
            r.0.consists_of(self.cursor, self.slots(), r.1@),
    {
        let (write, Ghost(l0)) = self.load_write();
        if self.cursor >= write {
            let ghost log = seq![l0];
            return (Attempt::CaughtUp { write }, Ghost(log));
        }
        let i: usize = self.ring.index(self.cursor);
        let (first, Ghost(l1)) = self.load_stamp(i, false);
        if first != self.cursor {
            let (fresh, Ghost(l2)) = self.load_write();
            let ghost log = seq![l0, l1, l2];
            return (Attempt::Lapped { write, stamp: first, fresh }, Ghost(log));
        }
        let (words, Ghost(ls)) = self.load_words(i);
        let (second, Ghost(l2)) = self.load_stamp(i, true);
        if second != self.cursor {
            let (fresh, Ghost(l3)) = self.load_write();
            let ghost log = seq![l0, l1] + ls + seq![l2, l3];
            return (Attempt::Lapped { write, stamp: second, fresh }, Ghost(log));
        }
        let ghost log = seq![l0, l1] + ls + seq![l2];
        (Attempt::Clean { write, words }, Ghost(log))
    }

    /// Reads the record at the cursor if it is there and whole. It never waits.
    pub fn try_recv(&mut self) -> (r: Recv<W>)
        requires
            old(self).wf(),
        ensures
            final(self).wf(),
            final(self).slots() == old(self).slots(),
            exists|l: Seq<RingLoad>| #[trigger]
                received(old(self).next(), old(self).slots(), l, r, final(self).next())
                    && final(self).log() == old(self).log() + l,
            r is Item ==> final(self).next() == old(self).next() + 1,
            r is Empty ==> final(self).next() == old(self).next(),
    {
        let (a, Ghost(l)) = self.attempt();
        let (r, cursor) = a.settle(self.cursor, self.ring.capacity());
        self.cursor = cursor;
        self.log = Ghost(self.log@ + l);
        assert(a.consists_of(old(self).next(), old(self).slots(), l));
        assert(received(old(self).next(), old(self).slots(), l, r, self.next()));
        r
    }

    /// The position that is read next.
    #[must_use]
    pub fn cursor(&self) -> (c: u64)
        ensures
            c == self.next(),
    {
        self.cursor
    }
}

/// The oldest position that a ring still holds is a ring's length behind the next one, or
/// the first where fewer were written.
pub proof fn law_oldest_is_a_length_behind(write: u64, capacity: nat)
    ensures
        write <= capacity ==> oldest_resident(write, capacity) == 0,
        write > capacity ==> oldest_resident(write, capacity) + capacity == write,
{
}

} // verus!
