//! The ring seen from outside: what consumers can rely on.
//!
//! The memory of a ring is the outcome of its producer's stores, taken one after
//! the other; since there is one producer, it is a function of the records pushed
//! and of the number of stores made so far, which serves as the time. A consumer
//! loads values from that memory at times that do not go back. Whatever those
//! times are, no torn record is delivered, no record is delivered twice or out of
//! order, and no record is lost unnoticed.

use crate::ring::{
    all_stores, is_power_of_two, oldest_resident, push_stores, received, slot_of,
    stores_per_push, word_loads, Attempt, Recv, RingLoad, RingStore, EMPTY, WRITING,
};
use vstd::prelude::*;

verus! {

/// What the ring holds.
pub struct RingMemory {
    /// The write position.
    pub write: u64,
    /// The stamp of each slot.
    pub stamps: Seq<u64>,
    /// The words of each slot.
    pub words: Seq<Seq<u64>>,
}

/// The memory after one more store.
pub open spec fn after_store(m: RingMemory, st: RingStore) -> RingMemory {
    match st {
        RingStore::Stamp { slot, value } => RingMemory {
            stamps: m.stamps.update(slot as int, value),
            ..m
        },
        RingStore::Word { slot, index, value } => RingMemory {
            words: m.words.update(slot as int, m.words[slot as int].update(index as int, value)),
            ..m
        },
        RingStore::Write { value } => RingMemory { write: value, ..m },
    }
}

/// The store that is made at a given time: the pushes follow one another.
pub open spec fn store_at(capacity: nat, width: nat, sent: Seq<Seq<u64>>, time: nat) -> RingStore {
    let p = time / stores_per_push(width);
    push_stores(capacity, p as u64, sent[p as int])[(time % stores_per_push(width)) as int]
}

/// The memory at a given time.
pub open spec fn memory_at(capacity: nat, width: nat, sent: Seq<Seq<u64>>, time: nat) -> RingMemory
    decreases time,
{
    if time == 0 {
        RingMemory {
            write: 0,
            stamps: Seq::new(capacity, |i: int| EMPTY),
            words: Seq::new(capacity, |i: int| Seq::new(width, |k: int| 0u64)),
        }
    } else {
        let before = (time - 1) as nat;
        after_store(
            memory_at(capacity, width, sent, before),
            store_at(capacity, width, sent, before),
        )
    }
}

/// What a stream of records must be for the laws: records of one width, and fewer
/// of them than there are positions without the busy bit.
pub open spec fn stream_ok(capacity: nat, width: nat, sent: Seq<Seq<u64>>) -> bool {
    &&& is_power_of_two(capacity)
    &&& 0 < capacity
    &&& sent.len() < WRITING
    &&& forall|i: int| 0 <= i < sent.len() ==> (#[trigger] sent[i]).len() == width
}

/// The last position below `started` whose slot is `i`, or minus one.
spec fn generation(capacity: nat, i: int, started: nat) -> int
    decreases started,
{
    if started == 0 {
        -1
    } else if (started - 1) % (capacity as int) == i {
        started - 1
    } else {
        generation(capacity, i, (started - 1) as nat)
    }
}

/// Positions that share a slot lie at least a whole ring apart.
proof fn lemma_same_slot(capacity: nat, a: int, b: int)
    requires
        0 < capacity,
        0 <= a < b,
        a % (capacity as int) == b % (capacity as int),
    ensures
        b >= a + capacity,
{
    let c = capacity as int;
    vstd::arithmetic::div_mod::lemma_fundamental_div_mod(a, c);
    vstd::arithmetic::div_mod::lemma_fundamental_div_mod(b, c);
    let q = b / c - a / c;
    assert(b - a == c * q) by (nonlinear_arith)
        requires
            a == c * (a / c) + a % c,
            b == c * (b / c) + b % c,
            a % c == b % c,
            q == b / c - a / c,
    ;
    assert(q >= 1) by (nonlinear_arith)
        requires
            c * q > 0,
            c > 0,
    ;
    assert(c * q >= c) by (nonlinear_arith)
        requires
            q >= 1,
            c > 0,
    ;
}

proof fn lemma_next_same_slot(capacity: nat, g: int)
    requires
        0 < capacity,
        0 <= g,
    ensures
        (g + capacity) % (capacity as int) == g % (capacity as int),
{
    vstd::arithmetic::div_mod::lemma_mod_add_multiples_vanish(g, capacity as int);
}

/// What `generation` finds.
proof fn lemma_generation(capacity: nat, i: int, started: nat)
    requires
        0 < capacity,
        0 <= i < capacity,
    ensures
        ({
            let g = generation(capacity, i, started);
            g >= 0 ==> g % (capacity as int) == i && g < started <= g + capacity
        }),
        generation(capacity, i, started) >= -1,
    decreases started,
{
    if started > 0 {
        lemma_generation(capacity, i, (started - 1) as nat);
        let g = generation(capacity, i, (started - 1) as nat);
        if (started - 1) % (capacity as int) != i && g >= 0 {
            lemma_next_same_slot(capacity, g);
        }
    }
}

/// A position is found from its own push until the push a whole ring later.
proof fn lemma_generation_is(capacity: nat, c: int, started: nat)
    requires
        0 < capacity,
        0 <= c < started <= c + capacity,
    ensures
        generation(capacity, c % (capacity as int), started) == c,
    decreases started,
{
    if started - 1 > c {
        lemma_generation_is(capacity, c, (started - 1) as nat);
        if (started - 1) % (capacity as int) == c % (capacity as int) {
            lemma_same_slot(capacity, c, started - 1);
        }
    }
}

/// Whether slot `i` holds what it should when `r` stores of push `p` are made.
spec fn slot_ok(
    capacity: nat,
    width: nat,
    sent: Seq<Seq<u64>>,
    m: RingMemory,
    p: nat,
    r: nat,
    i: int,
) -> bool {
    let started = if r >= 1 { p + 1 } else { p };
    let g = generation(capacity, i, started);
    &&& m.words[i].len() == width
    &&& if g < 0 {
        m.stamps[i] == EMPTY
    } else if r >= 1 && g == p {
        &&& m.stamps[i] == (if r <= width + 1 { (p as u64) | WRITING } else { p as u64 })
        &&& forall|k: int| 0 <= k < width && k < r - 1 ==> (#[trigger] m.words[i][k]) == sent[p as int][k]
    } else {
        &&& m.stamps[i] == g
        &&& m.words[i] == sent[g]
    }
}

/// The whole memory, in closed form.
spec fn memory_ok(capacity: nat, width: nat, sent: Seq<Seq<u64>>, time: nat) -> bool {
    let p = time / stores_per_push(width);
    let r = time % stores_per_push(width);
    let m = memory_at(capacity, width, sent, time);
    &&& m.write == p
    &&& m.stamps.len() == capacity
    &&& m.words.len() == capacity
    &&& forall|i: int|
        0 <= i < capacity ==> #[trigger] slot_ok(capacity, width, sent, m, p, r, i)
}

/// One step of time within a push or over its end.
proof fn lemma_time_step(s: nat, before: nat)
    requires
        s >= 3,
    ensures
        before % s + 1 < s ==> (before + 1) / s == before / s && (before + 1) % s == before % s + 1,
        before % s + 1 == s ==> (before + 1) / s == before / s + 1 && (before + 1) % s == 0,
{
    let q = (before / s) as int;
    let r = (before % s) as int;
    vstd::arithmetic::div_mod::lemma_fundamental_div_mod(before as int, s as int);
    if r + 1 < s {
        assert(before + 1 == q * s + (r + 1)) by (nonlinear_arith)
            requires
                before == s * q + r,
        ;
        vstd::arithmetic::div_mod::lemma_fundamental_div_mod_converse(
            (before + 1) as int,
            s as int,
            q,
            r + 1,
        );
    } else {
        assert(before + 1 == (q + 1) * s + 0) by (nonlinear_arith)
            requires
                before == s * q + r,
                r + 1 == s,
        ;
        vstd::arithmetic::div_mod::lemma_fundamental_div_mod_converse(
            (before + 1) as int,
            s as int,
            q + 1,
            0,
        );
    }
}

proof fn lemma_memory(capacity: nat, width: nat, sent: Seq<Seq<u64>>, time: nat)
    requires
        stream_ok(capacity, width, sent),
        time <= stores_per_push(width) * sent.len(),
    ensures
        memory_ok(capacity, width, sent, time),
    decreases time,
{
    let s = stores_per_push(width);
    if time == 0 {
        vstd::arithmetic::div_mod::lemma_basic_div(0, s as int);
        vstd::arithmetic::div_mod::lemma_small_mod(0, s);
        let m = memory_at(capacity, width, sent, 0);
        assert forall|i: int| 0 <= i < capacity implies #[trigger] slot_ok(
            capacity,
            width,
            sent,
            m,
            0,
            0,
            i,
        ) by {}
    } else {
        let before = (time - 1) as nat;
        lemma_memory(capacity, width, sent, before);
        lemma_time_step(s, before);
        lemma_memory_step(capacity, width, sent, before);
    }
}

#[verifier::spinoff_prover]
#[verifier::rlimit(40)]
proof fn lemma_memory_step(capacity: nat, width: nat, sent: Seq<Seq<u64>>, before: nat)
    requires
        stream_ok(capacity, width, sent),
        before < stores_per_push(width) * sent.len(),
        memory_ok(capacity, width, sent, before),
    ensures
        memory_ok(capacity, width, sent, before + 1),
{
    let s = stores_per_push(width);
    let p = before / s;
    let r = before % s;
    let m = memory_at(capacity, width, sent, before);
    let next = memory_at(capacity, width, sent, before + 1);
    lemma_time_step(s, before);
    vstd::arithmetic::div_mod::lemma_fundamental_div_mod(before as int, s as int);
    vstd::arithmetic::div_mod::lemma_mod_bound(before as int, s as int);
    assert(p < sent.len()) by (nonlinear_arith)
        requires
            s * p + r < s * sent.len(),
            r >= 0,
            s > 0,
    ;
    let j = slot_of(capacity, p);
    vstd::arithmetic::div_mod::lemma_mod_bound(p as int, capacity as int);
    let rec = sent[p as int];
    assert(rec.len() == width);
    let st = store_at(capacity, width, sent, before);
    assert(next == after_store(m, st));
    let p2 = (before + 1) / s;
    let r2 = (before + 1) % s;
    let stores = push_stores(capacity, p as u64, rec);
    assert(st == stores[r as int]);
    if r == 0 {
        assert(st == RingStore::Stamp { slot: j, value: (p as u64) | WRITING });
    } else if r <= width {
        assert(st == RingStore::Word { slot: j, index: (r - 1) as nat, value: rec[r - 1] });
    } else if r == width + 1 {
        assert(st == RingStore::Stamp { slot: j, value: p as u64 });
    } else {
        assert(st == RingStore::Write { value: (p as u64).wrapping_add(1) });
    }
    lemma_generation_is(capacity, p as int, (p + 1) as nat);
    assert forall|i: int| 0 <= i < capacity implies #[trigger] slot_ok(
        capacity,
        width,
        sent,
        next,
        p2,
        r2,
        i,
    ) by {
        assert(slot_ok(capacity, width, sent, m, p, r, i));
        lemma_generation(capacity, i, p);
        lemma_generation(capacity, i, p + 1);
        assert(generation(capacity, i, p + 1) == (if p % capacity == i {
            p as int
        } else {
            generation(capacity, i, p)
        }));
        if i == j {
            if 1 <= r <= width {
                assert(next.words[i] == m.words[i].update(r - 1, rec[r - 1]));
            }
            if r == width + 2 {
                assert(next.words[i] =~= rec);
            }
        }
    }
}

/// A stamp with the busy bit is no position.
proof fn lemma_busy_is_no_position(p: u64)
    ensures
        p | WRITING >= WRITING,
        EMPTY >= WRITING,
{
    assert(p | 0x8000_0000_0000_0000u64 >= 0x8000_0000_0000_0000u64) by (bit_vector);
}

/// The slot of a position holds that position's record, stamped, exactly from the
/// store that publishes it until the store that begins to overwrite it.
proof fn lemma_residence(capacity: nat, width: nat, sent: Seq<Seq<u64>>, c: nat, time: nat)
    requires
        stream_ok(capacity, width, sent),
        c < WRITING,
        time <= stores_per_push(width) * sent.len(),
    ensures
        ({
            let s = stores_per_push(width);
            let m = memory_at(capacity, width, sent, time);
            let i = slot_of(capacity, c) as int;
            let resident = s * c + width + 2 <= time <= s * (c + capacity);
            &&& (m.stamps[i] == c) == resident
            &&& resident ==> m.words[i] == sent[c as int]
        }),
{
    let s = stores_per_push(width);
    let p = time / s;
    let r = time % s;
    let m = memory_at(capacity, width, sent, time);
    let i = slot_of(capacity, c) as int;
    lemma_memory(capacity, width, sent, time);
    vstd::arithmetic::div_mod::lemma_fundamental_div_mod(time as int, s as int);
    vstd::arithmetic::div_mod::lemma_mod_bound(time as int, s as int);
    vstd::arithmetic::div_mod::lemma_mod_bound(c as int, capacity as int);
    assert(slot_ok(capacity, width, sent, m, p, r, i));
    let started: nat = if r >= 1 { p + 1 } else { p };
    let g = generation(capacity, i, started);
    lemma_generation(capacity, i, started);
    assert(p <= sent.len()) by (nonlinear_arith)
        requires
            s * p + r <= s * sent.len(),
            r >= 0,
            s > 0,
    ;
    lemma_busy_is_no_position(p as u64);
    assert(s * (c + capacity) == s * c + s * capacity) by (nonlinear_arith);
    if s * c + width + 2 <= time && time <= s * (c + capacity) {
        assert(c <= p) by (nonlinear_arith)
            requires
                s * c <= s * p + r,
                r < s,
                s > 0,
        ;
        assert(c < started) by {
            if p == c {
                assert(r >= width + 2);
            }
        }
        assert(p <= c + capacity) by (nonlinear_arith)
            requires
                s * p + r <= s * (c + capacity),
                r >= 0,
                s > 0,
        ;
        if p == c + capacity {
            assert(r == 0);
        }
        lemma_generation_is(capacity, c as int, started);
        if r >= 1 && g == p {
            assert(r == width + 2);
            assert(m.words[i] =~= sent[c as int]);
        }
    } else if m.stamps[i] == c {
        assert(g == c);
        assert(c < started <= c + capacity);
        if p == c {
            assert(r >= 1 && g == p);
            assert(r > width + 1);
            assert(time == s * c + r);
        } else {
            assert(s * p >= s * c + s) by (nonlinear_arith)
                requires
                    p >= c + 1,
                    s > 0,
            ;
        }
        if r >= 1 {
            assert(s * p + s <= s * (c + capacity)) by (nonlinear_arith)
                requires
                    p + 1 <= c + capacity,
                    s > 0,
            ;
        } else {
            assert(s * p <= s * (c + capacity)) by (nonlinear_arith)
                requires
                    p <= c + capacity,
                    s > 0,
            ;
        }
        assert(false);
    }
}

/// Whether an attempt loaded its values from the memory, at times that do not go
/// back: the write position at `times[0]`; the stamp at `times[1]`; for a clean
/// attempt the words from `times[2]` on and the stamp again at the last time; for
/// a lapped one the write position again at `times[2]`.
spec fn seen_at<const W: usize>(
    a: Attempt<W>,
    cursor: u64,
    capacity: nat,
    sent: Seq<Seq<u64>>,
    times: Seq<nat>,
) -> bool {
    let slot = slot_of(capacity, cursor as nat) as int;
    &&& times.len() == W + 3
    &&& forall|i: int, j: int| 0 <= i <= j < times.len() ==> times[i] <= times[j]
    &&& times.last() <= stores_per_push(W as nat) * sent.len()
    &&& a.follows(cursor)
    &&& match a {
        Attempt::CaughtUp { write } => write == memory_at(
            capacity,
            W as nat,
            sent,
            times[0],
        ).write,
        Attempt::Lapped { write, stamp, fresh } => {
            &&& write == memory_at(capacity, W as nat, sent, times[0]).write
            &&& stamp == memory_at(capacity, W as nat, sent, times[1]).stamps[slot]
            &&& fresh == memory_at(capacity, W as nat, sent, times[2]).write
        },
        Attempt::Clean { write, words } => {
            &&& write == memory_at(capacity, W as nat, sent, times[0]).write
            &&& cursor == memory_at(capacity, W as nat, sent, times[1]).stamps[slot]
            &&& forall|k: int|
                0 <= k < W ==> #[trigger] words@[k] == memory_at(
                    capacity,
                    W as nat,
                    sent,
                    times[2 + k],
                ).words[slot][k]
            &&& cursor == memory_at(capacity, W as nat, sent, times[W + 2]).stamps[slot]
        },
    }
}

/// Whether a load from the memory `m` gives its value.
pub open spec fn loaded_from(m: RingMemory, l: RingLoad) -> bool {
    match l {
        RingLoad::Stamp { slot, value } => value == m.stamps[slot as int],
        RingLoad::Word { slot, index, value } => value == m.words[slot as int][index as int],
        RingLoad::Write { value } => value == m.write,
    }
}

/// Whether loads came from the memory, at times that do not go back: load `i` at
/// `times[i]`.
pub open spec fn loads_seen_at(
    log: Seq<RingLoad>,
    capacity: nat,
    width: nat,
    sent: Seq<Seq<u64>>,
    times: Seq<nat>,
) -> bool {
    &&& times.len() == log.len()
    &&& forall|i: int, j: int| 0 <= i <= j < times.len() ==> times[i] <= times[j]
    &&& times.last() <= stores_per_push(width) * sent.len()
    &&& forall|i: int|
        #![trigger times[i]]
        0 <= i < times.len() ==> loaded_from(memory_at(capacity, width, sent, times[i]), log[i])
}

/// An attempt whose loads came from the memory was seen there, from the time of its first
/// load to that of its last.
proof fn lemma_loads_are_seen<const W: usize>(
    a: Attempt<W>,
    cursor: u64,
    capacity: nat,
    sent: Seq<Seq<u64>>,
    log: Seq<RingLoad>,
    times: Seq<nat>,
)
    requires
        a.follows(cursor),
        a.consists_of(cursor, capacity, log),
        loads_seen_at(log, capacity, W as nat, sent, times),
    ensures
        exists|seen: Seq<nat>| #[trigger]
            seen_at(a, cursor, capacity, sent, seen) && seen.first() == times.first()
                && seen.last() == times.last() && (a is Lapped ==> seen[2] == times.last()),
{
    let w = W as int;
    let slot = slot_of(capacity, cursor as nat);
    let n = times.len();
    match a {
        Attempt::CaughtUp { write } => {
            let seen: Seq<nat> = Seq::new((w + 3) as nat, |i: int| times[0]);
            assert(loaded_from(memory_at(capacity, W as nat, sent, times[0]), log[0]));
            assert(seen_at(a, cursor, capacity, sent, seen));
        },
        Attempt::Lapped { write, stamp, fresh } => {
            let seen: Seq<nat> = Seq::new(
                (w + 3) as nat,
                |i: int|
                    if i == 0 {
                        times[0]
                    } else if i == 1 {
                        times[n - 2]
                    } else {
                        times[n - 1]
                    },
            );
            assert(log[0] == RingLoad::Write { value: write });
            assert(log[n - 2] == RingLoad::Stamp { slot, value: stamp });
            assert(log[n - 1] == RingLoad::Write { value: fresh });
            assert(loaded_from(memory_at(capacity, W as nat, sent, times[0]), log[0]));
            assert(loaded_from(memory_at(capacity, W as nat, sent, times[n - 2]), log[n - 2]));
            assert(loaded_from(memory_at(capacity, W as nat, sent, times[n - 1]), log[n - 1]));
            assert(seen_at(a, cursor, capacity, sent, seen));
        },
        Attempt::Clean { write, words } => {
            assert(log[0] == RingLoad::Write { value: write });
            assert(log[1] == RingLoad::Stamp { slot, value: cursor });
            assert(log[w + 2] == RingLoad::Stamp { slot, value: cursor });
            assert(loaded_from(memory_at(capacity, W as nat, sent, times[0]), log[0]));
            assert(loaded_from(memory_at(capacity, W as nat, sent, times[1]), log[1]));
            assert(loaded_from(memory_at(capacity, W as nat, sent, times[w + 2]), log[w + 2]));
            assert forall|k: int| 0 <= k < W implies #[trigger] words@[k] == memory_at(
                capacity,
                W as nat,
                sent,
                times[2 + k],
            ).words[slot as int][k] by {
                assert(log[2 + k] == word_loads(slot, words@)[k]);
                assert(loaded_from(memory_at(capacity, W as nat, sent, times[2 + k]), log[2 + k]));
            }
            assert(seen_at(a, cursor, capacity, sent, times));
        },
    }
}

/// The write position counts the pushes that are complete.
proof fn lemma_write(capacity: nat, width: nat, sent: Seq<Seq<u64>>, time: nat)
    requires
        stream_ok(capacity, width, sent),
        time <= stores_per_push(width) * sent.len(),
    ensures
        memory_at(capacity, width, sent, time).write == time / stores_per_push(width),
        time / stores_per_push(width) <= sent.len(),
        stores_per_push(width) * (time / stores_per_push(width)) <= time,
{
    let s = stores_per_push(width);
    lemma_memory(capacity, width, sent, time);
    vstd::arithmetic::div_mod::lemma_fundamental_div_mod(time as int, s as int);
    vstd::arithmetic::div_mod::lemma_mod_bound(time as int, s as int);
    assert(time / s <= sent.len()) by (nonlinear_arith)
        requires
            time == s * (time / s) + time % s,
            time <= s * sent.len(),
            time % s >= 0,
            s > 0,
    ;
}

/// A clean attempt delivers the record that was pushed at the cursor, whole.
proof fn lemma_no_torn_attempt<const W: usize>(
    a: Attempt<W>,
    cursor: u64,
    capacity: nat,
    sent: Seq<Seq<u64>>,
    times: Seq<nat>,
)
    requires
        stream_ok(capacity, W as nat, sent),
        seen_at(a, cursor, capacity, sent, times),
    ensures
        a.settled(cursor, capacity).0 matches Recv::Item(words) ==> {
            &&& cursor < sent.len()
            &&& words@ == sent[cursor as int]
            &&& a.settled(cursor, capacity).1 == cursor + 1
        },
{
    if let Attempt::Clean { write, words } = a {
        let slot = slot_of(capacity, cursor as nat) as int;
        lemma_write(capacity, W as nat, sent, times[0]);
        assert(times[0] <= times.last());
        assert(cursor < sent.len());
        assert(times[1] <= times.last() && times[W + 2] <= times.last());
        lemma_residence(capacity, W as nat, sent, cursor as nat, times[1]);
        lemma_residence(capacity, W as nat, sent, cursor as nat, times[W + 2]);
        assert forall|k: int| 0 <= k < W implies words@[k] == sent[cursor as int][k] by {
            assert(times[1] <= times[2 + k] && times[2 + k] <= times[W + 2]);
            lemma_residence(capacity, W as nat, sent, cursor as nat, times[2 + k]);
        }
        assert(words@ =~= sent[cursor as int]);
    }
}

/// A lapped attempt moves to the oldest record that the ring holds.
proof fn lemma_lapped_attempt<const W: usize>(
    a: Attempt<W>,
    cursor: u64,
    capacity: nat,
    sent: Seq<Seq<u64>>,
    times: Seq<nat>,
)
    requires
        stream_ok(capacity, W as nat, sent),
        seen_at(a, cursor, capacity, sent, times),
    ensures
        a.settled(cursor, capacity) matches (Recv::Overrun { skipped }, next) ==> {
            &&& next == cursor + skipped
            &&& memory_at(capacity, W as nat, sent, times[2]).write == next + capacity
            &&& forall|p: nat|
                cursor <= p < next ==> memory_at(
                    capacity,
                    W as nat,
                    sent,
                    times[2],
                ).stamps[#[trigger] slot_of(capacity, p) as int] != p
        },
{
    if let Attempt::Lapped { write, stamp, fresh } = a {
        let s = stores_per_push(W as nat);
        lemma_write(capacity, W as nat, sent, times[0]);
        assert(times[0] <= times.last() && times[1] <= times.last() && times[2] <= times.last());
        assert(times[0] <= times[1] && times[1] <= times[2]);
        lemma_write(capacity, W as nat, sent, times[2]);
        lemma_residence(capacity, W as nat, sent, cursor as nat, times[1]);
        assert(s * cursor + s <= s * (times[0] / s)) by (nonlinear_arith)
            requires
                cursor + 1 <= times[0] / s,
                s > 0,
        ;
        assert(times[1] > s * (cursor + capacity));
        assert(times[2] / s >= cursor + capacity) by {
            vstd::arithmetic::div_mod::lemma_div_is_ordered(
                s * (cursor + capacity),
                times[2] as int,
                s as int,
            );
            vstd::arithmetic::div_mod::lemma_div_multiples_vanish(cursor + capacity, s as int);
        }
        let next = oldest_resident(fresh, capacity);
        assert forall|p: nat| cursor <= p < next implies memory_at(
            capacity,
            W as nat,
            sent,
            times[2],
        ).stamps[#[trigger] slot_of(capacity, p) as int] != p by {
            lemma_residence(capacity, W as nat, sent, p, times[2]);
            assert(s * (p + capacity) + s <= s * (times[2] / s)) by (nonlinear_arith)
                requires
                    p + capacity + 1 <= times[2] / s,
                    s > 0,
            ;
        }
    }
}

/// An attempt finds nothing new only when there is nothing new.
proof fn lemma_empty_attempt<const W: usize>(
    a: Attempt<W>,
    cursor: u64,
    capacity: nat,
    sent: Seq<Seq<u64>>,
    times: Seq<nat>,
)
    requires
        stream_ok(capacity, W as nat, sent),
        seen_at(a, cursor, capacity, sent, times),
    ensures
        a.settled(cursor, capacity).0 is Empty <==> times[0] / stores_per_push(W as nat) <= cursor,
{
    assert(times[0] <= times.last());
    lemma_write(capacity, W as nat, sent, times[0]);
}

/// An attempt delivers a record that is not being overwritten when the last value is
/// loaded.
proof fn lemma_resident_attempt<const W: usize>(
    a: Attempt<W>,
    cursor: u64,
    capacity: nat,
    sent: Seq<Seq<u64>>,
    times: Seq<nat>,
)
    requires
        stream_ok(capacity, W as nat, sent),
        seen_at(a, cursor, capacity, sent, times),
        cursor < times[0] / stores_per_push(W as nat),
        times.last() <= stores_per_push(W as nat) * (cursor + capacity),
    ensures
        a.settled(cursor, capacity).0 matches Recv::Item(words) && words@ == sent[cursor as int],
{
    let s = stores_per_push(W as nat);
    assert(times[0] <= times.last() && times[1] <= times.last() && times[0] <= times[1]);
    lemma_write(capacity, W as nat, sent, times[0]);
    assert(s * cursor + s <= s * (times[0] / s)) by (nonlinear_arith)
        requires
            cursor + 1 <= times[0] / s,
            s > 0,
    ;
    if let Attempt::Lapped { .. } = a {
        lemma_residence(capacity, W as nat, sent, cursor as nat, times[1]);
        assert(false);
    }
    lemma_no_torn_attempt(a, cursor, capacity, sent, times);
}

/// The attempt behind an outcome, and the times at which it was seen.
proof fn lemma_received<const W: usize>(
    cursor: u64,
    capacity: nat,
    sent: Seq<Seq<u64>>,
    l: Seq<RingLoad>,
    r: Recv<W>,
    next: u64,
    times: Seq<nat>,
) -> (s: (Attempt<W>, Seq<nat>))
    requires
        received(cursor, capacity, l, r, next),
        loads_seen_at(l, capacity, W as nat, sent, times),
    ensures
        seen_at(s.0, cursor, capacity, sent, s.1),
        s.0.settled(cursor, capacity) == (r, next),
        s.1.first() == times.first(),
        s.1.last() == times.last(),
        s.0 is Lapped ==> s.1[2] == times.last(),
{
    let a = choose|a: Attempt<W>| #[trigger]
        a.consists_of(cursor, capacity, l) && a.follows(cursor) && (r, next) == a.settled(
            cursor,
            capacity,
        );
    lemma_loads_are_seen(a, cursor, capacity, sent, l, times);
    let seen = choose|seen: Seq<nat>| #[trigger]
        seen_at(a, cursor, capacity, sent, seen) && seen.first() == times.first() && seen.last()
            == times.last() && (a is Lapped ==> seen[2] == times.last());
    (a, seen)
}

/// A record that is delivered is the one that was pushed at the cursor, whole.
pub proof fn law_no_torn_record<const W: usize>(
    cursor: u64,
    capacity: nat,
    sent: Seq<Seq<u64>>,
    l: Seq<RingLoad>,
    r: Recv<W>,
    next: u64,
    times: Seq<nat>,
)
    requires
        stream_ok(capacity, W as nat, sent),
        received(cursor, capacity, l, r, next),
        loads_seen_at(l, capacity, W as nat, sent, times),
    ensures
        r matches Recv::Item(words) ==> {
            &&& cursor < sent.len()
            &&& words@ == sent[cursor as int]
            &&& next == cursor + 1
        },
{
    let (a, seen) = lemma_received(cursor, capacity, sent, l, r, next, times);
    lemma_no_torn_attempt(a, cursor, capacity, sent, seen);
}

/// A lapped consumer is told exactly how many records it has lost: it moves forward, by
/// the number reported, to the oldest record that the ring holds at its last load, and
/// none of the records it passed over is there any more.
pub proof fn law_overrun_is_exact<const W: usize>(
    cursor: u64,
    capacity: nat,
    sent: Seq<Seq<u64>>,
    l: Seq<RingLoad>,
    r: Recv<W>,
    next: u64,
    times: Seq<nat>,
)
    requires
        stream_ok(capacity, W as nat, sent),
        received(cursor, capacity, l, r, next),
        loads_seen_at(l, capacity, W as nat, sent, times),
    ensures
        r matches Recv::Overrun { skipped } ==> {
            &&& next == cursor + skipped
            &&& memory_at(capacity, W as nat, sent, times.last()).write == next + capacity
            &&& forall|p: nat|
                cursor <= p < next ==> memory_at(
                    capacity,
                    W as nat,
                    sent,
                    times.last(),
                ).stamps[#[trigger] slot_of(capacity, p) as int] != p
        },
{
    let (a, seen) = lemma_received(cursor, capacity, sent, l, r, next, times);
    lemma_lapped_attempt(a, cursor, capacity, sent, seen);
}

/// A consumer hears that there is nothing new if and only if there is nothing new at its
/// first load.
pub proof fn law_empty_means_caught_up<const W: usize>(
    cursor: u64,
    capacity: nat,
    sent: Seq<Seq<u64>>,
    l: Seq<RingLoad>,
    r: Recv<W>,
    next: u64,
    times: Seq<nat>,
)
    requires
        stream_ok(capacity, W as nat, sent),
        received(cursor, capacity, l, r, next),
        loads_seen_at(l, capacity, W as nat, sent, times),
    ensures
        r is Empty <==> times.first() / stores_per_push(W as nat) <= cursor,
        r is Empty ==> next == cursor,
{
    let (a, seen) = lemma_received(cursor, capacity, sent, l, r, next, times);
    lemma_empty_attempt(a, cursor, capacity, sent, seen);
}

/// A consumer that stays within a ring's length of the producer is never lapped: as long
/// as the record at its cursor is not being overwritten at its last load, it gets it.
pub proof fn law_keeping_up_loses_nothing<const W: usize>(
    cursor: u64,
    capacity: nat,
    sent: Seq<Seq<u64>>,
    l: Seq<RingLoad>,
    r: Recv<W>,
    next: u64,
    times: Seq<nat>,
)
    requires
        stream_ok(capacity, W as nat, sent),
        received(cursor, capacity, l, r, next),
        loads_seen_at(l, capacity, W as nat, sent, times),
        cursor < times.first() / stores_per_push(W as nat),
        times.last() <= stores_per_push(W as nat) * (cursor + capacity),
    ensures
        r matches Recv::Item(words) && words@ == sent[cursor as int] && next == cursor + 1,
{
    let (a, seen) = lemma_received(cursor, capacity, sent, l, r, next, times);
    lemma_resident_attempt(a, cursor, capacity, sent, seen);
}

/// Nothing goes uncounted: a consumer's cursor moves by the number of records that it was
/// given or told of as lost.
pub proof fn law_every_position_is_accounted_for<const W: usize>(
    cursor: u64,
    capacity: nat,
    sent: Seq<Seq<u64>>,
    l: Seq<RingLoad>,
    r: Recv<W>,
    next: u64,
    times: Seq<nat>,
)
    requires
        stream_ok(capacity, W as nat, sent),
        received(cursor, capacity, l, r, next),
        loads_seen_at(l, capacity, W as nat, sent, times),
    ensures
        next == cursor + (match r {
            Recv::Item(_) => 1int,
            Recv::Empty => 0,
            Recv::Overrun { skipped } => skipped as int,
        }),
{
    law_no_torn_record(cursor, capacity, sent, l, r, next, times);
    law_overrun_is_exact(cursor, capacity, sent, l, r, next, times);
    law_empty_means_caught_up(cursor, capacity, sent, l, r, next, times);
}

/// What a consumer gets while no push is running: nothing when it has read all; the
/// record at its cursor when it is at most a ring's length behind; and otherwise the
/// number of records that it has lost, with the oldest that is left as its next one.
pub proof fn law_receive_at_rest<const W: usize>(
    cursor: u64,
    capacity: nat,
    sent: Seq<Seq<u64>>,
    l: Seq<RingLoad>,
    r: Recv<W>,
    next: u64,
    times: Seq<nat>,
)
    requires
        stream_ok(capacity, W as nat, sent),
        received(cursor, capacity, l, r, next),
        loads_seen_at(l, capacity, W as nat, sent, times),
        times.first() == stores_per_push(W as nat) * sent.len(),
        cursor <= sent.len(),
    ensures
        cursor == sent.len() ==> r is Empty && next == cursor,
        cursor < sent.len() <= cursor + capacity ==> {
            &&& r matches Recv::Item(words) && words@ == sent[cursor as int]
            &&& next == cursor + 1
        },
        cursor + capacity < sent.len() ==> {
            &&& r matches Recv::Overrun { skipped } && skipped == sent.len() - capacity - cursor
            &&& next == sent.len() - capacity
        },
{
    let s = stores_per_push(W as nat);
    let n = sent.len();
    let (a, seen) = lemma_received(cursor, capacity, sent, l, r, next, times);
    let end = s * n;
    assert(seen[0] <= seen.last());
    assert(times.last() == end);
    assert(end / s == n) by {
        vstd::arithmetic::div_mod::lemma_div_multiples_vanish(n as int, s as int);
    }
    law_empty_means_caught_up(cursor, capacity, sent, l, r, next, times);
    if cursor < n && n <= cursor + capacity {
        assert(s * n <= s * (cursor + capacity)) by (nonlinear_arith)
            requires
                n <= cursor + capacity,
        ;
        law_keeping_up_loses_nothing(cursor, capacity, sent, l, r, next, times);
    }
    if cursor + capacity < n {
        if a is Clean {
            assert(seen[0] <= seen[1] <= seen.last());
            lemma_residence(capacity, W as nat, sent, cursor as nat, end);
            assert(s * n > s * (cursor + capacity)) by (nonlinear_arith)
                requires
                    n > cursor + capacity,
                    s > 0,
            ;
            assert(false);
        }
        law_overrun_is_exact(cursor, capacity, sent, l, r, next, times);
        lemma_write(capacity, W as nat, sent, end);
    }
}

/// The records among some outcomes.
pub open spec fn delivered<const W: usize>(outcomes: Seq<Recv<W>>) -> Seq<Seq<u64>>
    decreases outcomes.len(),
{
    if outcomes.len() == 0 {
        Seq::empty()
    } else {
        let init = delivered(outcomes.drop_last());
        match outcomes.last() {
            Recv::Item(words) => init.push(words@),
            _ => init,
        }
    }
}

/// A consumer that is not lapped receives the stream as it was pushed: every
/// record once, in order, from the position where it joined.
pub proof fn law_delivery_in_order<const W: usize>(
    outcomes: Seq<Recv<W>>,
    cursors: Seq<u64>,
    logs: Seq<Seq<RingLoad>>,
    times: Seq<Seq<nat>>,
    capacity: nat,
    sent: Seq<Seq<u64>>,
)
    requires
        stream_ok(capacity, W as nat, sent),
        cursors.len() == outcomes.len() + 1,
        logs.len() == outcomes.len(),
        times.len() == outcomes.len(),
        forall|i: int|
            #![trigger outcomes[i]]
            0 <= i < outcomes.len() ==> {
                &&& received(cursors[i], capacity, logs[i], outcomes[i], cursors[i + 1])
                &&& loads_seen_at(logs[i], capacity, W as nat, sent, times[i])
                &&& !(outcomes[i] is Overrun)
            },
        cursors[0] <= sent.len(),
    ensures
        cursors[0] <= cursors.last() <= sent.len(),
        delivered(outcomes) == sent.subrange(cursors[0] as int, cursors.last() as int),
    decreases outcomes.len(),
{
    if outcomes.len() == 0 {
        assert(sent.subrange(cursors[0] as int, cursors.last() as int) =~= Seq::empty());
    } else {
        let n = outcomes.len() - 1;
        let init = outcomes.drop_last();
        let cs = cursors.drop_last();
        assert forall|i: int| #![trigger init[i]] 0 <= i < init.len() implies {
            &&& received(cs[i], capacity, logs.drop_last()[i], init[i], cs[i + 1])
            &&& loads_seen_at(
                logs.drop_last()[i],
                capacity,
                W as nat,
                sent,
                times.drop_last()[i],
            )
            &&& !(init[i] is Overrun)
        } by {
            assert(init[i] == outcomes[i]);
        }
        law_delivery_in_order(init, cs, logs.drop_last(), times.drop_last(), capacity, sent);
        assert(cs.last() == cursors[n]);
        let r = outcomes[n];
        assert(outcomes.last() == r);
        law_no_torn_record(cursors[n], capacity, sent, logs[n], r, cursors[n + 1], times[n]);
        law_empty_means_caught_up(cursors[n], capacity, sent, logs[n], r, cursors[n + 1], times[n]);
        match r {
            Recv::Item(words) => {
                assert(sent.subrange(cursors[0] as int, cursors.last() as int) =~= sent.subrange(
                    cursors[0] as int,
                    cursors[n] as int,
                ).push(words@));
            },
            _ => {},
        }
    }
}

/// A producer's stores are the ones that the memory is built from.
pub proof fn law_producer_follows_the_protocol(
    capacity: nat,
    width: nat,
    sent: Seq<Seq<u64>>,
    time: nat,
)
    requires
        stream_ok(capacity, width, sent),
        time < stores_per_push(width) * sent.len(),
    ensures
        all_stores(capacity, sent).len() == stores_per_push(width) * sent.len(),
        all_stores(capacity, sent)[time as int] == store_at(capacity, width, sent, time),
    decreases sent.len(),
{
    let s = stores_per_push(width);
    let init = sent.drop_last();
    let n = init.len();
    lemma_all_stores_len(capacity, width, sent);
    lemma_all_stores_len(capacity, width, init);
    assert(s * sent.len() == s * n + s) by (nonlinear_arith)
        requires
            sent.len() == n + 1,
    ;
    if time < s * n {
        law_producer_follows_the_protocol(capacity, width, init, time);
        vstd::arithmetic::div_mod::lemma_fundamental_div_mod(time as int, s as int);
        vstd::arithmetic::div_mod::lemma_mod_bound(time as int, s as int);
        assert(time / s < n) by (nonlinear_arith)
            requires
                time == s * (time / s) + time % s,
                time < s * n,
                time % s >= 0,
                s > 0,
        ;
        assert(init[(time / s) as int] == sent[(time / s) as int]);
    } else {
        let r = time - s * n;
        vstd::arithmetic::div_mod::lemma_fundamental_div_mod_converse(
            time as int,
            s as int,
            n as int,
            r,
        );
        vstd::arithmetic::div_mod::lemma_small_mod(n, 0x1_0000_0000_0000_0000nat);
    }
}

proof fn lemma_all_stores_len(capacity: nat, width: nat, sent: Seq<Seq<u64>>)
    requires
        forall|i: int| 0 <= i < sent.len() ==> (#[trigger] sent[i]).len() == width,
    ensures
        all_stores(capacity, sent).len() == stores_per_push(width) * sent.len(),
    decreases sent.len(),
{
    if sent.len() > 0 {
        let init = sent.drop_last();
        assert forall|i: int| 0 <= i < init.len() implies (#[trigger] init[i]).len() == width by {
            assert(init[i] == sent[i]);
        }
        lemma_all_stores_len(capacity, width, init);
        assert(sent.last() == sent[sent.len() - 1]);
        assert(stores_per_push(width) * sent.len() == stores_per_push(width) * init.len()
            + stores_per_push(width)) by (nonlinear_arith)
            requires
                sent.len() == init.len() + 1,
        ;
    }
}

} // verus!
