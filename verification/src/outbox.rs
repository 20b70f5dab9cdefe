//! Payloads on their way to the store: each kind of record has a lane of its own, and
//! each lane collects payloads until a batch of them is due.

use crate::market::{Batch, Record};
use vstd::prelude::*;

verus! {

/// The lane of a kind of record.
#[derive(Clone, Copy, PartialEq, Eq, Structural, Debug)]
pub enum Lane {
    /// Prices.
    Prices,
    /// Tops of book.
    Books,
    /// Trades.
    Trades,
}

/// The lane of a record.
pub open spec fn lane_of(r: Record) -> Lane {
    match r {
        Record::Price(_) => Lane::Prices,
        Record::Top(_) => Lane::Books,
        Record::Trade(_) => Lane::Trades,
    }
}

/// The lane of a record.
pub fn lane(r: &Record) -> (l: Lane)
    ensures
        l == lane_of(*r),
{
    match r {
        Record::Price(_) => Lane::Prices,
        Record::Top(_) => Lane::Books,
        Record::Trade(_) => Lane::Trades,
    }
}

/// The stream of a lane: what it carries, a colon, and the exchange.
pub open spec fn stream_of(l: Lane, exchange: Seq<char>) -> Seq<char> {
    (match l {
        Lane::Prices => "prices:"@,
        Lane::Books => "orderbook:"@,
        Lane::Trades => "trades:"@,
    }) + exchange
}

/// The stream of a lane.
pub fn stream_key(l: Lane, exchange: &str) -> (s: String)
    ensures
        s@ == stream_of(l, exchange@),
{
    let mut s = crate::text::copy_text(
        match l {
            Lane::Prices => "prices:",
            Lane::Books => "orderbook:",
            Lane::Trades => "trades:",
        },
    );
    s.append(exchange);
    s
}

/// The three lanes of a connection.
#[derive(Debug)]
pub struct Outbox<T> {
    prices: Batch<T>,
    books: Batch<T>,
    trades: Batch<T>,
}

impl<T> Outbox<T> {
    /// The payloads that wait on a lane, oldest first.
    pub closed spec fn waiting(self, l: Lane) -> Seq<T> {
        match l {
            Lane::Prices => self.prices.waiting(),
            Lane::Books => self.books.waiting(),
            Lane::Trades => self.trades.waiting(),
        }
    }

    /// How many payloads make a lane due.
    pub closed spec fn due_at(self) -> nat {
        self.prices.due_at()
    }

    /// All lanes are due at the same number of payloads.
    pub closed spec fn wf(self) -> bool {
        self.books.due_at() == self.prices.due_at() && self.trades.due_at() == self.prices.due_at()
    }

    /// Empty lanes that are due at `limit` payloads.
    pub fn new(limit: usize) -> (o: Self)
        ensures
            o.wf(),
            o.due_at() == limit,
            forall|l: Lane| #[trigger] o.waiting(l) == Seq::<T>::empty(),
    {
        Outbox { prices: Batch::new(limit), books: Batch::new(limit), trades: Batch::new(limit) }
    }

    /// Adds a payload to a lane.
    pub fn put(&mut self, l: Lane, payload: T)
        requires
            old(self).wf(),
        ensures
            final(self).wf(),
            final(self).due_at() == old(self).due_at(),
            forall|k: Lane| #[trigger]
                final(self).waiting(k) == after(
                    old(self).waiting(k),
                    old(self).due_at(),
                    k,
                    Move::Put(l, payload),
                ).1,
    {
        match l {
            Lane::Prices => self.prices.push(payload),
            Lane::Books => self.books.push(payload),
            Lane::Trades => self.trades.push(payload),
        }
    }

    /// Hands out what waits on a lane, when it is due.
    pub fn take_due(&mut self, l: Lane) -> (r: Option<Vec<T>>)
        requires
            old(self).wf(),
        ensures
            final(self).wf(),
            final(self).due_at() == old(self).due_at(),
            r is Some == (old(self).waiting(l).len() >= old(self).due_at()),
            r matches Some(v) ==> v@ == old(self).waiting(l),
            forall|k: Lane| #[trigger]
                final(self).waiting(k) == after(
                    old(self).waiting(k),
                    old(self).due_at(),
                    k,
                    Move::<T>::Due(l),
                ).1,
    {
        match l {
            Lane::Prices => self.prices.take_due(),
            Lane::Books => self.books.take_due(),
            Lane::Trades => self.trades.take_due(),
        }
    }

    /// Hands out what waits on a lane, when there is anything.
    pub fn take_rest(&mut self, l: Lane) -> (r: Option<Vec<T>>)
        requires
            old(self).wf(),
        ensures
            final(self).wf(),
            final(self).due_at() == old(self).due_at(),
            r is Some == (old(self).waiting(l).len() > 0),
            r matches Some(v) ==> v@ == old(self).waiting(l),
            forall|k: Lane| #[trigger]
                final(self).waiting(k) == after(
                    old(self).waiting(k),
                    old(self).due_at(),
                    k,
                    Move::<T>::Rest(l),
                ).1,
    {
        match l {
            Lane::Prices => self.prices.take_rest(),
            Lane::Books => self.books.take_rest(),
            Lane::Trades => self.trades.take_rest(),
        }
    }
}

/// What is done with an outbox.
pub enum Move<T> {
    /// A payload is added to a lane.
    Put(Lane, T),
    /// A lane is emptied where it is due.
    Due(Lane),
    /// A lane is emptied.
    Rest(Lane),
}

/// What a move sends from lane `k`, on which `waiting` waits, and what waits there
/// after it.
pub open spec fn after<T>(waiting: Seq<T>, due_at: nat, k: Lane, m: Move<T>) -> (Seq<T>, Seq<T>) {
    match m {
        Move::Put(l, payload) => (
            Seq::empty(),
            if l == k {
                waiting.push(payload)
            } else {
                waiting
            },
        ),
        Move::Due(l) => if l == k && waiting.len() >= due_at {
            (waiting, Seq::empty())
        } else {
            (Seq::empty(), waiting)
        },
        Move::Rest(l) => if l == k {
            (waiting, Seq::empty())
        } else {
            (Seq::empty(), waiting)
        },
    }
}

/// What some moves have sent from lane `k` of an outbox that was empty, and what waits
/// there after them.
pub open spec fn after_all<T>(due_at: nat, k: Lane, moves: Seq<Move<T>>) -> (Seq<T>, Seq<T>)
    decreases moves.len(),
{
    if moves.len() == 0 {
        (Seq::empty(), Seq::empty())
    } else {
        let before = after_all(due_at, k, moves.drop_last());
        let now = after(before.1, due_at, k, moves.last());
        (before.0 + now.0, now.1)
    }
}

/// The payloads that some moves add to lane `k`, in order.
pub open spec fn added<T>(k: Lane, moves: Seq<Move<T>>) -> Seq<T>
    decreases moves.len(),
{
    if moves.len() == 0 {
        Seq::empty()
    } else {
        match moves.last() {
            Move::Put(l, payload) => if l == k {
                added(k, moves.drop_last()).push(payload)
            } else {
                added(k, moves.drop_last())
            },
            _ => added(k, moves.drop_last()),
        }
    }
}

/// Nothing is lost, sent twice or moved to another lane: what was sent from a lane and
/// what waits on it are, one after the other, what was added to it.
pub proof fn law_every_payload_is_sent_once<T>(due_at: nat, k: Lane, moves: Seq<Move<T>>)
    ensures
        after_all(due_at, k, moves).0 + after_all(due_at, k, moves).1 == added(k, moves),
    decreases moves.len(),
{
    if moves.len() > 0 {
        law_every_payload_is_sent_once(due_at, k, moves.drop_last());
        let before = after_all(due_at, k, moves.drop_last());
        assert(after_all(due_at, k, moves).0 + after_all(due_at, k, moves).1 =~= added(k, moves));
    }
}

/// A lane that is emptied has sent everything that was added to it.
pub proof fn law_the_rest_is_sent_at_the_end<T>(due_at: nat, k: Lane, moves: Seq<Move<T>>)
    ensures
        after_all(due_at, k, moves.push(Move::Rest(k))).0 == added(k, moves),
        after_all(due_at, k, moves.push(Move::Rest(k))).1 == Seq::<T>::empty(),
{
    let all = moves.push(Move::Rest(k));
    assert(all.drop_last() =~= moves);
    law_every_payload_is_sent_once(due_at, k, moves);
}

/// Prices, tops of book and trades go their own ways: each kind of record has its lane, and
/// each lane its stream, named after what it carries and the exchange.
pub proof fn law_records_go_their_own_ways(r: &Record, l: Lane, exchange: &str, key: String)
    requires
        call_ensures(lane, (r,), l),
        call_ensures(stream_key, (l, exchange), key),
    ensures
        *r is Price ==> l is Prices && key@ == "prices:"@ + exchange@,
        *r is Top ==> l is Books && key@ == "orderbook:"@ + exchange@,
        *r is Trade ==> l is Trades && key@ == "trades:"@ + exchange@,
{
}

/// A lane is handed out as a whole exactly when it is asked for and has as many payloads as
/// make it due; the rest of a lane is handed out whenever there is any. A payload is added at
/// the end of its own lane, and no move touches another lane.
pub proof fn law_lanes_are_handed_out_when_due<T>(
    waiting: Seq<T>,
    due_at: nat,
    k: Lane,
    l: Lane,
    payload: T,
)
    ensures
        waiting.len() >= due_at ==> after(waiting, due_at, k, Move::Due(k)) == (
            waiting,
            Seq::<T>::empty(),
        ),
        waiting.len() < due_at ==> after(waiting, due_at, k, Move::Due(k)) == (
            Seq::<T>::empty(),
            waiting,
        ),
        after(waiting, due_at, k, Move::Put(k, payload)) == (
            Seq::<T>::empty(),
            waiting.push(payload),
        ),
        after(waiting, due_at, k, Move::Rest(k)) == (waiting, Seq::<T>::empty()),
        l != k ==> after(waiting, due_at, k, Move::Rest(l)) == (Seq::<T>::empty(), waiting),
        l != k ==> after(waiting, due_at, k, Move::Put(l, payload)) == (Seq::<T>::empty(), waiting),
        l != k ==> after(waiting, due_at, k, Move::Due(l)) == (Seq::<T>::empty(), waiting),
{
}

} // verus!
