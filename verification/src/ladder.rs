//! The mathematical model of a book: two maps from price to quantity, the order
//! in which their levels are read, and the effect of an event on them.

use crate::event::{BookEvent, EventKind, Side};
use crate::price::{Px, Qty};
use vstd::prelude::*;

verus! {

/// The levels of one side, from tick to lots.
pub type Levels = Map<i64, i64>;

/// The observable state of a book.
#[verifier::ext_equal]
pub struct BookModel {
    /// Bid levels.
    pub bids: Levels,
    /// Ask levels.
    pub asks: Levels,
    /// The last execution since the last clear.
    pub last_trade: Option<(Px, Qty, Side)>,
}

impl BookModel {
    /// The empty book.
    pub open spec fn empty() -> BookModel {
        BookModel { bids: Map::empty(), asks: Map::empty(), last_trade: None }
    }

    /// The levels of one side.
    pub open spec fn side(self, side: Side) -> Levels {
        match side {
            Side::Bid => self.bids,
            Side::Ask => self.asks,
        }
    }
}

/// Setting the quantity at one price: zero removes the level, anything else
/// replaces it.
pub open spec fn set_level(levels: Levels, px: i64, qty: i64) -> Levels {
    if qty == 0 {
        levels.remove(px)
    } else {
        levels.insert(px, qty)
    }
}

/// The effect of one event.
pub open spec fn apply_event(m: BookModel, ev: BookEvent) -> BookModel {
    match ev.kind {
        EventKind::Level => match ev.side {
            Side::Bid => BookModel { bids: set_level(m.bids, ev.px.0, ev.qty.0), ..m },
            Side::Ask => BookModel { asks: set_level(m.asks, ev.px.0, ev.qty.0), ..m },
        },
        EventKind::Trade => BookModel { last_trade: Some((ev.px, ev.qty, ev.side)), ..m },
        EventKind::Clear => BookModel::empty(),
    }
}

/// The effect of a whole stream of events.
pub open spec fn replay(m: BookModel, events: Seq<BookEvent>) -> BookModel
    decreases events.len(),
{
    if events.len() == 0 {
        m
    } else {
        apply_event(replay(m, events.drop_last()), events.last())
    }
}

/// Whether price `p` is read before price `q` on `side`.
pub open spec fn better(side: Side, p: i64, q: i64) -> bool {
    match side {
        Side::Bid => p > q,
        Side::Ask => p < q,
    }
}

/// Whether `p` is the best price of `side`.
pub open spec fn is_best(side: Side, levels: Levels, p: i64) -> bool {
    &&& levels.contains_key(p)
    &&& forall|q: i64| levels.contains_key(q) && q != p ==> better(side, p, q)
}

/// The best level of `side`: the highest bid, the lowest ask.
pub open spec fn best(side: Side, levels: Levels) -> Option<(Px, Qty)> {
    if exists|p: i64| is_best(side, levels, p) {
        let p = choose|p: i64| is_best(side, levels, p);
        Some((Px(p), Qty(levels[p])))
    } else {
        None
    }
}

/// The best price of `side`.
pub open spec fn touch(side: Side, levels: Levels) -> Option<Px> {
    match best(side, levels) {
        Some((p, _)) => Some(p),
        None => None,
    }
}

/// The levels of `side` from the best to the worst.
pub open spec fn ladder(side: Side, levels: Levels) -> Seq<(Px, Qty)>
    decreases levels.dom().len(),
    when levels.dom().finite()
{
    match best(side, levels) {
        None => Seq::empty(),
        Some((p, q)) => seq![(p, q)] + ladder(side, levels.remove(p.0)),
    }
}

/// Whether `s` lists exactly `levels`, strictly from better to worse.
pub open spec fn lists(side: Side, levels: Levels, s: Seq<(Px, Qty)>) -> bool {
    &&& forall|i: int, j: int| 0 <= i < j < s.len() ==> better(side, #[trigger] s[i].0.0, #[trigger] s[j].0.0)
    &&& forall|i: int|
        #![trigger s[i]]
        0 <= i < s.len() ==> levels.contains_key(s[i].0.0) && levels[s[i].0.0] == s[i].1.0
    &&& forall|p: i64| #[trigger] levels.contains_key(p) ==> exists|i: int| 0 <= i < s.len() && #[trigger] s[i].0.0 == p
}

/// A best price is unique, so `best` reports it.
pub proof fn lemma_best_is(side: Side, levels: Levels, p: i64)
    requires
        is_best(side, levels, p),
    ensures
        best(side, levels) == Some((Px(p), Qty(levels[p]))),
{
    let c = choose|c: i64| is_best(side, levels, c);
    assert(is_best(side, levels, c));
    if c != p {
        assert(better(side, c, p));
        assert(better(side, p, c));
    }
}

/// A listing of the levels is finite, has one entry per level, and is the ladder.
pub proof fn lemma_listing_is_ladder(side: Side, levels: Levels, s: Seq<(Px, Qty)>)
    requires
        lists(side, levels, s),
    ensures
        levels.dom().finite(),
        levels.dom().len() == s.len(),
        ladder(side, levels) == s,
        best(side, levels) == (if s.len() > 0 { Some(s[0]) } else { None::<(Px, Qty)> }),
    decreases s.len(),
{
    if s.len() == 0 {
        assert(levels.dom() =~= Set::empty()) by {
            assert forall|p: i64| !levels.dom().contains(p) by {
                if levels.contains_key(p) {
                    let i = choose|i: int| 0 <= i < s.len() && s[i].0.0 == p;
                }
            }
        }
        assert(best(side, levels) is None) by {
            if exists|p: i64| is_best(side, levels, p) {
                let p = choose|p: i64| is_best(side, levels, p);
                assert(levels.contains_key(p));
            }
        }
        assert(ladder(side, levels) =~= s);
    } else {
        let p = s[0].0.0;
        let rest = levels.remove(p);
        let tail = s.drop_first();
        assert(levels.contains_key(p));
        assert(is_best(side, levels, p)) by {
            assert forall|q: i64| levels.contains_key(q) && q != p implies better(side, p, q) by {
                let i = choose|i: int| 0 <= i < s.len() && s[i].0.0 == q;
                assert(better(side, s[0].0.0, s[i].0.0));
            }
        }
        lemma_best_is(side, levels, p);
        assert(lists(side, rest, tail)) by {
            assert forall|i: int, j: int| 0 <= i < j < tail.len() implies better(
                side,
                #[trigger] tail[i].0.0,
                #[trigger] tail[j].0.0,
            ) by {
                assert(tail[i] == s[i + 1] && tail[j] == s[j + 1]);
                assert(better(side, s[i + 1].0.0, s[j + 1].0.0));
            }
            assert forall|i: int| #![trigger tail[i]] 0 <= i < tail.len() implies rest.contains_key(tail[i].0.0)
                && rest[tail[i].0.0] == tail[i].1.0 by {
                assert(tail[i] == s[i + 1]);
                assert(better(side, s[0].0.0, s[i + 1].0.0));
                assert(levels.contains_key(s[i + 1].0.0));
            }
            assert forall|q: i64| #[trigger] rest.contains_key(q) implies exists|i: int|
                0 <= i < tail.len() && #[trigger] tail[i].0.0 == q by {
                assert(levels.contains_key(q));
                let i = choose|i: int| 0 <= i < s.len() && s[i].0.0 == q;
                assert(tail[i - 1].0.0 == q);
            }
        }
        lemma_listing_is_ladder(side, rest, tail);
        assert(levels.dom() =~= rest.dom().insert(p));
        assert(s =~= seq![s[0]] + tail);
    }
}

/// Every finite set of levels has a listing: its ladder.
pub proof fn lemma_ladder_lists(side: Side, levels: Levels)
    requires
        levels.dom().finite(),
    ensures
        lists(side, levels, ladder(side, levels)),
        ladder(side, levels).len() == levels.dom().len(),
        best(side, levels) == (if levels.dom().len() > 0 {
            Some(ladder(side, levels)[0])
        } else {
            None::<(Px, Qty)>
        }),
    decreases levels.dom().len(),
{
    if levels.dom().len() == 0 {
        assert(levels.dom() =~= Set::empty());
        assert(lists(side, levels, Seq::<(Px, Qty)>::empty()));
        lemma_listing_is_ladder(side, levels, Seq::empty());
    } else {
        lemma_best_exists(side, levels);
        let p = choose|p: i64| is_best(side, levels, p);
        lemma_best_is(side, levels, p);
        let rest = levels.remove(p);
        lemma_ladder_lists(side, rest);
        let tail = ladder(side, rest);
        let s = seq![(Px(p), Qty(levels[p]))] + tail;
        assert(lists(side, levels, s)) by {
            assert forall|i: int, j: int| 0 <= i < j < s.len() implies better(
                side,
                #[trigger] s[i].0.0,
                #[trigger] s[j].0.0,
            ) by {
                assert(s[j] == tail[j - 1]);
                assert(rest.contains_key(tail[j - 1].0.0));
                if i > 0 {
                    assert(s[i] == tail[i - 1]);
                    assert(better(side, tail[i - 1].0.0, tail[j - 1].0.0));
                }
            }
            assert forall|i: int| #![trigger s[i]] 0 <= i < s.len() implies levels.contains_key(s[i].0.0)
                && levels[s[i].0.0] == s[i].1.0 by {
                if i > 0 {
                    assert(s[i] == tail[i - 1]);
                    assert(rest.contains_key(tail[i - 1].0.0));
                }
            }
            assert forall|q: i64| #[trigger] levels.contains_key(q) implies exists|i: int|
                0 <= i < s.len() && #[trigger] s[i].0.0 == q by {
                if q == p {
                    assert(s[0].0.0 == q);
                } else {
                    assert(rest.contains_key(q));
                    let i = choose|i: int| 0 <= i < tail.len() && tail[i].0.0 == q;
                    assert(s[i + 1].0.0 == q);
                }
            }
        }
        lemma_listing_is_ladder(side, levels, s);
    }
}

/// A non-empty finite set of levels has a best price.
pub proof fn lemma_best_exists(side: Side, levels: Levels)
    requires
        levels.dom().finite(),
        levels.dom().len() > 0,
    ensures
        exists|p: i64| is_best(side, levels, p),
    decreases levels.dom().len(),
{
    let a = levels.dom().choose();
    assert(levels.contains_key(a));
    let rest = levels.remove(a);
    if rest.dom().len() == 0 {
        assert(rest.dom() =~= Set::empty());
        assert(is_best(side, levels, a)) by {
            assert forall|q: i64| levels.contains_key(q) && q != a implies better(side, a, q) by {
                assert(rest.dom().contains(q));
            }
        }
    } else {
        lemma_best_exists(side, rest);
        let b = choose|p: i64| is_best(side, rest, p);
        let w = if better(side, a, b) { a } else { b };
        assert(is_best(side, levels, w)) by {
            assert forall|q: i64| levels.contains_key(q) && q != w implies better(side, w, q) by {
                if q != a {
                    assert(rest.contains_key(q));
                }
            }
        }
    }
}

/// Whether `s` runs strictly from better to worse prices.
pub open spec fn in_order(side: Side, s: Seq<(Px, Qty)>) -> bool {
    forall|i: int, j: int|
        0 <= i < j < s.len() ==> better(side, #[trigger] s[i].0.0, #[trigger] s[j].0.0)
}

/// The levels that a list of priced quantities holds.
pub open spec fn levels_of(s: Seq<(Px, Qty)>) -> Levels {
    Map::new(
        |p: i64| exists|i: int| 0 <= i < s.len() && #[trigger] s[i].0.0 == p,
        |p: i64| s[choose|i: int| 0 <= i < s.len() && #[trigger] s[i].0.0 == p].1.0,
    )
}

/// A list in order lists its own levels.
pub proof fn lemma_levels_of(side: Side, s: Seq<(Px, Qty)>)
    requires
        in_order(side, s),
    ensures
        lists(side, levels_of(s), s),
{
    let levels = levels_of(s);
    assert forall|i: int| #![trigger s[i]] 0 <= i < s.len() implies levels.contains_key(s[i].0.0)
        && levels[s[i].0.0] == s[i].1.0 by {
        let p = s[i].0.0;
        assert(levels.contains_key(p));
        let j = choose|j: int| 0 <= j < s.len() && #[trigger] s[j].0.0 == p;
        if i < j {
            assert(better(side, s[i].0.0, s[j].0.0));
        } else if j < i {
            assert(better(side, s[j].0.0, s[i].0.0));
        }
    }
}

/// Whether `i` is the place of price `px` in `s`: all before it are better, none
/// from it on is.
pub open spec fn is_place(side: Side, s: Seq<(Px, Qty)>, px: i64, i: int) -> bool {
    &&& 0 <= i <= s.len()
    &&& forall|k: int| 0 <= k < i ==> better(side, (#[trigger] s[k]).0.0, px)
    &&& forall|k: int| i <= k < s.len() ==> !better(side, (#[trigger] s[k]).0.0, px)
}

/// What becomes of a list when the quantity at `px`, whose place is `i`, is set.
pub open spec fn set_at(s: Seq<(Px, Qty)>, px: i64, qty: i64, i: int) -> Seq<(Px, Qty)> {
    if i < s.len() && s[i].0.0 == px {
        if qty == 0 {
            s.remove(i)
        } else {
            s.update(i, (Px(px), Qty(qty)))
        }
    } else if qty == 0 {
        s
    } else {
        s.insert(i, (Px(px), Qty(qty)))
    }
}

/// Setting a quantity at its place keeps the order.
proof fn lemma_set_at_order(side: Side, s: Seq<(Px, Qty)>, px: i64, qty: i64, i: int)
    requires
        in_order(side, s),
        is_place(side, s, px, i),
    ensures
        in_order(side, set_at(s, px, qty, i)),
{
    let t = set_at(s, px, qty, i);
    let hit = i < s.len() && s[i].0.0 == px;
    assert forall|a: int, b: int| 0 <= a < b < t.len() implies better(
        side,
        #[trigger] t[a].0.0,
        #[trigger] t[b].0.0,
    ) by {
        if hit && qty == 0 {
            let a1 = if a < i { a } else { a + 1 };
            let b1 = if b < i { b } else { b + 1 };
            assert(t[a] == s[a1] && t[b] == s[b1]);
            assert(better(side, s[a1].0.0, s[b1].0.0));
        } else if !hit && qty != 0 {
            if a < i && b < i {
                assert(better(side, s[a].0.0, s[b].0.0));
            } else if a < i && b > i {
                assert(better(side, s[a].0.0, s[b - 1].0.0));
            } else if a > i {
                assert(better(side, s[a - 1].0.0, s[b - 1].0.0));
            } else if a == i {
                assert(t[b] == s[b - 1]);
                if b - 1 > i {
                    assert(better(side, s[i].0.0, s[b - 1].0.0));
                }
            }
        } else {
            assert(better(side, s[a].0.0, s[b].0.0));
        }
    }
}

/// Where the entry `k` of the new list stood in the old one.
spec fn source_of(s: Seq<(Px, Qty)>, px: i64, qty: i64, i: int, k: int) -> int {
    if i < s.len() && s[i].0.0 == px {
        if qty == 0 && k >= i {
            k + 1
        } else {
            k
        }
    } else if qty != 0 && k > i {
        k - 1
    } else {
        k
    }
}

/// Every entry of the new list is the level that was set or an old one elsewhere.
proof fn lemma_set_at_sound(side: Side, s: Seq<(Px, Qty)>, px: i64, qty: i64, i: int, k: int)
    requires
        in_order(side, s),
        is_place(side, s, px, i),
        0 <= k < set_at(s, px, qty, i).len(),
    ensures
        ({
            let e = set_at(s, px, qty, i)[k];
            let after = set_level(levels_of(s), px, qty);
            after.contains_key(e.0.0) && after[e.0.0] == e.1.0
        }),
{
    let t = set_at(s, px, qty, i);
    let j = source_of(s, px, qty, i, k);
    if qty != 0 && k == i {
        assert(t[k] == (Px(px), Qty(qty)));
    } else {
        assert(0 <= j < s.len() && t[k] == s[j]);
        lemma_levels_of(side, s);
        assert(levels_of(s).contains_key(s[j].0.0));
        if j < i {
            assert(better(side, s[j].0.0, px));
        } else if i < j {
            assert(better(side, s[i].0.0, s[j].0.0));
        }
    }
}

/// Every level of the outcome has an entry in the new list.
proof fn lemma_set_at_complete(side: Side, s: Seq<(Px, Qty)>, px: i64, qty: i64, i: int, p: i64)
    requires
        in_order(side, s),
        is_place(side, s, px, i),
        set_level(levels_of(s), px, qty).contains_key(p),
    ensures
        exists|k: int| 0 <= k < set_at(s, px, qty, i).len() && #[trigger] set_at(s, px, qty, i)[k].0.0 == p,
{
    let t = set_at(s, px, qty, i);
    let hit = i < s.len() && s[i].0.0 == px;
    if p == px && qty != 0 {
        assert(t[i].0.0 == p);
    } else {
        assert(levels_of(s).contains_key(p));
        let k = choose|k: int| 0 <= k < s.len() && #[trigger] s[k].0.0 == p;
        if hit && qty == 0 {
            let k1 = if k < i { k } else { k - 1 };
            assert(t[k1] == s[k]);
        } else if !hit && qty != 0 {
            let k1 = if k < i { k } else { k + 1 };
            assert(t[k1] == s[k]);
        } else {
            assert(t[k].0.0 == p);
        }
    }
}

/// A list determines the levels that it lists.
proof fn lemma_lists_determines(side: Side, a: Levels, b: Levels, s: Seq<(Px, Qty)>)
    requires
        lists(side, a, s),
        lists(side, b, s),
    ensures
        a == b,
{
    assert forall|p: i64| a.contains_key(p) == b.contains_key(p) && (a.contains_key(p) ==> a[p]
        == b[p]) by {
        if a.contains_key(p) {
            let i = choose|i: int| 0 <= i < s.len() && #[trigger] s[i].0.0 == p;
            assert(b[s[i].0.0] == s[i].1.0 && a[s[i].0.0] == s[i].1.0);
        }
        if b.contains_key(p) {
            let i = choose|i: int| 0 <= i < s.len() && #[trigger] s[i].0.0 == p;
            assert(a.contains_key(s[i].0.0));
        }
    }
    assert(a =~= b);
}

/// Setting a quantity at its place keeps the order and sets the level.
pub proof fn lemma_set_at(side: Side, s: Seq<(Px, Qty)>, px: i64, qty: i64, i: int)
    requires
        in_order(side, s),
        is_place(side, s, px, i),
    ensures
        in_order(side, set_at(s, px, qty, i)),
        levels_of(set_at(s, px, qty, i)) == set_level(levels_of(s), px, qty),
{
    let t = set_at(s, px, qty, i);
    let after = set_level(levels_of(s), px, qty);
    lemma_set_at_order(side, s, px, qty, i);
    assert(lists(side, after, t)) by {
        assert forall|k: int| #![trigger t[k]] 0 <= k < t.len() implies after.contains_key(t[k].0.0)
            && after[t[k].0.0] == t[k].1.0 by {
            lemma_set_at_sound(side, s, px, qty, i, k);
        }
        assert forall|p: i64| #[trigger] after.contains_key(p) implies exists|k: int|
            0 <= k < t.len() && #[trigger] t[k].0.0 == p by {
            lemma_set_at_complete(side, s, px, qty, i, p);
        }
    }
    lemma_levels_of(side, t);
    lemma_lists_determines(side, levels_of(t), after, t);
}

/// A list read backwards lists the same levels for the other side.
pub proof fn lemma_lists_reversed(side: Side, levels: Levels, s: Seq<(Px, Qty)>)
    requires
        lists(side, levels, s),
    ensures
        lists(
            (match side {
                Side::Bid => Side::Ask,
                Side::Ask => Side::Bid,
            }),
            levels,
            s.reverse(),
        ),
{
    let r = s.reverse();
    let n = s.len() - 1;
    assert forall|i: int, j: int| 0 <= i < j < r.len() implies better(
        side,
        #[trigger] r[j].0.0,
        #[trigger] r[i].0.0,
    ) by {
        assert(r[j] == s[n - j] && r[i] == s[n - i]);
        assert(better(side, s[n - j].0.0, s[n - i].0.0));
    }
    assert forall|i: int| #![trigger r[i]] 0 <= i < r.len() implies levels.contains_key(r[i].0.0)
        && levels[r[i].0.0] == r[i].1.0 by {
        assert(r[i] == s[n - i]);
    }
    assert forall|p: i64| #[trigger] levels.contains_key(p) implies exists|i: int|
        0 <= i < r.len() && #[trigger] r[i].0.0 == p by {
        let i = choose|i: int| 0 <= i < s.len() && #[trigger] s[i].0.0 == p;
        assert(r[n - i].0.0 == p);
    }
}

} // verus!
