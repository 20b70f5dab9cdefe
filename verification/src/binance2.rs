//! A second collector for Binance: one connection per stream, records published as
//! they come, and books replayed many times over for load.

use crate::json::{
    bool_field, field, has_field, lacks, law_fields_are_read_by_name,
    law_missing_fields_are_not_read, str_field, u64_field, Doc, Json,
};
use crate::market::{
    aggressor, aggressor_name, carries, carries_name, carries_side, carries_time, lemma_carries,
    lemma_carries_name, lemma_carries_side, lemma_carries_time, or_empty, or_false,
    unwrap_or_empty, unwrap_or_false, Filter,
    TickerParts, TickerPartsModel, TopParts, TopPartsModel, TradeParts, TradePartsModel,
};
use crate::text::copy_opt;
use vstd::prelude::*;

verus! {

/// The exchange's name in what is published.
pub const EXCHANGE: &'static str = "binance2";

/// How often each book message is replayed.
pub const RATE_MULTIPLIER: usize = 40;

/// How many book records are gathered before they are sent.
pub const BATCH: usize = 50;

/// Nothing is dropped for its numbers.
pub fn filter() -> (f: Filter)
    ensures
        f == Filter::Any,
{
    Filter::Any
}

/// A price message.
#[allow(non_snake_case)]
#[derive(Debug)]
pub struct MiniTicker {
    /// The kind of event.
    pub e: String,
    /// Milliseconds since the epoch.
    pub E: u64,
    /// The symbol.
    pub s: String,
    /// The last price.
    pub c: String,
    /// The first price.
    pub o: String,
    /// The highest price.
    pub h: String,
    /// The lowest price.
    pub l: String,
    /// The volume.
    pub v: String,
    /// The volume in the quoted currency.
    pub q: String,
}

/// The parts of a price message.
pub fn ticker_parts(t: MiniTicker) -> (p: TickerParts)
    ensures
        p@ == (TickerPartsModel {
            symbol: t.s@,
            numbers: (Some(t.c@), Some(t.v@), Some(t.h@), Some(t.l@)),
            timestamp: Some(t.E),
        }),
{
    TickerParts {
        symbol: t.s,
        price: Some(t.c),
        volume: Some(t.v),
        high: Some(t.h),
        low: Some(t.l),
        timestamp: Some(t.E),
    }
}

/// The parts of the data of a book message: none unless symbol, bid and ask are
/// there, of whatever kind.
pub open spec fn orderbook_parts(d: Doc) -> Option<TopPartsModel> {
    if field(d, "s"@) is Some && field(d, "b"@) is Some && field(d, "a"@) is Some {
        Some(
            TopPartsModel {
                symbol: or_empty(str_field(d, "s"@)),
                numbers: (
                    str_field(d, "b"@),
                    str_field(d, "a"@),
                    str_field(d, "B"@),
                    str_field(d, "A"@),
                ),
                timestamp: None,
            },
        )
    } else {
        None
    }
}

/// Takes the data of a book message apart.
pub fn handle_orderbook(d: &Json) -> (r: Option<TopParts>)
    ensures
        match r {
            Some(p) => orderbook_parts(d@) == Some(p@),
            None => orderbook_parts(d@) is None,
        },
{
    match (d.get("s"), d.get("b"), d.get("a")) {
        (Some(s), Some(b), Some(a)) => Some(
            TopParts {
                symbol: unwrap_or_empty(s.as_str()),
                bid: copy_opt(b.as_str()),
                ask: copy_opt(a.as_str()),
                bid_qty: copy_opt(d.get_str("B")),
                ask_qty: copy_opt(d.get_str("A")),
                timestamp: None,
            },
        ),
        _ => None,
    }
}

/// The parts of the data of a book message as often as it is replayed, or none.
pub fn replayed(d: &Json) -> (r: Vec<TopParts>)
    ensures
        match orderbook_parts(d@) {
            Some(p) => r@.len() == RATE_MULTIPLIER && forall|i: int|
                0 <= i < r@.len() ==> (#[trigger] r@[i])@ == p,
            None => r@.len() == 0,
        },
{
    let mut r: Vec<TopParts> = Vec::new();
    let mut i: usize = 0;
    while i < RATE_MULTIPLIER
        invariant
            i <= RATE_MULTIPLIER,
            match orderbook_parts(d@) {
                Some(p) => r@.len() == i && forall|k: int|
                    0 <= k < r@.len() ==> (#[trigger] r@[k])@ == p,
                None => r@.len() == 0,
            },
        decreases RATE_MULTIPLIER - i,
    {
        match handle_orderbook(d) {
            Some(p) => r.push(p),
            None => {},
        }
        i += 1;
    }
    r
}

/// The parts of the data of a trade message.
pub open spec fn trade_parts(d: Doc) -> TradePartsModel {
    TradePartsModel {
        symbol: or_empty(str_field(d, "s"@)),
        numbers: (str_field(d, "p"@), str_field(d, "q"@)),
        side: aggressor(or_false(bool_field(d, "m"@))),
        timestamp: u64_field(d, "T"@),
    }
}

/// Takes the data of a trade message apart.
pub fn handle_trade(d: &Json) -> (p: TradeParts)
    ensures
        p@ == trade_parts(d@),
{
    TradeParts {
        symbol: unwrap_or_empty(d.get_str("s")),
        price: copy_opt(d.get_str("p")),
        qty: copy_opt(d.get_str("q")),
        side: aggressor_name(unwrap_or_false(d.get_bool("m"))),
        timestamp: d.get_u64("T"),
    }
}

/// A book message with a symbol, a bid and an ask gives a top of book with these, the
/// quantities under "B" and "A", and no time; without one of the three it gives none. It is
/// replayed forty times.
pub proof fn law_books_are_read(d: &Json, r: Option<TopParts>, all: Vec<TopParts>, x: (Doc, Doc, Doc))
    requires
        call_ensures(handle_orderbook, (d,), r),
        call_ensures(replayed, (d,), all),
    ensures
        has_field(d@, "s"@, x.0) && has_field(d@, "b"@, x.1) && has_field(d@, "a"@, x.2) ==> {
            &&& r matches Some(p) && {
                &&& carries_name(p.symbol@, d@, "s"@)
                &&& carries(p.bid, d@, "b"@)
                &&& carries(p.ask, d@, "a"@)
                &&& carries(p.bid_qty, d@, "B"@)
                &&& carries(p.ask_qty, d@, "A"@)
                &&& p.timestamp is None
            }
            &&& all@.len() == 40
            &&& forall|i: int| 0 <= i < 40 ==> (#[trigger] all@[i])@ == r->Some_0@
        },
        lacks(d@, "s"@) || lacks(d@, "b"@) || lacks(d@, "a"@) ==> r is None && all@.len() == 0,
{
    if lacks(d@, "s"@) {
        law_missing_fields_are_not_read(d@, "s"@);
    }
    if lacks(d@, "b"@) {
        law_missing_fields_are_not_read(d@, "b"@);
    }
    if lacks(d@, "a"@) {
        law_missing_fields_are_not_read(d@, "a"@);
    }
    if has_field(d@, "s"@, x.0) && has_field(d@, "b"@, x.1) && has_field(d@, "a"@, x.2) {
        law_fields_are_read_by_name(d@, "s"@, x.0);
        law_fields_are_read_by_name(d@, "b"@, x.1);
        law_fields_are_read_by_name(d@, "a"@, x.2);
        if let Some(p) = r {
            lemma_carries_name(p.symbol@, d@, "s"@);
            lemma_carries(p.bid, d@, "b"@);
            lemma_carries(p.ask, d@, "a"@);
            lemma_carries(p.bid_qty, d@, "B"@);
            lemma_carries(p.ask_qty, d@, "A"@);
        }
    }
}

/// A trade message gives the symbol, the price under "p", the quantity under "q", the side
/// by "m" and the time under "T".
pub proof fn law_trades_are_read(d: &Json, p: TradeParts)
    requires
        call_ensures(handle_trade, (d,), p),
    ensures
        carries_name(p.symbol@, d@, "s"@),
        carries(p.price, d@, "p"@),
        carries(p.qty, d@, "q"@),
        carries_side(p.side, d@, "m"@),
        carries_time(p.timestamp, d@, "T"@),
{
    lemma_carries_name(p.symbol@, d@, "s"@);
    lemma_carries(p.price, d@, "p"@);
    lemma_carries(p.qty, d@, "q"@);
    lemma_carries_side(p.side, d@, "m"@);
    lemma_carries_time(p.timestamp, d@, "T"@);
}

/// A price message gives its symbol and time, and its last price, volume, high and low,
/// each in its own place.
pub proof fn law_prices_are_read(t: MiniTicker, p: TickerParts)
    requires
        call_ensures(ticker_parts, (t,), p),
    ensures
        p.symbol@ == t.s@,
        p.price matches Some(x) && x@ == t.c@,
        p.volume matches Some(x) && x@ == t.v@,
        p.high matches Some(x) && x@ == t.h@,
        p.low matches Some(x) && x@ == t.l@,
        p.timestamp == Some(t.E),
{
}

} // verus!
