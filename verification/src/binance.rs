//! The collector for Binance: prices, tops of book and trades, each on connections
//! of its own.

use crate::json::{
    bool_field, field, has_field, lacks, law_fields_are_read_by_name,
    law_missing_fields_are_not_read, parse_simd, parsed_simd, str_field, u64_field, Doc, Json,
};
use crate::market::{
    aggressor, aggressor_name, carries, carries_name, carries_side, carries_time, lemma_carries,
    lemma_carries_name, lemma_carries_side, lemma_carries_time, opt_parts, or_empty, or_false,
    unwrap_or_empty, unwrap_or_false,
    Filter, Parts, PartsModel, TickerParts, TickerPartsModel, TopParts, TopPartsModel, TradeParts,
    TradePartsModel,
};
use crate::streams::{
    chunked, combined_stream_url, combined_url, connections, share_of, topics, topics_of, Backoff,
};
use crate::text::{bytes_of, copy_opt, copy_text, decimal, push_decimal, texts};
use vstd::prelude::*;
use vstd::string::StringSliceAdditionalSpecFns;

verus! {

/// The exchange's name in what is published.
pub const EXCHANGE: &'static str = "binance";

/// One of the three streams.
#[derive(Clone, Copy, PartialEq, Eq, Structural, Debug)]
pub enum Stream {
    /// Prices.
    Price,
    /// Tops of book.
    OrderBook,
    /// Trades.
    Trades,
}

/// What follows the symbol in the topics of a stream.
pub open spec fn suffix_of(s: Stream) -> Seq<char> {
    match s {
        Stream::Price => "@miniTicker"@,
        Stream::OrderBook => "@bookTicker"@,
        Stream::Trades => "@trade"@,
    }
}

/// The key under which a stream is published.
pub open spec fn key_of(s: Stream) -> Seq<char> {
    match s {
        Stream::Price => "prices:binance"@,
        Stream::OrderBook => "orderbook:binance"@,
        Stream::Trades => "trades:binance"@,
    }
}

/// The name of a stream in the log.
pub open spec fn log_name_of(s: Stream) -> Seq<char> {
    match s {
        Stream::Price => "binance_price"@,
        Stream::OrderBook => "binance_orderbook"@,
        Stream::Trades => "binance_trades"@,
    }
}

/// What the labels of a stream's connections begin with.
pub open spec fn label_of(s: Stream) -> Seq<char> {
    match s {
        Stream::Price => "price_conn"@,
        Stream::OrderBook => "ob_conn"@,
        Stream::Trades => "trade_conn"@,
    }
}

/// Which records of a stream are dropped.
pub open spec fn filter_of(s: Stream) -> Filter {
    match s {
        Stream::Trades => Filter::AboveZero,
        _ => Filter::Any,
    }
}

impl Stream {
    /// What follows the symbol in a topic.
    pub fn suffix(&self) -> (s: &'static str)
        ensures
            s@ == suffix_of(*self),
    {
        match self {
            Stream::Price => "@miniTicker",
            Stream::OrderBook => "@bookTicker",
            Stream::Trades => "@trade",
        }
    }

    /// The key under which the stream is published.
    pub fn key(&self) -> (s: &'static str)
        ensures
            s@ == key_of(*self),
    {
        match self {
            Stream::Price => "prices:binance",
            Stream::OrderBook => "orderbook:binance",
            Stream::Trades => "trades:binance",
        }
    }

    /// The name of the stream in the log.
    pub fn log_name(&self) -> (s: &'static str)
        ensures
            s@ == log_name_of(*self),
    {
        match self {
            Stream::Price => "binance_price",
            Stream::OrderBook => "binance_orderbook",
            Stream::Trades => "binance_trades",
        }
    }

    /// What the labels of the stream's connections begin with.
    pub fn label(&self) -> (s: &'static str)
        ensures
            s@ == label_of(*self),
    {
        match self {
            Stream::Price => "price_conn",
            Stream::OrderBook => "ob_conn",
            Stream::Trades => "trade_conn",
        }
    }

    /// Which records of the stream are dropped.
    pub fn filter(&self) -> (f: Filter)
        ensures
            f == filter_of(*self),
    {
        match self {
            Stream::Trades => Filter::AboveZero,
            _ => Filter::Any,
        }
    }
}

/// One connection of a stream.
#[derive(Debug)]
pub struct Plan {
    /// Its name in the log.
    pub label: String,
    /// The topics on it.
    pub topics: Vec<String>,
    /// Its address.
    pub url: String,
}

/// The connections of a stream: its topics in order, `max` to a connection. Without
/// symbols there is none.
pub fn plan(stream: Stream, symbols: &[String], max: usize) -> (r: Vec<Plan>)
    requires
        max > 0 || symbols@.len() == 0,
    ensures
        symbols@.len() == 0 ==> r@.len() == 0,
        max > 0 ==> r@.len() == connections(symbols@.len() as int, max as int),
        forall|k: int|
            #![trigger r@[k]]
            0 <= k < r@.len() ==> ({
                let mine = share_of(topics_of(texts(symbols@), suffix_of(stream)), max as int, k);
                &&& r@[k].label@ == label_of(stream) + decimal(k as nat)
                &&& texts(r@[k].topics@) == mine
                &&& r@[k].url@ == combined_url(mine)
            }),
{
    let mut r: Vec<Plan> = Vec::new();
    if symbols.len() == 0 {
        proof {
            if max > 0 {
                assert((max - 1) / max as int == 0) by (nonlinear_arith)
                    requires
                        max > 0,
                ;
            }
        }
        return r;
    }
    let all = topics(symbols, stream.suffix());
    let ghost want = topics_of(texts(symbols@), suffix_of(stream));
    proof {
        assert(texts(all@).len() == all@.len());
        assert(want.len() == symbols@.len());
    }
    let shares = chunked(all, max);
    let n: usize = shares.len();
    let mut k: u64 = 0;
    for mine in it: shares
        invariant
            it.seq() == shares@,
            r@.len() == it.index(),
            k == it.index(),
            shares@.len() == n,
            want == topics_of(texts(symbols@), suffix_of(stream)),
            forall|i: int|
                0 <= i < shares@.len() ==> texts((#[trigger] shares@[i])@) == share_of(
                    want,
                    max as int,
                    i,
                ),
            forall|i: int|
                #![trigger r@[i]]
                0 <= i < r@.len() ==> ({
                    let part = share_of(want, max as int, i);
                    &&& r@[i].label@ == label_of(stream) + decimal(i as nat)
                    &&& texts(r@[i].topics@) == part
                    &&& r@[i].url@ == combined_url(part)
                }),
    {
        let mut label = copy_text(stream.label());
        push_decimal(&mut label, k);
        let url = combined_stream_url(mine.as_slice());
        assert(mine == shares@[it.index()]);
        r.push(Plan { label, topics: mine, url });
        k += 1;
    }
    r
}

/// The parts of a price message: none without data or without a symbol.
pub open spec fn price_parts(v: Doc) -> Option<TickerPartsModel> {
    match field(v, "data"@) {
        Some(d) => if or_empty(str_field(d, "s"@)).len() == 0 {
            None
        } else {
            Some(
                TickerPartsModel {
                    symbol: or_empty(str_field(d, "s"@)),
                    numbers: (
                        str_field(d, "c"@),
                        str_field(d, "v"@),
                        str_field(d, "h"@),
                        str_field(d, "l"@),
                    ),
                    timestamp: u64_field(d, "E"@),
                },
            )
        },
        None => None,
    }
}

/// The parts of a book message: none without data or without a symbol. The time is
/// that of its arrival.
pub open spec fn orderbook_parts(v: Doc) -> Option<TopPartsModel> {
    match field(v, "data"@) {
        Some(d) => if or_empty(str_field(d, "s"@)).len() == 0 {
            None
        } else {
            Some(
                TopPartsModel {
                    symbol: or_empty(str_field(d, "s"@)),
                    numbers: (
                        str_field(d, "b"@),
                        str_field(d, "a"@),
                        str_field(d, "B"@),
                        str_field(d, "A"@),
                    ),
                    timestamp: None,
                },
            )
        },
        None => None,
    }
}

/// The parts of a trade message: none without data or without a symbol.
pub open spec fn trade_parts(v: Doc) -> Option<TradePartsModel> {
    match field(v, "data"@) {
        Some(d) => if or_empty(str_field(d, "s"@)).len() == 0 {
            None
        } else {
            Some(
                TradePartsModel {
                    symbol: or_empty(str_field(d, "s"@)),
                    numbers: (str_field(d, "p"@), str_field(d, "q"@)),
                    side: aggressor(or_false(bool_field(d, "m"@))),
                    timestamp: u64_field(d, "T"@),
                },
            )
        },
        None => None,
    }
}

/// What a message of a stream says.
pub open spec fn message_parts(stream: Stream, v: Doc) -> Option<PartsModel> {
    match stream {
        Stream::Price => match price_parts(v) {
            Some(p) => Some(PartsModel::Ticker(p)),
            None => None,
        },
        Stream::OrderBook => match orderbook_parts(v) {
            Some(p) => Some(PartsModel::Top(p)),
            None => None,
        },
        Stream::Trades => match trade_parts(v) {
            Some(p) => Some(PartsModel::Trade(p)),
            None => None,
        },
    }
}

/// Takes a price message apart.
pub fn handle_price_msg(v: &Json) -> (r: Option<TickerParts>)
    ensures
        match r {
            Some(p) => price_parts(v@) == Some(p@),
            None => price_parts(v@) is None,
        },
{
    let d = match v.get("data") {
        Some(d) => d,
        None => return None,
    };
    let symbol = unwrap_or_empty(d.get_str("s"));
    if symbol.as_str().unicode_len() == 0 {
        return None;
    }
    Some(
        TickerParts {
            symbol,
            price: copy_opt(d.get_str("c")),
            volume: copy_opt(d.get_str("v")),
            high: copy_opt(d.get_str("h")),
            low: copy_opt(d.get_str("l")),
            timestamp: d.get_u64("E"),
        },
    )
}

/// Takes a book message apart.
pub fn handle_orderbook_msg(v: &Json) -> (r: Option<TopParts>)
    ensures
        match r {
            Some(p) => orderbook_parts(v@) == Some(p@),
            None => orderbook_parts(v@) is None,
        },
{
    let d = match v.get("data") {
        Some(d) => d,
        None => return None,
    };
    let symbol = unwrap_or_empty(d.get_str("s"));
    if symbol.as_str().unicode_len() == 0 {
        return None;
    }
    Some(
        TopParts {
            symbol,
            bid: copy_opt(d.get_str("b")),
            ask: copy_opt(d.get_str("a")),
            bid_qty: copy_opt(d.get_str("B")),
            ask_qty: copy_opt(d.get_str("A")),
            timestamp: None,
        },
    )
}

/// Takes a trade message apart.
pub fn handle_trade_msg(v: &Json) -> (r: Option<TradeParts>)
    ensures
        match r {
            Some(p) => trade_parts(v@) == Some(p@),
            None => trade_parts(v@) is None,
        },
{
    let d = match v.get("data") {
        Some(d) => d,
        None => return None,
    };
    let symbol = unwrap_or_empty(d.get_str("s"));
    if symbol.as_str().unicode_len() == 0 {
        return None;
    }
    Some(
        TradeParts {
            symbol,
            price: copy_opt(d.get_str("p")),
            qty: copy_opt(d.get_str("q")),
            side: aggressor_name(unwrap_or_false(d.get_bool("m"))),
            timestamp: d.get_u64("T"),
        },
    )
}

/// Takes a message of a stream apart.
pub fn handle_msg(stream: Stream, v: &Json) -> (r: Option<Parts>)
    ensures
        opt_parts(r) == message_parts(stream, v@),
{
    match stream {
        Stream::Price => match handle_price_msg(v) {
            Some(p) => Some(Parts::Ticker(p)),
            None => None,
        },
        Stream::OrderBook => match handle_orderbook_msg(v) {
            Some(p) => Some(Parts::Top(p)),
            None => None,
        },
        Stream::Trades => match handle_trade_msg(v) {
            Some(p) => Some(Parts::Trade(p)),
            None => None,
        },
    }
}

/// Takes a text frame of a stream apart; a frame that is no JSON says nothing.
pub fn handle_frame(stream: Stream, text: &str) -> (r: Option<Parts>)
    ensures
        opt_parts(r) == (match parsed_simd(text.spec_bytes()) {
            Some(v) => message_parts(stream, v),
            None => None,
        }),
{
    match parse_simd(bytes_of(text)) {
        Some(v) => handle_msg(stream, &v),
        None => None,
    }
}

/// How an attempt to serve a connection ended.
#[derive(Clone, Copy, PartialEq, Eq, Structural, Debug)]
pub enum Ended {
    /// No connection came about.
    Refused,
    /// The connection was there, but not the store.
    NoStore,
    /// The connection was read until it ended or failed.
    Closed,
}

/// How many milliseconds to wait before the next attempt. The wait gets longer each
/// time, except after an attempt for which there was no store.
pub fn wait_before_retry(backoff: &mut Backoff, ended: Ended) -> (ms: u64)
    requires
        old(backoff).wait() <= crate::market::RECONNECT_MAX_MS,
    ensures
        ms == old(backoff).wait(),
        final(backoff).wait() == (if ended == Ended::NoStore {
            old(backoff).wait()
        } else {
            crate::streams::next_wait(old(backoff).wait())
        }),
        final(backoff).wait() <= crate::market::RECONNECT_MAX_MS,
{
    let ms: u64 = backoff.millis();
    if ended != Ended::NoStore {
        backoff.lengthen();
    }
    ms
}

/// Whether the parts of a message are those of its data: of a price message the symbol,
/// and as price, volume, high and low the texts under "c", "v", "h" and "l", with the time
/// under "E"; of a book message the prices under "b" and "a" and the quantities under "B"
/// and "A", without a time; of a trade the price under "p", the quantity under "q", the
/// side by "m" and the time under "T".
pub open spec fn is_parts_of(stream: Stream, p: Parts, d: Doc) -> bool {
    match stream {
        Stream::Price => p matches Parts::Ticker(t) && {
            &&& carries_name(t.symbol@, d, "s"@)
            &&& carries(t.price, d, "c"@)
            &&& carries(t.volume, d, "v"@)
            &&& carries(t.high, d, "h"@)
            &&& carries(t.low, d, "l"@)
            &&& carries_time(t.timestamp, d, "E"@)
        },
        Stream::OrderBook => p matches Parts::Top(t) && {
            &&& carries_name(t.symbol@, d, "s"@)
            &&& carries(t.bid, d, "b"@)
            &&& carries(t.ask, d, "a"@)
            &&& carries(t.bid_qty, d, "B"@)
            &&& carries(t.ask_qty, d, "A"@)
            &&& t.timestamp is None
        },
        Stream::Trades => p matches Parts::Trade(t) && {
            &&& carries_name(t.symbol@, d, "s"@)
            &&& carries(t.price, d, "p"@)
            &&& carries(t.qty, d, "q"@)
            &&& carries_side(t.side, d, "m"@)
            &&& carries_time(t.timestamp, d, "T"@)
        },
    }
}

/// A message with data that has a symbol is taken apart into the parts of its data, as its
/// stream has them. One without data, and one without a symbol, gives nothing.
pub proof fn law_messages_are_read(
    stream: Stream,
    v: &Json,
    r: Option<Parts>,
    d: Doc,
    symbol: Seq<char>,
)
    requires
        call_ensures(handle_msg, (stream, v), r),
    ensures
        has_field(v@, "data"@, d) && has_field(d, "s"@, Doc::Str(symbol)) && symbol.len() > 0 ==> (
        r matches Some(p) && is_parts_of(stream, p, d)),
        has_field(v@, "data"@, d) && (lacks(d, "s"@) || has_field(d, "s"@, Doc::Str(Seq::empty())))
            ==> r is None,
        lacks(v@, "data"@) ==> r is None,
{
    if lacks(v@, "data"@) {
        law_missing_fields_are_not_read(v@, "data"@);
    }
    if has_field(v@, "data"@, d) {
        law_fields_are_read_by_name(v@, "data"@, d);
        if lacks(d, "s"@) {
            law_missing_fields_are_not_read(d, "s"@);
        }
        if has_field(d, "s"@, Doc::Str(Seq::empty())) {
            law_fields_are_read_by_name(d, "s"@, Doc::Str(Seq::empty()));
        }
        if has_field(d, "s"@, Doc::Str(symbol)) && symbol.len() > 0 {
            law_fields_are_read_by_name(d, "s"@, Doc::Str(symbol));
            match r {
                Some(Parts::Ticker(t)) => {
                    lemma_carries_name(t.symbol@, d, "s"@);
                    lemma_carries(t.price, d, "c"@);
                    lemma_carries(t.volume, d, "v"@);
                    lemma_carries(t.high, d, "h"@);
                    lemma_carries(t.low, d, "l"@);
                    lemma_carries_time(t.timestamp, d, "E"@);
                },
                Some(Parts::Top(t)) => {
                    lemma_carries_name(t.symbol@, d, "s"@);
                    lemma_carries(t.bid, d, "b"@);
                    lemma_carries(t.ask, d, "a"@);
                    lemma_carries(t.bid_qty, d, "B"@);
                    lemma_carries(t.ask_qty, d, "A"@);
                },
                Some(Parts::Trade(t)) => {
                    lemma_carries_name(t.symbol@, d, "s"@);
                    lemma_carries(t.price, d, "p"@);
                    lemma_carries(t.qty, d, "q"@);
                    lemma_carries_side(t.side, d, "m"@);
                    lemma_carries_time(t.timestamp, d, "T"@);
                },
                None => {},
            }
        }
    }
}

/// Under which key each stream is published, what its topics end in, and that only trades
/// are dropped for their numbers.
pub proof fn law_streams_are_apart(
    s: Stream,
    key: &'static str,
    suffix: &'static str,
    filter: Filter,
)
    requires
        call_ensures(Stream::key, (&s,), key),
        call_ensures(Stream::suffix, (&s,), suffix),
        call_ensures(Stream::filter, (&s,), filter),
    ensures
        s is Price ==> key@ == "prices:binance"@ && suffix@ == "@miniTicker"@ && filter is Any,
        s is OrderBook ==> key@ == "orderbook:binance"@ && suffix@ == "@bookTicker"@ && filter is Any,
        s is Trades ==> key@ == "trades:binance"@ && suffix@ == "@trade"@ && filter is AboveZero,
{
}

} // verus!
