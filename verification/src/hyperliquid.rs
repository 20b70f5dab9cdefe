//! The collector for Hyperliquid: books, trades and best prices over one
//! connection.

use crate::float::{or_zero, unwrap_or_zero, Float, SIGN};
use crate::json::{
    field, has_field, items_field, items_in, lacks, law_fields_are_read_by_name,
    law_missing_fields_are_not_read, lemma_values, parse_simd, parsed_simd, quote, quoted, str_field,
    u64_field, values_of, Doc, Json,
};
use crate::market::{
    admits, all_parts, carries, carries_name, carries_time, kept, lemma_all_kept, lemma_carries,
    lemma_carries_time, lemma_kept_step, or_empty, unwrap_or_empty, Filter, NormalizedData,
    Parts, PartsModel, PriceModel, TopParts, TopPartsModel, TradeParts, TradePartsModel,
};
use crate::text::{bytes_of, contains_text, copy_opt, copy_text, holds, same_text, texts};
use vstd::prelude::*;
use vstd::string::StringSliceAdditionalSpecFns;

verus! {

/// The exchange's name in what is published.
pub const EXCHANGE: &'static str = "hyperliquid";

/// Where the streams are served.
pub const WS_URL: &'static str = "wss://api.hyperliquid.xyz/ws";

/// Seconds between two pings.
pub const PING_INTERVAL_SECS: u64 = 50;

/// What is sent as a ping.
pub const PING: &'static str = "{\"method\":\"ping\"}";

/// Seconds to wait before the next attempt after a failure.
pub const RETRY_SECS: u64 = 5;

/// Records with a zero among their two deciding numbers are dropped.
pub fn filter() -> (f: Filter)
    ensures
        f == Filter::NotZero,
{
    Filter::NotZero
}

/// The common name of a coin.
pub open spec fn common_symbol(s: Seq<char>) -> Seq<char> {
    if s == "BTC"@ {
        "BTCUSDT"@
    } else if s == "ETH"@ {
        "ETHUSDT"@
    } else if s == "SOL"@ {
        "SOLUSDT"@
    } else {
        s
    }
}

/// The common name of a coin.
pub fn normalize_symbol(s: &str) -> (r: String)
    ensures
        r@ == common_symbol(s@),
{
    if same_text(s, "BTC") {
        copy_text("BTCUSDT")
    } else if same_text(s, "ETH") {
        copy_text("ETHUSDT")
    } else if same_text(s, "SOL") {
        copy_text("SOLUSDT")
    } else {
        copy_text(s)
    }
}

/// The request that subscribes to a kind of message about a coin.
pub open spec fn subscription(coin: Seq<char>, kind: Seq<char>) -> Seq<char> {
    "{\"method\":\"subscribe\",\"subscription\":{\"coin\":"@ + quoted(coin) + ",\"type\":\""@ + kind
        + "\"}}"@
}

/// The three requests of a coin.
pub open spec fn subscriptions(coin: Seq<char>) -> Seq<Seq<char>> {
    seq![
        subscription(coin, "l2Book"@),
        subscription(coin, "trades"@),
        subscription(coin, "bbo"@),
    ]
}

/// The request that subscribes to a kind of message about a coin.
fn request(coin: &str, kind: &str) -> (s: String)
    ensures
        s@ == subscription(coin@, kind@),
{
    let mut s = copy_text("{\"method\":\"subscribe\",\"subscription\":{\"coin\":");
    s.append(quote(coin).as_str());
    s.append(",\"type\":\"");
    s.append(kind);
    s.append("\"}}");
    s
}

/// The three requests of a coin.
pub fn subscribe(coin: &str) -> (r: Vec<String>)
    ensures
        texts(r@) == subscriptions(coin@),
{
    let mut r: Vec<String> = Vec::new();
    r.push(request(coin, "l2Book"));
    r.push(request(coin, "trades"));
    r.push(request(coin, "bbo"));
    assert(texts(r@) =~= subscriptions(coin@));
    r
}

/// The coin of an item, by its common name.
pub open spec fn symbol_of(v: Doc) -> Seq<char> {
    common_symbol(or_empty(str_field(v, "coin"@)))
}

/// The coin of an item, by its common name.
fn read_symbol(v: &Json) -> (s: String)
    ensures
        s@ == symbol_of(v@),
{
    let raw = unwrap_or_empty(v.get_str("coin"));
    normalize_symbol(raw.as_str())
}

/// The items of a value, none where it is no list.
pub open spec fn items_or_none(v: Doc) -> Seq<Doc> {
    match items_in(v) {
        Some(items) => items,
        None => Seq::empty(),
    }
}

/// The parts of a book: none unless there are two sides with entries. Only the
/// first entry of each is read.
pub open spec fn l2book_parts(data: Doc) -> Option<TopPartsModel> {
    match items_field(data, "levels"@) {
        Some(levels) => if levels.len() != 2 || items_or_none(levels[0]).len() == 0
            || items_or_none(levels[1]).len() == 0 {
            None
        } else {
            let bid = items_or_none(levels[0])[0];
            let ask = items_or_none(levels[1])[0];
            Some(
                TopPartsModel {
                    symbol: symbol_of(data),
                    numbers: (
                        str_field(bid, "px"@),
                        str_field(ask, "px"@),
                        str_field(bid, "sz"@),
                        str_field(ask, "sz"@),
                    ),
                    timestamp: u64_field(data, "time"@),
                },
            )
        },
        None => None,
    }
}

/// The first entry of a side.
fn first_entry(side: &Json) -> (r: Option<&Json>)
    ensures
        match r {
            Some(e) => items_or_none(side@).len() > 0 && items_or_none(side@)[0] == e@,
            None => items_or_none(side@).len() == 0,
        },
{
    match side.as_array() {
        Some(items) => {
            proof {
                lemma_values(items@);
            }
            if items.len() > 0 {
                assert(values_of(items@)[0] == items@[0]@);
                Some(&items[0])
            } else {
                None
            }
        },
        None => None,
    }
}

/// The parts of a top of book whose two entries are given.
fn read_sides(symbol: String, bid: &Json, ask: &Json, timestamp: Option<u64>) -> (p: TopParts)
    ensures
        p@ == (TopPartsModel {
            symbol: symbol@,
            numbers: (
                str_field(bid@, "px"@),
                str_field(ask@, "px"@),
                str_field(bid@, "sz"@),
                str_field(ask@, "sz"@),
            ),
            timestamp,
        }),
{
    TopParts {
        symbol,
        bid: copy_opt(bid.get_str("px")),
        ask: copy_opt(ask.get_str("px")),
        bid_qty: copy_opt(bid.get_str("sz")),
        ask_qty: copy_opt(ask.get_str("sz")),
        timestamp,
    }
}

/// Takes the data of a book message apart.
pub fn handle_l2book(data: &Json) -> (r: Option<TopParts>)
    ensures
        match r {
            Some(p) => l2book_parts(data@) == Some(p@),
            None => l2book_parts(data@) is None,
        },
{
    let levels = match data.get_array("levels") {
        Some(levels) => levels,
        None => return None,
    };
    proof {
        lemma_values(levels@);
    }
    if levels.len() != 2 {
        return None;
    }
    assert(values_of(levels@)[0] == levels@[0]@);
    assert(values_of(levels@)[1] == levels@[1]@);
    match (first_entry(&levels[0]), first_entry(&levels[1])) {
        (Some(bid), Some(ask)) => Some(
            read_sides(read_symbol(data), bid, ask, data.get_u64("time")),
        ),
        _ => None,
    }
}

/// The parts of one trade; its time is that of its arrival.
pub open spec fn trade_parts(v: Doc) -> Option<PartsModel> {
    Some(
        PartsModel::Trade(
            TradePartsModel {
                symbol: symbol_of(v),
                numbers: (str_field(v, "px"@), str_field(v, "sz"@)),
                side: match str_field(v, "side"@) {
                    Some(s) => s,
                    None => "buy"@,
                },
                timestamp: None,
            },
        ),
    )
}

/// The parts of the trades of a message.
pub open spec fn trades(v: Doc) -> Seq<PartsModel> {
    match items_field(v, "data"@) {
        Some(items) => kept(items, |x: Doc| trade_parts(x)),
        None => Seq::empty(),
    }
}

/// Reads one trade.
fn read_trade(v: &Json) -> (p: TradeParts)
    ensures
        trade_parts(v@) == Some(PartsModel::Trade(p@)),
{
    let side = match v.get_str("side") {
        Some(s) => copy_text(s),
        None => copy_text("buy"),
    };
    TradeParts {
        symbol: read_symbol(v),
        price: copy_opt(v.get_str("px")),
        qty: copy_opt(v.get_str("sz")),
        side,
        timestamp: None,
    }
}

/// Takes the trades of a message apart.
pub fn handle_trades(v: &Json) -> (r: Vec<Parts>)
    ensures
        all_parts(r@) == trades(v@),
{
    let mut r: Vec<Parts> = Vec::new();
    match v.get_array("data") {
        Some(items) => {
            let ghost docs = values_of(items@);
            let ghost read = |x: Doc| trade_parts(x);
            proof {
                lemma_values(items@);
                assert(all_parts(r@) =~= kept(docs.take(0), read));
            }
            let mut i: usize = 0;
            while i < items.len()
                invariant
                    i <= items@.len(),
                    docs == values_of(items@),
                    docs.len() == items@.len(),
                    forall|k: int| 0 <= k < items@.len() ==> #[trigger] docs[k] == items@[k]@,
                    read == (|x: Doc| trade_parts(x)),
                    all_parts(r@) == kept(docs.take(i as int), read),
                decreases items@.len() - i,
            {
                let ghost before = r@;
                proof {
                    lemma_kept_step(docs, read, i as int);
                    assert(docs[i as int] == items@[i as int]@);
                }
                let p = read_trade(&items[i]);
                r.push(Parts::Trade(p));
                assert(all_parts(r@) =~= all_parts(before).push(PartsModel::Trade(p@)));
                i += 1;
            }
            assert(docs.take(i as int) =~= docs);
        },
        None => {
            assert(all_parts(r@) =~= Seq::empty());
        },
    }
    r
}

/// The parts of the best prices: none unless there are two entries.
pub open spec fn bbo_parts(data: Doc) -> Option<TopPartsModel> {
    match items_field(data, "bbo"@) {
        Some(bbo) => if bbo.len() != 2 {
            None
        } else {
            Some(
                TopPartsModel {
                    symbol: symbol_of(data),
                    numbers: (
                        str_field(bbo[0], "px"@),
                        str_field(bbo[1], "px"@),
                        str_field(bbo[0], "sz"@),
                        str_field(bbo[1], "sz"@),
                    ),
                    timestamp: None,
                },
            )
        },
        None => None,
    }
}

/// Takes the data of a best-prices message apart.
pub fn handle_bbo(data: &Json) -> (r: Option<TopParts>)
    ensures
        match r {
            Some(p) => bbo_parts(data@) == Some(p@),
            None => bbo_parts(data@) is None,
        },
{
    let bbo = match data.get_array("bbo") {
        Some(bbo) => bbo,
        None => return None,
    };
    proof {
        lemma_values(bbo@);
    }
    if bbo.len() != 2 {
        return None;
    }
    assert(values_of(bbo@)[0] == bbo@[0]@);
    assert(values_of(bbo@)[1] == bbo@[1]@);
    Some(read_sides(read_symbol(data), &bbo[0], &bbo[1], None))
}

/// The price record of the best prices: the price between them and the volume at
/// both, as the caller calculated them; none where the bid or the ask is zero.
pub open spec fn bbo_price(
    parts: TopPartsModel,
    bid: Option<Float>,
    ask: Option<Float>,
    mid: Float,
    volume: Float,
    now: u64,
) -> Option<PriceModel> {
    if admits(Filter::NotZero, or_zero(bid), or_zero(ask)) {
        Some(
            PriceModel {
                exchange: EXCHANGE@,
                symbol: parts.symbol,
                numbers: (mid, volume, Float(0), Float(0)),
                timestamp: now,
            },
        )
    } else {
        None
    }
}

/// The price record of the best prices, given the numbers read from the texts of
/// bid and ask, their mean and the sum of their quantities.
pub fn settle_bbo(
    parts: TopParts,
    bid: Option<Float>,
    ask: Option<Float>,
    mid: Float,
    volume: Float,
    now: u64,
) -> (r: Option<NormalizedData>)
    ensures
        match r {
            Some(p) => bbo_price(parts@, bid, ask, mid, volume, now) == Some(p@),
            None => bbo_price(parts@, bid, ask, mid, volume, now) is None,
        },
{
    if !Filter::NotZero.passes(unwrap_or_zero(bid), unwrap_or_zero(ask)) {
        return None;
    }
    Some(
        NormalizedData {
            exchange: copy_text(EXCHANGE),
            symbol: parts.symbol,
            price: mid,
            volume,
            high: Float::zero(),
            low: Float::zero(),
            timestamp: now,
        },
    )
}

/// What a text frame says.
#[derive(Debug)]
pub enum Heard {
    /// Nothing that is read.
    Nothing,
    /// A book or best-prices message without its data.
    MissingData,
    /// A book.
    Book(TopParts),
    /// Trades.
    Trades(Vec<Parts>),
    /// Best prices.
    Best(TopParts),
}

/// What a text frame says, in the abstract.
pub enum HeardModel {
    /// Nothing that is read.
    Nothing,
    /// A book or best-prices message without its data.
    MissingData,
    /// A book.
    Book(TopPartsModel),
    /// Trades.
    Trades(Seq<PartsModel>),
    /// Best prices.
    Best(TopPartsModel),
}

impl View for Heard {
    type V = HeardModel;

    open spec fn view(&self) -> HeardModel {
        match *self {
            Heard::Nothing => HeardModel::Nothing,
            Heard::MissingData => HeardModel::MissingData,
            Heard::Book(p) => HeardModel::Book(p@),
            Heard::Trades(v) => HeardModel::Trades(all_parts(v@)),
            Heard::Best(p) => HeardModel::Best(p@),
        }
    }
}

/// What a message says: its channel decides how it is read.
pub open spec fn message(v: Doc) -> HeardModel {
    let channel = str_field(v, "channel"@);
    if channel == Some("l2Book"@) {
        match field(v, "data"@) {
            Some(data) => match l2book_parts(data) {
                Some(p) => HeardModel::Book(p),
                None => HeardModel::Nothing,
            },
            None => HeardModel::MissingData,
        }
    } else if channel == Some("trades"@) {
        HeardModel::Trades(trades(v))
    } else if channel == Some("bbo"@) {
        match field(v, "data"@) {
            Some(data) => match bbo_parts(data) {
                Some(p) => HeardModel::Best(p),
                None => HeardModel::Nothing,
            },
            None => HeardModel::MissingData,
        }
    } else {
        HeardModel::Nothing
    }
}

/// Takes a message in.
pub fn handle_message(v: &Json) -> (h: Heard)
    ensures
        h@ == message(v@),
{
    let channel = match v.get_str("channel") {
        Some(c) => c,
        None => return Heard::Nothing,
    };
    if same_text(channel, "l2Book") {
        match v.get("data") {
            Some(data) => match handle_l2book(data) {
                Some(p) => Heard::Book(p),
                None => Heard::Nothing,
            },
            None => Heard::MissingData,
        }
    } else if same_text(channel, "trades") {
        Heard::Trades(handle_trades(v))
    } else if same_text(channel, "bbo") {
        match v.get("data") {
            Some(data) => match handle_bbo(data) {
                Some(p) => Heard::Best(p),
                None => Heard::Nothing,
            },
            None => Heard::MissingData,
        }
    } else {
        Heard::Nothing
    }
}

/// Takes a text frame in. A frame with the word "pong" in quotation marks anywhere
/// in it and one that is no JSON say nothing.
pub fn handle_frame(text: &str) -> (h: Heard)
    ensures
        h@ == (if holds(text@, "\"pong\""@) {
            HeardModel::Nothing
        } else {
            match parsed_simd(text.spec_bytes()) {
                Some(v) => message(v),
                None => HeardModel::Nothing,
            }
        }),
{
    if contains_text(text, "\"pong\"") {
        return Heard::Nothing;
    }
    match parse_simd(bytes_of(text)) {
        Some(v) => handle_message(&v),
        None => Heard::Nothing,
    }
}

/// Whether a name is the common one for what a value says under "coin": three coins go by
/// the name of their pair, and every other name stays.
pub open spec fn is_symbol_of(s: Seq<char>, v: Doc) -> bool {
    &&& has_field(v, "coin"@, Doc::Str("BTC"@)) ==> s == "BTCUSDT"@
    &&& has_field(v, "coin"@, Doc::Str("ETH"@)) ==> s == "ETHUSDT"@
    &&& has_field(v, "coin"@, Doc::Str("SOL"@)) ==> s == "SOLUSDT"@
    &&& forall|t: Seq<char>|
        #[trigger] has_field(v, "coin"@, Doc::Str(t)) && t != "BTC"@ && t != "ETH"@ && t != "SOL"@
            ==> s == t
}

proof fn lemma_symbol_of(v: Doc)
    ensures
        is_symbol_of(symbol_of(v), v),
{
    assert forall|t: Seq<char>| #[trigger] has_field(v, "coin"@, Doc::Str(t)) implies symbol_of(v)
        == common_symbol(t) by {
        law_fields_are_read_by_name(v, "coin"@, Doc::Str(t));
    }
    reveal_strlit("BTC");
    reveal_strlit("ETH");
    reveal_strlit("SOL");
    assert("BTC"@[0] == 'B');
    assert("ETH"@[0] == 'E');
    assert("SOL"@[0] == 'S');
}

/// Whether a top of book has the price and the size of one entry as its bid and those of
/// another as its ask.
pub open spec fn has_sides(p: TopParts, bid: Doc, ask: Doc) -> bool {
    &&& carries(p.bid, bid, "px"@)
    &&& carries(p.bid_qty, bid, "sz"@)
    &&& carries(p.ask, ask, "px"@)
    &&& carries(p.ask_qty, ask, "sz"@)
}

proof fn lemma_sides(p: TopParts, bid: Doc, ask: Doc)
    requires
        p@.numbers == (
            str_field(bid, "px"@),
            str_field(ask, "px"@),
            str_field(bid, "sz"@),
            str_field(ask, "sz"@),
        ),
    ensures
        has_sides(p, bid, ask),
{
    lemma_carries(p.bid, bid, "px"@);
    lemma_carries(p.bid_qty, bid, "sz"@);
    lemma_carries(p.ask, ask, "px"@);
    lemma_carries(p.ask_qty, ask, "sz"@);
}

/// A book message gives the first entry of its first side as the bid and the first entry of
/// its second side as the ask, with the common name of its coin and its own time. Unless
/// there are two sides, each with an entry, it gives nothing.
pub proof fn law_books_are_read(v: &Json, h: Heard, data: Doc, levels: Seq<Doc>)
    requires
        call_ensures(handle_message, (v,), h),
        has_field(v@, "channel"@, Doc::Str("l2Book"@)),
        has_field(v@, "data"@, data),
        has_field(data, "levels"@, Doc::Arr(levels)),
    ensures
        levels.len() != 2 ==> h is Nothing,
        levels.len() == 2 && levels[0] is Arr && levels[1] is Arr ==> ({
            let bids = levels[0]->Arr_0;
            let asks = levels[1]->Arr_0;
            &&& bids.len() == 0 || asks.len() == 0 ==> h is Nothing
            &&& bids.len() > 0 && asks.len() > 0 ==> (h matches Heard::Book(p) && {
                &&& is_symbol_of(p.symbol@, data)
                &&& has_sides(p, bids[0], asks[0])
                &&& carries_time(p.timestamp, data, "time"@)
            })
        }),
{
    law_fields_are_read_by_name(v@, "channel"@, Doc::Str("l2Book"@));
    law_fields_are_read_by_name(v@, "data"@, data);
    law_fields_are_read_by_name(data, "levels"@, Doc::Arr(levels));
    if let Heard::Book(p) = h {
        lemma_symbol_of(data);
        lemma_sides(p, items_or_none(levels[0])[0], items_or_none(levels[1])[0]);
        lemma_carries_time(p.timestamp, data, "time"@);
    }
}

/// A best-prices message gives its first entry as the bid and its second as the ask, with
/// the common name of its coin and no time of its own. Unless there are two entries it
/// gives nothing.
pub proof fn law_best_prices_are_read(v: &Json, h: Heard, data: Doc, bbo: Seq<Doc>)
    requires
        call_ensures(handle_message, (v,), h),
        has_field(v@, "channel"@, Doc::Str("bbo"@)),
        has_field(v@, "data"@, data),
        has_field(data, "bbo"@, Doc::Arr(bbo)),
    ensures
        bbo.len() != 2 ==> h is Nothing,
        bbo.len() == 2 ==> (h matches Heard::Best(p) && {
            &&& is_symbol_of(p.symbol@, data)
            &&& has_sides(p, bbo[0], bbo[1])
            &&& p.timestamp is None
        }),
{
    lemma_channels_are_apart();
    law_fields_are_read_by_name(v@, "channel"@, Doc::Str("bbo"@));
    law_fields_are_read_by_name(v@, "data"@, data);
    law_fields_are_read_by_name(data, "bbo"@, Doc::Arr(bbo));
    if let Heard::Best(p) = h {
        lemma_symbol_of(data);
        lemma_sides(p, bbo[0], bbo[1]);
    }
}

proof fn lemma_channels_are_apart()
    ensures
        "l2Book"@ != "bbo"@,
        "trades"@ != "bbo"@,
        "l2Book"@ != "trades"@,
{
    reveal_strlit("l2Book");
    reveal_strlit("trades");
    reveal_strlit("bbo");
    assert("l2Book"@.len() != "bbo"@.len());
    assert("trades"@.len() != "bbo"@.len());
    assert("l2Book"@[0] != "trades"@[0]);
}

/// A message with trades gives one trade for each item of its data, in order: the common
/// name of the coin, the price under "px", the quantity under "sz", the side as it is
/// written and a purchase where it is missing, and no time of its own.
pub proof fn law_trades_are_read(v: &Json, h: Heard, items: Seq<Doc>)
    requires
        call_ensures(handle_message, (v,), h),
        has_field(v@, "channel"@, Doc::Str("trades"@)),
        has_field(v@, "data"@, Doc::Arr(items)),
    ensures
        h matches Heard::Trades(parts) && parts@.len() == items.len() && forall|i: int|
            0 <= i < items.len() ==> (#[trigger] parts@[i] matches Parts::Trade(p) && is_trade_of(
                p,
                items[i],
            )),
{
    lemma_channels_are_apart();
    law_fields_are_read_by_name(v@, "channel"@, Doc::Str("trades"@));
    law_fields_are_read_by_name(v@, "data"@, Doc::Arr(items));
    let read = |x: Doc| trade_parts(x);
    lemma_all_kept(items, read);
    if let Heard::Trades(parts) = h {
        assert(all_parts(parts@) == kept(items, read));
        assert(all_parts(parts@).len() == parts@.len());
        assert forall|i: int| 0 <= i < items.len() implies (#[trigger] parts@[i] matches Parts::Trade(
            p,
        ) && is_trade_of(p, items[i])) by {
            assert(all_parts(parts@)[i] == parts@[i]@);
            assert(read(items[i]) == Some(kept(items, read)[i]));
            if let Parts::Trade(p) = parts@[i] {
                let d = items[i];
                lemma_symbol_of(d);
                lemma_carries(p.price, d, "px"@);
                lemma_carries(p.qty, d, "sz"@);
                assert forall|t: Seq<char>| #[trigger] has_field(d, "side"@, Doc::Str(t)) implies p.side@
                    == t by {
                    law_fields_are_read_by_name(d, "side"@, Doc::Str(t));
                }
                if lacks(d, "side"@) {
                    law_missing_fields_are_not_read(d, "side"@);
                }
            }
        }
    }
}

/// Whether the parts of a trade are those of a trade object.
pub open spec fn is_trade_of(p: TradeParts, d: Doc) -> bool {
    &&& is_symbol_of(p.symbol@, d)
    &&& carries(p.price, d, "px"@)
    &&& carries(p.qty, d, "sz"@)
    &&& carries_name(p.side@, d, "side"@)
    &&& lacks(d, "side"@) ==> p.side@ == "buy"@
    &&& p.timestamp is None
}

/// A book or best-prices message without data is reported as such, and a message of any
/// other channel says nothing.
pub proof fn law_other_messages(v: &Json, h: Heard, name: Seq<char>)
    requires
        call_ensures(handle_message, (v,), h),
    ensures
        has_field(v@, "channel"@, Doc::Str("l2Book"@)) && lacks(v@, "data"@) ==> h is MissingData,
        has_field(v@, "channel"@, Doc::Str("bbo"@)) && lacks(v@, "data"@) ==> h is MissingData,
        lacks(v@, "channel"@) ==> h is Nothing,
        has_field(v@, "channel"@, Doc::Str(name)) && name != "l2Book"@ && name != "trades"@ && name
            != "bbo"@ ==> h is Nothing,
{
    lemma_channels_are_apart();
    if lacks(v@, "data"@) {
        law_missing_fields_are_not_read(v@, "data"@);
    }
    if lacks(v@, "channel"@) {
        law_missing_fields_are_not_read(v@, "channel"@);
    }
    if has_field(v@, "channel"@, Doc::Str("l2Book"@)) {
        law_fields_are_read_by_name(v@, "channel"@, Doc::Str("l2Book"@));
    }
    if has_field(v@, "channel"@, Doc::Str("bbo"@)) {
        law_fields_are_read_by_name(v@, "channel"@, Doc::Str("bbo"@));
    }
    if has_field(v@, "channel"@, Doc::Str(name)) {
        law_fields_are_read_by_name(v@, "channel"@, Doc::Str(name));
    }
}

/// The price of best prices is the mean of both and its volume their sum, as the caller
/// calculated them; it is dropped exactly when the bid or the ask is zero or could not be
/// read.
pub proof fn law_best_prices_are_settled(
    parts: TopParts,
    bid: Option<Float>,
    ask: Option<Float>,
    mid: Float,
    volume: Float,
    now: u64,
    r: Option<NormalizedData>,
)
    requires
        call_ensures(settle_bbo, (parts, bid, ask, mid, volume, now), r),
    ensures
        r matches Some(p) ==> {
            &&& p.exchange@ == "hyperliquid"@
            &&& p.symbol@ == parts.symbol@
            &&& p.price == mid
            &&& p.volume == volume
            &&& p.high == Float(0)
            &&& p.low == Float(0)
            &&& p.timestamp == now
        },
        bid is None || ask is None ==> r is None,
        bid matches Some(b) ==> ask matches Some(a) ==> (r is None <==> b.0 == 0 || b.0 == SIGN
            || a.0 == 0 || a.0 == SIGN),
{
}

} // verus!
