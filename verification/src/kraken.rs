//! The collector for Kraken: everything comes over one connection, and numbers come
//! as numbers.

use crate::float::{is_positive, Float, SIGN};
use crate::json::{
    bits_field, has_field, items_field, lacks, law_fields_are_read_by_name,
    law_missing_fields_are_not_read, lemma_values, parse_simd, parsed_simd, push_quoted_list,
    quoted_list, str_field, values_of, Doc, Json, Number,
};
use crate::market::{
    admits, all_records, carries_name, kept, lemma_all_kept, lemma_kept_step, or_empty, unwrap_or_empty, Filter, NormalizedData,
    OrderBookTop, PriceModel, Record, RecordModel, TopModel, TradeEvent, TradeModel,
};
use crate::text::{bytes_of, contains_text, copy_text, holds, same_text, texts};
use vstd::prelude::*;
use vstd::string::StringSliceAdditionalSpecFns;

verus! {

/// The exchange's name in what is published.
pub const EXCHANGE: &'static str = "kraken";

/// Where the streams are served.
pub const WS_URL: &'static str = "wss://ws.kraken.com/v2";

/// Seconds to wait before the next attempt after a failure.
pub const RETRY_SECS: u64 = 3;

/// The common name of a symbol.
pub open spec fn common_symbol(s: Seq<char>) -> Seq<char> {
    if s == "BTC/USD"@ {
        "BTCUSDT"@
    } else if s == "ETH/USD"@ {
        "ETHUSDT"@
    } else if s == "SOL/USD"@ {
        "SOLUSDT"@
    } else if s == "XRP/USD"@ {
        "XRPUSDT"@
    } else {
        s
    }
}

/// The common name of a symbol.
pub fn normalize_symbol(s: &str) -> (r: &str)
    ensures
        r@ == common_symbol(s@),
{
    if same_text(s, "BTC/USD") {
        "BTCUSDT"
    } else if same_text(s, "ETH/USD") {
        "ETHUSDT"
    } else if same_text(s, "SOL/USD") {
        "SOLUSDT"
    } else if same_text(s, "XRP/USD") {
        "XRPUSDT"
    } else {
        s
    }
}

/// The three requests that subscribe to tickers, trades and books.
pub open spec fn subscriptions(symbols: Seq<Seq<char>>) -> Seq<Seq<char>> {
    seq![
        "{\"method\":\"subscribe\",\"params\":{\"channel\":\"ticker\",\"symbol\":"@ + quoted_list(
            symbols,
        ) + "}}"@,
        "{\"method\":\"subscribe\",\"params\":{\"channel\":\"trade\",\"symbol\":"@ + quoted_list(
            symbols,
        ) + "}}"@,
        "{\"method\":\"subscribe\",\"params\":{\"channel\":\"book\",\"depth\":10,\"symbol\":"@
            + quoted_list(symbols) + "}}"@,
    ]
}

/// A request with a list of symbols in it.
fn request(head: &str, symbols: &[String]) -> (s: String)
    ensures
        s@ == head@ + quoted_list(texts(symbols@)) + "}}"@,
{
    let mut s = copy_text(head);
    push_quoted_list(&mut s, symbols);
    s.append("}}");
    s
}

/// The three requests that subscribe to tickers, trades and books.
pub fn subscribe(symbols: &[String]) -> (r: Vec<String>)
    ensures
        texts(r@) == subscriptions(texts(symbols@)),
{
    let mut r: Vec<String> = Vec::new();
    r.push(
        request(
            "{\"method\":\"subscribe\",\"params\":{\"channel\":\"ticker\",\"symbol\":",
            symbols,
        ),
    );
    r.push(
        request(
            "{\"method\":\"subscribe\",\"params\":{\"channel\":\"trade\",\"symbol\":",
            symbols,
        ),
    );
    r.push(
        request(
            "{\"method\":\"subscribe\",\"params\":{\"channel\":\"book\",\"depth\":10,\"symbol\":",
            symbols,
        ),
    );
    assert(texts(r@) =~= subscriptions(texts(symbols@)));
    r
}

/// The number of the field `key`, zero where there is none.
pub open spec fn float_field(v: Doc, key: Seq<char>) -> Float {
    match bits_field(v, key) {
        Some(b) => Float(b),
        None => Float(0),
    }
}

/// The number of the field `key`, zero where there is none.
fn get_float(v: &Json, key: &str) -> (f: Float)
    ensures
        f == float_field(v@, key@),
{
    match v.get_bits(key) {
        Some(b) => Float(b),
        None => Float::zero(),
    }
}

/// The symbol of an item, by its common name.
pub open spec fn symbol_of(v: Doc) -> Seq<char> {
    common_symbol(or_empty(str_field(v, "symbol"@)))
}

/// The symbol of an item, by its common name.
fn read_symbol(v: &Json) -> (s: String)
    ensures
        s@ == symbol_of(v@),
{
    let raw = unwrap_or_empty(v.get_str("symbol"));
    copy_text(normalize_symbol(raw.as_str()))
}

/// The record of a ticker: none unless its price is above zero.
pub open spec fn ticker_record(v: Doc, now: u64) -> Option<RecordModel> {
    let price = float_field(v, "last"@);
    if admits(Filter::AboveZero, price, price) {
        Some(
            RecordModel::Price(
                PriceModel {
                    exchange: EXCHANGE@,
                    symbol: symbol_of(v),
                    numbers: (
                        price,
                        float_field(v, "volume"@),
                        float_field(v, "high"@),
                        float_field(v, "low"@),
                    ),
                    timestamp: now,
                },
            ),
        )
    } else {
        None
    }
}

/// The record of a trade: none unless price and quantity are above zero.
pub open spec fn trade_record(v: Doc, now: u64) -> Option<RecordModel> {
    let price = float_field(v, "price"@);
    let qty = float_field(v, "qty"@);
    if admits(Filter::AboveZero, price, qty) {
        Some(
            RecordModel::Trade(
                TradeModel {
                    exchange: EXCHANGE@,
                    symbol: symbol_of(v),
                    numbers: (price, qty),
                    side: match str_field(v, "side"@) {
                        Some(s) => s,
                        None => "buy"@,
                    },
                    timestamp: now,
                },
            ),
        )
    } else {
        None
    }
}

/// A number of the first entry of a side, zero where there is none.
pub open spec fn first_float(v: Doc, side: Seq<char>, key: Seq<char>) -> Float {
    match items_field(v, side) {
        Some(items) => if items.len() > 0 {
            float_field(items[0], key)
        } else {
            Float(0)
        },
        None => Float(0),
    }
}

/// A number of the first entry of a side, zero where there is none.
fn get_first(v: &Json, side: &str, key: &str) -> (f: Float)
    ensures
        f == first_float(v@, side@, key@),
{
    match v.get_array(side) {
        Some(items) => {
            proof {
                lemma_values(items@);
            }
            if items.len() > 0 {
                assert(values_of(items@)[0] == items@[0]@);
                get_float(&items[0], key)
            } else {
                Float::zero()
            }
        },
        None => Float::zero(),
    }
}

/// The record of a book: none where the best bid or the best ask is zero.
pub open spec fn book_record(v: Doc, now: u64) -> Option<RecordModel> {
    let bid = first_float(v, "bids"@, "price"@);
    let ask = first_float(v, "asks"@, "price"@);
    if admits(Filter::NotZero, bid, ask) {
        Some(
            RecordModel::Top(
                TopModel {
                    exchange: EXCHANGE@,
                    symbol: symbol_of(v),
                    numbers: (
                        bid,
                        ask,
                        first_float(v, "bids"@, "qty"@),
                        first_float(v, "asks"@, "qty"@),
                    ),
                    timestamp: now,
                },
            ),
        )
    } else {
        None
    }
}

/// One of the three channels.
#[derive(Clone, Copy, PartialEq, Eq, Structural, Debug)]
pub enum Channel {
    /// Prices.
    Ticker,
    /// Trades.
    Trade,
    /// Tops of book.
    Book,
}

/// The record of an item of a channel.
pub open spec fn item_record(channel: Channel, v: Doc, now: u64) -> Option<RecordModel> {
    match channel {
        Channel::Ticker => ticker_record(v, now),
        Channel::Trade => trade_record(v, now),
        Channel::Book => book_record(v, now),
    }
}

/// The record of an item of a channel.
fn read_item(channel: Channel, v: &Json, now: u64) -> (r: Option<Record>)
    ensures
        match r {
            Some(x) => item_record(channel, v@, now) == Some(x@),
            None => item_record(channel, v@, now) is None,
        },
{
    match channel {
        Channel::Ticker => {
            let price = get_float(v, "last");
            if !Filter::AboveZero.passes(price, price) {
                return None;
            }
            Some(
                Record::Price(
                    NormalizedData {
                        exchange: copy_text(EXCHANGE),
                        symbol: read_symbol(v),
                        price,
                        volume: get_float(v, "volume"),
                        high: get_float(v, "high"),
                        low: get_float(v, "low"),
                        timestamp: now,
                    },
                ),
            )
        },
        Channel::Trade => {
            let price = get_float(v, "price");
            let qty = get_float(v, "qty");
            if !Filter::AboveZero.passes(price, qty) {
                return None;
            }
            let side = match v.get_str("side") {
                Some(s) => copy_text(s),
                None => copy_text("buy"),
            };
            Some(
                Record::Trade(
                    TradeEvent {
                        exchange: copy_text(EXCHANGE),
                        symbol: read_symbol(v),
                        price,
                        qty,
                        side,
                        timestamp: now,
                    },
                ),
            )
        },
        Channel::Book => {
            let bid = get_first(v, "bids", "price");
            let ask = get_first(v, "asks", "price");
            if !Filter::NotZero.passes(bid, ask) {
                return None;
            }
            Some(
                Record::Top(
                    OrderBookTop {
                        exchange: copy_text(EXCHANGE),
                        symbol: read_symbol(v),
                        bid,
                        ask,
                        bid_qty: get_first(v, "bids", "qty"),
                        ask_qty: get_first(v, "asks", "qty"),
                        timestamp: now,
                    },
                ),
            )
        },
    }
}

/// The records of a message of a channel.
pub open spec fn channel_records(channel: Channel, v: Doc, now: u64) -> Seq<RecordModel> {
    match items_field(v, "data"@) {
        Some(items) => kept(items, |x: Doc| item_record(channel, x, now)),
        None => Seq::empty(),
    }
}

/// The records of a message of a channel.
pub fn handle_channel(channel: Channel, v: &Json, now: u64) -> (r: Vec<Record>)
    ensures
        all_records(r@) == channel_records(channel, v@, now),
{
    let mut r: Vec<Record> = Vec::new();
    match v.get_array("data") {
        Some(items) => {
            let ghost docs = values_of(items@);
            let ghost read = |x: Doc| item_record(channel, x, now);
            proof {
                lemma_values(items@);
                assert(all_records(r@) =~= kept(docs.take(0), read));
            }
            let mut i: usize = 0;
            while i < items.len()
                invariant
                    i <= items@.len(),
                    docs == values_of(items@),
                    docs.len() == items@.len(),
                    forall|k: int| 0 <= k < items@.len() ==> #[trigger] docs[k] == items@[k]@,
                    read == (|x: Doc| item_record(channel, x, now)),
                    all_records(r@) == kept(docs.take(i as int), read),
                decreases items@.len() - i,
            {
                let ghost before = r@;
                proof {
                    lemma_kept_step(docs, read, i as int);
                    assert(docs[i as int] == items@[i as int]@);
                }
                match read_item(channel, &items[i], now) {
                    Some(x) => {
                        r.push(x);
                        assert(all_records(r@) =~= all_records(before).push(x@));
                    },
                    None => {},
                }
                i += 1;
            }
            assert(docs.take(i as int) =~= docs);
        },
        None => {
            assert(all_records(r@) =~= Seq::empty());
        },
    }
    r
}

/// The channel of a message.
pub open spec fn channel_of(v: Doc) -> Option<Channel> {
    let name = str_field(v, "channel"@);
    if name == Some("ticker"@) {
        Some(Channel::Ticker)
    } else if name == Some("trade"@) {
        Some(Channel::Trade)
    } else if name == Some("book"@) {
        Some(Channel::Book)
    } else {
        None
    }
}

/// The three names of channels are different texts.
proof fn lemma_channel_names()
    ensures
        "ticker"@ != "trade"@,
        "ticker"@ != "book"@,
        "trade"@ != "book"@,
{
    reveal_strlit("ticker");
    reveal_strlit("trade");
    reveal_strlit("book");
    assert("ticker"@.len() != "trade"@.len());
    assert("ticker"@.len() != "book"@.len());
    assert("trade"@.len() != "book"@.len());
}

/// The channel of a message.
pub fn read_channel(v: &Json) -> (r: Option<Channel>)
    ensures
        r == channel_of(v@),
{
    proof {
        lemma_channel_names();
    }
    match v.get_str("channel") {
        Some(name) => if same_text(name, "ticker") {
            Some(Channel::Ticker)
        } else if same_text(name, "trade") {
            Some(Channel::Trade)
        } else if same_text(name, "book") {
            Some(Channel::Book)
        } else {
            None
        },
        None => None,
    }
}

/// What a text frame says: its channel and its records. A frame with the word
/// "heartbeat" anywhere in it, one that is no JSON and one of another channel say
/// nothing.
pub fn handle_frame(text: &str, now: u64) -> (r: Option<(Channel, Vec<Record>)>)
    ensures
        ({
            let said = parsed_simd(text.spec_bytes());
            let heard = if holds(text@, "heartbeat"@) || said is None {
                None
            } else {
                channel_of(said->Some_0)
            };
            match r {
                Some((channel, records)) => heard == Some(channel) && all_records(records@)
                    == channel_records(channel, said->Some_0, now),
                None => heard is None,
            }
        }),
{
    if contains_text(text, "heartbeat") {
        return None;
    }
    match parse_simd(bytes_of(text)) {
        Some(v) => match read_channel(&v) {
            Some(channel) => Some((channel, handle_channel(channel, &v, now))),
            None => None,
        },
        None => None,
    }
}

/// Whether a number is the one that a value says under a name, zero where it says none.
pub open spec fn is_number_of(f: Float, v: Doc, key: Seq<char>) -> bool {
    &&& forall|n: Number|
        #[trigger] has_field(v, key, Doc::Num(n)) ==> (n.bits matches Some(b) ==> f == Float(b))
    &&& lacks(v, key) ==> f == Float(0)
}

proof fn lemma_number_of(v: Doc, key: Seq<char>)
    ensures
        is_number_of(float_field(v, key), v, key),
{
    assert forall|n: Number| #[trigger] has_field(v, key, Doc::Num(n)) implies (n.bits matches Some(
        b,
    ) ==> float_field(v, key) == Float(b)) by {
        law_fields_are_read_by_name(v, key, Doc::Num(n));
    }
    if lacks(v, key) {
        law_missing_fields_are_not_read(v, key);
    }
}

/// Whether a name is the common one for what a value says under "symbol": four pairs in
/// dollars go by the name of the pair in the stablecoin, and every other name stays.
pub open spec fn is_symbol_of(s: Seq<char>, v: Doc) -> bool {
    &&& has_field(v, "symbol"@, Doc::Str("BTC/USD"@)) ==> s == "BTCUSDT"@
    &&& has_field(v, "symbol"@, Doc::Str("ETH/USD"@)) ==> s == "ETHUSDT"@
    &&& has_field(v, "symbol"@, Doc::Str("SOL/USD"@)) ==> s == "SOLUSDT"@
    &&& has_field(v, "symbol"@, Doc::Str("XRP/USD"@)) ==> s == "XRPUSDT"@
    &&& forall|t: Seq<char>|
        #[trigger] has_field(v, "symbol"@, Doc::Str(t)) && t != "BTC/USD"@ && t != "ETH/USD"@ && t
            != "SOL/USD"@ && t != "XRP/USD"@ ==> s == t
}

proof fn lemma_symbol_of(v: Doc)
    ensures
        is_symbol_of(symbol_of(v), v),
{
    assert forall|t: Seq<char>| #[trigger] has_field(v, "symbol"@, Doc::Str(t)) implies symbol_of(v)
        == common_symbol(t) by {
        law_fields_are_read_by_name(v, "symbol"@, Doc::Str(t));
    }
    reveal_strlit("BTC/USD");
    reveal_strlit("ETH/USD");
    reveal_strlit("SOL/USD");
    reveal_strlit("XRP/USD");
    assert("BTC/USD"@[0] == 'B');
    assert("ETH/USD"@[0] == 'E');
    assert("SOL/USD"@[0] == 'S');
    assert("XRP/USD"@[0] == 'X');
}

/// Whether a record is the one of an item of a channel: of a ticker its last price, volume,
/// high and low; of a trade its price, quantity and side, which is a purchase where it is
/// missing; of a book the price and quantity of the first bid and of the first ask; each in
/// its own place, with the common name of its symbol and the time of its arrival.
pub open spec fn is_record_of(channel: Channel, r: Record, v: Doc, now: u64) -> bool {
    match channel {
        Channel::Ticker => r matches Record::Price(p) && {
            &&& p.exchange@ == "kraken"@
            &&& is_symbol_of(p.symbol@, v)
            &&& is_number_of(p.price, v, "last"@)
            &&& is_number_of(p.volume, v, "volume"@)
            &&& is_number_of(p.high, v, "high"@)
            &&& is_number_of(p.low, v, "low"@)
            &&& p.timestamp == now
        },
        Channel::Trade => r matches Record::Trade(t) && {
            &&& t.exchange@ == "kraken"@
            &&& is_symbol_of(t.symbol@, v)
            &&& is_number_of(t.price, v, "price"@)
            &&& is_number_of(t.qty, v, "qty"@)
            &&& carries_name(t.side@, v, "side"@)
            &&& lacks(v, "side"@) ==> t.side@ == "buy"@
            &&& t.timestamp == now
        },
        Channel::Book => r matches Record::Top(t) && {
            &&& t.exchange@ == "kraken"@
            &&& is_symbol_of(t.symbol@, v)
            &&& forall|b: Seq<Doc>|
                #[trigger] has_field(v, "bids"@, Doc::Arr(b)) && b.len() > 0 ==> is_number_of(
                    t.bid,
                    b[0],
                    "price"@,
                ) && is_number_of(t.bid_qty, b[0], "qty"@)
            &&& forall|a: Seq<Doc>|
                #[trigger] has_field(v, "asks"@, Doc::Arr(a)) && a.len() > 0 ==> is_number_of(
                    t.ask,
                    a[0],
                    "price"@,
                ) && is_number_of(t.ask_qty, a[0], "qty"@)
            &&& t.timestamp == now
        },
    }
}

proof fn lemma_record_of(channel: Channel, r: Record, v: Doc, now: u64)
    requires
        item_record(channel, v, now) == Some(r@),
    ensures
        is_record_of(channel, r, v, now),
{
    lemma_symbol_of(v);
    match channel {
        Channel::Ticker => {
            lemma_number_of(v, "last"@);
            lemma_number_of(v, "volume"@);
            lemma_number_of(v, "high"@);
            lemma_number_of(v, "low"@);
        },
        Channel::Trade => {
            lemma_number_of(v, "price"@);
            lemma_number_of(v, "qty"@);
            assert forall|t: Seq<char>| #[trigger] has_field(v, "side"@, Doc::Str(t)) implies r@->Trade_0.side
                == t by {
                law_fields_are_read_by_name(v, "side"@, Doc::Str(t));
            }
            if lacks(v, "side"@) {
                law_missing_fields_are_not_read(v, "side"@);
            }
        },
        Channel::Book => {
            let t = r@->Top_0;
            assert forall|b: Seq<Doc>| #[trigger]
                has_field(v, "bids"@, Doc::Arr(b)) && b.len() > 0 implies is_number_of(
                t.numbers.0,
                b[0],
                "price"@,
            ) && is_number_of(t.numbers.2, b[0], "qty"@) by {
                law_fields_are_read_by_name(v, "bids"@, Doc::Arr(b));
                lemma_number_of(b[0], "price"@);
                lemma_number_of(b[0], "qty"@);
            }
            assert forall|a: Seq<Doc>| #[trigger]
                has_field(v, "asks"@, Doc::Arr(a)) && a.len() > 0 implies is_number_of(
                t.numbers.1,
                a[0],
                "price"@,
            ) && is_number_of(t.numbers.3, a[0], "qty"@) by {
                law_fields_are_read_by_name(v, "asks"@, Doc::Arr(a));
                lemma_number_of(a[0], "price"@);
                lemma_number_of(a[0], "qty"@);
            }
        },
    }
}

/// Whether an item of a channel has the numbers that a record needs: a ticker a price
/// above zero, a trade a price and a quantity above zero, a book a bid and an ask that are
/// not zero.
pub open spec fn is_usable(channel: Channel, v: Doc) -> bool {
    match channel {
        Channel::Ticker => exists|n: Number, b: u64|
            n.bits == Some(b) && is_positive(Float(b)) && #[trigger] has_number(v, "last"@, n, b),
        Channel::Trade => {
            &&& exists|n: Number, b: u64|
                n.bits == Some(b) && is_positive(Float(b)) && #[trigger] has_number(v, "price"@, n, b)
            &&& exists|n: Number, b: u64|
                n.bits == Some(b) && is_positive(Float(b)) && #[trigger] has_number(v, "qty"@, n, b)
        },
        Channel::Book => exists|bids: Seq<Doc>, asks: Seq<Doc>| #[trigger]
            has_prices(v, bids, asks),
    }
}

/// Whether a value has a number with these bits under a name.
pub open spec fn has_number(v: Doc, key: Seq<char>, n: Number, b: u64) -> bool {
    n.bits == Some(b) && has_field(v, key, Doc::Num(n))
}

/// Whether a value has entries on both sides, the first of which have prices that are not
/// zero.
pub open spec fn has_prices(v: Doc, bids: Seq<Doc>, asks: Seq<Doc>) -> bool {
    &&& has_field(v, "bids"@, Doc::Arr(bids))
    &&& has_field(v, "asks"@, Doc::Arr(asks))
    &&& bids.len() > 0
    &&& asks.len() > 0
    &&& exists|n: Number, b: u64| b != 0 && b != SIGN && #[trigger] has_number(bids[0], "price"@, n, b)
    &&& exists|n: Number, b: u64| b != 0 && b != SIGN && #[trigger] has_number(asks[0], "price"@, n, b)
}

proof fn lemma_usable(channel: Channel, v: Doc, now: u64)
    requires
        is_usable(channel, v),
    ensures
        item_record(channel, v, now) is Some,
{
    match channel {
        Channel::Ticker => {
            let (n, b) = choose|n: Number, b: u64|
                n.bits == Some(b) && is_positive(Float(b)) && #[trigger] has_number(v, "last"@, n, b);
            law_fields_are_read_by_name(v, "last"@, Doc::Num(n));
        },
        Channel::Trade => {
            let (n, b) = choose|n: Number, b: u64|
                n.bits == Some(b) && is_positive(Float(b)) && #[trigger] has_number(v, "price"@, n, b);
            let (m, c) = choose|n: Number, b: u64|
                n.bits == Some(b) && is_positive(Float(b)) && #[trigger] has_number(v, "qty"@, n, b);
            law_fields_are_read_by_name(v, "price"@, Doc::Num(n));
            law_fields_are_read_by_name(v, "qty"@, Doc::Num(m));
        },
        Channel::Book => {
            let (bids, asks) = choose|bids: Seq<Doc>, asks: Seq<Doc>| #[trigger]
                has_prices(v, bids, asks);
            law_fields_are_read_by_name(v, "bids"@, Doc::Arr(bids));
            law_fields_are_read_by_name(v, "asks"@, Doc::Arr(asks));
            let (n, b) = choose|n: Number, b: u64|
                b != 0 && b != SIGN && #[trigger] has_number(bids[0], "price"@, n, b);
            let (m, c) = choose|n: Number, b: u64|
                b != 0 && b != SIGN && #[trigger] has_number(asks[0], "price"@, n, b);
            law_fields_are_read_by_name(bids[0], "price"@, Doc::Num(n));
            law_fields_are_read_by_name(asks[0], "price"@, Doc::Num(m));
        },
    }
}

/// A message of a channel whose items all have the numbers that a record needs gives one
/// record for each of them, in order, each made of its own item.
pub proof fn law_items_become_records(
    channel: Channel,
    v: &Json,
    now: u64,
    r: Vec<Record>,
    items: Seq<Doc>,
)
    requires
        call_ensures(handle_channel, (channel, v, now), r),
        has_field(v@, "data"@, Doc::Arr(items)),
        forall|i: int| 0 <= i < items.len() ==> is_usable(channel, #[trigger] items[i]),
    ensures
        r@.len() == items.len(),
        forall|i: int|
            0 <= i < items.len() ==> is_record_of(channel, #[trigger] r@[i], items[i], now),
{
    law_fields_are_read_by_name(v@, "data"@, Doc::Arr(items));
    let read = |x: Doc| item_record(channel, x, now);
    assert forall|i: int| 0 <= i < items.len() implies read(#[trigger] items[i]) is Some by {
        lemma_usable(channel, items[i], now);
    }
    lemma_all_kept(items, read);
    assert(all_records(r@) == kept(items, read));
    assert(all_records(r@).len() == r@.len());
    assert forall|i: int| 0 <= i < items.len() implies is_record_of(
        channel,
        #[trigger] r@[i],
        items[i],
        now,
    ) by {
        assert(all_records(r@)[i] == r@[i]@);
        assert(read(items[i]) == Some(kept(items, read)[i]));
        lemma_record_of(channel, r@[i], items[i], now);
    }
}

/// An item without the numbers that a record needs gives none: a ticker without a price, a
/// trade without a price or a quantity, and a book with an empty side.
pub proof fn law_unusable_items_are_left_out(v: Doc, now: u64)
    ensures
        lacks(v, "last"@) ==> item_record(Channel::Ticker, v, now) is None,
        lacks(v, "price"@) || lacks(v, "qty"@) ==> item_record(Channel::Trade, v, now) is None,
        lacks(v, "bids"@) || lacks(v, "asks"@) || has_field(v, "bids"@, Doc::Arr(Seq::empty()))
            || has_field(v, "asks"@, Doc::Arr(Seq::empty())) ==> item_record(
            Channel::Book,
            v,
            now,
        ) is None,
{
    if lacks(v, "last"@) {
        law_missing_fields_are_not_read(v, "last"@);
    }
    if lacks(v, "price"@) {
        law_missing_fields_are_not_read(v, "price"@);
    }
    if lacks(v, "qty"@) {
        law_missing_fields_are_not_read(v, "qty"@);
    }
    if lacks(v, "bids"@) {
        law_missing_fields_are_not_read(v, "bids"@);
    }
    if lacks(v, "asks"@) {
        law_missing_fields_are_not_read(v, "asks"@);
    }
    if has_field(v, "bids"@, Doc::Arr(Seq::empty())) {
        law_fields_are_read_by_name(v, "bids"@, Doc::Arr(Seq::empty()));
    }
    if has_field(v, "asks"@, Doc::Arr(Seq::empty())) {
        law_fields_are_read_by_name(v, "asks"@, Doc::Arr(Seq::empty()));
    }
}

/// The channel of a message is the one of its name, and none for any other name.
pub proof fn law_channels_go_by_name(v: &Json, c: Option<Channel>, name: Seq<char>)
    requires
        call_ensures(read_channel, (v,), c),
        has_field(v@, "channel"@, Doc::Str(name)),
    ensures
        name == "ticker"@ ==> c == Some(Channel::Ticker),
        name == "trade"@ ==> c == Some(Channel::Trade),
        name == "book"@ ==> c == Some(Channel::Book),
        name != "ticker"@ && name != "trade"@ && name != "book"@ ==> c is None,
{
    lemma_channel_names();
    law_fields_are_read_by_name(v@, "channel"@, Doc::Str(name));
}

} // verus!
