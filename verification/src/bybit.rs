//! The collector for Bybit: prices, tops of book and trades share connections.

use crate::float::Float;
use crate::json::{
    bool_field, field, has_field, i64_field, items_field, lacks, law_fields_are_read_by_name,
    law_missing_fields_are_not_read, lemma_values, parse_simd, parsed_simd, push_quoted_list,
    quoted_list, str_field, str_item, u64_field, values_of, Doc, Json, Number,
};
use crate::market::{
    aggressor, aggressor_name, all_parts, carries, carries_name, carries_side, carries_time, kept,
    law_kept_goes_item_by_item, lemma_all_kept, lemma_carries, lemma_carries_name,
    lemma_carries_side, lemma_carries_time, lemma_kept_step, opt_string, or_empty, or_false,
    unwrap_or_empty, unwrap_or_false, Filter, OrderBookTop, Parts, PartsModel, TickerParts,
    TickerPartsModel, TopParts, TopPartsModel, TradeParts, TradePartsModel, RECONNECT_MAX_MS,
};
use crate::streams::{chunked, connections, next_wait, share_of, Backoff};
use crate::table::Table;
use crate::text::{
    begins_with, bytes_of, chars_of, copy_opt, copy_text, decimal, push_decimal, same_text,
    starts_with, text_of, texts,
};
use vstd::prelude::*;
use vstd::string::StringSliceAdditionalSpecFns;

verus! {

/// The exchange's name in what is published.
pub const EXCHANGE: &'static str = "bybit";

/// Where the streams are served.
pub const WS_URL: &'static str = "wss://stream.bybit.com/v5/public/spot";

/// Seconds between two pings.
pub const PING_INTERVAL_SECS: u64 = 20;

/// What is sent as a ping.
pub const PING: &'static str = "{\"op\":\"ping\"}";

/// What the topics of prices begin with.
pub const TICKERS: &'static str = "tickers.";

/// What the topics of tops of book begin with.
pub const BOOKS: &'static str = "orderbook.1.";

/// What the topics of trades begin with.
pub const TRADES: &'static str = "publicTrade.";

/// Tops of book and trades with a number at or below zero are dropped.
pub fn filter() -> (f: Filter)
    ensures
        f == Filter::AboveZero,
{
    Filter::AboveZero
}

/// The topics of some symbols: three to each.
pub open spec fn all_topics(symbols: Seq<Seq<char>>) -> Seq<Seq<char>>
    decreases symbols.len(),
{
    if symbols.len() == 0 {
        Seq::empty()
    } else {
        all_topics(symbols.drop_last()) + seq![
            TICKERS@ + symbols.last(),
            BOOKS@ + symbols.last(),
            TRADES@ + symbols.last(),
        ]
    }
}

proof fn lemma_three_topics(symbols: Seq<Seq<char>>)
    ensures
        all_topics(symbols).len() == 3 * symbols.len(),
    decreases symbols.len(),
{
    if symbols.len() > 0 {
        lemma_three_topics(symbols.drop_last());
    }
}

/// A topic.
fn topic(prefix: &str, symbol: &str) -> (s: String)
    ensures
        s@ == prefix@ + symbol@,
{
    let mut s = copy_text(prefix);
    s.append(symbol);
    s
}

/// The topics of some symbols.
pub fn build_topics(symbols: &[String]) -> (r: Vec<String>)
    ensures
        texts(r@) == all_topics(texts(symbols@)),
{
    let mut r: Vec<String> = Vec::new();
    let mut i: usize = 0;
    let ghost all = texts(symbols@);
    assert(texts(r@) =~= all_topics(all.take(0)));
    while i < symbols.len()
        invariant
            i <= symbols@.len(),
            all == texts(symbols@),
            texts(r@) == all_topics(all.take(i as int)),
        decreases symbols@.len() - i,
    {
        let ghost before = r@;
        let s = symbols[i].as_str();
        r.push(topic(TICKERS, s));
        r.push(topic(BOOKS, s));
        r.push(topic(TRADES, s));
        proof {
            assert(all.take(i + 1).drop_last() =~= all.take(i as int));
            assert(all.take(i + 1).last() == s@);
            assert(texts(r@) =~= texts(before) + seq![TICKERS@ + s@, BOOKS@ + s@, TRADES@ + s@]);
        }
        i += 1;
    }
    assert(all.take(i as int) =~= all);
    r
}

/// One connection.
#[derive(Debug)]
pub struct Plan {
    /// Its name in the log.
    pub label: String,
    /// The topics on it.
    pub topics: Vec<String>,
    /// How long it waits before its first attempt, in milliseconds.
    pub delay_ms: u64,
}

/// At least one topic goes on a connection.
pub open spec fn per_connection(max: usize) -> int {
    if max == 0 {
        1
    } else {
        max as int
    }
}

/// The connections: all topics in order, `max` to a connection, each starting a
/// little later than the one before.
pub fn plan(symbols: &[String], max: usize) -> (r: Vec<Plan>)
    requires
        symbols@.len() <= u64::MAX / 600,
    ensures
        r@.len() == connections(
            all_topics(texts(symbols@)).len() as int,
            per_connection(max),
        ),
        forall|k: int|
            #![trigger r@[k]]
            0 <= k < r@.len() ==> ({
                &&& r@[k].label@ == "conn"@ + decimal(k as nat)
                &&& texts(r@[k].topics@) == share_of(
                    all_topics(texts(symbols@)),
                    per_connection(max),
                    k,
                )
                &&& r@[k].delay_ms == 200 * k
            }),
{
    let per: usize = if max == 0 {
        1
    } else {
        max
    };
    let all = build_topics(symbols);
    let ghost want = all_topics(texts(symbols@));
    assert(texts(all@).len() == all@.len());
    proof {
        lemma_three_topics(texts(symbols@));
        assert(connections(want.len() as int, per as int) <= want.len()) by (nonlinear_arith)
            requires
                connections(want.len() as int, per as int) == (want.len() as int + per as int - 1)
                    / per as int,
                per >= 1,
        ;
    }
    let shares = chunked(all, per);
    let n: usize = shares.len();
    let mut r: Vec<Plan> = Vec::new();
    let mut k: u64 = 0;
    for mine in it: shares
        invariant
            it.seq() == shares@,
            r@.len() == it.index(),
            k == it.index(),
            shares@.len() == n,
            n <= want.len() <= u64::MAX / 200,
            forall|i: int|
                0 <= i < shares@.len() ==> texts((#[trigger] shares@[i])@) == share_of(
                    want,
                    per as int,
                    i,
                ),
            forall|i: int|
                #![trigger r@[i]]
                0 <= i < r@.len() ==> ({
                    &&& r@[i].label@ == "conn"@ + decimal(i as nat)
                    &&& texts(r@[i].topics@) == share_of(want, per as int, i)
                    &&& r@[i].delay_ms == 200 * i
                }),
    {
        let mut label = copy_text("conn");
        push_decimal(&mut label, k);
        assert(mine == shares@[it.index()]);
        r.push(Plan { label, topics: mine, delay_ms: 200 * k });
        k += 1;
    }
    r
}

/// The request that subscribes to some topics.
pub open spec fn subscription(topics: Seq<Seq<char>>) -> Seq<char> {
    "{\"args\":"@ + quoted_list(topics) + ",\"op\":\"subscribe\"}"@
}

/// The request that subscribes to some topics.
pub fn subscribe(topics: &[String]) -> (s: String)
    ensures
        s@ == subscription(texts(topics@)),
{
    let mut s = copy_text("{\"args\":");
    push_quoted_list(&mut s, topics);
    s.append(",\"op\":\"subscribe\"}");
    s
}

/// An optional text of a ticker: missing or null is none, a text is itself, and
/// anything else makes the ticker invalid.
pub open spec fn optional_text(v: Option<Doc>) -> Option<Option<Seq<char>>> {
    match v {
        None => Some(None),
        Some(Doc::Null) => Some(None),
        Some(Doc::Str(s)) => Some(Some(s)),
        Some(_) => None,
    }
}

/// The parts of a ticker with these fields: none unless the symbol is a text and
/// each of the others is a text, null or missing.
pub open spec fn ticker_fields(
    symbol: Option<Doc>,
    price: Option<Doc>,
    high: Option<Doc>,
    low: Option<Doc>,
    volume: Option<Doc>,
    ts: Option<u64>,
) -> Option<PartsModel> {
    match symbol {
        Some(Doc::Str(s)) => if optional_text(price) is Some && optional_text(high) is Some
            && optional_text(low) is Some && optional_text(volume) is Some {
            Some(
                PartsModel::Ticker(
                    TickerPartsModel {
                        symbol: s,
                        numbers: (
                            optional_text(price)->Some_0,
                            optional_text(volume)->Some_0,
                            optional_text(high)->Some_0,
                            optional_text(low)->Some_0,
                        ),
                        timestamp: ts,
                    },
                ),
            )
        } else {
            None
        },
        _ => None,
    }
}

/// The parts of a ticker, which is an object with the fields by name or a list of
/// all five in their order.
pub open spec fn ticker_parts(v: Doc, ts: Option<u64>) -> Option<PartsModel> {
    match v {
        Doc::Obj(_) => ticker_fields(
            field(v, "symbol"@),
            field(v, "lastPrice"@),
            field(v, "highPrice24h"@),
            field(v, "lowPrice24h"@),
            field(v, "volume24h"@),
            ts,
        ),
        Doc::Arr(items) => if items.len() == 5 {
            ticker_fields(
                Some(items[0]),
                Some(items[1]),
                Some(items[2]),
                Some(items[3]),
                Some(items[4]),
                ts,
            )
        } else {
            None
        },
        _ => None,
    }
}

/// The parts of the tickers of a message.
pub open spec fn tickers(v: Doc) -> Seq<PartsModel> {
    let ts = u64_field(v, "ts"@);
    match field(v, "data"@) {
        Some(Doc::Arr(items)) => kept(items, |x: Doc| ticker_parts(x, ts)),
        Some(Doc::Obj(fields)) => match ticker_parts(Doc::Obj(fields), ts) {
            Some(p) => seq![p],
            None => Seq::empty(),
        },
        _ => Seq::empty(),
    }
}

/// What an optional value says, with its kind.
spec fn seen(j: Option<&Json>) -> Option<Doc> {
    match j {
        Some(v) => Some(v@),
        None => None,
    }
}

/// Reads an optional text of a ticker.
fn read_optional(j: Option<&Json>) -> (r: Option<Option<String>>)
    ensures
        match r {
            Some(Some(s)) => optional_text(seen(j)) == Some(Some(s@)),
            Some(None) => optional_text(seen(j)) == Some(None::<Seq<char>>),
            None => optional_text(seen(j)) is None,
        },
{
    match j {
        None => Some(None),
        Some(v) => match v {
            Json::Null => Some(None),
            Json::Str(s) => Some(Some(copy_text(s.as_str()))),
            _ => None,
        },
    }
}

/// Reads the fields of a ticker.
fn read_fields(
    symbol: Option<&Json>,
    price: Option<&Json>,
    high: Option<&Json>,
    low: Option<&Json>,
    volume: Option<&Json>,
    ts: Option<u64>,
) -> (r: Option<TickerParts>)
    ensures
        match r {
            Some(p) => ticker_fields(
                seen(symbol),
                seen(price),
                seen(high),
                seen(low),
                seen(volume),
                ts,
            ) == Some(PartsModel::Ticker(p@)),
            None => ticker_fields(
                seen(symbol),
                seen(price),
                seen(high),
                seen(low),
                seen(volume),
                ts,
            ) is None,
        },
{
    let name = match symbol {
        Some(v) => match v {
            Json::Str(s) => copy_text(s.as_str()),
            _ => return None,
        },
        None => return None,
    };
    match (read_optional(price), read_optional(high), read_optional(low), read_optional(volume)) {
        (Some(price), Some(high), Some(low), Some(volume)) => Some(
            TickerParts { symbol: name, price, volume, high, low, timestamp: ts },
        ),
        _ => None,
    }
}

/// Reads a ticker.
pub fn read_ticker(v: &Json, ts: Option<u64>) -> (r: Option<TickerParts>)
    ensures
        match r {
            Some(p) => ticker_parts(v@, ts) == Some(PartsModel::Ticker(p@)),
            None => ticker_parts(v@, ts) is None,
        },
{
    match v {
        Json::Obj(_) => read_fields(
            v.get("symbol"),
            v.get("lastPrice"),
            v.get("highPrice24h"),
            v.get("lowPrice24h"),
            v.get("volume24h"),
            ts,
        ),
        Json::Arr(items) => {
            proof {
                lemma_values(items@);
            }
            if items.len() == 5 {
                read_fields(
                    Some(&items[0]),
                    Some(&items[1]),
                    Some(&items[2]),
                    Some(&items[3]),
                    Some(&items[4]),
                    ts,
                )
            } else {
                None
            }
        },
        _ => None,
    }
}

/// Takes the tickers of a message apart.
pub fn handle_ticker(v: &Json) -> (r: Vec<Parts>)
    ensures
        all_parts(r@) == tickers(v@),
{
    let ts: Option<u64> = v.get_u64("ts");
    let mut r: Vec<Parts> = Vec::new();
    match v.get("data") {
        Some(data) => match data {
            Json::Arr(items) => {
                let ghost docs = values_of(items@);
                let ghost read = |x: Doc| ticker_parts(x, ts);
                proof {
                    lemma_values(items@);
                    assert(all_parts(r@) =~= kept(docs.take(0), read));
                }
                let mut i: usize = 0;
                while i < items.len()
                    invariant
                        i <= items@.len(),
                        docs == values_of(items@),
                        docs.len() == items@.len(),
                        forall|k: int| 0 <= k < items@.len() ==> #[trigger] docs[k] == items@[k]@,
                        read == (|x: Doc| ticker_parts(x, ts)),
                        all_parts(r@) == kept(docs.take(i as int), read),
                    decreases items@.len() - i,
                {
                    let ghost before = r@;
                    proof {
                        lemma_kept_step(docs, read, i as int);
                        assert(docs[i as int] == items@[i as int]@);
                    }
                    match read_ticker(&items[i], ts) {
                        Some(p) => {
                            r.push(Parts::Ticker(p));
                            assert(all_parts(r@) =~= all_parts(before).push(
                                PartsModel::Ticker(p@),
                            ));
                        },
                        None => {},
                    }
                    i += 1;
                }
                assert(docs.take(i as int) =~= docs);
            },
            Json::Obj(_) => match read_ticker(data, ts) {
                Some(p) => {
                    r.push(Parts::Ticker(p));
                    assert(all_parts(r@) =~= seq![PartsModel::Ticker(p@)]);
                },
                None => {
                    assert(all_parts(r@) =~= Seq::empty());
                },
            },
            _ => {
                assert(all_parts(r@) =~= Seq::empty());
            },
        },
        None => {
            assert(all_parts(r@) =~= Seq::empty());
        },
    }
    r
}

/// A text without `prefix` at its front, however often it stands there.
pub open spec fn stripped(s: Seq<char>, prefix: Seq<char>) -> Seq<char>
    decreases s.len(),
{
    if prefix.len() > 0 && begins_with(s, prefix) {
        stripped(s.skip(prefix.len() as int), prefix)
    } else {
        s
    }
}

/// A text without `prefix` at its front, however often it stands there.
pub fn strip_front(s: &str, prefix: &str) -> (r: String)
    ensures
        r@ == stripped(s@, prefix@),
{
    let v: Vec<char> = chars_of(s);
    let p: Vec<char> = chars_of(prefix);
    let n: usize = v.len();
    let m: usize = p.len();
    let mut from: usize = 0;
    let mut more: bool = m > 0;
    assert(v@.skip(0) =~= v@);
    while more
        invariant
            v@ == s@,
            p@ == prefix@,
            n == v@.len(),
            m == p@.len(),
            from <= n,
            more ==> m > 0,
            stripped(v@.skip(from as int), p@) == stripped(s@, prefix@),
            !more ==> stripped(v@.skip(from as int), p@) == v@.skip(from as int),
        decreases n - from + (if more { 1int } else { 0 }),
    {
        let mut i: usize = 0;
        while i < m && i < n - from && v[from + i] == p[i]
            invariant
                n == v@.len(),
                m == p@.len(),
                from <= n,
                i <= m,
                i <= n - from,
                forall|k: int| 0 <= k < i ==> v@[from + k] == p@[k],
            decreases m - i,
        {
            i += 1;
        }
        let ghost rest = v@.skip(from as int);
        if i == m {
            assert(rest.take(m as int) =~= p@);
            assert(rest.skip(m as int) =~= v@.skip(from + m));
            from += m;
        } else {
            proof {
                if begins_with(rest, p@) {
                    assert(rest.take(m as int)[i as int] == p@[i as int]);
                }
            }
            more = false;
        }
    }
    let tail = vstd::slice::slice_subrange(v.as_slice(), from, n);
    assert(tail@ =~= v@.skip(from as int));
    text_of(tail)
}

/// The parts of a book message. Only the first entry of each side is read; none
/// without entries on both sides or without a symbol in the topic.
pub open spec fn orderbook_parts(v: Doc) -> Option<TopPartsModel> {
    match field(v, "data"@) {
        Some(d) => match (items_field(d, "b"@), items_field(d, "a"@)) {
            (Some(b), Some(a)) => {
                let symbol = stripped(or_empty(str_field(v, "topic"@)), BOOKS@);
                if b.len() == 0 || a.len() == 0 || symbol.len() == 0 {
                    None
                } else {
                    Some(
                        TopPartsModel {
                            symbol,
                            numbers: (
                                str_item(b[0], 0),
                                str_item(a[0], 0),
                                str_item(b[0], 1),
                                str_item(a[0], 1),
                            ),
                            timestamp: u64_field(v, "ts"@),
                        },
                    )
                }
            },
            _ => None,
        },
        None => None,
    }
}

/// Takes a book message apart.
pub fn handle_orderbook(v: &Json) -> (r: Option<TopParts>)
    ensures
        match r {
            Some(p) => orderbook_parts(v@) == Some(p@),
            None => orderbook_parts(v@) is None,
        },
{
    let data = match v.get("data") {
        Some(d) => d,
        None => return None,
    };
    match (data.get_array("b"), data.get_array("a")) {
        (Some(b), Some(a)) => {
            proof {
                lemma_values(b@);
                lemma_values(a@);
            }
            if b.len() == 0 || a.len() == 0 {
                return None;
            }
            assert(values_of(b@)[0] == b@[0]@);
            assert(values_of(a@)[0] == a@[0]@);
            let whole = unwrap_or_empty(v.get_str("topic"));
            let symbol = strip_front(whole.as_str(), BOOKS);
            if symbol.as_str().unicode_len() == 0 {
                return None;
            }
            Some(
                TopParts {
                    symbol,
                    bid: copy_opt(b[0].str_at(0)),
                    ask: copy_opt(a[0].str_at(0)),
                    bid_qty: copy_opt(b[0].str_at(1)),
                    ask_qty: copy_opt(a[0].str_at(1)),
                    timestamp: v.get_u64("ts"),
                },
            )
        },
        _ => None,
    }
}

/// The parts of one trade: none without a symbol.
pub open spec fn trade_parts(v: Doc) -> Option<PartsModel> {
    if or_empty(str_field(v, "s"@)).len() == 0 {
        None
    } else {
        Some(
            PartsModel::Trade(
                TradePartsModel {
                    symbol: or_empty(str_field(v, "s"@)),
                    numbers: (str_field(v, "p"@), str_field(v, "q"@)),
                    side: aggressor(or_false(bool_field(v, "m"@))),
                    timestamp: u64_field(v, "T"@),
                },
            ),
        )
    }
}

/// The parts of the trades of a message.
pub open spec fn trades(v: Doc) -> Seq<PartsModel> {
    match items_field(v, "data"@) {
        Some(items) => kept(items, |x: Doc| trade_parts(x)),
        None => Seq::empty(),
    }
}

/// Reads one trade.
fn read_trade(v: &Json) -> (r: Option<TradeParts>)
    ensures
        match r {
            Some(p) => trade_parts(v@) == Some(PartsModel::Trade(p@)),
            None => trade_parts(v@) is None,
        },
{
    let symbol = unwrap_or_empty(v.get_str("s"));
    if symbol.as_str().unicode_len() == 0 {
        return None;
    }
    Some(
        TradeParts {
            symbol,
            price: copy_opt(v.get_str("p")),
            qty: copy_opt(v.get_str("q")),
            side: aggressor_name(unwrap_or_false(v.get_bool("m"))),
            timestamp: v.get_u64("T"),
        },
    )
}

/// Takes the trades of a message apart.
pub fn handle_trade(v: &Json) -> (r: Vec<Parts>)
    ensures
        all_parts(r@) == trades(v@),
{
    let mut r: Vec<Parts> = Vec::new();
    match v.get_array("data") {
        Some(items) => {
            let ghost docs = values_of(items@);
            let ghost read = |x: Doc| trade_parts(x);
            proof {
                lemma_values(items@);
                assert(all_parts(r@) =~= kept(docs.take(0), read));
            }
            let mut i: usize = 0;
            while i < items.len()
                invariant
                    i <= items@.len(),
                    docs == values_of(items@),
                    docs.len() == items@.len(),
                    forall|k: int| 0 <= k < items@.len() ==> #[trigger] docs[k] == items@[k]@,
                    read == (|x: Doc| trade_parts(x)),
                    all_parts(r@) == kept(docs.take(i as int), read),
                decreases items@.len() - i,
            {
                let ghost before = r@;
                proof {
                    lemma_kept_step(docs, read, i as int);
                    assert(docs[i as int] == items@[i as int]@);
                }
                match read_trade(&items[i]) {
                    Some(p) => {
                        r.push(Parts::Trade(p));
                        assert(all_parts(r@) =~= all_parts(before).push(PartsModel::Trade(p@)));
                    },
                    None => {},
                }
                i += 1;
            }
            assert(docs.take(i as int) =~= docs);
        },
        None => {
            assert(all_parts(r@) =~= Seq::empty());
        },
    }
    r
}

/// What a text frame makes of a connection.
#[derive(Debug)]
pub enum Step {
    /// The exchange reported an error with this code: the connection is given up.
    Stop(i64),
    /// The connection goes on, with these messages.
    Go(Vec<Parts>),
}

/// What a text frame makes of a connection, in the abstract.
pub enum StepModel {
    /// The connection is given up.
    Stop(i64),
    /// The connection goes on.
    Go(Seq<PartsModel>),
}

impl View for Step {
    type V = StepModel;

    open spec fn view(&self) -> StepModel {
        match *self {
            Step::Stop(code) => StepModel::Stop(code),
            Step::Go(v) => StepModel::Go(all_parts(v@)),
        }
    }
}

/// What a message makes of a connection: an error code other than zero ends it, the
/// answer to a subscription says nothing, and otherwise the topic decides how it is
/// read.
pub open spec fn step_of(v: Doc) -> StepModel {
    let code = i64_field(v, "ret_code"@);
    if code is Some && code != Some(0i64) {
        StepModel::Stop(code->Some_0)
    } else if str_field(v, "op"@) == Some("subscribe"@) {
        StepModel::Go(Seq::empty())
    } else {
        match str_field(v, "topic"@) {
            Some(topic) => if begins_with(topic, TICKERS@) {
                StepModel::Go(tickers(v))
            } else if begins_with(topic, BOOKS@) {
                StepModel::Go(
                    match orderbook_parts(v) {
                        Some(p) => seq![PartsModel::Top(p)],
                        None => Seq::empty(),
                    },
                )
            } else if begins_with(topic, TRADES@) {
                StepModel::Go(trades(v))
            } else {
                StepModel::Go(Seq::empty())
            },
            None => StepModel::Go(Seq::empty()),
        }
    }
}

/// The connection goes on with nothing.
fn nothing() -> (s: Step)
    ensures
        s@ == StepModel::Go(Seq::empty()),
{
    let v: Vec<Parts> = Vec::new();
    assert(all_parts(v@) =~= Seq::empty());
    Step::Go(v)
}

/// Takes a message in.
pub fn handle_message(v: &Json) -> (s: Step)
    ensures
        s@ == step_of(v@),
{
    match v.get_i64("ret_code") {
        Some(code) => if code != 0 {
            return Step::Stop(code);
        },
        None => {},
    }
    match v.get_str("op") {
        Some(op) => if same_text(op, "subscribe") {
            return nothing();
        },
        None => {},
    }
    match v.get_str("topic") {
        Some(topic) => if starts_with(topic, TICKERS) {
            Step::Go(handle_ticker(v))
        } else if starts_with(topic, BOOKS) {
            match handle_orderbook(v) {
                Some(p) => {
                    let mut one: Vec<Parts> = Vec::new();
                    one.push(Parts::Top(p));
                    assert(all_parts(one@) =~= seq![PartsModel::Top(p@)]);
                    Step::Go(one)
                },
                None => nothing(),
            }
        } else if starts_with(topic, TRADES) {
            Step::Go(handle_trade(v))
        } else {
            nothing()
        },
        None => nothing(),
    }
}

/// Takes a text frame in; a frame that is no JSON says nothing.
pub fn handle_frame(text: &str) -> (s: Step)
    ensures
        s@ == (match parsed_simd(text.spec_bytes()) {
            Some(v) => step_of(v),
            None => StepModel::Go(Seq::empty()),
        }),
{
    match parse_simd(bytes_of(text)) {
        Some(v) => handle_message(&v),
        None => nothing(),
    }
}

/// The last top of book of each symbol on a connection.
pub fn remember(best: &mut Table<(Float, Float, Float, Float)>, top: &OrderBookTop)
    requires
        old(best).wf(),
    ensures
        final(best).wf(),
        final(best)@ == old(best)@.insert(top.symbol@, (top.bid, top.ask, top.bid_qty, top.ask_qty)),
{
    best.insert(
        copy_text(top.symbol.as_str()),
        (top.bid, top.ask, top.bid_qty, top.ask_qty),
    );
}

/// `rand::random`: any number.
#[verifier::external_body]
fn random() -> (r: u64) {
    rand::random::<u64>()
}

/// How many milliseconds to wait after a failure, given a random number: the wait
/// that is due, and up to a second more. The next wait is longer.
pub fn wait_with_jitter(backoff: &mut Backoff, random: u64) -> (ms: u64)
    requires
        old(backoff).wait() <= RECONNECT_MAX_MS,
    ensures
        ms == old(backoff).wait() + random % 1000,
        final(backoff).wait() == next_wait(old(backoff).wait()),
        final(backoff).wait() <= RECONNECT_MAX_MS,
{
    let ms: u64 = backoff.millis() + random % 1000;
    backoff.lengthen();
    ms
}

/// How many milliseconds to wait after a failure.
pub fn wait_after_failure(backoff: &mut Backoff) -> (ms: u64)
    requires
        old(backoff).wait() <= RECONNECT_MAX_MS,
    ensures
        old(backoff).wait() <= ms < old(backoff).wait() + 1000,
        final(backoff).wait() == next_wait(old(backoff).wait()),
        final(backoff).wait() <= RECONNECT_MAX_MS,
{
    wait_with_jitter(backoff, random())
}

proof fn lemma_topics_are_apart(rest: Seq<char>)
    ensures
        begins_with(TICKERS@ + rest, TICKERS@),
        begins_with(BOOKS@ + rest, BOOKS@),
        begins_with(TRADES@ + rest, TRADES@),
        !begins_with(BOOKS@ + rest, TICKERS@),
        !begins_with(TRADES@ + rest, TICKERS@),
        !begins_with(TRADES@ + rest, BOOKS@),
{
    reveal_strlit("tickers.");
    reveal_strlit("orderbook.1.");
    reveal_strlit("publicTrade.");
    assert((TICKERS@ + rest).take(TICKERS@.len() as int) =~= TICKERS@);
    assert((BOOKS@ + rest).take(BOOKS@.len() as int) =~= BOOKS@);
    assert((TRADES@ + rest).take(TRADES@.len() as int) =~= TRADES@);
    let b = BOOKS@ + rest;
    let t = TRADES@ + rest;
    if begins_with(b, TICKERS@) {
        assert(b.take(TICKERS@.len() as int)[0] == TICKERS@[0]);
    }
    if begins_with(t, TICKERS@) {
        assert(t.take(TICKERS@.len() as int)[0] == TICKERS@[0]);
    }
    if begins_with(t, BOOKS@) {
        assert(t.take(BOOKS@.len() as int)[0] == BOOKS@[0]);
    }
}

/// Whether the parts of a trade are those of a trade object: its symbol, the text under
/// "p" as the price and the text under "q" as the quantity, the side by "m" and the time
/// under "T".
pub open spec fn is_trade_of(p: TradeParts, d: Doc) -> bool {
    &&& carries_name(p.symbol@, d, "s"@)
    &&& carries(p.price, d, "p"@)
    &&& carries(p.qty, d, "q"@)
    &&& carries_side(p.side, d, "m"@)
    &&& carries_time(p.timestamp, d, "T"@)
}

proof fn lemma_trade_of(p: TradeParts, d: Doc)
    requires
        trade_parts(d) == Some(PartsModel::Trade(p@)),
    ensures
        is_trade_of(p, d),
{
    lemma_carries_name(p.symbol@, d, "s"@);
    lemma_carries(p.price, d, "p"@);
    lemma_carries(p.qty, d, "q"@);
    lemma_carries_side(p.side, d, "m"@);
    lemma_carries_time(p.timestamp, d, "T"@);
}

/// Whether a trade object has a symbol that is not empty.
pub open spec fn has_symbol(d: Doc) -> bool {
    exists|t: Seq<char>| t.len() > 0 && #[trigger] has_field(d, "s"@, Doc::Str(t))
}

/// A message with a topic of trades gives one trade for each object in its data, in order,
/// each with the price, the quantity, the side and the time of its object.
pub proof fn law_trades_are_read(v: &Json, s: Step, symbol: Seq<char>, items: Seq<Doc>)
    requires
        call_ensures(handle_message, (v,), s),
        is_data(v@),
        has_field(v@, "topic"@, Doc::Str("publicTrade."@ + symbol)),
        has_field(v@, "data"@, Doc::Arr(items)),
        forall|i: int| 0 <= i < items.len() ==> has_symbol(#[trigger] items[i]),
    ensures
        s matches Step::Go(parts) && parts@.len() == items.len() && forall|i: int|
            0 <= i < items.len() ==> (#[trigger] parts@[i] matches Parts::Trade(p) && is_trade_of(
                p,
                items[i],
            )),
{
    lemma_data(v@);
    law_fields_are_read_by_name(v@, "topic"@, Doc::Str("publicTrade."@ + symbol));
    law_fields_are_read_by_name(v@, "data"@, Doc::Arr(items));
    lemma_topics_are_apart(symbol);
    let read = |x: Doc| trade_parts(x);
    assert forall|i: int| 0 <= i < items.len() implies read(#[trigger] items[i]) is Some by {
        assert(has_symbol(items[i]));
        let t = choose|t: Seq<char>| t.len() > 0 && has_field(items[i], "s"@, Doc::Str(t));
        law_fields_are_read_by_name(items[i], "s"@, Doc::Str(t));
    }
    lemma_all_kept(items, read);
    if let Step::Go(parts) = s {
        assert(all_parts(parts@) == kept(items, read));
        assert(all_parts(parts@).len() == parts@.len());
        assert forall|i: int| 0 <= i < items.len() implies (#[trigger] parts@[i] matches Parts::Trade(
            p,
        ) && is_trade_of(p, items[i])) by {
            assert(all_parts(parts@)[i] == parts@[i]@);
            assert(read(items[i]) == Some(kept(items, read)[i]));
            if let Parts::Trade(p) = parts@[i] {
                lemma_trade_of(p, items[i]);
            }
        }
    }
}

/// A trade without a symbol is left out, and all others are kept in their order.
pub proof fn law_trades_without_a_symbol_are_left_out(a: Seq<Doc>, x: Doc, b: Seq<Doc>)
    requires
        lacks(x, "s"@) || has_field(x, "s"@, Doc::Str(Seq::empty())),
    ensures
        ({
            let read = |d: Doc| trade_parts(d);
            kept(a + seq![x] + b, read) == kept(a + b, read)
        }),
{
    let read = |d: Doc| trade_parts(d);
    if lacks(x, "s"@) {
        law_missing_fields_are_not_read(x, "s"@);
    } else {
        law_fields_are_read_by_name(x, "s"@, Doc::Str(Seq::empty()));
    }
    law_kept_goes_item_by_item(a, x, seq![x], read);
    law_kept_goes_item_by_item(a + seq![x], x, b, read);
    law_kept_goes_item_by_item(a, x, b, read);
    assert(kept(a, read) + Seq::<PartsModel>::empty() =~= kept(a, read));
}

/// Whether an optional text is the one under a name, where that is a text, null or missing.
pub open spec fn carries_or_null(s: Option<String>, v: Doc, key: Seq<char>) -> bool {
    &&& forall|t: Seq<char>|
        #[trigger] has_field(v, key, Doc::Str(t)) ==> (s matches Some(x) && x@ == t)
    &&& has_field(v, key, Doc::Null) || lacks(v, key) ==> s is None
}

proof fn lemma_carries_or_null(s: Option<String>, v: Doc, key: Seq<char>)
    requires
        optional_text(field(v, key)) is Some,
        opt_string(s) == optional_text(field(v, key))->Some_0,
    ensures
        carries_or_null(s, v, key),
{
    assert forall|t: Seq<char>| #[trigger] has_field(v, key, Doc::Str(t)) implies (s matches Some(x)
        && x@ == t) by {
        law_fields_are_read_by_name(v, key, Doc::Str(t));
    }
    if has_field(v, key, Doc::Null) {
        law_fields_are_read_by_name(v, key, Doc::Null);
    }
    if lacks(v, key) {
        law_missing_fields_are_not_read(v, key);
    }
}

/// A message with a topic of prices whose data is an object with a symbol gives at most one
/// price, and what it gives has the symbol, the last price, the volume, the high and the
/// low of that object, each in its own place, and the time of the message. It gives one
/// where each of the four is a text, null or missing.
pub proof fn law_price_is_read(
    v: &Json,
    s: Step,
    symbol: Seq<char>,
    data: Doc,
    name: Seq<char>,
)
    requires
        call_ensures(handle_message, (v,), s),
        is_data(v@),
        has_field(v@, "topic"@, Doc::Str("tickers."@ + symbol)),
        has_field(v@, "data"@, data),
        has_field(data, "symbol"@, Doc::Str(name)),
    ensures
        s matches Step::Go(parts) && parts@.len() <= 1 && {
            &&& parts@.len() == 1 ==> (parts@[0] matches Parts::Ticker(p) && {
                &&& p.symbol@ == name
                &&& carries_or_null(p.price, data, "lastPrice"@)
                &&& carries_or_null(p.volume, data, "volume24h"@)
                &&& carries_or_null(p.high, data, "highPrice24h"@)
                &&& carries_or_null(p.low, data, "lowPrice24h"@)
                &&& carries_time(p.timestamp, v@, "ts"@)
            })
            &&& is_text_or_null(data, "lastPrice"@) && is_text_or_null(data, "volume24h"@)
                && is_text_or_null(data, "highPrice24h"@) && is_text_or_null(data, "lowPrice24h"@)
                ==> parts@.len() == 1
        },
{
    lemma_data(v@);
    law_fields_are_read_by_name(v@, "topic"@, Doc::Str("tickers."@ + symbol));
    law_fields_are_read_by_name(v@, "data"@, data);
    law_fields_are_read_by_name(data, "symbol"@, Doc::Str(name));
    lemma_topics_are_apart(symbol);
    lemma_text_or_null(data, "lastPrice"@);
    lemma_text_or_null(data, "volume24h"@);
    lemma_text_or_null(data, "highPrice24h"@);
    lemma_text_or_null(data, "lowPrice24h"@);
    let i = choose|i: int| crate::json::has_field_at(data, "symbol"@, Doc::Str(name), i);
    assert(crate::json::has_field_at(data, "symbol"@, Doc::Str(name), i));
    assert(data is Obj);
    if let Step::Go(parts) = s {
        assert(all_parts(parts@) == tickers(v@));
        assert(all_parts(parts@).len() == parts@.len());
        if parts@.len() == 1 {
            assert(all_parts(parts@)[0] == parts@[0]@);
            if let Parts::Ticker(p) = parts@[0] {
                lemma_carries_or_null(p.price, data, "lastPrice"@);
                lemma_carries_or_null(p.volume, data, "volume24h"@);
                lemma_carries_or_null(p.high, data, "highPrice24h"@);
                lemma_carries_or_null(p.low, data, "lowPrice24h"@);
                lemma_carries_time(p.timestamp, v@, "ts"@);
            }
        }
    }
}

/// Whether the field of a name is a text, null or missing.
pub open spec fn is_text_or_null(v: Doc, key: Seq<char>) -> bool {
    ||| lacks(v, key)
    ||| has_field(v, key, Doc::Null)
    ||| exists|t: Seq<char>| #[trigger] has_field(v, key, Doc::Str(t))
}

proof fn lemma_text_or_null(v: Doc, key: Seq<char>)
    ensures
        is_text_or_null(v, key) ==> optional_text(field(v, key)) is Some,
{
    if lacks(v, key) {
        law_missing_fields_are_not_read(v, key);
    } else if has_field(v, key, Doc::Null) {
        law_fields_are_read_by_name(v, key, Doc::Null);
    } else if is_text_or_null(v, key) {
        let t = choose|t: Seq<char>| #[trigger] has_field(v, key, Doc::Str(t));
        law_fields_are_read_by_name(v, key, Doc::Str(t));
    }
}

/// A message with a topic of books and entries on both sides gives one top of book: the
/// symbol of the topic, the price and the quantity of the first bid as the bid, those of
/// the first ask as the ask, and the time of the message. Without an entry on some side
/// it gives none.
pub proof fn law_top_is_read(
    v: &Json,
    s: Step,
    symbol: Seq<char>,
    data: Doc,
    bids: Seq<Doc>,
    asks: Seq<Doc>,
)
    requires
        call_ensures(handle_message, (v,), s),
        is_data(v@),
        has_field(v@, "topic"@, Doc::Str("orderbook.1."@ + symbol)),
        symbol.len() > 0,
        !begins_with(symbol, "orderbook.1."@),
        has_field(v@, "data"@, data),
        has_field(data, "b"@, Doc::Arr(bids)),
        has_field(data, "a"@, Doc::Arr(asks)),
    ensures
        bids.len() == 0 || asks.len() == 0 ==> (s matches Step::Go(parts) && parts@.len() == 0),
        bids.len() > 0 && asks.len() > 0 ==> (s matches Step::Go(parts) && parts@.len() == 1
            && (parts@[0] matches Parts::Top(p) && {
            &&& p.symbol@ == symbol
            &&& bids[0] matches Doc::Arr(e) ==> entry_is(e, p.bid, p.bid_qty)
            &&& asks[0] matches Doc::Arr(e) ==> entry_is(e, p.ask, p.ask_qty)
            &&& carries_time(p.timestamp, v@, "ts"@)
        })),
{
    lemma_data(v@);
    law_fields_are_read_by_name(v@, "topic"@, Doc::Str("orderbook.1."@ + symbol));
    law_fields_are_read_by_name(v@, "data"@, data);
    law_fields_are_read_by_name(data, "b"@, Doc::Arr(bids));
    law_fields_are_read_by_name(data, "a"@, Doc::Arr(asks));
    lemma_topics_are_apart(symbol);
    let whole = "orderbook.1."@ + symbol;
    reveal_strlit("orderbook.1.");
    assert(whole.skip("orderbook.1."@.len() as int) =~= symbol);
    reveal_with_fuel(stripped, 3);
    assert(stripped(whole, BOOKS@) == symbol);
    if let Step::Go(parts) = s {
        assert(all_parts(parts@).len() == parts@.len());
        if parts@.len() == 1 {
            assert(all_parts(parts@)[0] == parts@[0]@);
            if let Parts::Top(p) = parts@[0] {
                lemma_carries_time(p.timestamp, v@, "ts"@);
            }
        }
    }
}

/// Whether two optional texts are the first and the second item of an entry, where these
/// are texts.
pub open spec fn entry_is(e: Seq<Doc>, px: Option<String>, qty: Option<String>) -> bool {
    &&& e.len() > 0 && e[0] is Str ==> (px matches Some(x) && x@ == e[0]->Str_0)
    &&& e.len() > 1 && e[1] is Str ==> (qty matches Some(x) && x@ == e[1]->Str_0)
}

/// A message with an error code ends the connection with that code, whatever else it
/// says. The answer to a subscription says nothing, and neither does a message without a
/// topic.
pub proof fn law_codes_and_answers(v: &Json, s: Step, n: Number, code: i64)
    requires
        call_ensures(handle_message, (v,), s),
    ensures
        has_field(v@, "ret_code"@, Doc::Num(n)) && n.signed == Some(code) && code != 0 ==> s
            == Step::Stop(code),
        lacks(v@, "ret_code"@) && has_field(v@, "op"@, Doc::Str("subscribe"@)) ==> (s matches Step::Go(
            parts,
        ) && parts@.len() == 0),
        lacks(v@, "ret_code"@) && lacks(v@, "topic"@) ==> (s matches Step::Go(parts) && parts@.len()
            == 0),
{
    if has_field(v@, "ret_code"@, Doc::Num(n)) {
        law_fields_are_read_by_name(v@, "ret_code"@, Doc::Num(n));
    }
    if lacks(v@, "ret_code"@) {
        law_missing_fields_are_not_read(v@, "ret_code"@);
    }
    if has_field(v@, "op"@, Doc::Str("subscribe"@)) {
        law_fields_are_read_by_name(v@, "op"@, Doc::Str("subscribe"@));
    }
    if lacks(v@, "topic"@) {
        law_missing_fields_are_not_read(v@, "topic"@);
    }
    if let Step::Go(parts) = s {
        assert(all_parts(parts@).len() == parts@.len());
    }
}

/// Each symbol has three topics, one after the other: prices, books and trades.
pub proof fn law_three_topics_to_a_symbol(symbols: Seq<Seq<char>>, i: int)
    requires
        0 <= i < symbols.len(),
    ensures
        all_topics(symbols).len() == 3 * symbols.len(),
        all_topics(symbols)[3 * i] == "tickers."@ + symbols[i],
        all_topics(symbols)[3 * i + 1] == "orderbook.1."@ + symbols[i],
        all_topics(symbols)[3 * i + 2] == "publicTrade."@ + symbols[i],
    decreases symbols.len(),
{
    lemma_three_topics(symbols);
    lemma_three_topics(symbols.drop_last());
    if i < symbols.len() - 1 {
        law_three_topics_to_a_symbol(symbols.drop_last(), i);
    }
}

/// Whether a message neither reports an error nor answers a subscription.
pub open spec fn is_data(v: Doc) -> bool {
    &&& lacks(v, "ret_code"@) || exists|n: Number|
        n.signed == Some(0i64) && #[trigger] has_field(v, "ret_code"@, Doc::Num(n))
    &&& lacks(v, "op"@) || exists|t: Seq<char>|
        t != "subscribe"@ && #[trigger] has_field(v, "op"@, Doc::Str(t))
}

proof fn lemma_data(v: Doc)
    requires
        is_data(v),
    ensures
        i64_field(v, "ret_code"@) is None || i64_field(v, "ret_code"@) == Some(0i64),
        str_field(v, "op"@) != Some("subscribe"@),
{
    if lacks(v, "ret_code"@) {
        law_missing_fields_are_not_read(v, "ret_code"@);
    } else {
        let n = choose|n: Number|
            n.signed == Some(0i64) && #[trigger] has_field(v, "ret_code"@, Doc::Num(n));
        law_fields_are_read_by_name(v, "ret_code"@, Doc::Num(n));
    }
    if lacks(v, "op"@) {
        law_missing_fields_are_not_read(v, "op"@);
    } else {
        let t = choose|t: Seq<char>|
            t != "subscribe"@ && #[trigger] has_field(v, "op"@, Doc::Str(t));
        law_fields_are_read_by_name(v, "op"@, Doc::Str(t));
    }
}

/// Whether the parts of a price are those of a ticker object.
pub open spec fn is_price_of(p: TickerParts, d: Doc) -> bool {
    &&& carries_name(p.symbol@, d, "symbol"@)
    &&& carries_or_null(p.price, d, "lastPrice"@)
    &&& carries_or_null(p.volume, d, "volume24h"@)
    &&& carries_or_null(p.high, d, "highPrice24h"@)
    &&& carries_or_null(p.low, d, "lowPrice24h"@)
}

/// Whether a ticker object has a symbol, and nothing else than texts and nulls as its
/// numbers.
pub open spec fn is_ticker(d: Doc) -> bool {
    &&& d is Obj
    &&& exists|t: Seq<char>| #[trigger] has_field(d, "symbol"@, Doc::Str(t))
    &&& is_text_or_null(d, "lastPrice"@)
    &&& is_text_or_null(d, "volume24h"@)
    &&& is_text_or_null(d, "highPrice24h"@)
    &&& is_text_or_null(d, "lowPrice24h"@)
}

proof fn lemma_price_of(p: TickerParts, d: Doc, ts: Option<u64>)
    requires
        is_ticker(d),
        ticker_parts(d, ts) == Some(PartsModel::Ticker(p@)),
    ensures
        is_price_of(p, d),
        p.timestamp == ts,
{
    let t = choose|t: Seq<char>| #[trigger] has_field(d, "symbol"@, Doc::Str(t));
    law_fields_are_read_by_name(d, "symbol"@, Doc::Str(t));
    assert(p.symbol@ == or_empty(str_field(d, "symbol"@)));
    lemma_carries_name(p.symbol@, d, "symbol"@);
    lemma_carries_or_null(p.price, d, "lastPrice"@);
    lemma_carries_or_null(p.volume, d, "volume24h"@);
    lemma_carries_or_null(p.high, d, "highPrice24h"@);
    lemma_carries_or_null(p.low, d, "lowPrice24h"@);
}

/// A message with a topic of prices whose data is a list of tickers gives one price for each
/// of them, in order, each with the numbers of its own object and the time of the message.
pub proof fn law_listed_prices_are_read(v: &Json, s: Step, symbol: Seq<char>, items: Seq<Doc>)
    requires
        call_ensures(handle_message, (v,), s),
        is_data(v@),
        has_field(v@, "topic"@, Doc::Str("tickers."@ + symbol)),
        has_field(v@, "data"@, Doc::Arr(items)),
        forall|i: int| 0 <= i < items.len() ==> is_ticker(#[trigger] items[i]),
    ensures
        s matches Step::Go(parts) && parts@.len() == items.len() && forall|i: int|
            0 <= i < items.len() ==> (#[trigger] parts@[i] matches Parts::Ticker(p) && is_price_of(
                p,
                items[i],
            ) && carries_time(p.timestamp, v@, "ts"@)),
{
    lemma_data(v@);
    law_fields_are_read_by_name(v@, "topic"@, Doc::Str("tickers."@ + symbol));
    law_fields_are_read_by_name(v@, "data"@, Doc::Arr(items));
    lemma_topics_are_apart(symbol);
    let ts = u64_field(v@, "ts"@);
    lemma_carries_time(ts, v@, "ts"@);
    let read = |x: Doc| ticker_parts(x, ts);
    assert forall|i: int| 0 <= i < items.len() implies read(#[trigger] items[i]) is Some by {
        let d = items[i];
        assert(is_ticker(d));
        let t = choose|t: Seq<char>| #[trigger] has_field(d, "symbol"@, Doc::Str(t));
        law_fields_are_read_by_name(d, "symbol"@, Doc::Str(t));
        lemma_text_or_null(d, "lastPrice"@);
        lemma_text_or_null(d, "volume24h"@);
        lemma_text_or_null(d, "highPrice24h"@);
        lemma_text_or_null(d, "lowPrice24h"@);
    }
    lemma_all_kept(items, read);
    if let Step::Go(parts) = s {
        assert(all_parts(parts@) == kept(items, read));
        assert(all_parts(parts@).len() == parts@.len());
        assert forall|i: int| 0 <= i < items.len() implies (#[trigger] parts@[i] matches Parts::Ticker(
            p,
        ) && is_price_of(p, items[i]) && carries_time(p.timestamp, v@, "ts"@)) by {
            assert(all_parts(parts@)[i] == parts@[i]@);
            assert(read(items[i]) == Some(kept(items, read)[i]));
            assert(is_ticker(items[i]));
            if let Parts::Ticker(p) = parts@[i] {
                lemma_price_of(p, items[i], ts);
            }
        }
    }
}

/// A connection takes as many topics as it may, and at least one.
pub proof fn law_connections_take_a_topic_at_least(max: usize)
    ensures
        max > 0 ==> per_connection(max) == max,
        per_connection(0) == 1,
{
}

} // verus!
