//! What the collectors publish, whatever exchange it comes from: prices, tops of
//! book and trades; the batches they leave in; and the streams they go to.
//!
//! A message is first taken apart into texts (`..Parts`). The caller reads the
//! numbers in those texts, and a second step turns parts and numbers into a record,
//! or drops them where the exchange's filter says so.

use crate::float::{
    at_most_zero, is_nan, is_positive, is_zero, or_zero, unwrap_or_zero, Float, SIGN,
};
use crate::json::{
    bool_field, has_field, lacks, law_fields_are_read_by_name, law_missing_fields_are_not_read,
    str_field, u64_field, Doc, Number,
};
use crate::text::copy_text;
use vstd::prelude::*;

verus! {

/// How many payloads a collector gathers before it sends them.
pub const BATCH_FLUSH: usize = 100;

/// How long a stream is allowed to get, more or less.
pub const MAXLEN: u64 = 10_000;

/// The wait before the first attempt to connect again, in milliseconds.
pub const RECONNECT_BASE_MS: u64 = 500;

/// The longest wait before an attempt to connect again, in milliseconds.
pub const RECONNECT_MAX_MS: u64 = 60_000;

/// A price with the day's volume and range.
#[derive(Debug)]
pub struct NormalizedData {
    /// The exchange.
    pub exchange: String,
    /// The symbol, as the exchange writes it or in its common form.
    pub symbol: String,
    /// The last price.
    pub price: Float,
    /// The volume.
    pub volume: Float,
    /// The highest price.
    pub high: Float,
    /// The lowest price.
    pub low: Float,
    /// Milliseconds since the epoch.
    pub timestamp: u64,
}

/// The best bid and ask.
#[derive(Debug)]
pub struct OrderBookTop {
    /// The exchange.
    pub exchange: String,
    /// The symbol.
    pub symbol: String,
    /// The best bid.
    pub bid: Float,
    /// The best ask.
    pub ask: Float,
    /// The quantity at the best bid.
    pub bid_qty: Float,
    /// The quantity at the best ask.
    pub ask_qty: Float,
    /// Milliseconds since the epoch.
    pub timestamp: u64,
}

/// A trade.
#[derive(Debug)]
pub struct TradeEvent {
    /// The exchange.
    pub exchange: String,
    /// The symbol.
    pub symbol: String,
    /// The price.
    pub price: Float,
    /// The quantity.
    pub qty: Float,
    /// The side that was the aggressor.
    pub side: String,
    /// Milliseconds since the epoch.
    pub timestamp: u64,
}

/// What a price record says.
pub struct PriceModel {
    /// The exchange.
    pub exchange: Seq<char>,
    /// The symbol.
    pub symbol: Seq<char>,
    /// Price, volume, high and low.
    pub numbers: (Float, Float, Float, Float),
    /// Milliseconds since the epoch.
    pub timestamp: u64,
}

/// What a top of book says.
pub struct TopModel {
    /// The exchange.
    pub exchange: Seq<char>,
    /// The symbol.
    pub symbol: Seq<char>,
    /// Bid, ask and their quantities.
    pub numbers: (Float, Float, Float, Float),
    /// Milliseconds since the epoch.
    pub timestamp: u64,
}

/// What a trade says.
pub struct TradeModel {
    /// The exchange.
    pub exchange: Seq<char>,
    /// The symbol.
    pub symbol: Seq<char>,
    /// Price and quantity.
    pub numbers: (Float, Float),
    /// The aggressor.
    pub side: Seq<char>,
    /// Milliseconds since the epoch.
    pub timestamp: u64,
}

impl View for NormalizedData {
    type V = PriceModel;

    open spec fn view(&self) -> PriceModel {
        PriceModel {
            exchange: self.exchange@,
            symbol: self.symbol@,
            numbers: (self.price, self.volume, self.high, self.low),
            timestamp: self.timestamp,
        }
    }
}

impl View for OrderBookTop {
    type V = TopModel;

    open spec fn view(&self) -> TopModel {
        TopModel {
            exchange: self.exchange@,
            symbol: self.symbol@,
            numbers: (self.bid, self.ask, self.bid_qty, self.ask_qty),
            timestamp: self.timestamp,
        }
    }
}

impl View for TradeEvent {
    type V = TradeModel;

    open spec fn view(&self) -> TradeModel {
        TradeModel {
            exchange: self.exchange@,
            symbol: self.symbol@,
            numbers: (self.price, self.qty),
            side: self.side@,
            timestamp: self.timestamp,
        }
    }
}

/// A price message taken apart: a symbol, the texts of its numbers where it has
/// them, and its time where it has one.
#[derive(Debug)]
pub struct TickerParts {
    /// The symbol.
    pub symbol: String,
    /// The last price.
    pub price: Option<String>,
    /// The volume.
    pub volume: Option<String>,
    /// The highest price.
    pub high: Option<String>,
    /// The lowest price.
    pub low: Option<String>,
    /// Milliseconds since the epoch.
    pub timestamp: Option<u64>,
}

/// A book message taken apart.
#[derive(Debug)]
pub struct TopParts {
    /// The symbol.
    pub symbol: String,
    /// The best bid.
    pub bid: Option<String>,
    /// The best ask.
    pub ask: Option<String>,
    /// The quantity at the best bid.
    pub bid_qty: Option<String>,
    /// The quantity at the best ask.
    pub ask_qty: Option<String>,
    /// Milliseconds since the epoch.
    pub timestamp: Option<u64>,
}

/// A trade message taken apart.
#[derive(Debug)]
pub struct TradeParts {
    /// The symbol.
    pub symbol: String,
    /// The price.
    pub price: Option<String>,
    /// The quantity.
    pub qty: Option<String>,
    /// The aggressor.
    pub side: String,
    /// Milliseconds since the epoch.
    pub timestamp: Option<u64>,
}

/// What an optional text says.
pub open spec fn opt_string(s: Option<String>) -> Option<Seq<char>> {
    match s {
        Some(t) => Some(t@),
        None => None,
    }
}

/// What the parts of a price message say.
pub struct TickerPartsModel {
    /// The symbol.
    pub symbol: Seq<char>,
    /// The texts of price, volume, high and low.
    pub numbers: (Option<Seq<char>>, Option<Seq<char>>, Option<Seq<char>>, Option<Seq<char>>),
    /// Milliseconds since the epoch.
    pub timestamp: Option<u64>,
}

/// What the parts of a book message say.
pub struct TopPartsModel {
    /// The symbol.
    pub symbol: Seq<char>,
    /// The texts of bid, ask and their quantities.
    pub numbers: (Option<Seq<char>>, Option<Seq<char>>, Option<Seq<char>>, Option<Seq<char>>),
    /// Milliseconds since the epoch.
    pub timestamp: Option<u64>,
}

/// What the parts of a trade message say.
pub struct TradePartsModel {
    /// The symbol.
    pub symbol: Seq<char>,
    /// The texts of price and quantity.
    pub numbers: (Option<Seq<char>>, Option<Seq<char>>),
    /// The aggressor.
    pub side: Seq<char>,
    /// Milliseconds since the epoch.
    pub timestamp: Option<u64>,
}

impl View for TickerParts {
    type V = TickerPartsModel;

    open spec fn view(&self) -> TickerPartsModel {
        TickerPartsModel {
            symbol: self.symbol@,
            numbers: (
                opt_string(self.price),
                opt_string(self.volume),
                opt_string(self.high),
                opt_string(self.low),
            ),
            timestamp: self.timestamp,
        }
    }
}

impl View for TopParts {
    type V = TopPartsModel;

    open spec fn view(&self) -> TopPartsModel {
        TopPartsModel {
            symbol: self.symbol@,
            numbers: (
                opt_string(self.bid),
                opt_string(self.ask),
                opt_string(self.bid_qty),
                opt_string(self.ask_qty),
            ),
            timestamp: self.timestamp,
        }
    }
}

impl View for TradeParts {
    type V = TradePartsModel;

    open spec fn view(&self) -> TradePartsModel {
        TradePartsModel {
            symbol: self.symbol@,
            numbers: (opt_string(self.price), opt_string(self.qty)),
            side: self.side@,
            timestamp: self.timestamp,
        }
    }
}

/// A message taken apart, of whatever kind.
#[derive(Debug)]
pub enum Parts {
    /// A price.
    Ticker(TickerParts),
    /// A top of book.
    Top(TopParts),
    /// A trade.
    Trade(TradeParts),
}

/// What a message taken apart says.
pub enum PartsModel {
    /// A price.
    Ticker(TickerPartsModel),
    /// A top of book.
    Top(TopPartsModel),
    /// A trade.
    Trade(TradePartsModel),
}

impl View for Parts {
    type V = PartsModel;

    open spec fn view(&self) -> PartsModel {
        match *self {
            Parts::Ticker(p) => PartsModel::Ticker(p@),
            Parts::Top(p) => PartsModel::Top(p@),
            Parts::Trade(p) => PartsModel::Trade(p@),
        }
    }
}

/// What an optional message taken apart says.
pub open spec fn opt_parts(p: Option<Parts>) -> Option<PartsModel> {
    match p {
        Some(x) => Some(x@),
        None => None,
    }
}

/// What some messages taken apart say.
pub open spec fn all_parts(v: Seq<Parts>) -> Seq<PartsModel> {
    v.map_values(|p: Parts| p@)
}

/// What the items of a list say that say something, in order.
pub open spec fn kept<M>(items: Seq<Doc>, read: spec_fn(Doc) -> Option<M>) -> Seq<M>
    decreases items.len(),
{
    if items.len() == 0 {
        Seq::empty()
    } else {
        let before = kept(items.drop_last(), read);
        match read(items.last()) {
            Some(p) => before.push(p),
            None => before,
        }
    }
}

/// One more item adds what it says.
pub proof fn lemma_kept_step<M>(items: Seq<Doc>, read: spec_fn(Doc) -> Option<M>, i: int)
    requires
        0 <= i < items.len(),
    ensures
        kept(items.take(i + 1), read) == (match read(items[i]) {
            Some(p) => kept(items.take(i), read).push(p),
            None => kept(items.take(i), read),
        }),
{
    assert(items.take(i + 1).drop_last() =~= items.take(i));
    assert(items.take(i + 1).last() == items[i]);
}

/// The text, or an empty one where there is none.
pub open spec fn or_empty(s: Option<Seq<char>>) -> Seq<char> {
    match s {
        Some(t) => t,
        None => Seq::empty(),
    }
}

/// The text, or an empty one where there is none.
pub fn unwrap_or_empty(s: Option<&str>) -> (r: String)
    ensures
        r@ == or_empty(
            match s {
                Some(t) => Some(t@),
                None => None,
            },
        ),
{
    match s {
        Some(t) => copy_text(t),
        None => String::new(),
    }
}

/// The truth value, or false where there is none.
pub open spec fn or_false(b: Option<bool>) -> bool {
    b == Some(true)
}

/// The truth value, or false where there is none.
pub fn unwrap_or_false(b: Option<bool>) -> (r: bool)
    ensures
        r == or_false(b),
{
    match b {
        Some(x) => x,
        None => false,
    }
}

/// Which pairs of numbers an exchange's records are dropped for.
#[derive(Clone, Copy, PartialEq, Eq, Structural, Debug)]
pub enum Filter {
    /// None is dropped.
    Any,
    /// A pair with a number that is zero or below is dropped.
    AboveZero,
    /// A pair with a zero is dropped.
    NotZero,
}

/// Whether a filter lets a pair of numbers through.
pub open spec fn admits(filter: Filter, a: Float, b: Float) -> bool {
    match filter {
        Filter::Any => true,
        Filter::AboveZero => !at_most_zero(a) && !at_most_zero(b),
        Filter::NotZero => !is_zero(a) && !is_zero(b),
    }
}

impl Filter {
    /// Whether the filter lets a pair of numbers through.
    pub fn passes(&self, a: Float, b: Float) -> (r: bool)
        ensures
            r == admits(*self, a, b),
    {
        match self {
            Filter::Any => true,
            Filter::AboveZero => !a.not_above_zero() && !b.not_above_zero(),
            Filter::NotZero => !a.zero_or_minus_zero() && !b.zero_or_minus_zero(),
        }
    }
}

/// The time of a message, or now where it has none.
pub open spec fn time_or(t: Option<u64>, now: u64) -> u64 {
    match t {
        Some(x) => x,
        None => now,
    }
}

/// The time of a message, or now where it has none.
fn unwrap_time(t: Option<u64>, now: u64) -> (r: u64)
    ensures
        r == time_or(t, now),
{
    match t {
        Some(x) => x,
        None => now,
    }
}

/// The price record of a message, given the numbers read from its texts.
pub open spec fn price_of(
    exchange: Seq<char>,
    parts: TickerPartsModel,
    read: (Option<Float>, Option<Float>, Option<Float>, Option<Float>),
    now: u64,
) -> PriceModel {
    PriceModel {
        exchange,
        symbol: parts.symbol,
        numbers: (or_zero(read.0), or_zero(read.1), or_zero(read.2), or_zero(read.3)),
        timestamp: time_or(parts.timestamp, now),
    }
}

/// The top of book of a message, given the numbers read from its texts.
pub open spec fn top_of(
    exchange: Seq<char>,
    filter: Filter,
    parts: TopPartsModel,
    read: (Option<Float>, Option<Float>, Option<Float>, Option<Float>),
    now: u64,
) -> Option<TopModel> {
    if admits(filter, or_zero(read.0), or_zero(read.1)) {
        Some(
            TopModel {
                exchange,
                symbol: parts.symbol,
                numbers: (or_zero(read.0), or_zero(read.1), or_zero(read.2), or_zero(read.3)),
                timestamp: time_or(parts.timestamp, now),
            },
        )
    } else {
        None
    }
}

/// The trade of a message, given the numbers read from its texts.
pub open spec fn trade_of(
    exchange: Seq<char>,
    filter: Filter,
    parts: TradePartsModel,
    read: (Option<Float>, Option<Float>),
    now: u64,
) -> Option<TradeModel> {
    if admits(filter, or_zero(read.0), or_zero(read.1)) {
        Some(
            TradeModel {
                exchange,
                symbol: parts.symbol,
                numbers: (or_zero(read.0), or_zero(read.1)),
                side: parts.side,
                timestamp: time_or(parts.timestamp, now),
            },
        )
    } else {
        None
    }
}

/// What an optional top of book says.
pub open spec fn opt_top(t: Option<OrderBookTop>) -> Option<TopModel> {
    match t {
        Some(x) => Some(x@),
        None => None,
    }
}

/// What an optional trade says.
pub open spec fn opt_trade(t: Option<TradeEvent>) -> Option<TradeModel> {
    match t {
        Some(x) => Some(x@),
        None => None,
    }
}

impl TickerParts {
    /// The record, given the numbers read from the four texts. A number that could
    /// not be read is zero.
    pub fn settle(
        self,
        exchange: &str,
        read: (Option<Float>, Option<Float>, Option<Float>, Option<Float>),
        now: u64,
    ) -> (r: NormalizedData)
        ensures
            r@ == price_of(exchange@, self@, read, now),
    {
        NormalizedData {
            exchange: copy_text(exchange),
            symbol: self.symbol,
            price: unwrap_or_zero(read.0),
            volume: unwrap_or_zero(read.1),
            high: unwrap_or_zero(read.2),
            low: unwrap_or_zero(read.3),
            timestamp: unwrap_time(self.timestamp, now),
        }
    }
}

impl TopParts {
    /// The record, given the numbers read from the four texts, or none where the
    /// filter drops it.
    pub fn settle(
        self,
        exchange: &str,
        filter: Filter,
        read: (Option<Float>, Option<Float>, Option<Float>, Option<Float>),
        now: u64,
    ) -> (r: Option<OrderBookTop>)
        ensures
            opt_top(r) == top_of(exchange@, filter, self@, read, now),
    {
        let bid = unwrap_or_zero(read.0);
        let ask = unwrap_or_zero(read.1);
        if !filter.passes(bid, ask) {
            return None;
        }
        Some(
            OrderBookTop {
                exchange: copy_text(exchange),
                symbol: self.symbol,
                bid,
                ask,
                bid_qty: unwrap_or_zero(read.2),
                ask_qty: unwrap_or_zero(read.3),
                timestamp: unwrap_time(self.timestamp, now),
            },
        )
    }
}

impl TradeParts {
    /// The record, given the numbers read from the two texts, or none where the
    /// filter drops it.
    pub fn settle(
        self,
        exchange: &str,
        filter: Filter,
        read: (Option<Float>, Option<Float>),
        now: u64,
    ) -> (r: Option<TradeEvent>)
        ensures
            opt_trade(r) == trade_of(exchange@, filter, self@, read, now),
    {
        let price = unwrap_or_zero(read.0);
        let qty = unwrap_or_zero(read.1);
        if !filter.passes(price, qty) {
            return None;
        }
        Some(
            TradeEvent {
                exchange: copy_text(exchange),
                symbol: self.symbol,
                price,
                qty,
                side: self.side,
                timestamp: unwrap_time(self.timestamp, now),
            },
        )
    }
}

/// The name of the aggressor, given whether the buyer was the resting side.
pub open spec fn aggressor(buyer_rests: bool) -> Seq<char> {
    if buyer_rests {
        "sell"@
    } else {
        "buy"@
    }
}

/// The name of the aggressor, given whether the buyer was the resting side.
pub fn aggressor_name(buyer_rests: bool) -> (s: String)
    ensures
        s@ == aggressor(buyer_rests),
{
    if buyer_rests {
        copy_text("sell")
    } else {
        copy_text("buy")
    }
}

/// A record, of whatever kind.
#[derive(Debug)]
pub enum Record {
    /// A price.
    Price(NormalizedData),
    /// A top of book.
    Top(OrderBookTop),
    /// A trade.
    Trade(TradeEvent),
}

/// What a record says.
pub enum RecordModel {
    /// A price.
    Price(PriceModel),
    /// A top of book.
    Top(TopModel),
    /// A trade.
    Trade(TradeModel),
}

impl View for Record {
    type V = RecordModel;

    open spec fn view(&self) -> RecordModel {
        match *self {
            Record::Price(r) => RecordModel::Price(r@),
            Record::Top(r) => RecordModel::Top(r@),
            Record::Trade(r) => RecordModel::Trade(r@),
        }
    }
}

/// What some records say.
pub open spec fn all_records(v: Seq<Record>) -> Seq<RecordModel> {
    v.map_values(|r: Record| r@)
}

/// Payloads that wait to be sent together.
#[derive(Debug)]
pub struct Batch<T> {
    items: Vec<T>,
    limit: usize,
}

/// Some batches, one after the other.
pub open spec fn chained<T>(batches: Seq<Vec<T>>) -> Seq<T>
    decreases batches.len(),
{
    if batches.len() == 0 {
        Seq::empty()
    } else {
        chained(batches.drop_last()) + batches.last()@
    }
}

impl<T> Batch<T> {
    /// The payloads that wait, oldest first.
    pub closed spec fn waiting(self) -> Seq<T> {
        self.items@
    }

    /// How many payloads make the batch due.
    pub closed spec fn due_at(self) -> nat {
        self.limit as nat
    }

    /// An empty batch that is due at `limit` payloads.
    pub fn new(limit: usize) -> (b: Self)
        ensures
            b.waiting() == Seq::<T>::empty(),
            b.due_at() == limit,
    {
        Batch { items: Vec::new(), limit }
    }

    /// Adds a payload.
    pub fn push(&mut self, payload: T)
        ensures
            final(self).waiting() == old(self).waiting().push(payload),
            final(self).due_at() == old(self).due_at(),
    {
        self.items.push(payload);
    }

    /// Hands all payloads out, in order, when there are enough of them.
    pub fn take_due(&mut self) -> (r: Option<Vec<T>>)
        ensures
            final(self).due_at() == old(self).due_at(),
            match r {
                Some(v) => old(self).waiting().len() >= old(self).due_at() && v@ == old(
                    self,
                ).waiting() && final(self).waiting() == Seq::<T>::empty(),
                None => old(self).waiting().len() < old(self).due_at() && final(self).waiting()
                    == old(self).waiting(),
            },
    {
        if self.items.len() >= self.limit {
            let mut out: Vec<T> = Vec::new();
            out.append(&mut self.items);
            Some(out)
        } else {
            None
        }
    }

    /// Adds payloads one by one and hands a batch out each time that one is due.
    pub fn push_each(&mut self, payloads: Vec<T>) -> (sent: Vec<Vec<T>>)
        requires
            old(self).due_at() > 0,
            old(self).waiting().len() < old(self).due_at(),
        ensures
            final(self).due_at() == old(self).due_at(),
            final(self).waiting().len() < final(self).due_at(),
            chained(sent@) + final(self).waiting() == old(self).waiting() + payloads@,
            forall|i: int|
                0 <= i < sent@.len() ==> (#[trigger] sent@[i])@.len() == old(self).due_at(),
    {
        let mut sent: Vec<Vec<T>> = Vec::new();
        let ghost start = self.waiting();
        assert(chained(sent@) + self.waiting() =~= start + payloads@.take(0));
        for payload in it: payloads
            invariant
                it.seq() == payloads@,
                start == old(self).waiting(),
                self.due_at() == old(self).due_at(),
                self.due_at() > 0,
                self.waiting().len() < self.due_at(),
                chained(sent@) + self.waiting() == start + payloads@.take(it.index()),
                forall|i: int|
                    0 <= i < sent@.len() ==> (#[trigger] sent@[i])@.len() == old(self).due_at(),
        {
            let ghost gone = chained(sent@);
            let ghost kept = self.waiting();
            self.push(payload);
            proof {
                assert(payloads@.take(it.index() + 1) =~= payloads@.take(it.index()).push(payload));
                assert(gone + self.waiting() =~= (gone + kept).push(payload));
                assert((start + payloads@.take(it.index())).push(payload) =~= start
                    + payloads@.take(it.index() + 1));
            }
            let ghost all = self.waiting();
            match self.take_due() {
                Some(batch) => {
                    let ghost before = sent@;
                    sent.push(batch);
                    proof {
                        assert(sent@.drop_last() =~= before);
                        assert(chained(sent@) + self.waiting() =~= gone + all);
                    }
                },
                None => {},
            }
        }
        assert(payloads@.take(payloads@.len() as int) =~= payloads@);
        sent
    }

    /// Hands all payloads out, in order, when there are any.
    pub fn take_rest(&mut self) -> (r: Option<Vec<T>>)
        ensures
            final(self).due_at() == old(self).due_at(),
            final(self).waiting() == Seq::<T>::empty(),
            match r {
                Some(v) => old(self).waiting().len() > 0 && v@ == old(self).waiting(),
                None => old(self).waiting().len() == 0,
            },
    {
        if self.items.len() > 0 {
            let mut out: Vec<T> = Vec::new();
            out.append(&mut self.items);
            Some(out)
        } else {
            assert(self.items@ =~= Seq::<T>::empty());
            None
        }
    }
}

/// Whether an optional text is what a value says under a name: the text of its first
/// field of that name, and none where there is no such field or it is no text.
pub open spec fn carries(s: Option<String>, v: Doc, key: Seq<char>) -> bool {
    &&& forall|t: Seq<char>|
        #[trigger] has_field(v, key, Doc::Str(t)) ==> (s matches Some(x) && x@ == t)
    &&& forall|x: Doc| #[trigger] has_field(v, key, x) && !(x is Str) ==> s is None
    &&& lacks(v, key) ==> s is None
}

/// Whether an optional time is the whole number that a value says under a name.
pub open spec fn carries_time(t: Option<u64>, v: Doc, key: Seq<char>) -> bool {
    &&& forall|n: Number| #[trigger] has_field(v, key, Doc::Num(n)) ==> t == n.unsigned
    &&& forall|x: Doc| #[trigger] has_field(v, key, x) && !(x is Num) ==> t is None
    &&& lacks(v, key) ==> t is None
}

/// Whether the side of a trade goes by the flag that its buyer was the resting side: a
/// sale where it is set, and a purchase where it is not or is missing.
pub open spec fn carries_side(side: String, v: Doc, key: Seq<char>) -> bool {
    &&& has_field(v, key, Doc::Bool(true)) ==> side@ == "sell"@
    &&& has_field(v, key, Doc::Bool(false)) ==> side@ == "buy"@
    &&& lacks(v, key) ==> side@ == "buy"@
}

/// Whether a text is the one that a value says under a name.
pub open spec fn carries_name(s: Seq<char>, v: Doc, key: Seq<char>) -> bool {
    forall|t: Seq<char>| #[trigger] has_field(v, key, Doc::Str(t)) ==> s == t
}

/// A text that was read under a name is the one that stands there.
pub proof fn lemma_carries(s: Option<String>, v: Doc, key: Seq<char>)
    requires
        opt_string(s) == str_field(v, key),
    ensures
        carries(s, v, key),
{
    assert forall|x: Doc| #[trigger] has_field(v, key, x) implies str_field(v, key) == (match x {
        Doc::Str(t) => Some(t),
        _ => None,
    }) by {
        law_fields_are_read_by_name(v, key, x);
    }
    if lacks(v, key) {
        law_missing_fields_are_not_read(v, key);
    }
}

/// A time that was read under a name is the one that stands there.
pub proof fn lemma_carries_time(t: Option<u64>, v: Doc, key: Seq<char>)
    requires
        t == u64_field(v, key),
    ensures
        carries_time(t, v, key),
{
    assert forall|x: Doc| #[trigger] has_field(v, key, x) implies u64_field(v, key) == (match x {
        Doc::Num(n) => n.unsigned,
        _ => None,
    }) by {
        law_fields_are_read_by_name(v, key, x);
    }
    if lacks(v, key) {
        law_missing_fields_are_not_read(v, key);
    }
}

/// The name of an aggressor goes by the flag that it was made of.
pub proof fn lemma_carries_side(side: String, v: Doc, key: Seq<char>)
    requires
        side@ == aggressor(or_false(bool_field(v, key))),
    ensures
        carries_side(side, v, key),
{
    if has_field(v, key, Doc::Bool(true)) {
        law_fields_are_read_by_name(v, key, Doc::Bool(true));
    }
    if has_field(v, key, Doc::Bool(false)) {
        law_fields_are_read_by_name(v, key, Doc::Bool(false));
    }
    if lacks(v, key) {
        law_missing_fields_are_not_read(v, key);
    }
}

/// A name that was read, or an empty one in its place, is the one that stands there.
pub proof fn lemma_carries_name(s: Seq<char>, v: Doc, key: Seq<char>)
    requires
        s == or_empty(str_field(v, key)),
    ensures
        carries_name(s, v, key),
{
    assert forall|t: Seq<char>| #[trigger] has_field(v, key, Doc::Str(t)) implies s == t by {
        law_fields_are_read_by_name(v, key, Doc::Str(t));
    }
}

/// What is kept of a list is what its items say, one after the other: nothing of an empty
/// list, what an item says of a list of one, and of two lists joined what is kept of the
/// first and then what is kept of the second.
pub proof fn law_kept_goes_item_by_item<M>(
    a: Seq<Doc>,
    x: Doc,
    b: Seq<Doc>,
    read: spec_fn(Doc) -> Option<M>,
)
    ensures
        kept(Seq::empty(), read) == Seq::<M>::empty(),
        kept(seq![x], read) == (match read(x) {
            Some(m) => seq![m],
            None => Seq::<M>::empty(),
        }),
        kept(a + b, read) == kept(a, read) + kept(b, read),
    decreases b.len(),
{
    reveal_with_fuel(kept, 2);
    assert(seq![x].drop_last() =~= Seq::<Doc>::empty());
    match read(x) {
        Some(m) => {
            assert(kept(seq![x], read) =~= seq![m]);
        },
        None => {},
    }
    if b.len() == 0 {
        assert(a + b =~= a);
        assert(kept(a, read) + kept(b, read) =~= kept(a, read));
    } else {
        law_kept_goes_item_by_item(a, x, b.drop_last(), read);
        assert((a + b).drop_last() =~= a + b.drop_last());
        match read(b.last()) {
            Some(m) => {
                assert(kept(a, read) + kept(b.drop_last(), read).push(m) =~= (kept(a, read) + kept(
                    b.drop_last(),
                    read,
                )).push(m));
            },
            None => {},
        }
    }
}

/// Where every item says something, what is kept has one entry for each, in order.
pub proof fn lemma_all_kept<M>(items: Seq<Doc>, read: spec_fn(Doc) -> Option<M>)
    requires
        forall|i: int| 0 <= i < items.len() ==> read(#[trigger] items[i]) is Some,
    ensures
        kept(items, read).len() == items.len(),
        forall|i: int|
            0 <= i < items.len() ==> read(#[trigger] items[i]) == Some(kept(items, read)[i]),
    decreases items.len(),
{
    if items.len() > 0 {
        let front = items.drop_last();
        assert forall|i: int| 0 <= i < front.len() implies read(#[trigger] front[i]) is Some by {
            assert(front[i] == items[i]);
        }
        lemma_all_kept(front, read);
        assert(read(items[items.len() - 1]) is Some);
        assert forall|i: int| 0 <= i < items.len() implies read(#[trigger] items[i]) == Some(
            kept(items, read)[i],
        ) by {
            if i < front.len() {
                assert(front[i] == items[i]);
            }
        }
    }
}

/// What becomes of a price message: its symbol, the exchange and the four numbers, each in
/// its own place, zero for one that could not be read; its own time, or now where it has
/// none.
pub proof fn law_price_is_settled(
    parts: TickerParts,
    exchange: &str,
    read: (Option<Float>, Option<Float>, Option<Float>, Option<Float>),
    now: u64,
    r: NormalizedData,
)
    requires
        call_ensures(TickerParts::settle, (parts, exchange, read, now), r),
    ensures
        r.exchange@ == exchange@,
        r.symbol@ == parts.symbol@,
        read.0 matches Some(x) ==> r.price == x,
        read.1 matches Some(x) ==> r.volume == x,
        read.2 matches Some(x) ==> r.high == x,
        read.3 matches Some(x) ==> r.low == x,
        read.0 is None ==> r.price == Float(0),
        read.1 is None ==> r.volume == Float(0),
        read.2 is None ==> r.high == Float(0),
        read.3 is None ==> r.low == Float(0),
        parts.timestamp matches Some(t) ==> r.timestamp == t,
        parts.timestamp is None ==> r.timestamp == now,
{
}

/// What becomes of a book message: its symbol, the exchange and the four numbers, each in
/// its own place; its own time, or now where it has none. It is dropped exactly when the
/// filter asks for it: for a bid or an ask at or below zero, for one that is zero, or
/// never.
pub proof fn law_top_is_settled(
    parts: TopParts,
    exchange: &str,
    filter: Filter,
    read: (Option<Float>, Option<Float>, Option<Float>, Option<Float>),
    now: u64,
    r: Option<OrderBookTop>,
)
    requires
        call_ensures(TopParts::settle, (parts, exchange, filter, read, now), r),
    ensures
        r matches Some(t) ==> {
            &&& t.exchange@ == exchange@
            &&& t.symbol@ == parts.symbol@
            &&& read.0 matches Some(x) ==> t.bid == x
            &&& read.1 matches Some(x) ==> t.ask == x
            &&& read.2 matches Some(x) ==> t.bid_qty == x
            &&& read.3 matches Some(x) ==> t.ask_qty == x
            &&& read.0 is None ==> t.bid == Float(0)
            &&& read.1 is None ==> t.ask == Float(0)
            &&& read.2 is None ==> t.bid_qty == Float(0)
            &&& read.3 is None ==> t.ask_qty == Float(0)
            &&& parts.timestamp matches Some(ts) ==> t.timestamp == ts
            &&& parts.timestamp is None ==> t.timestamp == now
        },
        filter is Any ==> r is Some,
        read.0 matches Some(bid) ==> read.1 matches Some(ask) ==> {
            &&& filter is AboveZero && is_positive(bid) && is_positive(ask) ==> r is Some
            &&& filter is AboveZero && !is_nan(bid) && !is_positive(bid) ==> r is None
            &&& filter is AboveZero && !is_nan(ask) && !is_positive(ask) ==> r is None
            &&& filter is NotZero ==> (r is None <==> bid.0 == 0 || bid.0 == SIGN || ask.0 == 0
                || ask.0 == SIGN)
        },
        !(filter is Any) && (read.0 is None || read.1 is None) ==> r is None,
{
}

/// What becomes of a trade message: its symbol, side and exchange, the price as the price
/// and the quantity as the quantity; its own time, or now where it has none. It is dropped
/// exactly when the filter asks for it.
pub proof fn law_trade_is_settled(
    parts: TradeParts,
    exchange: &str,
    filter: Filter,
    read: (Option<Float>, Option<Float>),
    now: u64,
    r: Option<TradeEvent>,
)
    requires
        call_ensures(TradeParts::settle, (parts, exchange, filter, read, now), r),
    ensures
        r matches Some(t) ==> {
            &&& t.exchange@ == exchange@
            &&& t.symbol@ == parts.symbol@
            &&& t.side@ == parts.side@
            &&& read.0 matches Some(x) ==> t.price == x
            &&& read.1 matches Some(x) ==> t.qty == x
            &&& read.0 is None ==> t.price == Float(0)
            &&& read.1 is None ==> t.qty == Float(0)
            &&& parts.timestamp matches Some(ts) ==> t.timestamp == ts
            &&& parts.timestamp is None ==> t.timestamp == now
        },
        filter is Any ==> r is Some,
        read.0 matches Some(price) ==> read.1 matches Some(qty) ==> {
            &&& filter is AboveZero && is_positive(price) && is_positive(qty) ==> r is Some
            &&& filter is AboveZero && !is_nan(price) && !is_positive(price) ==> r is None
            &&& filter is AboveZero && !is_nan(qty) && !is_positive(qty) ==> r is None
            &&& filter is NotZero ==> (r is None <==> price.0 == 0 || price.0 == SIGN || qty.0 == 0
                || qty.0 == SIGN)
        },
        !(filter is Any) && (read.0 is None || read.1 is None) ==> r is None,
{
}

} // verus!
